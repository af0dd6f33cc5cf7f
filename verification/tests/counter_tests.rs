use chars_counter::{CharsCounter, ICharCounterExt, ICharsCounter};

fn entry(character: char, count: usize) -> CharsCounter {
    CharsCounter { character, count }
}

#[test]
fn most_chars_test() {
    let str = "Hello world!";
    let result = str.count_chars().most_chars();
    assert_eq!(
        result[0],
        CharsCounter {
            character: 'l',
            count: 3
        }
    );
}

#[test]
fn least_chars_test() {
    let str = "Hello world!";
    let result = str.count_chars().least_chars();
    assert_eq!(
        result[0],
        CharsCounter {
            character: ' ',
            count: 1
        }
    );
}

#[test]
fn find_by_num_test() {
    let str = "Hello world!";
    let result = str.count_chars().find_by_num(2);
    assert_eq!(
        result[0],
        CharsCounter {
            character: 'o',
            count: 2
        }
    );
}

#[test]
fn find_by_char_test() {
    let str = "Hello world!";
    let result = str.count_chars().find_by_char('H').unwrap();
    assert_eq!(
        result,
        CharsCounter {
            character: 'H',
            count: 1
        }
    );
}

#[test]
fn full_order_scenario() {
    let result = "Hello world!".count_chars();
    let expected = vec![
        entry('l', 3),
        entry('o', 2),
        entry(' ', 1),
        entry('!', 1),
        entry('H', 1),
        entry('d', 1),
        entry('e', 1),
        entry('r', 1),
        entry('w', 1),
    ];
    assert_eq!(result, expected);
}

#[test]
fn most_chars_exact() {
    let result = "Hello world!".count_chars().most_chars();
    assert_eq!(result, vec![entry('l', 3)]);
}

#[test]
fn least_chars_exact() {
    let result = "Hello world!".count_chars().least_chars();
    let expected = vec![
        entry(' ', 1),
        entry('!', 1),
        entry('H', 1),
        entry('d', 1),
        entry('e', 1),
        entry('r', 1),
        entry('w', 1),
    ];
    assert_eq!(result, expected);
}

#[test]
fn find_by_num_exact() {
    let result = "Hello world!".count_chars().find_by_num(2);
    assert_eq!(result, vec![entry('o', 2)]);
}

#[test]
fn find_by_num_no_match() {
    let result = "Hello world!".count_chars().find_by_num(7);
    assert_eq!(result, Vec::new());
}

#[test]
fn find_by_char_present_and_absent() {
    let result = "Hello world!".count_chars();
    assert_eq!(result.find_by_char('H'), Some(entry('H', 1)));
    assert_eq!(result.find_by_char('z'), None);
}

#[test]
fn count_twice_deep_equal() {
    let first = "Hello world!".count_chars();
    let second = "Hello world!".count_chars();
    assert_eq!(first, second);
}

#[test]
fn sum_of_counts_is_text_length() {
    let result = "Hello world!".count_chars();
    let total: usize = result.iter().map(|e| e.count).sum();
    assert_eq!(total, "Hello world!".chars().count());
}

#[test]
fn equal_counts_sorted_by_code_point() {
    let result = "ba".count_chars();
    assert_eq!(result, vec![entry('a', 1), entry('b', 1)]);
}

#[test]
fn empty_text_yields_empty_result() {
    let result = "".count_chars();
    assert_eq!(result, Vec::new());
}

#[test]
fn extremal_queries_on_empty_result_yield_empty() {
    let empty: Vec<CharsCounter> = Vec::new();
    assert_eq!(empty.most_chars(), Vec::new());
    assert_eq!(empty.least_chars(), Vec::new());
    assert_eq!(empty.find_by_num(1), Vec::new());
    assert_eq!(empty.find_by_char('a'), None);
}

#[test]
fn queries_chain() {
    let result = "Hello world!".count_chars().least_chars().find_by_char('H');
    assert_eq!(result, Some(entry('H', 1)));
}

#[test]
fn counter_filter_by_count() {
    let result = "Hello world!".count_chars().counter_filter(|x| x.count > 1);
    assert_eq!(result, vec![entry('l', 3), entry('o', 2)]);
}

#[test]
fn custom_filter_skips_spaces() {
    let result = "Hello world!".count_chars_filter(|x| x != ' ');
    let expected = vec![
        entry('l', 3),
        entry('o', 2),
        entry('!', 1),
        entry('H', 1),
        entry('d', 1),
        entry('e', 1),
        entry('r', 1),
        entry('w', 1),
    ];
    assert_eq!(result, expected);
}

#[test]
fn find_by_char_returns_first_match() {
    let raw = vec![entry('a', 2), entry('a', 1)];
    assert_eq!(raw.find_by_char('a'), Some(entry('a', 2)));
}
