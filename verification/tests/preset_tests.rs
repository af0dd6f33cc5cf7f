use chars_counter::{CharsCounter, ICharsCounter};

fn entry(character: char, count: usize) -> CharsCounter {
    CharsCounter { character, count }
}

#[test]
fn ascii_preset() {
    let result = "a\u{e9}1 \u{4e2d}a".count_chars_ascii();
    assert_eq!(result, vec![entry('a', 2), entry(' ', 1), entry('1', 1)]);
}

#[test]
fn numeric_preset() {
    let result = "a1b22".count_chars_numeric();
    assert_eq!(result, vec![entry('2', 2), entry('1', 1)]);
}

#[test]
fn alphabetic_preset() {
    let result = "a1b2c3a".count_chars_alphabetic();
    assert_eq!(result, vec![entry('a', 2), entry('b', 1), entry('c', 1)]);
}

#[test]
fn alphanumeric_preset() {
    let result = "a1! a".count_chars_alphanumeric();
    assert_eq!(result, vec![entry('a', 2), entry('1', 1)]);
}

#[test]
fn whitespace_preset() {
    let result = "a b\tc ".count_chars_whitespace();
    assert_eq!(result, vec![entry(' ', 2), entry('\t', 1)]);
}

#[test]
fn no_whitespace_preset_excludes_only_space() {
    let result = "a a\ta".count_chars_no_whitespace();
    assert_eq!(result, vec![entry('a', 3), entry('\t', 1)]);
}

#[test]
fn chinese_preset() {
    let result = "\u{4e2d}\u{6587}abc\u{4e2d}".count_chars_chinese();
    assert_eq!(result, vec![entry('\u{4e2d}', 2), entry('\u{6587}', 1)]);
}

#[test]
fn chinese_preset_block_bounds() {
    let text = "\u{4dff}\u{4e00}\u{9fff}\u{a000}";
    let result = text.count_chars_chinese();
    assert_eq!(result, vec![entry('\u{4e00}', 1), entry('\u{9fff}', 1)]);
}

#[test]
fn all_preset_counts_everything() {
    let result = "\u{e9} \u{e9}".count_chars();
    assert_eq!(result, vec![entry('\u{e9}', 2), entry(' ', 1)]);
}
