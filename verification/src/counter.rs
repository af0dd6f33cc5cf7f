//! The counter: turn a text into a sorted frequency result.

use vstd::prelude::*;
use vstd::string::StrSliceExecFns;

use crate::classify::{
    char_is_alphabetic, char_is_alphanumeric, char_is_numeric, char_is_whitespace,
    is_alphabetic_char, is_numeric_char, is_whitespace_char,
};
use crate::model::{
    distinct_characters, entry_before, has_character, is_count_result, occurrences,
    sorted_by_count, CharsCounter,
};

verus! {

/// Index of the entry carrying `c`, if one does.
fn find_char_index(entries: &Vec<CharsCounter>, c: char) -> (r: Option<usize>)
    ensures
        match r {
            Some(j) => j < entries@.len() && entries@[j as int].character == c,
            None => !has_character(entries@, c),
        },
{
    let mut j: usize = 0;
    while j < entries.len()
        invariant
            j <= entries@.len(),
            forall|k: int| 0 <= k < j ==> (#[trigger] entries@[k]).character != c,
        decreases entries@.len() - j,
    {
        if entries[j].character == c {
            return Some(j);
        }
        j += 1;
    }
    None
}

/// Whether `cs` holds the character `c`.
fn contains_char(cs: &Vec<char>, c: char) -> (b: bool)
    ensures
        b == cs@.contains(c),
{
    let mut j: usize = 0;
    while j < cs.len()
        invariant
            j <= cs@.len(),
            forall|k: int| 0 <= k < j ==> cs@[k] != c,
        decreases cs@.len() - j,
    {
        if cs[j] == c {
            assert(cs@.contains(c));
            return true;
        }
        j += 1;
    }
    false
}

/// Whether `a` comes strictly before `b` in the result order.
fn entry_lt(a: CharsCounter, b: CharsCounter) -> (r: bool)
    ensures
        r == entry_before(a, b),
{
    a.count > b.count || (a.count == b.count && a.character < b.character)
}

/// Sort entries with pairwise distinct characters into the result order, by
/// insertion; the set of entries is unchanged.
fn sort_entries(entries: Vec<CharsCounter>) -> (out: Vec<CharsCounter>)
    requires
        distinct_characters(entries@),
    ensures
        sorted_by_count(out@),
        distinct_characters(out@),
        forall|e: CharsCounter| #[trigger] out@.contains(e) <==> entries@.contains(e),
{
    let mut out: Vec<CharsCounter> = Vec::new();
    let mut idx: usize = 0;
    while idx < entries.len()
        invariant
            idx <= entries@.len(),
            distinct_characters(entries@),
            sorted_by_count(out@),
            distinct_characters(out@),
            forall|e: CharsCounter| #[trigger] out@.contains(e) <==> entries@.take(
                idx as int,
            ).contains(e),
        decreases entries@.len() - idx,
    {
        let e = entries[idx];
        let ghost old_out = out@;
        proof {
            // The new entry's character is not among those already placed.
            assert forall|k: int| 0 <= k < old_out.len() implies (#[trigger] old_out[k]).character
                != e.character by {
                if old_out[k].character == e.character {
                    assert(old_out.contains(old_out[k]));
                    let i = choose|i: int|
                        0 <= i < entries@.take(idx as int).len() && entries@.take(idx as int)[i]
                            == old_out[k];
                    assert(entries@[i] == old_out[k]);
                    assert(entries@[i].character == entries@[idx as int].character);
                }
            }
        }
        let mut pos: usize = 0;
        while pos < out.len() && entry_lt(out[pos], e)
            invariant
                pos <= out@.len(),
                out@ == old_out,
                forall|k: int| 0 <= k < pos ==> entry_before(#[trigger] out@[k], e),
            decreases out@.len() - pos,
        {
            pos += 1;
        }
        proof {
            // Entries at and after the insertion point come strictly after `e`.
            if pos < old_out.len() {
                assert(!entry_before(old_out[pos as int], e));
                assert(entry_before(e, old_out[pos as int]));
            }
        }
        out.insert(pos, e);
        proof {
            old_out.insert_ensures(pos as int, e);
            assert(entries@.take(idx as int).push(entries@[idx as int]) =~= entries@.take(
                idx as int + 1,
            ));
            assert forall|x: CharsCounter| #[trigger] out@.contains(x) implies entries@.take(
                idx as int + 1,
            ).contains(x) by {
                let i = choose|i: int| 0 <= i < out@.len() && out@[i] == x;
                if i < pos {
                    assert(old_out[i] == x);
                    assert(old_out.contains(x));
                } else if i == pos {
                    crate::model::lemma_contains_split_last(entries@.take(idx as int + 1), x);
                } else {
                    assert(old_out[i - 1] == x);
                    assert(old_out.contains(x));
                }
                if old_out.contains(x) {
                    assert(entries@.take(idx as int).contains(x));
                    crate::model::lemma_contains_split_last(entries@.take(idx as int + 1), x);
                }
            }
            assert forall|x: CharsCounter| entries@.take(idx as int + 1).contains(
                x,
            ) implies #[trigger] out@.contains(x) by {
                crate::model::lemma_contains_split_last(entries@.take(idx as int + 1), x);
                if entries@.take(idx as int).contains(x) {
                    assert(old_out.contains(x));
                    let i = choose|i: int| 0 <= i < old_out.len() && old_out[i] == x;
                    if i < pos {
                        assert(out@[i] == x);
                    } else {
                        assert(out@[i + 1] == x);
                    }
                } else {
                    assert(out@[pos as int] == x);
                }
            }
            assert forall|i: int, j: int| 0 <= i < j < out@.len() implies entry_before(
                out@[i],
                out@[j],
            ) by {
                if j < pos {
                } else if i < pos && j == pos {
                    assert(entry_before(old_out[i], e));
                } else if i < pos && j > pos {
                    assert(out@[j] == old_out[j - 1]);
                } else if i == pos {
                    assert(out@[j] == old_out[j - 1]);
                    assert(entry_before(e, old_out[pos as int]));
                    if j - 1 > pos {
                        assert(entry_before(old_out[pos as int], old_out[j - 1]));
                    }
                } else {
                    assert(out@[i] == old_out[i - 1] && out@[j] == old_out[j - 1]);
                }
            }
            assert forall|i: int, j: int| 0 <= i < j < out@.len() implies (#[trigger] out@[i]).character
                != (#[trigger] out@[j]).character by {
                if i == pos {
                    assert(out@[j] == old_out[j - 1]);
                } else if j == pos {
                    assert(out@[i] == old_out[i]);
                } else {
                    if i < pos {
                        assert(out@[i] == old_out[i]);
                    } else {
                        assert(out@[i] == old_out[i - 1]);
                    }
                    if j < pos {
                        assert(out@[j] == old_out[j]);
                    } else {
                        assert(out@[j] == old_out[j - 1]);
                    }
                }
            }
        }
        idx += 1;
    }
    proof {
        assert(entries@.take(entries@.len() as int) =~= entries@);
    }
    out
}

/// `r` is the frequency result of `s` under some predicate that agrees, on
/// every character of `s`, with what the call of `predicate` returned.
pub open spec fn filter_result_matches<P: Fn(char) -> bool>(
    s: Seq<char>,
    predicate: P,
    r: Seq<CharsCounter>,
) -> bool {
    exists|p: spec_fn(char) -> bool|
        #![trigger is_count_result(s, p, r)]
        {
            &&& (forall|c: char| #[trigger] s.contains(c) ==> call_ensures(predicate, (c,), p(c)))
            &&& is_count_result(s, p, r)
        }
}

/// A frequency result depends on the predicate only through the characters
/// of the text: predicates that agree there give the same result.
pub proof fn lemma_exact_predicate(
    s: Seq<char>,
    q: spec_fn(char) -> bool,
    r: Seq<CharsCounter>,
    p: spec_fn(char) -> bool,
)
    requires
        forall|c: char| #[trigger] s.contains(c) ==> p(c) == q(c),
        is_count_result(s, p, r),
    ensures
        is_count_result(s, q, r),
{
    assert forall|i: int| #![trigger r[i]] 0 <= i < r.len() implies q(r[i].character) && r[i].count
        == occurrences(s, r[i].character) && r[i].count > 0 by {
        crate::model::lemma_occurrences_zero(s, r[i].character);
        assert(s.contains(r[i].character));
    }
    assert forall|c: char| #[trigger] s.contains(c) && q(c) implies has_character(r, c) by {
        assert(p(c));
    }
}

/// For a predicate whose result is determined by its argument, the
/// relational contract of the filtering counter pins the result down to the
/// frequency result under that determined predicate.
pub proof fn lemma_deterministic_filter<P: Fn(char) -> bool>(
    s: Seq<char>,
    predicate: P,
    q: spec_fn(char) -> bool,
    r: Seq<CharsCounter>,
)
    requires
        filter_result_matches(s, predicate, r),
        forall|c: char, b: bool| #[trigger] call_ensures(predicate, (c,), b) ==> b == q(c),
    ensures
        is_count_result(s, q, r),
{
    let p = choose|p: spec_fn(char) -> bool|
        #![trigger is_count_result(s, p, r)]
        {
            &&& (forall|c: char| #[trigger] s.contains(c) ==> call_ensures(predicate, (c,), p(c)))
            &&& is_count_result(s, p, r)
        };
    assert forall|c: char| #[trigger] s.contains(c) implies p(c) == q(c) by {
        assert(call_ensures(predicate, (c,), p(c)));
    }
    lemma_exact_predicate(s, q, r, p);
}

/// Character counting over a text, with a fixed or custom inclusion
/// predicate.
pub trait ICharsCounter {
    /// Count every character.
    fn count_chars(&self) -> (r: Vec<CharsCounter>);

    /// Count the characters in the ASCII range.
    fn count_chars_ascii(&self) -> (r: Vec<CharsCounter>);

    /// Count the characters classified as numeric.
    fn count_chars_numeric(&self) -> (r: Vec<CharsCounter>);

    /// Count the characters classified as alphabetic.
    fn count_chars_alphabetic(&self) -> (r: Vec<CharsCounter>);

    /// Count the characters classified as alphabetic or numeric.
    fn count_chars_alphanumeric(&self) -> (r: Vec<CharsCounter>);

    /// Count the characters classified as whitespace.
    fn count_chars_whitespace(&self) -> (r: Vec<CharsCounter>);

    /// Count every character but the literal space character `' '`. Note
    /// that this is narrower than "not whitespace": tabs, newlines and other
    /// whitespace characters are still counted.
    fn count_chars_no_whitespace(&self) -> (r: Vec<CharsCounter>);

    /// Count the characters in the CJK Unified Ideographs block,
    /// `U+4E00..=U+9FFF`.
    fn count_chars_chinese(&self) -> (r: Vec<CharsCounter>);

    /// Count the characters accepted by `predicate`. The predicate is called
    /// at most once per distinct character, so the result is a frequency
    /// result under one fixed choice among the answers the predicate may
    /// give.
    fn count_chars_filter<P: Fn(char) -> bool>(&self, predicate: P) -> (r: Vec<CharsCounter>)
        requires
            forall|c: char| #[trigger] call_requires(predicate, (c,)),
    ;
}

impl ICharsCounter for &str {
    fn count_chars(&self) -> (r: Vec<CharsCounter>)
        ensures
            is_count_result(self@, (|c: char| true), r@),
    {
        let f = |c: char| -> (b: bool)
            ensures
                b == true,
            { true };
        let r = self.count_chars_filter(f);
        proof {
            lemma_deterministic_filter(self@, f, (|c: char| true), r@);
        }
        r
    }

    fn count_chars_ascii(&self) -> (r: Vec<CharsCounter>)
        ensures
            is_count_result(self@, (|c: char| c as u32 <= 0x7F), r@),
    {
        let f = |c: char| -> (b: bool)
            ensures
                b == (c as u32 <= 0x7F),
            { c as u32 <= 0x7F };
        let r = self.count_chars_filter(f);
        proof {
            lemma_deterministic_filter(self@, f, (|c: char| c as u32 <= 0x7F), r@);
        }
        r
    }

    fn count_chars_numeric(&self) -> (r: Vec<CharsCounter>)
        ensures
            is_count_result(self@, (|c: char| is_numeric_char(c)), r@),
    {
        let f = |c: char| -> (b: bool)
            ensures
                b == is_numeric_char(c),
            { char_is_numeric(c) };
        let r = self.count_chars_filter(f);
        proof {
            lemma_deterministic_filter(self@, f, (|c: char| is_numeric_char(c)), r@);
        }
        r
    }

    fn count_chars_alphabetic(&self) -> (r: Vec<CharsCounter>)
        ensures
            is_count_result(self@, (|c: char| is_alphabetic_char(c)), r@),
    {
        let f = |c: char| -> (b: bool)
            ensures
                b == is_alphabetic_char(c),
            { char_is_alphabetic(c) };
        let r = self.count_chars_filter(f);
        proof {
            lemma_deterministic_filter(self@, f, (|c: char| is_alphabetic_char(c)), r@);
        }
        r
    }

    fn count_chars_alphanumeric(&self) -> (r: Vec<CharsCounter>)
        ensures
            is_count_result(self@, (|c: char| is_alphabetic_char(c) || is_numeric_char(c)), r@),
    {
        let f = |c: char| -> (b: bool)
            ensures
                b == (is_alphabetic_char(c) || is_numeric_char(c)),
            { char_is_alphanumeric(c) };
        let r = self.count_chars_filter(f);
        proof {
            lemma_deterministic_filter(
                self@,
                f,
                (|c: char| is_alphabetic_char(c) || is_numeric_char(c)),
                r@,
            );
        }
        r
    }

    fn count_chars_whitespace(&self) -> (r: Vec<CharsCounter>)
        ensures
            is_count_result(self@, (|c: char| is_whitespace_char(c)), r@),
    {
        let f = |c: char| -> (b: bool)
            ensures
                b == is_whitespace_char(c),
            { char_is_whitespace(c) };
        let r = self.count_chars_filter(f);
        proof {
            lemma_deterministic_filter(self@, f, (|c: char| is_whitespace_char(c)), r@);
        }
        r
    }

    fn count_chars_no_whitespace(&self) -> (r: Vec<CharsCounter>)
        ensures
            is_count_result(self@, (|c: char| c != ' '), r@),
    {
        let f = |c: char| -> (b: bool)
            ensures
                b == (c != ' '),
            { c != ' ' };
        let r = self.count_chars_filter(f);
        proof {
            lemma_deterministic_filter(self@, f, (|c: char| c != ' '), r@);
        }
        r
    }

    fn count_chars_chinese(&self) -> (r: Vec<CharsCounter>)
        ensures
            is_count_result(self@, (|c: char| 0x4E00 <= c as u32 <= 0x9FFF), r@),
    {
        let f = |c: char| -> (b: bool)
            ensures
                b == (0x4E00 <= c as u32 <= 0x9FFF),
            {
                let u = c as u32;
                0x4E00 <= u && u <= 0x9FFF
            };
        let r = self.count_chars_filter(f);
        proof {
            lemma_deterministic_filter(self@, f, (|c: char| 0x4E00 <= c as u32 <= 0x9FFF), r@);
        }
        r
    }

    fn count_chars_filter<P: Fn(char) -> bool>(&self, predicate: P) -> (r: Vec<CharsCounter>)
        ensures
            filter_result_matches(self@, predicate, r@),
    {
        let text: &str = self;
        let n = text.unicode_len();
        let mut acc: Vec<CharsCounter> = Vec::new();
        let mut rejected: Vec<char> = Vec::new();
        let mut i: usize = 0;
        while i < n
            invariant
                i <= n,
                n == text@.len(),
                forall|c: char| #[trigger] call_requires(predicate, (c,)),
                distinct_characters(acc@),
                forall|k: int|
                    #![trigger acc@[k]]
                    0 <= k < acc@.len() ==> call_ensures(predicate, (acc@[k].character,), true)
                        && acc@[k].count == occurrences(text@.take(i as int), acc@[k].character)
                        && acc@[k].count > 0,
                forall|k: int|
                    0 <= k < rejected@.len() ==> call_ensures(
                        predicate,
                        ((#[trigger] rejected@[k]),),
                        false,
                    ),
                forall|k: int|
                    0 <= k < rejected@.len() ==> !has_character(acc@, #[trigger] rejected@[k]),
                forall|c: char|
                    #[trigger] text@.take(i as int).contains(c) ==> has_character(acc@, c)
                        || rejected@.contains(c),
            decreases n - i,
        {
            let c = text.get_char(i);
            proof {
                assert(text@.take(i as int).push(text@[i as int]) =~= text@.take(i as int + 1));
            }
            let ghost prefix = text@.take(i as int);
            match find_char_index(&acc, c) {
                Some(j) => {
                    let cnt = acc[j].count;
                    proof {
                        crate::model::lemma_occurrences_le_len(prefix, c);
                    }
                    let ghost old_acc = acc@;
                    acc[j] = CharsCounter { character: c, count: cnt + 1 };
                    proof {
                        assert forall|k: int|
                            #![trigger acc@[k]]
                            0 <= k < acc@.len() implies call_ensures(
                            predicate,
                            (acc@[k].character,),
                            true,
                        ) && acc@[k].count == occurrences(prefix.push(c), acc@[k].character)
                            && acc@[k].count > 0 by {
                            crate::model::lemma_occurrences_push(prefix, c, acc@[k].character);
                            if k != j {
                                assert(acc@[k] == old_acc[k]);
                            }
                        }
                        assert forall|k: int| 0 <= k < rejected@.len() implies !has_character(
                            acc@,
                            #[trigger] rejected@[k],
                        ) by {
                            if has_character(acc@, rejected@[k]) {
                                let m = choose|m: int|
                                    0 <= m < acc@.len() && acc@[m].character == rejected@[k];
                                assert(old_acc[m].character == rejected@[k]);
                                assert(has_character(old_acc, rejected@[k]));
                            }
                        }
                        assert forall|x: char|
                            #[trigger] prefix.push(c).contains(x) implies has_character(acc@, x)
                            || rejected@.contains(x) by {
                            crate::model::lemma_contains_push(prefix, c, x);
                            if prefix.contains(x) {
                                if has_character(old_acc, x) {
                                    let m = choose|m: int|
                                        0 <= m < old_acc.len() && old_acc[m].character == x;
                                    assert(acc@[m].character == old_acc[m].character);
                                }
                            } else {
                                assert(acc@[j as int].character == c);
                            }
                        }
                    }
                },
                None => {
                    if contains_char(&rejected, c) {
                        proof {
                            assert forall|k: int|
                                #![trigger acc@[k]]
                                0 <= k < acc@.len() implies call_ensures(
                                predicate,
                                (acc@[k].character,),
                                true,
                            ) && acc@[k].count == occurrences(prefix.push(c), acc@[k].character)
                                && acc@[k].count > 0 by {
                                crate::model::lemma_occurrences_push(prefix, c, acc@[k].character);
                                assert(acc@[k].character != c);
                            }
                            assert forall|x: char|
                                #[trigger] prefix.push(c).contains(x) implies has_character(acc@, x)
                                || rejected@.contains(x) by {
                                crate::model::lemma_contains_push(prefix, c, x);
                            }
                        }
                    } else {
                        let keep = predicate(c);
                        let ghost old_acc = acc@;
                        if keep {
                            proof {
                                crate::model::lemma_occurrences_zero(prefix, c);
                            }
                            acc.push(CharsCounter { character: c, count: 1 });
                            proof {
                                assert forall|k: int|
                                    #![trigger acc@[k]]
                                    0 <= k < acc@.len() implies call_ensures(
                                    predicate,
                                    (acc@[k].character,),
                                    true,
                                ) && acc@[k].count == occurrences(prefix.push(c), acc@[k].character)
                                    && acc@[k].count > 0 by {
                                    crate::model::lemma_occurrences_push(
                                        prefix,
                                        c,
                                        acc@[k].character,
                                    );
                                    if k < old_acc.len() {
                                        assert(acc@[k] == old_acc[k]);
                                        assert(acc@[k].character != c);
                                    }
                                }
                                assert forall|k: int|
                                    0 <= k < acc@.len() && acc@[k].character != c implies old_acc.len()
                                    > 0 && acc@[k] == old_acc[k] by {}
                                assert forall|k: int| 0 <= k < rejected@.len() implies !has_character(
                                    acc@,
                                    #[trigger] rejected@[k],
                                ) by {
                                    if has_character(acc@, rejected@[k]) {
                                        let m = choose|m: int|
                                            0 <= m < acc@.len() && acc@[m].character
                                                == rejected@[k];
                                        if m < old_acc.len() {
                                            assert(has_character(old_acc, rejected@[k]));
                                        } else {
                                            assert(rejected@.contains(c));
                                        }
                                    }
                                }
                                assert forall|x: char|
                                    #[trigger] prefix.push(c).contains(x) implies has_character(
                                    acc@,
                                    x,
                                ) || rejected@.contains(x) by {
                                    crate::model::lemma_contains_push(prefix, c, x);
                                    if prefix.contains(x) {
                                        if has_character(old_acc, x) {
                                            let m = choose|m: int|
                                                0 <= m < old_acc.len() && old_acc[m].character == x;
                                            assert(acc@[m].character == x);
                                        }
                                    } else {
                                        assert(acc@[old_acc.len() as int].character == c);
                                    }
                                }
                            }
                        } else {
                            let ghost old_rejected = rejected@;
                            rejected.push(c);
                            proof {
                                assert forall|k: int|
                                    #![trigger acc@[k]]
                                    0 <= k < acc@.len() implies call_ensures(
                                    predicate,
                                    (acc@[k].character,),
                                    true,
                                ) && acc@[k].count == occurrences(prefix.push(c), acc@[k].character)
                                    && acc@[k].count > 0 by {
                                    crate::model::lemma_occurrences_push(
                                        prefix,
                                        c,
                                        acc@[k].character,
                                    );
                                    assert(acc@[k].character != c);
                                }
                                assert forall|x: char|
                                    #[trigger] prefix.push(c).contains(x) implies has_character(
                                    acc@,
                                    x,
                                ) || rejected@.contains(x) by {
                                    crate::model::lemma_contains_push(prefix, c, x);
                                    crate::model::lemma_contains_push(old_rejected, c, x);
                                }
                            }
                        }
                    }
                },
            }
            i += 1;
        }
        proof {
            assert(text@.take(n as int) =~= text@);
        }
        let ghost final_acc = acc@;
        let out = sort_entries(acc);
        proof {
            let p = |c: char| has_character(final_acc, c);
            assert forall|c: char| #[trigger] text@.contains(c) implies call_ensures(
                predicate,
                (c,),
                p(c),
            ) by {
                if has_character(final_acc, c) {
                    let k = choose|k: int|
                        0 <= k < final_acc.len() && final_acc[k].character == c;
                    assert(call_ensures(predicate, (final_acc[k].character,), true));
                } else {
                    assert(rejected@.contains(c));
                    let k = choose|k: int| 0 <= k < rejected@.len() && rejected@[k] == c;
                    assert(call_ensures(predicate, (rejected@[k],), false));
                }
            }
            assert forall|ii: int| #![trigger out@[ii]] 0 <= ii < out@.len() implies p(
                out@[ii].character,
            ) && out@[ii].count == occurrences(text@, out@[ii].character) && out@[ii].count
                > 0 by {
                assert(out@.contains(out@[ii]));
                let k = choose|k: int| 0 <= k < final_acc.len() && final_acc[k] == out@[ii];
                assert(final_acc[k].character == out@[ii].character);
            }
            assert forall|c: char| #[trigger] text@.contains(c) && p(c) implies has_character(
                out@,
                c,
            ) by {
                let k = choose|k: int| 0 <= k < final_acc.len() && final_acc[k].character == c;
                assert(final_acc.contains(final_acc[k]));
                assert(out@.contains(final_acc[k]));
                let m = choose|m: int| 0 <= m < out@.len() && out@[m] == final_acc[k];
                assert(out@[m].character == c);
            }
            assert(is_count_result(text@, p, out@));
        }
        out
    }
}

} // verus!
