//! The mathematical model of a frequency result: occurrence counts, the
//! order on entries, and what it means for a sequence of entries to be the
//! frequency result of a text under an inclusion predicate.

use vstd::prelude::*;

verus! {

/// One entry of a frequency result: a character together with the number of
/// times it occurred.
#[derive(Clone, Copy, PartialEq, Eq, Structural, Debug)]
pub struct CharsCounter {
    pub character: char,
    pub count: usize,
}

/// Number of occurrences of `c` in `s`.
pub open spec fn occurrences(s: Seq<char>, c: char) -> nat
    decreases s.len(),
{
    if s.len() == 0 {
        0
    } else {
        occurrences(s.drop_last(), c) + (if s.last() == c {
            1nat
        } else {
            0nat
        })
    }
}

/// Number of characters of `s` that `keep` accepts, counted with
/// multiplicity.
pub open spec fn accepted_count(s: Seq<char>, keep: spec_fn(char) -> bool) -> nat
    decreases s.len(),
{
    if s.len() == 0 {
        0
    } else {
        accepted_count(s.drop_last(), keep) + (if keep(s.last()) {
            1nat
        } else {
            0nat
        })
    }
}

/// The strict order on result entries: larger counts come first and, among
/// equal counts, smaller code points come first.
pub open spec fn entry_before(a: CharsCounter, b: CharsCounter) -> bool {
    a.count > b.count || (a.count == b.count && a.character < b.character)
}

/// Every earlier entry strictly precedes every later one under
/// [`entry_before`].
pub open spec fn sorted_by_count(r: Seq<CharsCounter>) -> bool {
    forall|i: int, j: int| 0 <= i < j < r.len() ==> entry_before(r[i], r[j])
}

/// No two entries carry the same character.
pub open spec fn distinct_characters(r: Seq<CharsCounter>) -> bool {
    forall|i: int, j: int|
        0 <= i < j < r.len() ==> (#[trigger] r[i]).character != (#[trigger] r[j]).character
}

/// Whether some entry of `r` carries the character `c`.
pub open spec fn has_character(r: Seq<CharsCounter>, c: char) -> bool {
    exists|i: int| 0 <= i < r.len() && (#[trigger] r[i]).character == c
}

/// `i` is the position of the first entry of `r` carrying the character `c`.
pub open spec fn is_first_match(r: Seq<CharsCounter>, c: char, i: int) -> bool {
    &&& 0 <= i < r.len()
    &&& r[i].character == c
    &&& forall|k: int| 0 <= k < i ==> (#[trigger] r[k]).character != c
}

/// `r` is the frequency result of the text `s` under the inclusion predicate
/// `keep`: sorted by descending count with ties broken by ascending code
/// point, one entry per distinct accepted character that occurs in `s`, each
/// carrying that character's exact number of occurrences.
pub open spec fn is_count_result(
    s: Seq<char>,
    keep: spec_fn(char) -> bool,
    r: Seq<CharsCounter>,
) -> bool {
    &&& sorted_by_count(r)
    &&& distinct_characters(r)
    &&& (forall|i: int|
        #![trigger r[i]]
        0 <= i < r.len() ==> keep(r[i].character) && r[i].count == occurrences(s, r[i].character)
            && r[i].count > 0)
    &&& (forall|c: char| #[trigger] s.contains(c) && keep(c) ==> has_character(r, c))
}

/// The predicate holding of the entries whose count is exactly `n`.
pub open spec fn count_matches(n: nat) -> spec_fn(CharsCounter) -> bool {
    |e: CharsCounter| e.count == n
}

/// A sequence contains an element exactly when its front part does or its
/// last element is it.
pub proof fn lemma_contains_split_last<A>(s: Seq<A>, x: A)
    requires
        s.len() > 0,
    ensures
        s.contains(x) <==> (s.drop_last().contains(x) || s.last() == x),
{
    if s.drop_last().contains(x) {
        let i = choose|i: int| 0 <= i < s.drop_last().len() && s.drop_last()[i] == x;
        assert(s[i] == x);
    }
    if s.last() == x {
        assert(s[s.len() - 1] == x);
    }
    if s.contains(x) {
        let i = choose|i: int| 0 <= i < s.len() && s[i] == x;
        if i < s.len() - 1 {
            assert(s.drop_last()[i] == x);
        }
    }
}

/// A sequence extended by one element contains exactly what it contained
/// before, and that element.
pub proof fn lemma_contains_push<A>(s: Seq<A>, y: A, x: A)
    ensures
        s.push(y).contains(x) <==> (s.contains(x) || x == y),
{
    assert(s.push(y).drop_last() =~= s);
    assert(s.push(y).last() == y);
    lemma_contains_split_last(s.push(y), x);
}

/// A character occurs no more often than the sequence is long.
pub proof fn lemma_occurrences_le_len(s: Seq<char>, c: char)
    ensures
        occurrences(s, c) <= s.len(),
    decreases s.len(),
{
    if s.len() > 0 {
        lemma_occurrences_le_len(s.drop_last(), c);
    }
}

/// A character occurs zero times exactly when the sequence does not contain
/// it.
pub proof fn lemma_occurrences_zero(s: Seq<char>, c: char)
    ensures
        occurrences(s, c) == 0 <==> !s.contains(c),
    decreases s.len(),
{
    if s.len() == 0 {
        assert(!s.contains(c));
    } else {
        lemma_occurrences_zero(s.drop_last(), c);
        lemma_contains_split_last(s, c);
    }
}

/// Extending a sequence by one character raises that character's occurrence
/// count by one and leaves every other character's count unchanged.
pub proof fn lemma_occurrences_push(s: Seq<char>, x: char, c: char)
    ensures
        occurrences(s.push(x), c) == occurrences(s, c) + (if x == c {
            1nat
        } else {
            0nat
        }),
{
    assert(s.push(x).drop_last() =~= s);
    assert(s.push(x).last() == x);
}

} // verus!
