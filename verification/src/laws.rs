//! Laws of the library: properties that relate the counter and the queries,
//! stated over the spec functions that their contracts use and proved from
//! them.

use vstd::prelude::*;

use crate::model::{
    accepted_count, count_matches, entry_before, has_character, is_count_result,
    lemma_contains_split_last, lemma_occurrences_push, lemma_occurrences_zero, occurrences,
    sorted_by_count, CharsCounter,
};

verus! {

/// The sum of the counts of the entries of `r`.
pub open spec fn total_count(r: Seq<CharsCounter>) -> nat
    decreases r.len(),
{
    if r.len() == 0 {
        0
    } else {
        total_count(r.drop_last()) + r.last().count as nat
    }
}

/// The characters of the entries of `r`, in order.
pub open spec fn characters_of(r: Seq<CharsCounter>) -> Seq<char> {
    r.map_values(|e: CharsCounter| e.character)
}

/// The sum, over the characters of `cs`, of their occurrence counts in `s`.
spec fn sum_occurrences(s: Seq<char>, cs: Seq<char>) -> nat
    decreases cs.len(),
{
    if cs.len() == 0 {
        0
    } else {
        sum_occurrences(s, cs.drop_last()) + occurrences(s, cs.last())
    }
}

proof fn lemma_total_is_sum_occurrences(s: Seq<char>, r: Seq<CharsCounter>)
    requires
        forall|i: int|
            #![trigger r[i]]
            0 <= i < r.len() ==> r[i].count == occurrences(s, r[i].character),
    ensures
        total_count(r) == sum_occurrences(s, characters_of(r)),
    decreases r.len(),
{
    if r.len() > 0 {
        assert(characters_of(r).drop_last() =~= characters_of(r.drop_last()));
        assert(characters_of(r).last() == r.last().character);
        lemma_total_is_sum_occurrences(s, r.drop_last());
    }
}

proof fn lemma_sum_occurrences_empty(cs: Seq<char>)
    ensures
        sum_occurrences(Seq::<char>::empty(), cs) == 0,
    decreases cs.len(),
{
    if cs.len() > 0 {
        lemma_sum_occurrences_empty(cs.drop_last());
    }
}

proof fn lemma_sum_occurrences_push(s: Seq<char>, x: char, cs: Seq<char>)
    ensures
        sum_occurrences(s.push(x), cs) == sum_occurrences(s, cs) + occurrences(cs, x),
    decreases cs.len(),
{
    if cs.len() > 0 {
        lemma_sum_occurrences_push(s, x, cs.drop_last());
        lemma_occurrences_push(s, x, cs.last());
    }
}

proof fn lemma_distinct_occurrences(cs: Seq<char>, x: char)
    requires
        forall|i: int, j: int| 0 <= i < j < cs.len() ==> cs[i] != cs[j],
    ensures
        occurrences(cs, x) == (if cs.contains(x) {
            1nat
        } else {
            0nat
        }),
    decreases cs.len(),
{
    if cs.len() > 0 {
        let front = cs.drop_last();
        lemma_distinct_occurrences(front, x);
        lemma_contains_split_last(cs, x);
        if cs.last() == x {
            if front.contains(x) {
                let i = choose|i: int| 0 <= i < front.len() && front[i] == x;
                assert(cs[i] == cs[cs.len() - 1]);
            }
            lemma_occurrences_zero(front, x);
        }
    }
}

proof fn lemma_sum_occurrences_counts(s: Seq<char>, keep: spec_fn(char) -> bool, cs: Seq<char>)
    requires
        forall|i: int, j: int| 0 <= i < j < cs.len() ==> cs[i] != cs[j],
        forall|c: char| #[trigger] cs.contains(c) ==> keep(c),
        forall|c: char| #[trigger] s.contains(c) && keep(c) ==> cs.contains(c),
    ensures
        sum_occurrences(s, cs) == accepted_count(s, keep),
    decreases s.len(),
{
    if s.len() == 0 {
        assert(s =~= Seq::<char>::empty());
        lemma_sum_occurrences_empty(cs);
    } else {
        let front = s.drop_last();
        let x = s.last();
        assert forall|c: char| #[trigger] front.contains(c) && keep(c) implies cs.contains(c) by {
            let i = choose|i: int| 0 <= i < front.len() && front[i] == c;
            assert(s[i] == c);
            assert(s.contains(c));
        }
        lemma_sum_occurrences_counts(front, keep, cs);
        assert(front.push(x) =~= s);
        lemma_sum_occurrences_push(front, x, cs);
        lemma_distinct_occurrences(cs, x);
        if keep(x) {
            assert(s[s.len() - 1] == x);
            assert(s.contains(x));
        } else {
            if cs.contains(x) {
                assert(keep(x));
            }
        }
    }
}

/// The sum of the counts in a frequency result equals the number of
/// characters of the text that the predicate accepts.
pub proof fn lemma_total_count_is_accepted_count(
    s: Seq<char>,
    keep: spec_fn(char) -> bool,
    r: Seq<CharsCounter>,
)
    requires
        is_count_result(s, keep, r),
    ensures
        total_count(r) == accepted_count(s, keep),
{
    let cs = characters_of(r);
    assert forall|i: int, j: int| 0 <= i < j < cs.len() implies cs[i] != cs[j] by {
        assert(cs[i] == r[i].character);
        assert(cs[j] == r[j].character);
    }
    assert forall|c: char| #[trigger] cs.contains(c) implies keep(c) by {
        let i = choose|i: int| 0 <= i < cs.len() && cs[i] == c;
        assert(r[i].character == c);
    }
    assert forall|c: char| #[trigger] s.contains(c) && keep(c) implies cs.contains(c) by {
        let i = choose|i: int| 0 <= i < r.len() && r[i].character == c;
        assert(cs[i] == c);
        assert(cs.contains(c));
    }
    lemma_total_is_sum_occurrences(s, r);
    lemma_sum_occurrences_counts(s, keep, cs);
}

/// A character has an entry in a frequency result exactly when it occurs in
/// the text and the predicate accepts it.
pub proof fn lemma_presence(
    s: Seq<char>,
    keep: spec_fn(char) -> bool,
    r: Seq<CharsCounter>,
    c: char,
)
    requires
        is_count_result(s, keep, r),
    ensures
        has_character(r, c) <==> (s.contains(c) && keep(c)),
{
    if has_character(r, c) {
        let i = choose|i: int| 0 <= i < r.len() && (#[trigger] r[i]).character == c;
        lemma_occurrences_zero(s, c);
    }
    if s.contains(c) && keep(c) {
        assert(has_character(r, c));
    }
}

/// Where a predicate holds on exactly a leading part of a sequence,
/// filtering by it takes that part.
proof fn lemma_prefix_filter(r: Seq<CharsCounter>, q: spec_fn(CharsCounter) -> bool, k: int)
    requires
        0 <= k <= r.len(),
        forall|i: int| 0 <= i < k ==> q(#[trigger] r[i]),
        forall|i: int| k <= i < r.len() ==> !q(#[trigger] r[i]),
    ensures
        r.filter(q) == r.take(k),
    decreases r.len(),
{
    reveal(Seq::filter);
    if r.len() == 0 {
        assert(r.take(k) =~= r);
    } else if k == r.len() {
        lemma_prefix_filter(r.drop_last(), q, k - 1);
        assert(r.drop_last().take(k - 1) =~= r.drop_last());
        assert(r.take(k) =~= r);
        assert(r.drop_last().push(r.last()) =~= r);
    } else {
        lemma_prefix_filter(r.drop_last(), q, k);
        assert(r.drop_last().take(k) =~= r.take(k));
    }
}

/// Where a predicate holds on exactly a trailing part of a sequence,
/// filtering by it skips to that part.
proof fn lemma_suffix_filter(r: Seq<CharsCounter>, q: spec_fn(CharsCounter) -> bool, k: int)
    requires
        0 <= k <= r.len(),
        forall|i: int| 0 <= i < k ==> !q(#[trigger] r[i]),
        forall|i: int| k <= i < r.len() ==> q(#[trigger] r[i]),
    ensures
        r.filter(q) == r.skip(k),
    decreases r.len(),
{
    reveal(Seq::filter);
    if r.len() == 0 {
        assert(r.skip(k) =~= r);
    } else if k == r.len() {
        lemma_suffix_filter(r.drop_last(), q, k - 1);
        assert(r.drop_last().skip(k - 1) =~= r.skip(k));
    } else {
        lemma_suffix_filter(r.drop_last(), q, k);
        assert(r.drop_last().skip(k).push(r.last()) =~= r.skip(k));
    }
}

/// The index splitting a sequence whose predicate-satisfying entries are
/// downward closed into a satisfying prefix and a failing rest.
proof fn lemma_prefix_split(r: Seq<CharsCounter>, q: spec_fn(CharsCounter) -> bool) -> (k: int)
    requires
        forall|i: int, j: int|
            0 <= i < j < r.len() && q(#[trigger] r[j]) ==> q(#[trigger] r[i]),
    ensures
        0 <= k <= r.len(),
        forall|i: int| 0 <= i < k ==> q(#[trigger] r[i]),
        forall|i: int| k <= i < r.len() ==> !q(#[trigger] r[i]),
    decreases r.len(),
{
    if r.len() == 0 {
        0
    } else if q(r.last()) {
        assert forall|i: int| 0 <= i < r.len() implies q(r[i]) by {
            assert(r.last() == r[r.len() - 1]);
            if i < r.len() - 1 {
                assert(q(r[r.len() - 1]));
            }
        }
        r.len() as int
    } else {
        let k = lemma_prefix_split(r.drop_last(), q);
        assert forall|i: int| 0 <= i < k implies q(r[i]) by {
            assert(r.drop_last()[i] == r[i]);
            assert(q(r.drop_last()[i]));
        }
        assert forall|i: int| k <= i < r.len() implies !q(r[i]) by {
            if i < r.len() - 1 {
                assert(r.drop_last()[i] == r[i]);
                assert(!q(r.drop_last()[i]));
            } else {
                assert(r.last() == r[r.len() - 1]);
            }
        }
        k
    }
}

/// The index splitting a sequence whose predicate-satisfying entries are
/// upward closed into a failing prefix and a satisfying rest.
proof fn lemma_suffix_split(r: Seq<CharsCounter>, q: spec_fn(CharsCounter) -> bool) -> (k: int)
    requires
        forall|i: int, j: int|
            0 <= i < j < r.len() && q(#[trigger] r[i]) ==> q(#[trigger] r[j]),
    ensures
        0 <= k <= r.len(),
        forall|i: int| 0 <= i < k ==> !q(#[trigger] r[i]),
        forall|i: int| k <= i < r.len() ==> q(#[trigger] r[i]),
    decreases r.len(),
{
    if r.len() == 0 {
        0
    } else if !q(r.last()) {
        assert forall|i: int| 0 <= i < r.len() implies !q(r[i]) by {
            assert(r.last() == r[r.len() - 1]);
            if i < r.len() - 1 && q(r[i]) {
                assert(q(r[r.len() - 1]));
            }
        }
        r.len() as int
    } else {
        let k = lemma_suffix_split(r.drop_last(), q);
        assert forall|i: int| 0 <= i < k implies !q(r[i]) by {
            assert(r.drop_last()[i] == r[i]);
            assert(!q(r.drop_last()[i]));
        }
        assert forall|i: int| k <= i < r.len() implies q(r[i]) by {
            if i < r.len() - 1 {
                assert(r.drop_last()[i] == r[i]);
                assert(q(r.drop_last()[i]));
            } else {
                assert(r.last() == r[r.len() - 1]);
            }
        }
        k
    }
}

/// On a nonempty frequency result, the most-frequent query returns a
/// nonempty prefix of the result: exactly the entries of maximal count.
pub proof fn lemma_most_is_max_prefix(
    s: Seq<char>,
    keep: spec_fn(char) -> bool,
    r: Seq<CharsCounter>,
    m: Seq<CharsCounter>,
)
    requires
        is_count_result(s, keep, r),
        r.len() > 0,
        m == r.filter(count_matches(r[0].count as nat)),
    ensures
        m.len() > 0,
        m == r.take(m.len() as int),
        forall|i: int| #![trigger m[i]] 0 <= i < m.len() ==> m[i].count == r[0].count,
        forall|i: int| #![trigger r[i]] 0 <= i < r.len() ==> r[i].count <= r[0].count,
{
    let q = count_matches(r[0].count as nat);
    assert forall|i: int| #![trigger r[i]] 0 <= i < r.len() implies r[i].count <= r[0].count by {
        if i > 0 {
            assert(entry_before(r[0], r[i]));
        }
    }
    assert forall|i: int, j: int|
        0 <= i < j < r.len() && q(#[trigger] r[j]) implies q(#[trigger] r[i]) by {
        assert(entry_before(r[i], r[j]));
        if i > 0 {
            assert(entry_before(r[0], r[i]));
        }
    }
    let k = lemma_prefix_split(r, q);
    lemma_prefix_filter(r, q, k);
    assert(q(r[0]));
    assert(k > 0);
    assert(m.len() == k);
    assert forall|i: int| #![trigger m[i]] 0 <= i < m.len() implies m[i].count == r[0].count by {
        assert(m[i] == r[i]);
        assert(q(r[i]));
    }
}

/// On a nonempty frequency result, the least-frequent query returns a
/// nonempty suffix of the result: exactly the entries of minimal count.
pub proof fn lemma_least_is_min_suffix(
    s: Seq<char>,
    keep: spec_fn(char) -> bool,
    r: Seq<CharsCounter>,
    m: Seq<CharsCounter>,
)
    requires
        is_count_result(s, keep, r),
        r.len() > 0,
        m == r.filter(count_matches(r[r.len() - 1].count as nat)),
    ensures
        m.len() > 0,
        m == r.skip(r.len() - m.len()),
        forall|i: int| #![trigger m[i]] 0 <= i < m.len() ==> m[i].count == r[r.len() - 1].count,
        forall|i: int| #![trigger r[i]] 0 <= i < r.len() ==> r[i].count >= r[r.len() - 1].count,
{
    let q = count_matches(r[r.len() - 1].count as nat);
    assert forall|i: int| #![trigger r[i]] 0 <= i < r.len() implies r[i].count >= r[r.len()
        - 1].count by {
        if i < r.len() - 1 {
            assert(entry_before(r[i], r[r.len() - 1]));
        }
    }
    assert forall|i: int, j: int|
        0 <= i < j < r.len() && q(#[trigger] r[i]) implies q(#[trigger] r[j]) by {
        assert(entry_before(r[i], r[j]));
        if j < r.len() - 1 {
            assert(entry_before(r[j], r[r.len() - 1]));
        }
    }
    let k = lemma_suffix_split(r, q);
    lemma_suffix_filter(r, q, k);
    assert(q(r[r.len() - 1]));
    assert(k < r.len());
    assert(m.len() == r.len() - k);
    assert forall|i: int| #![trigger m[i]] 0 <= i < m.len() implies m[i].count == r[r.len()
        - 1].count by {
        assert(m[i] == r[k + i]);
        assert(q(r[k + i]));
    }
}

/// Strictly sorted sequences holding the same entries are equal.
proof fn lemma_sorted_same_entries_equal(r1: Seq<CharsCounter>, r2: Seq<CharsCounter>)
    requires
        sorted_by_count(r1),
        sorted_by_count(r2),
        forall|e: CharsCounter| #[trigger] r1.contains(e) <==> #[trigger] r2.contains(e),
    ensures
        r1 == r2,
    decreases r1.len(),
{
    if r1.len() == 0 {
        if r2.len() > 0 {
            assert(r2.contains(r2[0]));
            assert(r1.contains(r2[0]));
        }
        assert(r1 =~= r2);
    } else if r2.len() == 0 {
        assert(r1.contains(r1[0]));
        assert(r2.contains(r1[0]));
    } else {
        assert(r1.contains(r1[0]));
        assert(r2.contains(r1[0]));
        let j = choose|j: int| 0 <= j < r2.len() && r2[j] == r1[0];
        assert(r2.contains(r2[0]));
        assert(r1.contains(r2[0]));
        let i = choose|i: int| 0 <= i < r1.len() && r1[i] == r2[0];
        if i > 0 && j > 0 {
            assert(entry_before(r1[0], r1[i]));
            assert(entry_before(r2[0], r2[j]));
            assert(false);
        }
        assert(r1[0] == r2[0]);
        let t1 = r1.drop_first();
        let t2 = r2.drop_first();
        assert forall|a: int, b: int| 0 <= a < b < t1.len() implies entry_before(t1[a], t1[b]) by {
            assert(t1[a] == r1[a + 1]);
            assert(t1[b] == r1[b + 1]);
            assert(entry_before(r1[a + 1], r1[b + 1]));
        }
        assert forall|a: int, b: int| 0 <= a < b < t2.len() implies entry_before(t2[a], t2[b]) by {
            assert(t2[a] == r2[a + 1]);
            assert(t2[b] == r2[b + 1]);
            assert(entry_before(r2[a + 1], r2[b + 1]));
        }
        assert forall|e: CharsCounter| #[trigger] t1.contains(e) implies t2.contains(e) by {
            let a = choose|a: int| 0 <= a < t1.len() && t1[a] == e;
            assert(r1[a + 1] == e);
            assert(r1.contains(e));
            assert(r2.contains(e));
            let b = choose|b: int| 0 <= b < r2.len() && r2[b] == e;
            assert(entry_before(r1[0], r1[a + 1]));
            if b == 0 {
                assert(false);
            }
            assert(t2[b - 1] == e);
            assert(t2.contains(e));
        }
        assert forall|e: CharsCounter| #[trigger] t2.contains(e) implies t1.contains(e) by {
            let b = choose|b: int| 0 <= b < t2.len() && t2[b] == e;
            assert(r2[b + 1] == e);
            assert(r2.contains(e));
            assert(r1.contains(e));
            let a = choose|a: int| 0 <= a < r1.len() && r1[a] == e;
            assert(entry_before(r2[0], r2[b + 1]));
            if a == 0 {
                assert(false);
            }
            assert(t1[a - 1] == e);
            assert(t1.contains(e));
        }
        lemma_sorted_same_entries_equal(t1, t2);
        assert forall|x: int| 0 <= x < r1.len() implies r1[x] == r2[x] by {
            if x > 0 {
                assert(t1[x - 1] == t2[x - 1]);
                assert(r1[x] == t1[x - 1]);
                assert(r2[x] == t2[x - 1]);
            }
        }
        assert(r1 =~= r2);
    }
}

/// Determinism: the frequency result of a text under a predicate is unique,
/// so counting the same input twice gives equal results.
pub proof fn lemma_count_result_unique(
    s: Seq<char>,
    keep: spec_fn(char) -> bool,
    r1: Seq<CharsCounter>,
    r2: Seq<CharsCounter>,
)
    requires
        is_count_result(s, keep, r1),
        is_count_result(s, keep, r2),
    ensures
        r1 == r2,
{
    assert forall|e: CharsCounter| #[trigger] r1.contains(e) implies r2.contains(e) by {
        let i = choose|i: int| 0 <= i < r1.len() && r1[i] == e;
        lemma_occurrences_zero(s, e.character);
        assert(s.contains(e.character));
        assert(has_character(r2, e.character));
        let j = choose|j: int| 0 <= j < r2.len() && (#[trigger] r2[j]).character == e.character;
        assert(r2[j] == e);
        assert(r2.contains(e));
    }
    assert forall|e: CharsCounter| #[trigger] r2.contains(e) implies r1.contains(e) by {
        let i = choose|i: int| 0 <= i < r2.len() && r2[i] == e;
        lemma_occurrences_zero(s, e.character);
        assert(s.contains(e.character));
        assert(has_character(r1, e.character));
        let j = choose|j: int| 0 <= j < r1.len() && (#[trigger] r1[j]).character == e.character;
        assert(r1[j] == e);
        assert(r1.contains(e));
    }
    lemma_sorted_same_entries_equal(r1, r2);
}

} // verus!
