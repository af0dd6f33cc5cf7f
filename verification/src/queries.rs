//! Queries over an already-computed frequency result: extremal entries,
//! lookup by count, lookup by character, and a general entry filter. All are
//! pure views of the given entries and never re-derive frequencies.

use vstd::prelude::*;

use crate::model::{count_matches, has_character, is_first_match, CharsCounter};

verus! {

/// The subsequence of `s` selected by the run of decisions `d`, one decision
/// per element.
pub open spec fn selected(s: Seq<CharsCounter>, d: Seq<bool>) -> Seq<CharsCounter>
    decreases s.len(),
{
    if s.len() == 0 || d.len() != s.len() {
        Seq::empty()
    } else {
        let rest = selected(s.drop_last(), d.drop_last());
        if d.last() {
            rest.push(s.last())
        } else {
            rest
        }
    }
}

/// `r` is the subsequence of `s` selected by some run of decisions that the
/// calls of `predicate` returned, one call per entry.
pub open spec fn filtered_by<P: Fn(CharsCounter) -> bool>(
    s: Seq<CharsCounter>,
    predicate: P,
    r: Seq<CharsCounter>,
) -> bool {
    exists|d: Seq<bool>|
        #![trigger selected(s, d)]
        {
            &&& d.len() == s.len()
            &&& (forall|i: int|
                0 <= i < d.len() ==> call_ensures(predicate, (s[i],), #[trigger] d[i]))
            &&& r == selected(s, d)
        }
}

/// Selection by pointwise-determined decisions is filtering.
pub proof fn lemma_selected_is_filter(
    s: Seq<CharsCounter>,
    d: Seq<bool>,
    q: spec_fn(CharsCounter) -> bool,
)
    requires
        d.len() == s.len(),
        forall|i: int| 0 <= i < s.len() ==> #[trigger] d[i] == q(s[i]),
    ensures
        selected(s, d) == s.filter(q),
    decreases s.len(),
{
    reveal(Seq::filter);
    if s.len() > 0 {
        lemma_selected_is_filter(s.drop_last(), d.drop_last(), q);
    }
}

/// For a predicate whose result is determined by its argument, the
/// relational contract of the entry filter pins the result down to the
/// filtered subsequence.
pub proof fn lemma_deterministic_selection<P: Fn(CharsCounter) -> bool>(
    s: Seq<CharsCounter>,
    predicate: P,
    q: spec_fn(CharsCounter) -> bool,
    r: Seq<CharsCounter>,
)
    requires
        filtered_by(s, predicate, r),
        forall|x: CharsCounter, b: bool| #[trigger] call_ensures(predicate, (x,), b) ==> b == q(x),
    ensures
        r == s.filter(q),
{
    let d = choose|d: Seq<bool>|
        #![trigger selected(s, d)]
        {
            &&& d.len() == s.len()
            &&& (forall|i: int|
                0 <= i < d.len() ==> call_ensures(predicate, (s[i],), #[trigger] d[i]))
            &&& r == selected(s, d)
        };
    assert forall|i: int| 0 <= i < s.len() implies #[trigger] d[i] == q(s[i]) by {
        assert(call_ensures(predicate, (s[i],), d[i]));
    }
    lemma_selected_is_filter(s, d, q);
}

/// Derived questions over a frequency result.
pub trait ICharCounterExt {
    /// The entries sharing the count of the first entry: on a sorted result,
    /// all entries of maximal count. An empty input yields an empty result.
    fn most_chars(&self) -> (r: Vec<CharsCounter>);

    /// The entries sharing the count of the last entry: on a sorted result,
    /// all entries of minimal count. An empty input yields an empty result.
    fn least_chars(&self) -> (r: Vec<CharsCounter>);

    /// The entries whose count is exactly `n`.
    fn find_by_num(&self, n: usize) -> (r: Vec<CharsCounter>);

    /// The first entry carrying the character `c`, or `None` if no entry
    /// does.
    fn find_by_char(&self, c: char) -> (r: Option<CharsCounter>);

    /// The entries accepted by `predicate`, in their original order.
    fn counter_filter<P: Fn(CharsCounter) -> bool>(&self, predicate: P) -> (r: Vec<CharsCounter>)
        requires
            forall|x: CharsCounter| #[trigger] call_requires(predicate, (x,)),
    ;
}

impl ICharCounterExt for Vec<CharsCounter> {
    fn most_chars(&self) -> (r: Vec<CharsCounter>)
        ensures
            self@.len() == 0 ==> r@.len() == 0,
            self@.len() > 0 ==> r@ == self@.filter(count_matches(self@[0].count as nat)),
    {
        if self.len() == 0 {
            return Vec::new();
        }
        let m = self[0].count;
        let f = |x: CharsCounter| -> (b: bool)
            ensures
                b == (x.count == m),
            { x.count == m };
        let r = self.counter_filter(f);
        proof {
            let q = count_matches(self@[0].count as nat);
            assert forall|x: CharsCounter, b: bool| #[trigger] call_ensures(f, (x,), b) implies b
                == q(x) by {
                assert(q(x) == (x.count == m));
            }
            lemma_deterministic_selection(self@, f, q, r@);
        }
        r
    }

    fn least_chars(&self) -> (r: Vec<CharsCounter>)
        ensures
            self@.len() == 0 ==> r@.len() == 0,
            self@.len() > 0 ==> r@ == self@.filter(
                count_matches(self@[self@.len() - 1].count as nat),
            ),
    {
        if self.len() == 0 {
            return Vec::new();
        }
        let m = self[self.len() - 1].count;
        let f = |x: CharsCounter| -> (b: bool)
            ensures
                b == (x.count == m),
            { x.count == m };
        let r = self.counter_filter(f);
        proof {
            let q = count_matches(self@[self@.len() - 1].count as nat);
            assert forall|x: CharsCounter, b: bool| #[trigger] call_ensures(f, (x,), b) implies b
                == q(x) by {
                assert(q(x) == (x.count == m));
            }
            lemma_deterministic_selection(self@, f, q, r@);
        }
        r
    }

    fn find_by_num(&self, n: usize) -> (r: Vec<CharsCounter>)
        ensures
            r@ == self@.filter(count_matches(n as nat)),
    {
        let f = |x: CharsCounter| -> (b: bool)
            ensures
                b == (x.count == n),
            { x.count == n };
        let r = self.counter_filter(f);
        proof {
            let q = count_matches(n as nat);
            assert forall|x: CharsCounter, b: bool| #[trigger] call_ensures(f, (x,), b) implies b
                == q(x) by {
                assert(q(x) == (x.count == n));
            }
            lemma_deterministic_selection(self@, f, q, r@);
        }
        r
    }

    fn find_by_char(&self, c: char) -> (r: Option<CharsCounter>)
        ensures
            match r {
                Some(e) => exists|i: int| #[trigger]
                    is_first_match(self@, c, i) && self@[i] == e,
                None => !has_character(self@, c),
            },
    {
        let mut j: usize = 0;
        while j < self.len()
            invariant
                j <= self@.len(),
                forall|k: int| 0 <= k < j ==> (#[trigger] self@[k]).character != c,
            decreases self@.len() - j,
        {
            if self[j].character == c {
                let e = self[j];
                proof {
                    assert(is_first_match(self@, c, j as int));
                }
                return Some(e);
            }
            j += 1;
        }
        None
    }

    fn counter_filter<P: Fn(CharsCounter) -> bool>(&self, predicate: P) -> (r: Vec<CharsCounter>)
        ensures
            filtered_by(self@, predicate, r@),
    {
        let mut out: Vec<CharsCounter> = Vec::new();
        let ghost mut d = Seq::<bool>::empty();
        let mut j: usize = 0;
        while j < self.len()
            invariant
                j <= self@.len(),
                forall|x: CharsCounter| #[trigger] call_requires(predicate, (x,)),
                d.len() == j,
                forall|i: int| 0 <= i < j ==> call_ensures(predicate, (self@[i],), #[trigger] d[i]),
                out@ == selected(self@.take(j as int), d),
            decreases self@.len() - j,
        {
            let x = self[j];
            let b = predicate(x);
            proof {
                let t1 = self@.take(j as int + 1);
                let d1 = d.push(b);
                assert(t1.drop_last() =~= self@.take(j as int));
                assert(d1.drop_last() =~= d);
                assert(t1.last() == self@[j as int]);
                assert(selected(t1, d1) == (if b {
                    selected(self@.take(j as int), d).push(self@[j as int])
                } else {
                    selected(self@.take(j as int), d)
                }));
                d = d1;
            }
            if b {
                out.push(x);
            }
            j += 1;
        }
        proof {
            assert(self@.take(self@.len() as int) =~= self@);
        }
        out
    }
}

} // verus!
