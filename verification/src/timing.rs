//! What is made of measured times.

use vstd::prelude::*;
use vstd::relations::*;

use crate::order::{key_order, lemma_sorted_same_items, sort, sorted_as, SortKey};

verus! {

/// What stands in the middle of a list of times.
#[derive(Debug, Clone, Copy, PartialEq, Eq, Structural)]
pub enum Middle {
    /// There are no times.
    Nothing,
    /// The number of times is odd: this one has as many on either side.
    One(u128),
    /// The number of times is even: these two stand on either side of the middle.
    Two(u128, u128),
}

pub open spec fn time_order() -> spec_fn(u128, u128) -> bool {
    |x: u128, y: u128| x <= y
}

/// What stands in the middle of the times `s`, laid out from the shortest to the longest.
pub open spec fn middle(s: Seq<u128>) -> Middle {
    let r = s.sort_by(time_order());
    let half = r.len() as int / 2;
    if r.len() == 0 {
        Middle::Nothing
    } else if r.len() % 2 == 1 {
        Middle::One(r[half])
    } else {
        Middle::Two(r[half - 1], r[half])
    }
}

impl SortKey for u128 {
    open spec fn precedes(self, other: Self) -> bool {
        self <= other
    }

    proof fn precedes_total(a: Self, b: Self) {
    }

    proof fn precedes_transitive(a: Self, b: Self, c: Self) {
    }

    fn at_most(&self, other: &Self) -> (r: bool) {
        *self <= *other
    }
}

proof fn lemma_sorted_times(r: Seq<u128>, s: Seq<u128>)
    requires
        sorted_as(r, s, key_order::<u128>()),
    ensures
        r == s.sort_by(time_order()),
{
    let leq = time_order();
    let by_key = key_order::<u128>();
    assert(total_ordering(leq));
    assert(reflexive(by_key));
    s.lemma_sort_by_ensures(leq);
    lemma_sorted_same_items(r, s, by_key);
    assert forall|i: int, j: int| 0 <= i < j < r.len() implies #[trigger] leq(r[i], r[j]) by {
        assert(by_key(r[i], r[j]));
    }
    vstd::seq_lib::lemma_sorted_unique(r, s.sort_by(leq), leq);
}

/// Finds what stands in the middle of `times`.
pub fn middle_of(times: &Vec<u128>) -> (m: Middle)
    ensures
        m == middle(times@),
{
    let copy: Vec<u128> = vstd::slice::slice_to_vec(times.as_slice());
    let r: Vec<u128> = sort(copy);
    proof {
        lemma_sorted_times(r@, times@);
    }
    let half: usize = r.len() / 2;
    if r.len() == 0 {
        Middle::Nothing
    } else if r.len() % 2 == 1 {
        Middle::One(r[half])
    } else {
        Middle::Two(r[half - 1], r[half])
    }
}

/// The middle does not depend on the order in which the times were taken.
pub proof fn lemma_middle_of_any_order(a: Seq<u128>, b: Seq<u128>)
    requires
        a.to_multiset() == b.to_multiset(),
    ensures
        middle(a) == middle(b),
{
    let leq = time_order();
    assert(total_ordering(leq));
    a.lemma_sort_by_ensures(leq);
    b.lemma_sort_by_ensures(leq);
    vstd::seq_lib::lemma_sorted_unique(a.sort_by(leq), b.sort_by(leq), leq);
}

/// What stands in the middle are times that were taken, and there is a middle as soon as there
/// is a time.
pub proof fn lemma_middle_was_taken(s: Seq<u128>)
    ensures
        match middle(s) {
            Middle::Nothing => s.len() == 0,
            Middle::One(x) => s.contains(x) && s.len() % 2 == 1,
            Middle::Two(x, y) => s.contains(x) && s.contains(y) && x <= y && s.len() % 2 == 0,
        },
{
    broadcast use vstd::seq_lib::group_to_multiset_ensures;

    let leq = time_order();
    let r = s.sort_by(leq);
    assert(total_ordering(leq));
    s.lemma_sort_by_ensures(leq);
    assert(r.to_multiset().len() == r.len() && s.to_multiset().len() == s.len());
    assert forall|i: int| 0 <= i < r.len() implies s.contains(#[trigger] r[i]) by {
        assert(r.contains(r[i]));
        assert(r.to_multiset().count(r[i]) > 0);
    }
    let half = r.len() as int / 2;
    if r.len() > 0 && r.len() % 2 == 0 {
        assert(leq(r[half - 1], r[half]));
    }
}

/// How many of the times are at most `x`.
pub open spec fn at_most_count(s: Seq<u128>, x: u128) -> nat {
    s.filter(|t: u128| t <= x).len()
}

/// How many of the times are at least `x`.
pub open spec fn at_least_count(s: Seq<u128>, x: u128) -> nat {
    s.filter(|t: u128| t >= x).len()
}

proof fn lemma_count_of_any_order(a: Seq<u128>, b: Seq<u128>, p: spec_fn(u128) -> bool)
    requires
        a.to_multiset() == b.to_multiset(),
    ensures
        a.filter(p).len() == b.filter(p).len(),
    decreases a.len(),
{
    broadcast use vstd::seq_lib::group_to_multiset_ensures;

    assert(a.to_multiset().len() == a.len() && b.to_multiset().len() == b.len());
    if a.len() > 0 {
        let x = a.last();
        let last = a.len() - 1;
        assert(a.contains(a[last]));
        assert(a.to_multiset().count(x) > 0);
        assert(b.contains(x));
        let j = choose|j: int| 0 <= j < b.len() && b[j] == x;
        let front = b.take(j);
        let back = b.skip(j + 1);
        assert(b.remove(j) =~= front + back);
        assert(a.remove(last) =~= a.drop_last());
        assert(a.remove(last).to_multiset() == a.to_multiset().remove(x));
        assert(b.remove(j).to_multiset() == b.to_multiset().remove(x));
        lemma_count_of_any_order(a.drop_last(), b.remove(j), p);
        Seq::filter_distributes_over_add(front, back, p);
        assert(b =~= front.push(x) + back);
        Seq::filter_distributes_over_add(front.push(x), back, p);
        front.lemma_filter_push(x, p);
        assert(a.drop_last().push(x) =~= a);
        a.drop_last().lemma_filter_push(x, p);
    } else {
        assert(a =~= b);
    }
}

proof fn lemma_all_kept(s: Seq<u128>, p: spec_fn(u128) -> bool)
    requires
        forall|i: int| 0 <= i < s.len() ==> p(#[trigger] s[i]),
    ensures
        s.filter(p).len() == s.len(),
    decreases s.len(),
{
    reveal(Seq::filter);
    if s.len() > 0 {
        assert(p(s[s.len() - 1]));
        lemma_all_kept(s.drop_last(), p);
    }
}

/// At least as many are kept as there are in a stretch of which all are.
proof fn lemma_stretch_kept(s: Seq<u128>, p: spec_fn(u128) -> bool, from: int, to: int)
    requires
        0 <= from <= to <= s.len(),
        forall|i: int| from <= i < to ==> p(#[trigger] s[i]),
    ensures
        s.filter(p).len() >= to - from,
{
    let a = s.take(from);
    let b = s.subrange(from, to);
    let c = s.skip(to);
    assert(s =~= a + (b + c));
    Seq::filter_distributes_over_add(a, b + c, p);
    Seq::filter_distributes_over_add(b, c, p);
    lemma_all_kept(b, p);
}

/// In an order of the times, at least `k + 1` are at most the one at `k`, and at least as many as
/// from there on are at least that one.
proof fn lemma_counts_at(s: Seq<u128>, k: int)
    requires
        0 <= k < s.len(),
    ensures
        ({
            let x = s.sort_by(time_order())[k];
            at_most_count(s, x) >= k + 1 && at_least_count(s, x) >= s.len() - k
        }),
{
    broadcast use vstd::seq_lib::group_to_multiset_ensures;

    let leq = time_order();
    let r = s.sort_by(leq);
    assert(total_ordering(leq));
    s.lemma_sort_by_ensures(leq);
    assert(r.to_multiset().len() == r.len() && s.to_multiset().len() == s.len());
    let x = r[k];
    let below = |t: u128| t <= x;
    let above = |t: u128| t >= x;
    lemma_count_of_any_order(r, s, below);
    lemma_count_of_any_order(r, s, above);
    assert forall|i: int| 0 <= i < k + 1 implies below(#[trigger] r[i]) by {
        if i < k {
            assert(leq(r[i], r[k]));
        }
    }
    assert forall|i: int| k <= i < r.len() implies above(#[trigger] r[i]) by {
        if k < i {
            assert(leq(r[k], r[i]));
        }
    }
    lemma_stretch_kept(r, below, 0, k + 1);
    lemma_stretch_kept(r, above, k, r.len() as int);
}

/// Of the times, a single one in the middle has at least half and itself on either side. Of two in
/// the middle, the lower has half of the times up to it and the rest and itself from it on, the
/// upper the other way round, and no time lies between them.
pub proof fn lemma_middle_halves(s: Seq<u128>)
    ensures
        match middle(s) {
            Middle::Nothing => s.len() == 0,
            Middle::One(x) => {
                &&& s.len() % 2 == 1
                &&& 2 * at_most_count(s, x) >= s.len() + 1
                &&& 2 * at_least_count(s, x) >= s.len() + 1
            },
            Middle::Two(x, y) => {
                &&& s.len() > 0 && s.len() % 2 == 0
                &&& x <= y
                &&& 2 * at_most_count(s, x) >= s.len()
                &&& 2 * at_least_count(s, x) >= s.len() + 2
                &&& 2 * at_least_count(s, y) >= s.len()
                &&& 2 * at_most_count(s, y) >= s.len() + 2
                &&& forall|i: int| 0 <= i < s.len() ==> !(x < #[trigger] s[i] < y)
            },
        },
{
    broadcast use vstd::seq_lib::group_to_multiset_ensures;

    let leq = time_order();
    let r = s.sort_by(leq);
    assert(total_ordering(leq));
    s.lemma_sort_by_ensures(leq);
    assert(r.to_multiset().len() == r.len() && s.to_multiset().len() == s.len());
    let half = s.len() as int / 2;
    if s.len() > 0 {
        lemma_counts_at(s, half);
        if s.len() % 2 == 0 {
            lemma_counts_at(s, half - 1);
            assert(leq(r[half - 1], r[half]));
            assert forall|i: int| 0 <= i < s.len() implies !(r[half - 1] < #[trigger] s[i]
                < r[half]) by {
                assert(s.contains(s[i]));
                assert(s.to_multiset().count(s[i]) > 0);
                assert(r.contains(s[i]));
                let j = choose|j: int| 0 <= j < r.len() && r[j] == s[i];
                if j < half - 1 {
                    assert(leq(r[j], r[half - 1]));
                } else if j > half {
                    assert(leq(r[half], r[j]));
                }
            }
        }
    }
}

} // verus!
