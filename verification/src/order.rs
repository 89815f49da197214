//! Orders, and sorting by them.

use vstd::prelude::*;
use vstd::relations::*;

verus! {

/// Whether `a` comes before `b` when the first place where they differ decides, and
/// otherwise the shorter comes first.
pub open spec fn lex_lt<T>(a: Seq<T>, b: Seq<T>, lt: spec_fn(T, T) -> bool) -> bool
    decreases a.len(),
{
    if b.len() == 0 {
        false
    } else if a.len() == 0 {
        true
    } else if a[0] != b[0] {
        lt(a[0], b[0])
    } else {
        lex_lt(a.drop_first(), b.drop_first(), lt)
    }
}

/// The order of byte strings.
pub open spec fn bytes_lt(a: Seq<u8>, b: Seq<u8>) -> bool {
    lex_lt(a, b, |x: u8, y: u8| x < y)
}

proof fn lemma_lex_transitive<T>(a: Seq<T>, b: Seq<T>, c: Seq<T>, lt: spec_fn(T, T) -> bool)
    requires
        strict_total_ordering(lt),
        lex_lt(a, b, lt),
        lex_lt(b, c, lt),
    ensures
        lex_lt(a, c, lt),
    decreases a.len(),
{
    if a.len() > 0 {
        if a[0] == b[0] && b[0] == c[0] {
            lemma_lex_transitive(a.drop_first(), b.drop_first(), c.drop_first(), lt);
        } else if a[0] != b[0] && b[0] != c[0] {
            assert(lt(a[0], b[0]) && lt(b[0], c[0]));
            assert(lt(a[0], c[0]));
            assert(!lt(a[0], a[0]));
        }
    }
}

proof fn lemma_lex_irreflexive<T>(a: Seq<T>, lt: spec_fn(T, T) -> bool)
    ensures
        !lex_lt(a, a, lt),
    decreases a.len(),
{
    if a.len() > 0 {
        lemma_lex_irreflexive(a.drop_first(), lt);
    }
}

proof fn lemma_lex_connected<T>(a: Seq<T>, b: Seq<T>, lt: spec_fn(T, T) -> bool)
    requires
        strict_total_ordering(lt),
        a != b,
    ensures
        lex_lt(a, b, lt) || lex_lt(b, a, lt),
    decreases a.len(),
{
    if a.len() > 0 && b.len() > 0 {
        if a[0] == b[0] {
            if a.drop_first() =~= b.drop_first() {
                assert(a =~= seq![a[0]] + a.drop_first());
                assert(b =~= seq![b[0]] + b.drop_first());
            }
            lemma_lex_connected(a.drop_first(), b.drop_first(), lt);
        } else {
            assert(lt(a[0], b[0]) || lt(b[0], a[0]));
        }
    } else if a.len() == 0 && b.len() == 0 {
        assert(a =~= b);
    }
}

/// The first place where two sequences differ decides.
pub(crate) proof fn lemma_lex_first<T>(a: Seq<T>, b: Seq<T>, n: int, lt: spec_fn(T, T) -> bool)
    requires
        0 <= n < a.len(),
        n < b.len(),
        forall|i: int| 0 <= i < n ==> a[i] == b[i],
        a[n] != b[n],
        lt(a[n], b[n]),
    ensures
        lex_lt(a, b, lt),
    decreases n,
{
    if n > 0 {
        assert(a[0] == b[0]);
        lemma_lex_first(a.drop_first(), b.drop_first(), n - 1, lt);
    }
}

/// The lexicographic order over a total order is one itself.
pub(crate) proof fn lemma_lex_total<T>(lt: spec_fn(T, T) -> bool)
    requires
        strict_total_ordering(lt),
    ensures
        strict_total_ordering(|a: Seq<T>, b: Seq<T>| lex_lt(a, b, lt)),
{
    let r = |a: Seq<T>, b: Seq<T>| lex_lt(a, b, lt);
    assert forall|a: Seq<T>| #[trigger] r(a, a) == false by {
        lemma_lex_irreflexive(a, lt);
    }
    assert forall|a: Seq<T>, b: Seq<T>, c: Seq<T>| #[trigger] r(a, b) && #[trigger] r(b, c) implies r(
        a,
        c,
    ) by {
        lemma_lex_transitive(a, b, c, lt);
    }
    assert forall|a: Seq<T>, b: Seq<T>| a != b implies #[trigger] r(a, b) || #[trigger] r(b, a) by {
        lemma_lex_connected(a, b, lt);
    }
    assert forall|a: Seq<T>, b: Seq<T>| #[trigger] r(a, b) && #[trigger] r(b, a) implies a == b by {
        lemma_lex_transitive(a, b, a, lt);
        lemma_lex_irreflexive(a, lt);
    }
}

/// Byte strings are totally ordered.
pub(crate) proof fn lemma_bytes_total()
    ensures
        strict_total_ordering(|a: Seq<u8>, b: Seq<u8>| bytes_lt(a, b)),
{
    let lt = |x: u8, y: u8| x < y;
    lemma_lex_total(lt);
    let r = |a: Seq<u8>, b: Seq<u8>| lex_lt(a, b, lt);
    let q = |a: Seq<u8>, b: Seq<u8>| bytes_lt(a, b);
    assert forall|a: Seq<u8>, b: Seq<u8>| #[trigger] q(a, b) == r(a, b) by {}
    assert(q =~= r);
}

/// Whether the byte string `a` comes before `b`.
pub fn bytes_before(a: &[u8], b: &[u8]) -> (r: bool)
    ensures
        r == bytes_lt(a@, b@),
{
    let mut i: usize = 0;
    assert(a@.skip(0) =~= a@);
    assert(b@.skip(0) =~= b@);
    while i < a.len() && i < b.len()
        invariant
            i <= a.len(),
            i <= b.len(),
            bytes_lt(a@, b@) == bytes_lt(a@.skip(i as int), b@.skip(i as int)),
        decreases a.len() - i,
    {
        let ghost x = a@.skip(i as int);
        let ghost y = b@.skip(i as int);
        if a[i] != b[i] {
            return a[i] < b[i];
        }
        assert(x.drop_first() =~= a@.skip(i + 1));
        assert(y.drop_first() =~= b@.skip(i + 1));
        i += 1;
    }
    i < b.len()
}

/// What a sort goes by.
pub trait SortKey: Sized {
    /// Whether `self` may stand ahead of `other`.
    spec fn precedes(self, other: Self) -> bool;

    proof fn precedes_total(a: Self, b: Self)
        ensures
            a.precedes(b) || b.precedes(a),
    ;

    proof fn precedes_transitive(a: Self, b: Self, c: Self)
        requires
            a.precedes(b),
            b.precedes(c),
        ensures
            a.precedes(c),
    ;

    fn at_most(&self, other: &Self) -> (r: bool)
        ensures
            r == self.precedes(*other),
    ;
}

/// The order that a type's sort goes by.
pub open spec fn key_order<T: SortKey>() -> spec_fn(T, T) -> bool {
    |a: T, b: T| a.precedes(b)
}

/// The items of `s` that rank with `k`.
pub open spec fn ranked_with<T>(s: Seq<T>, k: T, leq: spec_fn(T, T) -> bool) -> Seq<T> {
    s.filter(|x: T| leq(x, k) && leq(k, x))
}

pub open spec fn in_order<T>(s: Seq<T>, leq: spec_fn(T, T) -> bool) -> bool {
    forall|i: int, j: int| 0 <= i <= j < s.len() ==> leq(#[trigger] s[i], #[trigger] s[j])
}

/// Whether `r` is `s` sorted: in order, and of each rank the same items in the order in which
/// they stood.
pub open spec fn sorted_as<T>(r: Seq<T>, s: Seq<T>, leq: spec_fn(T, T) -> bool) -> bool {
    &&& in_order(r, leq)
    &&& forall|k: T| #[trigger] ranked_with(r, k, leq) == ranked_with(s, k, leq)
}

#[verifier::inline]
spec fn ranked<T: SortKey>(s: Seq<T>, k: T) -> Seq<T> {
    ranked_with(s, k, key_order::<T>())
}

proof fn lemma_ranked_add<T: SortKey>(a: Seq<T>, b: Seq<T>, k: T)
    ensures
        ranked(a + b, k) == ranked(a, k) + ranked(b, k),
{
    let leq = key_order::<T>();
    Seq::filter_distributes_over_add(a, b, |x: T| leq(x, k) && leq(k, x));
}

proof fn lemma_ranked_one<T: SortKey>(x: T, k: T)
    ensures
        ranked(seq![x], k) == if x.precedes(k) && k.precedes(x) {
            seq![x]
        } else {
            Seq::empty()
        },
{
    let leq = key_order::<T>();
    let same = |x: T| leq(x, k) && leq(k, x);
    Seq::<T>::empty().lemma_filter_push(x, same);
    assert(Seq::<T>::empty().push(x) =~= seq![x]);
    assert(Seq::<T>::empty().filter(same) =~= Seq::empty());
}

proof fn lemma_none_ranked<K>(s: Seq<K>, k: K, leq: spec_fn(K, K) -> bool)
    requires
        forall|i: int| 0 <= i < s.len() ==> !(leq(#[trigger] s[i], k) && leq(k, s[i])),
    ensures
        ranked_with(s, k, leq) == Seq::<K>::empty(),
    decreases s.len(),
{
    reveal(Seq::filter);
    if s.len() > 0 {
        lemma_none_ranked(s.drop_last(), k, leq);
        assert(!(leq(s[s.len() - 1], k) && leq(k, s[s.len() - 1])));
    }
}

/// What a merge keeps: `left` and `right` are what is still to be placed, `tail` what has been.
spec fn merging<T: SortKey>(
    left: Seq<T>,
    right: Seq<T>,
    tail: Seq<T>,
    left0: Seq<T>,
    right0: Seq<T>,
) -> bool {
    &&& in_order(left, key_order::<T>())
    &&& in_order(right, key_order::<T>())
    &&& in_order(tail, key_order::<T>())
    &&& forall|i: int, j: int|
        0 <= i < left.len() && 0 <= j < tail.len() ==> #[trigger] left[i].precedes(
            #[trigger] tail[j],
        )
    &&& forall|i: int, j: int|
        0 <= i < right.len() && 0 <= j < tail.len() ==> #[trigger] right[i].precedes(
            #[trigger] tail[j],
        )
    &&& forall|k: T|
        ranked(left, k) + ranked(right, k) + #[trigger] ranked(tail, k)
            == ranked(left0, k) + ranked(right0, k)
}

/// Placing the last item of `right`, which may stand after all that is left.
proof fn lemma_merge_right<T: SortKey>(
    left: Seq<T>,
    right: Seq<T>,
    tail: Seq<T>,
    left0: Seq<T>,
    right0: Seq<T>,
)
    requires
        merging(left, right, tail, left0, right0),
        right.len() > 0,
        left.len() > 0 ==> left.last().precedes(right.last()),
    ensures
        merging(left, right.drop_last(), seq![right.last()] + tail, left0, right0),
{
    let x = right.last();
    let rest = right.drop_last();
    let placed = seq![x] + tail;
    assert(rest.push(x) =~= right);
    assert(rest + seq![x] =~= right);
    assert forall|i: int, j: int| 0 <= i <= j < placed.len() implies #[trigger] placed[i].precedes(
        #[trigger] placed[j],
    ) by {
        if i == 0 && j == 0 {
            T::precedes_total(x, x);
        } else if i == 0 {
            assert(right[right.len() - 1].precedes(tail[j - 1]));
        } else {
            assert(tail[i - 1].precedes(tail[j - 1]));
        }
    }
    assert forall|i: int, j: int| 0 <= i < left.len() && 0 <= j < placed.len() implies
        #[trigger] left[i].precedes(#[trigger] placed[j]) by {
        if j == 0 {
            assert(left[i].precedes(left[left.len() - 1]));
            T::precedes_transitive(left[i], left.last(), x);
        } else {
            assert(left[i].precedes(tail[j - 1]));
        }
    }
    assert forall|i: int, j: int| 0 <= i < rest.len() && 0 <= j < placed.len() implies
        #[trigger] rest[i].precedes(#[trigger] placed[j]) by {
        if j == 0 {
            assert(right[i].precedes(right[right.len() - 1]));
        } else {
            assert(right[i].precedes(tail[j - 1]));
        }
    }
    assert forall|i: int, j: int| 0 <= i <= j < rest.len() implies #[trigger] rest[i].precedes(
        #[trigger] rest[j],
    ) by {
        assert(right[i].precedes(right[j]));
    }
    assert forall|k: T|
        ranked(left, k) + ranked(rest, k) + #[trigger] ranked(placed, k)
            == ranked(left0, k) + ranked(right0, k) by {
        lemma_ranked_add(rest, seq![x], k);
        lemma_ranked_add(seq![x], tail, k);
        assert(ranked(left, k) + ranked(right, k) + ranked(tail, k)
            == ranked(left0, k) + ranked(right0, k));
        assert(ranked(left, k) + ranked(rest, k) + ranked(placed, k)
            =~= ranked(left, k) + ranked(right, k) + ranked(tail, k));
    }
}

/// Placing the last item of `left`, which must stand after all that is left of `right`.
proof fn lemma_merge_left<T: SortKey>(
    left: Seq<T>,
    right: Seq<T>,
    tail: Seq<T>,
    left0: Seq<T>,
    right0: Seq<T>,
)
    requires
        merging(left, right, tail, left0, right0),
        left.len() > 0,
        right.len() > 0 ==> !left.last().precedes(right.last()),
    ensures
        merging(left.drop_last(), right, seq![left.last()] + tail, left0, right0),
{
    let x = left.last();
    let rest = left.drop_last();
    let placed = seq![x] + tail;
    assert(rest.push(x) =~= left);
    assert(rest + seq![x] =~= left);
    assert forall|i: int| 0 <= i < right.len() implies !x.precedes(#[trigger] right[i])
        && right[i].precedes(x) by {
        assert(right[i].precedes(right[right.len() - 1]));
        if x.precedes(right[i]) {
            T::precedes_transitive(x, right[i], right.last());
        }
        T::precedes_total(x, right[i]);
    }
    assert forall|i: int, j: int| 0 <= i <= j < placed.len() implies #[trigger] placed[i].precedes(
        #[trigger] placed[j],
    ) by {
        if i == 0 && j == 0 {
            T::precedes_total(x, x);
        } else if i == 0 {
            assert(left[left.len() - 1].precedes(tail[j - 1]));
        } else {
            assert(tail[i - 1].precedes(tail[j - 1]));
        }
    }
    assert forall|i: int, j: int| 0 <= i < right.len() && 0 <= j < placed.len() implies
        #[trigger] right[i].precedes(#[trigger] placed[j]) by {
        if j > 0 {
            assert(right[i].precedes(tail[j - 1]));
        }
    }
    assert forall|i: int, j: int| 0 <= i < rest.len() && 0 <= j < placed.len() implies
        #[trigger] rest[i].precedes(#[trigger] placed[j]) by {
        if j == 0 {
            assert(left[i].precedes(left[left.len() - 1]));
        } else {
            assert(left[i].precedes(tail[j - 1]));
        }
    }
    assert forall|i: int, j: int| 0 <= i <= j < rest.len() implies #[trigger] rest[i].precedes(
        #[trigger] rest[j],
    ) by {
        assert(left[i].precedes(left[j]));
    }
    assert forall|k: T|
        ranked(rest, k) + ranked(right, k) + #[trigger] ranked(placed, k)
            == ranked(left0, k) + ranked(right0, k) by {
        lemma_ranked_add(rest, seq![x], k);
        lemma_ranked_add(seq![x], tail, k);
        lemma_ranked_one(x, k);
        assert(ranked(left, k) + ranked(right, k) + ranked(tail, k)
            == ranked(left0, k) + ranked(right0, k));
        if x.precedes(k) && k.precedes(x) {
            assert forall|i: int| 0 <= i < right.len() implies !((#[trigger] right[i]).precedes(k)
                && k.precedes(right[i])) by {
                if k.precedes(right[i]) {
                    T::precedes_transitive(x, k, right[i]);
                }
            }
            lemma_none_ranked(right, k, key_order::<T>());
        }
        assert(ranked(rest, k) + ranked(right, k) + ranked(placed, k)
            =~= ranked(left, k) + ranked(right, k) + ranked(tail, k));
    }
}

/// `items` in the opposite order.
fn reversed<T>(items: Vec<T>) -> (r: Vec<T>)
    ensures
        r@ == items@.reverse(),
{
    let mut rest: Vec<T> = items;
    let mut out: Vec<T> = Vec::new();
    while rest.len() > 0
        invariant
            rest@.len() + out@.len() == items@.len(),
            rest@ == items@.take(rest@.len() as int),
            out@ == items@.skip(rest@.len() as int).reverse(),
        decreases rest.len(),
    {
        let ghost n = rest@.len() as int;
        let last: Option<T> = rest.pop();
        if let Some(x) = last {
            out.push(x);
        }
        assert(out@ =~= items@.skip(n - 1).reverse());
        assert(rest@ =~= items@.take(n - 1));
    }
    assert(items@.skip(0) =~= items@);
    out
}

/// Merges two sorted lists.
fn merge<T: SortKey>(left: Vec<T>, right: Vec<T>) -> (r: Vec<T>)
    requires
        in_order(left@, key_order::<T>()),
        in_order(right@, key_order::<T>()),
    ensures
        sorted_as(r@, left@ + right@, key_order::<T>()),
{
    let mut a: Vec<T> = left;
    let mut b: Vec<T> = right;
    let mut placed: Vec<T> = Vec::new();
    proof {
        assert(placed@.reverse() =~= Seq::empty());
        assert forall|k: T|
            ranked(a@, k) + ranked(b@, k) + #[trigger] ranked(Seq::<T>::empty(), k)
                == ranked(left@, k) + ranked(right@, k) by {
            lemma_none_ranked(Seq::<T>::empty(), k, key_order::<T>());
            assert(ranked(a@, k) + ranked(b@, k) + Seq::<T>::empty() =~= ranked(left@, k) + ranked(
                right@,
                k,
            ));
        }
    }
    while a.len() > 0 || b.len() > 0
        invariant
            merging(a@, b@, placed@.reverse(), left@, right@),
        decreases a.len() + b.len(),
    {
        let from_left: bool = if b.len() == 0 {
            true
        } else if a.len() == 0 {
            false
        } else {
            !a[a.len() - 1].at_most(&b[b.len() - 1])
        };
        let ghost tail = placed@.reverse();
        let ghost a0 = a@;
        let ghost b0 = b@;
        if from_left {
            proof {
                lemma_merge_left(a@, b@, tail, left@, right@);
            }
            if let Some(x) = a.pop() {
                placed.push(x);
            }
            assert(placed@.reverse() =~= seq![a0.last()] + tail);
            assert(a@ =~= a0.drop_last());
        } else {
            proof {
                lemma_merge_right(a@, b@, tail, left@, right@);
            }
            if let Some(x) = b.pop() {
                placed.push(x);
            }
            assert(placed@.reverse() =~= seq![b0.last()] + tail);
            assert(b@ =~= b0.drop_last());
        }
    }
    proof {
        let r = placed@.reverse();
        assert(a@ =~= Seq::empty());
        assert(b@ =~= Seq::empty());
        assert forall|k: T| #[trigger] ranked(r, k) == ranked(left@ + right@, k) by {
            lemma_none_ranked(Seq::<T>::empty(), k, key_order::<T>());
            lemma_ranked_add(left@, right@, k);
            assert(ranked(a@, k) + ranked(b@, k) + ranked(r, k) =~= ranked(r, k));
        }
    }
    reversed(placed)
}

/// `items` sorted.
pub fn sort<T: SortKey>(items: Vec<T>) -> (r: Vec<T>)
    ensures
        sorted_as(r@, items@, key_order::<T>()),
    decreases items.len(),
{
    if items.len() <= 1 {
        proof {
            assert forall|i: int, j: int| 0 <= i <= j < items@.len() implies
                #[trigger] items@[i].precedes(#[trigger] items@[j]) by {
                T::precedes_total(items@[i], items@[j]);
            }
        }
        return items;
    }
    let mut front: Vec<T> = items;
    let middle: usize = front.len() / 2;
    let back: Vec<T> = front.split_off(middle);
    let ghost a = front@;
    let ghost b = back@;
    assert(a + b =~= items@);
    let front_sorted: Vec<T> = sort(front);
    let back_sorted: Vec<T> = sort(back);
    let ghost x = front_sorted@;
    let ghost y = back_sorted@;
    let r: Vec<T> = merge(front_sorted, back_sorted);
    proof {
        assert forall|k: T| #[trigger] ranked(r@, k) == ranked(items@, k) by {
            lemma_ranked_add(a, b, k);
            lemma_ranked_add(x, y, k);
            assert(ranked(x, k) == ranked(a, k));
            assert(ranked(y, k) == ranked(b, k));
            assert(ranked(r@, k) == ranked(x + y, k));
        }
    }
    r
}

/// There is one way only to sort a list.
pub proof fn lemma_sorted_unique<T>(
    a: Seq<T>,
    b: Seq<T>,
    s: Seq<T>,
    leq: spec_fn(T, T) -> bool,
)
    requires
        reflexive(leq),
        sorted_as(a, s, leq),
        sorted_as(b, s, leq),
    ensures
        a == b,
{
    assert forall|k: T| #[trigger] ranked_with(a, k, leq) == ranked_with(b, k, leq) by {
        assert(ranked_with(a, k, leq) == ranked_with(s, k, leq));
        assert(ranked_with(b, k, leq) == ranked_with(s, k, leq));
    }
    lemma_same_ranks(a, b, leq);
}

/// The last item of one list stands in every list of the same ranks.
proof fn lemma_last_ranked<T>(a: Seq<T>, b: Seq<T>, leq: spec_fn(T, T) -> bool)
    requires
        reflexive(leq),
        a.len() > 0,
        forall|k: T| #[trigger] ranked_with(a, k, leq) == ranked_with(b, k, leq),
    ensures
        b.contains(a.last()),
{
    let x = a.last();
    let p = |y: T| leq(y, x) && leq(x, y);
    assert(leq(x, x));
    a.lemma_filter_contains(p, a.len() - 1);
    assert(ranked_with(a, x, leq) == ranked_with(b, x, leq));
    assert(a.filter(p) == b.filter(p));
    b.lemma_filter_contains_rev(p, x);
}

proof fn lemma_same_ranks<T>(a: Seq<T>, b: Seq<T>, leq: spec_fn(T, T) -> bool)
    requires
        reflexive(leq),
        in_order(a, leq),
        in_order(b, leq),
        forall|k: T| #[trigger] ranked_with(a, k, leq) == ranked_with(b, k, leq),
    ensures
        a == b,
    decreases a.len() + b.len(),
{
    if a.len() == 0 && b.len() == 0 {
        assert(a =~= b);
    } else {
        if a.len() > 0 {
            lemma_last_ranked(a, b, leq);
        }
        if b.len() > 0 {
            assert forall|k: T| #[trigger] ranked_with(b, k, leq) == ranked_with(a, k, leq) by {
                assert(ranked_with(a, k, leq) == ranked_with(b, k, leq));
            }
            lemma_last_ranked(b, a, leq);
        }
        let x = a.last();
        let y = b.last();
        let a1 = a.drop_last();
        let b1 = b.drop_last();
        assert(a1.push(x) =~= a);
        assert(b1.push(y) =~= b);
        let i = choose|i: int| 0 <= i < b.len() && b[i] == x;
        assert(leq(b[i], b[b.len() - 1]));
        let j = choose|j: int| 0 <= j < a.len() && a[j] == y;
        assert(leq(a[j], a[a.len() - 1]));
        let p = |z: T| leq(z, x) && leq(x, z);
        a1.lemma_filter_push(x, p);
        b1.lemma_filter_push(y, p);
        assert(leq(x, x));
        assert(ranked_with(a, x, leq) == ranked_with(b, x, leq));
        assert(ranked_with(a, x, leq).last() == x);
        assert(ranked_with(b, x, leq).last() == y);
        assert forall|k: T| #[trigger] ranked_with(a1, k, leq) == ranked_with(b1, k, leq) by {
            let q = |z: T| leq(z, k) && leq(k, z);
            a1.lemma_filter_push(x, q);
            b1.lemma_filter_push(x, q);
            assert(ranked_with(a, k, leq) == ranked_with(b, k, leq));
            assert(a1.filter(q) == b1.filter(q)) by {
                if q(x) {
                    assert(a1.filter(q) =~= a.filter(q).drop_last());
                    assert(b1.filter(q) =~= b.filter(q).drop_last());
                }
            }
        }
        assert forall|i: int, j: int| 0 <= i <= j < a1.len() implies leq(
            #[trigger] a1[i],
            #[trigger] a1[j],
        ) by {
            assert(leq(a[i], a[j]));
        }
        assert forall|i: int, j: int| 0 <= i <= j < b1.len() implies leq(
            #[trigger] b1[i],
            #[trigger] b1[j],
        ) by {
            assert(leq(b[i], b[j]));
        }
        lemma_same_ranks(a1, b1, leq);
    }
}

proof fn lemma_filter_count<T>(s: Seq<T>, p: spec_fn(T) -> bool, x: T)
    requires
        p(x),
    ensures
        s.filter(p).to_multiset().count(x) == s.to_multiset().count(x),
    decreases s.len(),
{
    broadcast use vstd::seq_lib::group_to_multiset_ensures;

    if s.len() == 0 {
        assert(s.filter(p) =~= s);
    } else {
        let t = s.drop_last();
        assert(t.push(s.last()) =~= s);
        lemma_filter_count(t, p, x);
        t.lemma_filter_push(s.last(), p);
    }
}

/// Sorting keeps the items as they are and each as often as it occurs.
pub proof fn lemma_sorted_same_items<T>(r: Seq<T>, s: Seq<T>, leq: spec_fn(T, T) -> bool)
    requires
        reflexive(leq),
        sorted_as(r, s, leq),
    ensures
        r.to_multiset() == s.to_multiset(),
{
    assert forall|x: T| r.to_multiset().count(x) == s.to_multiset().count(x) by {
        let p = |y: T| leq(y, x) && leq(x, y);
        assert(leq(x, x));
        lemma_filter_count(r, p, x);
        lemma_filter_count(s, p, x);
        assert(ranked_with(r, x, leq) == ranked_with(s, x, leq));
    }
    assert(r.to_multiset() =~= s.to_multiset());
}

proof fn lemma_filter_map<T, K>(
    s: Seq<T>,
    f: spec_fn(T) -> K,
    p: spec_fn(K) -> bool,
    q: spec_fn(T) -> bool,
)
    requires
        forall|x: T| #[trigger] q(x) == p(f(x)),
    ensures
        s.map_values(f).filter(p) == s.filter(q).map_values(f),
    decreases s.len(),
{
    if s.len() == 0 {
        assert(s.map_values(f) =~= Seq::empty());
        assert(s.filter(q) =~= Seq::empty());
        assert(Seq::<K>::empty().filter(p) =~= Seq::empty());
        assert(s.filter(q).map_values(f) =~= Seq::empty());
    } else {
        let t = s.drop_last();
        let x = s.last();
        lemma_filter_map(t, f, p, q);
        assert(t.push(x) =~= s);
        assert(s.map_values(f) =~= t.map_values(f).push(f(x)));
        t.map_values(f).lemma_filter_push(f(x), p);
        t.lemma_filter_push(x, q);
        assert(q(x) == p(f(x)));
        assert(t.filter(q).push(x).map_values(f) =~= t.filter(q).map_values(f).push(f(x)));
    }
}

proof fn lemma_ranked_map<T, K>(
    s: Seq<T>,
    f: spec_fn(T) -> K,
    x: T,
    k: K,
    below: spec_fn(T, T) -> bool,
    leq: spec_fn(K, K) -> bool,
)
    requires
        transitive(leq),
        forall|a: T, b: T| #[trigger] below(a, b) == leq(f(a), f(b)),
        leq(f(x), k),
        leq(k, f(x)),
    ensures
        ranked_with(s.map_values(f), k, leq) == ranked_with(s, x, below).map_values(f),
{
    let p = |y: K| leq(y, k) && leq(k, y);
    let q = |y: T| below(y, x) && below(x, y);
    assert forall|y: T| #[trigger] q(y) == p(f(y)) by {
        assert(below(y, x) == leq(f(y), f(x)));
        assert(below(x, y) == leq(f(x), f(y)));
        assert(leq(f(y), f(x)) && leq(f(x), k) ==> leq(f(y), k));
        assert(leq(k, f(x)) && leq(f(x), f(y)) ==> leq(k, f(y)));
        assert(leq(f(y), k) && leq(k, f(x)) ==> leq(f(y), f(x)));
        assert(leq(f(x), k) && leq(k, f(y)) ==> leq(f(x), f(y)));
    }
    lemma_filter_map(s, f, p, q);
}

/// A sorted list shows as a sorted list, where what is shown decides the order.
pub(crate) proof fn lemma_sorted_map<T, K>(
    r: Seq<T>,
    s: Seq<T>,
    f: spec_fn(T) -> K,
    below: spec_fn(T, T) -> bool,
    leq: spec_fn(K, K) -> bool,
)
    requires
        transitive(leq),
        forall|a: T, b: T| #[trigger] below(a, b) == leq(f(a), f(b)),
        sorted_as(r, s, below),
    ensures
        sorted_as(r.map_values(f), s.map_values(f), leq),
{
    let x = r.map_values(f);
    let y = s.map_values(f);
    assert forall|i: int, j: int| 0 <= i <= j < x.len() implies leq(
        #[trigger] x[i],
        #[trigger] x[j],
    ) by {
        assert(below(r[i], r[j]));
    }
    assert forall|k: K| #[trigger] ranked_with(x, k, leq) == ranked_with(y, k, leq) by {
        if exists|i: int| 0 <= i < x.len() && leq(#[trigger] x[i], k) && leq(k, x[i]) {
            let i = choose|i: int| 0 <= i < x.len() && leq(#[trigger] x[i], k) && leq(k, x[i]);
            lemma_ranked_map(r, f, r[i], k, below, leq);
            lemma_ranked_map(s, f, r[i], k, below, leq);
            assert(ranked_with(r, r[i], below) == ranked_with(s, r[i], below));
        } else if exists|i: int| 0 <= i < y.len() && leq(#[trigger] y[i], k) && leq(k, y[i]) {
            let i = choose|i: int| 0 <= i < y.len() && leq(#[trigger] y[i], k) && leq(k, y[i]);
            lemma_ranked_map(r, f, s[i], k, below, leq);
            lemma_ranked_map(s, f, s[i], k, below, leq);
            assert(ranked_with(r, s[i], below) == ranked_with(s, s[i], below));
        } else {
            lemma_none_ranked(x, k, leq);
            lemma_none_ranked(y, k, leq);
        }
    }
}

/// Whether the byte strings are the same up to `n`, and there the first ends or has the lower byte.
pub open spec fn lower_at(a: Seq<u8>, b: Seq<u8>, n: int) -> bool {
    &&& 0 <= n <= a.len()
    &&& n < b.len()
    &&& forall|i: int| 0 <= i < n ==> #[trigger] a[i] == b[i]
    &&& n < a.len() ==> a[n] < b[n]
}

/// Of two byte strings the first place where they differ decides, and a beginning comes ahead of the
/// whole.
pub proof fn lemma_bytes_order(a: Seq<u8>, b: Seq<u8>)
    ensures
        bytes_lt(a, b) <==> exists|n: int| #[trigger] lower_at(a, b, n),
{
    let lt = |x: u8, y: u8| x < y;
    if bytes_lt(a, b) {
        let n = lemma_lex_decided(a, b, lt);
        assert(lower_at(a, b, n));
    }
    if exists|n: int| #[trigger] lower_at(a, b, n) {
        let n = choose|n: int| #[trigger] lower_at(a, b, n);
        lemma_lex_decides(a, b, n, lt);
    }
}

/// Where one sequence comes before another, some place decides.
pub(crate) proof fn lemma_lex_decided<T>(a: Seq<T>, b: Seq<T>, lt: spec_fn(T, T) -> bool) -> (n: int)
    requires
        lex_lt(a, b, lt),
    ensures
        0 <= n <= a.len(),
        n < b.len(),
        forall|i: int| 0 <= i < n ==> #[trigger] a[i] == b[i],
        n < a.len() ==> a[n] != b[n] && lt(a[n], b[n]),
    decreases a.len(),
{
    if a.len() == 0 || a[0] != b[0] {
        0
    } else {
        let x = a.drop_first();
        let y = b.drop_first();
        let n = lemma_lex_decided(x, y, lt);
        assert forall|i: int| 0 <= i < n + 1 implies #[trigger] a[i] == b[i] by {
            if i > 0 {
                assert(x[i - 1] == y[i - 1]);
            }
        }
        if n + 1 < a.len() {
            assert(x[n] == a[n + 1] && y[n] == b[n + 1]);
        }
        n + 1
    }
}

pub(crate) proof fn lemma_lex_decides<T>(a: Seq<T>, b: Seq<T>, n: int, lt: spec_fn(T, T) -> bool)
    requires
        0 <= n <= a.len(),
        n < b.len(),
        forall|i: int| 0 <= i < n ==> #[trigger] a[i] == b[i],
        n < a.len() ==> a[n] != b[n] && lt(a[n], b[n]),
    ensures
        lex_lt(a, b, lt),
    decreases n,
{
    if n == a.len() && n > 0 {
        let x = a.drop_first();
        let y = b.drop_first();
        assert(a[0] == b[0]);
        assert forall|i: int| 0 <= i < n - 1 implies #[trigger] x[i] == y[i] by {
            assert(a[i + 1] == b[i + 1]);
        }
        lemma_lex_decides(x, y, n - 1, lt);
    } else if n < a.len() {
        lemma_lex_first(a, b, n, lt);
    }
}

/// A sorted list is in order, and each of its items is one of the list's, as often as it is there.
pub proof fn lemma_sorted_means<T>(r: Seq<T>, s: Seq<T>, leq: spec_fn(T, T) -> bool)
    requires
        reflexive(leq),
        sorted_as(r, s, leq),
    ensures
        forall|i: int, j: int| 0 <= i < j < r.len() ==> leq(#[trigger] r[i], #[trigger] r[j]),
        r.len() == s.len(),
        r.to_multiset() == s.to_multiset(),
{
    broadcast use vstd::seq_lib::group_to_multiset_ensures;

    lemma_sorted_same_items(r, s, leq);
    assert(r.to_multiset().len() == r.len() && s.to_multiset().len() == s.len());
}

} // verus!
