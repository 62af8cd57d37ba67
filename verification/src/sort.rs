//! A merge sort, for values in a total order.

use vstd::prelude::*;
use vstd::relations::{sorted_by, total_ordering};
use vstd::seq_lib::{lemma_sorted_unique, to_multiset_build};

verus! {

/// Values in a total order.
pub trait Ordered: Copy {
    /// Whether `a` comes before `b`, or is `b`.
    spec fn le(a: Self, b: Self) -> bool;

    proof fn lemma_total()
        ensures
            forall|a: Self| #[trigger] Self::le(a, a),
            forall|a: Self, b: Self| #[trigger] Self::le(a, b) && #[trigger] Self::le(b, a) ==> a == b,
            forall|a: Self, b: Self, c: Self| #[trigger]
                Self::le(a, b) && #[trigger] Self::le(b, c) ==> Self::le(a, c),
            forall|a: Self, b: Self| #[trigger] Self::le(a, b) || Self::le(b, a),
    ;

    /// Whether the value comes before another, or is the other.
    fn precedes(&self, other: &Self) -> (r: bool)
        ensures
            r == Self::le(*self, *other),
    ;
}

/// The order of a type.
pub open spec fn order<T: Ordered>() -> spec_fn(T, T) -> bool {
    |a: T, b: T| T::le(a, b)
}

proof fn lemma_order<T: Ordered>()
    ensures
        total_ordering(order::<T>()),
{
    T::lemma_total();
    let leq = order::<T>();
    assert forall|a: T, b: T| #[trigger] leq(a, b) && #[trigger] leq(b, a) implies a == b by {
        assert(T::le(a, b) && T::le(b, a));
    }
    assert forall|a: T, b: T, c: T| #[trigger] leq(a, b) && #[trigger] leq(b, c) implies leq(
        a,
        c,
    ) by {
        assert(T::le(a, b) && T::le(b, c));
    }
    assert forall|a: T, b: T| #[trigger] leq(a, b) || #[trigger] leq(b, a) by {
        assert(T::le(a, b) || T::le(b, a));
    }
}

/// The values in order.
pub open spec fn sorted<T: Ordered>(s: Seq<T>) -> Seq<T> {
    s.sort_by(order::<T>())
}

fn merge<T: Ordered>(a: &Vec<T>, b: &Vec<T>) -> (r: Vec<T>)
    requires
        sorted_by(a@, order::<T>()),
        sorted_by(b@, order::<T>()),
    ensures
        sorted_by(r@, order::<T>()),
        r@.to_multiset() == a@.to_multiset().add(b@.to_multiset()),
{
    broadcast use vstd::seq_lib::group_to_multiset_ensures;
    broadcast use vstd::multiset::group_multiset_axioms;

    let ghost leq = order::<T>();
    proof {
        lemma_order::<T>();
    }
    let mut out: Vec<T> = Vec::new();
    let mut i: usize = 0;
    let mut j: usize = 0;
    assert(out@.to_multiset() =~= a@.take(0).to_multiset().add(b@.take(0).to_multiset()));
    while i < a.len() || j < b.len()
        invariant
            i <= a.len(),
            j <= b.len(),
            leq == order::<T>(),
            total_ordering(leq),
            sorted_by(a@, leq),
            sorted_by(b@, leq),
            sorted_by(out@, leq),
            forall|p: int, q: int|
                0 <= p < out.len() && i <= q < a.len() ==> leq(#[trigger] out@[p], #[trigger] a@[q]),
            forall|p: int, q: int|
                0 <= p < out.len() && j <= q < b.len() ==> leq(#[trigger] out@[p], #[trigger] b@[q]),
            out@.to_multiset() == a@.take(i as int).to_multiset().add(
                b@.take(j as int).to_multiset(),
            ),
        decreases a.len() - i + b.len() - j,
    {
        let ghost before = out@;
        let take_a: bool = if i < a.len() {
            if j < b.len() {
                a[i].precedes(&b[j])
            } else {
                true
            }
        } else {
            false
        };
        if take_a {
            let x = a[i];
            assert(a@.take(i + 1) == a@.take(i as int).push(x));
            let ghost m1 = a@.take(i as int).to_multiset();
            let ghost m2 = b@.take(j as int).to_multiset();
            assert(m1.insert(x).add(m2) =~= m1.add(m2).insert(x));
            proof {
                to_multiset_build(before, x);
                to_multiset_build(a@.take(i as int), x);
            }
            out.push(x);
            i += 1;
            assert(out@ == before.push(x));
            assert forall|q: int| j <= q < b.len() implies leq(x, #[trigger] b@[q]) by {
                assert(leq(x, b@[j as int]));
                if q > j {
                    assert(leq(b@[j as int], b@[q]));
                }
            }
            assert forall|q: int| i <= q < a.len() implies leq(x, #[trigger] a@[q]) by {
                assert(leq(a@[i - 1], a@[q]));
            }
        } else {
            let x = b[j];
            assert(b@.take(j + 1) == b@.take(j as int).push(x));
            let ghost m1 = a@.take(i as int).to_multiset();
            let ghost m2 = b@.take(j as int).to_multiset();
            assert(m1.add(m2.insert(x)) =~= m1.add(m2).insert(x));
            proof {
                to_multiset_build(before, x);
                to_multiset_build(b@.take(j as int), x);
            }
            out.push(x);
            j += 1;
            assert(out@ == before.push(x));
            assert forall|q: int| i <= q < a.len() implies leq(x, #[trigger] a@[q]) by {
                assert(leq(a@[i as int], x) || leq(x, a@[i as int]));
                if q > i {
                    assert(leq(a@[i as int], a@[q]));
                }
            }
            assert forall|q: int| j <= q < b.len() implies leq(x, #[trigger] b@[q]) by {
                assert(leq(b@[j - 1], b@[q]));
            }
        }
        assert(out@.to_multiset() =~= a@.take(i as int).to_multiset().add(
            b@.take(j as int).to_multiset(),
        ));
    }
    assert(a@.take(i as int) == a@);
    assert(b@.take(j as int) == b@);
    out
}

/// Sorts the values from `from` up to `to`.
fn sort_range<T: Ordered>(v: &Vec<T>, from: usize, to: usize) -> (r: Vec<T>)
    requires
        from <= to <= v.len(),
    ensures
        sorted_by(r@, order::<T>()),
        r@.to_multiset() == v@.subrange(from as int, to as int).to_multiset(),
    decreases to - from,
{
    broadcast use vstd::seq_lib::group_to_multiset_ensures;
    broadcast use vstd::multiset::group_multiset_axioms;

    proof {
        lemma_order::<T>();
    }
    let ghost part = v@.subrange(from as int, to as int);
    if to - from <= 1 {
        let mut out: Vec<T> = Vec::new();
        if from < to {
            out.push(v[from]);
        }
        assert(out@ == part);
        return out;
    }
    let mid: usize = from + (to - from) / 2;
    let left = sort_range(v, from, mid);
    let right = sort_range(v, mid, to);
    let r = merge(&left, &right);
    proof {
        let l = v@.subrange(from as int, mid as int);
        let m = v@.subrange(mid as int, to as int);
        assert(part == l + m);
        vstd::seq_lib::lemma_multiset_commutative(l, m);
    }
    r
}

/// The values in order.
pub fn sort<T: Ordered>(v: &Vec<T>) -> (r: Vec<T>)
    ensures
        r@ == sorted(v@),
{
    let r = sort_range(v, 0, v.len());
    proof {
        lemma_order::<T>();
        assert(v@.subrange(0, v@.len() as int) == v@);
        v@.lemma_sort_by_ensures(order::<T>());
        lemma_sorted_unique(r@, sorted(v@), order::<T>());
    }
    r
}

/// Sorting keeps every value, and puts them in order.
pub proof fn sorting_keeps_the_values<T: Ordered>(s: Seq<T>)
    ensures
        sorted(s).to_multiset() == s.to_multiset(),
        sorted_by(sorted(s), order::<T>()),
        sorted(s).len() == s.len(),
        forall|x: T| sorted(s).contains(x) <==> s.contains(x),
{
    broadcast use vstd::seq_lib::group_to_multiset_ensures;

    lemma_order::<T>();
    s.lemma_sort_by_ensures(order::<T>());
    assert(sorted(s).len() == sorted(s).to_multiset().len());
    assert(s.len() == s.to_multiset().len());
    assert forall|x: T| sorted(s).contains(x) <==> s.contains(x) by {
        assert(sorted(s).contains(x) <==> sorted(s).to_multiset().count(x) > 0);
        assert(s.contains(x) <==> s.to_multiset().count(x) > 0);
    }
}

impl Ordered for u64 {
    open spec fn le(a: u64, b: u64) -> bool {
        a <= b
    }

    proof fn lemma_total() {
    }

    fn precedes(&self, other: &u64) -> (r: bool) {
        *self <= *other
    }
}

}
