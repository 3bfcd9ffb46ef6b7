//! Sorting by merging, for values with a strict order.

use vstd::prelude::*;
use vstd::seq_lib::{lemma_multiset_commutative, to_multiset_build};

verus! {

/// Values with a strict order in which "not before" is transitive.
pub trait Ranked: Copy {
    /// `self` comes strictly before `other`.
    spec fn before(self, other: Self) -> bool;

    /// Executable form of [`Ranked::before`].
    fn is_before(&self, other: &Self) -> (b: bool)
        ensures
            b == self.before(*other),
    ;

    /// Nothing comes before itself, of two values at most one comes
    /// before the other, and "not after" carries over: where `a` is not
    /// after `b` and `b` not after `c`, `a` is not after `c`.
    proof fn lemma_order(a: Self, b: Self, c: Self)
        ensures
            !a.before(a),
            a.before(b) ==> !b.before(a),
            !b.before(a) && !c.before(b) ==> !c.before(a),
    ;
}

/// No element comes before an earlier one.
pub open spec fn ascending<T: Ranked>(s: Seq<T>) -> bool {
    forall|i: int, j: int| 0 <= i < j < s.len() ==> !(#[trigger] s[j]).before(#[trigger] s[i])
}

/// Merges two ascending lists into one.
fn merge<T: Ranked>(a: &Vec<T>, b: &Vec<T>) -> (merged: Vec<T>)
    requires
        ascending(a@),
        ascending(b@),
        a.len() + b.len() <= usize::MAX,
    ensures
        ascending(merged@),
        merged@.to_multiset() == a@.to_multiset().add(b@.to_multiset()),
        merged.len() == a.len() + b.len(),
{
    let mut merged: Vec<T> = Vec::new();
    let mut i: usize = 0;
    let mut j: usize = 0;
    proof {
        assert(a@.take(0) =~= Seq::<T>::empty());
        assert(b@.take(0) =~= Seq::<T>::empty());
        lemma_multiset_commutative(a@.take(0), b@.take(0));
        assert(a@.take(0) + b@.take(0) =~= Seq::<T>::empty());
    }
    while i < a.len() || j < b.len()
        invariant
            i <= a.len(),
            j <= b.len(),
            ascending(a@),
            ascending(b@),
            ascending(merged@),
            merged.len() == i + j,
            merged@.to_multiset() == a@.take(i as int).to_multiset().add(
                b@.take(j as int).to_multiset(),
            ),
            forall|x: int, y: int|
                0 <= x < merged.len() && i <= y < a.len() ==> !(#[trigger] a@[y]).before(
                    #[trigger] merged@[x],
                ),
            forall|x: int, y: int|
                0 <= x < merged.len() && j <= y < b.len() ==> !(#[trigger] b@[y]).before(
                    #[trigger] merged@[x],
                ),
        decreases a.len() - i + (b.len() - j),
    {
        let ghost before = merged@;
        let take_left: bool = if i >= a.len() {
            false
        } else if j >= b.len() {
            true
        } else {
            !b[j].is_before(&a[i])
        };
        if take_left {
            let x: T = a[i];
            merged.push(x);
            proof {
                assert(a@.take(i as int + 1) =~= a@.take(i as int).push(x));
                to_multiset_build(a@.take(i as int), x);
                to_multiset_build(before, x);
                assert(merged@.to_multiset() =~= a@.take(i as int + 1).to_multiset().add(
                    b@.take(j as int).to_multiset(),
                ));
                assert forall|p: int, q: int| 0 <= p < q < merged@.len() implies !(
                #[trigger] merged@[q]).before(#[trigger] merged@[p]) by {
                    if q == before.len() {
                        assert(merged@[p] == before[p]);
                        assert(!a@[i as int].before(before[p]));
                    } else {
                        assert(merged@[p] == before[p] && merged@[q] == before[q]);
                    }
                }
                assert forall|p: int, y: int|
                    0 <= p < merged.len() && i + 1 <= y < a.len() implies !(#[trigger] a@[y]).before(
                    #[trigger] merged@[p],
                ) by {
                    if p == before.len() {
                    } else {
                        assert(merged@[p] == before[p]);
                    }
                }
                assert forall|p: int, y: int|
                    0 <= p < merged.len() && j <= y < b.len() implies !(#[trigger] b@[y]).before(
                    #[trigger] merged@[p],
                ) by {
                    if p == before.len() {
                        // x is not after b[j], and b[j] not after b[y]
                        if y > j {
                            T::lemma_order(x, b@[j as int], b@[y]);
                        }
                    } else {
                        assert(merged@[p] == before[p]);
                    }
                }
            }
            i = i + 1;
        } else {
            let x: T = b[j];
            merged.push(x);
            proof {
                assert(b@.take(j as int + 1) =~= b@.take(j as int).push(x));
                to_multiset_build(b@.take(j as int), x);
                to_multiset_build(before, x);
                assert(merged@.to_multiset() =~= a@.take(i as int).to_multiset().add(
                    b@.take(j as int + 1).to_multiset(),
                ));
                assert forall|p: int, q: int| 0 <= p < q < merged@.len() implies !(
                #[trigger] merged@[q]).before(#[trigger] merged@[p]) by {
                    if q == before.len() {
                        assert(merged@[p] == before[p]);
                        assert(!b@[j as int].before(before[p]));
                    } else {
                        assert(merged@[p] == before[p] && merged@[q] == before[q]);
                    }
                }
                assert forall|p: int, y: int|
                    0 <= p < merged.len() && j + 1 <= y < b.len() implies !(#[trigger] b@[y]).before(
                    #[trigger] merged@[p],
                ) by {
                    if p == before.len() {
                    } else {
                        assert(merged@[p] == before[p]);
                    }
                }
                assert forall|p: int, y: int|
                    0 <= p < merged.len() && i <= y < a.len() implies !(#[trigger] a@[y]).before(
                    #[trigger] merged@[p],
                ) by {
                    if p == before.len() {
                        // x comes before a[i], and a[i] is not after a[y]
                        T::lemma_order(x, a@[i as int], a@[y]);
                    } else {
                        assert(merged@[p] == before[p]);
                    }
                }
            }
            j = j + 1;
        }
    }
    proof {
        assert(a@.take(a.len() as int) =~= a@);
        assert(b@.take(b.len() as int) =~= b@);
    }
    merged
}

/// The elements `list[from..to]` in ascending order.
fn sorted_range<T: Ranked>(list: &Vec<T>, from: usize, to: usize) -> (sorted: Vec<T>)
    requires
        from <= to <= list.len(),
    ensures
        ascending(sorted@),
        sorted@.to_multiset() == list@.subrange(from as int, to as int).to_multiset(),
        sorted.len() == to - from,
    decreases to - from,
{
    if to - from <= 1 {
        let mut sorted: Vec<T> = Vec::new();
        if to - from == 1 {
            sorted.push(list[from]);
        }
        proof {
            assert(sorted@ =~= list@.subrange(from as int, to as int));
        }
        sorted
    } else {
        let middle: usize = from + (to - from) / 2;
        let left = sorted_range(list, from, middle);
        let right = sorted_range(list, middle, to);
        proof {
            let l = list@.subrange(from as int, middle as int);
            let r = list@.subrange(middle as int, to as int);
            assert(list@.subrange(from as int, to as int) =~= l + r);
            lemma_multiset_commutative(l, r);
        }
        merge(&left, &right)
    }
}

/// The elements of the list in ascending order.
pub fn merge_sort<T: Ranked>(list: &Vec<T>) -> (sorted: Vec<T>)
    ensures
        ascending(sorted@),
        sorted@.to_multiset() == list@.to_multiset(),
        sorted.len() == list.len(),
{
    proof {
        assert(list@.subrange(0, list.len() as int) =~= list@);
    }
    sorted_range(list, 0, list.len())
}

} // verus!
