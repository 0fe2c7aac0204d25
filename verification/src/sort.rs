//! Merge sort of index vectors under a total preorder on indices, and the
//! uniqueness of sorted permutations under an order that is strict on them.

use vstd::prelude::*;
use vstd::seq_lib::group_to_multiset_ensures;

verus! {

broadcast use group_to_multiset_ensures;

/// A total preorder on the indices `0..size()` of some collection.
pub trait IndexOrder {
    /// The number of indices the order ranges over.
    spec fn size(&self) -> nat;

    /// Index `a` may come before index `b`.
    spec fn le(&self, a: int, b: int) -> bool;

    /// Decides `le`.
    fn le_exec(&self, a: usize, b: usize) -> (r: bool)
        requires
            (a as int) < self.size(),
            (b as int) < self.size(),
        ensures
            r == self.le(a as int, b as int),
    ;

    /// Any two indices are ordered one way or the other.
    proof fn lemma_total(&self, a: int, b: int)
        requires
            0 <= a < self.size(),
            0 <= b < self.size(),
        ensures
            self.le(a, b) || self.le(b, a),
    ;

    /// The order is transitive.
    proof fn lemma_trans(&self, a: int, b: int, c: int)
        requires
            0 <= a < self.size(),
            0 <= b < self.size(),
            0 <= c < self.size(),
            self.le(a, b),
            self.le(b, c),
        ensures
            self.le(a, c),
    ;
}

/// Every entry of `v` is an index of the order.
pub open spec fn in_range<O: IndexOrder>(o: &O, v: Seq<usize>) -> bool {
    forall|i: int| 0 <= i < v.len() ==> (#[trigger] v[i] as int) < o.size()
}

/// Every entry of `v` may come before every later one.
pub open spec fn sorted_by<O: IndexOrder>(o: &O, v: Seq<usize>) -> bool {
    forall|i: int, j: int| 0 <= i < j < v.len() ==> o.le(#[trigger] v[i] as int, #[trigger] v[j] as int)
}

/// Merges two sorted index vectors into one.
fn merge<O: IndexOrder>(o: &O, a: Vec<usize>, b: Vec<usize>) -> (r: Vec<usize>)
    requires
        in_range(o, a@),
        in_range(o, b@),
        sorted_by(o, a@),
        sorted_by(o, b@),
    ensures
        r@.to_multiset() == a@.to_multiset().add(b@.to_multiset()),
        r@.len() == a@.len() + b@.len(),
        sorted_by(o, r@),
        in_range(o, r@),
{
    let mut out: Vec<usize> = Vec::new();
    let mut i: usize = 0;
    let mut j: usize = 0;
    proof {
        assert(a@.take(0) =~= Seq::<usize>::empty());
        assert(b@.take(0) =~= Seq::<usize>::empty());
    }
    while i < a.len() || j < b.len()
        invariant
            i <= a.len(),
            j <= b.len(),
            out@.len() == i + j,
            in_range(o, a@),
            in_range(o, b@),
            sorted_by(o, a@),
            sorted_by(o, b@),
            in_range(o, out@),
            sorted_by(o, out@),
            out@.to_multiset() == a@.take(i as int).to_multiset().add(b@.take(j as int).to_multiset()),
            out@.len() > 0 && i < a.len() ==> o.le(out@.last() as int, a@[i as int] as int),
            out@.len() > 0 && j < b.len() ==> o.le(out@.last() as int, b@[j as int] as int),
        decreases a.len() + b.len() - i - j,
    {
        let take_a = if j >= b.len() {
            true
        } else if i >= a.len() {
            false
        } else {
            o.le_exec(a[i], b[j])
        };
        let ghost before = out@;
        if take_a {
            let x = a[i];
            out.push(x);
            proof {
                assert forall|p: int, q: int| 0 <= p < q < out@.len() implies o.le(
                    #[trigger] out@[p] as int,
                    #[trigger] out@[q] as int,
                ) by {
                    if q == out@.len() - 1 && p < q - 1 {
                        o.lemma_trans(out@[p] as int, before.last() as int, x as int);
                    }
                }
                if j < b.len() {
                    assert(o.le(x as int, b@[j as int] as int));
                }
                if i + 1 < a.len() {
                    assert(o.le(a@[i as int] as int, a@[i + 1] as int));
                }
                assert(a@.take(i + 1) =~= a@.take(i as int).push(x));
            }
            i = i + 1;
        } else {
            let y = b[j];
            out.push(y);
            proof {
                if i < a.len() {
                    o.lemma_total(a@[i as int] as int, y as int);
                    assert(o.le(y as int, a@[i as int] as int));
                }
                assert forall|p: int, q: int| 0 <= p < q < out@.len() implies o.le(
                    #[trigger] out@[p] as int,
                    #[trigger] out@[q] as int,
                ) by {
                    if q == out@.len() - 1 && p < q - 1 {
                        o.lemma_trans(out@[p] as int, before.last() as int, y as int);
                    }
                }
                if j + 1 < b.len() {
                    assert(o.le(b@[j as int] as int, b@[j + 1] as int));
                }
                assert(b@.take(j + 1) =~= b@.take(j as int).push(y));
            }
            j = j + 1;
        }
    }
    proof {
        assert(a@.take(a.len() as int) =~= a@);
        assert(b@.take(b.len() as int) =~= b@);
    }
    out
}

/// Sorts an index vector: the result is a permutation of `v` in which every
/// index may come before every later one.
pub fn merge_sort<O: IndexOrder>(o: &O, v: Vec<usize>) -> (r: Vec<usize>)
    requires
        in_range(o, v@),
    ensures
        r@.to_multiset() == v@.to_multiset(),
        r@.len() == v@.len(),
        sorted_by(o, r@),
        in_range(o, r@),
    decreases v@.len(),
{
    if v.len() <= 1 {
        return v;
    }
    let mid = v.len() / 2;
    let mut left = v;
    let right = left.split_off(mid);
    let ghost whole = left@ + right@;
    assert(whole =~= v@);
    let l = merge_sort(o, left);
    let r = merge_sort(o, right);
    let m = merge(o, l, r);
    proof {
        vstd::seq_lib::lemma_multiset_commutative(left@, right@);
    }
    m
}

/// The indices `0..n` in increasing order.
pub fn index_range(n: usize) -> (r: Vec<usize>)
    ensures
        r@.len() == n,
        forall|i: int| 0 <= i < n ==> #[trigger] r@[i] == i,
{
    let mut out: Vec<usize> = Vec::new();
    let mut i: usize = 0;
    while i < n
        invariant
            i <= n,
            out@.len() == i,
            forall|k: int| 0 <= k < i ==> #[trigger] out@[k] == k,
        decreases n - i,
    {
        out.push(i);
        i = i + 1;
    }
    out
}

/// A permutation of `0..n` holds each index exactly once.
pub proof fn lemma_permutation_of_range(sorted: Seq<usize>, range: Seq<usize>, n: nat)
    requires
        range.len() == n,
        forall|i: int| 0 <= i < n ==> #[trigger] range[i] == i,
        sorted.to_multiset() == range.to_multiset(),
    ensures
        sorted.no_duplicates(),
        forall|i: int| 0 <= i < n ==> #[trigger] sorted.contains(i as usize),
        forall|p: int| 0 <= p < sorted.len() ==> (#[trigger] sorted[p] as int) < n,
{
    assert(range.no_duplicates());
    range.lemma_multiset_has_no_duplicates();
    sorted.lemma_multiset_has_no_duplicates_conv();
    assert forall|i: int| 0 <= i < n implies #[trigger] sorted.contains(i as usize) by {
        assert(range[i] == i as usize);
        assert(range.contains(i as usize));
        assert(range.to_multiset().count(i as usize) > 0);
    }
    assert forall|p: int| 0 <= p < sorted.len() implies (#[trigger] sorted[p] as int) < n by {
        assert(sorted.contains(sorted[p]));
        assert(sorted.to_multiset().count(sorted[p]) > 0);
        assert(range.contains(sorted[p]));
    }
}

} // verus!
