use vstd::prelude::*;

use crate::array::{Array, Axis};
use crate::permutation::{is_bijection, Permutation};

verus! {

/// The identity ordering of an axis of length `n`.
pub open spec fn identity_seq(n: nat) -> Seq<usize> {
    Seq::new(n, |i: int| i as usize)
}

/// Building the ordering of one axis of an array.
pub trait SortArray {
    /// The length of each axis.
    spec fn shape_view(&self) -> Seq<usize>;

    /// The identity ordering of `axis`: `[0, 1, ..., len - 1]`.
    fn identity(&self, axis: Axis) -> (r: Permutation)
        requires
            axis.0 < self.shape_view().len(),
        ensures
            r@ == identity_seq(self.shape_view()[axis.0 as int] as nat),
            is_bijection(r@),
    ;

    /// The indices of `axis`, sorted stably by `less_than`: a strict order on
    /// indices that gives one answer for each pair during the call. Each
    /// entry of the result is reported as before the next one, or else the
    /// next one is reported as not before it and has the larger index, so
    /// that entries the order ties stay in ascending index order.
    fn sort_axis_by<F>(&self, axis: Axis, less_than: F) -> (r: Permutation) where
        F: Fn(usize, usize) -> bool,

        requires
            axis.0 < self.shape_view().len(),
            forall|a: usize, b: usize|
                a < self.shape_view()[axis.0 as int] && b < self.shape_view()[axis.0 as int]
                    ==> #[trigger] less_than.requires((a, b)),
            forall|a: usize, b: usize, x: bool, y: bool|
                #[trigger] less_than.ensures((a, b), x) && #[trigger] less_than.ensures((a, b), y)
                    ==> x == y,
            forall|a: usize, b: usize|
                a < self.shape_view()[axis.0 as int] && b < self.shape_view()[axis.0 as int]
                    && #[trigger] less_than.ensures((a, b), true) ==> !less_than.ensures((b, a), true),
        ensures
            r@.len() == self.shape_view()[axis.0 as int],
            is_bijection(r@),
            sorted_by(r@, less_than, 0, r@.len() as int),
    ;
}

/// Neighbours `a` then `b` are in order: `a` was reported before `b`, or
/// `b` was reported not before `a` and `a` is the smaller index.
pub open spec fn in_order<F: Fn(usize, usize) -> bool>(less_than: F, a: usize, b: usize) -> bool {
    ||| less_than.ensures((a, b), true)
    ||| less_than.ensures((b, a), false) && a < b
}

/// `v[lo..hi]` is in order, neighbour by neighbour.
pub open spec fn sorted_by<F: Fn(usize, usize) -> bool>(v: Seq<usize>, less_than: F, lo: int, hi: int) -> bool {
    forall|k: int| lo <= k && k + 1 < hi ==> in_order(less_than, #[trigger] v[k], v[k + 1])
}

/// `less_than` can be called on indices below `n`, answers each pair one way
/// only, and never reports two indices each before the other.
#[verifier::opaque]
pub open spec fn strict_order<F: Fn(usize, usize) -> bool>(less_than: F, n: nat) -> bool {
    &&& forall|a: usize, b: usize| a < n && b < n ==> #[trigger] less_than.requires((a, b))
    &&& forall|a: usize, b: usize, x: bool, y: bool|
        #[trigger] less_than.ensures((a, b), x) && #[trigger] less_than.ensures((a, b), y) ==> x == y
    &&& forall|a: usize, b: usize|
        a < n && b < n && #[trigger] less_than.ensures((a, b), true) ==> !less_than.ensures((b, a), true)
}

proof fn lemma_callable<F: Fn(usize, usize) -> bool>(less_than: F, n: nat, a: usize, b: usize)
    requires
        strict_order(less_than, n),
        a < n,
        b < n,
    ensures
        less_than.requires((a, b)),
{
    reveal(strict_order);
}

/// A sequence in order under a strict order has no entry reported as before
/// the one ahead of it.
pub proof fn lemma_sorted_not_reported<F: Fn(usize, usize) -> bool>(v: Seq<usize>, less_than: F)
    requires
        sorted_by(v, less_than, 0, v.len() as int),
        forall|k: int| 0 <= k < v.len() ==> #[trigger] v[k] < v.len(),
        forall|a: usize, b: usize, x: bool, y: bool|
            #[trigger] less_than.ensures((a, b), x) && #[trigger] less_than.ensures((a, b), y) ==> x
                == y,
        forall|a: usize, b: usize|
            a < v.len() && b < v.len() && #[trigger] less_than.ensures((a, b), true)
                ==> !less_than.ensures((b, a), true),
    ensures
        forall|k: int| 0 <= k < v.len() - 1 ==> !less_than.ensures((v[k + 1], #[trigger] v[k]), true),
{
    assert forall|k: int| 0 <= k < v.len() - 1 implies !less_than.ensures((v[k + 1], #[trigger] v[k]), true) by {
        assert(in_order(less_than, v[k], v[k + 1]));
    }
}

impl<A> SortArray for Array<A> {
    open spec fn shape_view(&self) -> Seq<usize> {
        self.dims()
    }

    fn identity(&self, axis: Axis) -> (r: Permutation) {
        let n = self.len_of(axis);
        let mut v: Vec<usize> = Vec::new();
        let mut k: usize = 0;
        while k < n
            invariant
                k <= n,
                v@ == identity_seq(k as nat),
            decreases n - k,
        {
            v.push(k);
            k = k + 1;
            assert(v@ =~= identity_seq(k as nat));
        }
        Permutation::new(v)
    }

    fn sort_axis_by<F>(&self, axis: Axis, less_than: F) -> (r: Permutation) where
        F: Fn(usize, usize) -> bool,
     {
        let n = self.len_of(axis);
        proof {
            reveal(strict_order);
        }
        let v = merge_sort_range(&less_than, n, 0, n);
        Permutation::new(v)
    }
}

/// `s` holds each of the indices `lo..hi` exactly once.
pub open spec fn is_block(s: Seq<usize>, lo: int, hi: int) -> bool {
    &&& s.len() == hi - lo
    &&& forall|k: int| 0 <= k < s.len() ==> lo <= #[trigger] s[k] < hi
    &&& s.no_duplicates()
}

/// The indices `lo..hi`, sorted stably by `less_than`.
fn merge_sort_range<F>(less_than: &F, n: usize, lo: usize, hi: usize) -> (r: Vec<usize>) where
    F: Fn(usize, usize) -> bool,

    requires
        lo <= hi <= n,
        strict_order(*less_than, n as nat),
    ensures
        is_block(r@, lo as int, hi as int),
        sorted_by(r@, *less_than, 0, r@.len() as int),
    decreases hi - lo,
{
    if hi - lo <= 1 {
        let mut v: Vec<usize> = Vec::new();
        if hi > lo {
            v.push(lo);
        }
        v
    } else {
        let mid = lo + (hi - lo) / 2;
        let left = merge_sort_range(less_than, n, lo, mid);
        let right = merge_sort_range(less_than, n, mid, hi);
        merge(less_than, n, &left, &right, lo, mid, hi)
    }
}

/// Merges the sorted indices `lo..mid` with the sorted indices `mid..hi`,
/// taking from the left unless the right head is reported before the left
/// one.
fn merge<F>(
    less_than: &F,
    n: usize,
    left: &Vec<usize>,
    right: &Vec<usize>,
    lo: usize,
    mid: usize,
    hi: usize,
) -> (r: Vec<usize>) where
    F: Fn(usize, usize) -> bool,

    requires
        lo <= mid <= hi <= n,
        strict_order(*less_than, n as nat),
        is_block(left@, lo as int, mid as int),
        is_block(right@, mid as int, hi as int),
        sorted_by(left@, *less_than, 0, left@.len() as int),
        sorted_by(right@, *less_than, 0, right@.len() as int),
    ensures
        is_block(r@, lo as int, hi as int),
        sorted_by(r@, *less_than, 0, r@.len() as int),
{
    let ghost lt = *less_than;
    let ln = left.len();
    let rn = right.len();
    let mut out: Vec<usize> = Vec::new();
    let mut i: usize = 0;
    let mut j: usize = 0;
    while i < ln || j < rn
        invariant
            lo <= mid <= hi <= n,
            lt == *less_than,
            strict_order(lt, n as nat),
            ln == left@.len(),
            rn == right@.len(),
            is_block(left@, lo as int, mid as int),
            is_block(right@, mid as int, hi as int),
            sorted_by(left@, lt, 0, ln as int),
            sorted_by(right@, lt, 0, rn as int),
            i <= ln,
            j <= rn,
            out@.len() == i + j,
            forall|k: int| 0 <= k < out@.len() ==> lo <= #[trigger] out@[k] < hi,
            out@.no_duplicates(),
            forall|k: int|
                0 <= k < out@.len() ==> (exists|a: int| 0 <= a < i && left@[a] == #[trigger] out@[k])
                    || (exists|b: int| 0 <= b < j && right@[b] == out@[k]),
            sorted_by(out@, lt, 0, out@.len() as int),
            out@.len() > 0 && i < ln ==> in_order(lt, out@.last(), left@[i as int]),
            out@.len() > 0 && j < rn ==> in_order(lt, out@.last(), right@[j as int]),
        decreases ln + rn - i - j,
    {
        let ghost before = out@;
        let take_left = if i == ln {
            false
        } else if j == rn {
            true
        } else {
            proof {
                lemma_callable(lt, n as nat, right@[j as int], left@[i as int]);
            }
            !less_than(right[j], left[i])
        };
        if take_left {
            let x = left[i];
            proof {
                assert forall|k: int| 0 <= k < before.len() implies before[k] != x by {
                    if exists|a: int| 0 <= a < i && left@[a] == #[trigger] before[k] {
                        let a = choose|a: int| 0 <= a < i && left@[a] == #[trigger] before[k];
                        assert(left@[a] != left@[i as int]);
                    } else {
                        let b = choose|b: int| 0 <= b < j && right@[b] == before[k];
                        assert(mid <= right@[b]);
                    }
                }
                if i + 1 < ln {
                    assert(in_order(lt, left@[i as int], left@[i + 1]));
                }
                if j < rn {
                    assert(x < mid <= right@[j as int]);
                }
            }
            out.push(x);
            i = i + 1;
            proof {
                assert forall|k: int| 0 <= k < out@.len() implies (exists|a: int|
                    0 <= a < i && left@[a] == #[trigger] out@[k]) || (exists|b: int|
                    0 <= b < j && right@[b] == out@[k]) by {
                    if k == before.len() {
                        assert(left@[i - 1] == out@[k]);
                    } else {
                        assert(out@[k] == before[k]);
                    }
                }
            }
        } else {
            let x = right[j];
            proof {
                assert forall|k: int| 0 <= k < before.len() implies before[k] != x by {
                    if exists|a: int| 0 <= a < i && left@[a] == #[trigger] before[k] {
                        let a = choose|a: int| 0 <= a < i && left@[a] == #[trigger] before[k];
                        assert(left@[a] < mid);
                    } else {
                        let b = choose|b: int| 0 <= b < j && right@[b] == before[k];
                        assert(right@[b] != right@[j as int]);
                    }
                }
                if j + 1 < rn {
                    assert(in_order(lt, right@[j as int], right@[j + 1]));
                }
            }
            out.push(x);
            j = j + 1;
            proof {
                assert forall|k: int| 0 <= k < out@.len() implies (exists|a: int|
                    0 <= a < i && left@[a] == #[trigger] out@[k]) || (exists|b: int|
                    0 <= b < j && right@[b] == out@[k]) by {
                    if k == before.len() {
                        assert(right@[j - 1] == out@[k]);
                    } else {
                        assert(out@[k] == before[k]);
                    }
                }
            }
        }
        proof {
            assert forall|k: int| 0 <= k && k + 1 < out@.len() implies in_order(
                lt,
                #[trigger] out@[k],
                out@[k + 1],
            ) by {
                if k + 1 < before.len() {
                    assert(before[k] == out@[k]);
                }
            }
        }
    }
    out
}

} // verus!
