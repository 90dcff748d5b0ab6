use vstd::prelude::*;

use crate::array::{lemma_size_concat, lemma_size_positive, lemma_size_split, lemma_size_zero, shape_size, Array, Axis};
use crate::permutation::{is_bijection, Permutation};

verus! {

/// The number of elements in one slice line after `axis`: the product of the
/// lengths of the axes that follow it.
pub open spec fn inner_size(shape: Seq<usize>, axis: int) -> nat {
    shape_size(shape.skip(axis + 1))
}

/// The number of slice blocks before `axis`: the product of the lengths of
/// the axes that precede it.
pub open spec fn outer_size(shape: Seq<usize>, axis: int) -> nat {
    shape_size(shape.take(axis))
}

/// Where the element at row-major position `f` of the result comes from in
/// the source, when the axis of length `len`, followed by `inner` elements per
/// index, is reordered by `p`. Position `f` stands for the coordinates
/// `(f / inner / len, f / inner % len, f % inner)`; only the middle one moves.
pub open spec fn source_index(f: int, len: int, inner: int, p: Seq<usize>) -> int {
    let line = f / inner;
    (line / len * len + p[line % len] as int) * inner + f % inner
}

/// The elements of an array of shape `shape` and elements `data` after its
/// slices along `axis` are reordered: destination slice `i` holds what source
/// slice `p[i]` held.
pub open spec fn permuted<T>(shape: Seq<usize>, data: Seq<T>, axis: int, p: Seq<usize>) -> Seq<T> {
    Seq::new(
        data.len(),
        |f: int| data[source_index(f, shape[axis] as int, inner_size(shape, axis) as int, p)],
    )
}

/// Row-major coordinates: the position `(o * len + a) * inner + r` splits back
/// into `o`, `a` and `r`.
pub proof fn lemma_coords(o: int, a: int, r: int, len: int, inner: int)
    requires
        0 <= o,
        0 <= a < len,
        0 <= r < inner,
    ensures
        ((o * len + a) * inner + r) / inner == o * len + a,
        ((o * len + a) * inner + r) % inner == r,
        (o * len + a) / len == o,
        (o * len + a) % len == a,
{
    vstd::arithmetic::div_mod::lemma_fundamental_div_mod_converse(
        (o * len + a) * inner + r,
        inner,
        o * len + a,
        r,
    );
    vstd::arithmetic::div_mod::lemma_fundamental_div_mod_converse(o * len + a, len, o, a);
}

/// A position inside an array of `outer * len * inner` elements, with
/// coordinates `(o, a, r)`, stays inside it.
pub proof fn lemma_position_bound(o: int, a: int, r: int, outer: int, len: int, inner: int)
    requires
        0 <= o < outer,
        0 <= a < len,
        0 <= r < inner,
    ensures
        0 <= (o * len + a) * inner + r < outer * len * inner,
{
    assert(o * len + a < outer * len) by (nonlinear_arith)
        requires
            0 <= o < outer,
            0 <= a < len,
    ;
    assert(0 <= (o * len + a) * inner + r < outer * len * inner) by (nonlinear_arith)
        requires
            0 <= o * len + a < outer * len,
            0 <= r < inner,
    ;
}

/// Every position of an array of `outer * len * inner` elements has
/// coordinates, and its source position under a bijection `p` is the one with
/// the middle coordinate replaced by `p` of it.
pub proof fn lemma_source_coords(f: int, outer: int, len: int, inner: int, p: Seq<usize>)
    requires
        0 <= f < outer * len * inner,
        p.len() == len,
        is_bijection(p),
        outer >= 0,
        inner >= 0,
    ensures
        len > 0 && inner > 0,
        0 <= f / inner / len < outer,
        0 <= f / inner % len < len,
        0 <= f % inner < inner,
        f == (f / inner / len * len + f / inner % len) * inner + f % inner,
        source_index(f, len, inner, p) == (f / inner / len * len + p[f / inner % len] as int)
            * inner + f % inner,
        0 <= source_index(f, len, inner, p) < outer * len * inner,
{
    if len <= 0 || inner <= 0 || outer <= 0 {
        assert(outer * len * inner == 0) by (nonlinear_arith)
            requires
                len == 0 || inner == 0 || outer == 0,
        ;
    }
    let line = f / inner;
    vstd::arithmetic::div_mod::lemma_fundamental_div_mod(f, inner);
    vstd::arithmetic::div_mod::lemma_fundamental_div_mod(line, len);
    vstd::arithmetic::div_mod::lemma_mod_pos_bound(f, inner);
    vstd::arithmetic::div_mod::lemma_mod_pos_bound(line, len);
    assert(line >= 0) by {
        vstd::arithmetic::div_mod::lemma_div_pos_is_pos(f, inner);
    }
    assert(line / len >= 0) by {
        vstd::arithmetic::div_mod::lemma_div_pos_is_pos(line, len);
    }
    let o = line / len;
    let a = line % len;
    let r = f % inner;
    assert(f == (o * len + a) * inner + r) by {
        assert(line == len * o + a);
        assert(f == inner * line + r);
        assert(o * len == len * o) by (nonlinear_arith);
        assert(inner * line == line * inner) by (nonlinear_arith);
    }
    if o >= outer {
        assert((o * len + a) * inner + r >= outer * len * inner) by (nonlinear_arith)
            requires
                o >= outer,
                0 <= a,
                0 <= r,
                len > 0,
                inner > 0,
        ;
    }
    assert(p[a] < len);
    lemma_position_bound(o, p[a] as int, r, outer, len, inner);
}

/// Distinct destination positions read distinct source positions: no element
/// is taken twice.
pub proof fn lemma_source_injective(f1: int, f2: int, outer: int, len: int, inner: int, p: Seq<usize>)
    requires
        0 <= f1 < outer * len * inner,
        0 <= f2 < outer * len * inner,
        p.len() == len,
        is_bijection(p),
        outer >= 0,
        inner >= 0,
        source_index(f1, len, inner, p) == source_index(f2, len, inner, p),
    ensures
        f1 == f2,
{
    lemma_source_coords(f1, outer, len, inner, p);
    lemma_source_coords(f2, outer, len, inner, p);
    let a1 = f1 / inner % len;
    let a2 = f2 / inner % len;
    lemma_coords(f1 / inner / len, p[a1] as int, f1 % inner, len, inner);
    lemma_coords(f2 / inner / len, p[a2] as int, f2 % inner, len, inner);
    assert(p[a1] == p[a2]);
}

/// The product of the lengths `shape[lo..hi]`, for a shape that holds at least
/// one element.
fn range_size(shape: &Vec<usize>, lo: usize, hi: usize) -> (r: usize)
    requires
        lo <= hi <= shape@.len(),
        shape_size(shape@) > 0,
        shape_size(shape@) <= usize::MAX,
    ensures
        r == shape_size(shape@.subrange(lo as int, hi as int)),
{
    let ghost s = shape@;
    let ghost total = shape_size(s);
    assert forall|j: int| 0 <= j < s.len() implies s[j] != 0 by {
        if s[j] == 0 {
            lemma_size_zero(s, j);
        }
    }
    let mut prod: usize = 1;
    let mut k: usize = lo;
    assert(s.subrange(lo as int, lo as int) =~= Seq::<usize>::empty());
    while k < hi
        invariant
            lo <= k <= hi <= s.len(),
            s == shape@,
            forall|j: int| 0 <= j < s.len() ==> s[j] != 0,
            total == shape_size(s),
            total <= usize::MAX,
            prod == shape_size(s.subrange(lo as int, k as int)),
        decreases hi - k,
    {
        let ghost mid = s.subrange(lo as int, k + 1);
        proof {
            assert(mid.drop_last() =~= s.subrange(lo as int, k as int));
            assert(s =~= s.take(lo as int) + mid + s.skip(k + 1));
            lemma_size_concat(s.take(lo as int) + mid, s.skip(k + 1));
            lemma_size_concat(s.take(lo as int), mid);
            lemma_size_positive(s.take(lo as int));
            lemma_size_positive(s.skip(k + 1));
            let x = shape_size(s.take(lo as int));
            let y = shape_size(mid);
            let z = shape_size(s.skip(k + 1));
            assert(y <= x * y * z) by (nonlinear_arith)
                requires
                    x >= 1,
                    z >= 1,
            ;
            assert(y == prod * s[k as int]);
        }
        prod = prod * shape[k];
        k = k + 1;
    }
    prod
}

/// Reordering an owned array along one axis.
pub trait PermuteArray: Sized {
    type Elem;

    /// The length of each axis.
    spec fn axis_lengths(&self) -> Seq<usize>;

    /// The elements, in row-major order.
    spec fn elements(&self) -> Seq<Self::Elem>;

    /// Consumes the array and returns one of the same shape whose slice `i`
    /// along `axis` is the input's slice `perm[i]`. Every element is moved
    /// exactly once; none is duplicated or dropped.
    fn permute_axis(self, axis: Axis, perm: &Permutation) -> (r: Array<Self::Elem>)
        requires
            axis.0 < self.axis_lengths().len(),
            perm@.len() == self.axis_lengths()[axis.0 as int],
            is_bijection(perm@),
        ensures
            r.dims() == self.axis_lengths(),
            r.elems() == permuted(self.axis_lengths(), self.elements(), axis.0 as int, perm@),
    ;
}

impl<A> PermuteArray for Array<A> {
    type Elem = A;

    open spec fn axis_lengths(&self) -> Seq<usize> {
        self.dims()
    }

    open spec fn elements(&self) -> Seq<A> {
        self.elems()
    }

    fn permute_axis(self, axis: Axis, perm: &Permutation) -> (r: Array<A>) {
        let ax = axis.0;
        let (shape, mut data) = self.into_raw_parts();
        let n = data.len();
        if n == 0 {
            proof {
                assert(permuted(shape@, data@, ax as int, perm@) =~= data@);
            }
            return Array::from_raw_parts(shape, data);
        }
        let ghost orig = data@;
        let ghost p = perm@;
        let idx = perm.indices();
        let rank = shape.len();
        assert(ax < rank);
        let len = shape[ax];
        let outer = range_size(&shape, 0, ax);
        let inner = range_size(&shape, ax + 1, rank);
        proof {
            lemma_size_split(shape@, ax as int);
            assert(shape@.subrange(0, ax as int) =~= shape@.take(ax as int));
            assert(shape@.subrange(ax + 1, shape@.len() as int) =~= shape@.skip(ax + 1));
            assert(outer > 0 && len > 0 && inner > 0) by {
                if outer == 0 || len == 0 || inner == 0 {
                    assert(outer * len * inner == 0) by (nonlinear_arith)
                        requires
                            outer == 0 || len == 0 || inner == 0,
                    ;
                }
            }
        }
        // Every element gets a slot of its own; a slot is emptied when its
        // element moves to the result.
        let mut slots: Vec<Option<A>> = Vec::new();
        let mut k: usize = 0;
        while k < n
            invariant
                k <= n,
                slots@.len() == k,
            decreases n - k,
        {
            slots.push(None);
            k = k + 1;
        }
        while data.len() > 0
            invariant
                slots@.len() == n,
                data@.len() <= n,
                n == orig.len(),
                data@ == orig.take(data@.len() as int),
                forall|j: int| data@.len() <= j < n ==> #[trigger] slots@[j] == Some(orig[j]),
            decreases data@.len(),
        {
            let j = data.len() - 1;
            let x = data.pop().unwrap();
            assert(data@ =~= orig.take(j as int));
            slots.set(j, Some(x));
        }
        let mut out: Vec<A> = Vec::new();
        let mut o: usize = 0;
        let mut i: usize = 0;
        let mut r: usize = 0;
        proof {
            assert((0 * len + 0) * inner + 0 == 0) by (nonlinear_arith);
        }
        while out.len() < n
            invariant
                n == orig.len(),
                n == outer * len * inner,
                ax < shape@.len(),
                len == shape@[ax as int],
                inner == inner_size(shape@, ax as int),
                len > 0,
                inner > 0,
                idx@ == p,
                p.len() == len,
                is_bijection(p),
                slots@.len() == n,
                out@.len() <= n,
                i < len,
                r < inner,
                out@.len() == (o * len + i) * inner + r,
                out@.len() < n ==> o < outer,
                forall|f: int|
                    0 <= f < out@.len() ==> #[trigger] out@[f] == orig[source_index(
                        f,
                        len as int,
                        inner as int,
                        p,
                    )],
                forall|j: int|
                    0 <= j < n && #[trigger] slots@[j] is None ==> exists|f: int|
                        0 <= f < out@.len() && source_index(f, len as int, inner as int, p) == j,
                forall|j: int|
                    0 <= j < n && #[trigger] slots@[j] is Some ==> slots@[j] == Some(orig[j]),
            decreases n - out@.len(),
        {
            let ghost f = out@.len() as int;
            let pi = idx[i];
            proof {
                lemma_position_bound(o as int, pi as int, r as int, outer as int, len as int, inner as int);
                lemma_coords(o as int, i as int, r as int, len as int, inner as int);
            }
            proof {
                let line = o * len + pi;
                assert(o * len <= line <= line * inner) by (nonlinear_arith)
                    requires
                        line == o * len + pi,
                        pi >= 0,
                        inner >= 1,
                ;
            }
            let line = o * len + pi;
            let src = line * inner + r;
            assert(source_index(f, len as int, inner as int, p) == src);
            proof {
                if slots@[src as int] is None {
                    let f1 = choose|f1: int|
                        0 <= f1 < out@.len() && source_index(f1, len as int, inner as int, p) == src;
                    lemma_source_injective(f1, f, outer as int, len as int, inner as int, p);
                }
            }
            slots.push(None);
            let x = slots.swap_remove(src);
            let ghost before = out@;
            out.push(x.unwrap());
            proof {
                assert forall|j: int|
                    0 <= j < n && #[trigger] slots@[j] is None implies exists|f1: int|
                        0 <= f1 < out@.len() && source_index(f1, len as int, inner as int, p) == j by {
                    if j != src {
                        let f1 = choose|f1: int|
                            0 <= f1 < before.len() && source_index(f1, len as int, inner as int, p) == j;
                        assert(0 <= f1 < out@.len());
                    }
                }
            }
            r = r + 1;
            if r == inner {
                r = 0;
                i = i + 1;
                proof {
                    assert((o * len + (i - 1)) * inner + inner == (o * len + i) * inner + 0) by (nonlinear_arith);
                }
                if i == len {
                    i = 0;
                    o = o + 1;
                    proof {
                        assert((((o - 1) * len + len) * inner + 0) == (o * len + 0) * inner + 0) by (nonlinear_arith);
                        if o >= outer {
                            assert((o * len + 0) * inner + 0 >= outer * len * inner) by (nonlinear_arith)
                                requires
                                    o >= outer,
                                    len > 0,
                                    inner > 0,
                            ;
                        }
                    }
                }
            }
        }
        proof {
            assert(out@ =~= permuted(shape@, orig, ax as int, p));
        }
        Array::from_raw_parts(shape, out)
    }
}

} // verus!
