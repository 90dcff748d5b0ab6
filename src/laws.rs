use vstd::prelude::*;

use crate::array::{lemma_size_split, shape_size};
use crate::permutation::is_bijection;
use crate::permute::{
    inner_size, lemma_coords, lemma_source_coords, lemma_source_injective, outer_size, permuted,
    source_index,
};
use crate::sort::identity_seq;

verus! {

broadcast use vstd::seq_lib::group_to_multiset_ensures;

/// The ordering that applies `q` to the result of applying `p`: destination
/// `i` takes source `p[q[i]]`.
pub open spec fn compose(p: Seq<usize>, q: Seq<usize>) -> Seq<usize> {
    Seq::new(q.len(), |i: int| p[q[i] as int])
}

/// The ordering that undoes `p`: entry `k` is the position of `k` in `p`.
pub open spec fn inverse(p: Seq<usize>) -> Seq<usize> {
    Seq::new(p.len(), |k: int| (choose|i: int| 0 <= i < p.len() && p[i] == k) as usize)
}

/// A bijection on `0..g.len()`, over integers.
pub open spec fn is_int_bijection(g: Seq<int>) -> bool {
    &&& forall|i: int| 0 <= i < g.len() ==> 0 <= #[trigger] g[i] < g.len()
    &&& g.no_duplicates()
}

/// An injection of `0..n` into itself reaches every index.
pub proof fn lemma_int_bijection_onto(g: Seq<int>, k: int)
    requires
        is_int_bijection(g),
        0 <= k < g.len(),
    ensures
        exists|i: int| 0 <= i < g.len() && g[i] == k,
{
    let range = vstd::set_lib::set_int_range(0, g.len() as int);
    g.unique_seq_to_set();
    vstd::set_lib::lemma_int_range(0, g.len() as int);
    assert(g.to_set().subset_of(range)) by {
        assert forall|x: int| g.to_set().contains(x) implies range.contains(x) by {
            let i = choose|i: int| 0 <= i < g.len() && g[i] == x;
            assert(0 <= g[i] < g.len());
        }
    }
    vstd::set_lib::lemma_len_subset(g.to_set(), range);
    vstd::set_lib::lemma_subset_equality(g.to_set(), range);
    assert(range.contains(k));
    assert(g.to_set().contains(k));
}

/// Every index of the axis appears in a bijection.
pub proof fn lemma_bijection_onto(p: Seq<usize>, k: int)
    requires
        is_bijection(p),
        0 <= k < p.len(),
    ensures
        exists|i: int| 0 <= i < p.len() && p[i] == k,
{
    let g = Seq::new(p.len(), |i: int| p[i] as int);
    assert(is_int_bijection(g));
    lemma_int_bijection_onto(g, k);
    let i = choose|i: int| 0 <= i < g.len() && g[i] == k;
    assert(p[i] == k);
}

/// Reading a sequence through a bijection of its positions keeps its
/// multiset of elements.
pub proof fn lemma_gather_multiset<T>(s: Seq<T>, g: Seq<int>)
    requires
        g.len() == s.len(),
        is_int_bijection(g),
    ensures
        Seq::new(s.len(), |i: int| s[g[i]]).to_multiset() =~= s.to_multiset(),
    decreases s.len(),
{
    broadcast use vstd::multiset::group_multiset_axioms;

    let n = s.len() as int;
    let t = Seq::new(s.len(), |i: int| s[g[i]]);
    if n == 0 {
        assert(t =~= s);
    } else {
        let m = n - 1;
        lemma_int_bijection_onto(g, m);
        let k = choose|i: int| 0 <= i < n && g[i] == m;
        let g2 = g.update(k, g[m]).drop_last();
        let s2 = s.drop_last();
        assert forall|i: int| 0 <= i < m implies 0 <= #[trigger] g2[i] < m by {
            if i == k {
                assert(g[m] != m);
            } else {
                assert(g[i] != m);
            }
        }
        assert forall|i: int, j: int| 0 <= i < m && 0 <= j < m && i != j implies g2[i] != g2[j] by {
            let si = if i == k { m } else { i };
            let sj = if j == k { m } else { j };
            assert(g2[i] == g[si]);
            assert(g2[j] == g[sj]);
        }
        lemma_gather_multiset(s2, g2);
        let t2 = Seq::new(s2.len(), |i: int| s2[g2[i]]);
        let u = t.update(k, t[m]);
        assert(u =~= t2.push(t[m]));
        assert(s =~= s2.push(s[m]));
        assert(t[k] == s[m]);
        assert(u.to_multiset() == t.to_multiset().insert(t[m]).remove(t[k]));
        assert(t.to_multiset().count(t[k]) > 0) by {
            assert(t.contains(t[k]));
        }
        let x = t[m];
        let y = s[m];
        assert(u.to_multiset() == s2.to_multiset().insert(x));
        assert(s.to_multiset() == s2.to_multiset().insert(y));
        assert forall|v: T| #[trigger] t.to_multiset().count(v) == s.to_multiset().count(v) by {
            let c = t.to_multiset().count(v);
            assert(t.to_multiset().insert(x).count(v) == c + (if x == v { 1nat } else { 0nat }));
            assert(u.to_multiset().count(v) == s2.to_multiset().count(v) + (if x == v { 1nat } else { 0nat }));
            if y == v {
                assert(u.to_multiset().count(v) == c + (if x == v { 1nat } else { 0nat }) - 1);
            } else {
                assert(u.to_multiset().count(v) == c + (if x == v { 1nat } else { 0nat }));
            }
        }
        assert(t.to_multiset() =~= s.to_multiset());
    }
}

/// Every position of the result of a reordering is read from a position of
/// the source, and distinct positions from distinct ones.
proof fn lemma_gather_bijection(shape: Seq<usize>, n: int, axis: int, p: Seq<usize>) -> (g: Seq<int>)
    requires
        0 <= axis < shape.len(),
        n == shape_size(shape),
        p.len() == shape[axis],
        is_bijection(p),
    ensures
        g.len() == n,
        is_int_bijection(g),
        forall|f: int|
            0 <= f < n ==> #[trigger] g[f] == source_index(
                f,
                shape[axis] as int,
                inner_size(shape, axis) as int,
                p,
            ),
{
    let len = shape[axis] as int;
    let inner = inner_size(shape, axis) as int;
    let outer = outer_size(shape, axis) as int;
    lemma_size_split(shape, axis);
    let g = Seq::new(n as nat, |f: int| source_index(f, len, inner, p));
    assert forall|f: int| 0 <= f < n implies 0 <= #[trigger] g[f] < n by {
        lemma_source_coords(f, outer, len, inner, p);
    }
    assert forall|f1: int, f2: int| 0 <= f1 < n && 0 <= f2 < n && f1 != f2 implies g[f1] != g[f2] by {
        if g[f1] == g[f2] {
            lemma_source_injective(f1, f2, outer, len, inner, p);
        }
    }
    g
}

/// Reordering with the identity leaves the array as it was, and the identity
/// is a bijection.
pub proof fn lemma_identity_unchanged<T>(shape: Seq<usize>, data: Seq<T>, axis: int)
    requires
        0 <= axis < shape.len(),
        shape_size(shape) == data.len(),
    ensures
        is_bijection(identity_seq(shape[axis] as nat)),
        permuted(shape, data, axis, identity_seq(shape[axis] as nat)) =~= data,
{
    let p = identity_seq(shape[axis] as nat);
    let len = shape[axis] as int;
    let inner = inner_size(shape, axis) as int;
    let outer = outer_size(shape, axis) as int;
    lemma_size_split(shape, axis);
    assert forall|f: int| 0 <= f < data.len() implies source_index(f, len, inner, p) == f by {
        lemma_source_coords(f, outer, len, inner, p);
    }
}

/// Reordering by `p` and then by `q` is reordering once by their
/// composition, which is again a bijection.
pub proof fn lemma_compose<T>(shape: Seq<usize>, data: Seq<T>, axis: int, p: Seq<usize>, q: Seq<usize>)
    requires
        0 <= axis < shape.len(),
        shape_size(shape) == data.len(),
        p.len() == shape[axis],
        q.len() == shape[axis],
        is_bijection(p),
        is_bijection(q),
    ensures
        is_bijection(compose(p, q)),
        permuted(shape, permuted(shape, data, axis, p), axis, q) =~= permuted(
            shape,
            data,
            axis,
            compose(p, q),
        ),
{
    let pq = compose(p, q);
    assert forall|i: int, j: int| 0 <= i < pq.len() && 0 <= j < pq.len() && i != j implies #[trigger] pq[i]
        != #[trigger] pq[j] by {
        assert(q[i] != q[j]);
    }
    let len = shape[axis] as int;
    let inner = inner_size(shape, axis) as int;
    let outer = outer_size(shape, axis) as int;
    lemma_size_split(shape, axis);
    assert forall|f: int| 0 <= f < data.len() implies source_index(
        source_index(f, len, inner, q),
        len,
        inner,
        p,
    ) == source_index(f, len, inner, pq) by {
        lemma_source_coords(f, outer, len, inner, q);
        lemma_source_coords(f, outer, len, inner, pq);
        let o = f / inner / len;
        let a = f / inner % len;
        let r = f % inner;
        lemma_coords(o, q[a] as int, r, len, inner);
    }
    assert forall|f: int| 0 <= f < data.len() implies 0 <= #[trigger] source_index(f, len, inner, q) < data.len() by {
        lemma_source_coords(f, outer, len, inner, q);
    }
}

/// Every reordering can be undone: reordering by `p` and then by its inverse
/// gives back the array.
pub proof fn lemma_inverse_restores<T>(shape: Seq<usize>, data: Seq<T>, axis: int, p: Seq<usize>)
    requires
        0 <= axis < shape.len(),
        shape_size(shape) == data.len(),
        p.len() == shape[axis],
        is_bijection(p),
    ensures
        is_bijection(inverse(p)),
        inverse(p).len() == p.len(),
        permuted(shape, permuted(shape, data, axis, p), axis, inverse(p)) =~= data,
{
    let q = inverse(p);
    assert forall|k: int| 0 <= k < p.len() implies 0 <= #[trigger] q[k] < p.len() && p[q[k] as int]
        == k by {
        lemma_bijection_onto(p, k);
    }
    assert forall|i: int, j: int| 0 <= i < q.len() && 0 <= j < q.len() && i != j implies #[trigger] q[i]
        != #[trigger] q[j] by {
        assert(p[q[i] as int] == i);
        assert(p[q[j] as int] == j);
    }
    lemma_compose(shape, data, axis, p, q);
    assert(compose(p, q) =~= identity_seq(shape[axis] as nat));
    lemma_identity_unchanged(shape, data, axis);
}

/// A reordering neither loses nor duplicates an element: the multiset of
/// elements is kept, and so is their number.
pub proof fn lemma_elements_preserved<T>(shape: Seq<usize>, data: Seq<T>, axis: int, p: Seq<usize>)
    requires
        0 <= axis < shape.len(),
        shape_size(shape) == data.len(),
        p.len() == shape[axis],
        is_bijection(p),
    ensures
        permuted(shape, data, axis, p).len() == data.len(),
        permuted(shape, data, axis, p).to_multiset() =~= data.to_multiset(),
{
    let g = lemma_gather_bijection(shape, data.len() as int, axis, p);
    lemma_gather_multiset(data, g);
    assert(permuted(shape, data, axis, p) =~= Seq::new(data.len(), |i: int| data[g[i]]));
}

} // verus!
