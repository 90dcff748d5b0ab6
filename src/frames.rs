use vstd::prelude::*;

use crate::array::{Array, Axis};
use crate::permutation::is_bijection;
use crate::permute::{inner_size, lemma_coords, permuted, source_index, PermuteArray};
use crate::sort::SortArray;

verus! {

/// An 8-bit RGB pixel.
#[derive(Clone, Copy, Debug, PartialEq, Eq, Structural)]
pub struct Rgb {
    pub r: u8,
    pub g: u8,
    pub b: u8,
}

/// The pixel's channels as one number, red most significant: pixels compare
/// by it as `[r, g, b]` compares lexicographically.
pub open spec fn colour_key(c: Rgb) -> u32 {
    ((c.r as int) * 65536 + (c.g as int) * 256 + (c.b as int)) as u32
}

impl Rgb {
    /// The pixel's channels as one number; see `colour_key`.
    pub fn key(&self) -> (r: u32)
        ensures
            r == colour_key(*self),
    {
        (self.r as u32) * 65536 + (self.g as u32) * 256 + (self.b as u32)
    }
}

/// The pairs `(num / i, i)` for the divisors `i` of `num` up to `upto`, in
/// ascending order of `i`.
pub open spec fn factor_pairs(num: nat, upto: nat) -> Seq<(usize, usize)>
    decreases upto,
{
    if upto == 0 {
        Seq::empty()
    } else if num % upto == 0 {
        factor_pairs(num, (upto - 1) as nat).push(((num / upto) as usize, upto as usize))
    } else {
        factor_pairs(num, (upto - 1) as nat)
    }
}

/// Every way of writing `num` as a product `rows * cols`, as `(rows, cols)`
/// with `cols` ascending from 1.
pub fn get_factors(num: usize) -> (r: Vec<(usize, usize)>)
    ensures
        r@ == factor_pairs(num as nat, num as nat),
{
    let mut out: Vec<(usize, usize)> = Vec::new();
    let mut k: usize = 0;
    while k < num
        invariant
            k <= num,
            out@ == factor_pairs(num as nat, k as nat),
        decreases num - k,
    {
        let i = k + 1;
        if num % i == 0 {
            out.push((num / i, i));
        }
        k = i;
    }
    out
}

/// `p` orders the columns so that their keys in `keys` descend, columns of
/// equal key keeping their order.
pub open spec fn descending_by(p: Seq<usize>, keys: Seq<u32>) -> bool {
    forall|k: int|
        0 <= k && k + 1 < p.len() ==> {
            &&& keys[#[trigger] p[k] as int] >= keys[p[k + 1] as int]
            &&& keys[p[k] as int] == keys[p[k + 1] as int] ==> p[k] < p[k + 1]
        }
}

/// The keys of the first `cols` pixels: row 0 of a frame with `cols` columns.
pub open spec fn row_keys(data: Seq<Rgb>, cols: nat) -> Seq<u32> {
    Seq::new(cols, |i: int| colour_key(data[i]))
}

/// Reshapes the pixels of `frame` to `rows` by `cols` and reorders its
/// columns so that the pixels of row 0 descend: the sorted ordering of the
/// columns, applied to the frame.
pub fn construct_sorted_frame(frame: Array<Rgb>, rows: usize, cols: usize) -> (r: Array<Rgb>)
    requires
        rows * cols == frame.elems().len(),
        rows > 0,
    ensures
        r.dims() == seq![rows, cols],
        forall|i: int|
            0 <= i && i + 1 < cols ==> colour_key(#[trigger] r.elems()[i]) >= colour_key(
                r.elems()[i + 1],
            ),
        exists|p: Seq<usize>|
            {
                &&& p.len() == cols
                &&& is_bijection(p)
                &&& descending_by(p, row_keys(frame.elems(), cols as nat))
                &&& r.elems() == permuted(seq![rows, cols], frame.elems(), 1, p)
            },
{
    let ghost data = frame.elems();
    let (_, pixels) = frame.into_raw_parts();
    proof {
        assert(cols <= rows * cols) by (nonlinear_arith)
            requires
                rows > 0,
        ;
        assert(crate::array::shape_size(seq![rows, cols]) == rows * cols) by {
            assert(seq![rows, cols].drop_last() =~= seq![rows]);
            assert(seq![rows].drop_last() =~= Seq::<usize>::empty());
            assert(crate::array::shape_size(Seq::<usize>::empty()) == 1);
            assert(crate::array::shape_size(seq![rows]) == 1 * rows);
        }
    }
    let mut keys: Vec<u32> = Vec::new();
    let mut i: usize = 0;
    while i < cols
        invariant
            i <= cols,
            cols <= pixels@.len(),
            pixels@ == data,
            keys@ == row_keys(data, i as nat),
        decreases cols - i,
    {
        keys.push(pixels[i].key());
        i = i + 1;
        assert(keys@ =~= row_keys(data, i as nat));
    }
    let frame = Array::from_shape_vec(vec![rows, cols], pixels).unwrap();
    let before = |i: usize, j: usize| -> (r: bool)
        requires
            i < keys@.len(),
            j < keys@.len(),
        ensures
            r == (keys@[i as int] > keys@[j as int]),
        { keys[i] > keys[j] };
    assert(frame.dims() == seq![rows, cols]);
    let perm = frame.sort_axis_by(Axis(1), before);
    let ghost p = perm@;
    assert(descending_by(p, keys@)) by {
        assert forall|k: int| 0 <= k && k + 1 < p.len() implies {
            &&& keys@[#[trigger] p[k] as int] >= keys@[p[k + 1] as int]
            &&& keys@[p[k] as int] == keys@[p[k + 1] as int] ==> p[k] < p[k + 1]
        } by {
            assert(crate::sort::in_order(before, p[k], p[k + 1]));
        }
    }
    let result = frame.permute_axis(Axis(1), &perm);
    proof {
        let shape = seq![rows, cols];
        assert(shape.skip(2) =~= Seq::<usize>::empty());
        assert(inner_size(shape, 1) == 1);
        assert forall|f: int| 0 <= f < cols implies result.elems()[f] == data[p[f] as int] by {
            lemma_coords(0, f, 0, cols as int, 1);
            assert(source_index(f, cols as int, 1, p) == p[f] as int);
            assert(p[f] < cols);
        }
        assert forall|i: int| 0 <= i && i + 1 < cols implies colour_key(#[trigger] result.elems()[i])
            >= colour_key(result.elems()[i + 1]) by {
            assert(result.elems()[i + 1] == data[p[i + 1] as int]);
            assert(keys@[p[i] as int] >= keys@[p[i + 1] as int]);
        }
    }
    result
}

} // verus!
