use vstd::prelude::*;

verus! {

/// Is `p` a bijection on `0..p.len()`: every entry is in range and no entry
/// appears twice.
pub open spec fn is_bijection(p: Seq<usize>) -> bool {
    &&& forall|i: int| 0 <= i < p.len() ==> #[trigger] p[i] < p.len()
    &&& forall|i: int, j: int|
        0 <= i < p.len() && 0 <= j < p.len() && i != j ==> #[trigger] p[i] != #[trigger] p[j]
}

/// An ordering of the indices of one axis: entry `i` is the index of the
/// source slice that lands at destination `i`.
///
/// A permutation may be supplied from outside; `correct` tells whether it is
/// a bijection, which every reordering of an array requires.
#[derive(Clone, Debug)]
pub struct Permutation {
    indices: Vec<usize>,
}

impl View for Permutation {
    type V = Seq<usize>;

    closed spec fn view(&self) -> Seq<usize> {
        self.indices@
    }
}

impl Permutation {
    /// Wraps a sequence of source indices, checked or not.
    pub fn new(indices: Vec<usize>) -> (r: Permutation)
        ensures
            r@ == indices@,
    {
        Permutation { indices }
    }

    /// The source index for each destination index.
    pub fn indices(&self) -> (r: &Vec<usize>)
        ensures
            r@ == self@,
    {
        &self.indices
    }

    /// The length of the axis this permutation orders.
    pub fn len(&self) -> (r: usize)
        ensures
            r == self@.len(),
    {
        self.indices.len()
    }

    /// Checks if the permutation is correct: a bijection on its index range.
    pub fn correct(&self) -> (r: bool)
        ensures
            r == is_bijection(self@),
    {
        let axis_len = self.indices.len();
        let mut seen: Vec<bool> = Vec::new();
        let mut k: usize = 0;
        while k < axis_len
            invariant
                k <= axis_len,
                seen@.len() == k,
                forall|j: int| 0 <= j < k ==> !#[trigger] seen@[j],
            decreases axis_len - k,
        {
            seen.push(false);
            k = k + 1;
        }
        let mut i: usize = 0;
        while i < axis_len
            invariant
                axis_len == self@.len(),
                i <= axis_len,
                seen@.len() == axis_len,
                forall|j: int| 0 <= j < i ==> #[trigger] self@[j] < axis_len,
                forall|j: int, l: int|
                    0 <= j < i && 0 <= l < i && j != l ==> #[trigger] self@[j] != #[trigger] self@[l],
                forall|v: int|
                    0 <= v < axis_len ==> (#[trigger] seen@[v] <==> exists|j: int|
                        0 <= j < i && self@[j] == v),
            decreases axis_len - i,
        {
            let v = self.indices[i];
            if v >= axis_len {
                return false;
            }
            if seen[v] {
                let ghost j = choose|j: int| 0 <= j < i && self@[j] == v;
                assert(self@[j] == self@[i as int]);
                return false;
            }
            seen.set(v, true);
            assert forall|w: int| 0 <= w < axis_len implies (#[trigger] seen@[w] <==> exists|j: int|
                0 <= j < i + 1 && self@[j] == w) by {
                if w == v {
                    assert(self@[i as int] == w);
                } else {
                    if seen@[w] {
                        let j = choose|j: int| 0 <= j < i && self@[j] == w;
                        assert(0 <= j < i + 1 && self@[j] == w);
                    }
                }
            }
            i = i + 1;
        }
        true
    }
}

} // verus!
