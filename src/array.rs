use vstd::prelude::*;

verus! {

/// The number of elements of an array of the given shape: the product of its
/// axis lengths (1 for rank zero).
pub open spec fn shape_size(shape: Seq<usize>) -> nat
    decreases shape.len(),
{
    if shape.len() == 0 {
        1
    } else {
        shape_size(shape.drop_last()) * (shape.last() as nat)
    }
}

/// The size of a concatenation of shapes is the product of their sizes.
pub proof fn lemma_size_concat(a: Seq<usize>, b: Seq<usize>)
    ensures
        shape_size(a + b) == shape_size(a) * shape_size(b),
    decreases b.len(),
{
    if b.len() == 0 {
        assert(a + b =~= a);
        assert(shape_size(b) == 1);
        assert(shape_size(a) * 1 == shape_size(a));
    } else {
        assert((a + b).drop_last() =~= a + b.drop_last());
        assert((a + b).last() == b.last());
        lemma_size_concat(a, b.drop_last());
        let x = shape_size(a);
        let y = shape_size(b.drop_last());
        let z = b.last() as nat;
        assert(shape_size(a + b) == shape_size(a + b.drop_last()) * z);
        assert(shape_size(b) == y * z);
        assert(shape_size(a + b.drop_last()) == x * y);
        assert(x * (y * z) == (x * y) * z) by (nonlinear_arith);
        assert(shape_size(a + b) == (x * y) * z);
    }
}

/// A shape with a zero-length axis holds no element.
pub proof fn lemma_size_zero(shape: Seq<usize>, k: int)
    requires
        0 <= k < shape.len(),
        shape[k] == 0,
    ensures
        shape_size(shape) == 0,
    decreases shape.len(),
{
    if k < shape.len() - 1 {
        assert(shape.drop_last()[k] == 0);
        lemma_size_zero(shape.drop_last(), k);
        let l = shape.last() as nat;
        assert(shape_size(shape) == 0 * l);
        assert(0 * l == 0) by (nonlinear_arith);
    } else {
        let x = shape_size(shape.drop_last());
        assert(shape.last() == 0);
        assert(shape_size(shape) == x * 0);
        assert(x * 0 == 0) by (nonlinear_arith);
    }
}

/// Splits the size of a shape at axis `k`: the axes before it, its length,
/// and the axes after it.
pub proof fn lemma_size_split(shape: Seq<usize>, k: int)
    requires
        0 <= k < shape.len(),
    ensures
        shape_size(shape) == shape_size(shape.take(k)) * (shape[k] as nat) * shape_size(
            shape.skip(k + 1),
        ),
{
    let head = shape.take(k + 1);
    assert(shape =~= head + shape.skip(k + 1));
    lemma_size_concat(head, shape.skip(k + 1));
    assert(head.drop_last() =~= shape.take(k));
}

/// The index of one axis of an array.
#[derive(Clone, Copy, Debug, PartialEq, Eq)]
pub struct Axis(pub usize);

/// A dense array of any rank, its elements stored in row-major order: the
/// last axis varies fastest.
pub struct Array<T> {
    shape: Vec<usize>,
    data: Vec<T>,
}

impl<T> Array<T> {
    /// The length of each axis.
    pub closed spec fn dims(&self) -> Seq<usize> {
        self.shape@
    }

    /// The elements, in row-major order.
    pub closed spec fn elems(&self) -> Seq<T> {
        self.data@
    }

    #[verifier::type_invariant]
    spec fn shape_matches(&self) -> bool {
        shape_size(self.shape@) == self.data@.len()
    }

    /// Builds an array from its shape and its elements in row-major order;
    /// `None` where the shape does not hold exactly that many elements.
    pub fn from_shape_vec(shape: Vec<usize>, data: Vec<T>) -> (r: Option<Array<T>>)
        ensures
            r.is_some() == (shape_size(shape@) == data@.len()),
            r matches Some(a) ==> a.dims() == shape@ && a.elems() == data@,
    {
        let n = shape.len();
        let mut k: usize = 0;
        while k < n
            invariant
                k <= n,
                n == shape@.len(),
                forall|j: int| 0 <= j < k ==> shape@[j] != 0,
            decreases n - k,
        {
            if shape[k] == 0 {
                proof {
                    lemma_size_zero(shape@, k as int);
                }
                if data.len() == 0 {
                    return Some(Array { shape, data });
                } else {
                    return None;
                }
            }
            k = k + 1;
        }
        let len = data.len();
        let mut prod: usize = 1;
        let mut k: usize = 0;
        while k < n
            invariant
                k <= n,
                n == shape@.len(),
                forall|j: int| 0 <= j < n ==> shape@[j] != 0,
                prod == shape_size(shape@.take(k as int)),
                len == data@.len(),
            decreases n - k,
        {
            assert(shape@.take(k + 1).drop_last() =~= shape@.take(k as int));
            match prod.checked_mul(shape[k]) {
                Some(p) => {
                    prod = p;
                },
                None => {
                    proof {
                        let rest = shape@.skip(k as int);
                        assert(shape@ =~= shape@.take(k as int) + rest);
                        lemma_size_concat(shape@.take(k as int), rest);
                        lemma_size_split(rest, 0);
                        assert(rest.take(0) =~= Seq::<usize>::empty());
                        lemma_size_positive(rest.skip(1));
                        let a = shape_size(shape@.take(k as int));
                        let b = rest[0] as nat;
                        let c = shape_size(rest.skip(1));
                        assert(shape_size(rest) == 1 * b * c);
                        assert(a * (1 * b * c) >= a * b) by (nonlinear_arith)
                            requires c >= 1;
                        assert(shape_size(shape@) >= a * b);
                        assert(a * b > usize::MAX);
                    }
                    return None;
                },
            }
            k = k + 1;
        }
        assert(shape@.take(n as int) =~= shape@);
        if prod == data.len() {
            Some(Array { shape, data })
        } else {
            None
        }
    }

    /// The length of each axis.
    pub fn shape(&self) -> (r: &Vec<usize>)
        ensures
            r@ == self.dims(),
    {
        &self.shape
    }

    /// The number of axes.
    pub fn ndim(&self) -> (r: usize)
        ensures
            r == self.dims().len(),
    {
        self.shape.len()
    }

    /// The number of elements.
    pub fn len(&self) -> (r: usize)
        ensures
            r == self.elems().len(),
            r == shape_size(self.dims()),
    {
        proof {
            use_type_invariant(self);
        }
        self.data.len()
    }

    /// The length of one axis.
    pub fn len_of(&self, axis: Axis) -> (r: usize)
        requires
            axis.0 < self.dims().len(),
        ensures
            r == self.dims()[axis.0 as int],
    {
        self.shape[axis.0]
    }

    /// The elements, in row-major order.
    pub fn as_vec(&self) -> (r: &Vec<T>)
        ensures
            r@ == self.elems(),
    {
        &self.data
    }

    /// Gives up the array for its shape and its elements in row-major order.
    pub fn into_raw_parts(self) -> (r: (Vec<usize>, Vec<T>))
        ensures
            r.0@ == self.dims(),
            r.1@ == self.elems(),
            shape_size(r.0@) == r.1@.len(),
    {
        proof {
            use_type_invariant(&self);
        }
        (self.shape, self.data)
    }

    /// Builds an array from parts already known to fit together.
    pub(crate) fn from_raw_parts(shape: Vec<usize>, data: Vec<T>) -> (r: Array<T>)
        requires
            shape_size(shape@) == data@.len(),
        ensures
            r.dims() == shape@,
            r.elems() == data@,
    {
        Array { shape, data }
    }
}

/// A shape whose axes all have a length holds at least one element.
pub proof fn lemma_size_positive(shape: Seq<usize>)
    requires
        forall|j: int| 0 <= j < shape.len() ==> shape[j] != 0,
    ensures
        shape_size(shape) >= 1,
    decreases shape.len(),
{
    if shape.len() > 0 {
        lemma_size_positive(shape.drop_last());
        let a = shape_size(shape.drop_last());
        let b = shape.last() as nat;
        assert(a * b >= 1) by (nonlinear_arith)
            requires a >= 1, b >= 1;
    }
}

} // verus!
