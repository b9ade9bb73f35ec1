//! A growable vector type used for every matrix and vector buffer.

use vstd::prelude::*;

verus! {

/// Alignment, in bytes, that wide SIMD loads prefer.
pub const ALIGN_64: usize = 64;

/// A vector of `T` used as the backing store of matrices and vectors.
#[derive(Debug)]
pub struct AlignedVec<T> {
    data: Vec<T>,
}

impl<T> View for AlignedVec<T> {
    type V = Seq<T>;

    closed spec fn view(&self) -> Seq<T> {
        self.data@
    }
}

/// `bytemuck::zeroed_vec`: a vector of `length` elements whose bytes are all zero.
/// Claimed: the length is `length` and, every element being the same all-zero bit
/// pattern, all elements are equal. What that value is, for a generic `T`, is not
/// stated. It panics when the layout `length * size_of::<T>()` overflows, which the
/// `requires` excludes, and when the allocator fails, which nothing here can exclude.
#[verifier::external_body]
fn zeroed_vec<T: bytemuck::Zeroable>(length: usize) -> (v: Vec<T>)
    requires
        length * vstd::layout::size_of::<T>() <= isize::MAX,
    ensures
        v@.len() == length,
        forall|i: int, j: int| 0 <= i < length && 0 <= j < length ==> v@[i] == v@[j],
{
    bytemuck::zeroed_vec::<T>(length)
}

impl<T> AlignedVec<T> {
    /// An empty vector.
    pub fn new() -> (r: Self)
        ensures
            r@ == Seq::<T>::empty(),
    {
        AlignedVec { data: Vec::new() }
    }

    /// `len` zero-initialised elements.
    pub fn zeroed(len: usize) -> (r: Self)
        where T: bytemuck::Zeroable
        requires
            len * vstd::layout::size_of::<T>() <= isize::MAX,
        ensures
            r@.len() == len,
            forall|i: int, j: int| 0 <= i < len && 0 <= j < len ==> r@[i] == r@[j],
    {
        if len == 0 {
            return Self::new();
        }
        AlignedVec { data: zeroed_vec::<T>(len) }
    }

    /// Number of elements.
    pub fn len(&self) -> (r: usize)
        ensures
            r == self@.len(),
    {
        self.data.len()
    }

    /// Whether there are no elements.
    pub fn is_empty(&self) -> (r: bool)
        ensures
            r == (self@.len() == 0),
    {
        self.data.len() == 0
    }

    /// The elements as a slice.
    pub fn as_slice(&self) -> (r: &[T])
        ensures
            r@ == self@,
    {
        self.data.as_slice()
    }

    /// The elements as a mutable slice; writes through it are writes to the vector.
    pub fn as_mut_slice(&mut self) -> (r: &mut [T])
        ensures
            r@ == old(self)@,
            final(r)@ == final(self)@,
    {
        self.data.as_mut_slice()
    }

    /// Takes ownership of the elements of `v`, in order.
    pub fn from_vec(v: Vec<T>) -> (r: Self)
        ensures
            r@ == v@,
    {
        AlignedVec { data: v }
    }

    /// The element at `index` (the `[]` operator of the vector).
    pub fn get(&self, index: usize) -> (r: &T)
        requires
            index < self@.len(),
        ensures
            *r == self@[index as int],
    {
        &self.data[index]
    }

    /// Replaces the element at `index` (the `[]=` operator of the vector).
    pub fn set(&mut self, index: usize, value: T)
        requires
            index < old(self)@.len(),
        ensures
            final(self)@ == old(self)@.update(index as int, value),
    {
        self.data.set(index, value);
    }
}

impl<T: Clone> Clone for AlignedVec<T> {
    /// A vector of the same length whose elements are clones of these.
    fn clone(&self) -> (r: Self)
        ensures
            r@.len() == self@.len(),
            forall|i: int| 0 <= i < self@.len() ==> cloned::<T>(self@[i], #[trigger] r@[i]),
    {
        AlignedVec { data: self.data.clone() }
    }
}

} // verus!
