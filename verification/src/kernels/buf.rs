//! Device buffers by handle.
use vstd::prelude::*;

verus! {

/// Raw device allocation with a logical element count for launch metadata. `H` is the runtime's
/// handle of the allocation.
#[derive(Clone, Copy, Debug, PartialEq, Eq)]
pub struct Buf<H: Copy> {
    handle: H,
    len: usize,
}

/// A buffer as a kernel argument: one contiguous dimension of `shape` scalar elements.
#[derive(Clone, Copy, Debug, PartialEq, Eq)]
pub struct BufferArg<H: Copy> {
    pub handle: H,
    pub stride: usize,
    pub shape: usize,
}

impl<H: Copy> Buf<H> {
    /// The allocation.
    pub closed spec fn allocation(self) -> H {
        self.handle
    }

    /// The logical element count.
    pub closed spec fn count(self) -> usize {
        self.len
    }

    /// Views an existing allocation as `len` elements. Checked launches bound every access by
    /// the real allocation size.
    pub fn from_handle(handle: H, len: usize) -> (r: Self)
        ensures
            r.allocation() == handle,
            r.count() == len,
    {
        Buf { handle, len }
    }

    /// Buffer argument of `len` scalar elements (vectorized kernels divide by the vector size).
    pub fn arg(&self) -> (r: BufferArg<H>)
        ensures
            r.handle == self.allocation(),
            r.stride == 1,
            r.shape == self.count(),
    {
        BufferArg { handle: self.handle, stride: 1, shape: self.len }
    }

    pub fn len(&self) -> (r: usize)
        ensures
            r == self.count(),
    {
        self.len
    }

    /// Same allocation viewed with another logical element count (e.g. f16 pairs as words).
    pub fn with_len(&self, len: usize) -> (r: Self)
        ensures
            r.allocation() == self.allocation(),
            r.count() == len,
    {
        Buf { handle: self.handle, len }
    }

    pub fn is_empty(&self) -> (r: bool)
        ensures
            r == (self.count() == 0),
    {
        self.len == 0
    }
}

} // verus!
