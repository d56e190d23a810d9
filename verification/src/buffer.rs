//! What a byte buffer must offer to be the target of an operation.

use vstd::prelude::*;

verus! {

/// A contiguous region of bytes that can be described to the kernel.
pub trait AsIoVec {
    /// The bytes of the region.
    spec fn region(&self) -> Seq<u8>;

    /// The address of the region's first byte and the region's length.
    fn as_io_vec(&self) -> (view: (usize, usize))
        ensures
            view.1 == self.region().len(),
    ;
}

/// A region that an operation may write to.
pub trait AsIoVecMut: AsIoVec {
}

/// The address of the first byte of `bytes`, from `<[u8]>::as_ptr`. Where a
/// buffer lies in memory is the allocator's choice: nothing is claimed of it.
#[verifier::external_body]
fn address_of(bytes: &[u8]) -> (addr: usize) {
    bytes.as_ptr() as usize
}

impl AsIoVec for [u8] {
    open spec fn region(&self) -> Seq<u8> {
        self@
    }

    fn as_io_vec(&self) -> (view: (usize, usize)) {
        (address_of(self), self.len())
    }
}

impl AsIoVecMut for [u8] {
}

impl AsIoVec for Vec<u8> {
    open spec fn region(&self) -> Seq<u8> {
        self@
    }

    fn as_io_vec(&self) -> (view: (usize, usize)) {
        (address_of(self.as_slice()), self.len())
    }
}

impl AsIoVecMut for Vec<u8> {
}

impl AsIoVec for Box<[u8]> {
    open spec fn region(&self) -> Seq<u8> {
        self@
    }

    fn as_io_vec(&self) -> (view: (usize, usize)) {
        let bytes: &[u8] = &**self;
        (address_of(bytes), bytes.len())
    }
}

impl AsIoVecMut for Box<[u8]> {
}

impl<const N: usize> AsIoVec for [u8; N] {
    open spec fn region(&self) -> Seq<u8> {
        self@
    }

    fn as_io_vec(&self) -> (view: (usize, usize)) {
        (address_of(self.as_slice()), N)
    }
}

impl<const N: usize> AsIoVecMut for [u8; N] {
}

} // verus!
