//! Fixed-capacity place buffers: an array of places and the count of those in use.
use vstd::prelude::*;

verus! {

/// Capacity of a product buffer: enough for the largest power computed.
pub const MAX_PLACES: usize = 815;

/// Capacity of a conversion buffer: enough for any `u128`.
pub const MAX_DEC_PLACES: usize = 39;

/// A conversion buffer and the count of places in use.
pub type Decimals = ([u8; MAX_DEC_PLACES], usize);

/// A product buffer and the count of places in use.
pub type Product = ([u8; MAX_PLACES], usize);

/// Read access to the places in use of a buffer.
pub trait AsSlice {
    /// The count of places in use does not exceed the capacity.
    spec fn in_bounds(&self) -> bool;

    /// The places in use, least significant first.
    spec fn places(&self) -> Seq<u8>;

    fn as_slice(&self) -> (r: &[u8])
        requires
            self.in_bounds(),
        ensures
            r@ == self.places(),
    ;
}

/// Write access to the places in use of a buffer.
pub trait AsSliceMut {
    /// The count of places in use does not exceed the capacity.
    spec fn fits(&self) -> bool;

    /// The places in use, least significant first.
    spec fn used(&self) -> Seq<u8>;

    /// Everything but the places in use: the count, and the places above it.
    spec fn frame(&self) -> (nat, Seq<u8>);

    fn as_slice_mut(&mut self) -> (r: &mut [u8])
        requires
            old(self).fits(),
        ensures
            r@ == old(self).used(),
            final(self).used() == final(r)@,
            final(self).frame() == old(self).frame(),
    ;
}

impl AsSlice for Decimals {
    open spec fn in_bounds(&self) -> bool {
        self.1 <= MAX_DEC_PLACES
    }

    open spec fn places(&self) -> Seq<u8> {
        self.0@.take(self.1 as int)
    }

    fn as_slice(&self) -> (r: &[u8]) {
        &self.0[0..self.1]
    }
}

impl AsSlice for Product {
    open spec fn in_bounds(&self) -> bool {
        self.1 <= MAX_PLACES
    }

    open spec fn places(&self) -> Seq<u8> {
        self.0@.take(self.1 as int)
    }

    fn as_slice(&self) -> (r: &[u8]) {
        &self.0[0..self.1]
    }
}

impl AsSliceMut for Decimals {
    open spec fn fits(&self) -> bool {
        self.1 <= MAX_DEC_PLACES
    }

    open spec fn used(&self) -> Seq<u8> {
        self.0@.take(self.1 as int)
    }

    open spec fn frame(&self) -> (nat, Seq<u8>) {
        (self.1 as nat, self.0@.skip(self.1 as int))
    }

    fn as_slice_mut(&mut self) -> (r: &mut [u8]) {
        let (head, _) = self.0.split_at_mut(self.1);
        head
    }
}

} // verus!
