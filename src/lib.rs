//! Fixed-capacity decimal arithmetic: non-negative integers held as little-endian
//! base-10 places, with remainder and power computed place by place, and two
//! scalar helpers on 16-bit numbers.
use vstd::prelude::*;

pub mod carry;
pub mod convert;
pub mod digits;
pub mod places;
pub mod power;
pub mod remainder;
pub mod scalar;

pub use carry::{muladd, ones, sumadd};
pub use convert::{from_decimals, to_decimals};
pub use places::{AsSlice, AsSliceMut, Decimals, Product, MAX_DEC_PLACES, MAX_PLACES};
pub use power::pow;
pub use remainder::{rem, rem_crux};
pub use scalar::{herons_sqrt, prime_ck};

verus! {

} // verus!
