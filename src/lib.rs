//! Compressed capability encodings: a bounded, permissioned and optionally
//! sealed memory reference packed into an address-width metadata word beside
//! its address, with the bounds stored as an exponent and two mantissas.
use vstd::prelude::*;

pub mod bits;
pub mod profile;
pub mod bounds;
pub mod cap;
pub mod wrappers;
pub mod ffi_num;
pub mod laws;
pub mod soundness;

pub use profile::{Cc64, Cc128, Profile, BitField};
pub use bounds::CcxBoundsBits;
pub use cap::{CcxCap, CapProfile, CompressedCapability};
pub use ffi_num::{FfiU128, FfiI128};
pub use wrappers::CheriRVFuncs;

verus! {

/// A capability of the profile with 32-bit addresses.
pub type Cc64Cap = CcxCap<Cc64>;

/// A capability of the profile with 64-bit addresses.
pub type Cc128Cap = CcxCap<Cc128>;

} // verus!
