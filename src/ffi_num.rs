//! 128-bit integers as two 64-bit halves, low half first.
use vstd::prelude::*;

verus! {

/// An unsigned 128-bit integer split into its low and high 64 bits.
#[derive(Default, Clone, Copy, Debug, PartialEq, Eq, Structural)]
pub struct FfiU128 {
    pub bottom: u64,
    pub top: u64,
}

/// A signed 128-bit integer, in two's complement, split into its low and high
/// 64 bits.
#[derive(Default, Clone, Copy, Debug, PartialEq, Eq, Structural)]
pub struct FfiI128 {
    pub bottom: u64,
    pub top: u64,
}

/// The unsigned value of two halves.
pub open spec fn join_halves(bottom: u64, top: u64) -> int {
    top * 0x1_0000_0000_0000_0000 + bottom
}

/// The two's complement bits of a signed 128-bit value.
pub open spec fn twos_complement(x: i128) -> int {
    if x >= 0 {
        x as int
    } else {
        x + 0x1_0000_0000_0000_0000_0000_0000_0000_0000
    }
}

impl From<FfiU128> for u128 {
    fn from(x: FfiU128) -> (r: u128) {
        x.top as u128 * 0x1_0000_0000_0000_0000 + x.bottom as u128
    }
}

impl vstd::std_specs::convert::FromSpecImpl<FfiU128> for u128 {
    open spec fn obeys_from_spec() -> bool {
        true
    }

    open spec fn from_spec(x: FfiU128) -> u128 {
        join_halves(x.bottom, x.top) as u128
    }
}

impl From<u128> for FfiU128 {
    fn from(x: u128) -> (r: FfiU128) {
        FfiU128 { bottom: (x % 0x1_0000_0000_0000_0000) as u64, top: (x / 0x1_0000_0000_0000_0000) as u64 }
    }
}

impl vstd::std_specs::convert::FromSpecImpl<u128> for FfiU128 {
    open spec fn obeys_from_spec() -> bool {
        true
    }

    open spec fn from_spec(x: u128) -> FfiU128 {
        FfiU128 { bottom: (x % 0x1_0000_0000_0000_0000) as u64, top: (x / 0x1_0000_0000_0000_0000) as u64 }
    }
}

impl From<FfiI128> for i128 {
    fn from(x: FfiI128) -> (r: i128) {
        if x.top < 0x8000_0000_0000_0000 {
            (x.top as u128 * 0x1_0000_0000_0000_0000 + x.bottom as u128) as i128
        } else {
            let below = (x.top - 0x8000_0000_0000_0000) as u128 * 0x1_0000_0000_0000_0000 + x.bottom as u128;
            below as i128 - 0x7fff_ffff_ffff_ffff_ffff_ffff_ffff_ffff - 1
        }
    }
}

impl vstd::std_specs::convert::FromSpecImpl<FfiI128> for i128 {
    open spec fn obeys_from_spec() -> bool {
        true
    }

    open spec fn from_spec(x: FfiI128) -> i128 {
        let bits = join_halves(x.bottom, x.top);
        if bits < 0x8000_0000_0000_0000_0000_0000_0000_0000 {
            bits as i128
        } else {
            (bits - 0x1_0000_0000_0000_0000_0000_0000_0000_0000) as i128
        }
    }
}

impl From<i128> for FfiI128 {
    fn from(x: i128) -> (r: FfiI128) {
        let bits: u128 = if x >= 0 {
            x as u128
        } else {
            (x + 0x7fff_ffff_ffff_ffff_ffff_ffff_ffff_ffff + 1) as u128 + 0x8000_0000_0000_0000_0000_0000_0000_0000
        };
        FfiI128 { bottom: (bits % 0x1_0000_0000_0000_0000) as u64, top: (bits / 0x1_0000_0000_0000_0000) as u64 }
    }
}

impl vstd::std_specs::convert::FromSpecImpl<i128> for FfiI128 {
    open spec fn obeys_from_spec() -> bool {
        true
    }

    open spec fn from_spec(x: i128) -> FfiI128 {
        let bits = twos_complement(x);
        FfiI128 { bottom: (bits % 0x1_0000_0000_0000_0000) as u64, top: (bits / 0x1_0000_0000_0000_0000) as u64 }
    }
}

} // verus!
