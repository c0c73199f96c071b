//! The two capability profiles: field layout of the metadata word, widths
//! and reserved object types.
use vstd::prelude::*;
use vstd::arithmetic::power2::pow2;

verus! {

/// Global permission.
pub const PERM_GLOBAL: u32 = 1;
pub const PERM_EXECUTE: u32 = 2;
pub const PERM_LOAD: u32 = 4;
pub const PERM_STORE: u32 = 8;
pub const PERM_LOAD_CAP: u32 = 16;
pub const PERM_STORE_CAP: u32 = 32;
pub const PERM_STORE_LOCAL: u32 = 64;
pub const PERM_SEAL: u32 = 128;
pub const PERM_CINVOKE: u32 = 256;
pub const PERM_UNSEAL: u32 = 512;
pub const PERM_ACCESS_SYS_REGS: u32 = 1024;
pub const PERM_SETCID: u32 = 2048;

/// A bit field of the metadata word: `size` bits starting at bit `start`.
#[derive(Clone, Copy, Debug, PartialEq, Eq, Structural)]
pub struct BitField {
    pub start: u32,
    pub size: u32,
}

/// Widths and field layout of one capability profile.
///
/// The bounds occupy the low `2 * mantissa_width - 1` bits of the metadata
/// word: the bottom mantissa, then the top mantissa (two bits shorter, its two
/// high bits being implied), then the internal-exponent flag.
#[derive(Clone, Copy, Debug, PartialEq, Eq, Structural)]
pub struct Profile {
    /// Bits in an address; a length may need one more.
    pub addr_width: u32,
    /// Bits in the bottom mantissa.
    pub mantissa_width: u32,
    /// The largest exponent that decoding uses.
    pub max_exponent: u32,
    pub uperms: BitField,
    pub perms: BitField,
    pub reserved: BitField,
    pub flags: BitField,
    pub otype: BitField,
    /// XOR-ed into the metadata word on its way to and from memory, so that an
    /// all-zero memory word reads as the null capability.
    pub null_xor_mask: u64,
}

/// 32-bit addresses, 64-bit capabilities.
pub open spec fn cc64_profile() -> Profile {
    Profile {
        addr_width: 32,
        mantissa_width: 8,
        max_exponent: 26,
        uperms: BitField { start: 32, size: 0 },
        perms: BitField { start: 20, size: 12 },
        reserved: BitField { start: 32, size: 0 },
        flags: BitField { start: 19, size: 1 },
        otype: BitField { start: 15, size: 4 },
        null_xor_mask: 0x7c302,
    }
}

/// 64-bit addresses, 128-bit capabilities.
pub open spec fn cc128_profile() -> Profile {
    Profile {
        addr_width: 64,
        mantissa_width: 14,
        max_exponent: 52,
        uperms: BitField { start: 60, size: 4 },
        perms: BitField { start: 48, size: 12 },
        reserved: BitField { start: 46, size: 2 },
        flags: BitField { start: 45, size: 1 },
        otype: BitField { start: 27, size: 18 },
        null_xor_mask: 0x1ffffc018004,
    }
}

pub open spec fn valid_profile(p: Profile) -> bool {
    p == cc64_profile() || p == cc128_profile()
}

impl Profile {
    /// One past the largest address.
    pub open spec fn addr_limit(self) -> nat {
        pow2(self.addr_width as nat)
    }

    /// Width of the bounds part (internal-exponent flag and both mantissas).
    pub open spec fn ebt_width(self) -> nat {
        (2 * self.mantissa_width - 1) as nat
    }

    pub open spec fn spec_max_otype(self) -> int {
        pow2(self.otype.size as nat) - 1
    }

    pub open spec fn spec_otype_unsealed(self) -> int {
        self.spec_max_otype()
    }

    pub open spec fn spec_max_unreserved_otype(self) -> int {
        self.spec_max_otype() - 4
    }

    /// The largest object type that the object-type field holds.
    pub fn max_representable_otype(&self) -> (r: u32)
        requires
            valid_profile(*self),
        ensures
            r == self.spec_max_otype(),
            r >= 15,
    {
        proof {
            vstd::arithmetic::power2::lemma2_to64();
            vstd::arithmetic::power2::lemma2_to64_rest();
        }
        if self.otype.size == 4 {
            15
        } else {
            0x3ffff
        }
    }

    /// The object type of an unsealed capability.
    pub fn otype_unsealed(&self) -> (r: u32)
        requires
            valid_profile(*self),
        ensures
            r == self.spec_otype_unsealed(),
    {
        self.max_representable_otype()
    }

    /// The object type of a sealed entry capability.
    pub fn otype_sentry(&self) -> (r: u32)
        requires
            valid_profile(*self),
        ensures
            r == self.spec_max_otype() - 1,
    {
        self.max_representable_otype() - 1
    }

    pub fn otype_reserved2(&self) -> (r: u32)
        requires
            valid_profile(*self),
        ensures
            r == self.spec_max_otype() - 2,
    {
        self.max_representable_otype() - 2
    }

    pub fn otype_reserved3(&self) -> (r: u32)
        requires
            valid_profile(*self),
        ensures
            r == self.spec_max_otype() - 3,
    {
        self.max_representable_otype() - 3
    }

    /// Every object type above this one is reserved.
    pub fn max_unreserved_otype(&self) -> (r: u32)
        requires
            valid_profile(*self),
        ensures
            r == self.spec_max_unreserved_otype(),
    {
        self.max_representable_otype() - 4
    }
}

/// The profile with 32-bit addresses and 64-bit capabilities. Only its type
/// is used, to select the profile of a `CcxCap`.
#[derive(Debug, Clone, Copy)]
pub enum Cc64 {
    Marker,
}

/// The profile with 64-bit addresses and 128-bit capabilities. Only its type
/// is used, to select the profile of a `CcxCap`.
#[derive(Debug, Clone, Copy)]
pub enum Cc128 {
    Marker,
}

pub fn make_cc64_profile() -> (r: Profile)
    ensures
        r == cc64_profile(),
{
    Profile {
        addr_width: 32,
        mantissa_width: 8,
        max_exponent: 26,
        uperms: BitField { start: 32, size: 0 },
        perms: BitField { start: 20, size: 12 },
        reserved: BitField { start: 32, size: 0 },
        flags: BitField { start: 19, size: 1 },
        otype: BitField { start: 15, size: 4 },
        null_xor_mask: 0x7c302,
    }
}

pub fn make_cc128_profile() -> (r: Profile)
    ensures
        r == cc128_profile(),
{
    Profile {
        addr_width: 64,
        mantissa_width: 14,
        max_exponent: 52,
        uperms: BitField { start: 60, size: 4 },
        perms: BitField { start: 48, size: 12 },
        reserved: BitField { start: 46, size: 2 },
        flags: BitField { start: 45, size: 1 },
        otype: BitField { start: 27, size: 18 },
        null_xor_mask: 0x1ffffc018004,
    }
}

} // verus!
