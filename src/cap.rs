//! The capability value and the per-profile operations on it.
use vstd::prelude::*;
use vstd::arithmetic::power2::{pow2, lemma2_to64};
use core::marker::PhantomData;
use crate::bits::{
    field, deposit, get_field, set_field, pow2_u128, lemma_field_of_deposit, lemma_deposit_bound, ceil_div,
};
use crate::bounds::{
    CcxBoundsBits, lemma_profile_facts, spec_extract_bounds_bits, spec_bounds_of,
    extract_bounds_bits, decode_bounds, spec_compress_bounds, compress_bounds,
    spec_required_alignment, spec_representable_length, spec_alignment_mask, alignment_bits,
};
use crate::soundness::{lemma_decode_compressed, lemma_extract_low_deposit, spec_granule_bits};
use crate::profile::{BitField, Profile, valid_profile, cc64_profile, cc128_profile, make_cc64_profile,
    make_cc128_profile, Cc64, Cc128};

verus! {

/// A capability in its decoded form: address, metadata word, and the bounds
/// decoded from them.
///
/// `_cr_top` and `cr_base` cache what decoding gave; they are recomputed by
/// every operation that changes the bounds. Fields other than these are
/// written and read as they are.
#[derive(Debug)]
pub struct CcxCap<T: CapProfile> {
    /// The address the capability points at.
    pub _cr_cursor: u64,
    /// The metadata word (permissions, object type, flags, compressed bounds)
    /// in its register form.
    pub cr_pesbt: u64,
    /// Top of the bounds; may equal the size of the address space.
    pub _cr_top: u128,
    /// Base of the bounds.
    pub cr_base: u64,
    /// Non-zero for a capability, zero for plain data.
    pub cr_tag: u8,
    /// Non-zero where decoding found the bounds well formed.
    pub cr_bounds_valid: u8,
    /// The exponent of the last compression or decoding.
    pub cr_exp: u8,
    /// Not interpreted; kept as it is.
    pub cr_extra: u8,
    pub profile: PhantomData<T>,
}

impl<T: CapProfile> Clone for CcxCap<T> {
    fn clone(&self) -> (r: Self)
        ensures
            r == *self,
    {
        CcxCap {
            _cr_cursor: self._cr_cursor,
            cr_pesbt: self.cr_pesbt,
            _cr_top: self._cr_top,
            cr_base: self.cr_base,
            cr_tag: self.cr_tag,
            cr_bounds_valid: self.cr_bounds_valid,
            cr_exp: self.cr_exp,
            cr_extra: self.cr_extra,
            profile: PhantomData,
        }
    }
}

impl<T: CapProfile> Copy for CcxCap<T> {}

/// Whether `a` is an address of the profile `p`.
pub open spec fn is_addr(p: Profile, a: int) -> bool {
    0 <= a < p.addr_limit()
}

/// The metadata word of a fresh capability with every permission, unsealed.
pub open spec fn spec_max_perms_pesbt(p: Profile) -> int {
    let with_uperms = deposit(0, p.uperms.start as nat, p.uperms.size as nat, pow2(p.uperms.size as nat) - 1);
    let with_perms = deposit(with_uperms, p.perms.start as nat, p.perms.size as nat, pow2(p.perms.size as nat) - 1);
    deposit(with_perms, p.otype.start as nat, p.otype.size as nat, p.spec_otype_unsealed())
}

/// The bounds representability of moving the address of a capability with
/// bounds `[base, top)`, `top` being `base + length` modulo 2^128, from
/// `cursor` to `new_cursor`: always within the bounds; outside them, only when
/// unsealed and when `[base, top)` compressed decodes the same against either
/// address.
pub open spec fn spec_representable_new_addr(
    p: Profile,
    sealed: bool,
    base: int,
    length: int,
    cursor: int,
    new_cursor: int,
) -> bool {
    let top = (base + length) % (u128::MAX as int + 1);
    if base <= new_cursor < top {
        true
    } else if sealed || top > p.addr_limit() || top < base {
        false
    } else {
        let ebt = spec_compress_bounds(p, base, top).0;
        spec_bounds_of(p, ebt, new_cursor) == spec_bounds_of(p, ebt, cursor)
    }
}

/// The value of the bit field `f` of `x`.
pub open spec fn field_of(x: u64, f: BitField) -> int {
    field(x as int, f.start as nat, f.size as nat)
}

/// `x` with the bit field `f` set to the low bits of `v`.
pub open spec fn deposit_of(x: u64, f: BitField, v: int) -> int {
    deposit(x as int, f.start as nat, f.size as nat, v)
}

/// The metadata word `pesbt` with its bounds part replaced by `ebt`.
pub open spec fn with_bounds_part(p: Profile, pesbt: u64, ebt: int) -> int {
    deposit(pesbt as int, 0, p.ebt_width(), ebt)
}

/// The memory-form mask keeps a metadata word within the address width.
proof fn lemma_xor_in_range(p: Profile, x: u64)
    requires
        valid_profile(p),
        is_addr(p, x as int),
    ensures
        is_addr(p, (x ^ p.null_xor_mask) as int),
{
    lemma2_to64();
    if p.addr_width == 32 {
        assert(x < 0x1_0000_0000 ==> x ^ 0x7c302u64 < 0x1_0000_0000) by (bit_vector);
    }
}

/// Whether `pesbt` (register form) decoded against `cursor` gives bounds in
/// order and within the address space, as a tagged capability's must be.
pub open spec fn spec_valid_decoding(p: Profile, pesbt: int, cursor: int) -> bool {
    let (base, top) = spec_bounds_of(p, pesbt, cursor);
    base <= top <= p.addr_limit()
}

/// A capability profile: which layout and widths its capabilities have.
pub trait CapProfile: Sized + Copy + Clone {
    spec fn spec_profile() -> Profile;

    proof fn lemma_profile_valid()
        ensures
            valid_profile(Self::spec_profile()),
    ;

    fn profile() -> (r: Profile)
        ensures
            r == Self::spec_profile(),
    ;
}

/// The operations on capabilities of a profile.
pub trait CompressedCapability: CapProfile {
    /// The metadata word in register form.
    fn compress_raw(cap: &CcxCap<Self>) -> (r: u64)
        ensures
            r == cap.cr_pesbt,
    {
        cap.cr_pesbt
    }

    /// The capability held by a metadata word in register form and an address.
    ///
    /// A tagged capability is made only from a word whose bounds decode in
    /// order and within the address space (see `has_valid_bounds`).
    fn decompress_raw(pesbt: u64, cursor: u64, tag: bool) -> (r: CcxCap<Self>)
        requires
            is_addr(Self::spec_profile(), pesbt as int),
            is_addr(Self::spec_profile(), cursor as int),
            tag ==> spec_valid_decoding(Self::spec_profile(), pesbt as int, cursor as int),
        ensures
            r.wf(),
            tag ==> r.cr_base <= r._cr_top <= Self::spec_profile().addr_limit(),
            r == CcxCap::<Self>::spec_decompress(pesbt, cursor, tag),
    {
        let p = Self::profile();
        proof {
            Self::lemma_profile_valid();
        }
        let bb = extract_bounds_bits(&p, pesbt);
        let (base, top) = decode_bounds(&p, &bb, cursor);
        CcxCap {
            _cr_cursor: cursor,
            cr_pesbt: pesbt,
            _cr_top: top,
            cr_base: base,
            cr_tag: if tag { 1 } else { 0 },
            cr_bounds_valid: 1,
            cr_exp: bb.e,
            cr_extra: 0,
            profile: PhantomData,
        }
    }

    /// Whether the register-form word `pesbt`, decoded against `cursor`, gives
    /// bounds in order and within the address space: the words from which a
    /// tagged capability may be decoded.
    fn has_valid_bounds(pesbt: u64, cursor: u64) -> (r: bool)
        requires
            is_addr(Self::spec_profile(), pesbt as int),
            is_addr(Self::spec_profile(), cursor as int),
        ensures
            r == spec_valid_decoding(Self::spec_profile(), pesbt as int, cursor as int),
    {
        let p = Self::profile();
        proof {
            Self::lemma_profile_valid();
            lemma_profile_facts(p);
        }
        let bb = extract_bounds_bits(&p, pesbt);
        let (base, top) = decode_bounds(&p, &bb, cursor);
        base as u128 <= top && top <= pow2_u128(p.addr_width)
    }

    /// Whether `[base, top)`, compressed, decodes against `cursor` as it does
    /// against `base`: the addresses at which a capability over those bounds
    /// can be made.
    fn cursor_keeps_bounds(base: u64, top: u128, cursor: u64) -> (r: bool)
        requires
            is_addr(Self::spec_profile(), base as int),
            is_addr(Self::spec_profile(), cursor as int),
            base <= top <= Self::spec_profile().addr_limit(),
        ensures
            r == (spec_bounds_of(Self::spec_profile(), spec_compress_bounds(Self::spec_profile(), base as int, top as int).0, cursor as int)
                == spec_bounds_of(Self::spec_profile(), spec_compress_bounds(Self::spec_profile(), base as int, top as int).0, base as int)),
    {
        let p = Self::profile();
        proof {
            Self::lemma_profile_valid();
            lemma_profile_facts(p);
            vstd::arithmetic::power2::lemma_pow2_strictly_increases(p.ebt_width(), p.addr_width as nat);
        }
        let (ebt, _) = compress_bounds(&p, base, top);
        let bb = extract_bounds_bits(&p, ebt);
        let at_cursor = decode_bounds(&p, &bb, cursor);
        let at_base = decode_bounds(&p, &bb, base);
        at_cursor.0 == at_base.0 && at_cursor.1 == at_base.1
    }

    /// The metadata word in memory form.
    fn compress_mem(cap: &CcxCap<Self>) -> (r: u64)
        ensures
            r == cap.cr_pesbt ^ Self::spec_profile().null_xor_mask,
    {
        let p = Self::profile();
        cap.cr_pesbt ^ p.null_xor_mask
    }

    /// The capability held by a metadata word in memory form and an address.
    ///
    /// A tagged capability is made only from a word whose bounds decode in
    /// order and within the address space (see `has_valid_bounds`, which
    /// takes the register form).
    fn decompress_mem(pesbt: u64, cursor: u64, tag: bool) -> (r: CcxCap<Self>)
        requires
            is_addr(Self::spec_profile(), pesbt as int),
            is_addr(Self::spec_profile(), cursor as int),
            tag ==> spec_valid_decoding(
                Self::spec_profile(),
                (pesbt ^ Self::spec_profile().null_xor_mask) as int,
                cursor as int,
            ),
        ensures
            r.wf(),
            tag ==> r.cr_base <= r._cr_top <= Self::spec_profile().addr_limit(),
            r == CcxCap::<Self>::spec_decompress(pesbt ^ Self::spec_profile().null_xor_mask, cursor, tag),
    {
        let p = Self::profile();
        proof {
            Self::lemma_profile_valid();
            lemma_xor_in_range(p, pesbt);
        }
        Self::decompress_raw(pesbt ^ p.null_xor_mask, cursor, tag)
    }

    /// Software permissions.
    fn get_uperms(cap: &CcxCap<Self>) -> (r: u32)
        ensures
            r == field_of(cap.cr_pesbt, Self::spec_profile().uperms),
    {
        let p = Self::profile();
        proof {
            Self::lemma_profile_valid();
            lemma2_to64();
        }
        get_field(cap.cr_pesbt, p.uperms.start, p.uperms.size) as u32
    }

    /// Hardware permissions.
    fn get_perms(cap: &CcxCap<Self>) -> (r: u32)
        ensures
            r == field_of(cap.cr_pesbt, Self::spec_profile().perms),
    {
        let p = Self::profile();
        proof {
            Self::lemma_profile_valid();
            lemma2_to64();
        }
        get_field(cap.cr_pesbt, p.perms.start, p.perms.size) as u32
    }

    fn get_otype(cap: &CcxCap<Self>) -> (r: u32)
        ensures
            r == field_of(cap.cr_pesbt, Self::spec_profile().otype),
    {
        let p = Self::profile();
        proof {
            Self::lemma_profile_valid();
            lemma2_to64();
        }
        get_field(cap.cr_pesbt, p.otype.start, p.otype.size) as u32
    }

    fn get_reserved(cap: &CcxCap<Self>) -> (r: u8)
        ensures
            r == field_of(cap.cr_pesbt, Self::spec_profile().reserved),
    {
        let p = Self::profile();
        proof {
            Self::lemma_profile_valid();
            lemma2_to64();
        }
        get_field(cap.cr_pesbt, p.reserved.start, p.reserved.size) as u8
    }

    fn get_flags(cap: &CcxCap<Self>) -> (r: u8)
        ensures
            r == field_of(cap.cr_pesbt, Self::spec_profile().flags),
    {
        let p = Self::profile();
        proof {
            Self::lemma_profile_valid();
            lemma2_to64();
        }
        get_field(cap.cr_pesbt, p.flags.start, p.flags.size) as u8
    }

    /// Writes the low bits of `value` into the software permissions.
    fn update_uperms(cap: &mut CcxCap<Self>, value: u32)
        requires
            old(cap).wf(),
        ensures
            *final(cap) == old(cap).with_pesbt(
                deposit_of(old(cap).cr_pesbt, Self::spec_profile().uperms, value as int) as u64,
            ),
            final(cap).wf(),
    {
        let p = Self::profile();
        proof {
            Self::lemma_profile_valid();
        }
        cap.cr_pesbt = set_field(cap.cr_pesbt, p.uperms.start, p.uperms.size, value as u64, p.addr_width);
    }

    /// Writes the low bits of `value` into the hardware permissions.
    fn update_perms(cap: &mut CcxCap<Self>, value: u32)
        requires
            old(cap).wf(),
        ensures
            *final(cap) == old(cap).with_pesbt(
                deposit_of(old(cap).cr_pesbt, Self::spec_profile().perms, value as int) as u64,
            ),
            final(cap).wf(),
    {
        let p = Self::profile();
        proof {
            Self::lemma_profile_valid();
        }
        cap.cr_pesbt = set_field(cap.cr_pesbt, p.perms.start, p.perms.size, value as u64, p.addr_width);
    }

    /// Writes the low bits of `value` into the object type.
    fn update_otype(cap: &mut CcxCap<Self>, value: u32)
        requires
            old(cap).wf(),
        ensures
            *final(cap) == old(cap).with_pesbt(
                deposit_of(old(cap).cr_pesbt, Self::spec_profile().otype, value as int) as u64,
            ),
            final(cap).wf(),
    {
        let p = Self::profile();
        proof {
            Self::lemma_profile_valid();
        }
        cap.cr_pesbt = set_field(cap.cr_pesbt, p.otype.start, p.otype.size, value as u64, p.addr_width);
    }

    fn update_reserved(cap: &mut CcxCap<Self>, value: u8)
        requires
            old(cap).wf(),
        ensures
            *final(cap) == old(cap).with_pesbt(
                deposit_of(old(cap).cr_pesbt, Self::spec_profile().reserved, value as int) as u64,
            ),
            final(cap).wf(),
    {
        let p = Self::profile();
        proof {
            Self::lemma_profile_valid();
        }
        cap.cr_pesbt = set_field(cap.cr_pesbt, p.reserved.start, p.reserved.size, value as u64, p.addr_width);
    }

    fn update_flags(cap: &mut CcxCap<Self>, value: u8)
        requires
            old(cap).wf(),
        ensures
            *final(cap) == old(cap).with_pesbt(
                deposit_of(old(cap).cr_pesbt, Self::spec_profile().flags, value as int) as u64,
            ),
            final(cap).wf(),
    {
        let p = Self::profile();
        proof {
            Self::lemma_profile_valid();
        }
        cap.cr_pesbt = set_field(cap.cr_pesbt, p.flags.start, p.flags.size, value as u64, p.addr_width);
    }

    /// The bounds fields of a metadata word in register form.
    fn extract_bounds_bits(pesbt: u64) -> (r: CcxBoundsBits)
        ensures
            r == spec_extract_bounds_bits(Self::spec_profile(), pesbt as int),
    {
        let p = Self::profile();
        proof {
            Self::lemma_profile_valid();
        }
        extract_bounds_bits(&p, pesbt)
    }

    /// Compresses `[req_base, req_top)` into the metadata word and caches the
    /// bounds it decodes to against `req_base`. Returns whether those are the
    /// requested bounds; otherwise they are wider.
    fn set_bounds(cap: &mut CcxCap<Self>, req_base: u64, req_top: u128) -> (exact: bool)
        requires
            old(cap).wf(),
            old(cap).spec_tag(),
            is_addr(Self::spec_profile(), req_base as int),
            req_base <= req_top <= Self::spec_profile().addr_limit(),
        ensures
            final(cap).wf(),
            *final(cap) == old(cap).after_set_bounds(req_base as int, req_top as int),
            exact == old(cap).spec_set_bounds_exact(req_base as int, req_top as int),
    {
        let p = Self::profile();
        proof {
            Self::lemma_profile_valid();
            lemma_profile_facts(p);
            vstd::arithmetic::power2::lemma_pow2_strictly_increases(p.ebt_width(), p.addr_width as nat);
        }
        let (ebt, ee) = compress_bounds(&p, req_base, req_top);
        let pesbt = set_field(cap.cr_pesbt, 0, 2 * p.mantissa_width - 1, ebt, p.addr_width);
        let bb = extract_bounds_bits(&p, pesbt);
        let (base, top) = decode_bounds(&p, &bb, req_base);
        cap.cr_pesbt = pesbt;
        cap.cr_base = base;
        cap._cr_top = top;
        cap.cr_exp = ee as u8;
        base == req_base && top == req_top
    }

    /// Whether decoding the metadata word against the capability's address
    /// gives the bounds it holds.
    fn is_representable_cap_exact(cap: &CcxCap<Self>) -> (r: bool)
        requires
            cap.wf(),
        ensures
            r == (spec_bounds_of(Self::spec_profile(), cap.cr_pesbt as int, cap._cr_cursor as int) == (
            cap.cr_base as int, cap._cr_top as int)),
    {
        let p = Self::profile();
        proof {
            Self::lemma_profile_valid();
        }
        let bb = extract_bounds_bits(&p, cap.cr_pesbt);
        let (base, top) = decode_bounds(&p, &bb, cap._cr_cursor);
        base == cap.cr_base && top == cap._cr_top
    }

    /// Whether moving the address of a capability with bounds
    /// `[base, base + length)` from `cursor` to `new_cursor` keeps its bounds.
    fn is_representable_new_addr(sealed: bool, base: u64, length: u128, cursor: u64, new_cursor: u64) -> (r: bool)
        requires
            is_addr(Self::spec_profile(), base as int),
            is_addr(Self::spec_profile(), cursor as int),
            is_addr(Self::spec_profile(), new_cursor as int),
        ensures
            r == spec_representable_new_addr(
                Self::spec_profile(),
                sealed,
                base as int,
                length as int,
                cursor as int,
                new_cursor as int,
            ),
    {
        let p = Self::profile();
        proof {
            Self::lemma_profile_valid();
            lemma_profile_facts(p);
            vstd::arithmetic::power2::lemma_pow2_strictly_increases(p.ebt_width(), p.addr_width as nat);
        }
        let limit = pow2_u128(p.addr_width);
        // base + length, wrapping at 2^128
        let top: u128 = if length <= u128::MAX - base as u128 {
            base as u128 + length
        } else {
            length - (u128::MAX - base as u128) - 1
        };
        proof {
            let m = u128::MAX as int + 1;
            let sum = base as int + length as int;
            if sum < m {
                vstd::arithmetic::div_mod::lemma_small_mod(sum as nat, m as nat);
            } else {
                vstd::arithmetic::div_mod::lemma_fundamental_div_mod_converse(sum, m, 1, sum - m);
            }
            assert(top as int == sum % m);
        }
        if new_cursor as u128 >= base as u128 && (new_cursor as u128) < top {
            true
        } else if sealed || top > limit || top < base as u128 {
            false
        } else {
            let (ebt, _) = compress_bounds(&p, base, top);
            let bb = extract_bounds_bits(&p, ebt);
            let now = decode_bounds(&p, &bb, cursor);
            let moved = decode_bounds(&p, &bb, new_cursor);
            now.0 == moved.0 && now.1 == moved.1
        }
    }

    /// A tagged capability with every permission, unsealed, with the address
    /// `cursor` and the bounds that `[base, top)` compresses to.
    ///
    /// `cursor` must be an address at which those bounds decode as they do at
    /// `base` (see `cursor_keeps_bounds`).
    fn make_max_perms_cap(base: u64, cursor: u64, top: u128) -> (r: CcxCap<Self>)
        requires
            is_addr(Self::spec_profile(), base as int),
            is_addr(Self::spec_profile(), cursor as int),
            base <= top <= Self::spec_profile().addr_limit(),
            spec_bounds_of(Self::spec_profile(), spec_compress_bounds(Self::spec_profile(), base as int, top as int).0, cursor as int)
                == spec_bounds_of(Self::spec_profile(), spec_compress_bounds(Self::spec_profile(), base as int, top as int).0, base as int),
        ensures
            r.wf(),
            r.spec_decoded_bounds() == (r.cr_base as int, r._cr_top as int),
            r == CcxCap::<Self>::spec_max_perms_unbounded(cursor).after_set_bounds(base as int, top as int),
    {
        let p = Self::profile();
        proof {
            Self::lemma_profile_valid();
            lemma_profile_facts(p);
            lemma2_to64();
        }
        let all_uperms = (pow2_u128(p.uperms.size) - 1) as u64;
        let all_perms = (pow2_u128(p.perms.size) - 1) as u64;
        let unsealed = p.otype_unsealed() as u64;
        let pesbt = set_field(0, p.uperms.start, p.uperms.size, all_uperms, p.addr_width);
        let pesbt = set_field(pesbt, p.perms.start, p.perms.size, all_perms, p.addr_width);
        let pesbt = set_field(pesbt, p.otype.start, p.otype.size, unsealed, p.addr_width);
        proof {
            vstd::arithmetic::power2::lemma_pow2_pos(p.addr_width as nat + 1);
        }
        let mut cap = CcxCap {
            _cr_cursor: cursor,
            cr_pesbt: pesbt,
            _cr_top: 0,
            cr_base: 0,
            cr_tag: 1,
            cr_bounds_valid: 1,
            cr_exp: 0,
            cr_extra: 0,
            profile: PhantomData,
        };
        Self::set_bounds(&mut cap, base, top);
        proof {
            let ebt = spec_compress_bounds(p, base as int, top as int).0;
            lemma_decode_compressed(p, base as int, top as int);
            lemma_deposit_bound(pesbt as int, 0, p.ebt_width(), ebt, p.addr_width as nat);
            lemma_extract_low_deposit(p, pesbt as int, ebt);
        }
        cap
    }

    /// `length` rounded up so that some aligned base encodes it exactly.
    fn get_representable_length(length: u128) -> (r: u128)
        requires
            length <= Self::spec_profile().addr_limit(),
        ensures
            r == spec_representable_length(Self::spec_profile(), length as nat),
    {
        let p = Self::profile();
        proof {
            Self::lemma_profile_valid();
            lemma_profile_facts(p);
        }
        let bits = alignment_bits(&p, length);
        let align = pow2_u128(bits);
        proof {
            vstd::arithmetic::power2::lemma_pow2_strictly_increases(bits as nat, p.addr_width as nat);
            crate::bits::lemma_div_mod_bounds((length + align - 1) as int, align as int, 1);
        }
        ((length + align - 1) / align) * align
    }

    /// The alignment that a base needs so that a region of
    /// `get_representable_length(length)` bytes is encoded exactly.
    fn get_required_alignment(length: u128) -> (r: u128)
        requires
            length <= Self::spec_profile().addr_limit(),
        ensures
            r == spec_required_alignment(Self::spec_profile(), length as nat),
    {
        let p = Self::profile();
        proof {
            Self::lemma_profile_valid();
        }
        pow2_u128(alignment_bits(&p, length))
    }

    /// The mask that rounds an address down to `get_required_alignment(length)`.
    fn get_alignment_mask(length: u128) -> (r: u128)
        requires
            length <= Self::spec_profile().addr_limit(),
        ensures
            r == spec_alignment_mask(Self::spec_profile(), length as nat),
    {
        let p = Self::profile();
        proof {
            Self::lemma_profile_valid();
            lemma_profile_facts(p);
        }
        let bits = alignment_bits(&p, length);
        proof {
            vstd::arithmetic::power2::lemma_pow2_strictly_increases(bits as nat, p.addr_width as nat);
        }
        pow2_u128(p.addr_width) - pow2_u128(bits)
    }
}

impl<T: CapProfile> CcxCap<T> {
    /// Field ranges of the profile: addresses, metadata word and base within
    /// the address width, top within one bit more.
    pub open spec fn wf(&self) -> bool {
        let p = T::spec_profile();
        &&& is_addr(p, self._cr_cursor as int)
        &&& is_addr(p, self.cr_pesbt as int)
        &&& is_addr(p, self.cr_base as int)
        &&& self._cr_top < pow2(p.addr_width as nat + 1)
    }

    /// This capability after `[base, top)` is compressed into its metadata
    /// word, with the bounds cached as they decode against `base`.
    pub open spec fn after_set_bounds(self, base: int, top: int) -> Self {
        let p = T::spec_profile();
        let (ebt, ee) = spec_compress_bounds(p, base, top);
        let pesbt = with_bounds_part(p, self.cr_pesbt, ebt);
        let (new_base, new_top) = spec_bounds_of(p, pesbt, base);
        CcxCap {
            cr_pesbt: pesbt as u64,
            cr_base: new_base as u64,
            _cr_top: new_top as u128,
            cr_exp: ee as u8,
            ..self
        }
    }

    /// The capability held by the register-form metadata word `pesbt` and the
    /// address `cursor`, its bounds decoded against that address.
    pub open spec fn spec_decompress(pesbt: u64, cursor: u64, tag: bool) -> Self {
        let p = T::spec_profile();
        let (base, top) = spec_bounds_of(p, pesbt as int, cursor as int);
        CcxCap {
            _cr_cursor: cursor,
            cr_pesbt: pesbt,
            _cr_top: top as u128,
            cr_base: base as u64,
            cr_tag: if tag { 1 } else { 0 },
            cr_bounds_valid: 1,
            cr_exp: spec_extract_bounds_bits(p, pesbt as int).e,
            cr_extra: 0,
            profile: PhantomData,
        }
    }

    /// Whether compressing `[base, top)` into this capability gives exactly
    /// those bounds.
    pub open spec fn spec_set_bounds_exact(self, base: int, top: int) -> bool {
        let after = self.after_set_bounds(base, top);
        after.cr_base == base && after._cr_top == top
    }

    /// A tagged capability with every permission, unsealed, at `cursor`,
    /// before its bounds are set.
    pub open spec fn spec_max_perms_unbounded(cursor: u64) -> Self {
        CcxCap {
            _cr_cursor: cursor,
            cr_pesbt: spec_max_perms_pesbt(T::spec_profile()) as u64,
            _cr_top: 0,
            cr_base: 0,
            cr_tag: 1,
            cr_bounds_valid: 1,
            cr_exp: 0,
            cr_extra: 0,
            profile: PhantomData,
        }
    }

    /// The tag as a boolean.
    pub open spec fn spec_tag(self) -> bool {
        self.cr_tag != 0
    }

    pub open spec fn spec_otype(self) -> int {
        field_of(self.cr_pesbt, T::spec_profile().otype)
    }

    pub open spec fn spec_is_sealed(self) -> bool {
        self.spec_otype() != T::spec_profile().spec_otype_unsealed()
    }

    /// `top - base`, modulo 2^128.
    pub open spec fn spec_length(self) -> int {
        if self._cr_top >= self.cr_base {
            self._cr_top - self.cr_base
        } else {
            self._cr_top - self.cr_base + 0x1_0000_0000_0000_0000_0000_0000_0000_0000
        }
    }

    /// Whether moving the address to `addr` keeps the bounds: within them for
    /// a sealed capability; the metadata word decoding against `addr` to the
    /// bounds held for an unsealed one.
    pub open spec fn spec_representable_at(self, addr: int) -> bool {
        if self.spec_is_sealed() {
            self.cr_base <= addr < self._cr_top
        } else {
            spec_bounds_of(T::spec_profile(), self.cr_pesbt as int, addr) == (self.cr_base as int, self._cr_top as int)
        }
    }

    /// The bounds that the metadata word decodes to against the address.
    pub open spec fn spec_decoded_bounds(self) -> (int, int) {
        spec_bounds_of(T::spec_profile(), self.cr_pesbt as int, self._cr_cursor as int)
    }

    /// This capability with the metadata word `pesbt` and nothing else changed.
    pub open spec fn with_pesbt(self, pesbt: u64) -> Self {
        CcxCap { cr_pesbt: pesbt, ..self }
    }

    pub open spec fn with_tag(self, tag: u8) -> Self {
        CcxCap { cr_tag: tag, ..self }
    }

    pub open spec fn with_cursor(self, cursor: u64) -> Self {
        CcxCap { _cr_cursor: cursor, ..self }
    }
}

impl<T: CompressedCapability> CcxCap<T> {
    /// `(tag, [address, metadata word])`, the capability as a register holds it.
    pub fn reg_representation(&self) -> (r: (bool, [u64; 2]))
        ensures
            r.0 == self.spec_tag(),
            r.1@ == seq![self._cr_cursor, self.cr_pesbt],
    {
        let pesbt = T::compress_raw(self);
        let r = [self._cr_cursor, pesbt];
        proof {
            assert(r@ =~= seq![self._cr_cursor, self.cr_pesbt]);
        }
        (self.tag(), r)
    }

    /// `(tag, [address, metadata word])`, the capability as memory holds it.
    pub fn mem_representation(&self) -> (r: (bool, [u64; 2]))
        ensures
            r.0 == self.spec_tag(),
            r.1@ == seq![self._cr_cursor, self.cr_pesbt ^ T::spec_profile().null_xor_mask],
    {
        let pesbt = T::compress_mem(self);
        let r = [self._cr_cursor, pesbt];
        proof {
            assert(r@ =~= seq![self._cr_cursor, self.cr_pesbt ^ T::spec_profile().null_xor_mask]);
        }
        (self.tag(), r)
    }

    pub fn tag(&self) -> (r: bool)
        ensures
            r == self.spec_tag(),
    {
        self.cr_tag != 0
    }

    pub fn set_tag(&mut self, tag: bool)
        ensures
            *final(self) == old(self).with_tag(if tag { 1u8 } else { 0u8 }),
    {
        self.cr_tag = if tag { 1 } else { 0 };
    }

    pub fn base(&self) -> (r: u64)
        ensures
            r == self.cr_base,
    {
        self.cr_base
    }

    pub fn top(&self) -> (r: u128)
        ensures
            r == self._cr_top,
    {
        self._cr_top
    }

    pub fn bounds(&self) -> (r: (u64, u128))
        ensures
            r == (self.cr_base, self._cr_top),
    {
        (self.base(), self.top())
    }

    /// Compresses `[req_base, req_top)` into the metadata word and caches the
    /// bounds it decodes to against `req_base`; returns whether those are
    /// exactly the requested ones (otherwise they are wider). The address is
    /// left as it is.
    pub fn set_bounds_unchecked(&mut self, req_base: u64, req_top: u128) -> (exact: bool)
        requires
            old(self).wf(),
            old(self).spec_tag(),
            is_addr(T::spec_profile(), req_base as int),
            req_base <= req_top <= T::spec_profile().addr_limit(),
        ensures
            final(self).wf(),
            ({
                let g = pow2(spec_granule_bits(T::spec_profile(), req_base as int, req_top as int)) as int;
                &&& final(self).cr_base == (req_base as int / g) * g
                &&& final(self)._cr_top == ceil_div(req_top as int, g) * g
            }),
            *final(self) == old(self).after_set_bounds(req_base as int, req_top as int),
            exact == old(self).spec_set_bounds_exact(req_base as int, req_top as int),
    {
        proof {
            crate::laws::law_set_bounds_rounding(*self, req_base, req_top);
        }
        T::set_bounds(self, req_base, req_top)
    }

    pub fn address(&self) -> (r: u64)
        ensures
            r == self._cr_cursor,
    {
        self._cr_cursor
    }

    /// Moves the address without checking that the bounds survive the move.
    pub fn set_address_unchecked(&mut self, addr: u64)
        requires
            old(self).wf(),
            is_addr(T::spec_profile(), addr as int),
        ensures
            final(self).wf(),
            *final(self) == old(self).with_cursor(addr),
    {
        self._cr_cursor = addr;
    }

    /// The address relative to the base.
    pub fn offset(&self) -> (r: i128)
        ensures
            r == self._cr_cursor - self.cr_base,
    {
        self._cr_cursor as i128 - self.cr_base as i128
    }

    /// `top - base`, modulo 2^128 (top is below base only for a metadata
    /// word that no compression produces).
    pub fn length(&self) -> (r: u128)
        ensures
            r == self.spec_length(),
    {
        if self._cr_top >= self.cr_base as u128 {
            self._cr_top - self.cr_base as u128
        } else {
            self._cr_top + (u128::MAX - self.cr_base as u128) + 1
        }
    }

    pub fn software_permissions(&self) -> (r: u32)
        ensures
            r == field_of(self.cr_pesbt, T::spec_profile().uperms),
    {
        T::get_uperms(self)
    }

    pub fn set_software_permissions(&mut self, uperms: u32)
        requires
            old(self).wf(),
        ensures
            final(self).wf(),
            *final(self) == old(self).with_pesbt(
                deposit_of(old(self).cr_pesbt, T::spec_profile().uperms, uperms as int) as u64,
            ),
            field_of(final(self).cr_pesbt, T::spec_profile().uperms) == uperms as int % pow2(
                T::spec_profile().uperms.size as nat,
            ) as int,
    {
        proof {
            T::lemma_profile_valid();
            lemma2_to64();
            lemma_deposit_bound(
                self.cr_pesbt as int,
                T::spec_profile().uperms.start as nat,
                T::spec_profile().uperms.size as nat,
                uperms as int,
                T::spec_profile().addr_width as nat,
            );
            lemma_field_of_deposit(
                self.cr_pesbt as int,
                T::spec_profile().uperms.start as nat,
                T::spec_profile().uperms.size as nat,
                uperms as int,
            );
        }
        T::update_uperms(self, uperms)
    }

    pub fn permissions(&self) -> (r: u32)
        ensures
            r == field_of(self.cr_pesbt, T::spec_profile().perms),
    {
        T::get_perms(self)
    }

    pub fn set_permissions(&mut self, perms: u32)
        requires
            old(self).wf(),
        ensures
            final(self).wf(),
            *final(self) == old(self).with_pesbt(
                deposit_of(old(self).cr_pesbt, T::spec_profile().perms, perms as int) as u64,
            ),
            field_of(final(self).cr_pesbt, T::spec_profile().perms) == perms as int % pow2(
                T::spec_profile().perms.size as nat,
            ) as int,
    {
        proof {
            T::lemma_profile_valid();
            lemma2_to64();
            lemma_deposit_bound(
                self.cr_pesbt as int,
                T::spec_profile().perms.start as nat,
                T::spec_profile().perms.size as nat,
                perms as int,
                T::spec_profile().addr_width as nat,
            );
            lemma_field_of_deposit(
                self.cr_pesbt as int,
                T::spec_profile().perms.start as nat,
                T::spec_profile().perms.size as nat,
                perms as int,
            );
        }
        T::update_perms(self, perms)
    }

    pub fn otype(&self) -> (r: u32)
        ensures
            r == self.spec_otype(),
    {
        T::get_otype(self)
    }

    pub fn is_sealed(&self) -> (r: bool)
        ensures
            r == self.spec_is_sealed(),
    {
        let p = T::profile();
        proof {
            T::lemma_profile_valid();
        }
        self.otype() != p.otype_unsealed()
    }

    pub fn set_otype(&mut self, otype: u32)
        requires
            old(self).wf(),
        ensures
            final(self).wf(),
            *final(self) == old(self).with_pesbt(
                deposit_of(old(self).cr_pesbt, T::spec_profile().otype, otype as int) as u64,
            ),
            field_of(final(self).cr_pesbt, T::spec_profile().otype) == otype as int % pow2(
                T::spec_profile().otype.size as nat,
            ) as int,
    {
        proof {
            T::lemma_profile_valid();
            lemma2_to64();
            lemma_deposit_bound(
                self.cr_pesbt as int,
                T::spec_profile().otype.start as nat,
                T::spec_profile().otype.size as nat,
                otype as int,
                T::spec_profile().addr_width as nat,
            );
            lemma_field_of_deposit(
                self.cr_pesbt as int,
                T::spec_profile().otype.start as nat,
                T::spec_profile().otype.size as nat,
                otype as int,
            );
        }
        T::update_otype(self, otype)
    }

    pub fn reserved_bits(&self) -> (r: u8)
        ensures
            r == field_of(self.cr_pesbt, T::spec_profile().reserved),
    {
        T::get_reserved(self)
    }

    pub fn set_reserved_bits(&mut self, bits: u8)
        requires
            old(self).wf(),
        ensures
            final(self).wf(),
            *final(self) == old(self).with_pesbt(
                deposit_of(old(self).cr_pesbt, T::spec_profile().reserved, bits as int) as u64,
            ),
            field_of(final(self).cr_pesbt, T::spec_profile().reserved) == bits as int % pow2(
                T::spec_profile().reserved.size as nat,
            ) as int,
    {
        proof {
            T::lemma_profile_valid();
            lemma2_to64();
            lemma_deposit_bound(
                self.cr_pesbt as int,
                T::spec_profile().reserved.start as nat,
                T::spec_profile().reserved.size as nat,
                bits as int,
                T::spec_profile().addr_width as nat,
            );
            lemma_field_of_deposit(
                self.cr_pesbt as int,
                T::spec_profile().reserved.start as nat,
                T::spec_profile().reserved.size as nat,
                bits as int,
            );
        }
        T::update_reserved(self, bits)
    }

    pub fn flags(&self) -> (r: u8)
        ensures
            r == field_of(self.cr_pesbt, T::spec_profile().flags),
    {
        T::get_flags(self)
    }

    pub fn set_flags(&mut self, flags: u8)
        requires
            old(self).wf(),
        ensures
            final(self).wf(),
            *final(self) == old(self).with_pesbt(
                deposit_of(old(self).cr_pesbt, T::spec_profile().flags, flags as int) as u64,
            ),
            field_of(final(self).cr_pesbt, T::spec_profile().flags) == flags as int % pow2(
                T::spec_profile().flags.size as nat,
            ) as int,
    {
        proof {
            T::lemma_profile_valid();
            lemma2_to64();
            lemma_deposit_bound(
                self.cr_pesbt as int,
                T::spec_profile().flags.start as nat,
                T::spec_profile().flags.size as nat,
                flags as int,
                T::spec_profile().addr_width as nat,
            );
            lemma_field_of_deposit(
                self.cr_pesbt as int,
                T::spec_profile().flags.start as nat,
                T::spec_profile().flags.size as nat,
                flags as int,
            );
        }
        T::update_flags(self, flags)
    }

    /// Whether the metadata word, decoded against the address, gives the
    /// bounds this capability holds: false where the address has left the
    /// region in which the compressed bounds decode as they did.
    pub fn is_exact(&self) -> (r: bool)
        requires
            self.wf(),
        ensures
            r == (self.spec_decoded_bounds() == (self.cr_base as int, self._cr_top as int)),
    {
        T::is_representable_cap_exact(self)
    }

    /// Whether moving the address to `new_addr` keeps the bounds: for a
    /// sealed capability, whether `new_addr` lies within them; otherwise,
    /// whether the metadata word decodes against `new_addr` to the bounds
    /// this capability holds.
    pub fn is_representable_with_new_addr(&self, new_addr: u64) -> (r: bool)
        requires
            self.wf(),
            is_addr(T::spec_profile(), new_addr as int),
        ensures
            r == self.spec_representable_at(new_addr as int),
    {
        if self.is_sealed() {
            self.cr_base <= new_addr && (new_addr as u128) < self._cr_top
        } else {
            let p = T::profile();
            proof {
                T::lemma_profile_valid();
            }
            let bb = extract_bounds_bits(&p, self.cr_pesbt);
            let (base, top) = decode_bounds(&p, &bb, new_addr);
            base == self.cr_base && top == self._cr_top
        }
    }
}

/// Two capabilities are equal when tag (as a boolean), address and metadata
/// word are: the
/// cached bounds follow from the latter two.
impl<T: CapProfile> PartialEq for CcxCap<T> {
    fn eq(&self, other: &Self) -> (r: bool) {
        (self.cr_tag != 0) == (other.cr_tag != 0) && self._cr_cursor == other._cr_cursor && self.cr_pesbt == other.cr_pesbt
    }
}

impl<T: CapProfile> vstd::std_specs::cmp::PartialEqSpecImpl for CcxCap<T> {
    open spec fn obeys_eq_spec() -> bool {
        true
    }

    open spec fn eq_spec(&self, other: &Self) -> bool {
        (self.cr_tag != 0) == (other.cr_tag != 0) && self._cr_cursor == other._cr_cursor && self.cr_pesbt == other.cr_pesbt
    }
}

impl<T: CapProfile> Eq for CcxCap<T> {}

/// Every field zero: plain data, not a capability.
impl<T: CapProfile> Default for CcxCap<T> {
    fn default() -> (r: Self)
        ensures
            r._cr_cursor == 0 && r.cr_pesbt == 0 && r._cr_top == 0 && r.cr_base == 0,
            r.cr_tag == 0 && r.cr_bounds_valid == 0 && r.cr_exp == 0 && r.cr_extra == 0,
    {
        CcxCap {
            _cr_cursor: 0,
            cr_pesbt: 0,
            _cr_top: 0,
            cr_base: 0,
            cr_tag: 0,
            cr_bounds_valid: 0,
            cr_exp: 0,
            cr_extra: 0,
            profile: PhantomData,
        }
    }
}

impl CapProfile for Cc64 {
    open spec fn spec_profile() -> Profile {
        cc64_profile()
    }

    proof fn lemma_profile_valid() {
    }

    fn profile() -> (r: Profile) {
        make_cc64_profile()
    }
}

impl CapProfile for Cc128 {
    open spec fn spec_profile() -> Profile {
        cc128_profile()
    }

    proof fn lemma_profile_valid() {
    }

    fn profile() -> (r: Profile) {
        make_cc128_profile()
    }
}

impl CompressedCapability for Cc64 {}

impl CompressedCapability for Cc128 {}

} // verus!
