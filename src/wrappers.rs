//! Capability operations in the shape that instruction semantics use: each
//! takes a capability and returns a new one, with a representability flag
//! where the operation may lose the bounds.
use vstd::prelude::*;
use vstd::arithmetic::power2::pow2;
use crate::bits::pow2_u128;
use crate::bounds::{spec_representable_length, spec_alignment_mask};
use crate::cap::{CcxCap, CompressedCapability, is_addr, deposit_of, field_of};

verus! {

/// Whether moving `c` to `addr` keeps its bounds.
pub open spec fn representable_at<T: CompressedCapability>(c: CcxCap<T>, addr: int) -> bool {
    c.spec_representable_at(addr)
}

#[allow(non_snake_case)]
pub trait CheriRVFuncs<T: CompressedCapability> {
    fn getCapBounds(c: &CcxCap<T>) -> (r: (u64, u128))
        ensures
            r == (c.cr_base, c._cr_top),
    ;

    fn getCapBaseBits(c: &CcxCap<T>) -> (r: u64)
        ensures
            r == c.cr_base,
    ;

    fn getCapTop(c: &CcxCap<T>) -> (r: u128)
        ensures
            r == c._cr_top,
    ;

    fn getCapLength(c: &CcxCap<T>) -> (r: u128)
        ensures
            r == c.spec_length(),
    ;

    /// Whether `[addr, addr + size)` lies within the bounds.
    fn inCapBounds(c: &CcxCap<T>, addr: u64, size: u128) -> (r: bool)
        ensures
            r == (addr >= c.cr_base && addr + size <= c._cr_top),
    ;

    fn getCapCursor(c: &CcxCap<T>) -> (r: u64)
        ensures
            r == c._cr_cursor,
    ;

    /// The address minus the base, as an address (modulo the address space).
    fn getCapOffsetBits(c: &CcxCap<T>) -> (r: u64)
        requires
            c.wf(),
        ensures
            r == (c._cr_cursor - c.cr_base) % (T::spec_profile().addr_limit() as int),
    ;

    /// Sets the bounds; the flag tells whether they are exactly `[base, top)`.
    fn setCapBounds(c: &CcxCap<T>, base: u64, top: u128) -> (r: (bool, CcxCap<T>))
        requires
            c.wf(),
            c.spec_tag(),
            is_addr(T::spec_profile(), base as int),
            base <= top <= T::spec_profile().addr_limit(),
        ensures
            r.1.wf(),
            r.1 == c.after_set_bounds(base as int, top as int),
            r.0 == c.spec_set_bounds_exact(base as int, top as int),
    ;

    /// Moves the address; the flag tells whether the bounds survive the move.
    fn setCapAddr(c: &CcxCap<T>, addr: u64) -> (r: (bool, CcxCap<T>))
        requires
            c.wf(),
            is_addr(T::spec_profile(), addr as int),
        ensures
            r.1.wf(),
            r.1 == c.with_cursor(addr),
            r.0 == representable_at(*c, addr as int),
    ;

    /// Moves the address to `base + offset` (modulo the address space).
    fn setCapOffset(c: &CcxCap<T>, offset: u64) -> (r: (bool, CcxCap<T>))
        requires
            c.wf(),
            is_addr(T::spec_profile(), offset as int),
        ensures
            r.1.wf(),
            r.1._cr_cursor == (c.cr_base + offset) % (T::spec_profile().addr_limit() as int),
            r.1 == c.with_cursor(r.1._cr_cursor),
            r.0 == representable_at(*c, r.1._cr_cursor as int),
    ;

    /// Moves the address by `offset_inc` (modulo the address space).
    fn incCapOffset(c: &CcxCap<T>, offset_inc: u64) -> (r: (bool, CcxCap<T>))
        requires
            c.wf(),
            is_addr(T::spec_profile(), offset_inc as int),
        ensures
            r.1.wf(),
            r.1._cr_cursor == (c._cr_cursor + offset_inc) % (T::spec_profile().addr_limit() as int),
            r.1 == c.with_cursor(r.1._cr_cursor),
            r.0 == representable_at(*c, r.1._cr_cursor as int),
    ;

    fn getRepresentableAlignmentMask(val: u128) -> (r: u128)
        requires
            val <= T::spec_profile().addr_limit(),
        ensures
            r == spec_alignment_mask(T::spec_profile(), val as nat),
    ;

    fn getRepresentableLength(val: u128) -> (r: u128)
        requires
            val <= T::spec_profile().addr_limit(),
        ensures
            r == spec_representable_length(T::spec_profile(), val as nat),
    ;

    /// Seals with the object type `otype`, which must not be the unsealed one.
    fn sealCap(c: &CcxCap<T>, otype: u32) -> (r: CcxCap<T>)
        requires
            c.wf(),
            otype != T::spec_profile().spec_otype_unsealed(),
        ensures
            r.wf(),
            r == c.with_pesbt(deposit_of(c.cr_pesbt, T::spec_profile().otype, otype as int) as u64),
            r.spec_otype() == otype as int % pow2(T::spec_profile().otype.size as nat) as int,
            otype < pow2(T::spec_profile().otype.size as nat) ==> r.spec_is_sealed(),
    ;

    fn unsealCap(c: &CcxCap<T>) -> (r: CcxCap<T>)
        requires
            c.wf(),
        ensures
            r.wf(),
            r == c.with_pesbt(
                deposit_of(c.cr_pesbt, T::spec_profile().otype, T::spec_profile().spec_otype_unsealed()) as u64,
            ),
            !r.spec_is_sealed(),
    ;

    fn isCapSealed(c: &CcxCap<T>) -> (r: bool)
        ensures
            r == c.spec_is_sealed(),
    ;

    /// Whether the object type is one of the reserved ones (or unsealed).
    fn hasReservedOType(c: &CcxCap<T>) -> (r: bool)
        ensures
            r == (c.spec_otype() > T::spec_profile().spec_max_unreserved_otype()),
    ;

    /// Clears the tag.
    fn invalidateCap(c: &CcxCap<T>) -> (r: CcxCap<T>)
        ensures
            r == c.with_tag(0),
    ;

    fn getCapPerms(c: &CcxCap<T>) -> (r: u32)
        ensures
            r == field_of(c.cr_pesbt, T::spec_profile().perms),
    ;

    fn setCapPerms(c: &CcxCap<T>, perms: u32) -> (r: CcxCap<T>)
        requires
            c.wf(),
        ensures
            r.wf(),
            r == c.with_pesbt(deposit_of(c.cr_pesbt, T::spec_profile().perms, perms as int) as u64),
            field_of(r.cr_pesbt, T::spec_profile().perms) == perms as int % pow2(
                T::spec_profile().perms.size as nat,
            ) as int,
    ;

    fn getCapFlags(c: &CcxCap<T>) -> (r: u8)
        ensures
            r == field_of(c.cr_pesbt, T::spec_profile().flags),
    ;

    fn setCapFlags(c: &CcxCap<T>, flags: u8) -> (r: CcxCap<T>)
        requires
            c.wf(),
        ensures
            r.wf(),
            r == c.with_pesbt(deposit_of(c.cr_pesbt, T::spec_profile().flags, flags as int) as u64),
            field_of(r.cr_pesbt, T::spec_profile().flags) == flags as int % pow2(
                T::spec_profile().flags.size as nat,
            ) as int,
    ;
}

#[allow(non_snake_case)]
impl<T: CompressedCapability> CheriRVFuncs<T> for T {
    fn getCapBounds(c: &CcxCap<T>) -> (r: (u64, u128)) {
        c.bounds()
    }

    fn getCapBaseBits(c: &CcxCap<T>) -> (r: u64) {
        c.base()
    }

    fn getCapTop(c: &CcxCap<T>) -> (r: u128) {
        c.top()
    }

    fn getCapLength(c: &CcxCap<T>) -> (r: u128) {
        c.length()
    }

    fn inCapBounds(c: &CcxCap<T>, addr: u64, size: u128) -> (r: bool) {
        addr >= c.base() && size <= c.top() && addr as u128 <= c.top() - size
    }

    fn getCapCursor(c: &CcxCap<T>) -> (r: u64) {
        c.address()
    }

    fn getCapOffsetBits(c: &CcxCap<T>) -> (r: u64) {
        let p = T::profile();
        proof {
            T::lemma_profile_valid();
            crate::bounds::lemma_profile_facts(p);
        }
        let limit = pow2_u128(p.addr_width);
        proof {
            vstd::arithmetic::div_mod::lemma_mod_add_multiples_vanish(
                c._cr_cursor - c.cr_base, limit as int);
        }
        ((c.address() as u128 + limit - c.base() as u128) % limit) as u64
    }

    fn setCapBounds(c: &CcxCap<T>, base: u64, top: u128) -> (r: (bool, CcxCap<T>)) {
        let mut c = *c;
        let exact = c.set_bounds_unchecked(base, top);
        (exact, c)
    }

    fn setCapAddr(c: &CcxCap<T>, addr: u64) -> (r: (bool, CcxCap<T>)) {
        let representable = c.is_representable_with_new_addr(addr);
        let mut c = *c;
        c.set_address_unchecked(addr);
        (representable, c)
    }

    fn setCapOffset(c: &CcxCap<T>, offset: u64) -> (r: (bool, CcxCap<T>)) {
        let p = T::profile();
        proof {
            T::lemma_profile_valid();
            crate::bounds::lemma_profile_facts(p);
        }
        let limit = pow2_u128(p.addr_width);
        let new_address = ((c.base() as u128 + offset as u128) % limit) as u64;
        let representable = c.is_representable_with_new_addr(new_address);
        let mut c = *c;
        c.set_address_unchecked(new_address);
        (representable, c)
    }

    fn incCapOffset(c: &CcxCap<T>, offset_inc: u64) -> (r: (bool, CcxCap<T>)) {
        let p = T::profile();
        proof {
            T::lemma_profile_valid();
            crate::bounds::lemma_profile_facts(p);
        }
        let limit = pow2_u128(p.addr_width);
        let new_address = ((c.address() as u128 + offset_inc as u128) % limit) as u64;
        let representable = c.is_representable_with_new_addr(new_address);
        let mut c = *c;
        c.set_address_unchecked(new_address);
        (representable, c)
    }

    fn getRepresentableAlignmentMask(val: u128) -> (r: u128) {
        T::get_alignment_mask(val)
    }

    fn getRepresentableLength(val: u128) -> (r: u128) {
        T::get_representable_length(val)
    }

    fn sealCap(c: &CcxCap<T>, otype: u32) -> (r: CcxCap<T>) {
        let mut c = *c;
        c.set_otype(otype);
        proof {
            vstd::arithmetic::power2::lemma_pow2_pos(T::spec_profile().otype.size as nat);
            if otype < pow2(T::spec_profile().otype.size as nat) {
                vstd::arithmetic::div_mod::lemma_small_mod(otype as nat, pow2(T::spec_profile().otype.size as nat));
            }
        }
        c
    }

    fn unsealCap(c: &CcxCap<T>) -> (r: CcxCap<T>) {
        let p = T::profile();
        proof {
            T::lemma_profile_valid();
        }
        let mut c = *c;
        c.set_otype(p.otype_unsealed());
        proof {
            vstd::arithmetic::power2::lemma_pow2_pos(p.otype.size as nat);
            vstd::arithmetic::div_mod::lemma_small_mod(
                p.spec_otype_unsealed() as nat,
                pow2(p.otype.size as nat),
            );
        }
        c
    }

    fn isCapSealed(c: &CcxCap<T>) -> (r: bool) {
        c.is_sealed()
    }

    fn hasReservedOType(c: &CcxCap<T>) -> (r: bool) {
        let p = T::profile();
        proof {
            T::lemma_profile_valid();
        }
        c.otype() > p.max_unreserved_otype()
    }

    fn invalidateCap(c: &CcxCap<T>) -> (r: CcxCap<T>) {
        let mut c = *c;
        c.set_tag(false);
        c
    }

    fn getCapPerms(c: &CcxCap<T>) -> (r: u32) {
        c.permissions()
    }

    fn setCapPerms(c: &CcxCap<T>, perms: u32) -> (r: CcxCap<T>) {
        let mut c = *c;
        c.set_permissions(perms);
        c
    }

    fn getCapFlags(c: &CcxCap<T>) -> (r: u8) {
        c.flags()
    }

    fn setCapFlags(c: &CcxCap<T>, flags: u8) -> (r: CcxCap<T>) {
        let mut c = *c;
        c.set_flags(flags);
        c
    }
}

} // verus!
