//! Properties that relate several operations of the library.
use vstd::prelude::*;
use vstd::arithmetic::power2::{pow2, lemma_pow2_adds, lemma_pow2_pos, lemma2_to64, lemma_pow2_strictly_increases};
use vstd::arithmetic::div_mod::{lemma_fundamental_div_mod, lemma_multiply_divide_lt, lemma_div_pos_is_pos, lemma_mod_pos_bound};
use crate::bits::{field, ceil_div, lemma_ceil_div, lemma_ceil_div_le};
use crate::bounds::{
    spec_bounds_of,
    bit_len, lemma_bit_len_bound, lemma_profile_facts, spec_length_exponent, spec_compress_bounds,
    spec_alignment_bits, spec_required_alignment, spec_representable_length,
};
use crate::cap::{CcxCap, CompressedCapability, is_addr, with_bounds_part};
use crate::soundness::{
    lemma_length_exponent,
    spec_granule_bits, lemma_decode_compressed, lemma_extract_low_deposit, lemma_granule_aligned,
};
use crate::profile::{Profile, valid_profile};

verus! {

/// Decoding a metadata word with an address and a tag, then encoding the
/// capability again, gives back the same word, the same address and the same
/// tag: in register form, and in memory form.
pub proof fn law_round_trip<T: CompressedCapability>(bits: u64, cursor: u64, tag: bool)
    requires
        is_addr(T::spec_profile(), bits as int),
        is_addr(T::spec_profile(), cursor as int),
    ensures
        CcxCap::<T>::spec_decompress(bits, cursor, tag).cr_pesbt == bits,
        CcxCap::<T>::spec_decompress(bits, cursor, tag)._cr_cursor == cursor,
        CcxCap::<T>::spec_decompress(bits, cursor, tag).spec_tag() == tag,
        CcxCap::<T>::spec_decompress(bits ^ T::spec_profile().null_xor_mask, cursor, tag).cr_pesbt
            ^ T::spec_profile().null_xor_mask == bits,
        CcxCap::<T>::spec_decompress(bits ^ T::spec_profile().null_xor_mask, cursor, tag)._cr_cursor == cursor,
        CcxCap::<T>::spec_decompress(bits ^ T::spec_profile().null_xor_mask, cursor, tag).spec_tag() == tag,
{
    let m = T::spec_profile().null_xor_mask;
    assert((bits ^ m) ^ m == bits) by (bit_vector);
}

/// When setting the bounds reports an exact result, the capability's base and
/// top are the requested ones.
pub proof fn law_exact_bounds<T: CompressedCapability>(c: CcxCap<T>, base: u64, top: u128)
    requires
        c.wf(),
        is_addr(T::spec_profile(), base as int),
        base <= top <= T::spec_profile().addr_limit(),
    ensures
        c.spec_set_bounds_exact(base as int, top as int) ==> c.after_set_bounds(base as int, top as int).cr_base
            == base && c.after_set_bounds(base as int, top as int)._cr_top == top,
{
}

/// A number whose highest set bit is bit `k - 1` has `k` significant bits.
proof fn lemma_bit_len_exact(x: nat, k: nat)
    requires
        k >= 1 ==> pow2((k - 1) as nat) <= x,
        x < pow2(k),
    ensures
        bit_len(x) == k,
{
    lemma_bit_len_bound(x, k);
    let b = bit_len(x);
    if k >= 1 {
        lemma_pow2_pos((k - 1) as nat);
        if b < k {
            if b == 0 {
            } else {
                lemma_pow2_strictly_increases(b, k);
                if b < (k - 1) as nat {
                    lemma_pow2_strictly_increases(b, (k - 1) as nat);
                }
            }
        }
    } else {
    }
}

/// How the alignment of a length is chosen: none below a quarter of the
/// mantissa range; otherwise `2^(k + 3)` for the length's exponent `k`, or
/// twice that where rounding up to it fills the mantissa.
proof fn lemma_alignment_bits(p: Profile, n: nat)
    requires
        valid_profile(p),
        n <= p.addr_limit(),
    ensures
        ({
            let mw = p.mantissa_width as nat;
            let k = spec_length_exponent(p, n);
            &&& k <= p.max_exponent
            &&& n < pow2((k + mw - 1) as nat)
            &&& k >= 1 ==> n >= pow2((k + mw - 2) as nat)
            &&& n < pow2((mw - 2) as nat) ==> spec_alignment_bits(p, n) == 0
            &&& n >= pow2((mw - 2) as nat) ==> {
                let c = ceil_div(n as int, pow2(k + 3) as int);
                &&& c <= pow2((mw - 4) as nat)
                &&& spec_alignment_bits(p, n) == if c == pow2((mw - 4) as nat) { k + 4 } else { k + 3 }
            }
        }),
{
    lemma_profile_facts(p);
    lemma2_to64();
    let mw = p.mantissa_width as nat;
    let aw = p.addr_width as nat;
    let k = spec_length_exponent(p, n);
    lemma_length_exponent(p, n);
    let (ebt, ee) = spec_compress_bounds(p, 0, n as int);
    let q = pow2((mw - 2) as nat);
    lemma_pow2_adds((mw - 2) as nat, 1);
    if n < q {
        // no internal exponent: the flag bit stays clear
        assert(k == 0) by {
            if k >= 1 {
                lemma_pow2_strictly_increases((mw - 2) as nat, (k + mw - 2) as nat);
            }
        }
        assert(field(n as int, (mw - 2) as nat, 1) == 0) by {
            vstd::arithmetic::div_mod::lemma_basic_div(n as int, q as int);
        }
        lemma_pow2_adds((mw - 2) as nat, mw);
        assert((mw - 2) as nat + mw == (2 * mw - 2) as nat);
        lemma_pow2_pos(mw);
        lemma_mod_pos_bound(n as int, q as int);
        vstd::arithmetic::div_mod::lemma_small_mod(0, pow2(mw));
        assert((n as int % q as int) * pow2(mw) < q * pow2(mw)) by (nonlinear_arith)
            requires (n as int % q as int) < q, pow2(mw) > 0;
        assert(ebt == (n as int % q as int) * pow2(mw) + 0int % pow2(mw) as int);
        assert(ebt < pow2((2 * mw - 2) as nat));
    } else {
        assert(k != 0 || field(n as int, (mw - 2) as nat, 1) == 1) by {
            if k == 0 {
                assert(n < 2 * q);
                vstd::arithmetic::div_mod::lemma_fundamental_div_mod_converse(n as int, q as int, 1, n - q);
            }
        }
        let w = (mw - 3) as nat;
        let m = pow2(w) as int;
        let a = pow2(k + 3) as int;
        lemma_pow2_pos(k + 3);
        let qt = n as int / a;
        let lost = n as int % a != 0;
        lemma_ceil_div(n as int, a);
        let c = ceil_div(n as int, a);
        // n < 2^(k + mw - 1) = 2^(k + 3) * 2^(mw - 4)
        lemma_pow2_adds(k + 3, (mw - 4) as nat);
        lemma_multiply_divide_lt(n as int, a, pow2((mw - 4) as nat) as int);
        lemma_pow2_adds((mw - 4) as nat, 1);
        assert(c <= pow2((mw - 4) as nat));
        vstd::arithmetic::div_mod::lemma_small_mod(qt as nat, m as nat);
        assert(field(n as int, k + 3, w) == qt);
        let t1 = (qt + if lost { 1int } else { 0 }) % m;
        vstd::arithmetic::div_mod::lemma_small_mod(c as nat, m as nat);
        assert(t1 == c);
        assert(field(0, k + 3, w) == 0) by {
            vstd::arithmetic::div_mod::lemma_div_of0(pow2(k + 3) as int);
            vstd::arithmetic::div_mod::lemma_small_mod(0, pow2(w));
        }
        vstd::arithmetic::div_mod::lemma_small_mod(c as nat, m as nat);
        assert((t1 - 0) % m == c);
        let hb = pow2((mw - 4) as nat) as int;
        let grew = field(c, (mw - 4) as nat, 1) == 1;
        if c == hb {
            vstd::arithmetic::div_mod::lemma_div_by_self(hb);
            assert(grew);
        } else {
            assert(c / hb == 0) by {
                vstd::arithmetic::div_mod::lemma_basic_div(c, hb);
            }
            assert(!grew);
        }
        assert(ebt >= pow2((2 * mw - 2) as nat));
    }
}

proof fn lemma_representable_length_is_ceil(p: Profile, n: nat)
    requires
        valid_profile(p),
        n <= p.addr_limit(),
    ensures
        spec_representable_length(p, n) == ceil_div(n as int, spec_required_alignment(p, n) as int)
            * spec_required_alignment(p, n),
        spec_representable_length(p, n) >= n,
{
    let a = spec_required_alignment(p, n) as int;
    lemma_pow2_pos(spec_alignment_bits(p, n));
    lemma_ceil_div(n as int, a);
}

/// The rounding law over a profile.
proof fn lemma_representable_length(p: Profile, n: nat)
    requires
        valid_profile(p),
        n <= p.addr_limit(),
    ensures
        n <= spec_representable_length(p, n) <= p.addr_limit(),
        spec_representable_length(p, spec_representable_length(p, n)) == spec_representable_length(p, n),
        spec_alignment_bits(p, spec_representable_length(p, n)) == spec_alignment_bits(p, n),
{
    lemma_profile_facts(p);
    lemma2_to64();
    let mw = p.mantissa_width as nat;
    let aw = p.addr_width as nat;
    lemma_alignment_bits(p, n);
    lemma_representable_length_is_ceil(p, n);
    let k = spec_length_exponent(p, n);
    let q = pow2((mw - 2) as nat);
    let rl = spec_representable_length(p, n);
    if n < q {
        assert(spec_required_alignment(p, n) == 1);
        lemma_ceil_div(n as int, 1);
        assert(rl == n);
        return;
    }
    let a = pow2(k + 3) as int;
    lemma_pow2_pos(k + 3);
    let c = ceil_div(n as int, a);
    lemma_ceil_div(n as int, a);
    let d = pow2((mw - 1) as nat);
    lemma_pow2_pos((mw - 1) as nat);
    let limit = pow2(aw) as int;
    if c < pow2((mw - 4) as nat) {
        // the alignment is 2^(k + 3), and rounding up keeps the exponent
        assert(spec_required_alignment(p, n) == a);
        assert(rl == c * a);
        lemma_pow2_adds(k + 3, (aw - (k + 3)) as nat);
        assert(k + 3 + (aw - (k + 3)) as nat == aw);
        vstd::arithmetic::mul::lemma_mul_is_commutative(a, pow2((aw - (k + 3)) as nat) as int);
        lemma_ceil_div_le(n as int, a, pow2((aw - (k + 3)) as nat) as int);
        assert(c * a <= pow2((aw - (k + 3)) as nat) * a) by (nonlinear_arith)
            requires c <= pow2((aw - (k + 3)) as nat), a > 0;
        assert(rl <= limit);
        lemma_pow2_adds(k + 3, (mw - 4) as nat);
        assert(c * a < pow2((mw - 4) as nat) * a) by (nonlinear_arith)
            requires c < pow2((mw - 4) as nat), a > 0;
        assert(k + 3 + (mw - 4) as nat == (k + mw - 1) as nat);
        assert(pow2((k + mw - 1) as nat) == a * pow2((mw - 4) as nat));
        vstd::arithmetic::mul::lemma_mul_is_commutative(a, pow2((mw - 4) as nat) as int);
        assert(rl < pow2((k + mw - 1) as nat));
        lemma_pow2_adds((mw - 1) as nat, k);
        lemma_multiply_divide_lt(rl as int, d as int, pow2(k) as int);
        if k >= 1 {
            lemma_pow2_adds((mw - 1) as nat, (k - 1) as nat);
            vstd::arithmetic::div_mod::lemma_div_is_ordered(
                (d * pow2((k - 1) as nat)) as int, rl as int, d as int);
            vstd::arithmetic::div_mod::lemma_div_multiples_vanish(pow2((k - 1) as nat) as int, d as int);
        }
        lemma_bit_len_exact(rl / d, k);
        assert(spec_length_exponent(p, rl) == k);
        lemma_alignment_bits(p, rl);
        vstd::arithmetic::div_mod::lemma_mod_multiples_basic(c, a);
        lemma_ceil_div(rl as int, a);
        vstd::arithmetic::div_mod::lemma_div_multiples_vanish(c, a);
        vstd::arithmetic::mul::lemma_mul_is_commutative(c, a);
        assert(ceil_div(rl as int, a) == c);
        assert(spec_required_alignment(p, rl) == a);
        lemma_representable_length_is_ceil(p, rl);
    } else {
        // rounding fills the mantissa: the alignment doubles and the length
        // becomes the power of two 2^(k + mw - 1)
        let hh = pow2((mw - 5) as nat) as int;
        let b = pow2(k + 4) as int;
        lemma_pow2_adds(k + 3, 1);
        lemma_pow2_adds((mw - 5) as nat, 1);
        assert(c == 2 * hh);
        assert(spec_required_alignment(p, n) == b);
        lemma_pow2_pos((mw - 5) as nat);
        assert((c - 1) * a < n);
        assert(n <= c * a);
        assert(n <= hh * b) by (nonlinear_arith)
            requires n <= c * a, c == 2 * hh, b == a * 2;
        assert(n > (hh - 1) * b) by (nonlinear_arith)
            requires (c - 1) * a < n, c == 2 * hh, b == a * 2, a > 0, hh >= 1;
        lemma_ceil_div_le(n as int, b, hh);
        lemma_ceil_div(n as int, b);
        let cb = ceil_div(n as int, b);
        assert(cb >= hh) by (nonlinear_arith)
            requires cb * b >= n, n > (hh - 1) * b, b > 0;
        assert(rl == hh * b);
        lemma_pow2_adds((mw - 5) as nat, k + 4);
        assert(rl == pow2((k + mw - 1) as nat));
        assert(k + mw - 1 <= aw) by {
            if k + mw - 1 > aw {
                lemma_pow2_adds((mw - 5) as nat, k + 3);
                assert(hh * a <= (c - 1) * a) by (nonlinear_arith)
                    requires c == 2 * hh, hh >= 1, a > 0;
                lemma_pow2_strictly_increases(aw, (k + mw - 2) as nat);
                if aw < (k + mw - 2) as nat {
                } else {
                }
            }
        }
        if k + mw - 1 < aw {
            lemma_pow2_strictly_increases((k + mw - 1) as nat, aw);
        }
        assert(rl <= limit);
        // the exponent of the rounded length is k + 1
        lemma_pow2_adds((mw - 1) as nat, k);
        vstd::arithmetic::div_mod::lemma_div_multiples_vanish(pow2(k) as int, d as int);
        assert(rl / d == pow2(k));
        lemma_pow2_strictly_increases(k, k + 1);
        lemma_bit_len_exact(pow2(k), k + 1);
        assert(spec_length_exponent(p, rl) == k + 1);
        lemma_alignment_bits(p, rl);
        vstd::arithmetic::div_mod::lemma_mod_multiples_basic(hh, b);
        lemma_ceil_div(rl as int, b);
        vstd::arithmetic::div_mod::lemma_div_multiples_vanish(hh, b);
        vstd::arithmetic::mul::lemma_mul_is_commutative(hh, b);
        assert(ceil_div(rl as int, b) == hh);
        lemma_pow2_strictly_increases((mw - 5) as nat, (mw - 4) as nat);
        lemma_pow2_strictly_increases((mw - 2) as nat, (k + mw - 1) as nat);
        assert(spec_required_alignment(p, rl) == b);
        lemma_representable_length_is_ceil(p, rl);
    }
}

/// Rounding a length up to a representable one never shrinks it, stays within
/// the address space, and changes nothing when done a second time.
pub proof fn law_representable_length<T: CompressedCapability>(n: u128)
    requires
        n <= T::spec_profile().addr_limit(),
    ensures
        spec_representable_length(T::spec_profile(), n as nat) >= n,
        spec_representable_length(T::spec_profile(), n as nat) <= T::spec_profile().addr_limit(),
        spec_representable_length(T::spec_profile(), spec_representable_length(T::spec_profile(), n as nat))
            == spec_representable_length(T::spec_profile(), n as nat),
{
    T::lemma_profile_valid();
    lemma_representable_length(T::spec_profile(), n as nat);
}

/// The bounds that setting `[base, top)` leaves: the base rounded down and
/// the top rounded up to a multiple of the granule of the chosen exponent
/// (a power of two: one without an internal exponent, `2^(e + 3)` with one).
pub proof fn law_set_bounds_rounding<T: CompressedCapability>(c: CcxCap<T>, base: u64, top: u128)
    requires
        c.wf(),
        is_addr(T::spec_profile(), base as int),
        base <= top <= T::spec_profile().addr_limit(),
    ensures
        ({
            let g = pow2(spec_granule_bits(T::spec_profile(), base as int, top as int)) as int;
            let after = c.after_set_bounds(base as int, top as int);
            &&& after.cr_base == (base as int / g) * g
            &&& after._cr_top == ceil_div(top as int, g) * g
            &&& after.cr_base <= base
            &&& after._cr_top >= top
        }),
{
    T::lemma_profile_valid();
    let p = T::spec_profile();
    lemma_decode_compressed(p, base as int, top as int);
    let ebt = spec_compress_bounds(p, base as int, top as int).0;
    lemma_extract_low_deposit(p, c.cr_pesbt as int, ebt);
    assert(spec_bounds_of(p, with_bounds_part(p, c.cr_pesbt, ebt), base as int) == spec_bounds_of(p, ebt, base as int));
    lemma_profile_facts(p);
    lemma2_to64();
}

/// Setting bounds never narrows them: the base can only move down and the top
/// only up, each to a multiple of one power of two.
pub proof fn law_bounds_never_narrow<T: CompressedCapability>(c: CcxCap<T>, base: u64, top: u128)
    requires
        c.wf(),
        is_addr(T::spec_profile(), base as int),
        base <= top <= T::spec_profile().addr_limit(),
    ensures
        c.after_set_bounds(base as int, top as int).cr_base <= base,
        c.after_set_bounds(base as int, top as int)._cr_top >= top,
        ({
            let g = pow2(spec_granule_bits(T::spec_profile(), base as int, top as int)) as int;
            &&& c.after_set_bounds(base as int, top as int).cr_base as int % g == 0
            &&& c.after_set_bounds(base as int, top as int)._cr_top as int % g == 0
        }),
{
    law_set_bounds_rounding(c, base, top);
    let g = pow2(spec_granule_bits(T::spec_profile(), base as int, top as int)) as int;
    lemma_pow2_pos(spec_granule_bits(T::spec_profile(), base as int, top as int));
    lemma_div_pos_is_pos(base as int, g);
    vstd::arithmetic::div_mod::lemma_mod_multiples_basic(base as int / g, g);
    lemma_ceil_div(top as int, g);
    vstd::arithmetic::div_mod::lemma_mod_multiples_basic(ceil_div(top as int, g), g);
}

/// A base that is a multiple of `get_required_alignment(n)`, with a length of
/// `get_representable_length(n)`, is set exactly.
pub proof fn law_aligned_bounds_exact<T: CompressedCapability>(c: CcxCap<T>, n: u128, base: u64)
    requires
        c.wf(),
        n <= T::spec_profile().addr_limit(),
        is_addr(T::spec_profile(), base as int),
        base as int % spec_required_alignment(T::spec_profile(), n as nat) as int == 0,
        base + spec_representable_length(T::spec_profile(), n as nat) <= T::spec_profile().addr_limit(),
    ensures
        c.spec_set_bounds_exact(base as int, base + spec_representable_length(T::spec_profile(), n as nat)),
{
    T::lemma_profile_valid();
    let p = T::spec_profile();
    lemma_profile_facts(p);
    let rl = spec_representable_length(p, n as nat);
    lemma_representable_length(p, n as nat);
    lemma_representable_length_is_ceil(p, n as nat);
    let a = spec_required_alignment(p, n as nat) as int;
    lemma_pow2_pos(spec_alignment_bits(p, n as nat));
    assert(spec_alignment_bits(p, rl) == spec_granule_bits(p, 0, rl as int));
    lemma_granule_aligned(p, base as int, rl as int);
    let top = (base + rl) as u128;
    law_set_bounds_rounding(c, base, top);
    assert(pow2(spec_granule_bits(p, base as int, top as int)) == a);
    // both ends are multiples of the alignment
    lemma_ceil_div(n as int, a);
    lemma_fundamental_div_mod(base as int, a);
    let j = base as int / a;
    let cn = ceil_div(n as int, a);
    assert(top == (j + cn) * a) by (nonlinear_arith)
        requires base == a * j + 0, rl == cn * a, top == base + rl;
    lemma_div_pos_is_pos(base as int, a);
    vstd::arithmetic::div_mod::lemma_mod_multiples_basic(j + cn, a);
    lemma_ceil_div(top as int, a);
    assert(base == j * a) by (nonlinear_arith)
        requires base == a * j + 0;
}

} // verus!
