//! The bounds codec: a `[base, top)` range stored as an exponent and two
//! mantissas in the low bits of the metadata word, decoded against an address.
use vstd::prelude::*;
use vstd::arithmetic::power2::{pow2, lemma_pow2_adds, lemma_pow2_pos, lemma2_to64, lemma_pow2_strictly_increases};
use crate::bits::{field, pow2_u128, get_field, lemma_div_mod_bounds};
use crate::profile::{Profile, valid_profile};

verus! {

/// The raw bounds fields of a metadata word, with the two implied high bits of
/// the top mantissa filled in.
#[derive(Clone, Copy, Debug, PartialEq, Eq, Structural)]
pub struct CcxBoundsBits {
    /// Bottom mantissa (its low three bits are zero when `ie` is set).
    pub b: u16,
    /// Top mantissa (its low three bits are zero when `ie` is set).
    pub t: u16,
    /// Exponent as encoded.
    pub e: u8,
    /// Whether the exponent is stored in the low bits of the mantissas.
    pub ie: bool,
}

/// Facts about the two profiles that the codec relies on.
pub proof fn lemma_profile_facts(p: Profile)
    requires
        valid_profile(p),
    ensures
        p.mantissa_width == 8 || p.mantissa_width == 14,
        p.addr_width == 32 || p.addr_width == 64,
        p.max_exponent + p.mantissa_width == p.addr_width + 2,
        p.addr_width == 32 <==> p.mantissa_width == 8,
        pow2(3) == 8,
        pow2(8) == 256,
        pow2(14) == 16384,
        pow2(32) == 0x1_0000_0000,
        pow2(64) == 0x1_0000_0000_0000_0000,
{
    lemma2_to64();
}

/// Bounds fields of `pesbt` as stored by the profile `p`.
pub open spec fn spec_extract_bounds_bits(p: Profile, pesbt: int) -> CcxBoundsBits {
    let mw = p.mantissa_width as nat;
    let ie = field(pesbt, (2 * mw - 2) as nat, 1) == 1;
    let t_enc = field(pesbt, mw, (mw - 2) as nat);
    let b_enc = field(pesbt, 0, mw);
    let e = if ie { (t_enc % 8) * 8 + b_enc % 8 } else { 0 };
    let b = if ie { b_enc - b_enc % 8 } else { b_enc };
    let t_low = if ie { t_enc - t_enc % 8 } else { t_enc };
    let len_msb: int = if ie { 1 } else { 0 };
    let quarter = pow2((mw - 2) as nat) as int;
    let carry: int = if t_low < b % quarter { 1 } else { 0 };
    let t = ((b / quarter + carry + len_msb) % 4) * quarter + t_low;
    CcxBoundsBits { b: b as u16, t: t as u16, e: e as u8, ie }
}

pub open spec fn bounds_bits_fit(p: Profile, bb: CcxBoundsBits) -> bool {
    &&& bb.b < pow2(p.mantissa_width as nat)
    &&& bb.t < pow2(p.mantissa_width as nat)
}

/// Reads the bounds fields of a metadata word.
pub fn extract_bounds_bits(p: &Profile, pesbt: u64) -> (r: CcxBoundsBits)
    requires
        valid_profile(*p),
    ensures
        r == spec_extract_bounds_bits(*p, pesbt as int),
        bounds_bits_fit(*p, r),
{
    proof {
        lemma_profile_facts(*p);
        lemma2_to64();
    }
    let mw = p.mantissa_width;
    let ie = get_field(pesbt, 2 * mw - 2, 1) == 1;
    let t_enc = get_field(pesbt, mw, mw - 2);
    let b_enc = get_field(pesbt, 0, mw);
    let e: u64 = if ie { (t_enc % 8) * 8 + b_enc % 8 } else { 0 };
    let b: u64 = if ie { b_enc - b_enc % 8 } else { b_enc };
    let t_low: u64 = if ie { t_enc - t_enc % 8 } else { t_enc };
    let len_msb: u64 = if ie { 1 } else { 0 };
    let quarter = pow2_u128(mw - 2) as u64;
    proof {
        if mw == 8 {
            assert(quarter == 64);
        } else {
            assert(quarter == 4096);
        }
    }
    let carry: u64 = if t_low < b % quarter { 1 } else { 0 };
    let t_hi = (b / quarter + carry + len_msb) % 4;
    proof {
        assert(t_hi * quarter <= 3 * quarter) by (nonlinear_arith)
            requires t_hi <= 3, quarter > 0;
    }
    let t = t_hi * quarter + t_low;
    CcxBoundsBits { b: b as u16, t: t as u16, e: e as u8, ie }
}

/// The exponent that decoding uses.
pub open spec fn effective_exponent(p: Profile, bb: CcxBoundsBits) -> nat {
    if bb.e > p.max_exponent { p.max_exponent as nat } else { bb.e as nat }
}

/// Bounds `(base, top)` of the fields `bb`, decoded with the address `a` as
/// context: the mantissas give the bits of base and top below bit
/// `e + mantissa_width`, and the bits above come from `a`, corrected by one
/// region where a mantissa lies on the other side of the representable
/// region's lower edge than the address does.
pub open spec fn spec_decode_bounds(p: Profile, bb: CcxBoundsBits, a: int) -> (int, int) {
    let mw = p.mantissa_width as nat;
    let aw = p.addr_width as nat;
    let e = effective_exponent(p, bb);
    let a3 = field(a, (e + mw - 3) as nat, 3);
    let b3 = bb.b as int / pow2((mw - 3) as nat) as int;
    let t3 = bb.t as int / pow2((mw - 3) as nat) as int;
    let r3 = (b3 + 7) % 8;
    let a_hi: int = if a3 < r3 { 1 } else { 0 };
    let b_hi: int = if b3 < r3 { 1 } else { 0 };
    let t_hi: int = if t3 < r3 { 1 } else { 0 };
    let region = pow2(e + mw) as int;
    let a_base = (a / region) * region;
    let base = (a_base + (b_hi - a_hi) * region + bb.b * pow2(e)) % pow2(aw) as int;
    let top0 = (a_base + (t_hi - a_hi) * region + bb.t * pow2(e)) % pow2(aw + 1) as int;
    let half = pow2((aw - 1) as nat) as int;
    let wraps = e + 1 < p.max_exponent && (top0 / half - base / half) % 4 > 1;
    let top = if !wraps {
        top0
    } else if top0 >= pow2(aw) {
        top0 - pow2(aw)
    } else {
        top0 + pow2(aw)
    };
    (base, top)
}

/// Bounds stored in `pesbt`, decoded against the address `a`.
pub open spec fn spec_bounds_of(p: Profile, pesbt: int, a: int) -> (int, int) {
    spec_decode_bounds(p, spec_extract_bounds_bits(p, pesbt), a)
}

/// Adding a multiple of `m` leaves the remainder as it is.
proof fn lemma_shift_mod(x: int, k: int, m: int)
    requires
        0 < m,
    ensures
        (x + k * m) % m == x % m,
{
    vstd::arithmetic::div_mod::lemma_mod_multiples_vanish(k, x, m);
    vstd::arithmetic::mul::lemma_mul_is_commutative(k, m);
}

/// `(a_base + (step - 1) * region + scaled) mod modulus`, where `spare`, a
/// multiple of `modulus` no smaller than `region`, keeps the sum non-negative.
fn place_mantissa(a_base: u128, scaled: u128, region: u128, step: u128, modulus: u128, spare: u128) -> (r: u128)
    requires
        a_base < 0x1_0000_0000_0000_0000,
        scaled < region,
        region <= spare <= 0x8_0000_0000_0000_0000,
        step <= 2,
        0 < modulus,
        spare % modulus == 0,
    ensures
        r as int == (a_base + (step - 1) * region + scaled) % (modulus as int),
        r < modulus,
{
    proof {
        assert(step * region <= 2 * region) by (nonlinear_arith)
            requires step <= 2, region > 0;
        assert((step - 1) * region == step * region - region) by (nonlinear_arith);
        vstd::arithmetic::div_mod::lemma_fundamental_div_mod(spare as int, modulus as int);
        lemma_shift_mod(a_base + (step - 1) * region + scaled, spare as int / modulus as int, modulus as int);
        vstd::arithmetic::mul::lemma_mul_is_commutative(spare as int / modulus as int, modulus as int);
    }
    (a_base + scaled + (spare - region) + step * region) % modulus
}

/// Decodes bounds fields against the address `a`.
#[verifier::rlimit(50)]
pub fn decode_bounds(p: &Profile, bb: &CcxBoundsBits, a: u64) -> (r: (u64, u128))
    requires
        valid_profile(*p),
        bounds_bits_fit(*p, *bb),
        a < p.addr_limit(),
    ensures
        r.0 as int == spec_decode_bounds(*p, *bb, a as int).0,
        r.1 as int == spec_decode_bounds(*p, *bb, a as int).1,
        r.0 < p.addr_limit(),
        r.1 < pow2(p.addr_width as nat + 1),
{
    proof {
        lemma_profile_facts(*p);
    }
    let mw = p.mantissa_width;
    let aw = p.addr_width;
    let e: u32 = if bb.e as u32 > p.max_exponent { p.max_exponent } else { bb.e as u32 };
    let a3 = (a as u128 / pow2_u128(e + mw - 3)) % 8;
    let q = pow2_u128(mw - 3);
    let b3 = bb.b as u128 / q;
    let t3 = bb.t as u128 / q;
    let r3 = (b3 + 7) % 8;
    let a_hi: u128 = if a3 < r3 { 1 } else { 0 };
    let b_hi: u128 = if b3 < r3 { 1 } else { 0 };
    let t_hi: u128 = if t3 < r3 { 1 } else { 0 };
    let region = pow2_u128(e + mw);
    let scale = pow2_u128(e);
    let addr_limit = pow2_u128(aw);
    let len_limit = pow2_u128(aw + 1);
    proof {
        let ei = e as nat;
        let mwi = mw as nat;
        lemma_pow2_adds(ei, mwi);
        lemma_pow2_adds(aw as nat, 1);
        lemma_pow2_adds(aw as nat + 1, 1);
        lemma2_to64();
        if e + mw < aw + 2 {
            lemma_pow2_strictly_increases(ei + mwi, aw as nat + 2);
        }
        if aw == 32 {
            lemma_pow2_strictly_increases(aw as nat + 2, 68);
        }
        lemma_pow2_adds(64, 4);
        lemma_pow2_adds(64, 2);
        lemma_pow2_adds(64, 1);
        lemma_pow2_adds(32, 1);
        lemma_pow2_adds(32, 2);
        if aw == 32 {
            assert(len_limit == 0x2_0000_0000);
            assert(region <= 0x4_0000_0000);
        } else {
            assert(len_limit == 0x2_0000_0000_0000_0000);
            assert(region <= 0x4_0000_0000_0000_0000);
        }
        assert(region <= 2 * len_limit);
        lemma_div_mod_bounds(a as int, region as int, 1);
        assert(bb.b as int * scale < region) by (nonlinear_arith)
            requires bb.b < pow2(mwi), region == pow2(mwi) * scale, scale > 0;
        assert(bb.t as int * scale < region) by (nonlinear_arith)
            requires bb.t < pow2(mwi), region == pow2(mwi) * scale, scale > 0;
        assert(0 <= (a as int / region as int) * region) by (nonlinear_arith)
            requires 0 <= a as int / region as int, region > 0;
    }
    let a_base = (a as u128 / region) * region;
    let base = place_mantissa(a_base, bb.b as u128 * scale, region, b_hi + 1 - a_hi, addr_limit, 4 * addr_limit);
    let top0 = place_mantissa(a_base, bb.t as u128 * scale, region, t_hi + 1 - a_hi, len_limit, 2 * len_limit);
    let half = pow2_u128(aw - 1);
    proof {
        lemma_pow2_adds((aw - 1) as nat, 1);
        lemma_pow2_adds((aw - 1) as nat, 2);
        vstd::arithmetic::div_mod::lemma_multiply_divide_lt(top0 as int, half as int, 4);
        vstd::arithmetic::div_mod::lemma_multiply_divide_lt(base as int, half as int, 2);
    }
    let top2 = top0 / half;
    let base2 = base / half;
    let wraps = e + 1 < p.max_exponent && (top2 + 4 - base2) % 4 > 1;
    let top = if !wraps {
        top0
    } else if top0 >= addr_limit {
        top0 - addr_limit
    } else {
        top0 + addr_limit
    };
    (base as u64, top)
}

/// Number of significant bits of `x`.
pub open spec fn bit_len(x: nat) -> nat
    decreases x,
{
    if x == 0 {
        0
    } else {
        1 + bit_len(x / 2)
    }
}

/// A number below `2^k` has at most `k` significant bits, and its highest
/// set bit is bit `bit_len(x) - 1`.
pub proof fn lemma_bit_len_bound(x: nat, k: nat)
    requires
        x < pow2(k),
    ensures
        bit_len(x) <= k,
        x > 0 ==> pow2((bit_len(x) - 1) as nat) <= x,
        x < pow2(bit_len(x)),
    decreases k,
{
    if x == 0 {
        vstd::arithmetic::power2::lemma_pow2_pos(0);
    } else {
        if k == 0 {
            vstd::arithmetic::power2::lemma_pow2_pos(0);
            lemma2_to64();
        } else {
            vstd::arithmetic::power2::lemma_pow2_unfold(k);
            lemma_bit_len_bound(x / 2, (k - 1) as nat);
            vstd::arithmetic::power2::lemma_pow2_unfold(bit_len(x));
            if x / 2 > 0 {
                vstd::arithmetic::power2::lemma_pow2_unfold((bit_len(x) - 1) as nat);
            } else {
                lemma2_to64();
            }
        }
    }
}

/// The exponent of a length before rounding: the number of significant bits
/// of the length above its low `mantissa_width - 1` bits.
pub open spec fn spec_length_exponent(p: Profile, length: nat) -> nat {
    bit_len(length / pow2((p.mantissa_width - 1) as nat))
}

/// Computes the exponent of a length before rounding.
fn length_exponent(p: &Profile, length: u128) -> (r: u32)
    requires
        valid_profile(*p),
        length <= p.addr_limit(),
    ensures
        r == spec_length_exponent(*p, length as nat),
        r <= p.max_exponent,
{
    proof {
        lemma_profile_facts(*p);
    }
    let mw = p.mantissa_width;
    let d = pow2_u128(mw - 1);
    let mut q = length / d;
    let mut e: u32 = 0;
    proof {
        let k = (p.addr_width - mw + 2) as nat;
        lemma_pow2_adds((mw - 1) as nat, k);
        lemma_pow2_adds(p.addr_width as nat, 1);
        lemma2_to64();
        vstd::arithmetic::div_mod::lemma_multiply_divide_lt(length as int, d as int, pow2(k) as int);
        lemma_bit_len_bound(q as nat, k);
    }
    while q != 0
        invariant
            bit_len(length as nat / d as nat) == e + bit_len(q as nat),
            e + bit_len(q as nat) <= p.max_exponent,
            p.max_exponent <= 52,
        decreases q,
    {
        q = q / 2;
        e = e + 1;
    }
    e
}

/// The bounds part in internal-exponent form: the flag; the top mantissa's
/// stored bits with the exponent's high three bits; the bottom mantissa with
/// its low three bits.
pub open spec fn ie_encoding(p: Profile, b: int, t: int, ee: nat) -> int {
    let mw = p.mantissa_width as nat;
    pow2((2 * mw - 2) as nat) + ((t % pow2((mw - 5) as nat) as int) * 8 + ee / 8) * pow2(mw) + b * 8 + ee % 8
}

/// The bounds part of the metadata word, and the exponent, chosen for
/// `[base, top)`: the smallest exponent at which the length fits the
/// mantissas, top rounded up and base rounded down to it, and the exponent
/// raised by one where that rounding made the length overflow the mantissas.
pub open spec fn spec_compress_bounds(p: Profile, base: int, top: int) -> (int, nat) {
    let mw = p.mantissa_width as nat;
    let length = top - base;
    let e = spec_length_exponent(p, length as nat);
    let ie = e != 0 || field(length, (mw - 2) as nat, 1) == 1;
    if !ie {
        ((top % pow2((mw - 2) as nat) as int) * pow2(mw) + base % pow2(mw) as int, 0)
    } else {
        let w = (mw - 3) as nat;
        let m = pow2(w) as int;
        let lost_top = top % pow2(e + 3) as int != 0;
        let t1 = (field(top, e + 3, w) + if lost_top { 1int } else { 0 }) % m;
        let b1 = field(base, e + 3, w);
        let grew = field((t1 - b1) % m, (mw - 4) as nat, 1) == 1;
        let lost_top2 = lost_top || t1 % 2 == 1;
        let t2 = (field(top, e + 4, w) + if lost_top2 { 1int } else { 0 }) % m;
        let b2 = field(base, e + 4, w);
        let (b, t, ee) = if grew { (b2, t2, e + 1) } else { (b1, t1, e) };
        (ie_encoding(p, b, t, ee), ee)
    }
}

/// Lays out the internal-exponent form of the bounds part: flag, top
/// mantissa with the high exponent bits, bottom mantissa with the low ones.
fn encode_internal_exponent(p: &Profile, b: u128, t: u128, ee: u32) -> (r: u64)
    requires
        valid_profile(*p),
        b < pow2((p.mantissa_width - 3) as nat),
        ee < 64,
    ensures
        r == ie_encoding(*p, b as int, t as int, ee as nat),
        r < pow2(p.ebt_width()),
{
    proof {
        lemma_profile_facts(*p);
        lemma2_to64();
    }
    let mw = p.mantissa_width;
    let flag = pow2_u128(2 * mw - 2);
    let tt = t % pow2_u128(mw - 5);
    let scale = pow2_u128(mw);
    let hi = tt * 8 + ee as u128 / 8;
    let lo = b * 8 + ee as u128 % 8;
    proof {
        lemma_pow2_adds((mw - 2) as nat, mw as nat);
        lemma_pow2_adds((mw - 5) as nat, 3);
        lemma_pow2_adds((mw - 3) as nat, 3);
        lemma_pow2_adds((2 * mw - 2) as nat, 1);
        assert(hi < pow2((mw - 2) as nat));
        assert(lo < scale);
        assert(hi * scale + lo < pow2((mw - 2) as nat) * scale) by (nonlinear_arith)
            requires hi < pow2((mw - 2) as nat), lo < scale, 0 < scale;
        if mw == 8 {
            assert(pow2(15) == 0x8000);
        } else {
            assert(pow2(27) == 0x800_0000);
        }
    }
    (flag + hi * scale + lo) as u64
}

/// Chooses the bounds part of the metadata word, and the exponent, for
/// `[base, top)`.
#[verifier::rlimit(50)]
pub fn compress_bounds(p: &Profile, base: u64, top: u128) -> (r: (u64, u32))
    requires
        valid_profile(*p),
        base <= top <= p.addr_limit(),
    ensures
        r.0 as int == spec_compress_bounds(*p, base as int, top as int).0,
        r.1 as int == spec_compress_bounds(*p, base as int, top as int).1,
        r.0 < pow2(p.ebt_width()),
        r.1 <= p.max_exponent + 1,
{
    proof {
        lemma_profile_facts(*p);
        lemma2_to64();
    }
    let mw = p.mantissa_width;
    let length = top - base as u128;
    let e = length_exponent(p, length);
    let ie = e != 0 || (length / pow2_u128(mw - 2)) % 2 == 1;
    if !ie {
        let t = top % pow2_u128(mw - 2);
        let b = base as u128 % pow2_u128(mw);
        proof {
            lemma_pow2_adds((mw - 2) as nat, mw as nat);
            lemma_pow2_adds((2 * mw - 2) as nat, 1);
            assert(t * pow2(mw as nat) + b < pow2((mw - 2) as nat) * pow2(mw as nat)) by (nonlinear_arith)
                requires t < pow2((mw - 2) as nat), b < pow2(mw as nat);
            lemma_pow2_strictly_increases((2 * mw - 2) as nat, (2 * mw - 1) as nat);
            if mw == 8 {
                assert(pow2(15) == 0x8000);
            } else {
                assert(pow2(27) == 0x800_0000);
            }
        }
        ((t * pow2_u128(mw) + b) as u64, 0)
    } else {
        let m = pow2_u128(mw - 3);
        let lost_top = top % pow2_u128(e + 3) != 0;
        let t1 = ((top / pow2_u128(e + 3)) % m + if lost_top { 1 } else { 0 }) % m;
        let b1 = (base as u128 / pow2_u128(e + 3)) % m;
        proof {
            lemma_shift_mod(t1 - b1, 1, m as int);
        }
        let grew = (((t1 + m - b1) % m) / pow2_u128(mw - 4)) % 2 == 1;
        let lost_top2 = lost_top || t1 % 2 == 1;
        let t2 = ((top / pow2_u128(e + 4)) % m + if lost_top2 { 1 } else { 0 }) % m;
        let b2 = (base as u128 / pow2_u128(e + 4)) % m;
        if grew {
            (encode_internal_exponent(p, b2, t2, e + 1), e + 1)
        } else {
            (encode_internal_exponent(p, b1, t1, e), e)
        }
    }
}

/// log2 of the alignment that a base needs for a region of `length` bytes
/// to be encoded exactly: the rounding step of compression at offset zero.
pub open spec fn spec_alignment_bits(p: Profile, length: nat) -> nat {
    let (ebt, ee) = spec_compress_bounds(p, 0, length as int);
    if ebt >= pow2((2 * p.mantissa_width - 2) as nat) {
        ee + 3
    } else {
        0
    }
}

/// The alignment that a base needs for a region of `length` bytes.
pub open spec fn spec_required_alignment(p: Profile, length: nat) -> nat {
    pow2(spec_alignment_bits(p, length))
}

/// `length` rounded up to a multiple of its required alignment.
pub open spec fn spec_representable_length(p: Profile, length: nat) -> nat {
    let a = spec_required_alignment(p, length);
    ((length + a - 1) / a as int) as nat * a
}

/// The address mask that rounds a base down to the required alignment.
pub open spec fn spec_alignment_mask(p: Profile, length: nat) -> nat {
    (p.addr_limit() - spec_required_alignment(p, length)) as nat
}

/// Computes log2 of the alignment that a region of `length` bytes needs.
pub fn alignment_bits(p: &Profile, length: u128) -> (r: u32)
    requires
        valid_profile(*p),
        length <= p.addr_limit(),
    ensures
        r == spec_alignment_bits(*p, length as nat),
        r + 2 <= p.addr_width,
{
    proof {
        lemma_profile_facts(*p);
    }
    let (ebt, ee) = compress_bounds(p, 0, length);
    if ebt as u128 >= pow2_u128(2 * p.mantissa_width - 2) {
        ee + 3
    } else {
        0
    }
}

} // verus!
