//! What decoding a freshly compressed range gives: the base rounded down and
//! the top rounded up to the granule of the chosen exponent.
use vstd::prelude::*;
use vstd::arithmetic::power2::{pow2, lemma_pow2_adds, lemma_pow2_pos, lemma2_to64, lemma_pow2_strictly_increases};
use vstd::arithmetic::div_mod::{
    lemma_fundamental_div_mod, lemma_fundamental_div_mod_converse, lemma_mod_pos_bound,
    lemma_div_pos_is_pos, lemma_small_mod, lemma_basic_div, lemma_div_is_ordered,
};
use crate::bits::{field, deposit, ceil_div, lemma_ceil_div, lemma_ceil_div_le};
use crate::bounds::{
    CcxBoundsBits, lemma_profile_facts, spec_decode_bounds, effective_exponent, ie_encoding,
    spec_extract_bounds_bits, spec_compress_bounds, spec_length_exponent, lemma_bit_len_bound,
    spec_bounds_of,
};
use crate::profile::{Profile, valid_profile};

verus! {

/// Decoding infers the two high bits of the top mantissa from the bottom
/// mantissa `bm`: they are right when the distance `delta` from bottom to top
/// lies in `[lm * q, (lm + 1) * q)`, where `lm` is the implied length bit.
proof fn lemma_top_reconstruction(bm: int, delta: int, lm: int, q: int)
    requires
        q > 0,
        0 <= bm < 4 * q,
        lm == 0 || lm == 1,
        lm * q <= delta < (lm + 1) * q,
    ensures
        ({
            let tl = (bm + delta) % q;
            let carry: int = if tl < bm % q { 1 } else { 0 };
            ((bm / q + carry + lm) % 4) * q + tl == (bm + delta) % (4 * q)
        }),
{
    let bh = bm / q;
    let bl = bm % q;
    lemma_fundamental_div_mod(bm, q);
    lemma_mod_pos_bound(bm, q);
    lemma_div_pos_is_pos(bm, q);
    let d = delta - lm * q;
    assert(lm * q == if lm == 0 { 0 } else { q }) by (nonlinear_arith)
        requires lm == 0 || lm == 1;
    assert((lm + 1) * q == lm * q + q) by (nonlinear_arith);
    let tl = (bm + delta) % q;
    assert(bm + delta == (bh + lm) * q + bl + d) by (nonlinear_arith)
        requires bm == q * bh + bl, d == delta - lm * q;
    let carry: int = if bl + d >= q { 1 } else { 0 };
    assert(carry * q == if carry == 0 { 0 } else { q }) by (nonlinear_arith)
        requires carry == 0 || carry == 1;
    assert(bm + delta == (bh + lm + carry) * q + (bl + d - carry * q)) by (nonlinear_arith)
        requires bm + delta == (bh + lm) * q + bl + d, carry == 0 || carry == 1;
    lemma_fundamental_div_mod_converse(bm + delta, q, bh + lm + carry, bl + d - carry * q);
    assert(tl == bl + d - carry * q);
    assert((if tl < bl { 1int } else { 0 }) == carry);
    let h = bh + lm + carry;
    lemma_fundamental_div_mod(h, 4);
    assert(bm + delta == (h / 4) * (4 * q) + ((h % 4) * q + tl)) by (nonlinear_arith)
        requires bm + delta == h * q + tl, h == 4 * (h / 4) + h % 4;
    assert((h % 4) * q + tl < 4 * q) by (nonlinear_arith)
        requires 0 <= h % 4 < 4, 0 <= tl < q;
    assert(0 <= (h % 4) * q) by (nonlinear_arith)
        requires 0 <= h % 4, q > 0;
    lemma_fundamental_div_mod_converse(bm + delta, 4 * q, h / 4, (h % 4) * q + tl);
}

/// `(x mod (y * z)) / y == (x / y) mod z`.
proof fn lemma_mod_div_swap(x: int, y: int, z: int)
    requires
        0 <= x,
        0 < y,
        0 < z,
    ensures
        (x % (y * z)) / y == (x / y) % z,
{
    vstd::arithmetic::div_mod::lemma_mod_breakdown(x, y, z);
    lemma_mod_pos_bound(x, y);
    lemma_mod_pos_bound(x / y, z);
    lemma_div_pos_is_pos(x, y);
    vstd::arithmetic::div_mod::lemma_div_multiples_vanish_fancy((x / y) % z, x % y, y);
}

/// Two values less than `h` apart, the larger no smaller: their quotients by
/// `h` differ by zero or one.
proof fn lemma_div_close(lo: int, hi: int, h: int)
    requires
        0 <= lo <= hi < lo + h,
        h > 0,
    ensures
        hi / h - lo / h == 0 || hi / h - lo / h == 1,
{
    lemma_div_is_ordered(lo, hi, h);
    lemma_div_is_ordered(hi, lo + h, h);
    vstd::arithmetic::div_mod::lemma_div_plus_one(lo, h);
}

/// Decoding against an address `b` whose bits above the mantissa window are
/// those of `x * 2^e`, where the mantissas hold `x` and `x + delta` modulo
/// their range and `delta` is under half that range: the bounds are
/// `x * 2^e` and `(x + delta) * 2^e`.
pub proof fn lemma_decode_window(p: Profile, bb: CcxBoundsBits, b: int, x: int, delta: int)
    requires
        valid_profile(p),
        bb.e <= p.max_exponent,
        bb.b == x % pow2(p.mantissa_width as nat) as int,
        bb.t == (x + delta) % pow2(p.mantissa_width as nat) as int,
        0 <= delta < pow2((p.mantissa_width - 1) as nat),
        0 <= x,
        x * pow2(bb.e as nat) <= b < pow2(p.addr_width as nat),
        (x + delta) * pow2(bb.e as nat) <= pow2(p.addr_width as nat),
        field(b, (bb.e + p.mantissa_width - 3) as nat, 3) == (x / pow2((p.mantissa_width - 3) as nat) as int) % 8,
        b / pow2((bb.e + p.mantissa_width) as nat) as int == x / pow2(p.mantissa_width as nat) as int,
    ensures
        spec_decode_bounds(p, bb, b) == (x * pow2(bb.e as nat), (x + delta) * pow2(bb.e as nat)),
{
    lemma_profile_facts(p);
    lemma2_to64();
    let mw = p.mantissa_width as nat;
    let aw = p.addr_width as nat;
    let e = bb.e as nat;
    assert(effective_exponent(p, bb) == e);
    let s = pow2(e) as int;
    let e8 = pow2((mw - 3) as nat) as int;
    let m = pow2(mw) as int;
    let region = pow2(e + mw) as int;
    lemma_pow2_pos(e);
    lemma_pow2_pos((mw - 3) as nat);
    lemma_pow2_adds((mw - 3) as nat, 3);
    assert(m == e8 * 8);
    lemma_pow2_adds(mw, e);
    assert(region == m * s);
    let bv = bb.b as int;
    let tv = bb.t as int;
    let y = x + delta;
    // the window of the bottom mantissa agrees with the address: no base correction
    lemma_mod_div_swap(x, e8, 8);
    let b3 = bv / e8;
    assert(b3 == (x / e8) % 8);
    lemma_mod_pos_bound(x / e8, 8);
    // base
    lemma_fundamental_div_mod(x, m);
    lemma_mod_pos_bound(x, m);
    lemma_div_pos_is_pos(x, m);
    let a_base = (b / region) * region;
    assert(x * s == a_base + bv * s) by (nonlinear_arith)
        requires x == m * (x / m) + bv, region == m * s, b / region == x / m, a_base == (b / region) * region;
    assert(0 <= x * s) by (nonlinear_arith) requires 0 <= x, s > 0;
    lemma_small_mod((x * s) as nat, pow2(aw));
    // top: the carry out of the mantissa range
    let c: int = if bv + delta >= m { 1 } else { 0 };
    lemma_pow2_adds((mw - 1) as nat, 1);
    assert(y == (x / m + c) * m + (bv + delta - c * m)) by (nonlinear_arith)
        requires x == m * (x / m) + bv, y == x + delta, c == 0 || c == 1;
    assert(0 <= bv + delta - c * m < m) by (nonlinear_arith)
        requires 0 <= bv < m, 0 <= delta, 2 * delta < m, c == (if bv + delta >= m { 1int } else { 0 });
    lemma_fundamental_div_mod_converse(y, m, x / m + c, bv + delta - c * m);
    assert(tv == bv + delta - c * m);
    // the windows of both mantissas relative to the representable region
    let t3u = (bv + delta) / e8;
    lemma_fundamental_div_mod(bv, e8);
    lemma_mod_pos_bound(bv, e8);
    lemma_div_pos_is_pos(bv, e8);
    assert(bv + delta < (b3 + 5) * e8) by (nonlinear_arith)
        requires bv == e8 * b3 + bv % e8, bv % e8 < e8, 2 * delta < m, m == e8 * 8;
    vstd::arithmetic::div_mod::lemma_multiply_divide_lt(bv + delta, e8, b3 + 5);
    lemma_div_is_ordered(bv, bv + delta, e8);
    assert(c == 1 <==> t3u >= 8) by {
        if bv + delta >= m {
            vstd::arithmetic::div_mod::lemma_div_is_ordered(m, bv + delta, e8);
            vstd::arithmetic::div_mod::lemma_div_multiples_vanish(8, e8);
            vstd::arithmetic::mul::lemma_mul_is_commutative(8, e8);
        } else {
            vstd::arithmetic::div_mod::lemma_multiply_divide_lt(bv + delta, e8, 8);
        }
    }
    let t3 = tv / e8;
    assert(t3 == t3u - 8 * c) by {
        assert(tv == (bv + delta) + (-8 * c) * e8) by (nonlinear_arith)
            requires tv == bv + delta - c * m, m == e8 * 8;
        vstd::arithmetic::div_mod::lemma_div_multiples_vanish_fancy(0, 0, e8);
        lemma_fundamental_div_mod(bv + delta, e8);
        lemma_mod_pos_bound(bv + delta, e8);
        assert(tv == e8 * (t3u - 8 * c) + (bv + delta) % e8) by (nonlinear_arith)
            requires tv == (bv + delta) + (-8 * c) * e8, bv + delta == e8 * t3u + (bv + delta) % e8;
        lemma_fundamental_div_mod_converse(tv, e8, t3u - 8 * c, (bv + delta) % e8);
    }
    let r3 = (b3 + 7) % 8;
    let a3 = field(b, (e + mw - 3) as nat, 3);
    assert(a3 == b3);
    let t_hi: int = if t3 < r3 { 1 } else { 0 };
    let b_hi: int = if b3 < r3 { 1 } else { 0 };
    assert(t_hi - b_hi == c);
    assert(y * s == a_base + c * region + tv * s) by (nonlinear_arith)
        requires y == (x / m + c) * m + tv, region == m * s, b / region == x / m, a_base == (b / region) * region;
    assert(0 <= y * s) by (nonlinear_arith) requires 0 <= y, s > 0;
    lemma_pow2_strictly_increases(aw, aw + 1);
    lemma_small_mod((y * s) as nat, pow2(aw + 1));
    // no wrap-around correction of the top
    let half = pow2((aw - 1) as nat) as int;
    lemma_pow2_pos((aw - 1) as nat);
    if e + 1 < p.max_exponent {
        lemma_pow2_adds((mw - 1) as nat, e);
        assert(delta * s < pow2((mw - 1) as nat) * s) by (nonlinear_arith)
            requires delta < pow2((mw - 1) as nat), s > 0;
        if mw - 1 + e < aw - 1 {
            lemma_pow2_strictly_increases((mw - 1 + e) as nat, (aw - 1) as nat);
        }
        assert(y * s - x * s == delta * s) by (nonlinear_arith) requires y == x + delta;
        assert(0 <= delta * s) by (nonlinear_arith) requires 0 <= delta, s > 0;
        lemma_div_close(x * s, y * s, half);
    }
}

/// Scaling both sides of a division by `k`.
proof fn lemma_scaled_div_mod(z: int, k: int, m: int)
    requires
        0 <= z,
        0 < k,
        0 < m,
    ensures
        (k * z) % (k * m) == k * (z % m),
        (k * z) / (k * m) == z / m,
{
    lemma_fundamental_div_mod(z, m);
    lemma_mod_pos_bound(z, m);
    lemma_div_pos_is_pos(z, m);
    assert(k * z == (z / m) * (k * m) + k * (z % m)) by (nonlinear_arith)
        requires z == m * (z / m) + z % m;
    assert(k * (z % m) < k * m) by (nonlinear_arith)
        requires z % m < m, k > 0;
    assert(0 <= k * (z % m)) by (nonlinear_arith)
        requires 0 <= z % m, k > 0;
    lemma_fundamental_div_mod_converse(k * z, k * m, z / m, k * (z % m));
}

/// The fields that extraction reads from an internal-exponent encoding.
proof fn lemma_extract_internal(p: Profile, be: int, te: int, ee: nat)
    requires
        valid_profile(p),
        0 <= be < pow2((p.mantissa_width - 3) as nat),
        0 <= te,
        ee < 64,
    ensures
        ({
            let mw = p.mantissa_width as nat;
            let bb = spec_extract_bounds_bits(p, ie_encoding(p, be, te, ee));
            let q = pow2((mw - 2) as nat) as int;
            let tl = (te % pow2((mw - 5) as nat) as int) * 8;
            let carry: int = if tl < (be * 8) % q { 1 } else { 0 };
            &&& bb.ie
            &&& bb.e == ee
            &&& bb.b == be * 8
            &&& bb.t == (((be * 8) / q + carry + 1) % 4) * q + tl
            &&& ie_encoding(p, be, te, ee) < 2 * pow2((2 * mw - 2) as nat)
        }),
{
    lemma_profile_facts(p);
    lemma2_to64();
    let mw = p.mantissa_width as nat;
    let m = pow2(mw) as int;
    let q = pow2((mw - 2) as nat) as int;
    let f = pow2((2 * mw - 2) as nat) as int;
    let t5 = pow2((mw - 5) as nat) as int;
    lemma_pow2_pos((mw - 5) as nat);
    lemma_pow2_adds((mw - 5) as nat, 3);
    lemma_pow2_adds((mw - 3) as nat, 3);
    lemma_pow2_adds((mw - 2) as nat, mw);
    assert((mw - 2) as nat + mw == (2 * mw - 2) as nat);
    assert(q == t5 * 8);
    lemma_mod_pos_bound(te, t5);
    let hi = (te % t5) * 8 + ee / 8;
    let lo = be * 8 + ee % 8;
    assert(0 <= hi < q);
    assert(0 <= lo < m);
    let ebt = ie_encoding(p, be, te, ee);
    assert(ebt == (q + hi) * m + lo) by (nonlinear_arith)
        requires ebt == f + hi * m + lo, f == q * m;
    assert(0 <= hi * m) by (nonlinear_arith) requires 0 <= hi, m > 0;
    lemma_fundamental_div_mod_converse(ebt, m, q + hi, lo);
    // the flag
    assert(ebt == 1 * f + (hi * m + lo)) by (nonlinear_arith)
        requires ebt == (q + hi) * m + lo, f == q * m;
    assert(hi * m + lo < f) by (nonlinear_arith)
        requires hi < q, lo < m, f == q * m, 0 <= lo;
    lemma_fundamental_div_mod_converse(ebt, f, 1, hi * m + lo);
    assert(field(ebt, (2 * mw - 2) as nat, 1) == 1);
    assert(0 <= lo);
    // the top field
    lemma_fundamental_div_mod_converse(q + hi, q, 1, hi);
    assert(field(ebt, mw, (mw - 2) as nat) == hi);
    // the bottom field
    vstd::arithmetic::div_mod::lemma_div_basics(ebt);
    assert(field(ebt, 0, mw) == lo);
    lemma_fundamental_div_mod_converse(hi, 8, te % t5, (ee / 8) as int);
    lemma_fundamental_div_mod_converse(lo, 8, be, (ee % 8) as int);
    let bb = spec_extract_bounds_bits(p, ebt);
    assert(hi % 8 == ee / 8 && lo % 8 == ee % 8);
    assert(bb.ie);
    assert(bb.e == ee);
    assert(bb.b == be * 8);
    let tl = (te % t5) * 8;
    assert(hi - hi % 8 == tl);
    let carry: int = if tl < (be * 8) % q { 1 } else { 0 };
    let top2 = ((be * 8) / q + carry + 1) % 4;
    assert(top2 * q <= 3 * q) by (nonlinear_arith)
        requires 0 <= top2 <= 3, q > 0;
    assert(0 <= top2 * q) by (nonlinear_arith)
        requires 0 <= top2, q > 0;
    assert(tl < q);
    assert(bb.t == top2 * q + tl);
}

/// The exponent `k` of a length `n`: `n < 2^(k + mw - 1)`, and from
/// `k = 1` on, `n >= 2^(k + mw - 2)`.
pub proof fn lemma_length_exponent(p: Profile, n: nat)
    requires
        valid_profile(p),
        n <= pow2(p.addr_width as nat),
    ensures
        ({
            let mw = p.mantissa_width as nat;
            let k = spec_length_exponent(p, n);
            &&& k <= p.max_exponent
            &&& n < pow2((k + mw - 1) as nat)
            &&& k >= 1 ==> n >= pow2((k + mw - 2) as nat)
            &&& k == 0 <==> n < pow2((mw - 1) as nat)
        }),
{
    lemma_profile_facts(p);
    lemma2_to64();
    let mw = p.mantissa_width as nat;
    let aw = p.addr_width as nat;
    let d = pow2((mw - 1) as nat);
    let x = n / d;
    let k = spec_length_exponent(p, n);
    lemma_pow2_pos((mw - 1) as nat);
    let big = (aw + 2 - mw) as nat;
    lemma_pow2_adds((mw - 1) as nat, big);
    lemma_pow2_adds(aw, 1);
    vstd::arithmetic::div_mod::lemma_multiply_divide_lt(n as int, d as int, pow2(big) as int);
    lemma_bit_len_bound(x, big);
    lemma_fundamental_div_mod(n as int, d as int);
    lemma_mod_pos_bound(n as int, d as int);
    lemma_pow2_adds((mw - 1) as nat, k);
    assert(n < pow2((k + mw - 1) as nat)) by {
        assert(d * x + d <= d * pow2(k)) by (nonlinear_arith)
            requires x + 1 <= pow2(k), d > 0;
    }
    if k >= 1 {
        lemma_pow2_adds((mw - 1) as nat, (k - 1) as nat);
        assert(d * pow2((k - 1) as nat) <= d * x) by (nonlinear_arith)
            requires pow2((k - 1) as nat) <= x, d > 0;
    }
    if n < d {
        lemma_basic_div(n as int, d as int);
    } else {
        lemma_div_is_ordered(d as int, n as int, d as int);
        vstd::arithmetic::div_mod::lemma_div_basics(d as int);
    }
}

/// Compression in internal-exponent form: for the exponent `e` it picks, the
/// range rounded out to granules of `2^(e + 3)` spans from a quarter to under
/// half of the mantissa range, and the mantissas hold the rounded ends.
/// The exponent is the length's own, `k`, plus one where at `k` the rounded
/// range would reach half the mantissa range.
pub proof fn lemma_compress_internal(p: Profile, b: int, t: int)
    requires
        valid_profile(p),
        0 <= b <= t <= pow2(p.addr_width as nat),
        t - b >= pow2((p.mantissa_width - 2) as nat),
    ensures
        ({
            let mw = p.mantissa_width as nat;
            let (ebt, ee) = spec_compress_bounds(p, b, t);
            let u = pow2(ee + 3) as int;
            let d = ceil_div(t, u) - b / u;
            let k = spec_length_exponent(p, (t - b) as nat);
            let uk = pow2(k + 3) as int;
            &&& ee <= p.max_exponent
            &&& ee == if ceil_div(t, uk) - b / uk >= pow2((mw - 4) as nat) { k + 1 } else { k }
            &&& pow2((mw - 5) as nat) <= d < pow2((mw - 4) as nat)
            &&& ebt == ie_encoding(p, (b / u) % pow2((mw - 3) as nat) as int, ceil_div(t, u) % pow2((mw - 3) as nat) as int, ee)
        }),
{
    lemma_profile_facts(p);
    lemma2_to64();
    let mw = p.mantissa_width as nat;
    let aw = p.addr_width as nat;
    let len = t - b;
    let k = spec_length_exponent(p, len as nat);
    lemma_length_exponent(p, len as nat);
    let q = pow2((mw - 2) as nat) as int;
    // the internal-exponent form is chosen
    lemma_pow2_adds((mw - 2) as nat, 1);
    assert(k != 0 || field(len, (mw - 2) as nat, 1) == 1) by {
        if k == 0 {
            lemma_fundamental_div_mod_converse(len, q, 1, len - q);
        }
    }
    // the length in granules of 2^(k + 3)
    let w = (mw - 3) as nat;
    let m = pow2(w) as int;
    let h = pow2((mw - 4) as nat) as int;
    let f = pow2((mw - 5) as nat) as int;
    lemma_pow2_adds((mw - 4) as nat, 1);
    lemma_pow2_adds((mw - 5) as nat, 1);
    let u = pow2(k + 3) as int;
    lemma_pow2_pos(k + 3);
    lemma_pow2_adds(k + 3, (mw - 4) as nat);
    lemma_pow2_adds(k + 3, (mw - 5) as nat);
    assert(len < h * u);
    assert(len >= f * u) by {
        if k == 0 {
        }
    }
    lemma_ceil_div(t, u);
    lemma_fundamental_div_mod(b, u);
    lemma_mod_pos_bound(b, u);
    lemma_div_pos_is_pos(b, u);
    let ct = ceil_div(t, u);
    let fb = b / u;
    let dk = ct - fb;
    assert(dk * u >= len) by (nonlinear_arith)
        requires ct * u >= t, b == u * fb + b % u, 0 <= b % u, dk == ct - fb, len == t - b;
    assert(ct * u < t + u) by (nonlinear_arith)
        requires (ct - 1) * u < t;
    assert(fb * u > b - u) by (nonlinear_arith)
        requires b == u * fb + b % u, b % u < u;
    assert(dk * u == ct * u - fb * u) by (nonlinear_arith)
        requires dk == ct - fb;
    assert(f <= dk) by (nonlinear_arith)
        requires dk * u >= len, len >= f * u, u > 0;
    assert(dk < h + 2) by (nonlinear_arith)
        requires dk * u < len + 2 * u, len < h * u, u > 0;
    // the encoder's view of the same quantities
    let lost = t % u != 0;
    let t1 = (field(t, k + 3, w) + if lost { 1int } else { 0 }) % m;
    let b1 = field(b, k + 3, w);
    lemma_pow2_pos(w);
    vstd::arithmetic::div_mod::lemma_add_mod_noop(t / u, if lost { 1int } else { 0 }, m);
    lemma_small_mod((if lost { 1nat } else { 0 }), m as nat);
    assert(t1 == ct % m);
    vstd::arithmetic::div_mod::lemma_sub_mod_noop(ct, fb, m);
    lemma_small_mod(dk as nat, m as nat);
    assert((t1 - b1) % m == dk);
    let grew = field(dk, (mw - 4) as nat, 1) == 1;
    assert(grew <==> dk >= h) by {
        if dk >= h {
            lemma_fundamental_div_mod_converse(dk, h, 1, dk - h);
        } else {
            lemma_basic_div(dk, h);
        }
    }
    let (ebt, ee) = spec_compress_bounds(p, b, t);
    if !grew {
        assert(ee == k);
    } else {
        // one more exponent: granules of 2^(k + 4)
        assert(k < p.max_exponent) by {
            if k == p.max_exponent {
                lemma_pow2_adds((k + mw - 2) as nat, 0);
                assert(len >= pow2(aw)) by {
                    assert((k + mw - 2) as nat == aw);
                }
                assert(b == 0 && t == pow2(aw));
                lemma_pow2_adds(k + 3, (mw - 5) as nat);
                assert(t == f * u);
                vstd::arithmetic::div_mod::lemma_mod_multiples_basic(f, u);
                vstd::arithmetic::div_mod::lemma_div_multiples_vanish(f, u);
                vstd::arithmetic::mul::lemma_mul_is_commutative(f, u);
                lemma_basic_div(0, u);
                assert(dk == f);
            }
        }
        let u2 = pow2(k + 4) as int;
        lemma_pow2_adds(k + 3, 1);
        assert(u2 == 2 * u);
        vstd::arithmetic::div_mod::lemma_mod_breakdown(t, u, 2);
        vstd::arithmetic::mul::lemma_mul_is_commutative(u, 2);
        lemma_fundamental_div_mod(t, u);
        lemma_mod_pos_bound(t, u);
        lemma_mod_pos_bound(t / u, 2);
        lemma_div_pos_is_pos(t, u);
        let lost2 = lost || t1 % 2 == 1;
        assert(lost2 <==> t % u2 != 0) by {
            if !lost {
                assert(t1 == (t / u) % m);
                vstd::arithmetic::div_mod::lemma_mod_mod(t / u, 2, m / 2);
                assert(m == 2 * (m / 2));
                assert(u * ((t / u) % 2) == 0 <==> (t / u) % 2 == 0) by (nonlinear_arith)
                    requires u > 0;
            } else {
                assert(0 <= u * ((t / u) % 2)) by (nonlinear_arith)
                    requires u > 0, 0 <= (t / u) % 2;
            }
        }
        lemma_ceil_div(t, u2);
        lemma_pow2_pos(k + 4);
        let ct2 = ceil_div(t, u2);
        let fb2 = b / u2;
        lemma_fundamental_div_mod(b, u2);
        lemma_mod_pos_bound(b, u2);
        lemma_div_pos_is_pos(b, u2);
        let d2 = ct2 - fb2;
        let t2 = (field(t, k + 4, w) + if lost2 { 1int } else { 0 }) % m;
        vstd::arithmetic::div_mod::lemma_add_mod_noop(t / u2, if lost2 { 1int } else { 0 }, m);
        lemma_small_mod((if lost2 { 1nat } else { 0 }), m as nat);
        assert(t2 == ct2 % m);
        assert(d2 * u2 >= len) by (nonlinear_arith)
            requires ct2 * u2 >= t, b == u2 * fb2 + b % u2, 0 <= b % u2, d2 == ct2 - fb2, len == t - b;
        assert(ct2 * u2 < t + u2) by (nonlinear_arith)
            requires (ct2 - 1) * u2 < t;
        assert(fb2 * u2 > b - u2) by (nonlinear_arith)
            requires b == u2 * fb2 + b % u2, b % u2 < u2;
        assert(d2 * u2 == ct2 * u2 - fb2 * u2) by (nonlinear_arith)
            requires d2 == ct2 - fb2;
        assert(len > (h - 2) * u) by (nonlinear_arith)
            requires dk * u < len + 2 * u, dk >= h, u > 0;
        assert(f <= d2) by (nonlinear_arith)
            requires d2 * u2 >= len, len > (h - 2) * u, u2 == 2 * u, u > 0, h == 2 * f;
        assert(d2 < h) by (nonlinear_arith)
            requires d2 * u2 < len + 2 * u2, len < h * u, u2 == 2 * u, u > 0, h == 2 * f, f >= 2;
        assert(ee == k + 1);
    }
}

/// log2 of the granule to which compression rounds `[b, t)`: zero without
/// an internal exponent, three more than the exponent with one.
pub open spec fn spec_granule_bits(p: Profile, b: int, t: int) -> nat {
    let (ebt, ee) = spec_compress_bounds(p, b, t);
    if ebt >= pow2((2 * p.mantissa_width - 2) as nat) {
        ee + 3
    } else {
        0
    }
}

/// Decoding a compressed range against its base gives the base rounded down
/// and the top rounded up to the granule of the chosen exponent.
pub proof fn lemma_decode_compressed(p: Profile, b: int, t: int)
    requires
        valid_profile(p),
        0 <= b <= t <= pow2(p.addr_width as nat),
        b < pow2(p.addr_width as nat),
    ensures
        ({
            let g = pow2(spec_granule_bits(p, b, t)) as int;
            spec_bounds_of(p, spec_compress_bounds(p, b, t).0, b) == ((b / g) * g, ceil_div(t, g) * g)
        }),
        0 <= spec_compress_bounds(p, b, t).0 < pow2(p.ebt_width()),
        ({
            let g = pow2(spec_granule_bits(p, b, t)) as int;
            &&& 0 <= (b / g) * g <= b
            &&& t <= ceil_div(t, g) * g <= pow2(p.addr_width as nat)
        }),
        t - b < pow2((p.mantissa_width - 2) as nat) ==> spec_granule_bits(p, b, t) == 0,
        t - b >= pow2((p.mantissa_width - 2) as nat) ==> spec_granule_bits(p, b, t)
            == spec_compress_bounds(p, b, t).1 + 3,
{
    lemma_profile_facts(p);
    lemma2_to64();
    let mw = p.mantissa_width as nat;
    let aw = p.addr_width as nat;
    let len = t - b;
    let q = pow2((mw - 2) as nat) as int;
    let mm = pow2(mw) as int;
    let f2 = pow2((2 * mw - 2) as nat) as int;
    lemma_pow2_adds((mw - 2) as nat, 2);
    assert(mm == 4 * q);
    lemma_pow2_adds((mw - 2) as nat, mw);
    assert((mw - 2) as nat + mw == (2 * mw - 2) as nat);
    lemma_pow2_pos((mw - 2) as nat);
    let (ebt, ee) = spec_compress_bounds(p, b, t);
    if len < q {
        // exponent zero, no internal exponent: granule 1
        lemma_length_exponent(p, len as nat);
        lemma_pow2_adds((mw - 2) as nat, 1);
        assert(spec_length_exponent(p, len as nat) == 0);
        lemma_basic_div(len, q);
        lemma_small_mod(0, 2);
        assert(field(len, (mw - 2) as nat, 1) == 0);
        let tq = t % q;
        let bm = b % mm;
        lemma_mod_pos_bound(t, q);
        lemma_mod_pos_bound(b, mm);
        assert(ebt == tq * mm + bm);
        assert(tq * mm <= (q - 1) * mm) by (nonlinear_arith)
            requires tq <= q - 1, mm > 0;
        assert((q - 1) * mm == q * mm - mm) by (nonlinear_arith);
        assert(tq * mm + bm < f2);
        assert(0 <= tq * mm) by (nonlinear_arith)
            requires 0 <= tq, mm > 0;
        assert(spec_granule_bits(p, b, t) == 0);
        lemma_pow2_strictly_increases((2 * mw - 2) as nat, p.ebt_width());
        // the fields that extraction reads
        lemma_fundamental_div_mod_converse(ebt, mm, tq, bm);
        lemma_small_mod(tq as nat, q as nat);
        vstd::arithmetic::div_mod::lemma_div_basics(ebt);
        lemma_fundamental_div_mod_converse(ebt, f2, 0, ebt);
        let bb = spec_extract_bounds_bits(p, ebt);
        assert(!bb.ie);
        assert(bb.b == bm);
        // the top mantissa comes back whole
        lemma_fundamental_div_mod(b, mm);
        lemma_div_pos_is_pos(b, mm);
        vstd::arithmetic::div_mod::lemma_mod_multiples_vanish(4 * (b / mm), bm + len, q);
        assert(t == q * (4 * (b / mm)) + (bm + len)) by (nonlinear_arith)
            requires b == mm * (b / mm) + bm, mm == 4 * q, t == b + len;
        vstd::arithmetic::div_mod::lemma_mod_multiples_vanish(b / mm, bm + len, mm);
        assert(t == mm * (b / mm) + (bm + len));
        lemma_top_reconstruction(bm, len, 0, q);
        assert(bb.t == t % mm);
        assert(bm == b % mm && t % mm == (b + len) % mm);
        lemma_mod_pos_bound(bm, q);
        lemma_small_mod(bm as nat, mm as nat);
        assert(bb.e == 0);
        lemma_pow2_adds((mw - 3) as nat, 3);
        vstd::arithmetic::div_mod::lemma_div_basics(b);
        vstd::arithmetic::div_mod::lemma_div_basics(t);
        lemma_ceil_div(t, 1);
        lemma_decode_window(p, bb, b, b, len);
        assert(pow2(0) == 1);
    } else {
        lemma_compress_internal(p, b, t);
        let u = pow2(ee + 3) as int;
        let m = pow2((mw - 3) as nat) as int;
        let f = pow2((mw - 5) as nat) as int;
        let fb = b / u;
        let ct = ceil_div(t, u);
        let d = ct - fb;
        lemma_pow2_pos(ee + 3);
        lemma_pow2_pos((mw - 3) as nat);
        lemma_pow2_pos((mw - 5) as nat);
        lemma_div_pos_is_pos(b, u);
        lemma_ceil_div(t, u);
        let be = fb % m;
        let te = ct % m;
        lemma_mod_pos_bound(fb, m);
        lemma_mod_pos_bound(ct, m);
        assert(ebt >= f2) by {
            lemma_mod_pos_bound(te, f);
            assert(0 <= ((te % f) * 8 + ee / 8) * mm) by (nonlinear_arith)
                requires 0 <= te % f, mm > 0;
        }
        assert(spec_granule_bits(p, b, t) == ee + 3);
        lemma_extract_internal(p, be, te, ee);
        lemma_pow2_adds((2 * mw - 2) as nat, 1);
        assert((2 * mw - 2) as nat + 1 == p.ebt_width());
        let bb = spec_extract_bounds_bits(p, ebt);
        lemma_pow2_adds((mw - 3) as nat, 3);
        lemma_pow2_adds((mw - 5) as nat, 3);
        lemma_pow2_adds((mw - 5) as nat, 2);
        assert(mm == 8 * m && q == 8 * f && m == f * 4);
        let x = 8 * fb;
        let y = 8 * ct;
        let delta = 8 * d;
        lemma_scaled_div_mod(fb, 8, m);
        assert(bb.b == x % mm);
        vstd::arithmetic::div_mod::lemma_mod_mod(ct, f, 4);
        lemma_scaled_div_mod(ct, 8, f);
        let tl = (te % f) * 8;
        assert(tl == y % q);
        // the implied top bits are right
        let bm = x % mm;
        lemma_mod_pos_bound(x, mm);
        lemma_fundamental_div_mod(x, mm);
        lemma_div_pos_is_pos(x, mm);
        assert(y == mm * (x / mm) + (bm + delta));
        assert(y == q * (4 * (x / mm)) + (bm + delta)) by (nonlinear_arith)
            requires y == mm * (x / mm) + (bm + delta), mm == 4 * q;
        vstd::arithmetic::div_mod::lemma_mod_multiples_vanish(4 * (x / mm), bm + delta, q);
        vstd::arithmetic::div_mod::lemma_mod_multiples_vanish(x / mm, bm + delta, mm);
        lemma_top_reconstruction(bm, delta, 1, q);
        assert(bb.t == y % mm);
        // the windows of the address and of the mantissas agree
        let s = pow2(ee) as int;
        lemma_pow2_adds(ee, 3);
        lemma_pow2_pos(ee);
        assert(x * s == fb * u) by (nonlinear_arith)
            requires x == 8 * fb, u == s * 8;
        lemma_fundamental_div_mod(b, u);
        lemma_mod_pos_bound(b, u);
        assert(fb * u <= b) by (nonlinear_arith)
            requires b == u * fb + b % u, 0 <= b % u;
        assert((x + delta) * s == ct * u) by (nonlinear_arith)
            requires x + delta == 8 * ct, u == s * 8;
        assert(ee + 3 <= aw);
        lemma_pow2_adds(ee + 3, (aw - (ee + 3)) as nat);
        vstd::arithmetic::mul::lemma_mul_is_commutative(u, pow2((aw - (ee + 3)) as nat) as int);
        lemma_ceil_div_le(t, u, pow2((aw - (ee + 3)) as nat) as int);
        assert(ct * u <= pow2((aw - (ee + 3)) as nat) * u) by (nonlinear_arith)
            requires ct <= pow2((aw - (ee + 3)) as nat), u > 0;
        let e8 = pow2((mw - 3) as nat) as int;
        let g6 = pow2((mw - 6) as nat) as int;
        lemma_pow2_pos((mw - 6) as nat);
        lemma_pow2_adds((mw - 6) as nat, 3);
        lemma_scaled_div_mod(fb, 8, g6);
        vstd::arithmetic::div_mod::lemma_div_denominator(b, u, g6);
        lemma_pow2_adds(ee + 3, (mw - 6) as nat);
        assert(ee + 3 + (mw - 6) as nat == (ee + mw - 3) as nat);
        assert(field(b, (ee + mw - 3) as nat, 3) == (x / e8) % 8);
        lemma_scaled_div_mod(fb, 8, m);
        vstd::arithmetic::div_mod::lemma_div_denominator(b, u, m);
        lemma_pow2_adds(ee + 3, (mw - 3) as nat);
        assert(ee + 3 + (mw - 3) as nat == (ee + mw) as nat);
        assert(b / pow2((ee + mw) as nat) as int == x / mm);
        lemma_pow2_adds((mw - 1) as nat, 1);
        assert(bb.e == ee);
        lemma_decode_window(p, bb, b, x, delta);
        assert(0 <= fb * u) by (nonlinear_arith)
            requires 0 <= fb, u > 0;
        vstd::arithmetic::mul::lemma_mul_is_commutative(fb, u);
    }
}

/// A field below bit `w` of `x` with its low `w` bits replaced by `v` is the
/// field of `v`.
proof fn lemma_field_of_low_deposit(x: int, w: nat, v: int, start: nat, size: nat)
    requires
        0 <= x,
        0 <= v < pow2(w),
        start + size <= w,
    ensures
        field(deposit(x, 0, w, v), start, size) == field(v, start, size),
{
    lemma2_to64();
    lemma_pow2_pos(w);
    lemma_pow2_pos(start);
    lemma_pow2_pos(size);
    let hw = x / pow2(w) as int;
    lemma_div_pos_is_pos(x, pow2(w) as int);
    lemma_small_mod(v as nat, pow2(w));
    vstd::arithmetic::div_mod::lemma_div_basics(x);
    assert(pow2(0) == 1);
    vstd::arithmetic::div_mod::lemma_mod_self_0(1);
    vstd::arithmetic::div_mod::lemma_small_mod(0, 1);
    vstd::arithmetic::div_mod::lemma_mod_multiples_basic(x, 1);
    assert(x % 1 == 0);
    assert(deposit(x, 0, w, v) == hw * pow2(w) + v);
    let ps = pow2(start) as int;
    let pn = pow2(size) as int;
    let rest = pow2((w - start - size) as nat) as int;
    lemma_pow2_pos((w - start - size) as nat);
    lemma_pow2_adds(start, (w - start) as nat);
    lemma_pow2_adds(size, (w - start - size) as nat);
    lemma_fundamental_div_mod(v, ps);
    lemma_mod_pos_bound(v, ps);
    lemma_div_pos_is_pos(v, ps);
    assert(hw * pow2(w) + v == ps * (hw * rest * pn + v / ps) + v % ps) by (nonlinear_arith)
        requires pow2(w) == ps * pow2((w - start) as nat), pow2((w - start) as nat) == pn * rest,
            v == ps * (v / ps) + v % ps;
    assert(0 <= hw * rest * pn) by (nonlinear_arith)
        requires 0 <= hw, 0 < rest, 0 < pn;
    lemma_fundamental_div_mod_converse(hw * pow2(w) + v, ps, hw * rest * pn + v / ps, v % ps);
    vstd::arithmetic::div_mod::lemma_mod_multiples_vanish(hw * rest, v / ps, pn);
    assert(pn * (hw * rest) == hw * rest * pn) by (nonlinear_arith);
}

/// Extraction reads only the bounds part of the metadata word.
pub proof fn lemma_extract_low_deposit(p: Profile, x: int, v: int)
    requires
        valid_profile(p),
        0 <= x,
        0 <= v < pow2(p.ebt_width()),
    ensures
        spec_extract_bounds_bits(p, deposit(x, 0, p.ebt_width(), v)) == spec_extract_bounds_bits(p, v),
{
    lemma_profile_facts(p);
    let mw = p.mantissa_width as nat;
    let w = p.ebt_width();
    lemma_field_of_low_deposit(x, w, v, (2 * mw - 2) as nat, 1);
    lemma_field_of_low_deposit(x, w, v, mw, (mw - 2) as nat);
    lemma_field_of_low_deposit(x, w, v, 0, mw);
}

/// With a base aligned to the granule of `[0, len)`, the range `[b, b + len)`
/// is compressed with that same granule.
pub proof fn lemma_granule_aligned(p: Profile, b: int, len: int)
    requires
        valid_profile(p),
        0 <= b < pow2(p.addr_width as nat),
        0 <= len,
        b + len <= pow2(p.addr_width as nat),
        b % (pow2(spec_granule_bits(p, 0, len)) as int) == 0,
    ensures
        spec_granule_bits(p, b, b + len) == spec_granule_bits(p, 0, len),
{
    lemma_profile_facts(p);
    let mw = p.mantissa_width as nat;
    let q = pow2((mw - 2) as nat) as int;
    lemma_pow2_pos(p.addr_width as nat);
    lemma_decode_compressed(p, 0, len);
    lemma_decode_compressed(p, b, b + len);
    if len >= q {
        lemma_compress_internal(p, 0, len);
        lemma_compress_internal(p, b, b + len);
        let k = spec_length_exponent(p, len as nat);
        assert(spec_length_exponent(p, (b + len - b) as nat) == k);
        assert(spec_length_exponent(p, (len - 0) as nat) == k);
        let uk = pow2(k + 3) as int;
        lemma_pow2_pos(k + 3);
        let e0 = spec_compress_bounds(p, 0, len).1;
        let a = pow2(e0 + 3) as int;
        lemma_pow2_pos(e0 + 3);
        // the base is a multiple of the smaller granule 2^(k + 3) too
        lemma_pow2_adds(k + 3, (e0 - k) as nat);
        assert(k + 3 + (e0 - k) as nat == e0 + 3);
        lemma_fundamental_div_mod(b, a);
        let j = b / a;
        lemma_div_pos_is_pos(b, a);
        assert(b == uk * (j * pow2((e0 - k) as nat))) by (nonlinear_arith)
            requires b == a * j + 0, a == uk * pow2((e0 - k) as nat);
        let jj = j * pow2((e0 - k) as nat);
        vstd::arithmetic::div_mod::lemma_div_multiples_vanish(jj, uk);
        vstd::arithmetic::div_mod::lemma_hoist_over_denominator(len + uk - 1, jj, uk as nat);
        vstd::arithmetic::mul::lemma_mul_is_commutative(jj, uk);
        assert(ceil_div(b + len, uk) - b / uk == ceil_div(len, uk) - 0int / uk) by {
            vstd::arithmetic::div_mod::lemma_div_of0(uk);
        }
    }
}

} // verus!
