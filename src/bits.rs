//! Powers of two and bit fields of a metadata word, stated over integers.
use vstd::prelude::*;
use vstd::arithmetic::power2::{pow2, lemma_pow2_adds, lemma2_to64};
use vstd::bits::{lemma_u64_shl_is_mul, lemma_u64_pow2_no_overflow};

verus! {

/// `2^n` as a `u128`.
pub fn pow2_u128(n: u32) -> (r: u128)
    requires
        n < 128,
    ensures
        r == pow2(n as nat),
        r > 0,
{
    if n < 64 {
        proof {
            lemma_u64_pow2_no_overflow(n as nat);
        vstd::arithmetic::power2::lemma_pow2_pos(n as nat);
            lemma_u64_shl_is_mul(1, n as u64);
        }
        (1u64 << n) as u128
    } else {
        let k: u32 = n - 64;
        proof {
            lemma_u64_pow2_no_overflow(k as nat);
        vstd::arithmetic::power2::lemma_pow2_pos(n as nat);
            lemma_u64_shl_is_mul(1, k as u64);
            lemma_pow2_adds(k as nat, 64);
            lemma2_to64();
            assert(pow2(k as nat) * pow2(64) < 0x1_0000_0000_0000_0000 * 0x1_0000_0000_0000_0000)
                by (nonlinear_arith)
                requires pow2(k as nat) < 0x1_0000_0000_0000_0000, pow2(64) == 0x1_0000_0000_0000_0000;
        }
        ((1u64 << k) as u128) * 0x1_0000_0000_0000_0000u128
    }
}

/// The `size`-bit field of `x` that starts at bit `start`.
pub open spec fn field(x: int, start: nat, size: nat) -> int {
    (x / pow2(start) as int) % pow2(size) as int
}

/// `x` with its `size`-bit field at `start` replaced by the low `size` bits of
/// `v`: the bits above the field, the new field, the bits below it.
pub open spec fn deposit(x: int, start: nat, size: nat, v: int) -> int {
    (x / pow2(start + size) as int) * pow2(start + size) + (v % pow2(size) as int) * pow2(start)
        + x % pow2(start) as int
}

/// Ranges of a quotient, of a field of it, and of a remainder.
pub proof fn lemma_div_mod_bounds(x: int, d: int, m: int)
    requires
        0 <= x,
        0 < d,
        0 < m,
    ensures
        0 <= x / d <= x,
        0 <= (x / d) % m <= x / d,
        (x / d) * d <= x,
        x % d < d,
{
    vstd::arithmetic::div_mod::lemma_div_pos_is_pos(x, d);
    vstd::arithmetic::div_mod::lemma_div_is_ordered_by_denominator(x, 1, d);
    vstd::arithmetic::div_mod::lemma_mod_decreases((x / d) as nat, m as nat);
    vstd::arithmetic::div_mod::lemma_fundamental_div_mod(x, d);
    vstd::arithmetic::div_mod::lemma_mod_pos_bound(x, d);
}

/// Reads the `size`-bit field at `start` of `x`.
pub fn get_field(x: u64, start: u32, size: u32) -> (r: u64)
    requires
        start + size <= 64,
    ensures
        r == field(x as int, start as nat, size as nat),
        r < pow2(size as nat),
{
    let p = pow2_u128(start);
    let m = pow2_u128(size);
    proof {
        lemma_div_mod_bounds(x as int, p as int, m as int);
    }
    ((x as u128 / p) % m) as u64
}

/// Replacing a field below bit `w` keeps a `w`-bit word within `w` bits and
/// leaves the bits above the field alone.
pub proof fn lemma_deposit_bound(x: int, s: nat, n: nat, v: int, w: nat)
    requires
        0 <= x < pow2(w),
        0 <= v,
        s + n <= w,
    ensures
        0 <= deposit(x, s, n, v) < pow2(w),
        deposit(x, s, n, v) / pow2(s + n) as int == x / pow2(s + n) as int,
{
    let p = pow2(s) as int;
    let m = pow2(n) as int;
    let pm = pow2(s + n) as int;
    let hi = x / pm;
    let vv = v % m;
    let lo = x % p;
    vstd::arithmetic::power2::lemma_pow2_pos(s);
    vstd::arithmetic::power2::lemma_pow2_pos(n);
    lemma_pow2_adds(s, n);
    lemma_pow2_adds(s + n, (w - (s + n)) as nat);
    lemma_div_mod_bounds(x, pm, 1);
    vstd::arithmetic::div_mod::lemma_mod_pos_bound(v, m);
    vstd::arithmetic::div_mod::lemma_mod_pos_bound(x, p);
    assert(vv * p + lo < pm) by (nonlinear_arith)
        requires 0 <= vv < m, 0 <= lo < p, pm == p * m;
    assert(0 <= vv * p) by (nonlinear_arith) requires 0 <= vv, 0 < p;
    let k = pow2((w - (s + n)) as nat) as int;
    assert(hi < k) by {
        vstd::arithmetic::div_mod::lemma_multiply_divide_lt(x, pm, k);
    }
    assert(hi * pm + pm <= pow2(w)) by (nonlinear_arith)
        requires hi < k, pow2(w) == pm * k, 0 < pm;
    vstd::arithmetic::div_mod::lemma_fundamental_div_mod_converse(
        hi * pm + (vv * p + lo), pm, hi, vv * p + lo);
}

/// Replaces the `size`-bit field at `start` of a `w`-bit word by the low
/// `size` bits of `v`.
pub fn set_field(x: u64, start: u32, size: u32, v: u64, w: u32) -> (r: u64)
    requires
        start + size <= w <= 64,
        x < pow2(w as nat),
    ensures
        r == deposit(x as int, start as nat, size as nat, v as int),
        r < pow2(w as nat),
{
    let p = pow2_u128(start);
    let m = pow2_u128(size);
    let pm = pow2_u128(start + size);
    proof {
        lemma_deposit_bound(x as int, start as nat, size as nat, v as int, w as nat);
        lemma_div_mod_bounds(x as int, pm as int, 1);
        lemma_div_mod_bounds(x as int, p as int, 1);
        lemma_div_mod_bounds(v as int, m as int, 1);
        vstd::arithmetic::div_mod::lemma_mod_pos_bound(v as int, m as int);
        if w == 64 {
            lemma2_to64();
        } else {
            vstd::arithmetic::power2::lemma_pow2_strictly_increases(w as nat, 64);
            lemma2_to64();
        }
        let vv = v as int % m as int;
        assert(0 <= vv * p) by (nonlinear_arith) requires 0 <= vv, 0 < p;
        assert(0 <= (x as int / pm as int) * pm) by (nonlinear_arith)
            requires 0 <= x as int / pm as int, 0 < pm;
    }
    let r = (x as u128 / pm) * pm + (v as u128 % m) * p + x as u128 % p;
    r as u64
}

/// `n / d`, rounded up.
pub open spec fn ceil_div(n: int, d: int) -> int {
    (n + d - 1) / d
}

/// Rounding up: at most one more than the rounded-down quotient, and within
/// one divisor above `n`.
pub proof fn lemma_ceil_div(n: int, d: int)
    requires
        0 <= n,
        0 < d,
    ensures
        ceil_div(n, d) == n / d + (if n % d == 0 { 0int } else { 1 }),
        ceil_div(n, d) * d >= n,
        (ceil_div(n, d) - 1) * d < n || n == 0,
        n % d == 0 ==> ceil_div(n, d) * d == n,
        0 <= ceil_div(n, d),
        d == 1 ==> ceil_div(n, d) == n,
{
    vstd::arithmetic::div_mod::lemma_div_basics(n);
    vstd::arithmetic::div_mod::lemma_fundamental_div_mod(n, d);
    vstd::arithmetic::div_mod::lemma_mod_pos_bound(n, d);
    let q = n / d;
    let r = n % d;
    vstd::arithmetic::mul::lemma_mul_is_commutative(q, d);
    assert((q + 1) * d == q * d + d) by (nonlinear_arith);
    assert((q - 1) * d == q * d - d) by (nonlinear_arith);
    if r == 0 {
        vstd::arithmetic::div_mod::lemma_fundamental_div_mod_converse(n + d - 1, d, q, d - 1);
    } else {
        vstd::arithmetic::div_mod::lemma_fundamental_div_mod_converse(n + d - 1, d, q + 1, r - 1);
    }
    vstd::arithmetic::div_mod::lemma_div_pos_is_pos(n, d);
    assert((q + 1) * d == q * d + d) by (nonlinear_arith);
}

/// A number no larger than `m * a` rounds up to at most `m` multiples of `a`.
pub proof fn lemma_ceil_div_le(n: int, a: int, m: int)
    requires
        0 <= n <= m * a,
        0 < a,
    ensures
        ceil_div(n, a) <= m,
{
    lemma_ceil_div(n, a);
    let c = ceil_div(n, a);
    if n > 0 {
        assert(c <= m) by (nonlinear_arith)
            requires (c - 1) * a < n, n <= m * a, 0 < a;
    } else {
        vstd::arithmetic::div_mod::lemma_basic_div(a - 1, a);
        assert(m >= 0) by (nonlinear_arith)
            requires 0 <= m * a, a > 0;
    }
}

/// Reading back a replaced field gives the low bits written.
pub proof fn lemma_field_of_deposit(x: int, s: nat, n: nat, v: int)
    requires
        0 <= x,
        0 <= v,
    ensures
        field(deposit(x, s, n, v), s, n) == v % pow2(n) as int,
{
    let ps = pow2(s) as int;
    let pn = pow2(n) as int;
    vstd::arithmetic::power2::lemma_pow2_pos(s);
    vstd::arithmetic::power2::lemma_pow2_pos(n);
    lemma_pow2_adds(s, n);
    vstd::arithmetic::power2::lemma_pow2_pos(s + n);
    let hi = x / pow2(s + n) as int;
    let vv = v % pn;
    let lo = x % ps;
    vstd::arithmetic::div_mod::lemma_div_pos_is_pos(x, pow2(s + n) as int);
    vstd::arithmetic::div_mod::lemma_mod_pos_bound(v, pn);
    vstd::arithmetic::div_mod::lemma_mod_pos_bound(x, ps);
    assert(deposit(x, s, n, v) == ps * (hi * pn + vv) + lo) by (nonlinear_arith)
        requires deposit(x, s, n, v) == hi * pow2(s + n) + vv * ps + lo, pow2(s + n) == ps * pn;
    assert(0 <= hi * pn + vv) by (nonlinear_arith)
        requires 0 <= hi, 0 < pn, 0 <= vv;
    vstd::arithmetic::div_mod::lemma_fundamental_div_mod_converse(deposit(x, s, n, v), ps, hi * pn + vv, lo);
    vstd::arithmetic::div_mod::lemma_mod_multiples_vanish(hi, vv, pn);
    vstd::arithmetic::mul::lemma_mul_is_commutative(hi, pn);
    vstd::arithmetic::div_mod::lemma_small_mod(vv as nat, pn as nat);
}

} // verus!
