//! Exact unsigned division of 256-bit operands into a 64.64 fixed-point quotient.

use vstd::prelude::*;
use vstd::arithmetic::power2::pow2;
use crate::error::AMMError;
use crate::u256::{
    U256, two64, two128, two192, two256, max128, lemma_pow2_constants, mul_wrapping, div, shl,
    shr, sub_overflowing, add_overflowing, lt,
};

verus! {

/// `floor(x * 2^64 / y)`, the exact 64.64 quotient.
pub open spec fn q64_quotient(x: nat, y: nat) -> nat {
    (x * two64()) / y
}

/// What the division owes on the path taken for dividends below 2^192: the quotient,
/// saturated at the largest `u128`.
pub open spec fn q64_saturated(x: nat, y: nat) -> u128 {
    if q64_quotient(x, y) <= max128() {
        q64_quotient(x, y) as u128
    } else {
        u128::MAX
    }
}

/// What the division owes on the normalised path (dividends of 2^192 and above): the quotient,
/// or zero where it does not fit in a `u128`.
pub open spec fn q64_or_zero(x: nat, y: nat) -> u128 {
    if q64_quotient(x, y) <= max128() {
        q64_quotient(x, y) as u128
    } else {
        0
    }
}

/// The position of the highest set bit of `v` (0 for 0 and 1).
pub open spec fn top_bit(v: nat) -> nat
    decreases v,
{
    if v < 2 {
        0
    } else {
        1 + top_bit(v / 2)
    }
}

/// The normalised first estimate for a dividend of 2^192 or more: with `m` the top bit of
/// `x / 2^192`, the dividend shifted left by `63 - m` over the divisor shifted right by `m + 1`
/// and rounded up.
pub open spec fn first_estimate_of(x: nat, y: nat) -> nat {
    let m = top_bit(x / two192());
    (x * pow2((63 - m) as nat)) / (((y - 1) as nat) / pow2(m + 1) + 1)
}

/// What `div_uu(x, y)` returns. For dividends of 2^192 or more, `RoundingError` comes exactly
/// where the remainder left by the first estimate does not fit in 256 bits.
pub open spec fn div_64x64(x: nat, y: nat) -> Result<u128, AMMError> {
    if y == 0 {
        Err(AMMError::DivisionByZero)
    } else if x < two192() {
        Ok(q64_saturated(x, y))
    } else if first_estimate_of(x, y) > max128() {
        Ok(0)
    } else if x * two64() - first_estimate_of(x, y) * y >= two256() {
        Err(AMMError::RoundingError)
    } else {
        Ok(q64_or_zero(x, y))
    }
}

/// Bounds by powers of two fix the top bit.
proof fn lemma_top_bit(v: nat, r: nat)
    requires
        pow2(r) <= v < pow2(r + 1),
    ensures
        top_bit(v) == r,
    decreases r,
{
    vstd::arithmetic::power2::lemma_pow2_unfold(r + 1);
    if r == 0 {
        vstd::arithmetic::power2::lemma2_to64();
    } else {
        vstd::arithmetic::power2::lemma_pow2_unfold(r);
        vstd::arithmetic::power2::lemma_pow2_pos((r - 1) as nat);
        assert(pow2((r - 1) as nat) <= v / 2 < pow2(r));
        lemma_top_bit(v / 2, (r - 1) as nat);
    }
}

pub(crate) proof fn lemma_floor_div(n: int, d: int)
    requires
        0 <= n,
        0 < d,
    ensures
        (n / d) * d <= n < (n / d) * d + d,
        0 <= n / d,
{
    vstd::arithmetic::div_mod::lemma_fundamental_div_mod(n, d);
    vstd::arithmetic::div_mod::lemma_mod_pos_bound(n, d);
    vstd::arithmetic::div_mod::lemma_div_pos_is_pos(n, d);
    vstd::arithmetic::mul::lemma_mul_is_commutative(d, n / d);
}

/// `a * d <= n` makes `a` at most `n / d`.
pub(crate) proof fn lemma_le_floor(a: int, n: int, d: int)
    requires
        0 <= n,
        0 < d,
        a * d <= n,
    ensures
        a <= n / d,
{
    lemma_floor_div(n, d);
    let q = n / d;
    if a > q {
        assert(a * d >= q * d + d) by (nonlinear_arith)
            requires
                a >= q + 1,
                d > 0,
        ;
    }
}

/// One halving step: shifting the running value right by `k` bits moves the exponent by `k`.
proof fn lemma_halving_step(v: u64, m: nat, xc: u64, k: u64)
    requires
        xc == v as nat / pow2(m),
        k < 64,
    ensures
        (xc >> k) == v as nat / pow2(m + k as nat),
{
    vstd::bits::lemma_u64_shr_is_div(xc, k);
    vstd::arithmetic::power2::lemma_pow2_pos(m);
    vstd::arithmetic::power2::lemma_pow2_pos(k as nat);
    vstd::arithmetic::power2::lemma_pow2_adds(m, k as nat);
    vstd::arithmetic::div_mod::lemma_div_denominator(v as int, pow2(m) as int, pow2(k as nat) as int);
}

/// Position of the most significant set bit of `v`, found by successive halving.
fn msb_of(v: u64) -> (r: u64)
    requires
        v >= 1,
    ensures
        r < 64,
        pow2(r as nat) <= v < pow2(r as nat + 1),
        r == top_bit(v as nat),
{
    let mut xc: u64 = v;
    let mut m: u64 = 0;
    proof {
        vstd::arithmetic::power2::lemma2_to64();
        assert(v as nat / 1 == v as nat);
    }
    if xc >= 0x1_0000_0000 {
        proof { lemma_halving_step(v, m as nat, xc, 32); }
        let old_xc = xc;
        xc = xc >> 32u64;
        m = m + 32;
        assert(xc < 0x1_0000_0000 && xc >= 1) by (bit_vector)
            requires xc == old_xc >> 32u64, old_xc >= 0x1_0000_0000,
        ;
    }
    if xc >= 0x1_0000 {
        proof { lemma_halving_step(v, m as nat, xc, 16); }
        let old_xc = xc;
        xc = xc >> 16u64;
        m = m + 16;
        assert(xc < 0x1_0000 && xc >= 1) by (bit_vector)
            requires xc == old_xc >> 16u64, old_xc >= 0x1_0000, old_xc < 0x1_0000_0000,
        ;
    }
    if xc >= 0x100 {
        proof { lemma_halving_step(v, m as nat, xc, 8); }
        let old_xc = xc;
        xc = xc >> 8u64;
        m = m + 8;
        assert(xc < 0x100 && xc >= 1) by (bit_vector)
            requires xc == old_xc >> 8u64, old_xc >= 0x100, old_xc < 0x1_0000,
        ;
    }
    if xc >= 0x10 {
        proof { lemma_halving_step(v, m as nat, xc, 4); }
        let old_xc = xc;
        xc = xc >> 4u64;
        m = m + 4;
        assert(xc < 0x10 && xc >= 1) by (bit_vector)
            requires xc == old_xc >> 4u64, old_xc >= 0x10, old_xc < 0x100,
        ;
    }
    if xc >= 0x4 {
        proof { lemma_halving_step(v, m as nat, xc, 2); }
        let old_xc = xc;
        xc = xc >> 2u64;
        m = m + 2;
        assert(xc < 0x4 && xc >= 1) by (bit_vector)
            requires xc == old_xc >> 2u64, old_xc >= 0x4, old_xc < 0x10,
        ;
    }
    if xc >= 0x2 {
        proof { lemma_halving_step(v, m as nat, xc, 1); }
        let old_xc = xc;
        xc = xc >> 1u64;
        m = m + 1;
        assert(xc == 1) by (bit_vector)
            requires xc == old_xc >> 1u64, old_xc >= 2, old_xc < 4,
        ;
    }
    proof {
        assert(v as nat / pow2(m as nat) == 1);
        vstd::arithmetic::power2::lemma_pow2_pos(m as nat);
        lemma_floor_div(v as int, pow2(m as nat) as int);
        vstd::arithmetic::power2::lemma_pow2_unfold(m as nat + 1);
        lemma_top_bit(v as nat, m as nat);
    }
    m
}

/// The normalised first estimate never exceeds the true quotient.
proof fn lemma_estimate_below(x: int, y: int, s: nat, k: nat, d: int, a: int)
    requires
        0 <= x,
        1 <= y,
        s + k == 64,
        d == (y - 1) / (pow2(k) as int) + 1,
        a == (x * pow2(s)) / d,
    ensures
        a * y <= x * two64(),
        0 <= a,
{
    lemma_pow2_constants();
    vstd::arithmetic::power2::lemma_pow2_adds(s, k);
    vstd::arithmetic::power2::lemma_pow2_pos(k);
    vstd::arithmetic::power2::lemma_pow2_pos(s);
    let p = pow2(k) as int;
    let ps = pow2(s) as int;
    lemma_floor_div(y - 1, p);
    assert(d * p >= y) by (nonlinear_arith)
        requires
            d == (y - 1) / p + 1,
            (y - 1) < ((y - 1) / p) * p + p,
    ;
    assert(x * ps >= 0) by (nonlinear_arith) requires x >= 0, ps > 0;
    assert(d >= 1) by (nonlinear_arith) requires d * p >= y, y >= 1, p > 0;
    lemma_floor_div(x * ps, d);
    assert(a * y <= x * two64()) by (nonlinear_arith)
        requires
            a >= 0,
            a * d <= x * ps,
            d * p >= y,
            ps * p == two64(),
            p > 0,
    ;
}

/// The correction step: it reconstructs `x * 2^64 - answer * y` in two limbs, borrowing from the
/// high limb where the low one underflows. The high limb never underflows; where it comes out
/// as `hi / 2^128` the low limb is the exact remainder, and below 2^192 it always does.
proof fn lemma_correction(
    x: int,
    y: int,
    a: int,
    h: int,
    lo: int,
    lo2: int,
    xh0: int,
    xl0: int,
    b1: bool,
    xl1: int,
    b2: bool,
    xl2: int,
)
    requires
        0 <= x < two256(),
        0 < y < two256(),
        0 <= a <= max128(),
        a * y <= x * two64(),
        h == a * (y / two128() as int),
        lo == a * (y % two128() as int),
        xh0 == x / two192() as int,
        xl0 == (x * two64()) % two256() as int,
        b1 == (xl0 < lo),
        xl1 == (xl0 - lo) % two256() as int,
        lo2 == (h * two128()) % two256() as int,
        b2 == (xl1 < lo2),
        xl2 == (xl1 - lo2) % two256() as int,
    ensures
        b1 ==> xh0 >= 1,
        b2 ==> xh0 - (if b1 { 1int } else { 0 }) >= 1,
        ({
            let xh2 = xh0 - (if b1 { 1int } else { 0 }) - (if b2 { 1int } else { 0 });
            &&& xh2 == h / two128() as int ==> xl2 == x * two64() - a * y
            &&& (xh2 == h / two128() as int) == (x * two64() - a * y < two256())
        }),
{
    let t64 = two64() as int;
    let t128 = two128() as int;
    let t192 = two192() as int;
    let t256 = two256() as int;
    assert(t128 == t64 * t64 && t192 == t64 * t128 && t256 == t128 * t128);
    // x * 2^64 split into limbs.
    lemma_floor_div(x, t192);
    let xr = x - xh0 * t192;
    assert(x * t64 == xh0 * t256 + xr * t64 && 0 <= xr * t64 < t256) by (nonlinear_arith)
        requires
            xr == x - xh0 * t192,
            0 <= xr < t192,
            t256 == t192 * t64,
            t192 == t64 * t128,
            t64 > 0,
    ;
    vstd::arithmetic::div_mod::lemma_fundamental_div_mod_converse(x * t64, t256, xh0, xr * t64);
    assert(xl0 == xr * t64);
    // answer * y split into the two partial products.
    let yh = y / t128;
    let yl = y % t128;
    lemma_floor_div(y, t128);
    vstd::arithmetic::div_mod::lemma_fundamental_div_mod(y, t128);
    assert(a * y == h * t128 + lo) by (nonlinear_arith)
        requires
            y == t128 * yh + yl,
            h == a * yh,
            lo == a * yl,
    ;
    assert(0 <= lo < t256 && 0 <= h) by (nonlinear_arith)
        requires
            lo == a * yl,
            0 <= yl < t128,
            0 <= a < t128,
            h == a * yh,
            yh >= 0,
            t256 == t128 * t128,
    ;
    lemma_floor_div(h, t128);
    let hq = h / t128;
    let hr = h - hq * t128;
    assert(h * t128 == hq * t256 + hr * t128 && 0 <= hr * t128 < t256) by (nonlinear_arith)
        requires
            hr == h - hq * t128,
            0 <= hr < t128,
            t256 == t128 * t128,
    ;
    vstd::arithmetic::div_mod::lemma_fundamental_div_mod_converse(h * t128, t256, hq, hr * t128);
    assert(lo2 == hr * t128);
    // The first subtraction.
    if b1 {
        vstd::arithmetic::div_mod::lemma_fundamental_div_mod_converse(
            xl0 - lo, t256, -1, xl0 - lo + t256);
    } else {
        vstd::arithmetic::div_mod::lemma_fundamental_div_mod_converse(xl0 - lo, t256, 0, xl0 - lo);
    }
    let xh1 = xh0 - (if b1 { 1int } else { 0 });
    assert(xh1 * t256 + xl1 == x * t64 - lo);
    // The second subtraction.
    if b2 {
        vstd::arithmetic::div_mod::lemma_fundamental_div_mod_converse(
            xl1 - lo2, t256, -1, xl1 - lo2 + t256);
    } else {
        vstd::arithmetic::div_mod::lemma_fundamental_div_mod_converse(
            xl1 - lo2, t256, 0, xl1 - lo2);
    }
    let xh2 = xh1 - (if b2 { 1int } else { 0 });
    assert(xh2 * t256 + xl2 == x * t64 - a * y + hq * t256);
    let dd = xh2 - hq;
    assert(dd * t256 == x * t64 - a * y - xl2);
    if x * t64 - a * y < t256 {
        assert(dd == 0) by (nonlinear_arith)
            requires
                dd * t256 == x * t64 - a * y - xl2,
                0 <= x * t64 - a * y < t256,
                0 <= xl2 < t256,
        ;
    } else {
        assert(dd != 0) by (nonlinear_arith)
            requires
                dd * t256 == x * t64 - a * y - xl2,
                x * t64 - a * y >= t256,
                0 <= xl2 < t256,
        ;
    }
}

/// The normalised first estimate for dividends of 2^192 and above: the dividend shifted so its
/// top bit is bit 255, divided by the divisor shifted right by the matching amount and rounded up.
fn first_estimate(x: U256, y: U256) -> (a: U256)
    requires
        y.value() != 0,
        x.value() >= two192(),
    ensures
        a.value() * y.value() <= x.value() * two64(),
        a.value() == first_estimate_of(x.value(), y.value()),
{
    proof {
        lemma_pow2_constants();
        x.lemma_value_bound();
        y.lemma_value_bound();
    }
    let ghost xv = x.value() as int;
    let ghost yv = y.value() as int;
    let one = U256::from_u64(1);
    let top = shr(x, 192);
    proof {
        lemma_floor_div(xv, two192() as int);
        assert(top.value() < two64()) by (nonlinear_arith)
            requires
                top.value() * two192() <= xv,
                xv < two256(),
                two256() == two192() * two64(),
        ;
        lemma_le_floor(1, xv, two192() as int);
    }
    assert(top.value() >= 1);
    let xc = top.l0;
    assert(xc == top.value());
    let m = msb_of(xc);
    let msb: usize = 192 + m as usize;
    let y1 = sub_overflowing(y, one).0;
    proof {
        vstd::arithmetic::div_mod::lemma_small_mod((yv - 1) as nat, two256());
    }
    let k: usize = msb - 191;
    let s: usize = 255 - msb;
    let d0 = shr(y1, k);
    proof {
        vstd::arithmetic::power2::lemma_pow2_pos(k as nat);
        vstd::arithmetic::power2::lemma_pow2_unfold(k as nat);
        vstd::arithmetic::power2::lemma_pow2_pos((k - 1) as nat);
        lemma_floor_div(yv - 1, pow2(k as nat) as int);
        assert(d0.value() < two256() - 1) by (nonlinear_arith)
            requires
                d0.value() * pow2(k as nat) <= yv - 1,
                pow2(k as nat) >= 2,
                yv < two256(),
        ;
    }
    let d = add_overflowing(d0, one).0;
    proof {
        vstd::arithmetic::div_mod::lemma_small_mod((d0.value() + 1) as nat, two256());
        // The shifted dividend keeps its top bit at 255 and does not wrap.
        vstd::arithmetic::power2::lemma_pow2_adds(m as nat + 1, 192);
        vstd::arithmetic::power2::lemma_pow2_adds(m as nat + 193, s as nat);
        vstd::arithmetic::power2::lemma_pow2_pos(s as nat);
        assert(xv < pow2(m as nat + 193)) by (nonlinear_arith)
            requires
                xv < (xv / two192() as int) * two192() + two192(),
                xv / two192() as int + 1 <= pow2(m as nat + 1),
                pow2(m as nat + 193) == pow2(m as nat + 1) * pow2(192),
                pow2(192) == two192(),
        ;
        assert(xv * pow2(s as nat) < two256()) by (nonlinear_arith)
            requires
                0 <= xv < pow2(m as nat + 193),
                pow2(s as nat) > 0,
                pow2(m as nat + 193) * pow2(s as nat) == pow2(256),
                pow2(256) == two256(),
        ;
        vstd::arithmetic::div_mod::lemma_small_mod((xv * pow2(s as nat)) as nat, two256());
    }
    let shifted = shl(x, s);
    let a = div(shifted, d);
    proof {
        lemma_estimate_below(xv, yv, s as nat, k as nat, d.value() as int, a.value() as int);
        assert(m as nat == top_bit(x.value() / two192()));
    }
    a
}

/// The correction step: the remainder `x * 2^64 - answer * y`, rebuilt from a high and a low
/// limb, or `None` where the high limb does not come out as `hi >> 128`.
fn remainder_after(x: U256, y: U256, answer: U256) -> (r: Option<U256>)
    requires
        y.value() != 0,
        answer.value() <= max128(),
        answer.value() * y.value() <= x.value() * two64(),
    ensures
        r matches Some(rem) ==> rem.value() == x.value() * two64() - answer.value() * y.value(),
        r is None <==> x.value() * two64() - answer.value() * y.value() >= two256(),
{
    proof {
        lemma_pow2_constants();
        x.lemma_value_bound();
        y.lemma_value_bound();
    }
    let ghost xv = x.value() as int;
    let ghost yv = y.value() as int;
    let ghost a = answer.value() as int;
    let one = U256::from_u64(1);
    let y_high = shr(y, 128);
    let y_low = y.low_128();
    proof {
        lemma_floor_div(yv, two128() as int);
        assert(a * y_high.value() < two256() && a * y_low.value() < two256()) by (nonlinear_arith)
            requires
                0 <= a < two128(),
                y_high.value() < two128(),
                y_low.value() < two128(),
                two256() == two128() * two128(),
        ;
        vstd::arithmetic::div_mod::lemma_small_mod((a * y_high.value()) as nat, two256());
        vstd::arithmetic::div_mod::lemma_small_mod((a * y_low.value()) as nat, two256());
    }
    let hi = mul_wrapping(answer, y_high);
    let lo = mul_wrapping(answer, y_low);
    let mut xh = shr(x, 192);
    let xl = shl(x, 64);
    let ghost xh0 = xh.value() as int;
    let b1 = lt(xl, lo);
    let xl1 = sub_overflowing(xl, lo).0;
    let lo2 = shl(hi, 128);
    let b2 = lt(xl1, lo2);
    let xl2 = sub_overflowing(xl1, lo2).0;
    proof {
        lemma_correction(
            xv, yv, a, hi.value() as int, lo.value() as int, lo2.value() as int, xh0,
            xl.value() as int, b1, xl1.value() as int, b2, xl2.value() as int,
        );
    }
    if b1 {
        xh = sub_overflowing(xh, one).0;
        proof { vstd::arithmetic::div_mod::lemma_small_mod((xh0 - 1) as nat, two256()); }
    }
    let ghost xh1 = xh.value() as int;
    if b2 {
        xh = sub_overflowing(xh, one).0;
        proof { vstd::arithmetic::div_mod::lemma_small_mod((xh1 - 1) as nat, two256()); }
    }
    let hi_high = shr(hi, 128);
    if lt(xh, hi_high) || lt(hi_high, xh) {
        None
    } else {
        Some(xl2)
    }
}

/// Divides `x * 2^64` by `y`, rounding down, returning a 64.64 fixed-point number.
///
/// Below 2^192 the dividend is shifted and divided directly, and a quotient too large for a
/// `u128` saturates at `u128::MAX`. From 2^192 on the dividend is normalised by its most
/// significant bit, divided by a shifted divisor and corrected once; there a quotient too large
/// comes out as zero, and an inconsistent correction as `RoundingError`.
pub fn div_uu(x: U256, y: U256) -> (r: Result<u128, AMMError>)
    ensures
        r == div_64x64(x.value(), y.value()),
{
    if y.is_zero() {
        return Err(AMMError::DivisionByZero);
    }
    proof {
        lemma_pow2_constants();
        x.lemma_value_bound();
        y.lemma_value_bound();
    }
    let ghost xv = x.value() as int;
    let ghost yv = y.value() as int;
    let ghost q = q64_quotient(x.value(), y.value());
    let max_128 = U256::from_u128(u128::MAX);
    let max_192 = U256 { l0: u64::MAX, l1: u64::MAX, l2: u64::MAX, l3: 0 };
    assert(max_192.value() == two192() - 1);
    let answer: U256;
    if !lt(max_192, x) {
        let shifted = shl(x, 64);
        assert(xv * two64() < two256()) by (nonlinear_arith)
            requires 0 <= xv < two192(), two256() == two192() * two64();
        proof { vstd::arithmetic::div_mod::lemma_small_mod((xv * two64()) as nat, two256()); }
        answer = div(shifted, y);
        assert(answer.value() == q);
        if lt(max_128, answer) {
            return Ok(u128::MAX);
        }
        proof { lemma_floor_div(xv * two64(), yv); }
    } else {
        answer = first_estimate(x, y);
        proof { lemma_le_floor(answer.value() as int, xv * two64(), yv); }
        if lt(max_128, answer) {
            return Ok(0);
        }
    }
    let ghost a = answer.value() as int;
    let xl = match remainder_after(x, y, answer) {
        Some(rem) => rem,
        None => {
            return Err(AMMError::RoundingError);
        },
    };
    let rest = div(xl, y);
    proof {
        let rr = xl.value() as int;
        lemma_floor_div(rr, yv);
        let qq = rr / yv;
        assert(xv * two64() == (a + qq) * yv + (rr - qq * yv)) by (nonlinear_arith)
            requires rr == xv * two64() - a * yv;
        assert((a + qq) * yv == yv * (a + qq)) by (nonlinear_arith);
        vstd::arithmetic::div_mod::lemma_fundamental_div_mod_converse(
            xv * two64(), yv, a + rr / yv, rr - (rr / yv) * yv);
    }
    assert(a + rest.value() == q);
    let (sum, carry) = add_overflowing(answer, rest);
    if carry {
        return Ok(0);
    }
    proof { vstd::arithmetic::div_mod::lemma_small_mod((a + rest.value()) as nat, two256()); }
    if lt(max_128, sum) {
        return Ok(0);
    }
    match sum.to_u128() {
        Some(v) => Ok(v),
        None => Ok(0),
    }
}

} // verus!
