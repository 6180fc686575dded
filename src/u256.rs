//! An unsigned 256-bit integer held as four little-endian 64-bit limbs. Its arithmetic is
//! carried out by ruint (through alloy's `U256`); each operation is one trusted wrapper whose
//! contract states the result over the integer value.

use vstd::prelude::*;
use vstd::arithmetic::power2::pow2;
use alloy::primitives::U256 as RawU256;

verus! {

pub open spec fn two64() -> nat { 0x1_0000_0000_0000_0000 }

pub open spec fn two128() -> nat { two64() * two64() }

pub open spec fn two192() -> nat { two64() * two128() }

pub open spec fn two256() -> nat { two128() * two128() }

/// The largest value of a `u128`, as a 256-bit integer.
pub open spec fn max128() -> nat { 0xffff_ffff_ffff_ffff_ffff_ffff_ffff_ffff }

/// `pow2` agrees with the literal constants used in this module.
pub proof fn lemma_pow2_constants()
    ensures
        pow2(64) == two64(),
        pow2(128) == two128(),
        pow2(192) == two192(),
        pow2(256) == two256(),
        two192() == two64() * two128(),
        two256() == two192() * two64(),
        two256() == two128() * two128(),
        two192() == two128() * two64(),
{
    assert(two256() == two192() * two64()) by (nonlinear_arith)
        requires two192() == two64() * two128(), two256() == two128() * two128(),
            two128() == two64() * two64();
    vstd::arithmetic::power2::lemma2_to64();
    vstd::arithmetic::power2::lemma_pow2_adds(64, 64);
    vstd::arithmetic::power2::lemma_pow2_adds(128, 64);
    vstd::arithmetic::power2::lemma_pow2_adds(192, 64);
}

#[derive(Clone, Copy, Debug, Default, PartialEq, Eq, Hash, Structural)]
pub struct U256 {
    /// Bits 0 to 63.
    pub l0: u64,
    /// Bits 64 to 127.
    pub l1: u64,
    /// Bits 128 to 191.
    pub l2: u64,
    /// Bits 192 to 255.
    pub l3: u64,
}

impl U256 {
    /// The integer this value stands for.
    pub open spec fn value(self) -> nat {
        self.l0 as nat + two64() * (self.l1 as nat + two64() * (self.l2 as nat + two64()
            * self.l3 as nat))
    }

    pub proof fn lemma_value_bound(self)
        ensures
            self.value() < two256(),
    {
        let c = two64() as int;
        assert(two128() == c * c && two256() == two128() * two128());
        assert(self.l2 + c * self.l3 <= c * c - 1) by (nonlinear_arith)
            requires self.l2 < c, self.l3 < c, c == 0x1_0000_0000_0000_0000int;
        let m = self.l2 + c * self.l3;
        assert(self.l1 + c * m <= c * c * c - 1) by (nonlinear_arith)
            requires self.l1 < c, 0 <= m <= c * c - 1, c == 0x1_0000_0000_0000_0000int;
        let n = self.l1 + c * m;
        assert(self.l0 + c * n <= c * c * c * c - 1) by (nonlinear_arith)
            requires self.l0 < c, 0 <= n <= c * c * c - 1, c == 0x1_0000_0000_0000_0000int;
        assert(c * c * c * c == two256()) by (nonlinear_arith)
            requires two128() == c * c, two256() == two128() * two128();
    }

    pub fn zero() -> (r: U256)
        ensures
            r.value() == 0,
    {
        U256 { l0: 0, l1: 0, l2: 0, l3: 0 }
    }

    pub fn from_u64(v: u64) -> (r: U256)
        ensures
            r.value() == v,
    {
        U256 { l0: v, l1: 0, l2: 0, l3: 0 }
    }

    pub fn from_u128(v: u128) -> (r: U256)
        ensures
            r.value() == v,
    {
        let lo = v as u64;
        let hi = (v >> 64u128) as u64;
        assert(lo + hi * 0x1_0000_0000_0000_0000u128 == v) by (bit_vector)
            requires
                lo == v as u64,
                hi == (v >> 64u128) as u64,
        ;
        U256 { l0: lo, l1: hi, l2: 0, l3: 0 }
    }

    /// The value as a `u128`, where it fits.
    pub fn to_u128(self) -> (r: Option<u128>)
        ensures
            self.value() <= max128() ==> r == Some(self.value() as u128),
            self.value() > max128() ==> r is None,
    {
        if self.l2 != 0 || self.l3 != 0 {
            None
        } else {
            let lo = self.l0;
            let hi = self.l1;
            let r = (hi as u128) << 64u128 | lo as u128;
            assert(r == lo + hi * 0x1_0000_0000_0000_0000u128) by (bit_vector)
                requires
                    r == (hi as u128) << 64u128 | lo as u128,
            ;
            Some(r)
        }
    }

    pub fn is_zero(&self) -> (r: bool)
        ensures
            r == (self.value() == 0),
    {
        self.l0 == 0 && self.l1 == 0 && self.l2 == 0 && self.l3 == 0
    }

    /// The low 128 bits (`self & (2^128 - 1)`).
    pub fn low_128(&self) -> (r: U256)
        ensures
            r.value() == self.value() % two128(),
    {
        let r = U256 { l0: self.l0, l1: self.l1, l2: 0, l3: 0 };
        assert(r.value() == self.value() % two128()) by {
            let q = self.l2 as nat + self.l3 as nat * two64();
            assert(self.value() == r.value() + q * two128()) by (nonlinear_arith)
                requires
                    self.value() == self.l0 as nat + two64() * (self.l1 as nat + two64() * (
                    self.l2 as nat + two64() * self.l3 as nat)),
                    two128() == two64() * two64(),
                    r.value() == self.l0 as nat + self.l1 as nat * two64(),
                    q == self.l2 as nat + self.l3 as nat * two64(),
                    two192() == two64() * two128(),
            ;
            vstd::arithmetic::div_mod::lemma_fundamental_div_mod_converse(
                self.value() as int, two128() as int, q as int, r.value() as int);
        }
        r
    }
}

/// Relies on ruint's `Uint::wrapping_mul`: the product modulo 2^256.
#[verifier::external_body]
pub(crate) fn mul_wrapping(a: U256, b: U256) -> (r: U256)
    ensures
        r.value() == (a.value() * b.value()) % two256(),
{
    let x = RawU256::from_limbs([a.l0, a.l1, a.l2, a.l3]);
    let y = RawU256::from_limbs([b.l0, b.l1, b.l2, b.l3]);
    let [l0, l1, l2, l3] = x.wrapping_mul(y).into_limbs();
    U256 { l0, l1, l2, l3 }
}

/// Relies on ruint's `Uint::wrapping_div`: the quotient rounded down (it panics on a zero divisor).
#[verifier::external_body]
pub(crate) fn div(a: U256, b: U256) -> (r: U256)
    requires
        b.value() != 0,
    ensures
        r.value() == a.value() / b.value(),
{
    let x = RawU256::from_limbs([a.l0, a.l1, a.l2, a.l3]);
    let y = RawU256::from_limbs([b.l0, b.l1, b.l2, b.l3]);
    let [l0, l1, l2, l3] = x.wrapping_div(y).into_limbs();
    U256 { l0, l1, l2, l3 }
}

/// Relies on ruint's `Uint::wrapping_shl`: `a * 2^s` modulo 2^256.
#[verifier::external_body]
pub(crate) fn shl(a: U256, s: usize) -> (r: U256)
    ensures
        r.value() == (a.value() * pow2(s as nat)) % two256(),
{
    let x = RawU256::from_limbs([a.l0, a.l1, a.l2, a.l3]);
    let [l0, l1, l2, l3] = x.wrapping_shl(s).into_limbs();
    U256 { l0, l1, l2, l3 }
}

/// Relies on ruint's `Uint::wrapping_shr`: `a / 2^s` rounded down.
#[verifier::external_body]
pub(crate) fn shr(a: U256, s: usize) -> (r: U256)
    ensures
        r.value() == a.value() / pow2(s as nat),
{
    let x = RawU256::from_limbs([a.l0, a.l1, a.l2, a.l3]);
    let [l0, l1, l2, l3] = x.wrapping_shr(s).into_limbs();
    U256 { l0, l1, l2, l3 }
}

/// Relies on ruint's `Uint::overflowing_sub`: the difference modulo 2^256, and whether it
/// borrowed.
#[verifier::external_body]
pub(crate) fn sub_overflowing(a: U256, b: U256) -> (r: (U256, bool))
    ensures
        r.0.value() == (a.value() - b.value()) % (two256() as int),
        r.1 == (a.value() < b.value()),
{
    let x = RawU256::from_limbs([a.l0, a.l1, a.l2, a.l3]);
    let y = RawU256::from_limbs([b.l0, b.l1, b.l2, b.l3]);
    let (d, borrow) = x.overflowing_sub(y);
    let [l0, l1, l2, l3] = d.into_limbs();
    (U256 { l0, l1, l2, l3 }, borrow)
}

/// Relies on ruint's `Uint::overflowing_add`: the sum modulo 2^256, and whether it carried.
#[verifier::external_body]
pub(crate) fn add_overflowing(a: U256, b: U256) -> (r: (U256, bool))
    ensures
        r.0.value() == (a.value() + b.value()) % two256(),
        r.1 == (a.value() + b.value() >= two256()),
{
    let x = RawU256::from_limbs([a.l0, a.l1, a.l2, a.l3]);
    let y = RawU256::from_limbs([b.l0, b.l1, b.l2, b.l3]);
    let (t, carry) = x.overflowing_add(y);
    let [l0, l1, l2, l3] = t.into_limbs();
    (U256 { l0, l1, l2, l3 }, carry)
}

/// Relies on ruint's `PartialOrd` for `Uint`: the order of the integer values.
#[verifier::external_body]
pub(crate) fn lt(a: U256, b: U256) -> (r: bool)
    ensures
        r == (a.value() < b.value()),
{
    RawU256::from_limbs([a.l0, a.l1, a.l2, a.l3]) < RawU256::from_limbs([b.l0, b.l1, b.l2, b.l3])
}

} // verus!
