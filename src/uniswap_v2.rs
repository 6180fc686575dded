//! Constant-product (Uniswap V2 style) pools and their factory.

use vstd::prelude::*;
use crate::error::AMMError;
use crate::fixed_point::{div_uu, div_64x64, lemma_floor_div, lemma_le_floor};
use crate::primitives::{Address, Log, event_topic, keccak_word, two160, address_of, lemma_address_of};
use crate::u256::{U256, two256, lemma_pow2_constants, mul_wrapping, div, add_overflowing};

verus! {

/// The signature of the reserve-update event that constant-product pools emit.
pub open spec fn sync_signature() -> Seq<char> {
    "Sync(uint112,uint112)"@
}

/// The signature of the event a constant-product factory emits for each pool it creates.
pub open spec fn pair_created_signature() -> Seq<char> {
    "PairCreated(address,address,address,uint256)"@
}

pub open spec fn two112() -> nat {
    0x1_0000_0000_0000_0000_0000_0000_0000
}

/// `10^n`.
pub open spec fn pow10(n: nat) -> nat
    decreases n,
{
    if n == 0 {
        1
    } else {
        10 * pow10((n - 1) as nat)
    }
}

proof fn lemma_pow10_positive(n: nat)
    ensures
        1 <= pow10(n),
    decreases n,
{
    if n > 0 {
        lemma_pow10_positive((n - 1) as nat);
    }
}

proof fn lemma_pow10_monotone(a: nat, b: nat)
    requires
        a <= b,
    ensures
        1 <= pow10(a) <= pow10(b),
    decreases b,
{
    lemma_pow10_positive(a);
    if b > a {
        lemma_pow10_monotone(a, (b - 1) as nat);
    }
}

/// The fee numerator out of 1000 for a fee in basis points (300 gives 997).
pub open spec fn fee_numerator(fee: nat) -> nat {
    ((10000 - fee / 10) / 10) as nat
}

/// The output of a constant-product swap, rounded down; zero where the input or a reserve is.
pub open spec fn amount_out(amount_in: nat, reserve_in: nat, reserve_out: nat, fee: nat) -> nat {
    if amount_in == 0 || reserve_in == 0 || reserve_out == 0 {
        0
    } else {
        let with_fee = amount_in * fee_numerator(fee);
        (with_fee * reserve_out) / (reserve_in * 1000 + with_fee)
    }
}

/// The swap's intermediate values fit in 256 bits.
pub open spec fn swap_fits(amount_in: nat, reserve_in: nat, reserve_out: nat, fee: nat) -> bool {
    let with_fee = amount_in * fee_numerator(fee);
    &&& with_fee * reserve_out < two256()
    &&& reserve_in * 1000 + with_fee < two256()
}

#[derive(Clone, Copy, Debug, Default)]
pub struct UniswapV2Pool {
    pub address: Address,
    pub token_a: Address,
    pub token_a_decimals: u8,
    pub token_b: Address,
    pub token_b_decimals: u8,
    pub reserve_0: u128,
    pub reserve_1: u128,
    /// The swap fee in basis points.
    pub fee: usize,
}

/// Reads a `uint112` ABI word.
fn word_u112(w: U256) -> (r: Option<u128>)
    ensures
        w.value() < two112() ==> r == Some(w.value() as u128),
        w.value() >= two112() ==> r is None,
{
    match w.to_u128() {
        Some(v) => {
            if v < 0x1_0000_0000_0000_0000_0000_0000_0000 {
                Some(v)
            } else {
                None
            }
        },
        None => None,
    }
}

impl UniswapV2Pool {
    /// The fee is one the swap formula takes (at most 100009 basis points).
    pub open spec fn fee_ok(self) -> bool {
        self.fee / 10 <= 10000
    }

    /// The decimal scales differ by at most 38, so that the scale factor fits a `u128`.
    pub open spec fn decimals_ok(self) -> bool {
        -38 <= self.token_a_decimals - self.token_b_decimals <= 38
    }

    /// The reserves after a `Sync` log, where the log decodes as one: its first topic is the
    /// event's, and its payload is two words each below 2^112.
    pub open spec fn sync_reserves(log: Log) -> Option<(u128, u128)> {
        if log.topics.len() >= 1 && log.topics[0].value() == keccak_word(sync_signature())
            && log.data.len() == 2 && log.data[0].value() < two112() && log.data[1].value()
            < two112() {
            Some((log.data[0].value() as u128, log.data[1].value() as u128))
        } else {
            None
        }
    }

    /// The pool after applying `log`: both reserves overwritten, or unchanged where the log
    /// does not decode.
    pub open spec fn synced(self, log: Log) -> UniswapV2Pool {
        match Self::sync_reserves(log) {
            Some((r0, r1)) => UniswapV2Pool { reserve_0: r0, reserve_1: r1, ..self },
            None => self,
        }
    }

    /// The reserves decimal-adjusted: the reserve of the token with fewer decimals scaled up by
    /// ten to the difference.
    pub open spec fn adjusted_reserves(self) -> (nat, nat) {
        let da = self.token_a_decimals as int;
        let db = self.token_b_decimals as int;
        if da < db {
            (self.reserve_0 as nat * pow10((db - da) as nat), self.reserve_1 as nat)
        } else {
            (self.reserve_0 as nat, self.reserve_1 as nat * pow10((da - db) as nat))
        }
    }

    /// What `calculate_price_64_x_64` returns: the 64.64 quotient of the other token's
    /// adjusted reserve over the base token's, or 1.0 where the base reserve is zero.
    pub open spec fn price_outcome(self, base_token: Address, r: Result<u128, AMMError>) -> bool {
        let (r0, r1) = self.adjusted_reserves();
        let (num, den) = if base_token == self.token_a {
            (r1, r0)
        } else {
            (r0, r1)
        };
        if den == 0 {
            r == Ok::<u128, AMMError>(0x1_0000_0000_0000_0000)
        } else {
            r == div_64x64(num, den)
        }
    }

    /// The reserves a swap of `base_token` reads: in, then out.
    pub open spec fn swap_reserves(self, base_token: Address) -> (nat, nat) {
        if base_token == self.token_a {
            (self.reserve_0 as nat, self.reserve_1 as nat)
        } else {
            (self.reserve_1 as nat, self.reserve_0 as nat)
        }
    }

    pub open spec fn holds(self, token: Address) -> bool {
        token == self.token_a || token == self.token_b
    }

    pub open spec fn in_pair(self, base_token: Address, quote_token: Address) -> bool {
        base_token == self.token_a || base_token == self.token_b || quote_token == self.token_a
            || quote_token == self.token_b
    }

    pub fn address(&self) -> (r: Address)
        ensures
            r == self.address,
    {
        self.address
    }

    /// The topics of the events this pool reacts to.
    pub fn sync_events(&self) -> (r: Vec<U256>)
        ensures
            r@.len() == 1,
            r@[0].value() == keccak_word(sync_signature()),
    {
        vec![event_topic("Sync(uint112,uint112)")]
    }

    /// Applies a `Sync` log: overwrites both reserves, or fails with `DecodeError` and changes
    /// nothing.
    #[verifier::rlimit(30)]
    pub fn sync(&mut self, log: &Log) -> (r: Result<(), AMMError>)
        ensures
            *final(self) == old(self).synced(*log),
            r is Ok <==> Self::sync_reserves(*log) is Some,
            r is Err ==> r == Err::<(), AMMError>(AMMError::DecodeError),
    {
        let topic = event_topic("Sync(uint112,uint112)");
        if log.topics.len() < 1 || log.topics[0] != topic || log.data.len() != 2 {
            assert(Self::sync_reserves(*log) is None);
            return Err(AMMError::DecodeError);
        }
        let r0 = word_u112(log.data[0]);
        let r1 = word_u112(log.data[1]);
        if let (Some(reserve_0), Some(reserve_1)) = (r0, r1) {
            assert(Self::sync_reserves(*log) == Some((reserve_0, reserve_1)));
            self.reserve_0 = reserve_0;
            self.reserve_1 = reserve_1;
            Ok(())
        } else {
            assert(Self::sync_reserves(*log) is None);
            Err(AMMError::DecodeError)
        }
    }

    /// The pool's two tokens, in order.
    pub fn tokens(&self) -> (r: Vec<Address>)
        ensures
            r@ == seq![self.token_a, self.token_b],
    {
        vec![self.token_a, self.token_b]
    }

    /// The amount received for `amount_in` against `reserve_in` and `reserve_out`.
    pub fn get_amount_out(&self, amount_in: U256, reserve_in: U256, reserve_out: U256) -> (r: U256)
        requires
            self.fee_ok(),
            swap_fits(amount_in.value(), reserve_in.value(), reserve_out.value(), self.fee as nat),
        ensures
            r.value() == amount_out(
                amount_in.value(),
                reserve_in.value(),
                reserve_out.value(),
                self.fee as nat,
            ),
    {
        if amount_in.is_zero() || reserve_in.is_zero() || reserve_out.is_zero() {
            return U256::zero();
        }
        proof { lemma_pow2_constants(); }
        let fee: usize = (10000 - (self.fee / 10)) / 10;
        let ghost a = amount_in.value();
        let ghost f = fee as nat;
        let ghost ri = reserve_in.value();
        let ghost ro = reserve_out.value();
        assert(a * f <= a * f * ro) by (nonlinear_arith) requires ro >= 1;
        proof { vstd::arithmetic::div_mod::lemma_small_mod(a * f, two256()); }
        let amount_in_with_fee = mul_wrapping(amount_in, U256::from_u64(fee as u64));
        proof { vstd::arithmetic::div_mod::lemma_small_mod(a * f * ro, two256()); }
        let numerator = mul_wrapping(amount_in_with_fee, reserve_out);
        proof { vstd::arithmetic::div_mod::lemma_small_mod(ri * 1000, two256()); }
        let scaled_in = mul_wrapping(reserve_in, U256::from_u64(1000));
        proof { vstd::arithmetic::div_mod::lemma_small_mod(ri * 1000 + a * f, two256()); }
        let denominator = add_overflowing(scaled_in, amount_in_with_fee).0;
        div(numerator, denominator)
    }

    /// The price of `base_token` in the other token of the pair, as a 64.64 fixed-point number.
    pub fn calculate_price_64_x_64(&self, base_token: Address) -> (r: Result<u128, AMMError>)
        requires
            self.decimals_ok(),
        ensures
            self.price_outcome(base_token, r),
    {
        let da = self.token_a_decimals;
        let db = self.token_b_decimals;
        let r_0: U256;
        let r_1: U256;
        proof { lemma_pow2_constants(); }
        if da < db {
            let p = pow10_u128(db - da);
            proof {
                lemma_scaled_fits(self.reserve_0 as nat, (db - da) as nat);
                vstd::arithmetic::div_mod::lemma_small_mod(
                    self.reserve_0 as nat * pow10((db - da) as nat), two256());
            }
            r_0 = mul_wrapping(U256::from_u128(self.reserve_0), U256::from_u128(p));
            r_1 = U256::from_u128(self.reserve_1);
        } else {
            let p = pow10_u128(da - db);
            proof {
                lemma_scaled_fits(self.reserve_1 as nat, (da - db) as nat);
                vstd::arithmetic::div_mod::lemma_small_mod(
                    self.reserve_1 as nat * pow10((da - db) as nat), two256());
            }
            r_0 = U256::from_u128(self.reserve_0);
            r_1 = mul_wrapping(U256::from_u128(self.reserve_1), U256::from_u128(p));
        }
        if base_token == self.token_a {
            if r_0.is_zero() {
                Ok(0x1_0000_0000_0000_0000)
            } else {
                div_uu(r_1, r_0)
            }
        } else if r_1.is_zero() {
            Ok(0x1_0000_0000_0000_0000)
        } else {
            div_uu(r_0, r_1)
        }
    }

    /// The 64.64 price of `base_token`, where one of the two tokens named is in the pool's pair.
    pub fn calculate_price_q64(&self, base_token: Address, quote_token: Address) -> (r: Result<
        u128,
        AMMError,
    >)
        requires
            self.decimals_ok(),
        ensures
            !self.in_pair(base_token, quote_token) ==> r == Err::<u128, AMMError>(
                AMMError::UnknownToken,
            ),
            self.in_pair(base_token, quote_token) ==> self.price_outcome(base_token, r),
    {
        if !self.has_either(base_token, quote_token) {
            return Err(AMMError::UnknownToken);
        }
        self.calculate_price_64_x_64(base_token)
    }

    fn has_either(&self, base_token: Address, quote_token: Address) -> (r: bool)
        ensures
            r == self.in_pair(base_token, quote_token),
    {
        base_token == self.token_a || base_token == self.token_b || quote_token == self.token_a
            || quote_token == self.token_b
    }

    /// The amount of the other token received for `amount_in` of `base_token`; the pool is
    /// left as it is. The quote token is the other token of the pair and is not read.
    pub fn simulate_swap(&self, base_token: Address, _quote_token: Address, amount_in: U256) -> (r:
        Result<U256, AMMError>)
        requires
            self.fee_ok(),
            swap_fits(
                amount_in.value(),
                self.swap_reserves(base_token).0,
                self.swap_reserves(base_token).1,
                self.fee as nat,
            ),
        ensures
            !self.holds(base_token) ==> r == Err::<U256, AMMError>(AMMError::UnknownToken),
            self.holds(base_token) ==> (r matches Ok(out) && out.value()
                == amount_out(
                amount_in.value(),
                self.swap_reserves(base_token).0,
                self.swap_reserves(base_token).1,
                self.fee as nat,
            )),
    {
        if base_token != self.token_a && base_token != self.token_b {
            return Err(AMMError::UnknownToken);
        }
        if self.token_a == base_token {
            Ok(
                self.get_amount_out(
                    amount_in,
                    U256::from_u128(self.reserve_0),
                    U256::from_u128(self.reserve_1),
                ),
            )
        } else {
            Ok(
                self.get_amount_out(
                    amount_in,
                    U256::from_u128(self.reserve_1),
                    U256::from_u128(self.reserve_0),
                ),
            )
        }
    }

    /// As `simulate_swap`, and moves the reserves by the trade: the input reserve grows by
    /// `amount_in`, the output reserve shrinks by what came out.
    pub fn simulate_swap_mut(&mut self, base_token: Address, _quote_token: Address, amount_in: U256) -> (r:
        Result<U256, AMMError>)
        requires
            old(self).fee_ok(),
            swap_fits(
                amount_in.value(),
                old(self).swap_reserves(base_token).0,
                old(self).swap_reserves(base_token).1,
                old(self).fee as nat,
            ),
            old(self).swap_reserves(base_token).0 + amount_in.value() <= u128::MAX,
        ensures
            !old(self).holds(base_token) ==> r == Err::<U256, AMMError>(AMMError::UnknownToken)
                && *final(self) == *old(self),
            old(self).holds(base_token) ==> ({
                let out = amount_out(
                    amount_in.value(),
                    old(self).swap_reserves(base_token).0,
                    old(self).swap_reserves(base_token).1,
                    old(self).fee as nat,
                );
                &&& r matches Ok(v) && v.value() == out
                &&& base_token == old(self).token_a ==> *final(self) == (UniswapV2Pool {
                    reserve_0: (old(self).reserve_0 + amount_in.value()) as u128,
                    reserve_1: (old(self).reserve_1 - out) as u128,
                    ..*old(self)
                })
                &&& base_token != old(self).token_a ==> *final(self) == (UniswapV2Pool {
                    reserve_0: (old(self).reserve_0 - out) as u128,
                    reserve_1: (old(self).reserve_1 + amount_in.value()) as u128,
                    ..*old(self)
                })
            }),
    {
        if base_token != self.token_a && base_token != self.token_b {
            return Err(AMMError::UnknownToken);
        }
        let ghost fee = self.fee as nat;
        if self.token_a == base_token {
            let amount_out = self.get_amount_out(
                amount_in,
                U256::from_u128(self.reserve_0),
                U256::from_u128(self.reserve_1),
            );
            proof {
                if self.reserve_0 > 0 && self.reserve_1 > 0 {
                    lemma_amount_out_below(amount_in.value(), self.reserve_0 as nat, self.reserve_1 as nat, fee);
                }
            }
            let a = amount_in.to_u128().unwrap();
            let o = amount_out.to_u128().unwrap();
            self.reserve_0 = self.reserve_0 + a;
            self.reserve_1 = self.reserve_1 - o;
            Ok(amount_out)
        } else {
            let amount_out = self.get_amount_out(
                amount_in,
                U256::from_u128(self.reserve_1),
                U256::from_u128(self.reserve_0),
            );
            proof {
                if self.reserve_0 > 0 && self.reserve_1 > 0 {
                    lemma_amount_out_below(amount_in.value(), self.reserve_1 as nat, self.reserve_0 as nat, fee);
                }
            }
            let a = amount_in.to_u128().unwrap();
            let o = amount_out.to_u128().unwrap();
            self.reserve_0 = self.reserve_0 - o;
            self.reserve_1 = self.reserve_1 + a;
            Ok(amount_out)
        }
    }
}

/// `10^n` as a `u128`.
#[verifier::rlimit(40)]
fn pow10_u128(n: u8) -> (r: u128)
    requires
        n <= 38,
    ensures
        r == pow10(n as nat),
{
    let mut r: u128 = 1;
    let mut i: u8 = 0;
    while i < n
        invariant
            i <= n <= 38,
            r == pow10(i as nat),
        decreases n - i,
    {
        proof {
            lemma_pow10_monotone((i + 1) as nat, 38);
            reveal_with_fuel(pow10, 39);
        }
        r = r * 10;
        i = i + 1;
    }
    r
}

proof fn lemma_pow10_38()
    ensures
        pow10(38) == 100000000000000000000000000000000000000,
{
    reveal_with_fuel(pow10, 39);
}

/// A `u128` reserve scaled by at most `10^38` stays below 2^256.
proof fn lemma_scaled_fits(r: nat, n: nat)
    requires
        r <= u128::MAX,
        n <= 38,
    ensures
        r * pow10(n) < two256(),
        pow10(n) <= u128::MAX,
{
    lemma_pow10_monotone(n, 38);
    lemma_pow10_38();
    lemma_pow2_constants();
    let p = pow10(n);
    let c = 0x1_0000_0000_0000_0000int;
    assert(two256() == (c * c) * (c * c));
    assert(r * p < (c * c) * (c * c)) by (nonlinear_arith)
        requires
            r < c * c,
            1 <= p <= 100000000000000000000000000000000000000,
            c == 0x1_0000_0000_0000_0000int,
    ;
}

/// A swap never pays out the whole output reserve.
pub proof fn lemma_amount_out_below(amount_in: nat, reserve_in: nat, reserve_out: nat, fee: nat)
    requires
        reserve_in > 0,
        reserve_out > 0,
    ensures
        amount_out(amount_in, reserve_in, reserve_out, fee) < reserve_out,
{
    if amount_in > 0 {
        let w = amount_in * fee_numerator(fee);
        let d = reserve_in * 1000 + w;
        assert(w * reserve_out < d * reserve_out) by (nonlinear_arith)
            requires d == reserve_in * 1000 + w, reserve_in > 0, reserve_out > 0, w >= 0;
        assert((w * reserve_out) / d < reserve_out) by (nonlinear_arith)
            requires w * reserve_out < d * reserve_out, d > 0, w * reserve_out >= 0;
    }
}

/// For positive reserves and a positive input, a constant-product swap pays out less than the
/// output reserve, and paying in more never pays out less.
pub proof fn lemma_swap_bounded_and_monotone(
    amount_in: nat,
    larger_amount_in: nat,
    reserve_in: nat,
    reserve_out: nat,
    fee: nat,
)
    requires
        0 < amount_in <= larger_amount_in,
        reserve_in > 0,
        reserve_out > 0,
    ensures
        amount_out(amount_in, reserve_in, reserve_out, fee) < reserve_out,
        amount_out(amount_in, reserve_in, reserve_out, fee) <= amount_out(
            larger_amount_in,
            reserve_in,
            reserve_out,
            fee,
        ),
{
    lemma_amount_out_below(amount_in, reserve_in, reserve_out, fee);
    let f = fee_numerator(fee);
    let w1 = amount_in * f;
    let w2 = larger_amount_in * f;
    let n1 = w1 * reserve_out;
    let n2 = w2 * reserve_out;
    let d1 = reserve_in * 1000 + w1;
    let d2 = reserve_in * 1000 + w2;
    assert(0 <= w1 <= w2) by (nonlinear_arith)
        requires w1 == amount_in * f, w2 == larger_amount_in * f, amount_in <= larger_amount_in;
    assert(n1 * d2 <= n2 * d1) by (nonlinear_arith)
        requires
            n1 == w1 * reserve_out,
            n2 == w2 * reserve_out,
            d1 == reserve_in * 1000 + w1,
            d2 == reserve_in * 1000 + w2,
            0 <= w1 <= w2,
            reserve_in > 0,
            reserve_out > 0,
    ;
    assert(n1 >= 0 && n2 >= 0) by (nonlinear_arith)
        requires n1 == w1 * reserve_out, n2 == w2 * reserve_out, w1 >= 0, w2 >= 0, reserve_out > 0;
    lemma_floor_div(n1 as int, d1 as int);
    let q1 = n1 / d1;
    assert(q1 * d2 <= n2) by (nonlinear_arith)
        requires q1 * d1 <= n1, n1 * d2 <= n2 * d1, d1 > 0, d2 > 0, q1 >= 0;
    lemma_le_floor(q1 as int, n2 as int, d2 as int);
}

#[derive(Clone, Copy, Debug, Default, PartialEq, Eq, Hash, Structural)]
pub struct UniswapV2Factory {
    pub address: Address,
    /// The fee, in basis points, of the pools it creates.
    pub fee: usize,
    /// The block after which its pools can be read.
    pub creation_block: u64,
}

impl UniswapV2Factory {
    /// The pool a `PairCreated` log announces, where the log decodes as one: three topics (the
    /// event's, then the two tokens as address words) and a payload of the pool's address word
    /// and one more word.
    pub open spec fn created_pool(self, log: Log) -> Option<UniswapV2Pool> {
        if log.topics.len() == 3 && log.topics[0].value() == keccak_word(pair_created_signature())
            && log.topics[1].value() < two160() && log.topics[2].value() < two160()
            && log.data.len() == 2 && log.data[0].value() < two160() {
            Some(
                UniswapV2Pool {
                    address: address_of(log.data[0].value()),
                    token_a: address_of(log.topics[1].value()),
                    token_a_decimals: 0,
                    token_b: address_of(log.topics[2].value()),
                    token_b_decimals: 0,
                    reserve_0: 0,
                    reserve_1: 0,
                    fee: self.fee,
                },
            )
        } else {
            None
        }
    }

    pub fn new(address: Address, fee: usize, creation_block: u64) -> (r: Self)
        ensures
            r == (UniswapV2Factory { address, fee, creation_block }),
    {
        UniswapV2Factory { address, creation_block, fee }
    }

    pub fn address(&self) -> (r: Address)
        ensures
            r == self.address,
    {
        self.address
    }

    pub fn creation_block(&self) -> (r: u64)
        ensures
            r == self.creation_block,
    {
        self.creation_block
    }

    /// The topic of the event this factory emits for each pool it creates.
    pub fn discovery_event(&self) -> (r: U256)
        ensures
            r.value() == keccak_word(pair_created_signature()),
    {
        event_topic("PairCreated(address,address,address,uint256)")
    }

    /// A fresh pool, with zero reserves and decimals, from the log announcing it; `DecodeError`
    /// where the log is not such an announcement.
    pub fn create_pool(&self, log: &Log) -> (r: Result<UniswapV2Pool, AMMError>)
        ensures
            self.created_pool(*log) matches Some(p) ==> r == Ok::<UniswapV2Pool, AMMError>(p),
            self.created_pool(*log) is None ==> r == Err::<UniswapV2Pool, AMMError>(
                AMMError::DecodeError,
            ),
    {
        let topic = self.discovery_event();
        if log.topics.len() != 3 || log.topics[0] != topic || log.data.len() != 2 {
            return Err(AMMError::DecodeError);
        }
        let token_0 = Address::from_word(log.topics[1]);
        let token_1 = Address::from_word(log.topics[2]);
        let pair = Address::from_word(log.data[0]);
        match (token_0, token_1, pair) {
            (Some(token_a), Some(token_b), Some(address)) => {
                proof {
                    lemma_address_of(token_a);
                    lemma_address_of(token_b);
                    lemma_address_of(address);
                }
                Ok(
                    UniswapV2Pool {
                        address,
                        token_a,
                        token_a_decimals: 0,
                        token_b,
                        token_b_decimals: 0,
                        reserve_0: 0,
                        reserve_1: 0,
                        fee: self.fee,
                    },
                )
            },
            _ => Err(AMMError::DecodeError),
        }
    }
}

} // verus!
