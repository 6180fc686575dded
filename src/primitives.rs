//! Addresses, event topics and logs, as plain values.

use vstd::prelude::*;
use crate::u256::{U256, two64};
use alloy::primitives::keccak256;
use alloy::primitives::U256 as RawU256;

verus! {

pub open spec fn two160() -> nat { two64() * (two64() * 0x1_0000_0000) }

/// A 160-bit account or contract address.
#[derive(Clone, Copy, Debug, Default, PartialEq, Eq, Hash, Structural)]
pub struct Address {
    /// The high 32 bits.
    pub hi: u32,
    /// The low 128 bits.
    pub lo: u128,
}

impl Address {
    pub open spec fn value(self) -> nat {
        self.lo as nat + two64() * (two64() * self.hi as nat)
    }

    pub fn zero() -> (r: Address)
        ensures
            r.value() == 0,
    {
        Address { hi: 0, lo: 0 }
    }

    pub fn is_zero(&self) -> (r: bool)
        ensures
            r == (self.value() == 0),
    {
        self.hi == 0 && self.lo == 0
    }

    /// The address held in an ABI word: the word's value, where it is below 2^160.
    pub fn from_word(w: U256) -> (r: Option<Address>)
        ensures
            w.value() < two160() ==> (r matches Some(a) && a.value() == w.value()),
            w.value() >= two160() ==> r is None,
    {
        if w.l3 != 0 || w.l2 >= 0x1_0000_0000 {
            None
        } else {
            let lo0 = w.l0;
            let lo1 = w.l1;
            let lo = (lo1 as u128) << 64u128 | lo0 as u128;
            assert(lo == lo0 + lo1 * 0x1_0000_0000_0000_0000u128) by (bit_vector)
                requires
                    lo == (lo1 as u128) << 64u128 | lo0 as u128,
            ;
            Some(Address { hi: w.l2 as u32, lo })
        }
    }
}

/// The address whose value is `v` (below 2^160).
pub open spec fn address_of(v: nat) -> Address {
    Address {
        hi: (v / (two64() * two64())) as u32,
        lo: (v % (two64() * two64())) as u128,
    }
}

/// An address is the one its value names.
pub proof fn lemma_address_of(a: Address)
    ensures
        address_of(a.value()) == a,
{
    let c = two64() * two64();
    assert(a.value() == a.hi * c + a.lo) by (nonlinear_arith)
        requires a.value() == a.lo + two64() * (two64() * a.hi), c == two64() * two64();
    vstd::arithmetic::div_mod::lemma_fundamental_div_mod_converse(
        a.value() as int, c as int, a.hi as int, a.lo as int);
}

/// What keccak-256 gives for the UTF-8 bytes of `text`, read as a big-endian integer.
pub uninterp spec fn keccak_word(text: Seq<char>) -> nat;

/// Relies on alloy's `keccak256` (and ruint's `Uint::from_be_bytes` to read the digest as
/// an integer): the event topic of a signature string.
#[verifier::external_body]
pub(crate) fn event_topic(signature: &str) -> (r: U256)
    ensures
        r.value() == keccak_word(signature@),
{
    let digest = keccak256(signature.as_bytes());
    let [l0, l1, l2, l3] = RawU256::from_be_bytes(digest.0).into_limbs();
    U256 { l0, l1, l2, l3 }
}

/// An event log: the emitting contract, its topics, its payload as 32-byte ABI words, and
/// where it stands in the chain.
#[derive(Clone, Debug)]
pub struct Log {
    pub address: Address,
    pub topics: Vec<U256>,
    pub data: Vec<U256>,
    pub block_number: Option<u64>,
    pub log_index: Option<u64>,
}

} // verus!
