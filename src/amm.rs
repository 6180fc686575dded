//! The closed set of pool kinds, behind one capability set.

use vstd::prelude::*;
use crate::error::AMMError;
use crate::primitives::{Address, Log, keccak_word};
use crate::uniswap_v2::{UniswapV2Pool, sync_signature};
use crate::u256::U256;

verus! {

#[derive(Clone, Copy, Debug)]
pub enum AMM {
    UniswapV2Pool(UniswapV2Pool),
}

impl AMM {
    pub open spec fn spec_address(self) -> Address {
        match self {
            AMM::UniswapV2Pool(p) => p.address,
        }
    }

    pub open spec fn spec_tokens(self) -> Seq<Address> {
        match self {
            AMM::UniswapV2Pool(p) => seq![p.token_a, p.token_b],
        }
    }

    /// The pool after `log` is applied to it.
    pub open spec fn synced(self, log: Log) -> AMM {
        match self {
            AMM::UniswapV2Pool(p) => AMM::UniswapV2Pool(p.synced(log)),
        }
    }

    pub fn address(&self) -> (r: Address)
        ensures
            r == self.spec_address(),
    {
        match self {
            AMM::UniswapV2Pool(p) => p.address(),
        }
    }

    pub fn tokens(&self) -> (r: Vec<Address>)
        ensures
            r@ == self.spec_tokens(),
    {
        match self {
            AMM::UniswapV2Pool(p) => p.tokens(),
        }
    }

    /// The topics of the events this pool reacts to.
    pub fn sync_events(&self) -> (r: Vec<U256>)
        ensures
            r@.len() == 1,
            r@[0].value() == keccak_word(sync_signature()),
    {
        match self {
            AMM::UniswapV2Pool(p) => p.sync_events(),
        }
    }

    /// Applies `log`, overwriting the pool's state; `DecodeError` leaves it unchanged.
    pub fn sync(&mut self, log: &Log) -> (r: Result<(), AMMError>)
        ensures
            *final(self) == old(self).synced(*log),
            r is Ok <==> UniswapV2Pool::sync_reserves(*log) is Some,
            r is Err ==> r == Err::<(), AMMError>(AMMError::DecodeError),
    {
        match self {
            AMM::UniswapV2Pool(p) => p.sync(log),
        }
    }
}

} // verus!
