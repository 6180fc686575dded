//! Predicates that prune a candidate pool set: whitelist, blacklist and value threshold.

use vstd::prelude::*;
use crate::amm::AMM;
use crate::primitives::Address;

verus! {

/// Whether `list` holds any of `tokens`.
pub open spec fn lists_any(list: Seq<Address>, tokens: Seq<Address>) -> bool {
    exists|i: int| 0 <= i < tokens.len() && list.contains(#[trigger] tokens[i])
}

fn contains_address(list: &Vec<Address>, a: Address) -> (r: bool)
    ensures
        r == list@.contains(a),
{
    let mut i: usize = 0;
    while i < list.len()
        invariant
            i <= list@.len(),
            forall|j: int| 0 <= j < i ==> list@[j] != a,
        decreases list.len() - i,
    {
        if list[i] == a {
            assert(list@[i as int] == a);
            return true;
        }
        i = i + 1;
    }
    false
}

fn lists_any_exec(list: &Vec<Address>, tokens: &Vec<Address>) -> (r: bool)
    ensures
        r == lists_any(list@, tokens@),
{
    let mut i: usize = 0;
    while i < tokens.len()
        invariant
            i <= tokens@.len(),
            forall|j: int| 0 <= j < i ==> !list@.contains(#[trigger] tokens@[j]),
        decreases tokens.len() - i,
    {
        if contains_address(list, tokens[i]) {
            return true;
        }
        i = i + 1;
    }
    false
}

/// Keeps the pools listed, and those holding a listed token; with nothing listed it keeps all.
#[derive(Clone, Debug)]
pub struct WhitelistFilter {
    pub pools: Vec<Address>,
    pub tokens: Vec<Address>,
}

impl WhitelistFilter {
    pub open spec fn admits(self, pool: AMM) -> bool {
        (self.pools@.len() == 0 && self.tokens@.len() == 0) || self.pools@.contains(
            pool.spec_address(),
        ) || lists_any(self.tokens@, pool.spec_tokens())
    }

    pub fn new() -> (r: Self)
        ensures
            r.pools@.len() == 0,
            r.tokens@.len() == 0,
    {
        WhitelistFilter { pools: Vec::new(), tokens: Vec::new() }
    }

    pub fn with_pools(self, pools: Vec<Address>) -> (r: Self)
        ensures
            r.pools@ == pools@,
            r.tokens@ == self.tokens@,
    {
        WhitelistFilter { pools, tokens: self.tokens }
    }

    pub fn with_tokens(self, tokens: Vec<Address>) -> (r: Self)
        ensures
            r.pools@ == self.pools@,
            r.tokens@ == tokens@,
    {
        WhitelistFilter { pools: self.pools, tokens }
    }

    pub fn filter(&self, pool: &AMM) -> (r: bool)
        ensures
            r == self.admits(*pool),
    {
        if self.pools.len() == 0 && self.tokens.len() == 0 {
            return true;
        }
        contains_address(&self.pools, pool.address()) || lists_any_exec(&self.tokens, &pool.tokens())
    }
}

/// Drops the pools listed, and those holding a listed token.
#[derive(Clone, Debug)]
pub struct BlacklistFilter {
    pub pools: Vec<Address>,
    pub tokens: Vec<Address>,
}

impl BlacklistFilter {
    pub open spec fn admits(self, pool: AMM) -> bool {
        !self.pools@.contains(pool.spec_address()) && !lists_any(self.tokens@, pool.spec_tokens())
    }

    pub fn new() -> (r: Self)
        ensures
            r.pools@.len() == 0,
            r.tokens@.len() == 0,
    {
        BlacklistFilter { pools: Vec::new(), tokens: Vec::new() }
    }

    pub fn with_pools(self, pools: Vec<Address>) -> (r: Self)
        ensures
            r.pools@ == pools@,
            r.tokens@ == self.tokens@,
    {
        BlacklistFilter { pools, tokens: self.tokens }
    }

    pub fn with_tokens(self, tokens: Vec<Address>) -> (r: Self)
        ensures
            r.pools@ == self.pools@,
            r.tokens@ == tokens@,
    {
        BlacklistFilter { pools: self.pools, tokens }
    }

    pub fn filter(&self, pool: &AMM) -> (r: bool)
        ensures
            r == self.admits(*pool),
    {
        !contains_address(&self.pools, pool.address()) && !lists_any_exec(&self.tokens, &pool.tokens())
    }
}

/// Keeps the pools whose valuation, supplied by the caller, exceeds a threshold.
#[derive(Clone, Copy, Debug)]
pub struct ValueFilter {
    pub min_value: u128,
}

impl ValueFilter {
    pub fn new(min_value: u128) -> (r: Self)
        ensures
            r.min_value == min_value,
    {
        ValueFilter { min_value }
    }

    pub fn filter(&self, value: u128) -> (r: bool)
        ensures
            r == (value > self.min_value),
    {
        value > self.min_value
    }
}

#[derive(Clone, Debug)]
pub enum PoolFilter {
    Whitelist(WhitelistFilter),
    Blacklist(BlacklistFilter),
    Value(ValueFilter),
}

impl PoolFilter {
    /// Whether this filter keeps `pool`, valued at `value`.
    pub open spec fn admits(self, pool: AMM, value: u128) -> bool {
        match self {
            PoolFilter::Whitelist(f) => f.admits(pool),
            PoolFilter::Blacklist(f) => f.admits(pool),
            PoolFilter::Value(f) => value > f.min_value,
        }
    }

    pub fn filter(&self, pool: &AMM, value: u128) -> (r: bool)
        ensures
            r == self.admits(*pool, value),
    {
        match self {
            PoolFilter::Whitelist(f) => f.filter(pool),
            PoolFilter::Blacklist(f) => f.filter(pool),
            PoolFilter::Value(f) => f.filter(value),
        }
    }
}

/// Every filter of the chain keeps `pool`.
pub open spec fn chain_admits(filters: Seq<PoolFilter>, pool: AMM, value: u128) -> bool {
    forall|i: int| 0 <= i < filters.len() ==> #[trigger] filters[i].admits(pool, value)
}

/// Runs the chain in order, stopping at the first filter that rejects.
pub fn chain_filter(filters: &Vec<PoolFilter>, pool: &AMM, value: u128) -> (r: bool)
    ensures
        r == chain_admits(filters@, *pool, value),
{
    let mut i: usize = 0;
    while i < filters.len()
        invariant
            i <= filters@.len(),
            forall|j: int| 0 <= j < i ==> #[trigger] filters@[j].admits(*pool, value),
        decreases filters.len() - i,
    {
        if !filters[i].filter(pool, value) {
            return false;
        }
        i = i + 1;
    }
    true
}

/// The pools that the whole chain keeps, in order; `values[i]` is the valuation of `pools[i]`.
pub open spec fn kept_pools(pools: Seq<AMM>, values: Seq<u128>, filters: Seq<PoolFilter>) -> Seq<
    AMM,
>
    decreases pools.len(),
{
    if pools.len() == 0 {
        Seq::empty()
    } else {
        let rest = kept_pools(pools.drop_last(), values.drop_last(), filters);
        if chain_admits(filters, pools.last(), values.last()) {
            rest.push(pools.last())
        } else {
            rest
        }
    }
}

/// Prunes `pools` with the filter chain.
pub fn apply_filters(pools: &Vec<AMM>, values: &Vec<u128>, filters: &Vec<PoolFilter>) -> (r: Vec<
    AMM,
>)
    requires
        values@.len() == pools@.len(),
    ensures
        r@ == kept_pools(pools@, values@, filters@),
{
    let mut r: Vec<AMM> = Vec::new();
    let mut i: usize = 0;
    while i < pools.len()
        invariant
            i <= pools@.len(),
            values@.len() == pools@.len(),
            r@ == kept_pools(pools@.subrange(0, i as int), values@.subrange(0, i as int), filters@),
        decreases pools.len() - i,
    {
        let ghost p = pools@.subrange(0, i as int + 1);
        let ghost v = values@.subrange(0, i as int + 1);
        assert(p.drop_last() =~= pools@.subrange(0, i as int));
        assert(v.drop_last() =~= values@.subrange(0, i as int));
        if chain_filter(filters, &pools[i], values[i]) {
            r.push(pools[i]);
        }
        i = i + 1;
    }
    assert(pools@.subrange(0, pools@.len() as int) =~= pools@);
    assert(values@.subrange(0, values@.len() as int) =~= values@);
    r
}

/// A whitelist of pools only, with no tokens, rejects a pool it does not list; a whitelist keeps
/// a pool holding one of its tokens whatever the pool's address.
pub proof fn lemma_whitelist_membership(f: WhitelistFilter, pool: AMM)
    ensures
        f.tokens@.len() == 0 && f.pools@.len() > 0 && !f.pools@.contains(pool.spec_address())
            ==> !f.admits(pool),
        (exists|i: int| 0 <= i < pool.spec_tokens().len() && f.tokens@.contains(
            #[trigger] pool.spec_tokens()[i],
        )) ==> f.admits(pool),
{
}

} // verus!
