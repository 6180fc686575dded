//! The registry of tracked pools and the block-ordered application of their events.

use vstd::prelude::*;
use crate::amm::AMM;
use crate::primitives::Log;
use crate::filters::{PoolFilter, chain_admits, chain_filter};
use crate::primitives::Address;
use crate::uniswap_v2::{UniswapV2Factory, UniswapV2Pool};

verus! {

/// The pool announced by `log`, read by the first of `factories` at the log's address whose
/// creation event it is.
pub open spec fn created_by(factories: Seq<UniswapV2Factory>, log: Log) -> Option<UniswapV2Pool>
    decreases factories.len(),
{
    if factories.len() == 0 {
        None
    } else if factories[0].address == log.address && factories[0].created_pool(log) is Some {
        factories[0].created_pool(log)
    } else {
        created_by(factories.drop_first(), log)
    }
}

pub open spec fn holds_address(pools: Seq<AMM>, address: Address) -> bool {
    exists|i: int| 0 <= i < pools.len() && #[trigger] pools[i].spec_address() == address
}

/// The registry after one log. A pool-creation log of a known factory adds the fresh pool,
/// where the filter chain admits it (valued at zero, as it holds nothing yet) and no pool has
/// its address; any other log updates the pools at its address.
pub open spec fn apply_log(
    pools: Seq<AMM>,
    log: Log,
    factories: Seq<UniswapV2Factory>,
    filters: Seq<PoolFilter>,
) -> Seq<AMM> {
    match created_by(factories, log) {
        Some(pool) => if chain_admits(filters, AMM::UniswapV2Pool(pool), 0) && !holds_address(
            pools,
            pool.address,
        ) {
            pools.push(AMM::UniswapV2Pool(pool))
        } else {
            pools
        },
        None => pools.map_values(
            |p: AMM|
                if p.spec_address() == log.address {
                    p.synced(log)
                } else {
                    p
                },
        ),
    }
}

/// The registry after a run of logs, applied in order.
pub open spec fn apply_logs(
    pools: Seq<AMM>,
    logs: Seq<Log>,
    factories: Seq<UniswapV2Factory>,
    filters: Seq<PoolFilter>,
) -> Seq<AMM>
    decreases logs.len(),
{
    if logs.len() == 0 {
        pools
    } else {
        apply_log(apply_logs(pools, logs.drop_last(), factories, filters), logs.last(), factories, filters)
    }
}

/// `created_by` picks the first factory at the log's address that reads the log as a creation.
proof fn lemma_first_creator(factories: Seq<UniswapV2Factory>, log: Log, i: int)
    requires
        0 <= i <= factories.len(),
        forall|j: int|
            0 <= j < i ==> !(#[trigger] factories[j].address == log.address
                && factories[j].created_pool(log) is Some),
        i < factories.len() ==> factories[i].address == log.address
            && factories[i].created_pool(log) is Some,
    ensures
        created_by(factories, log) == (if i < factories.len() {
            factories[i].created_pool(log)
        } else {
            None::<UniswapV2Pool>
        }),
    decreases factories.len(),
{
    if factories.len() > 0 && i > 0 {
        let rest = factories.drop_first();
        assert forall|j: int| 0 <= j < i - 1 implies !(#[trigger] rest[j].address == log.address
            && rest[j].created_pool(log) is Some) by {
            assert(rest[j] == factories[j + 1]);
        }
        lemma_first_creator(rest, log, i - 1);
        assert(!(factories[0].address == log.address && factories[0].created_pool(log) is Some));
        if i < factories.len() {
            assert(rest[i - 1] == factories[i]);
        }
    }
}

/// The pool a log announces, by the first known factory that reads it as one.
fn find_created(factories: &Vec<UniswapV2Factory>, log: &Log) -> (r: Option<UniswapV2Pool>)
    ensures
        r == created_by(factories@, *log),
{
    let mut i: usize = 0;
    while i < factories.len()
        invariant
            i <= factories@.len(),
            forall|j: int|
                0 <= j < i ==> !(#[trigger] factories@[j].address == log.address
                    && factories@[j].created_pool(*log) is Some),
        decreases factories.len() - i,
    {
        if factories[i].address == log.address {
            match factories[i].create_pool(log) {
                Ok(pool) => {
                    proof { lemma_first_creator(factories@, *log, i as int); }
                    return Some(pool);
                },
                Err(_) => {},
            }
        }
        i = i + 1;
    }
    proof { lemma_first_creator(factories@, *log, i as int); }
    None
}

fn find_pool(pools: &Vec<AMM>, address: Address) -> (r: bool)
    ensures
        r == holds_address(pools@, address),
{
    let mut i: usize = 0;
    while i < pools.len()
        invariant
            i <= pools@.len(),
            forall|j: int| 0 <= j < i ==> #[trigger] pools@[j].spec_address() != address,
        decreases pools.len() - i,
    {
        if pools[i].address() == address {
            return true;
        }
        i = i + 1;
    }
    false
}

/// Every log is of block `block_number`, and their log indexes strictly ascend.
pub open spec fn block_logs_in_order(block_number: u64, logs: Seq<Log>) -> bool {
    &&& forall|i: int| 0 <= i < logs.len() ==> #[trigger] logs[i].block_number == Some(block_number)
    &&& forall|i: int| 0 <= i < logs.len() ==> (#[trigger] logs[i].log_index) is Some
    &&& forall|i: int, j: int|
        0 <= i < j < logs.len() ==> (#[trigger] logs[i].log_index)->Some_0 < (
        #[trigger] logs[j].log_index)->Some_0
}

/// Whether the logs fetched for a block are all of that block and in ascending log-index order.
pub fn block_logs_ordered(block_number: u64, logs: &Vec<Log>) -> (r: bool)
    ensures
        r == block_logs_in_order(block_number, logs@),
{
    let mut i: usize = 0;
    let mut previous: Option<u64> = None;
    while i < logs.len()
        invariant
            i <= logs@.len(),
            block_logs_in_order(block_number, logs@.subrange(0, i as int)),
            i == 0 ==> previous is None,
            i > 0 ==> previous == logs@[i - 1].log_index,
        decreases logs.len() - i,
    {
        let log = &logs[i];
        if log.block_number != Some(block_number) {
            assert(!block_logs_in_order(block_number, logs@)) by {
                assert(logs@[i as int].block_number != Some(block_number));
            }
            return false;
        }
        let index = match log.log_index {
            Some(v) => v,
            None => {
                assert(!block_logs_in_order(block_number, logs@)) by {
                    assert(logs@[i as int].log_index is None);
                }
                return false;
            },
        };
        if let Some(p) = previous {
            if p >= index {
                assert(!block_logs_in_order(block_number, logs@)) by {
                    assert(logs@[i - 1].log_index->Some_0 >= logs@[i as int].log_index->Some_0);
                }
                return false;
            }
        }
        let ghost before = logs@.subrange(0, i as int);
        let ghost after = logs@.subrange(0, i as int + 1);
        assert forall|a: int, b: int| 0 <= a < b < after.len() implies (
        #[trigger] after[a].log_index)->Some_0 < (#[trigger] after[b].log_index)->Some_0 by {
            if b < i {
                assert(after[a] == before[a] && after[b] == before[b]);
            } else if a < i - 1 {
                assert(after[a] == before[a] && after[i - 1] == before[i - 1]);
                assert(before[a].log_index->Some_0 < before[i - 1].log_index->Some_0);
            }
        }
        assert(block_logs_in_order(block_number, after));
        previous = Some(index);
        i = i + 1;
    }
    assert(logs@.subrange(0, logs@.len() as int) =~= logs@);
    true
}

pub struct StateSpace {
    pub pools: Vec<AMM>,
    /// The factories whose creation logs add pools.
    pub factories: Vec<UniswapV2Factory>,
    /// The chain that new pools must pass.
    pub filters: Vec<PoolFilter>,
    /// The last block whose logs have all been applied.
    pub last_synced_block: u64,
}

impl StateSpace {
    pub fn new(
        pools: Vec<AMM>,
        factories: Vec<UniswapV2Factory>,
        filters: Vec<PoolFilter>,
        last_synced_block: u64,
    ) -> (r: Self)
        ensures
            r.pools@ == pools@,
            r.factories@ == factories@,
            r.filters@ == filters@,
            r.last_synced_block == last_synced_block,
    {
        StateSpace { pools, factories, filters, last_synced_block }
    }

    /// Applies one log: a creation log of a known factory may add a pool, any other log
    /// updates the pools at its address (one that does not decode changes nothing).
    pub fn apply_log(&mut self, log: &Log)
        ensures
            final(self).pools@ == apply_log(
                old(self).pools@,
                *log,
                old(self).factories@,
                old(self).filters@,
            ),
            final(self).factories@ == old(self).factories@,
            final(self).filters@ == old(self).filters@,
            final(self).last_synced_block == old(self).last_synced_block,
    {
        match find_created(&self.factories, log) {
            Some(pool) => {
                let amm = AMM::UniswapV2Pool(pool);
                if chain_filter(&self.filters, &amm, 0) && !find_pool(&self.pools, pool.address) {
                    self.pools.push(amm);
                }
                return;
            },
            None => {},
        }
        let ghost start = self.pools@;
        let mut i: usize = 0;
        while i < self.pools.len()
            invariant
                i <= self.pools@.len(),
                self.pools@.len() == start.len(),
                self.last_synced_block == old(self).last_synced_block,
                self.factories@ == old(self).factories@,
                self.filters@ == old(self).filters@,
                start == old(self).pools@,
                forall|j: int|
                    0 <= j < i ==> #[trigger] self.pools@[j] == (if start[j].spec_address()
                        == log.address {
                        start[j].synced(*log)
                    } else {
                        start[j]
                    }),
                forall|j: int| i <= j < start.len() ==> #[trigger] self.pools@[j] == start[j],
            decreases self.pools.len() - i,
        {
            let mut pool = self.pools[i];
            if pool.address() == log.address {
                let _ = pool.sync(log);
                self.pools.set(i, pool);
            }
            i = i + 1;
        }
        assert(self.pools@ =~= apply_log(start, *log, self.factories@, self.filters@));
    }

    /// Applies the logs of block `block_number`, in ascending log-index order, then records the
    /// block as synced. A block at or before the last synced one is refused and nothing changes.
    pub fn apply_block(&mut self, block_number: u64, logs: &Vec<Log>) -> (r: bool)
        requires
            block_logs_in_order(block_number, logs@),
        ensures
            r == (block_number > old(self).last_synced_block),
            r ==> final(self).pools@ == apply_logs(
                old(self).pools@,
                logs@,
                old(self).factories@,
                old(self).filters@,
            ) && final(self).last_synced_block == block_number,
            final(self).factories@ == old(self).factories@,
            final(self).filters@ == old(self).filters@,
            !r ==> final(self).pools@ == old(self).pools@
                && final(self).last_synced_block == old(self).last_synced_block,
    {
        if block_number <= self.last_synced_block {
            return false;
        }
        let ghost start = self.pools@;
        let mut i: usize = 0;
        assert(logs@.subrange(0, 0) =~= Seq::<Log>::empty());
        while i < logs.len()
            invariant
                i <= logs@.len(),
                self.pools@ == apply_logs(start, logs@.subrange(0, i as int), self.factories@, self.filters@),
                self.factories@ == old(self).factories@,
                self.filters@ == old(self).filters@,
                self.last_synced_block == old(self).last_synced_block,
            decreases logs.len() - i,
        {
            let ghost prefix = logs@.subrange(0, i as int + 1);
            assert(prefix.drop_last() =~= logs@.subrange(0, i as int));
            assert(prefix.last() == logs@[i as int]);
            self.apply_log(&logs[i]);
            i = i + 1;
        }
        assert(logs@.subrange(0, logs@.len() as int) =~= logs@);
        self.last_synced_block = block_number;
        true
    }
}

/// No two pools share an address.
pub open spec fn distinct_pools(pools: Seq<AMM>) -> bool {
    forall|i: int, j: int|
        0 <= i < j < pools.len() ==> #[trigger] pools[i].spec_address()
            != #[trigger] pools[j].spec_address()
}

/// The index of the pool at `address`, or -1.
pub open spec fn pool_index(pools: Seq<AMM>, address: Address) -> int {
    if holds_address(pools, address) {
        choose|i: int| 0 <= i < pools.len() && #[trigger] pools[i].spec_address() == address
    } else {
        -1
    }
}

/// Puts `pool` into the registry, replacing the pool at its address if there is one.
pub open spec fn put_pool(pools: Seq<AMM>, pool: AMM) -> Seq<AMM> {
    let i = pool_index(pools, pool.spec_address());
    if i >= 0 {
        pools.update(i, pool)
    } else {
        pools.push(pool)
    }
}

/// The registry that the pools make, one per address, the last given for an address winning.
pub open spec fn merged_pools(pools: Seq<AMM>) -> Seq<AMM>
    decreases pools.len(),
{
    if pools.len() == 0 {
        Seq::empty()
    } else {
        put_pool(merged_pools(pools.drop_last()), pools.last())
    }
}

fn index_of_pool(pools: &Vec<AMM>, address: Address) -> (r: Option<usize>)
    requires
        distinct_pools(pools@),
    ensures
        r matches Some(i) ==> i == pool_index(pools@, address) && i < pools@.len(),
        r is None ==> pool_index(pools@, address) == -1,
{
    let mut i: usize = 0;
    while i < pools.len()
        invariant
            i <= pools@.len(),
            distinct_pools(pools@),
            forall|j: int| 0 <= j < i ==> #[trigger] pools@[j].spec_address() != address,
        decreases pools.len() - i,
    {
        if pools[i].address() == address {
            proof {
                let k = pool_index(pools@, address);
                assert(pools@[i as int].spec_address() == address);
                assert(0 <= k < pools@.len() && pools@[k].spec_address() == address);
                if k > i {
                    assert(pools@[i as int].spec_address() != pools@[k].spec_address());
                }
            }
            return Some(i);
        }
        i = i + 1;
    }
    None
}

/// One pool per address from the pools that backfill returned, the last one for an address
/// winning.
pub fn merge_by_address(pools: &Vec<AMM>) -> (r: Vec<AMM>)
    ensures
        r@ == merged_pools(pools@),
        distinct_pools(r@),
{
    let mut r: Vec<AMM> = Vec::new();
    let mut i: usize = 0;
    assert(pools@.subrange(0, 0) =~= Seq::<AMM>::empty());
    while i < pools.len()
        invariant
            i <= pools@.len(),
            r@ == merged_pools(pools@.subrange(0, i as int)),
            distinct_pools(r@),
        decreases pools.len() - i,
    {
        let ghost prefix = pools@.subrange(0, i as int + 1);
        assert(prefix.drop_last() =~= pools@.subrange(0, i as int));
        assert(prefix.last() == pools@[i as int]);
        let p = pools[i];
        match index_of_pool(&r, p.address()) {
            Some(j) => {
                r.set(j, p);
            },
            None => {
                r.push(p);
            },
        }
        i = i + 1;
    }
    assert(pools@.subrange(0, pools@.len() as int) =~= pools@);
    r
}

/// A reserve update applied twice leaves a pool as applying it once does.
pub proof fn lemma_sync_idempotent(pool: UniswapV2Pool, log: Log)
    ensures
        pool.synced(log).synced(log) == pool.synced(log),
{
}

/// A pool after a run of logs, applied in order.
pub open spec fn synced_all(pool: UniswapV2Pool, logs: Seq<Log>) -> UniswapV2Pool
    decreases logs.len(),
{
    if logs.len() == 0 {
        pool
    } else {
        synced_all(pool, logs.drop_last()).synced(logs.last())
    }
}

/// Syncing a pool with block N's logs and then block N+1's gives the pool that syncing it with
/// the two runs joined gives.
pub proof fn lemma_synced_all_concat(pool: UniswapV2Pool, first: Seq<Log>, second: Seq<Log>)
    ensures
        synced_all(synced_all(pool, first), second) == synced_all(pool, first + second),
    decreases second.len(),
{
    if second.len() == 0 {
        assert(first + second =~= first);
    } else {
        lemma_synced_all_concat(pool, first, second.drop_last());
        assert((first + second).drop_last() =~= first + second.drop_last());
        assert((first + second).last() == second.last());
    }
}

/// After a run ending in a reserve update that decodes, the pool holds that update's reserves
/// and the rest of its fields as they were.
pub proof fn lemma_last_sync_wins(pool: UniswapV2Pool, logs: Seq<Log>)
    requires
        logs.len() > 0,
        UniswapV2Pool::sync_reserves(logs.last()) is Some,
    ensures
        synced_all(pool, logs) == (UniswapV2Pool {
            reserve_0: UniswapV2Pool::sync_reserves(logs.last())->Some_0.0,
            reserve_1: UniswapV2Pool::sync_reserves(logs.last())->Some_0.1,
            ..pool
        }),
{
    let rest = logs.drop_last();
    lemma_fields_kept(pool, rest);
    let before = synced_all(pool, rest);
    assert(synced_all(pool, logs) == before.synced(logs.last()));
}

/// A run of logs changes no field of a pool but its reserves.
proof fn lemma_fields_kept(pool: UniswapV2Pool, logs: Seq<Log>)
    ensures
        synced_all(pool, logs) == (UniswapV2Pool {
            reserve_0: synced_all(pool, logs).reserve_0,
            reserve_1: synced_all(pool, logs).reserve_1,
            ..pool
        }),
    decreases logs.len(),
{
    if logs.len() > 0 {
        lemma_fields_kept(pool, logs.drop_last());
    }
}

/// Applying the same log twice to the registry gives the registry that applying it once gives.
pub proof fn lemma_apply_log_idempotent(
    pools: Seq<AMM>,
    log: Log,
    factories: Seq<UniswapV2Factory>,
    filters: Seq<PoolFilter>,
)
    ensures
        apply_log(apply_log(pools, log, factories, filters), log, factories, filters) == apply_log(
            pools,
            log,
            factories,
            filters,
        ),
{
    let once = apply_log(pools, log, factories, filters);
    match created_by(factories, log) {
        Some(pool) => {
            if chain_admits(filters, AMM::UniswapV2Pool(pool), 0) && !holds_address(
                pools,
                pool.address,
            ) {
                assert(once[pools.len() as int].spec_address() == pool.address);
            }
        },
        None => {
            assert forall|i: int| 0 <= i < pools.len() implies #[trigger] apply_log(
                once,
                log,
                factories,
                filters,
            )[i] == once[i] by {
                match pools[i] {
                    AMM::UniswapV2Pool(p) => {
                        lemma_sync_idempotent(p, log);
                    },
                }
            }
            assert(apply_log(once, log, factories, filters) =~= once);
        },
    }
}

/// Applying block N's logs and then block N+1's gives the registry that applying the two
/// blocks' logs in one ordered run gives.
pub proof fn lemma_apply_logs_concat(
    pools: Seq<AMM>,
    first: Seq<Log>,
    second: Seq<Log>,
    factories: Seq<UniswapV2Factory>,
    filters: Seq<PoolFilter>,
)
    ensures
        apply_logs(apply_logs(pools, first, factories, filters), second, factories, filters)
            == apply_logs(pools, first + second, factories, filters),
    decreases second.len(),
{
    if second.len() == 0 {
        assert(first + second =~= first);
    } else {
        lemma_apply_logs_concat(pools, first, second.drop_last(), factories, filters);
        assert((first + second).drop_last() =~= first + second.drop_last());
        assert((first + second).last() == second.last());
    }
}

} // verus!
