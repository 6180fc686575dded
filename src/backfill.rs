//! Historical sync of a constant-product factory's pools: paging through its pair index,
//! grouping pair addresses for batched reads, and turning the rows read into pools.

use vstd::prelude::*;
use crate::error::AMMError;
use crate::primitives::Address;
use crate::uniswap_v2::UniswapV2Pool;
use itertools::Itertools;

verus! {

/// How many pair addresses one paged read of the factory's index asks for.
pub const PAIRS_PAGE_SIZE: usize = 766;

/// How many pools one batched read of pool data covers.
pub const POOL_BATCH_SIZE: usize = 127;

/// The `i`-th group of `size` items of `s`, the last one possibly shorter.
pub open spec fn chunk_at(s: Seq<Address>, size: nat, i: int) -> Seq<Address> {
    let end = if (i + 1) * size > s.len() {
        s.len() as int
    } else {
        (i + 1) * size
    };
    s.subrange(i * size, end)
}

/// Relies on itertools' `Itertools::chunks`: consecutive chunks of `size` items, the last one
/// shorter where items run out (it panics on a zero size).
#[verifier::external_body]
fn chunks_of(items: Vec<Address>, size: usize) -> (r: Vec<Vec<Address>>)
    requires
        size > 0,
    ensures
        r@.len() == (items@.len() + size - 1) / (size as int),
        forall|i: int| 0 <= i < r@.len() ==> (#[trigger] r@[i])@ == chunk_at(items@, size as nat, i),
{
    items.into_iter().chunks(size).into_iter().map(|chunk| chunk.collect()).collect()
}

/// The groups of pair addresses that batched pool reads take, in order.
pub fn pool_batches(pairs: Vec<Address>) -> (r: Vec<Vec<Address>>)
    ensures
        r@.len() == (pairs@.len() + POOL_BATCH_SIZE - 1) / (POOL_BATCH_SIZE as int),
        forall|i: int|
            0 <= i < r@.len() ==> (#[trigger] r@[i])@ == chunk_at(pairs@, POOL_BATCH_SIZE as nat, i),
{
    chunks_of(pairs, POOL_BATCH_SIZE)
}

/// The index offsets at which paged reads of a pair index of `pairs_length` entries start.
pub fn page_starts(pairs_length: usize) -> (r: Vec<usize>)
    ensures
        forall|i: int| 0 <= i < r@.len() ==> #[trigger] r@[i] == i * PAIRS_PAGE_SIZE,
        r@.len() * PAIRS_PAGE_SIZE >= pairs_length,
        r@.len() > 0 ==> (r@.len() - 1) * PAIRS_PAGE_SIZE < pairs_length,
{
    let mut starts: Vec<usize> = Vec::new();
    let mut offset: usize = 0;
    while offset < pairs_length
        invariant
            offset == starts@.len() * PAIRS_PAGE_SIZE,
            offset < pairs_length + PAIRS_PAGE_SIZE,
            starts@.len() > 0 ==> (starts@.len() - 1) * PAIRS_PAGE_SIZE < pairs_length,
            forall|i: int| 0 <= i < starts@.len() ==> #[trigger] starts@[i] == i * PAIRS_PAGE_SIZE,
        decreases pairs_length + PAIRS_PAGE_SIZE - offset,
    {
        starts.push(offset);
        if offset > usize::MAX - PAIRS_PAGE_SIZE {
            return starts;
        }
        offset = offset + PAIRS_PAGE_SIZE;
    }
    starts
}

pub open spec fn is_nonzero(a: Address) -> bool {
    a.value() != 0
}

/// The addresses of one page that are not the zero address, in order.
pub fn nonzero_pairs(page: &Vec<Address>) -> (r: Vec<Address>)
    ensures
        r@ == page@.filter(|a: Address| is_nonzero(a)),
{
    let mut r: Vec<Address> = Vec::new();
    let mut i: usize = 0;
    reveal(Seq::filter);
    assert(page@.subrange(0, 0) =~= Seq::<Address>::empty());
    while i < page.len()
        invariant
            i <= page@.len(),
            r@ == page@.subrange(0, i as int).filter(|a: Address| is_nonzero(a)),
        decreases page.len() - i,
    {
        let ghost prefix = page@.subrange(0, i as int + 1);
        assert(prefix.drop_last() =~= page@.subrange(0, i as int));
        reveal(Seq::filter);
        if !page[i].is_zero() {
            r.push(page[i]);
        }
        i = i + 1;
    }
    assert(page@.subrange(0, page@.len() as int) =~= page@);
    r
}

/// One row of a batched pool read: the pool's tokens, reserves and token decimals. A zero
/// `token_a` marks a pool that could not be read.
#[derive(Clone, Copy, Debug, PartialEq, Eq, Structural)]
pub struct PoolData {
    pub token_a: Address,
    pub token_b: Address,
    pub reserve_0: u128,
    pub reserve_1: u128,
    pub token_a_decimals: u8,
    pub token_b_decimals: u8,
}

pub open spec fn pool_of_row(address: Address, row: PoolData, fee: usize) -> UniswapV2Pool {
    UniswapV2Pool {
        address,
        token_a: row.token_a,
        token_a_decimals: row.token_a_decimals,
        token_b: row.token_b,
        token_b_decimals: row.token_b_decimals,
        reserve_0: row.reserve_0,
        reserve_1: row.reserve_1,
        fee,
    }
}

/// The pools that the first `n` rows of a batch describe, unreadable ones dropped.
pub open spec fn pools_of_rows(group: Seq<Address>, rows: Seq<PoolData>, fee: usize, n: int) -> Seq<
    UniswapV2Pool,
>
    decreases n,
{
    if n <= 0 {
        Seq::empty()
    } else {
        let rest = pools_of_rows(group, rows, fee, n - 1);
        if rows[n - 1].token_a.value() != 0 {
            rest.push(pool_of_row(group[n - 1], rows[n - 1], fee))
        } else {
            rest
        }
    }
}

/// Pairs each address of a batch with the row read for it, dropping unreadable pools.
pub fn pools_from_batch(group: &Vec<Address>, rows: &Vec<PoolData>, fee: usize) -> (r: Vec<
    UniswapV2Pool,
>)
    ensures
        r@ == pools_of_rows(
            group@,
            rows@,
            fee,
            if group@.len() < rows@.len() {
                group@.len() as int
            } else {
                rows@.len() as int
            },
        ),
{
    let n = if group.len() < rows.len() {
        group.len()
    } else {
        rows.len()
    };
    let mut pools: Vec<UniswapV2Pool> = Vec::new();
    let mut i: usize = 0;
    while i < n
        invariant
            i <= n,
            n <= group@.len(),
            n <= rows@.len(),
            pools@ == pools_of_rows(group@, rows@, fee, i as int),
        decreases n - i,
    {
        let row = rows[i];
        if !row.token_a.is_zero() {
            pools.push(
                UniswapV2Pool {
                    address: group[i],
                    token_a: row.token_a,
                    token_a_decimals: row.token_a_decimals,
                    token_b: row.token_b,
                    token_b_decimals: row.token_b_decimals,
                    reserve_0: row.reserve_0,
                    reserve_1: row.reserve_1,
                    fee,
                },
            );
        }
        i = i + 1;
    }
    pools
}

/// The pools of the successful batches, in order, and the indexes of the failed ones.
pub open spec fn collected(results: Seq<Result<Vec<UniswapV2Pool>, AMMError>>) -> (
    Seq<UniswapV2Pool>,
    Seq<usize>,
)
    decreases results.len(),
{
    if results.len() == 0 {
        (Seq::empty(), Seq::empty())
    } else {
        let (pools, failed) = collected(results.drop_last());
        match results.last() {
            Ok(batch) => (pools + batch@, failed),
            Err(_) => (pools, failed.push((results.len() - 1) as usize)),
        }
    }
}

/// Gathers the pools of every batch read that succeeded and lists the batches that failed, so
/// that one failed read does not lose the others.
pub fn collect_backfill(results: &Vec<Result<Vec<UniswapV2Pool>, AMMError>>) -> (r: (
    Vec<UniswapV2Pool>,
    Vec<usize>,
))
    ensures
        (r.0@, r.1@) == collected(results@),
{
    let mut pools: Vec<UniswapV2Pool> = Vec::new();
    let mut failed: Vec<usize> = Vec::new();
    let mut i: usize = 0;
    assert(results@.subrange(0, 0) =~= Seq::<Result<Vec<UniswapV2Pool>, AMMError>>::empty());
    while i < results.len()
        invariant
            i <= results@.len(),
            (pools@, failed@) == collected(results@.subrange(0, i as int)),
        decreases results.len() - i,
    {
        let ghost prefix = results@.subrange(0, i as int + 1);
        assert(prefix.drop_last() =~= results@.subrange(0, i as int));
        assert(prefix.last() == results@[i as int]);
        match &results[i] {
            Ok(batch) => {
                let mut j: usize = 0;
                let ghost before = pools@;
                while j < batch.len()
                    invariant
                        j <= batch@.len(),
                        pools@ == before + batch@.subrange(0, j as int),
                    decreases batch.len() - j,
                {
                    pools.push(batch[j]);
                    j = j + 1;
                    assert(pools@ =~= before + batch@.subrange(0, j as int));
                }
                assert(batch@.subrange(0, batch@.len() as int) =~= batch@);
            },
            Err(_) => {
                failed.push(i);
            },
        }
        i = i + 1;
    }
    assert(results@.subrange(0, results@.len() as int) =~= results@);
    (pools, failed)
}

} // verus!
