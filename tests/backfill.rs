use pamms::backfill::{collect_backfill, nonzero_pairs, page_starts, pool_batches, pools_from_batch, PoolData};
use pamms::error::AMMError;
use pamms::primitives::Address;
use pamms::uniswap_v2::UniswapV2Pool;

fn a(n: u128) -> Address {
    Address { hi: 0, lo: n }
}

#[test]
fn pages_cover_the_index() {
    assert_eq!(page_starts(1600), vec![0, 766, 1532]);
    assert_eq!(page_starts(766), vec![0]);
    assert!(page_starts(0).is_empty());
}

#[test]
fn zero_pairs_are_dropped() {
    assert_eq!(nonzero_pairs(&vec![a(1), a(0), a(2)]), vec![a(1), a(2)]);
}

#[test]
fn batches_of_127() {
    let pairs: Vec<Address> = (1..=300).map(a).collect();
    let batches = pool_batches(pairs.clone());
    assert_eq!(batches.iter().map(|b| b.len()).collect::<Vec<_>>(), vec![127, 127, 46]);
    assert_eq!(batches.concat(), pairs);
}

#[test]
fn unreadable_rows_are_dropped() {
    let row = PoolData { token_a: a(10), token_b: a(11), reserve_0: 5, reserve_1: 6, token_a_decimals: 18, token_b_decimals: 6 };
    let empty = PoolData { token_a: a(0), ..row };
    let pools = pools_from_batch(&vec![a(1), a(2), a(3)], &vec![row, empty, row], 300);
    assert_eq!(pools.len(), 2);
    assert_eq!(pools[1].address, a(3));
    assert_eq!((pools[0].reserve_0, pools[0].token_b_decimals, pools[0].fee), (5, 6, 300));
}

#[test]
fn failed_batches_are_listed() {
    let p = UniswapV2Pool { address: a(1), ..Default::default() };
    let results = vec![Ok(vec![p]), Err(AMMError::DecodeError), Ok(vec![p, p])];
    let (pools, failed) = collect_backfill(&results);
    assert_eq!(pools.len(), 3);
    assert_eq!(failed, vec![1]);
}
