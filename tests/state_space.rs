use pamms::amm::AMM;
use pamms::primitives::{Address, Log};
use pamms::filters::{PoolFilter, WhitelistFilter};
use pamms::state_space::{block_logs_ordered, merge_by_address, StateSpace};
use pamms::u256::U256;
use pamms::uniswap_v2::{UniswapV2Factory, UniswapV2Pool};

fn pool(n: u128) -> AMM {
    AMM::UniswapV2Pool(UniswapV2Pool { address: Address { hi: 0, lo: n }, fee: 300, ..Default::default() })
}

fn sync(n: u128, r0: u128, r1: u128, block: u64, index: u64) -> Log {
    Log {
        address: Address { hi: 0, lo: n },
        topics: pool(n).sync_events(),
        data: vec![U256::from_u128(r0), U256::from_u128(r1)],
        block_number: Some(block),
        log_index: Some(index),
    }
}

fn reserves(s: &StateSpace) -> Vec<(u128, u128)> {
    s.pools.iter().map(|p| match p { AMM::UniswapV2Pool(q) => (q.reserve_0, q.reserve_1) }).collect()
}

#[test]
fn block_updates_pools_and_last_block() {
    let mut s = StateSpace::new(vec![pool(1), pool(2)], vec![], vec![], 10);
    assert!(s.apply_block(11, &vec![sync(1, 5, 6, 11, 0), sync(1, 7, 8, 11, 1)]));
    assert_eq!(reserves(&s), vec![(7, 8), (0, 0)]);
    assert_eq!(s.last_synced_block, 11);
}

#[test]
fn old_block_is_refused() {
    let mut s = StateSpace::new(vec![pool(1)], vec![], vec![], 10);
    assert!(!s.apply_block(10, &vec![sync(1, 5, 6, 10, 0)]));
    assert_eq!(reserves(&s), vec![(0, 0)]);
    assert_eq!(s.last_synced_block, 10);
}

#[test]
fn two_blocks_equal_one_combined_run() {
    let first = vec![sync(1, 1, 2, 11, 0), sync(2, 3, 4, 11, 1)];
    let second = vec![sync(1, 9, 9, 12, 0)];
    let mut stepwise = StateSpace::new(vec![pool(1), pool(2)], vec![], vec![], 10);
    stepwise.apply_block(11, &first);
    stepwise.apply_block(12, &second);
    let mut combined = StateSpace::new(vec![pool(1), pool(2)], vec![], vec![], 10);
    let mut all = first.clone();
    all.extend(second);
    for log in &all {
        combined.apply_log(log);
    }
    assert_eq!(reserves(&stepwise), reserves(&combined));
}

#[test]
fn same_log_twice_is_idempotent() {
    let log = sync(1, 4, 5, 11, 0);
    let mut once = StateSpace::new(vec![pool(1)], vec![], vec![], 10);
    once.apply_log(&log);
    let mut twice = StateSpace::new(vec![pool(1)], vec![], vec![], 10);
    twice.apply_log(&log);
    twice.apply_log(&log);
    assert_eq!(reserves(&once), reserves(&twice));
}

fn factory() -> UniswapV2Factory {
    UniswapV2Factory::new(Address { hi: 0, lo: 900 }, 300, 1)
}

fn word(a: u128) -> U256 {
    U256::from_u128(a)
}

fn creation(pair: u128, block: u64, index: u64) -> Log {
    let f = factory();
    Log {
        address: f.address(),
        topics: vec![f.discovery_event(), word(10), word(11)],
        data: vec![word(pair), word(1)],
        block_number: Some(block),
        log_index: Some(index),
    }
}

#[test]
fn creation_log_adds_fresh_pool_once() {
    let mut s = StateSpace::new(vec![pool(1)], vec![factory()], vec![], 10);
    assert!(s.apply_block(11, &vec![creation(5, 11, 0), creation(5, 11, 1)]));
    assert_eq!(s.pools.len(), 2);
    assert_eq!(s.pools[1].address(), Address { hi: 0, lo: 5 });
    assert!(s.apply_block(12, &vec![sync(5, 3, 4, 12, 0)]));
    assert_eq!(reserves(&s), vec![(0, 0), (3, 4)]);
}

#[test]
fn creation_log_respects_filters() {
    let only_pool_1 = PoolFilter::Whitelist(WhitelistFilter::new().with_pools(vec![Address { hi: 0, lo: 1 }]));
    let mut s = StateSpace::new(vec![pool(1)], vec![factory()], vec![only_pool_1], 10);
    assert!(s.apply_block(11, &vec![creation(5, 11, 0)]));
    assert_eq!(s.pools.len(), 1);
}

#[test]
fn merge_keeps_last_pool_per_address() {
    let mut later = UniswapV2Pool { address: Address { hi: 0, lo: 1 }, ..Default::default() };
    later.reserve_0 = 99;
    let merged = merge_by_address(&vec![pool(1), pool(2), AMM::UniswapV2Pool(later)]);
    assert_eq!(merged.len(), 2);
    assert_eq!(reserves(&StateSpace::new(merged, vec![], vec![], 0)), vec![(99, 0), (0, 0)]);
}

#[test]
fn block_log_order_is_checked() {
    assert!(block_logs_ordered(11, &vec![sync(1, 1, 1, 11, 0), sync(1, 1, 1, 11, 4)]));
    assert!(!block_logs_ordered(11, &vec![sync(1, 1, 1, 11, 4), sync(1, 1, 1, 11, 4)]));
    assert!(!block_logs_ordered(11, &vec![sync(1, 1, 1, 12, 0)]));
    assert!(block_logs_ordered(11, &vec![]));
}
