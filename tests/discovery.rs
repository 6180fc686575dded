use pamms::discovery::{
    block_ranges, discover_from_ranges, filter_by_threshold, identify_factories,
    merge_candidates, DiscoverableFactory, FactoryCandidate,
};
use pamms::error::AMMError;
use pamms::primitives::{Address, Log};
use pamms::u256::U256;
use pamms::uniswap_v2::UniswapV2Factory;

fn creation_log(factory: u128, block: Option<u64>) -> Log {
    Log {
        address: Address { hi: 0, lo: factory },
        topics: vec![DiscoverableFactory::UniswapV2Factory.discovery_event_signature()],
        data: vec![],
        block_number: block,
        log_index: Some(0),
    }
}

fn kinds() -> Vec<DiscoverableFactory> {
    vec![
        DiscoverableFactory::UniswapV2Factory,
        DiscoverableFactory::UniswapV3Factory,
        DiscoverableFactory::BalancerV2Factory,
    ]
}

#[test]
fn first_log_is_not_counted() {
    let logs = vec![
        creation_log(1, Some(10)),
        creation_log(1, Some(11)),
        creation_log(2, Some(12)),
        creation_log(1, Some(13)),
    ];
    let c = identify_factories(&logs, &kinds()).unwrap();
    assert_eq!(c.len(), 2);
    assert_eq!(c[0].address, Address { hi: 0, lo: 1 });
    assert_eq!((c[0].count, c[0].creation_block), (2, 10));
    assert_eq!(c[0].kind, DiscoverableFactory::UniswapV2Factory);
    assert_eq!((c[1].count, c[1].creation_block), (0, 12));
}

#[test]
fn threshold_excludes_small_factories() {
    let logs = vec![
        creation_log(1, Some(10)),
        creation_log(1, Some(11)),
        creation_log(1, Some(12)),
        creation_log(2, Some(12)),
        creation_log(2, Some(13)),
    ];
    let c = identify_factories(&logs, &kinds()).unwrap();
    let kept = filter_by_threshold(&c, 2);
    assert_eq!(kept.len(), 1);
    assert_eq!(kept[0].address, Address { hi: 0, lo: 1 });
    let kept = filter_by_threshold(&c, 1);
    assert_eq!(kept.len(), 2);
}

#[test]
fn unknown_topic_and_missing_block() {
    let mut log = creation_log(1, Some(1));
    log.topics = vec![U256::from_u128(42)];
    assert_eq!(identify_factories(&vec![log], &kinds()).unwrap_err(), AMMError::UnsupportedFactoryKind);
    let log = creation_log(1, None);
    assert_eq!(identify_factories(&vec![log], &kinds()).unwrap_err(), AMMError::BlockNumberNotFound);
}

#[test]
fn merge_adds_counts_and_keeps_earliest_block() {
    let a = FactoryCandidate {
        address: Address { hi: 0, lo: 7 },
        kind: DiscoverableFactory::UniswapV2Factory,
        creation_block: 50,
        count: 3,
    };
    let mut acc = vec![a];
    let b = FactoryCandidate { creation_block: 20, count: 4, ..a };
    let other = FactoryCandidate { address: Address { hi: 1, lo: 0 }, ..a };
    merge_candidates(&mut acc, &vec![b, other]);
    assert_eq!(acc.len(), 2);
    assert_eq!((acc[0].count, acc[0].creation_block), (8, 20));
    assert_eq!(acc[1], other);
}

#[test]
fn failed_ranges_are_reported() {
    let a = FactoryCandidate {
        address: Address { hi: 0, lo: 7 },
        kind: DiscoverableFactory::UniswapV2Factory,
        creation_block: 50,
        count: 3,
    };
    let results = vec![Ok(vec![a]), Err(AMMError::DecodeError), Ok(vec![a])];
    let (factories, failed) = discover_from_ranges(&results, 5);
    assert_eq!(failed, vec![1]);
    assert_eq!(factories.len(), 1);
    assert_eq!(factories[0].count, 7);
    let (factories, _) = discover_from_ranges(&results, 8);
    assert!(factories.is_empty());
}

#[test]
fn ranges_cover_inclusive_head() {
    assert_eq!(block_ranges(0, 10, 5), vec![(0, 4), (5, 9), (10, 10)]);
    assert_eq!(block_ranges(3, 3, 100), vec![(3, 3)]);
    assert!(block_ranges(4, 3, 1).is_empty());
}

#[test]
fn count_does_not_depend_on_range_split() {
    let one_range = identify_factories(&vec![creation_log(1, Some(10)), creation_log(1, Some(20))], &kinds()).unwrap();
    let first = identify_factories(&vec![creation_log(1, Some(10))], &kinds());
    let second = identify_factories(&vec![creation_log(1, Some(20))], &kinds());
    let (split, failed) = discover_from_ranges(&vec![first, second], 1);
    assert!(failed.is_empty());
    assert_eq!(one_range[0].count, 1);
    assert_eq!(split.len(), 1);
    assert_eq!((split[0].count, split[0].creation_block), (1, 10));
}

#[test]
fn explicit_factories_win_over_discovered() {
    let explicit = vec![UniswapV2Factory::new(Address { hi: 0, lo: 1 }, 25, 5)];
    let found = vec![
        FactoryCandidate { address: Address { hi: 0, lo: 1 }, kind: DiscoverableFactory::UniswapV2Factory, creation_block: 3, count: 9 },
        FactoryCandidate { address: Address { hi: 0, lo: 2 }, kind: DiscoverableFactory::UniswapV3Factory, creation_block: 3, count: 9 },
        FactoryCandidate { address: Address { hi: 0, lo: 3 }, kind: DiscoverableFactory::UniswapV2Factory, creation_block: 7, count: 9 },
    ];
    let merged = pamms::discovery::merge_discovered(&explicit, &found, 300);
    assert_eq!(merged, vec![explicit[0], UniswapV2Factory::new(Address { hi: 0, lo: 3 }, 300, 7)]);
}
