use pamms::amm::AMM;
use pamms::filters::{apply_filters, BlacklistFilter, PoolFilter, ValueFilter, WhitelistFilter};
use pamms::primitives::Address;
use pamms::uniswap_v2::UniswapV2Pool;

fn a(n: u128) -> Address {
    Address { hi: 0, lo: n }
}

fn pool(address: u128, t0: u128, t1: u128) -> AMM {
    AMM::UniswapV2Pool(UniswapV2Pool { address: a(address), token_a: a(t0), token_b: a(t1), ..Default::default() })
}

#[test]
fn whitelist_of_pools_rejects_unlisted_pool() {
    let f = WhitelistFilter::new().with_pools(vec![a(1)]);
    assert!(!f.filter(&pool(2, 10, 11)));
    assert!(f.filter(&pool(1, 10, 11)));
}

#[test]
fn whitelisted_token_keeps_pool() {
    let f = WhitelistFilter::new().with_pools(vec![a(1)]).with_tokens(vec![a(11)]);
    assert!(f.filter(&pool(2, 10, 11)));
    assert!(!f.filter(&pool(3, 12, 13)));
}

#[test]
fn empty_whitelist_accepts_all() {
    assert!(WhitelistFilter::new().filter(&pool(9, 10, 11)));
}

#[test]
fn blacklist_rejects_pool_or_token() {
    let f = BlacklistFilter::new().with_pools(vec![a(1)]).with_tokens(vec![a(20)]);
    assert!(!f.filter(&pool(1, 10, 11)));
    assert!(!f.filter(&pool(2, 20, 11)));
    assert!(f.filter(&pool(3, 10, 11)));
}

#[test]
fn value_filter_needs_more_than_threshold() {
    let f = ValueFilter::new(100);
    assert!(!f.filter(100));
    assert!(f.filter(101));
}

#[test]
fn chain_keeps_what_every_filter_accepts() {
    let pools = vec![pool(1, 10, 11), pool(2, 20, 21), pool(3, 10, 31)];
    let filters = vec![
        PoolFilter::Whitelist(WhitelistFilter::new().with_tokens(vec![a(10), a(20)])),
        PoolFilter::Blacklist(BlacklistFilter::new().with_pools(vec![a(3)])),
        PoolFilter::Value(ValueFilter::new(5)),
    ];
    let kept = apply_filters(&pools, &vec![6, 4, 100], &filters);
    assert_eq!(kept.len(), 1);
    assert_eq!(kept[0].address(), a(1));
}
