use pamms::error::AMMError;
use pamms::primitives::{Address, Log};
use pamms::u256::U256;
use pamms::uniswap_v2::{UniswapV2Factory, UniswapV2Pool};

fn addr(hex: &str) -> Address {
    let a: alloy::primitives::Address = hex.parse().unwrap();
    let b = a.0 .0;
    Address {
        hi: u32::from_be_bytes(b[0..4].try_into().unwrap()),
        lo: u128::from_be_bytes(b[4..20].try_into().unwrap()),
    }
}

fn word_hex(hex: &str) -> U256 {
    let v: alloy::primitives::U256 = hex.parse().unwrap();
    let [l0, l1, l2, l3] = v.into_limbs();
    U256 { l0, l1, l2, l3 }
}

fn address_word(a: Address) -> U256 {
    U256 { l0: a.lo as u64, l1: (a.lo >> 64) as u64, l2: a.hi as u64, l3: 0 }
}

fn usdc_weth_pool() -> UniswapV2Pool {
    UniswapV2Pool {
        address: addr("0xB4e16d0168e52d35CaCD2c6185b44281Ec28C9Dc"),
        token_a: addr("0xA0b86991c6218b36c1d19D4a2e9Eb0cE3606eB48"),
        token_b: addr("0xC02aaA39b223FE8D0A0e5C4F27eAD9083C756Cc2"),
        token_a_decimals: 6,
        token_b_decimals: 18,
        reserve_0: 47092140895915,
        reserve_1: 28396598565590008529300,
        fee: 300,
    }
}

fn q64_to_f64(q: u128) -> f64 {
    q as f64 / 18446744073709551616.0
}

#[test]
fn test_calculate_price_edge_case() {
    let token_a = addr("0x0d500b1d8e8ef31e21c99d1db9a6444d3adf1270");
    let token_b = addr("0x8f18dc399594b451eda8c5da02d0563c0b2d0f16");
    let x = UniswapV2Pool {
        address: addr("0x652a7b75c229850714d4a11e856052aac3e9b065"),
        token_a,
        token_a_decimals: 18,
        token_b,
        token_b_decimals: 9,
        reserve_0: 23595096345912178729927,
        reserve_1: 154664232014390554564,
        fee: 300,
    };

    assert!(q64_to_f64(x.calculate_price_q64(token_a, Address::default()).unwrap()) != 0.0);
    assert!(q64_to_f64(x.calculate_price_q64(token_b, Address::default()).unwrap()) != 0.0);
}

#[test]
fn test_calculate_price() {
    let pool = usdc_weth_pool();

    let price_a_64_x = q64_to_f64(pool.calculate_price_q64(pool.token_a, Address::default()).unwrap());
    let price_b_64_x = q64_to_f64(pool.calculate_price_q64(pool.token_b, Address::default()).unwrap());

    // No precision loss: 30591574867092394336528 / 2**64
    assert_eq!(1658.3725965327264, price_b_64_x);
    // Precision loss: 11123401407064628 / 2**64
    assert_eq!(0.0006030007985483893, price_a_64_x);
}

#[test]
fn test_calculate_price_64_x_64() {
    let pool = usdc_weth_pool();

    let price_a_64_x = pool.calculate_price_64_x_64(pool.token_a).unwrap();
    let price_b_64_x = pool.calculate_price_64_x_64(pool.token_b).unwrap();

    assert_eq!(30591574867092394336528, price_b_64_x);
    assert_eq!(11123401407064628, price_a_64_x);
}

#[test]
fn edge_case_prices_are_exact() {
    let token_a = addr("0x0d500b1d8e8ef31e21c99d1db9a6444d3adf1270");
    let token_b = addr("0x8f18dc399594b451eda8c5da02d0563c0b2d0f16");
    let pool = UniswapV2Pool {
        address: addr("0x652a7b75c229850714d4a11e856052aac3e9b065"),
        token_a,
        token_a_decimals: 18,
        token_b,
        token_b_decimals: 9,
        reserve_0: 23595096345912178729927,
        reserve_1: 154664232014390554564,
        fee: 300,
    };
    assert_eq!(pool.calculate_price_64_x_64(token_a), Ok(120917137336486685497018037));
    assert_eq!(pool.calculate_price_64_x_64(token_b), Ok(2814178158832));
}

#[test]
fn unsynced_pool_prices_at_one() {
    let mut pool = usdc_weth_pool();
    pool.reserve_0 = 0;
    pool.reserve_1 = 0;
    assert_eq!(pool.calculate_price_64_x_64(pool.token_a), Ok(1u128 << 64));
    assert_eq!(pool.calculate_price_64_x_64(pool.token_b), Ok(1u128 << 64));
}

#[test]
fn price_of_unknown_pair_is_refused() {
    let pool = usdc_weth_pool();
    let stranger = addr("0x0000000000000000000000000000000000000001");
    assert_eq!(pool.calculate_price_q64(stranger, stranger), Err(AMMError::UnknownToken));
}

#[test]
fn amount_out_matches_formula() {
    let pool = usdc_weth_pool();
    let out = pool.get_amount_out(
        U256::from_u128(1000),
        U256::from_u128(1_000_000),
        U256::from_u128(1_000_000),
    );
    assert_eq!(out, U256::from_u128(996));
}

#[test]
fn amount_out_is_zero_on_empty_input_or_reserve() {
    let pool = usdc_weth_pool();
    let z = U256::from_u128(0);
    let m = U256::from_u128(1_000_000);
    assert_eq!(pool.get_amount_out(z, m, m), z);
    assert_eq!(pool.get_amount_out(m, z, m), z);
    assert_eq!(pool.get_amount_out(m, m, z), z);
}

#[test]
fn amount_out_bounded_and_monotone() {
    let pool = usdc_weth_pool();
    let r_in = U256::from_u128(1_000_000);
    let r_out = U256::from_u128(2_000_000);
    let mut last = 0u128;
    for amount in [1u128, 10, 1000, 1_000_000, 1_000_000_000_000] {
        let out = pool.get_amount_out(U256::from_u128(amount), r_in, r_out).to_u128().unwrap();
        assert!(out < 2_000_000);
        assert!(out >= last);
        last = out;
    }
}

#[test]
fn simulate_swap_leaves_pool_unchanged() {
    let mut pool = usdc_weth_pool();
    pool.reserve_0 = 1_000_000;
    pool.reserve_1 = 2_000_000;
    let out = pool.simulate_swap(pool.token_a, pool.token_b, U256::from_u128(5000)).unwrap();
    assert_eq!(out, U256::from_u128(9920));
    assert_eq!(pool.reserve_0, 1_000_000);
    assert_eq!(pool.reserve_1, 2_000_000);
}

#[test]
fn simulate_swap_mut_moves_reserves() {
    let mut pool = usdc_weth_pool();
    pool.reserve_0 = 1_000_000;
    pool.reserve_1 = 2_000_000;
    let (a, b) = (pool.token_a, pool.token_b);
    let out = pool.simulate_swap_mut(a, b, U256::from_u128(5000)).unwrap();
    assert_eq!(out, U256::from_u128(9920));
    assert_eq!(pool.reserve_0, 1_005_000);
    assert_eq!(pool.reserve_1, 2_000_000 - 9920);
}

#[test]
fn simulate_swap_unknown_token() {
    let pool = usdc_weth_pool();
    let stranger = addr("0x0000000000000000000000000000000000000002");
    assert_eq!(
        pool.simulate_swap(stranger, stranger, U256::from_u128(5)),
        Err(AMMError::UnknownToken)
    );
}

#[test]
fn sync_topic_is_keccak_of_signature() {
    let pool = usdc_weth_pool();
    assert_eq!(
        pool.sync_events(),
        vec![word_hex("0x1c411e9a96e071241c2f21f7726b17ae89e3cab4c78be50e062b03a9fffbbad1")]
    );
}

fn sync_log(pool: &UniswapV2Pool, r0: u128, r1: u128) -> Log {
    Log {
        address: pool.address,
        topics: pool.sync_events(),
        data: vec![U256::from_u128(r0), U256::from_u128(r1)],
        block_number: Some(1),
        log_index: Some(0),
    }
}

#[test]
fn sync_overwrites_reserves() {
    let mut pool = usdc_weth_pool();
    let log = sync_log(&pool, 11, 22);
    assert_eq!(pool.sync(&log), Ok(()));
    assert_eq!((pool.reserve_0, pool.reserve_1), (11, 22));
}

#[test]
fn sync_twice_equals_sync_once() {
    let mut once = usdc_weth_pool();
    let log = sync_log(&once, 5, 7);
    once.sync(&log).unwrap();
    let mut twice = usdc_weth_pool();
    twice.sync(&log).unwrap();
    twice.sync(&log).unwrap();
    assert_eq!((once.reserve_0, once.reserve_1), (twice.reserve_0, twice.reserve_1));
}

#[test]
fn sync_rejects_malformed_logs() {
    let mut pool = usdc_weth_pool();
    let mut wrong_topic = sync_log(&pool, 1, 2);
    wrong_topic.topics = vec![U256::from_u128(3)];
    assert_eq!(pool.sync(&wrong_topic), Err(AMMError::DecodeError));
    let mut too_large = sync_log(&pool, 1, 2);
    too_large.data[0] = word_hex("0x10000000000000000000000000000");
    assert_eq!(pool.sync(&too_large), Err(AMMError::DecodeError));
    let mut short = sync_log(&pool, 1, 2);
    short.data.pop();
    assert_eq!(pool.sync(&short), Err(AMMError::DecodeError));
    assert_eq!(pool.reserve_0, 47092140895915);
}

#[test]
fn factory_creates_pool_from_log() {
    let factory = UniswapV2Factory::new(addr("0x5C69bEe701ef814a2B6a3EDD4B1652CB9cc5aA6f"), 300, 10000835);
    assert_eq!(
        factory.discovery_event(),
        word_hex("0x0d3648bd0f6ba80134a33ba9275ac585d9d315f0ad8355cddefde31afa28d0e9")
    );
    let t0 = addr("0xA0b86991c6218b36c1d19D4a2e9Eb0cE3606eB48");
    let t1 = addr("0xC02aaA39b223FE8D0A0e5C4F27eAD9083C756Cc2");
    let pair = addr("0xB4e16d0168e52d35CaCD2c6185b44281Ec28C9Dc");
    let log = Log {
        address: factory.address(),
        topics: vec![factory.discovery_event(), address_word(t0), address_word(t1)],
        data: vec![address_word(pair), U256::from_u128(1)],
        block_number: Some(10008355),
        log_index: Some(3),
    };
    let pool = factory.create_pool(&log).unwrap();
    assert_eq!(pool.address, pair);
    assert_eq!((pool.token_a, pool.token_b), (t0, t1));
    assert_eq!((pool.reserve_0, pool.reserve_1, pool.fee), (0, 0, 300));
    let mut bad = log.clone();
    bad.topics.pop();
    assert_eq!(factory.create_pool(&bad).unwrap_err(), AMMError::DecodeError);
}

#[test]
fn swap_of_token_outside_pair_is_refused() {
    let mut pool = usdc_weth_pool();
    let stranger = addr("0x0000000000000000000000000000000000000003");
    let a = pool.token_a;
    assert_eq!(pool.simulate_swap(stranger, a, U256::from_u128(5)), Err(AMMError::UnknownToken));
    assert_eq!(pool.simulate_swap_mut(stranger, a, U256::from_u128(5)), Err(AMMError::UnknownToken));
    assert_eq!(pool.reserve_0, 47092140895915);
}
