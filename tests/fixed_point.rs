use pamms::error::AMMError;
use pamms::fixed_point::div_uu;
use pamms::u256::U256;

fn pow2(n: usize) -> U256 {
    let [l0, l1, l2, l3] = (alloy::primitives::U256::from(1u8) << n).into_limbs();
    U256 { l0, l1, l2, l3 }
}

#[test]
fn division_by_zero() {
    assert_eq!(div_uu(U256::from_u128(5), U256::from_u128(0)), Err(AMMError::DivisionByZero));
}

#[test]
fn one_is_two_to_the_64() {
    assert_eq!(div_uu(U256::from_u128(1), U256::from_u128(1)), Ok(1u128 << 64));
    assert_eq!(div_uu(U256::from_u128(1), U256::from_u128(3)), Ok((1u128 << 64) / 3));
}

#[test]
fn direct_path_saturates() {
    assert_eq!(div_uu(pow2(128), U256::from_u128(1)), Ok(u128::MAX));
}

#[test]
fn normalised_path_is_exact() {
    assert_eq!(div_uu(pow2(193), pow2(190)), Ok(1u128 << 67));
}

#[test]
fn normalised_path_overflow_is_zero() {
    assert_eq!(div_uu(pow2(200), pow2(100)), Ok(0));
}
