use gg::error::GGError;
use gg::utils::{get_buy_price, get_price, get_sell_price, split_fees};

#[test]
fn price_of_five_units_from_genesis() {
    assert_eq!(get_price(1, 5), Ok(18_750_000));
}

#[test]
fn price_exact_values() {
    assert_eq!(get_price(1, 0), Ok(0));
    assert_eq!(get_price(1, 1), Ok(0));
    assert_eq!(get_price(1, 2), Ok(625_000));
    assert_eq!(get_price(2, 1), Ok(625_000));
    assert_eq!(get_price(3, 2), Ok(8_125_000));
    assert_eq!(get_price(100, 10), Ok(67_003_125_000));
}

#[test]
fn price_at_zero_supply() {
    assert_eq!(get_price(0, 1), Ok(0));
    assert_eq!(get_price(0, 0), Err(GGError::MathOverflow));
    assert_eq!(get_price(0, 2), Err(GGError::MathOverflow));
}

#[test]
fn price_overflow_is_rejected() {
    assert_eq!(get_price(u64::MAX, u64::MAX), Err(GGError::MathOverflow));
}

#[test]
fn price_at_the_edge_of_the_range() {
    assert_eq!(get_price(1, 44_571), Ok(18_445_960_779_715_625_000));
    assert_eq!(get_price(1, 44_572), Err(GGError::MathOverflow));
}

#[test]
fn price_rejects_overflowing_intermediate() {
    assert_eq!(get_price(1u64 << 50, 0), Err(GGError::MathOverflow));
}

#[test]
fn sell_price_is_buy_price_at_lower_supply() {
    assert_eq!(get_sell_price(6, 5), Ok(18_750_000));
    assert_eq!(get_sell_price(6, 5), get_buy_price(1, 5));
    assert_eq!(get_sell_price(1, 2), Err(GGError::MathUnderflow));
}

#[test]
fn round_trip_on_samples() {
    let samples: [(u64, u64); 7] = [
        (1, 0),
        (1, 1),
        (1, 5),
        (7, 13),
        (1000, 44),
        (u64::MAX - 1, 1),
        (u64::MAX / 2, u64::MAX / 2),
    ];
    for (s, a) in samples {
        assert_eq!(get_buy_price(s, a), get_sell_price(s + a, a));
    }
}

#[test]
fn price_increases_with_amount() {
    for a in 1..50u64 {
        assert!(get_buy_price(3, a).unwrap() < get_buy_price(3, a + 1).unwrap());
    }
    assert_eq!(get_buy_price(1, 0), get_buy_price(1, 1));
}

#[test]
fn price_increases_with_supply() {
    for s in 1..50u64 {
        assert!(get_buy_price(s, 4).unwrap() < get_buy_price(s + 1, 4).unwrap());
    }
}

#[test]
fn fees_are_five_percent_each() {
    assert_eq!(split_fees(18_750_000), Ok((937_500, 937_500)));
    assert_eq!(split_fees(1_000_000_000), Ok((50_000_000, 50_000_000)));
    assert_eq!(split_fees(19), Ok((0, 0)));
    assert_eq!(split_fees(0), Ok((0, 0)));
}

#[test]
fn fees_of_the_largest_price() {
    assert_eq!(
        split_fees(u64::MAX),
        Ok((922_337_203_685_477_580, 922_337_203_685_477_580))
    );
}
