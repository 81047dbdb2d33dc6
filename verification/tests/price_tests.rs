use orderbook::errors::EngineError;
use orderbook::price::Price;
use std::collections::hash_map::DefaultHasher;
use std::hash::{Hash, Hasher};

fn hash_of(p: &Price) -> u64 {
    let mut h = DefaultHasher::new();
    p.hash(&mut h);
    h.finish()
}

#[test]
fn price_equal_decimals_equal_and_hash_identically() {
    let a = Price::from_decimal("20.60000").unwrap();
    let b = Price::from_decimal("20.6").unwrap();
    assert_eq!(a, b);
    assert_eq!(hash_of(&a), hash_of(&b));
    assert_eq!(a.units, 2060000);
}

#[test]
fn price_exact_units() {
    assert_eq!(Price::from_decimal("1").unwrap().units, 100000);
    assert_eq!(Price::from_decimal("0.00001").unwrap().units, 1);
    assert_eq!(Price::from_decimal("100").unwrap().units, 10000000);
    assert_eq!(Price::from_decimal("1.10").unwrap().units, Price::from_decimal("1.1").unwrap().units);
    assert_eq!(Price::from_decimal("0").unwrap().units, 0);
}

#[test]
fn price_rejects_bad_inputs() {
    assert_eq!(Price::from_decimal("-1"), Err(EngineError::InvalidPrice));
    assert_eq!(Price::from_decimal("not a number"), Err(EngineError::InvalidPrice));
    assert_eq!(Price::from_decimal(""), Err(EngineError::InvalidPrice));
    assert_eq!(Price::from_decimal("1.123456"), Err(EngineError::PrecisionLoss));
    assert_eq!(Price::from_decimal("0.000001"), Err(EngineError::PrecisionLoss));
}

#[test]
fn price_trailing_zero_precision_kept() {
    // a sixth fractional digit is fine as long as it is zero
    assert_eq!(Price::from_decimal("2.500000").unwrap(), Price::from_decimal("2.5").unwrap());
}

#[test]
fn price_from_parts_direct() {
    assert_eq!(Price::from_parts(206, 1).unwrap().units, 2060000);
    assert_eq!(Price::from_parts(-5, 0), Err(EngineError::InvalidPrice));
    assert_eq!(Price::from_parts(123456, 6), Err(EngineError::PrecisionLoss));
    assert_eq!(Price::from_parts(1200000, 6).unwrap().units, 120000);
}
