use marketlog::market::MarketMode;
use marketlog::price::{adjust_price, calculate_step, format_price_cents};

// Step sizes in cents for unit prices 999, 1000, 10000, 1000000.
#[test]
fn step_magnitudes() {
    assert_eq!(calculate_step(999_00), 100);
    assert_eq!(calculate_step(1_000_00), 100);
    assert_eq!(calculate_step(10_000_00), 10_00);
    assert_eq!(calculate_step(1_000_000_00), 1_000_00);
}

#[test]
fn step_small_prices() {
    assert_eq!(calculate_step(1), 100);
    assert_eq!(calculate_step(50), 100);
    assert_eq!(calculate_step(9_999_99), 100);
}

#[test]
fn adjust_beats_price() {
    let p: i64 = 500_00;
    let sell = adjust_price(p, &MarketMode::Sell);
    let buy = adjust_price(p, &MarketMode::Buy);
    assert!(sell < p);
    assert!(buy > p);
    assert_eq!(sell, 499_00);
    assert_eq!(buy, 501_00);
}

#[test]
fn adjust_large_price() {
    // 1234567.00 units: seven integer digits, so the step is 1000 units.
    let p: i64 = 123_456_700;
    assert_eq!(adjust_price(p, &MarketMode::Sell), p - 100_000);
    assert_eq!(adjust_price(p, &MarketMode::Buy), p + 100_000);
}

#[test]
fn adjust_non_positive_unchanged() {
    assert_eq!(adjust_price(0, &MarketMode::Sell), 0);
    assert_eq!(adjust_price(0, &MarketMode::Buy), 0);
    assert_eq!(adjust_price(-500, &MarketMode::Sell), -500);
    assert_eq!(adjust_price(-500, &MarketMode::Buy), -500);
}

#[test]
fn formats_two_decimals() {
    assert_eq!(format_price_cents(504), "5.04");
    assert_eq!(format_price_cents(0), "0.00");
    assert_eq!(format_price_cents(7), "0.07");
    assert_eq!(format_price_cents(100), "1.00");
    assert_eq!(format_price_cents(-50), "-0.50");
    assert_eq!(format_price_cents(123_456_789), "1234567.89");
}
