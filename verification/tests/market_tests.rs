use marketlog::market::{MarketData, MarketMode, MarketState};

#[test]
fn empty_data_all_absent() {
    let d = MarketData::empty();
    assert_eq!(d.filename, None);
    assert_eq!(d.type_id, None);
    assert_eq!(d.item_name, None);
    assert_eq!(d.timestamp, None);
    assert_eq!(d.cheapest_sell, None);
    assert_eq!(d.highest_buy, None);
    assert_eq!(d.adjusted_sell, None);
    assert_eq!(d.adjusted_buy, None);
    assert_eq!(d.sell_order_count, 0);
    assert_eq!(d.buy_order_count, 0);
    assert!(d.sell_orders.is_empty());
    assert!(d.buy_orders.is_empty());
}

#[test]
fn initial_state_sells() {
    let s = MarketState::new();
    assert_eq!(s.mode, MarketMode::Sell);
    assert_eq!(s.get_active_price(), None);
}

#[test]
fn toggle_flips_and_returns_new_mode() {
    let mut s = MarketState::new();
    assert_eq!(s.toggle_mode(), MarketMode::Buy);
    assert_eq!(s.mode, MarketMode::Buy);
    assert_eq!(s.toggle_mode(), MarketMode::Sell);
    assert_eq!(s.mode, MarketMode::Sell);
}

#[test]
fn active_price_follows_mode() {
    let mut s = MarketState::new();
    let mut d = MarketData::empty();
    d.adjusted_sell = Some(499_00);
    d.adjusted_buy = Some(501_00);
    s.replace_data(d);
    assert_eq!(s.get_active_price(), Some(499_00));
    s.toggle_mode();
    assert_eq!(s.get_active_price(), Some(501_00));
}

#[test]
fn replace_keeps_mode() {
    let mut s = MarketState::new();
    s.toggle_mode();
    s.replace_data(MarketData::empty());
    assert_eq!(s.mode, MarketMode::Buy);
}
