use marketlog::market::MarketMode;
use marketlog::parse::parse_log_text;
use marketlog::price::adjust_price;

const HEADER: &str = "price,volRemaining,typeID,orderID,bid,jumps";

fn sell_row(price_units: i64, idx: i64) -> String {
    format!("{}.50,10.0,34,{},False,0", price_units, 9000 + idx)
}

fn buy_row(price_units: i64, idx: i64) -> String {
    format!("{}.25,5.0,34,{},True,3", price_units, 8000 + idx)
}

// A synthetic snapshot with 12 sell rows and 5 buy rows of distinct prices.
#[test]
fn round_trip_counts_and_truncation() {
    let mut text = String::from(HEADER);
    text.push('\n');
    for i in 0..12i64 {
        text.push_str(&sell_row(100 + i, i));
        text.push('\n');
    }
    for i in 0..5i64 {
        text.push_str(&buy_row(90 - i, i));
        text.push('\n');
    }
    let data = parse_log_text(&text, None);
    assert_eq!(data.sell_order_count, 12);
    assert_eq!(data.buy_order_count, 5);
    assert_eq!(data.sell_orders.len(), 10);
    assert_eq!(data.buy_orders.len(), 5);
    assert_eq!(data.cheapest_sell, Some(100_50));
    assert_eq!(data.highest_buy, Some(90_25));
    assert_eq!(data.adjusted_sell, Some(adjust_price(100_50, &MarketMode::Sell)));
    assert_eq!(data.adjusted_buy, Some(adjust_price(90_25, &MarketMode::Buy)));
    assert_eq!(data.type_id, Some(34));
}

#[test]
fn sell_list_ascending_buy_list_descending() {
    let text = format!(
        "{}\n{}\n{}\n{}\n{}\n{}\n",
        HEADER,
        "5.10,1.0,34,1,False,0",
        "4.90,1.0,34,2,False,0",
        "5.00,1.0,34,3,False,0",
        "3.10,1.0,34,4,True,0",
        "3.30,1.0,34,5,True,0",
    );
    let data = parse_log_text(&text, None);
    let sells: Vec<i64> = data.sell_orders.iter().map(|o| o.price).collect();
    let buys: Vec<i64> = data.buy_orders.iter().map(|o| o.price).collect();
    assert_eq!(sells, vec![4_90, 5_00, 5_10]);
    assert_eq!(buys, vec![3_30, 3_10]);
}

// Equal prices keep their row order on both sides.
#[test]
fn stable_order_among_equal_prices() {
    let text = format!(
        "{}\n{}\n{}\n{}\n",
        HEADER,
        "5.00,1.0,34,first,False,0",
        "5.00,1.0,34,second,False,0",
        "5.00,1.0,34,third,False,0",
    );
    let data = parse_log_text(&text, None);
    let ids: Vec<&str> = data.sell_orders.iter().map(|o| o.order_id.as_str()).collect();
    assert_eq!(ids, vec!["first", "second", "third"]);
}

// One well-formed row comes back with its own values.
#[test]
fn well_formed_row_fields() {
    let text = format!("{}\n{}\n", HEADER, "12.34,7.0,603,5551212,True,2");
    let data = parse_log_text(&text, None);
    assert_eq!(data.buy_order_count, 1);
    assert_eq!(data.sell_order_count, 0);
    let o = &data.buy_orders[0];
    assert_eq!(o.price, 12_34);
    assert_eq!(o.vol_remaining, 7);
    assert_eq!(o.type_id, 603);
    assert_eq!(o.order_id, "5551212");
    assert!(o.is_buy_order);
    assert_eq!(o.jumps, 2);
}

// Rows missing the buy/sell flag column are dropped.
#[test]
fn missing_flag_column_drops_rows() {
    let text = "price,volRemaining,typeID,orderID,jumps\n5.00,1.0,34,1,0\n";
    let data = parse_log_text(text, None);
    assert_eq!(data.sell_order_count, 0);
    assert_eq!(data.buy_order_count, 0);
    assert_eq!(data.cheapest_sell, None);
}

#[test]
fn malformed_rows_skipped_not_fatal() {
    let text = format!(
        "{}\n{}\n{}\n{}\n{}\n",
        HEADER,
        "not-a-price,1.0,34,1,False,0",
        "5.00,abc,34,2,False,0",
        "5.25,1.0,34,3,False,0",
        "0",
    );
    let data = parse_log_text(&text, None);
    assert_eq!(data.sell_order_count, 1);
    assert_eq!(data.sell_orders[0].price, 5_25);
}

#[test]
fn unparsable_jumps_defaults_to_zero() {
    let text = format!("{}\n{}\n", HEADER, "5.00,1.0,34,1,False,oops");
    let data = parse_log_text(&text, None);
    assert_eq!(data.sell_orders[0].jumps, 0);
}

#[test]
fn extra_and_missing_cells_tolerated() {
    let text = format!(
        "{}\n{}\n{}\n",
        HEADER,
        "5.00,1.0,34,1,False,0,extra,cells",
        "6.00,1.0",
    );
    let data = parse_log_text(&text, None);
    assert_eq!(data.sell_order_count, 1);
    assert_eq!(data.sell_orders[0].price, 5_00);
}

#[test]
fn cells_and_headers_trimmed() {
    let text = "  price , volRemaining ,typeID, orderID ,bid, jumps \n 7.00 , 2.0 , 34 , 42 , TRUE , 1 \n";
    let data = parse_log_text(text, None);
    assert_eq!(data.buy_order_count, 1);
    assert_eq!(data.buy_orders[0].price, 7_00);
    assert_eq!(data.buy_orders[0].order_id, "42");
}

#[test]
fn empty_headers_skipped_in_positions() {
    // A vestigial empty header name is discarded, so "price" is looked up
    // at the position it holds in the filtered list.
    let text = "price,,typeID\n5.00,1.0,34\n";
    let data = parse_log_text(text, None);
    // The filtered header list is [price, typeID]; the typeID lookup now
    // reads the second cell "1.0", which does not parse as an integer, so
    // the row drops.
    assert_eq!(data.sell_order_count, 0);
}

#[test]
fn empty_content_gives_empty_counts() {
    let data = parse_log_text("", None);
    assert_eq!(data.sell_order_count, 0);
    assert_eq!(data.buy_order_count, 0);
    assert_eq!(data.cheapest_sell, None);
    assert_eq!(data.highest_buy, None);
    assert_eq!(data.adjusted_sell, None);
    assert_eq!(data.adjusted_buy, None);
    assert_eq!(data.type_id, None);
}

// The documented filename pattern yields the item name and timestamp.
#[test]
fn filename_metadata() {
    let data = parse_log_text("", Some("The Forge-Tritanium-2025.11.29 125208.txt"));
    assert_eq!(data.filename.as_deref(), Some("The Forge-Tritanium-2025.11.29 125208.txt"));
    assert_eq!(data.item_name.as_deref(), Some("Tritanium"));
    assert_eq!(data.timestamp.as_deref(), Some("2025.11.29 125208"));
}

#[test]
fn filename_with_dashes_in_region() {
    let data = parse_log_text("", Some("Sinq-Laison-Tritanium-2025.01.02 030405.txt"));
    assert_eq!(data.item_name.as_deref(), Some("Tritanium"));
    assert_eq!(data.timestamp.as_deref(), Some("2025.01.02 030405"));
}

#[test]
fn filename_fallback_without_pattern() {
    let data = parse_log_text("", Some("notes.txt"));
    assert_eq!(data.item_name.as_deref(), Some("notes"));
    assert_eq!(data.timestamp, None);
}

#[test]
fn filename_absent() {
    let data = parse_log_text("", None);
    assert_eq!(data.filename, None);
    assert_eq!(data.item_name, None);
    assert_eq!(data.timestamp, None);
}
