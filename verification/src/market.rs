//! Market data types and the shared market state.
//!
//! All prices are fixed-point: an `i64` counting hundredths of one currency
//! unit ("cents").  `MarketData` is the aggregate derived from one snapshot
//! file; `MarketState` couples the latest data with the active trade
//! direction and is the single shared store of the application.
use vstd::prelude::*;

verus! {

/// Trade direction: which side of the book the quoted price competes on.
#[derive(Debug, Clone, Copy, PartialEq, Eq, Structural)]
pub enum MarketMode {
    Sell,
    Buy,
}

impl MarketMode {
    /// The opposite direction.
    pub open spec fn spec_flipped(self) -> MarketMode {
        match self {
            MarketMode::Sell => MarketMode::Buy,
            MarketMode::Buy => MarketMode::Sell,
        }
    }

    pub fn flipped(self) -> (r: MarketMode)
        ensures
            r == self.spec_flipped(),
    {
        match self {
            MarketMode::Sell => MarketMode::Buy,
            MarketMode::Buy => MarketMode::Sell,
        }
    }
}

/// One parsed order row.  `price` is in cents; `order_id` is kept verbatim.
#[derive(Debug, Clone)]
pub struct MarketOrder {
    pub price: i64,
    pub vol_remaining: i64,
    pub type_id: i32,
    pub order_id: String,
    pub is_buy_order: bool,
    pub jumps: i32,
}

/// Mathematical image of a `MarketOrder`.
pub struct OrderV {
    pub price: int,
    pub vol_remaining: int,
    pub type_id: int,
    pub order_id: Seq<char>,
    pub is_buy_order: bool,
    pub jumps: int,
}

impl View for MarketOrder {
    type V = OrderV;

    open spec fn view(&self) -> OrderV {
        OrderV {
            price: self.price as int,
            vol_remaining: self.vol_remaining as int,
            type_id: self.type_id as int,
            order_id: self.order_id@,
            is_buy_order: self.is_buy_order,
            jumps: self.jumps as int,
        }
    }
}

/// Aggregate result for one snapshot file.  The two order lists are
/// truncated to at most ten entries; the counts are pre-truncation.
#[derive(Debug, Clone)]
pub struct MarketData {
    pub filename: Option<String>,
    pub type_id: Option<i32>,
    pub item_name: Option<String>,
    pub timestamp: Option<String>,
    pub cheapest_sell: Option<i64>,
    pub highest_buy: Option<i64>,
    pub adjusted_sell: Option<i64>,
    pub adjusted_buy: Option<i64>,
    pub sell_order_count: usize,
    pub buy_order_count: usize,
    pub sell_orders: Vec<MarketOrder>,
    pub buy_orders: Vec<MarketOrder>,
}

impl MarketData {
    /// Whether every field holds its empty value.
    pub open spec fn spec_is_empty(self) -> bool {
        &&& self.filename is None
        &&& self.type_id is None
        &&& self.item_name is None
        &&& self.timestamp is None
        &&& self.cheapest_sell is None
        &&& self.highest_buy is None
        &&& self.adjusted_sell is None
        &&& self.adjusted_buy is None
        &&& self.sell_order_count == 0
        &&& self.buy_order_count == 0
        &&& self.sell_orders@.len() == 0
        &&& self.buy_orders@.len() == 0
    }

    /// The empty aggregate: what a failed or absent snapshot degrades to.
    pub fn empty() -> (r: MarketData)
        ensures
            r.spec_is_empty(),
    {
        MarketData {
            filename: None,
            type_id: None,
            item_name: None,
            timestamp: None,
            cheapest_sell: None,
            highest_buy: None,
            adjusted_sell: None,
            adjusted_buy: None,
            sell_order_count: 0,
            buy_order_count: 0,
            sell_orders: Vec::new(),
            buy_orders: Vec::new(),
        }
    }
}

/// The shared store: last computed snapshot data plus the active direction.
///
/// Interior mutual exclusion is the embedding application's concern; the
/// library states how each operation transforms the plain value.
#[derive(Debug, Clone)]
pub struct MarketState {
    pub data: MarketData,
    pub mode: MarketMode,
}

impl MarketState {
    /// Initial state before the first parse: empty data, selling.
    pub fn new() -> (r: MarketState)
        ensures
            r.data.spec_is_empty(),
            r.mode == MarketMode::Sell,
    {
        MarketState { data: MarketData::empty(), mode: MarketMode::Sell }
    }

    /// The adjusted price on the side the active direction competes on.
    pub open spec fn spec_active_price(self) -> Option<i64> {
        match self.mode {
            MarketMode::Sell => self.data.adjusted_sell,
            MarketMode::Buy => self.data.adjusted_buy,
        }
    }

    pub fn get_active_price(&self) -> (r: Option<i64>)
        ensures
            r == self.spec_active_price(),
    {
        match self.mode {
            MarketMode::Sell => self.data.adjusted_sell,
            MarketMode::Buy => self.data.adjusted_buy,
        }
    }

    /// Wholesale replacement of the snapshot data; the direction is kept.
    pub fn replace_data(&mut self, data: MarketData)
        ensures
            final(self).data == data,
            final(self).mode == old(self).mode,
    {
        self.data = data;
    }

    /// Flips the direction and returns the new one; the data is kept.
    pub fn toggle_mode(&mut self) -> (r: MarketMode)
        ensures
            final(self).mode == old(self).mode.spec_flipped(),
            final(self).data == old(self).data,
            r == final(self).mode,
    {
        self.mode = self.mode.flipped();
        self.mode
    }
}

} // verus!
