//! The record parser: one raw row of cells plus the header-name list,
//! yielding a typed order record or nothing.
//!
//! Column lookup is by name, not position.  A row missing any required
//! column, or with an unparsable price, volume or type id, is silently
//! dropped; the jump-distance column is optional and defaults to zero.
use crate::market::{MarketOrder, OrderV};
use crate::text::{
    chars_eq_str, chars_to_string, is_true_flag, parse_i32_cell, parse_price_cents, parse_vol,
    spec_is_true_flag, spec_parse_i32, spec_parse_price, spec_parse_vol, to_int_opt, views_of,
};
use vstd::prelude::*;

verus! {

/// The cell a named column holds in a row: the cell at the header's
/// position, if the column exists and the row reaches that far.
pub open spec fn spec_cell_lookup(
    headers: Seq<Seq<char>>,
    cells: Seq<Seq<char>>,
    name: Seq<char>,
) -> Option<Seq<char>> {
    match headers.index_of_first(name) {
        Option::None => Option::None,
        Option::Some(j) => if 0 <= j < cells.len() {
            Option::Some(cells[j])
        } else {
            Option::None
        },
    }
}

/// What the record parser accepts: all five required columns present with
/// parsable price, volume and type id.  The buy flag is the case-insensitive
/// literal "true"; the jump distance defaults to zero.
pub open spec fn spec_row_order(headers: Seq<Seq<char>>, cells: Seq<Seq<char>>) -> Option<
    OrderV,
> {
    match spec_cell_lookup(headers, cells, "price"@) {
        Option::None => Option::None,
        Option::Some(price_c) => match spec_cell_lookup(headers, cells, "volRemaining"@) {
            Option::None => Option::None,
            Option::Some(vol_c) => match spec_cell_lookup(headers, cells, "typeID"@) {
                Option::None => Option::None,
                Option::Some(type_c) => match spec_cell_lookup(headers, cells, "orderID"@) {
                    Option::None => Option::None,
                    Option::Some(oid_c) => match spec_cell_lookup(headers, cells, "bid"@) {
                        Option::None => Option::None,
                        Option::Some(bid_c) => match spec_parse_price(price_c) {
                            Option::None => Option::None,
                            Option::Some(price) => match spec_parse_vol(vol_c) {
                                Option::None => Option::None,
                                Option::Some(vol) => match spec_parse_i32(type_c) {
                                    Option::None => Option::None,
                                    Option::Some(tid) => Option::Some(
                                        OrderV {
                                            price,
                                            vol_remaining: vol,
                                            type_id: tid,
                                            order_id: oid_c,
                                            is_buy_order: spec_is_true_flag(bid_c),
                                            jumps: spec_jumps(headers, cells),
                                        },
                                    ),
                                },
                            },
                        },
                    },
                },
            },
        },
    }
}

/// The optional jump distance: zero when the column is missing or the cell
/// does not parse.
pub open spec fn spec_jumps(headers: Seq<Seq<char>>, cells: Seq<Seq<char>>) -> int {
    match spec_cell_lookup(headers, cells, "jumps"@) {
        Option::None => 0,
        Option::Some(jc) => match spec_parse_i32(jc) {
            Option::None => 0,
            Option::Some(j) => j,
        },
    }
}

/// Finds the cell a named column holds, by scanning the header names.
fn cell_lookup<'a>(headers: &Vec<Vec<char>>, cells: &'a Vec<Vec<char>>, name: &str) -> (r: Option<
    &'a Vec<char>,
>)
    ensures
        match r {
            Option::Some(c) => spec_cell_lookup(views_of(headers@), views_of(cells@), name@)
                == Option::Some(c@),
            Option::None => spec_cell_lookup(views_of(headers@), views_of(cells@), name@)
                is None,
        },
{
    let ghost hs = views_of(headers@);
    let n = headers.len();
    let mut i: usize = 0;
    while i < n
        invariant
            0 <= i <= n,
            n == hs.len(),
            forall|j: int| 0 <= j < i ==> hs[j] != name@,
        decreases n - i,
    {
        if chars_eq_str(&headers[i], name) {
            proof {
                hs.index_of_first_ensures(name@);
                match hs.index_of_first(name@) {
                    Option::None => {
                        assert(hs.contains(hs[i as int]));
                        assert(false);
                    },
                    Option::Some(k) => {
                        if k < i as int {
                            assert(hs[k] == name@);
                            assert(false);
                        }
                        if k > i as int {
                            assert(hs[i as int] != name@);
                            assert(false);
                        }
                    },
                }
            }
            if i < cells.len() {
                return Some(&cells[i]);
            } else {
                return None;
            }
        }
        i = i + 1;
    }
    proof {
        hs.index_of_first_ensures(name@);
        match hs.index_of_first(name@) {
            Option::None => {},
            Option::Some(k) => {
                assert(hs[k] == name@);
                assert(false);
            },
        }
    }
    None
}

/// Parses one row against the header names, dropping it silently when a
/// required column is missing or malformed.
pub fn parse_order_from_record(headers: &Vec<Vec<char>>, cells: &Vec<Vec<char>>) -> (r: Option<
    MarketOrder,
>)
    ensures
        match r {
            Option::Some(o) => spec_row_order(views_of(headers@), views_of(cells@))
                == Option::Some(o@),
            Option::None => spec_row_order(views_of(headers@), views_of(cells@)) is None,
        },
{
    let price_c = match cell_lookup(headers, cells, "price") {
        Option::Some(c) => c,
        Option::None => {
            return None;
        },
    };
    let vol_c = match cell_lookup(headers, cells, "volRemaining") {
        Option::Some(c) => c,
        Option::None => {
            return None;
        },
    };
    let type_c = match cell_lookup(headers, cells, "typeID") {
        Option::Some(c) => c,
        Option::None => {
            return None;
        },
    };
    let oid_c = match cell_lookup(headers, cells, "orderID") {
        Option::Some(c) => c,
        Option::None => {
            return None;
        },
    };
    let bid_c = match cell_lookup(headers, cells, "bid") {
        Option::Some(c) => c,
        Option::None => {
            return None;
        },
    };
    let price = match parse_price_cents(price_c) {
        Option::Some(p) => p,
        Option::None => {
            return None;
        },
    };
    let vol_remaining = match parse_vol(vol_c) {
        Option::Some(v) => v,
        Option::None => {
            return None;
        },
    };
    let type_id = match parse_i32_cell(type_c) {
        Option::Some(t) => t,
        Option::None => {
            return None;
        },
    };
    let jumps = match cell_lookup(headers, cells, "jumps") {
        Option::None => 0,
        Option::Some(jc) => match parse_i32_cell(jc) {
            Option::None => 0,
            Option::Some(j) => j,
        },
    };
    let order = MarketOrder {
        price,
        vol_remaining,
        type_id,
        order_id: chars_to_string(oid_c),
        is_buy_order: is_true_flag(bid_c),
        jumps,
    };
    Some(order)
}

/// A row whose header list lacks the buy/sell flag column never yields a
/// record, whatever its other cells hold.
pub proof fn lemma_missing_flag_drops_row(headers: Seq<Seq<char>>, cells: Seq<Seq<char>>)
    requires
        headers.index_of_first("bid"@) is None,
    ensures
        spec_row_order(headers, cells) is None,
{
}

/// A well-formed row always parses, and the record returns the row's own
/// values: the five required columns are present, the price is positive
/// and the numeric cells parse.
pub proof fn lemma_well_formed_row_parses(
    headers: Seq<Seq<char>>,
    cells: Seq<Seq<char>>,
    price: int,
    vol: int,
    tid: int,
)
    requires
        spec_cell_lookup(headers, cells, "price"@) is Some,
        spec_cell_lookup(headers, cells, "volRemaining"@) is Some,
        spec_cell_lookup(headers, cells, "typeID"@) is Some,
        spec_cell_lookup(headers, cells, "orderID"@) is Some,
        spec_cell_lookup(headers, cells, "bid"@) is Some,
        spec_parse_price(spec_cell_lookup(headers, cells, "price"@).unwrap()) == Option::Some(
            price,
        ),
        price > 0,
        spec_parse_vol(spec_cell_lookup(headers, cells, "volRemaining"@).unwrap())
            == Option::Some(vol),
        spec_parse_i32(spec_cell_lookup(headers, cells, "typeID"@).unwrap()) == Option::Some(
            tid,
        ),
    ensures
        spec_row_order(headers, cells) matches Option::Some(o) && o.price == price
            && o.vol_remaining == vol && o.type_id == tid && o.order_id == spec_cell_lookup(
            headers,
            cells,
            "orderID"@,
        ).unwrap() && o.is_buy_order == spec_is_true_flag(
            spec_cell_lookup(headers, cells, "bid"@).unwrap(),
        ) && o.jumps == spec_jumps(headers, cells),
{
}

} // verus!
