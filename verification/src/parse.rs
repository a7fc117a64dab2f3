//! The snapshot parser: one whole log file's text to a `MarketData`.
//!
//! The text is decoded as comma-separated rows under a header row, with
//! flexible field counts and trimmed cells; every surviving row runs
//! through the record parser, the accepted records are partitioned by
//! side, stably sorted by price, and aggregated.
use crate::filename::parse_filename;
use crate::market::{MarketData, MarketMode, MarketOrder, OrderV};
use crate::price::{spec_adjust, adjust_price, PRICE_CENTS_LIMIT};
use crate::record::{spec_row_order, parse_order_from_record};
use crate::text::{split_on, split_chars, spec_trim, trim_chars, str_to_chars, to_int_opt, views_of};
use vstd::prelude::*;
use vstd::string::*;

verus! {

/// The views of a vector of orders.
pub open spec fn order_views(s: Seq<MarketOrder>) -> Seq<OrderV> {
    s.map_values(|o: MarketOrder| o@)
}

/// Header names: the first row's cells, trimmed, empties discarded, so
/// positional lookups by name skip vestigial columns.
pub open spec fn header_filter(cells: Seq<Seq<char>>) -> Seq<Seq<char>>
    decreases cells.len(),
{
    if cells.len() == 0 {
        Seq::empty()
    } else {
        let rest = header_filter(cells.drop_last());
        let t = spec_trim(cells.last());
        if t.len() > 0 {
            rest.push(t)
        } else {
            rest
        }
    }
}

/// Every cell trimmed of surrounding whitespace.
pub open spec fn trim_all(cells: Seq<Seq<char>>) -> Seq<Seq<char>>
    decreases cells.len(),
{
    if cells.len() == 0 {
        Seq::empty()
    } else {
        trim_all(cells.drop_last()).push(spec_trim(cells.last()))
    }
}

/// A data row's cells: split on commas, each cell trimmed.
pub open spec fn spec_row_cells(line: Seq<char>) -> Seq<Seq<char>> {
    trim_all(split_on(line, ','))
}

/// The header names a file's first line yields.
pub open spec fn spec_headers(content: Seq<char>) -> Seq<Seq<char>> {
    header_filter(split_on(split_on(content, '\n')[0], ','))
}

/// The record one line yields, if any.
pub open spec fn spec_line_order(headers: Seq<Seq<char>>, line: Seq<char>) -> Option<OrderV> {
    spec_row_order(headers, spec_row_cells(line))
}

/// The records a run of lines yields, in order.
pub open spec fn spec_orders_of(headers: Seq<Seq<char>>, rows: Seq<Seq<char>>) -> Seq<OrderV>
    decreases rows.len(),
{
    if rows.len() == 0 {
        Seq::empty()
    } else {
        let rest = spec_orders_of(headers, rows.drop_last());
        match spec_line_order(headers, rows.last()) {
            Option::Some(o) => rest.push(o),
            Option::None => rest,
        }
    }
}

/// Every record a file's text yields, in row order.
pub open spec fn spec_orders(content: Seq<char>) -> Seq<OrderV> {
    spec_orders_of(spec_headers(content), split_on(content, '\n').drop_first())
}

/// The sell-side records, in row order.
pub open spec fn spec_sells_of(os: Seq<OrderV>) -> Seq<OrderV>
    decreases os.len(),
{
    if os.len() == 0 {
        Seq::empty()
    } else {
        let rest = spec_sells_of(os.drop_last());
        if !os.last().is_buy_order {
            rest.push(os.last())
        } else {
            rest
        }
    }
}

/// The buy-side records, in row order.
pub open spec fn spec_buys_of(os: Seq<OrderV>) -> Seq<OrderV>
    decreases os.len(),
{
    if os.len() == 0 {
        Seq::empty()
    } else {
        let rest = spec_buys_of(os.drop_last());
        if os.last().is_buy_order {
            rest.push(os.last())
        } else {
            rest
        }
    }
}

// ---------------------------------------------------------------------------
// Stable insertion sort, ascending and descending by price.
// ---------------------------------------------------------------------------

/// Stable insertion into an ascending run: the new record goes after every
/// record of no greater price.
pub open spec fn insert_asc(s: Seq<OrderV>, o: OrderV) -> Seq<OrderV>
    decreases s.len(),
{
    if s.len() == 0 {
        seq![o]
    } else if s.last().price <= o.price {
        s.push(o)
    } else {
        insert_asc(s.drop_last(), o).push(s.last())
    }
}

/// Stable ascending sort by price: earlier rows stay first among equal prices.
pub open spec fn sort_asc(s: Seq<OrderV>) -> Seq<OrderV>
    decreases s.len(),
{
    if s.len() == 0 {
        Seq::empty()
    } else {
        insert_asc(sort_asc(s.drop_last()), s.last())
    }
}

/// Stable insertion into a descending run.
pub open spec fn insert_desc(s: Seq<OrderV>, o: OrderV) -> Seq<OrderV>
    decreases s.len(),
{
    if s.len() == 0 {
        seq![o]
    } else if s.last().price >= o.price {
        s.push(o)
    } else {
        insert_desc(s.drop_last(), o).push(s.last())
    }
}

/// Stable descending sort by price.
pub open spec fn sort_desc(s: Seq<OrderV>) -> Seq<OrderV>
    decreases s.len(),
{
    if s.len() == 0 {
        Seq::empty()
    } else {
        insert_desc(sort_desc(s.drop_last()), s.last())
    }
}

pub open spec fn sorted_asc(s: Seq<OrderV>) -> bool {
    forall|i: int, j: int| 0 <= i < j < s.len() ==> s[i].price <= s[j].price
}

pub open spec fn sorted_desc(s: Seq<OrderV>) -> bool {
    forall|i: int, j: int| 0 <= i < j < s.len() ==> s[i].price >= s[j].price
}

proof fn lemma_insert_asc_at(s: Seq<OrderV>, o: OrderV, j: int)
    requires
        0 <= j <= s.len(),
        forall|k: int| j <= k < s.len() ==> s[k].price > o.price,
        j > 0 ==> s[j - 1].price <= o.price,
    ensures
        insert_asc(s, o) == s.take(j) + seq![o] + s.skip(j),
    decreases s.len(),
{
    if j == s.len() {
        if s.len() == 0 {
            assert(insert_asc(s, o) =~= s.take(j) + seq![o] + s.skip(j));
        } else {
            assert(insert_asc(s, o) =~= s.take(j) + seq![o] + s.skip(j));
        }
    } else {
        lemma_insert_asc_at(s.drop_last(), o, j);
        assert(s.drop_last().take(j) =~= s.take(j));
        assert((s.drop_last().take(j) + seq![o] + s.drop_last().skip(j)).push(s.last()) =~= s.take(
            j,
        ) + seq![o] + s.skip(j));
    }
}

proof fn lemma_insert_desc_at(s: Seq<OrderV>, o: OrderV, j: int)
    requires
        0 <= j <= s.len(),
        forall|k: int| j <= k < s.len() ==> s[k].price < o.price,
        j > 0 ==> s[j - 1].price >= o.price,
    ensures
        insert_desc(s, o) == s.take(j) + seq![o] + s.skip(j),
    decreases s.len(),
{
    if j == s.len() {
        assert(insert_desc(s, o) =~= s.take(j) + seq![o] + s.skip(j));
    } else {
        lemma_insert_desc_at(s.drop_last(), o, j);
        assert(s.drop_last().take(j) =~= s.take(j));
        assert((s.drop_last().take(j) + seq![o] + s.drop_last().skip(j)).push(s.last()) =~= s.take(
            j,
        ) + seq![o] + s.skip(j));
    }
}

proof fn lemma_insert_asc_elems(s: Seq<OrderV>, o: OrderV)
    ensures
        insert_asc(s, o).len() == s.len() + 1,
        forall|x: OrderV|
            insert_asc(s, o).contains(x) ==> s.contains(x) || x == o,
    decreases s.len(),
{
    if s.len() == 0 {
    } else if s.last().price <= o.price {
    } else {
        lemma_insert_asc_elems(s.drop_last(), o);
        assert forall|x: OrderV| insert_asc(s, o).contains(x) implies s.contains(x) || x == o by {
            let t = insert_asc(s.drop_last(), o);
            let i = choose|i: int| 0 <= i < insert_asc(s, o).len() && insert_asc(s, o)[i] == x;
            if i < t.len() {
                assert(t.contains(x));
                if s.drop_last().contains(x) {
                    let k = choose|k: int|
                        0 <= k < s.drop_last().len() && s.drop_last()[k] == x;
                    assert(s[k] == x);
                }
            } else {
                assert(x == s.last());
                assert(s[s.len() - 1] == x);
            }
        }
    }
}

proof fn lemma_insert_desc_elems(s: Seq<OrderV>, o: OrderV)
    ensures
        insert_desc(s, o).len() == s.len() + 1,
        forall|x: OrderV|
            insert_desc(s, o).contains(x) ==> s.contains(x) || x == o,
    decreases s.len(),
{
    if s.len() == 0 {
    } else if s.last().price >= o.price {
    } else {
        lemma_insert_desc_elems(s.drop_last(), o);
        assert forall|x: OrderV| insert_desc(s, o).contains(x) implies s.contains(x) || x == o by {
            let t = insert_desc(s.drop_last(), o);
            let i = choose|i: int| 0 <= i < insert_desc(s, o).len() && insert_desc(s, o)[i] == x;
            if i < t.len() {
                assert(t.contains(x));
                if s.drop_last().contains(x) {
                    let k = choose|k: int|
                        0 <= k < s.drop_last().len() && s.drop_last()[k] == x;
                    assert(s[k] == x);
                }
            } else {
                assert(x == s.last());
                assert(s[s.len() - 1] == x);
            }
        }
    }
}

proof fn lemma_insert_asc_sorted(s: Seq<OrderV>, o: OrderV)
    requires
        sorted_asc(s),
    ensures
        sorted_asc(insert_asc(s, o)),
    decreases s.len(),
{
    if s.len() == 0 {
    } else if s.last().price <= o.price {
    } else {
        assert(sorted_asc(s.drop_last()));
        lemma_insert_asc_sorted(s.drop_last(), o);
        lemma_insert_asc_elems(s.drop_last(), o);
        let t = insert_asc(s.drop_last(), o);
        assert forall|i: int, j: int|
            0 <= i < j < t.push(s.last()).len() implies t.push(s.last())[i].price <= t.push(
            s.last(),
        )[j].price by {
            if j < t.len() {
            } else {
                let x = t[i];
                assert(t.contains(x));
                if s.drop_last().contains(x) {
                    let k = choose|k: int|
                        0 <= k < s.drop_last().len() && s.drop_last()[k] == x;
                    assert(s[k].price <= s.last().price);
                }
            }
        }
    }
}

proof fn lemma_insert_desc_sorted(s: Seq<OrderV>, o: OrderV)
    requires
        sorted_desc(s),
    ensures
        sorted_desc(insert_desc(s, o)),
    decreases s.len(),
{
    if s.len() == 0 {
    } else if s.last().price >= o.price {
    } else {
        assert(sorted_desc(s.drop_last()));
        lemma_insert_desc_sorted(s.drop_last(), o);
        lemma_insert_desc_elems(s.drop_last(), o);
        let t = insert_desc(s.drop_last(), o);
        assert forall|i: int, j: int|
            0 <= i < j < t.push(s.last()).len() implies t.push(s.last())[i].price >= t.push(
            s.last(),
        )[j].price by {
            if j < t.len() {
            } else {
                let x = t[i];
                assert(t.contains(x));
                if s.drop_last().contains(x) {
                    let k = choose|k: int|
                        0 <= k < s.drop_last().len() && s.drop_last()[k] == x;
                    assert(s[k].price >= s.last().price);
                }
            }
        }
    }
}

/// An ascending price sort is sorted, keeps the length, and invents no
/// records.
pub proof fn lemma_sort_asc_ensures(s: Seq<OrderV>)
    ensures
        sorted_asc(sort_asc(s)),
        sort_asc(s).len() == s.len(),
        forall|x: OrderV| sort_asc(s).contains(x) ==> s.contains(x),
    decreases s.len(),
{
    if s.len() > 0 {
        lemma_sort_asc_ensures(s.drop_last());
        lemma_insert_asc_sorted(sort_asc(s.drop_last()), s.last());
        lemma_insert_asc_elems(sort_asc(s.drop_last()), s.last());
        assert forall|x: OrderV| sort_asc(s).contains(x) implies s.contains(x) by {
            if sort_asc(s.drop_last()).contains(x) || x == s.last() {
                if x == s.last() {
                    assert(s[s.len() - 1] == x);
                } else {
                    assert(s.drop_last().contains(x));
                    let k = choose|k: int|
                        0 <= k < s.drop_last().len() && s.drop_last()[k] == x;
                    assert(s[k] == x);
                }
            }
        }
    }
}

/// A descending price sort is sorted, keeps the length, and invents no
/// records.
pub proof fn lemma_sort_desc_ensures(s: Seq<OrderV>)
    ensures
        sorted_desc(sort_desc(s)),
        sort_desc(s).len() == s.len(),
        forall|x: OrderV| sort_desc(s).contains(x) ==> s.contains(x),
    decreases s.len(),
{
    if s.len() > 0 {
        lemma_sort_desc_ensures(s.drop_last());
        lemma_insert_desc_sorted(sort_desc(s.drop_last()), s.last());
        lemma_insert_desc_elems(sort_desc(s.drop_last()), s.last());
        assert forall|x: OrderV| sort_desc(s).contains(x) implies s.contains(x) by {
            if sort_desc(s.drop_last()).contains(x) || x == s.last() {
                if x == s.last() {
                    assert(s[s.len() - 1] == x);
                } else {
                    assert(s.drop_last().contains(x));
                    let k = choose|k: int|
                        0 <= k < s.drop_last().len() && s.drop_last()[k] == x;
                    assert(s[k] == x);
                }
            }
        }
    }
}

fn sort_orders_asc(input: Vec<MarketOrder>) -> (r: Vec<MarketOrder>)
    ensures
        order_views(r@) == sort_asc(order_views(input@)),
{
    let ghost os = order_views(input@);
    let mut v = input;
    let mut r: Vec<MarketOrder> = Vec::new();
    proof {
        assert(order_views(v@) =~= os);
        assert(order_views(r@) =~= sort_asc(os.take(0)));
    }
    let ghost done: int = 0;
    while v.len() > 0
        invariant
            0 <= done <= os.len(),
            done + v@.len() == os.len(),
            order_views(v@) =~= os.skip(done),
            order_views(r@) == sort_asc(os.take(done)),
        decreases v.len(),
    {
        let ghost vseq = v@;
        let o = v.remove(0);
        proof {
            assert(order_views(vseq)[0] == vseq[0]@);
            assert(order_views(vseq)[0] == os.skip(done)[0]);
            assert(os.skip(done)[0] == os[done]);
            assert(o@ == os[done]);
            assert(v@ =~= vseq.remove(0));
            assert forall|k: int| 0 <= k < v@.len() implies order_views(v@)[k] == os.skip(
                done + 1,
            )[k] by {
                assert(order_views(v@)[k] == v@[k]@);
                assert(v@[k] == vseq[k + 1]);
                assert(order_views(vseq)[k + 1] == vseq[k + 1]@);
                assert(order_views(vseq)[k + 1] == os.skip(done)[k + 1]);
                assert(os.skip(done)[k + 1] == os[done + 1 + k]);
                assert(os.skip(done + 1)[k] == os[done + 1 + k]);
            }
            assert(order_views(v@) =~= os.skip(done + 1));
        }
        let ghost before = order_views(r@);
        let mut j: usize = r.len();
        while j > 0 && r[j - 1].price > o.price
            invariant
                0 <= j <= r@.len(),
                forall|k: int| j <= k < r@.len() ==> order_views(r@)[k].price > o@.price,
            decreases j,
        {
            proof {
                assert(order_views(r@)[j - 1].price == r@[j - 1].price);
            }
            j = j - 1;
        }
        proof {
            if j > 0 {
                assert(order_views(r@)[j - 1].price == r@[j - 1].price);
            }
            lemma_insert_asc_at(before, o@, j as int);
        }
        r.insert(j, o);
        proof {
            assert(order_views(r@) =~= before.take(j as int) + seq![o@] + before.skip(j as int));
            assert(os.take(done + 1).drop_last() =~= os.take(done));
            assert(os.take(done + 1).last() == os[done]);
            assert(order_views(r@) =~= sort_asc(os.take(done + 1)));
        }
        proof {
            done = done + 1;
        }
    }
    proof {
        assert(os.take(os.len() as int) =~= os);
    }
    r
}

fn sort_orders_desc(input: Vec<MarketOrder>) -> (r: Vec<MarketOrder>)
    ensures
        order_views(r@) == sort_desc(order_views(input@)),
{
    let ghost os = order_views(input@);
    let mut v = input;
    let mut r: Vec<MarketOrder> = Vec::new();
    proof {
        assert(order_views(v@) =~= os);
        assert(order_views(r@) =~= sort_desc(os.take(0)));
    }
    let ghost done: int = 0;
    while v.len() > 0
        invariant
            0 <= done <= os.len(),
            done + v@.len() == os.len(),
            order_views(v@) =~= os.skip(done),
            order_views(r@) == sort_desc(os.take(done)),
        decreases v.len(),
    {
        let ghost vseq = v@;
        let o = v.remove(0);
        proof {
            assert(order_views(vseq)[0] == vseq[0]@);
            assert(order_views(vseq)[0] == os.skip(done)[0]);
            assert(os.skip(done)[0] == os[done]);
            assert(o@ == os[done]);
            assert(v@ =~= vseq.remove(0));
            assert forall|k: int| 0 <= k < v@.len() implies order_views(v@)[k] == os.skip(
                done + 1,
            )[k] by {
                assert(order_views(v@)[k] == v@[k]@);
                assert(v@[k] == vseq[k + 1]);
                assert(order_views(vseq)[k + 1] == vseq[k + 1]@);
                assert(order_views(vseq)[k + 1] == os.skip(done)[k + 1]);
                assert(os.skip(done)[k + 1] == os[done + 1 + k]);
                assert(os.skip(done + 1)[k] == os[done + 1 + k]);
            }
            assert(order_views(v@) =~= os.skip(done + 1));
        }
        let ghost before = order_views(r@);
        let mut j: usize = r.len();
        while j > 0 && r[j - 1].price < o.price
            invariant
                0 <= j <= r@.len(),
                forall|k: int| j <= k < r@.len() ==> order_views(r@)[k].price < o@.price,
            decreases j,
        {
            proof {
                assert(order_views(r@)[j - 1].price == r@[j - 1].price);
            }
            j = j - 1;
        }
        proof {
            if j > 0 {
                assert(order_views(r@)[j - 1].price == r@[j - 1].price);
            }
            lemma_insert_desc_at(before, o@, j as int);
        }
        r.insert(j, o);
        proof {
            assert(order_views(r@) =~= before.take(j as int) + seq![o@] + before.skip(j as int));
            assert(os.take(done + 1).drop_last() =~= os.take(done));
            assert(os.take(done + 1).last() == os[done]);
            assert(order_views(r@) =~= sort_desc(os.take(done + 1)));
        }
        proof {
            done = done + 1;
        }
    }
    proof {
        assert(os.take(os.len() as int) =~= os);
    }
    r
}

// ---------------------------------------------------------------------------
// The aggregate.
// ---------------------------------------------------------------------------

/// The sorted sell side of a file, pre-truncation.
pub open spec fn spec_sells_sorted(content: Seq<char>) -> Seq<OrderV> {
    sort_asc(spec_sells_of(spec_orders(content)))
}

/// The sorted buy side of a file, pre-truncation.
pub open spec fn spec_buys_sorted(content: Seq<char>) -> Seq<OrderV> {
    sort_desc(spec_buys_of(spec_orders(content)))
}

/// The bounded list kept in the aggregate: at most the first ten records.
pub open spec fn take10(s: Seq<OrderV>) -> Seq<OrderV> {
    s.take(
        if s.len() <= 10 {
            s.len() as int
        } else {
            10
        },
    )
}

/// The best raw price of a sorted side, if the side is non-empty.
pub open spec fn first_price(s: Seq<OrderV>) -> Option<int> {
    if s.len() == 0 {
        Option::None
    } else {
        Option::Some(s[0].price)
    }
}

/// The adjusted quote over an optional best price.
pub open spec fn spec_adj_opt(p: Option<int>, mode: MarketMode) -> Option<int> {
    match p {
        Option::None => Option::None,
        Option::Some(x) => Option::Some(spec_adjust(x, mode)),
    }
}

/// The type id of the first accepted record overall, if any.
pub open spec fn first_type(s: Seq<OrderV>) -> Option<int> {
    if s.len() == 0 {
        Option::None
    } else {
        Option::Some(s[0].type_id)
    }
}

pub open spec fn to_int_opt32(o: Option<i32>) -> Option<int> {
    match o {
        Option::Some(x) => Option::Some(x as int),
        Option::None => Option::None,
    }
}

/// Every record's price lies within the library's computing range.
pub open spec fn prices_in_range(s: Seq<OrderV>) -> bool {
    forall|k: int|
        0 <= k < s.len() ==> -(PRICE_CENTS_LIMIT as int) <= (#[trigger] s[k].price)
            <= PRICE_CENTS_LIMIT as int
}

/// Any record the record parser accepts has an in-range price: the price
/// grammar rejects larger magnitudes.
proof fn lemma_row_price_range(headers: Seq<Seq<char>>, cells: Seq<Seq<char>>)
    ensures
        spec_row_order(headers, cells) matches Option::Some(o) ==> -(PRICE_CENTS_LIMIT as int)
            <= o.price <= PRICE_CENTS_LIMIT as int,
{
}

proof fn lemma_sells_of_sub(os: Seq<OrderV>)
    ensures
        forall|x: OrderV| spec_sells_of(os).contains(x) ==> os.contains(x),
        forall|x: OrderV| spec_buys_of(os).contains(x) ==> os.contains(x),
    decreases os.len(),
{
    if os.len() > 0 {
        lemma_sells_of_sub(os.drop_last());
        assert forall|x: OrderV| spec_sells_of(os).contains(x) implies os.contains(x) by {
            let t = spec_sells_of(os.drop_last());
            if t.contains(x) {
                assert(os.drop_last().contains(x));
                let k = choose|k: int| 0 <= k < os.drop_last().len() && os.drop_last()[k] == x;
                assert(os[k] == x);
            } else {
                assert(x == os.last());
                assert(os[os.len() - 1] == x);
            }
        }
        assert forall|x: OrderV| spec_buys_of(os).contains(x) implies os.contains(x) by {
            let t = spec_buys_of(os.drop_last());
            if t.contains(x) {
                assert(os.drop_last().contains(x));
                let k = choose|k: int| 0 <= k < os.drop_last().len() && os.drop_last()[k] == x;
                assert(os[k] == x);
            } else {
                assert(x == os.last());
                assert(os[os.len() - 1] == x);
            }
        }
    }
}

fn truncate10(v: Vec<MarketOrder>) -> (r: Vec<MarketOrder>)
    ensures
        order_views(r@) == take10(order_views(v@)),
{
    let ghost os = order_views(v@);
    let mut v = v;
    if v.len() > 10 {
        let ghost before = v@;
        v.truncate(10);
        proof {
            assert(order_views(v@) =~= take10(os));
        }
    } else {
        proof {
            assert(order_views(v@) =~= take10(os));
        }
    }
    v
}

/// Parses one whole snapshot text, with its originating filename for the
/// display metadata.  Every failure is local: bad rows drop out and the
/// remainder aggregates; the function never fails.
pub fn parse_log_text(content: &str, filename: Option<&str>) -> (r: MarketData)
    ensures
        order_views(r.sell_orders@) == take10(spec_sells_sorted(content@)),
        order_views(r.buy_orders@) == take10(spec_buys_sorted(content@)),
        r.sell_order_count == spec_sells_of(spec_orders(content@)).len(),
        r.buy_order_count == spec_buys_of(spec_orders(content@)).len(),
        to_int_opt(r.cheapest_sell) == first_price(spec_sells_sorted(content@)),
        to_int_opt(r.highest_buy) == first_price(spec_buys_sorted(content@)),
        to_int_opt(r.adjusted_sell) == spec_adj_opt(
            first_price(spec_sells_sorted(content@)),
            MarketMode::Sell,
        ),
        to_int_opt(r.adjusted_buy) == spec_adj_opt(
            first_price(spec_buys_sorted(content@)),
            MarketMode::Buy,
        ),
        to_int_opt32(r.type_id) == first_type(spec_orders(content@)),
        crate::filename::opt_string_view(r.filename) == crate::filename::opt_str_view(filename),
        (
            crate::filename::opt_string_view(r.item_name),
            crate::filename::opt_string_view(r.timestamp),
        ) == crate::filename::spec_parse_filename(crate::filename::opt_str_view(filename)),
{
    let chars = str_to_chars(content);
    let lines = split_chars(&chars, '\n');
    let ghost lviews = views_of(lines@);
    let ghost rows = lviews.drop_first();
    // Header names from the first line.
    let header_cells = split_chars(&lines[0], ',');
    let ghost hcs = views_of(header_cells@);
    let hn = header_cells.len();
    let mut headers: Vec<Vec<char>> = Vec::new();
    let mut hi: usize = 0;
    proof {
        assert(hcs.take(0) =~= Seq::<Seq<char>>::empty());
        assert(views_of(headers@) =~= header_filter(hcs.take(0)));
    }
    while hi < hn
        invariant
            0 <= hi <= hn,
            hn == hcs.len(),
            views_of(headers@) == header_filter(hcs.take(hi as int)),
        decreases hn - hi,
    {
        let t = trim_chars(&header_cells[hi]);
        proof {
            assert(hcs[hi as int] == header_cells@[hi as int]@);
            assert(hcs.take(hi + 1).drop_last() =~= hcs.take(hi as int));
            assert(hcs.take(hi + 1).last() == hcs[hi as int]);
        }
        if t.len() > 0 {
            let ghost hv = views_of(headers@);
            headers.push(t);
            proof {
                assert(views_of(headers@) =~= hv.push(spec_trim(hcs[hi as int])));
            }
        }
        hi = hi + 1;
    }
    proof {
        assert(hcs.take(hn as int) =~= hcs);
    }
    let ghost hviews = views_of(headers@);
    proof {
        assert(lviews[0] == lines@[0]@);
        assert(hviews == spec_headers(chars@));
    }
    // Every data row through the record parser.
    let mut sells: Vec<MarketOrder> = Vec::new();
    let mut buys: Vec<MarketOrder> = Vec::new();
    let mut type_id: Option<i32> = None;
    let ghost mut cur: Seq<OrderV> = Seq::empty();
    let nl = lines.len();
    let mut li: usize = 1;
    proof {
        assert(rows.take(0) =~= Seq::<Seq<char>>::empty());
        assert(order_views(sells@) =~= spec_sells_of(cur));
        assert(order_views(buys@) =~= spec_buys_of(cur));
    }
    while li < nl
        invariant
            1 <= li <= nl,
            nl == lviews.len(),
            rows == lviews.drop_first(),
            hviews == views_of(headers@),
            cur == spec_orders_of(hviews, rows.take(li - 1)),
            order_views(sells@) == spec_sells_of(cur),
            order_views(buys@) == spec_buys_of(cur),
            to_int_opt32(type_id) == first_type(cur),
            prices_in_range(cur),
        decreases nl - li,
    {
        let cells_raw = split_chars(&lines[li], ',');
        let ghost rcs = views_of(cells_raw@);
        let rn = cells_raw.len();
        let mut cells: Vec<Vec<char>> = Vec::new();
        let mut ci: usize = 0;
        proof {
            assert(rcs.take(0) =~= Seq::<Seq<char>>::empty());
            assert(views_of(cells@) =~= trim_all(rcs.take(0)));
        }
        while ci < rn
            invariant
                0 <= ci <= rn,
                rn == rcs.len(),
                views_of(cells@) == trim_all(rcs.take(ci as int)),
            decreases rn - ci,
        {
            let t = trim_chars(&cells_raw[ci]);
            proof {
                assert(rcs[ci as int] == cells_raw@[ci as int]@);
                assert(rcs.take(ci + 1).drop_last() =~= rcs.take(ci as int));
                assert(rcs.take(ci + 1).last() == rcs[ci as int]);
            }
            let ghost cv = views_of(cells@);
            cells.push(t);
            proof {
                assert(views_of(cells@) =~= cv.push(spec_trim(rcs[ci as int])));
            }
            ci = ci + 1;
        }
        proof {
            assert(rcs.take(rn as int) =~= rcs);
            assert(lviews[li as int] == lines@[li as int]@);
            assert(rows[li - 1] == lviews[li as int]);
            assert(views_of(cells@) == spec_row_cells(rows[li - 1]));
            assert(rows.take(li as int).drop_last() =~= rows.take(li - 1));
            assert(rows.take(li as int).last() == rows[li - 1]);
        }
        match parse_order_from_record(&headers, &cells) {
            Option::Some(o) => {
                proof {
                    lemma_row_price_range(hviews, views_of(cells@));
                    assert(spec_line_order(hviews, rows[li - 1]) == Option::Some(o@));
                    assert(spec_orders_of(hviews, rows.take(li as int)) == cur.push(o@));
                    assert(cur.push(o@).drop_last() =~= cur);
                }
                if type_id.is_none() {
                    type_id = Some(o.type_id);
                }
                let ghost sv = order_views(sells@);
                let ghost bv = order_views(buys@);
                if o.is_buy_order {
                    let ghost ov = o@;
                    buys.push(o);
                    proof {
                        assert(order_views(buys@) =~= bv.push(ov));
                    }
                } else {
                    let ghost ov = o@;
                    sells.push(o);
                    proof {
                        assert(order_views(sells@) =~= sv.push(ov));
                    }
                }
                proof {
                    cur = cur.push(o@);
                }
            },
            Option::None => {
                proof {
                    assert(spec_line_order(hviews, rows[li - 1]) is None);
                    assert(spec_orders_of(hviews, rows.take(li as int)) == cur);
                }
            },
        }
        li = li + 1;
    }
    proof {
        assert(rows.take(nl - 1 as int) =~= rows);
        assert(chars@ == content@);
        assert(cur == spec_orders(content@));
    }
    let sell_order_count = sells.len();
    let buy_order_count = buys.len();
    proof {
        lemma_sort_asc_ensures(spec_sells_of(cur));
        lemma_sort_desc_ensures(spec_buys_of(cur));
        lemma_sells_of_sub(cur);
    }
    let sorted_sells = sort_orders_asc(sells);
    let sorted_buys = sort_orders_desc(buys);
    let cheapest_sell: Option<i64> = if sorted_sells.len() > 0 {
        proof {
            let ss = spec_sells_sorted(content@);
            assert(order_views(sorted_sells@)[0] == sorted_sells@[0]@);
            assert(ss.contains(ss[0]));
            assert(spec_sells_of(cur).contains(ss[0]));
            assert(cur.contains(ss[0]));
            let k = choose|k: int| 0 <= k < cur.len() && cur[k] == ss[0];
            assert(-(PRICE_CENTS_LIMIT as int) <= cur[k].price <= PRICE_CENTS_LIMIT as int);
        }
        Some(sorted_sells[0].price)
    } else {
        None
    };
    let highest_buy: Option<i64> = if sorted_buys.len() > 0 {
        proof {
            let bs = spec_buys_sorted(content@);
            assert(order_views(sorted_buys@)[0] == sorted_buys@[0]@);
            assert(bs.contains(bs[0]));
            assert(spec_buys_of(cur).contains(bs[0]));
            assert(cur.contains(bs[0]));
            let k = choose|k: int| 0 <= k < cur.len() && cur[k] == bs[0];
            assert(-(PRICE_CENTS_LIMIT as int) <= cur[k].price <= PRICE_CENTS_LIMIT as int);
        }
        Some(sorted_buys[0].price)
    } else {
        None
    };
    let adjusted_sell: Option<i64> = match cheapest_sell {
        Option::Some(p) => Some(adjust_price(p, &MarketMode::Sell)),
        Option::None => None,
    };
    let adjusted_buy: Option<i64> = match highest_buy {
        Option::Some(p) => Some(adjust_price(p, &MarketMode::Buy)),
        Option::None => None,
    };
    let sell_orders = truncate10(sorted_sells);
    let buy_orders = truncate10(sorted_buys);
    let (item_name, timestamp) = parse_filename(filename);
    let fname: Option<String> = match filename {
        Option::Some(f) => Some(f.to_owned()),
        Option::None => None,
    };
    MarketData {
        filename: fname,
        type_id,
        item_name,
        timestamp,
        cheapest_sell,
        highest_buy,
        adjusted_sell,
        adjusted_buy,
        sell_order_count,
        buy_order_count,
        sell_orders,
        buy_orders,
    }
}

/// In every aggregate the sell list is non-decreasing by price, the buy
/// list non-increasing, and the kept lists hold at most ten records while
/// the counts report the full sides.
pub proof fn lemma_snapshot_lists_ordered(content: Seq<char>)
    ensures
        sorted_asc(spec_sells_sorted(content)),
        sorted_desc(spec_buys_sorted(content)),
        sorted_asc(take10(spec_sells_sorted(content))),
        sorted_desc(take10(spec_buys_sorted(content))),
        take10(spec_sells_sorted(content)).len() <= 10,
        take10(spec_buys_sorted(content)).len() <= 10,
        take10(spec_sells_sorted(content)).len() <= spec_sells_sorted(content).len(),
        spec_sells_sorted(content).len() == spec_sells_of(spec_orders(content)).len(),
        spec_buys_sorted(content).len() == spec_buys_of(spec_orders(content)).len(),
    decreases content.len(),
{
    lemma_sort_asc_ensures(spec_sells_of(spec_orders(content)));
    lemma_sort_desc_ensures(spec_buys_of(spec_orders(content)));
    let ss = spec_sells_sorted(content);
    let bs = spec_buys_sorted(content);
    assert forall|i: int, j: int|
        0 <= i < j < take10(ss).len() implies take10(ss)[i].price <= take10(ss)[j].price by {
        assert(take10(ss)[i] == ss[i]);
        assert(take10(ss)[j] == ss[j]);
    }
    assert forall|i: int, j: int|
        0 <= i < j < take10(bs).len() implies take10(bs)[i].price >= take10(bs)[j].price by {
        assert(take10(bs)[i] == bs[i]);
        assert(take10(bs)[j] == bs[j]);
    }
}

} // verus!
