//! The price adjuster: "beat the competition by one tick", and the
//! two-decimal rendering of a price for publication.
//!
//! The step scales with the price's order of magnitude: prices below ten
//! thousand units adjust by one unit, a price with seven integer digits
//! adjusts by a thousand units.  Prices are in cents (hundredths of a unit).
use crate::market::MarketMode;
use crate::text::{all_digits, chars_to_string, digit_val, digits_val, is_digit};
use vstd::prelude::*;

verus! {

/// Largest price magnitude, in cents, the library computes with.  Rows with
/// larger prices are dropped at parse time, so adjustment never overflows.
pub const PRICE_CENTS_LIMIT: i64 = 1_000_000_000_000_000_000;

pub open spec fn pow10(e: nat) -> int
    decreases e,
{
    if e == 0 {
        1
    } else {
        10 * pow10((e - 1) as nat)
    }
}

/// Number of base-10 digits of the integer part; every value below ten,
/// zero and negatives included, counts as one digit.
pub open spec fn digit_count(n: int) -> nat
    decreases n,
{
    if n < 10 {
        1
    } else {
        1 + digit_count(n / 10)
    }
}

proof fn lemma_pow10_pos(e: nat)
    ensures
        pow10(e) >= 1,
    decreases e,
{
    if e > 0 {
        lemma_pow10_pos((e - 1) as nat);
    }
}

proof fn lemma_pow10_increases(a: nat, b: nat)
    requires
        a <= b,
    ensures
        pow10(a) <= pow10(b),
    decreases b,
{
    lemma_pow10_pos(a);
    if a < b {
        lemma_pow10_increases(a, (b - 1) as nat);
        lemma_pow10_pos((b - 1) as nat);
    }
}

/// A non-negative number below `10^k` has at most `k` digits.
proof fn lemma_digit_count_le(n: int, k: nat)
    requires
        k >= 1,
        n < pow10(k),
    ensures
        digit_count(n) <= k,
    decreases k,
{
    if n >= 10 {
        if k == 1 {
            reveal_with_fuel(pow10, 2);
            assert(false);
        } else {
            assert(n < 10 * pow10((k - 1) as nat));
            assert(n / 10 < pow10((k - 1) as nat));
            lemma_digit_count_le(n / 10, (k - 1) as nat);
        }
    }
}

/// The step, in cents, used to undercut or outbid at a given positive price.
pub open spec fn spec_step_cents(price_cents: int) -> int {
    let d = digit_count(price_cents / 100);
    if d <= 4 {
        100
    } else {
        100 * pow10((d - 4) as nat)
    }
}

/// What `adjust_price` returns: non-positive prices pass through, positive
/// ones move one step against the competition.
pub open spec fn spec_adjust(price_cents: int, mode: MarketMode) -> int {
    if price_cents <= 0 {
        price_cents
    } else {
        match mode {
            MarketMode::Sell => price_cents - spec_step_cents(price_cents),
            MarketMode::Buy => price_cents + spec_step_cents(price_cents),
        }
    }
}

/// Computes the adjustment step for a positive price.
pub fn calculate_step(price_cents: i64) -> (r: i64)
    requires
        0 < price_cents <= PRICE_CENTS_LIMIT,
    ensures
        r == spec_step_cents(price_cents as int),
        100 <= r <= 1_000_000_000_000_000,
{
    let units: i64 = price_cents / 100;
    proof {
        reveal_with_fuel(pow10, 18);
        assert(pow10(17) == 100_000_000_000_000_000);
        lemma_digit_count_le(units as int, 17);
    }
    let mut u: i64 = units;
    let mut d: u32 = 1;
    while u >= 10
        invariant
            0 <= u <= units,
            1 <= d <= 17,
            d - 1 + digit_count(u as int) == digit_count(units as int),
            digit_count(units as int) <= 17,
        decreases u,
    {
        u = u / 10;
        d = d + 1;
        assert(digit_count(u as int) >= 1);
    }
    assert(digit_count(units as int) == d);
    if d <= 4 {
        100
    } else {
        let mut step: i64 = 100;
        let mut i: u32 = 0;
        while i < d - 4
            invariant
                0 <= i <= d - 4,
                5 <= d <= 17,
                step == 100 * pow10(i as nat),
            decreases d - 4 - i,
        {
            proof {
                lemma_pow10_increases(i as nat, 12);
                reveal_with_fuel(pow10, 13);
                assert(pow10(12) == 1_000_000_000_000);
            }
            step = step * 10;
            i = i + 1;
        }
        proof {
            lemma_pow10_pos((d - 4) as nat);
            lemma_pow10_increases((d - 4) as nat, 13);
            reveal_with_fuel(pow10, 14);
            assert(pow10(13) == 10_000_000_000_000);
        }
        step
    }
}

/// Adjusts a price one step against the competition: sellers undercut,
/// buyers outbid.  Non-positive prices come back unchanged.
pub fn adjust_price(price_cents: i64, mode: &MarketMode) -> (r: i64)
    requires
        -PRICE_CENTS_LIMIT <= price_cents <= PRICE_CENTS_LIMIT,
    ensures
        r == spec_adjust(price_cents as int, *mode),
{
    if price_cents <= 0 {
        return price_cents;
    }
    let step = calculate_step(price_cents);
    match mode {
        MarketMode::Sell => price_cents - step,
        MarketMode::Buy => price_cents + step,
    }
}

/// The published form of a price: unit digits without a leading zero, a
/// point, then exactly the two fraction digits; negative prices carry a
/// leading minus.
pub open spec fn price_format_ok(cents: int, s: Seq<char>) -> bool
    decreases
            (if cents < 0 {
                1int
            } else {
                0int
            }),
{
    if cents < 0 {
        s.len() >= 1 && s[0] == '-' && price_format_ok(-cents, s.drop_first())
    } else {
        &&& s.len() >= 4
        &&& s[s.len() - 3] == '.'
        &&& all_digits(s.take(s.len() - 3))
        &&& digits_val(s.take(s.len() - 3)) == cents / 100
        &&& (s.len() == 4 || s[0] != '0')
        &&& is_digit(s[s.len() - 2]) && digit_val(s[s.len() - 2]) == (cents % 100) / 10
        &&& is_digit(s[s.len() - 1]) && digit_val(s[s.len() - 1]) == cents % 10
    }
}

fn digit_char(d: i64) -> (c: char)
    requires
        0 <= d <= 9,
    ensures
        is_digit(c),
        digit_val(c) == d,
{
    match d {
        0 => '0',
        1 => '1',
        2 => '2',
        3 => '3',
        4 => '4',
        5 => '5',
        6 => '6',
        7 => '7',
        8 => '8',
        _ => '9',
    }
}

proof fn lemma_digits_val_prepend(c: char, s: Seq<char>)
    requires
        is_digit(c),
        all_digits(s),
    ensures
        digits_val(seq![c] + s) == digit_val(c) * pow10(s.len()) + digits_val(s),
    decreases s.len(),
{
    let t = seq![c] + s;
    if s.len() == 0 {
        assert(t =~= seq![c]);
        assert(t.drop_last() =~= Seq::<char>::empty());
        assert(t.last() == c);
        assert(digits_val(t) == 10 * digits_val(t.drop_last()) + digit_val(t.last()));
        assert(digits_val(Seq::<char>::empty()) == 0);
        assert(pow10(0) == 1);
        assert(digits_val(t) == digit_val(c) * pow10(s.len()) + digits_val(s));
    } else {
        lemma_digits_val_prepend(c, s.drop_last());
        assert(t.drop_last() =~= seq![c] + s.drop_last());
        assert(t.last() == s.last());
        assert(all_digits(s.drop_last()));
        assert(digits_val(t) == 10 * digits_val(seq![c] + s.drop_last()) + digit_val(s.last()));
        assert(digits_val(s) == 10 * digits_val(s.drop_last()) + digit_val(s.last()));
        assert(pow10(s.len()) == 10 * pow10((s.len() - 1) as nat));
        assert(10 * (digit_val(c) * pow10((s.len() - 1) as nat)) == digit_val(c) * (10 * pow10(
            (s.len() - 1) as nat,
        ))) by (nonlinear_arith);
        assert(digit_val(c) * pow10(s.len()) == digit_val(c) * (10 * pow10((s.len() - 1) as nat)));
        assert(digits_val(t) == 10 * (digit_val(c) * pow10((s.len() - 1) as nat)) + 10
            * digits_val(s.drop_last()) + digit_val(s.last()));
        assert(digits_val(t) == digit_val(c) * pow10(s.len()) + digits_val(s));
    }
}

/// Renders a non-negative unit count as decimal digits.
fn units_digits(units: i64) -> (r: Vec<char>)
    requires
        units >= 0,
    ensures
        all_digits(r@),
        r@.len() >= 1,
        digits_val(r@) == units,
        r@.len() == 1 || r@[0] != '0',
{
    let mut r: Vec<char> = Vec::new();
    if units == 0 {
        let zero = digit_char(0);
        r.push(zero);
        proof {
            assert(r@.drop_last() =~= Seq::<char>::empty());
            assert(digits_val(r@) == 10 * digits_val(Seq::<char>::empty()) + digit_val(zero));
        }
        return r;
    }
    let mut u: i64 = units;
    proof {
        assert(units as int == u * pow10(0) + digits_val(r@));
    }
    while u > 0
        invariant
            0 <= u <= units,
            all_digits(r@),
            units as int == u * pow10(r@.len() as nat) + digits_val(r@),
            digits_val(r@) >= 0,
            u == 0 ==> r@.len() >= 1 && r@[0] != '0',
        decreases u,
    {
        let d = u % 10;
        let c = digit_char(d);
        let ghost old_r = r@;
        let ghost old_u = u;
        r.insert(0, c);
        u = u / 10;
        proof {
            assert(r@ =~= seq![c] + old_r);
            lemma_digits_val_prepend(c, old_r);
            lemma_pow10_pos(old_r.len() as nat);
            let p = pow10(old_r.len() as nat);
            assert(digits_val(r@) == d * p + digits_val(old_r));
            assert(d * p >= 0) by (nonlinear_arith)
                requires
                    d >= 0,
                    p >= 1,
            ;
            assert(old_u as int == 10 * (u as int) + d);
            assert(pow10(r@.len() as nat) == 10 * p);
            assert((old_u as int) * p == 10 * ((u as int) * p) + d * p) by (nonlinear_arith)
                requires
                    old_u as int == 10 * (u as int) + d,
            ;
            assert((u as int) * pow10(r@.len() as nat) == 10 * ((u as int) * p)) by (
            nonlinear_arith)
                requires
                    pow10(r@.len() as nat) == 10 * p,
            ;
            assert(units as int == u * pow10(r@.len() as nat) + digits_val(r@));
            if u == 0 {
                assert(digit_val(c) == old_u);
                assert(c != '0');
            }
        }
    }
    proof {
        assert(units as int == digits_val(r@));
    }
    r
}

/// Builds the digit form of a non-negative cent count.
fn format_nonneg(m: i64) -> (r: Vec<char>)
    requires
        m >= 0,
    ensures
        price_format_ok(m as int, r@),
{
    let units = m / 100;
    let mut chars = units_digits(units);
    let ghost ds = chars@;
    chars.push('.');
    let d1 = digit_char((m % 100) / 10);
    chars.push(d1);
    let d2 = digit_char(m % 10);
    chars.push(d2);
    proof {
        let body = chars@;
        assert(body.take(body.len() - 3) =~= ds);
        assert(body[body.len() - 3] == '.');
        assert(body[body.len() - 2] == d1);
        assert(body[body.len() - 1] == d2);
        assert(body.len() == 4 ==> ds.len() == 1);
        assert(ds.len() > 1 ==> body[0] == ds[0]);
    }
    chars
}

/// Renders a price in cents with exactly two decimals, the shape the
/// active price is published in.
pub fn format_price_cents(cents: i64) -> (r: String)
    requires
        cents > i64::MIN,
    ensures
        price_format_ok(cents as int, r@),
{
    if cents < 0 {
        let mut chars = format_nonneg(-cents);
        let ghost body = chars@;
        chars.insert(0, '-');
        proof {
            assert(chars@ =~= seq!['-'] + body);
            assert(chars@.drop_first() =~= body);
        }
        chars_to_string(&chars)
    } else {
        let chars = format_nonneg(cents);
        chars_to_string(&chars)
    }
}

/// The quoted price always beats the best competing order strictly: an
/// undercut is below the raw price and an outbid above it, for every
/// positive price; zero and negative prices are never adjusted.
pub proof fn lemma_adjust_beats_price(price_cents: int, mode: MarketMode)
    ensures
        price_cents > 0 && mode == MarketMode::Sell ==> spec_adjust(price_cents, mode)
            < price_cents,
        price_cents > 0 && mode == MarketMode::Buy ==> spec_adjust(price_cents, mode)
            > price_cents,
        price_cents <= 0 ==> spec_adjust(price_cents, mode) == price_cents,
{
    if price_cents > 0 {
        let d = digit_count(price_cents / 100);
        if d > 4 {
            lemma_pow10_pos((d - 4) as nat);
        }
    }
}

} // verus!
