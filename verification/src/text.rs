//! Character-level text utilities: trimming, separator splitting, and the
//! tolerant numeric parsers the row parser is built on.
//!
//! Everything is specified over `Seq<char>`; the executable functions work
//! on `Vec<char>` so that every step of the snapshot decoding is verified.
use vstd::prelude::*;
use vstd::string::*;

verus! {

/// The whitespace stripped from cells and header names.
pub open spec fn is_ws(c: char) -> bool {
    c == ' ' || c == '\t' || c == '\r' || c == '\n'
}

pub open spec fn trim_front(s: Seq<char>) -> Seq<char>
    decreases s.len(),
{
    if s.len() > 0 && is_ws(s[0]) {
        trim_front(s.drop_first())
    } else {
        s
    }
}

pub open spec fn trim_back(s: Seq<char>) -> Seq<char>
    decreases s.len(),
{
    if s.len() > 0 && is_ws(s.last()) {
        trim_back(s.drop_last())
    } else {
        s
    }
}

/// A cell with surrounding whitespace removed.
pub open spec fn spec_trim(s: Seq<char>) -> Seq<char> {
    trim_back(trim_front(s))
}

proof fn lemma_trim_front_skip(s: Seq<char>, k: int)
    requires
        0 <= k <= s.len(),
        forall|j: int| 0 <= j < k ==> is_ws(s[j]),
        k == s.len() || !is_ws(s[k]),
    ensures
        trim_front(s) == s.skip(k),
    decreases k,
{
    if k == 0 {
        assert(s.skip(0) =~= s);
    } else {
        lemma_trim_front_skip(s.drop_first(), k - 1);
        assert(s.drop_first().skip(k - 1) =~= s.skip(k));
    }
}

proof fn lemma_trim_back_take(s: Seq<char>, k: int)
    requires
        0 <= k <= s.len(),
        forall|j: int| k <= j < s.len() ==> is_ws(s[j]),
        k == 0 || !is_ws(s[k - 1]),
    ensures
        trim_back(s) == s.take(k),
    decreases s.len(),
{
    if k == s.len() {
        assert(s.take(k) =~= s);
    } else {
        lemma_trim_back_take(s.drop_last(), k);
        assert(s.drop_last().take(k) =~= s.take(k));
    }
}

/// Removes leading and trailing whitespace.
pub fn trim_chars(v: &Vec<char>) -> (r: Vec<char>)
    ensures
        r@ == spec_trim(v@),
{
    let n = v.len();
    let mut lo: usize = 0;
    while lo < n && is_ws_char(v[lo])
        invariant
            0 <= lo <= n,
            forall|j: int| 0 <= j < lo ==> is_ws(v@[j]),
        decreases n - lo,
    {
        lo = lo + 1;
    }
    proof {
        lemma_trim_front_skip(v@, lo as int);
    }
    if lo == n {
        let r: Vec<char> = Vec::new();
        proof {
            assert(v@.skip(n as int) =~= Seq::<char>::empty());
        }
        return r;
    }
    let mut hi: usize = n;
    while hi > lo && is_ws_char(v[hi - 1])
        invariant
            lo <= hi <= n,
            forall|j: int| hi <= j < n ==> is_ws(v@[j]),
        decreases hi,
    {
        hi = hi - 1;
    }
    proof {
        lemma_trim_back_take(v@.skip(lo as int), hi - lo as int);
    }
    let mut r: Vec<char> = Vec::new();
    let mut i = lo;
    while i < hi
        invariant
            lo <= i <= hi <= n,
            r@ == v@.subrange(lo as int, i as int),
        decreases hi - i,
    {
        r.push(v[i]);
        assert(r@ =~= v@.subrange(lo as int, i + 1 as int));
        i = i + 1;
    }
    proof {
        assert(v@.skip(lo as int).take(hi - lo as int) =~= v@.subrange(lo as int, hi as int));
    }
    r
}

pub fn is_ws_char(c: char) -> (r: bool)
    ensures
        r == is_ws(c),
{
    c == ' ' || c == '\t' || c == '\r' || c == '\n'
}

/// Splitting a sequence on a separator: the segments between occurrences,
/// in order; a sequence with no separator is one segment.
pub open spec fn split_on(s: Seq<char>, sep: char) -> Seq<Seq<char>>
    decreases s.len(),
{
    match s.index_of_first(sep) {
        Option::None => seq![s],
        Option::Some(i) => if 0 <= i < s.len() {
            seq![s.take(i)] + split_on(s.skip(i + 1), sep)
        } else {
            seq![s]
        },
    }
}

/// The views of a vector of character vectors.
pub open spec fn views_of(s: Seq<Vec<char>>) -> Seq<Seq<char>> {
    s.map_values(|v: Vec<char>| v@)
}

/// Splits on a separator character, one segment per stretch between
/// occurrences; never returns an empty vector.
pub fn split_chars(v: &Vec<char>, sep: char) -> (r: Vec<Vec<char>>)
    ensures
        views_of(r@) == split_on(v@, sep),
        r@.len() >= 1,
{
    let n = v.len();
    let mut r: Vec<Vec<char>> = Vec::new();
    let mut cur: Vec<char> = Vec::new();
    let mut start: usize = 0;
    let mut i: usize = 0;
    proof {
        assert(v@.skip(0) =~= v@);
        assert(views_of(r@) + split_on(v@, sep) =~= split_on(v@, sep));
        assert(cur@ =~= v@.subrange(0, 0));
    }
    while i < n
        invariant
            0 <= start <= i <= n,
            cur@ == v@.subrange(start as int, i as int),
            forall|j: int| start <= j < i ==> v@[j] != sep,
            split_on(v@, sep) == views_of(r@) + split_on(v@.skip(start as int), sep),
        decreases n - i,
    {
        let c = v[i];
        if c == sep {
            proof {
                let t = v@.skip(start as int);
                t.index_of_first_ensures(sep);
                assert(t[i - start as int] == sep);
                assert forall|j: int| 0 <= j < i - start as int implies t[j] != sep by {
                    assert(t[j] == v@[j + start]);
                }
                let fi = t.index_of_first(sep);
                match fi {
                    Option::None => {
                        assert(t.contains(t[i - start as int]));
                        assert(false);
                    },
                    Option::Some(k) => {
                        if k < i - start as int {
                            assert(t[k] == sep);
                            assert(false);
                        }
                        if k > i - start as int {
                            assert(t[i - start as int] != sep);
                            assert(false);
                        }
                        assert(k == i - start as int);
                    },
                }
                assert(t.take(i - start as int) =~= v@.subrange(start as int, i as int));
                assert(t.skip(i - start as int + 1) =~= v@.skip(i + 1));
                assert(views_of(r@.push(cur)) =~= views_of(r@).push(cur@));
                assert(split_on(v@, sep) =~= views_of(r@.push(cur)) + split_on(
                    v@.skip(i + 1),
                    sep,
                ));
            }
            r.push(cur);
            cur = Vec::new();
            start = i + 1;
            assert(cur@ =~= v@.subrange(start as int, start as int));
        } else {
            cur.push(c);
            assert(cur@ =~= v@.subrange(start as int, i + 1 as int));
        }
        i = i + 1;
    }
    proof {
        let t = v@.skip(start as int);
        t.index_of_first_ensures(sep);
        match t.index_of_first(sep) {
            Option::None => {},
            Option::Some(k) => {
                assert(t[k] == v@[k + start]);
                assert(false);
            },
        }
        assert(cur@ =~= t);
        assert(views_of(r@.push(cur)) =~= views_of(r@).push(cur@));
        assert(split_on(v@, sep) =~= views_of(r@.push(cur)));
    }
    r.push(cur);
    r
}

/// Compares a character vector with a string.
pub fn chars_eq_str(v: &Vec<char>, s: &str) -> (r: bool)
    ensures
        r == (v@ == s@),
{
    let n = s.unicode_len();
    if v.len() != n {
        return false;
    }
    let mut i: usize = 0;
    while i < n
        invariant
            0 <= i <= n,
            n == v@.len() == s@.len(),
            forall|j: int| 0 <= j < i ==> v@[j] == s@[j],
        decreases n - i,
    {
        if v[i] != s.get_char(i) {
            return false;
        }
        i = i + 1;
    }
    proof {
        assert(v@ =~= s@);
    }
    true
}

/// Case-insensitive comparison with the literal "true": how the buy flag
/// column is read.
pub open spec fn spec_is_true_flag(s: Seq<char>) -> bool {
    s.len() == 4 && (s[0] == 't' || s[0] == 'T') && (s[1] == 'r' || s[1] == 'R') && (s[2] == 'u'
        || s[2] == 'U') && (s[3] == 'e' || s[3] == 'E')
}

pub fn is_true_flag(v: &Vec<char>) -> (r: bool)
    ensures
        r == spec_is_true_flag(v@),
{
    v.len() == 4 && (v[0] == 't' || v[0] == 'T') && (v[1] == 'r' || v[1] == 'R') && (v[2] == 'u'
        || v[2] == 'U') && (v[3] == 'e' || v[3] == 'E')
}

/// Collects the characters of a string.
pub fn str_to_chars(s: &str) -> (r: Vec<char>)
    ensures
        r@ == s@,
{
    let n = s.unicode_len();
    let mut r: Vec<char> = Vec::new();
    let mut i: usize = 0;
    while i < n
        invariant
            0 <= i <= n,
            n == s@.len(),
            r@ == s@.take(i as int),
        decreases n - i,
    {
        r.push(s.get_char(i));
        assert(r@ =~= s@.take(i + 1 as int));
        i = i + 1;
    }
    proof {
        assert(s@.take(n as int) =~= s@);
    }
    r
}

/// Copies the characters of `v[from..to]`.
pub fn copy_range(v: &Vec<char>, from: usize, to: usize) -> (r: Vec<char>)
    requires
        from <= to <= v@.len(),
    ensures
        r@ == v@.subrange(from as int, to as int),
{
    let mut r: Vec<char> = Vec::new();
    let mut i = from;
    while i < to
        invariant
            from <= i <= to,
            r@ == v@.subrange(from as int, i as int),
        decreases to - i,
    {
        r.push(v[i]);
        assert(r@ =~= v@.subrange(from as int, i + 1 as int));
        i = i + 1;
    }
    r
}

/// Relies on `String: FromIterator<char>`: collecting characters yields the
/// string of exactly those characters, in order.
#[verifier::external_body]
pub fn chars_to_string(v: &Vec<char>) -> (r: String)
    ensures
        r@ == v@,
{
    v.iter().collect()
}

// ---------------------------------------------------------------------------
// Digits and numeric parsing.
// ---------------------------------------------------------------------------

pub open spec fn is_digit(c: char) -> bool {
    48 <= c as u32 <= 57
}

pub open spec fn digit_val(c: char) -> int {
    c as u32 - 48
}

pub open spec fn all_digits(s: Seq<char>) -> bool {
    forall|i: int| 0 <= i < s.len() ==> is_digit(s[i])
}

/// The value of a digit string read in base 10.
pub open spec fn digits_val(s: Seq<char>) -> int
    decreases s.len(),
{
    if s.len() == 0 {
        0
    } else {
        10 * digits_val(s.drop_last()) + digit_val(s.last())
    }
}

proof fn lemma_digits_val_nonneg(s: Seq<char>)
    requires
        all_digits(s),
    ensures
        digits_val(s) >= 0,
    decreases s.len(),
{
    if s.len() > 0 {
        assert(all_digits(s.drop_last()));
        lemma_digits_val_nonneg(s.drop_last());
    }
}

/// A digit string is worth at least any of its prefixes.
proof fn lemma_digits_val_prefix(s: Seq<char>, i: int)
    requires
        all_digits(s),
        0 <= i <= s.len(),
    ensures
        digits_val(s) >= digits_val(s.take(i)),
    decreases s.len() - i,
{
    if i == s.len() {
        assert(s.take(i) =~= s);
    } else {
        lemma_digits_val_prefix(s, i + 1);
        assert(s.take(i + 1).drop_last() =~= s.take(i));
        assert(all_digits(s.take(i)));
        lemma_digits_val_nonneg(s.take(i));
        assert(digits_val(s.take(i + 1)) == 10 * digits_val(s.take(i)) + digit_val(s[i]));
    }
}

/// Checks that every character in `v[from..to]` is a decimal digit.
pub fn all_digits_in(v: &Vec<char>, from: usize, to: usize) -> (r: bool)
    requires
        from <= to <= v@.len(),
    ensures
        r == all_digits(v@.subrange(from as int, to as int)),
{
    let mut i = from;
    while i < to
        invariant
            from <= i <= to,
            forall|j: int| from <= j < i ==> is_digit(v@[j]),
        decreases to - i,
    {
        let c = v[i];
        if !(48 <= c as u32 && c as u32 <= 57) {
            proof {
                let sub = v@.subrange(from as int, to as int);
                assert(sub[i - from as int] == v@[i as int]);
            }
            return false;
        }
        i = i + 1;
    }
    proof {
        let sub = v@.subrange(from as int, to as int);
        assert forall|j: int| 0 <= j < sub.len() implies is_digit(sub[j]) by {
            assert(sub[j] == v@[j + from]);
        }
    }
    true
}

/// Evaluates the digit run `v[from..to]`, or reports that its value exceeds
/// `cap` without overflowing.
pub fn digits_value_capped(v: &Vec<char>, from: usize, to: usize, cap: i64) -> (r: Option<i64>)
    requires
        from <= to <= v@.len(),
        all_digits(v@.subrange(from as int, to as int)),
        10 <= cap,
    ensures
        match r {
            Option::Some(x) => 0 <= x <= cap && x == digits_val(
                v@.subrange(from as int, to as int),
            ),
            Option::None => digits_val(v@.subrange(from as int, to as int)) > cap,
        },
{
    let ghost s = v@.subrange(from as int, to as int);
    let mut acc: i64 = 0;
    let mut i = from;
    while i < to
        invariant
            from <= i <= to,
            0 <= acc <= cap,
            acc == digits_val(s.take(i - from as int)),
        decreases to - i,
    {
        let c = v[i];
        proof {
            assert(s[i - from as int] == v@[i as int]);
            assert(is_digit(s[i - from as int]));
            assert(s.take(i - from as int + 1).drop_last() =~= s.take(i - from as int));
            assert(s.take(i + 1 - from as int).last() == s[i - from as int]);
        }
        let d: i64 = (c as u32 - 48) as i64;
        proof {
            assert(digits_val(s.take(i + 1 - from as int)) == 10 * acc + d);
        }
        if acc > (cap - d) / 10 {
            proof {
                assert(10 * acc + d > cap);
                lemma_digits_val_prefix(s, i + 1 - from as int);
            }
            return None;
        }
        proof {
            assert(10 * acc <= cap - d);
        }
        let next = acc * 10 + d;
        acc = next;
        i = i + 1;
    }
    proof {
        assert(s.take(to - from as int) =~= s);
    }
    Some(acc)
}

/// Sign handling shared by the numeric grammars: an optional leading `+`
/// or `-` followed by the body.
pub open spec fn spec_sign_split(s: Seq<char>) -> (bool, Seq<char>) {
    if s.len() > 0 && (s[0] == '-' || s[0] == '+') {
        (s[0] == '-', s.drop_first())
    } else {
        (false, s)
    }
}

/// The decimal-number grammar accepted for prices and volumes: an optional
/// sign, then digits with at most one point and at least one digit.
/// The result is the sign and the integer and fraction digit runs.
pub open spec fn spec_parse_decimal(s: Seq<char>) -> Option<(bool, Seq<char>, Seq<char>)> {
    let (neg, body) = spec_sign_split(s);
    match body.index_of_first('.') {
        Option::None => if body.len() >= 1 && all_digits(body) {
            Option::Some((neg, body, Seq::empty()))
        } else {
            Option::None
        },
        Option::Some(i) => {
            let ip = body.take(i);
            let fp = body.skip(i + 1);
            if ip.len() + fp.len() >= 1 && all_digits(ip) && all_digits(fp) {
                Option::Some((neg, ip, fp))
            } else {
                Option::None
            }
        },
    }
}

/// The cents contributed by the fraction digits: the first two count, the
/// rest are truncated.
pub open spec fn frac_cents(fp: Seq<char>) -> int {
    if fp.len() == 0 {
        0
    } else if fp.len() == 1 {
        10 * digit_val(fp[0])
    } else {
        10 * digit_val(fp[0]) + digit_val(fp[1])
    }
}

pub open spec fn to_int_opt(o: Option<i64>) -> Option<int> {
    match o {
        Option::Some(x) => Option::Some(x as int),
        Option::None => Option::None,
    }
}

/// A price cell as fixed-point cents: the decimal grammar, truncated past
/// two fraction digits, rejected beyond the library's price limit.
pub open spec fn spec_parse_price(s: Seq<char>) -> Option<int> {
    match spec_parse_decimal(s) {
        Option::None => Option::None,
        Option::Some((neg, ip, fp)) => {
            let mag = 100 * digits_val(ip) + frac_cents(fp);
            let val = if neg {
                -mag
            } else {
                mag
            };
            if -(crate::price::PRICE_CENTS_LIMIT as int) <= val <= crate::price::PRICE_CENTS_LIMIT
                as int {
                Option::Some(val)
            } else {
                Option::None
            }
        },
    }
}

/// A volume cell: the decimal grammar truncated to its integer part, then
/// clamped into `i64` as a float-to-integer conversion would be.
pub open spec fn spec_parse_vol(s: Seq<char>) -> Option<int> {
    match spec_parse_decimal(s) {
        Option::None => Option::None,
        Option::Some((neg, ip, fp)) => {
            let mag = digits_val(ip);
            let val = if neg {
                -mag
            } else {
                mag
            };
            if val > i64::MAX as int {
                Option::Some(i64::MAX as int)
            } else if val < i64::MIN as int {
                Option::Some(i64::MIN as int)
            } else {
                Option::Some(val)
            }
        },
    }
}

/// An integer cell: optional sign, digits only, rejected outside `i32`.
pub open spec fn spec_parse_i32(s: Seq<char>) -> Option<int> {
    let (neg, body) = spec_sign_split(s);
    if body.len() >= 1 && all_digits(body) && body.index_of_first('.') is None {
        let mag = digits_val(body);
        let val = if neg {
            -mag
        } else {
            mag
        };
        if i32::MIN <= val <= i32::MAX {
            Option::Some(val)
        } else {
            Option::None
        }
    } else {
        Option::None
    }
}

/// Finds the first occurrence of `c` in `v[from..]`, as an absolute index.
pub fn find_char_from(v: &Vec<char>, from: usize, c: char) -> (r: Option<usize>)
    requires
        from <= v@.len(),
    ensures
        match r {
            Option::None => v@.skip(from as int).index_of_first(c) is None,
            Option::Some(j) => from <= j < v@.len() && v@.skip(from as int).index_of_first(c)
                == Option::Some(j - from as int),
        },
{
    let ghost t = v@.skip(from as int);
    let n = v.len();
    let mut i = from;
    while i < n
        invariant
            from <= i <= n,
            n == v@.len(),
            forall|j: int| from <= j < i ==> v@[j] != c,
        decreases n - i,
    {
        if v[i] == c {
            proof {
                t.index_of_first_ensures(c);
                assert(t[i - from as int] == v@[i as int]);
                assert forall|j: int| 0 <= j < i - from as int implies t[j] != c by {
                    assert(t[j] == v@[j + from]);
                }
                match t.index_of_first(c) {
                    Option::None => {
                        assert(t.contains(t[i - from as int]));
                        assert(false);
                    },
                    Option::Some(k) => {
                        if k < i - from as int {
                            assert(t[k] == c);
                            assert(false);
                        }
                        if k > i - from as int {
                            assert(t[i - from as int] != c);
                            assert(false);
                        }
                    },
                }
            }
            return Some(i);
        }
        i = i + 1;
    }
    proof {
        t.index_of_first_ensures(c);
        match t.index_of_first(c) {
            Option::None => {},
            Option::Some(k) => {
                assert(t[k] == v@[k + from]);
                assert(false);
            },
        }
    }
    None
}

/// Finds the last occurrence of `c` strictly below index `below`.
pub fn find_last_before(v: &Vec<char>, below: usize, c: char) -> (r: Option<usize>)
    requires
        below <= v@.len(),
    ensures
        match r {
            Option::None => v@.take(below as int).index_of_last(c) is None,
            Option::Some(i) => i < below && v@.take(below as int).index_of_last(c)
                == Option::Some(i as int),
        },
{
    let ghost t = v@.take(below as int);
    let mut i = below;
    while i > 0
        invariant
            0 <= i <= below,
            forall|j: int| i <= j < below ==> v@[j] != c,
        decreases i,
    {
        i = i - 1;
        if v[i] == c {
            proof {
                t.index_of_last_ensures(c);
                assert(t[i as int] == v@[i as int]);
                assert forall|j: int| i < j < t.len() implies t[j] != c by {
                    assert(t[j] == v@[j]);
                }
                match t.index_of_last(c) {
                    Option::None => {
                        assert(t.contains(t[i as int]));
                        assert(false);
                    },
                    Option::Some(k) => {
                        if k < i as int {
                            assert(t[i as int] != c);
                            assert(false);
                        }
                        if k > i as int {
                            assert(t[k] == c);
                            assert(false);
                        }
                    },
                }
            }
            return Some(i);
        }
    }
    proof {
        t.index_of_last_ensures(c);
        match t.index_of_last(c) {
            Option::None => {},
            Option::Some(k) => {
                assert(t[k] == v@[k]);
                assert(false);
            },
        }
    }
    None
}

/// Parses a price cell into cents.
pub fn parse_price_cents(cell: &Vec<char>) -> (r: Option<i64>)
    ensures
        to_int_opt(r) == spec_parse_price(cell@),
{
    let ghost s = cell@;
    let n = cell.len();
    let mut from: usize = 0;
    let mut neg = false;
    if n > 0 && (cell[0] == '-' || cell[0] == '+') {
        neg = cell[0] == '-';
        from = 1;
    }
    let ghost body = spec_sign_split(s).1;
    proof {
        assert(body =~= s.skip(from as int));
        assert(neg == spec_sign_split(s).0);
    }
    let dot = find_char_from(cell, from, '.');
    let (ip_from, ip_to, fp_from, fp_to): (usize, usize, usize, usize) = match dot {
        Option::Some(j) => (from, j, j + 1, n),
        Option::None => (from, n, n, n),
    };
    proof {
        match dot {
            Option::Some(j) => {
                assert(body.take(j - from as int) =~= s.subrange(ip_from as int, ip_to as int));
                assert(body.skip(j - from as int + 1) =~= s.subrange(
                    fp_from as int,
                    fp_to as int,
                ));
            },
            Option::None => {
                assert(body =~= s.subrange(ip_from as int, ip_to as int));
                assert(Seq::<char>::empty() =~= s.subrange(fp_from as int, fp_to as int));
            },
        }
    }
    if ip_to - ip_from == 0 && fp_to - fp_from == 0 {
        return None;
    }
    if !all_digits_in(cell, ip_from, ip_to) {
        return None;
    }
    if !all_digits_in(cell, fp_from, fp_to) {
        return None;
    }
    let ghost ip = s.subrange(ip_from as int, ip_to as int);
    let ghost fp = s.subrange(fp_from as int, fp_to as int);
    // Units are capped so that the cents total stays provably in range.
    let units = match digits_value_capped(cell, ip_from, ip_to, 10_000_000_000_000_000) {
        Option::Some(u) => u,
        Option::None => {
            proof {
                let mag = 100 * digits_val(ip) + frac_cents(fp);
                assert(frac_cents(fp) >= 0);
                assert(mag > crate::price::PRICE_CENTS_LIMIT as int);
            }
            return None;
        },
    };
    let fc: i64 = if fp_to - fp_from == 0 {
        0
    } else if fp_to - fp_from == 1 {
        proof {
            assert(fp[0] == s[fp_from as int]);
            assert(is_digit(fp[0]));
        }
        10 * (cell[fp_from] as u32 - 48) as i64
    } else {
        proof {
            assert(fp[0] == s[fp_from as int]);
            assert(fp[1] == s[fp_from + 1 as int]);
            assert(is_digit(fp[0]) && is_digit(fp[1]));
        }
        10 * (cell[fp_from] as u32 - 48) as i64 + (cell[fp_from + 1] as u32 - 48) as i64
    };
    proof {
        assert(fc == frac_cents(fp));
        assert(0 <= fc <= 99);
    }
    let cents = units * 100 + fc;
    if cents > crate::price::PRICE_CENTS_LIMIT {
        return None;
    }
    if neg {
        Some(-cents)
    } else {
        Some(cents)
    }
}

/// Parses a volume cell: a decimal number truncated to an integer.
pub fn parse_vol(cell: &Vec<char>) -> (r: Option<i64>)
    ensures
        to_int_opt(r) == spec_parse_vol(cell@),
{
    let ghost s = cell@;
    let n = cell.len();
    let mut from: usize = 0;
    let mut neg = false;
    if n > 0 && (cell[0] == '-' || cell[0] == '+') {
        neg = cell[0] == '-';
        from = 1;
    }
    let ghost body = spec_sign_split(s).1;
    proof {
        assert(body =~= s.skip(from as int));
        assert(neg == spec_sign_split(s).0);
    }
    let dot = find_char_from(cell, from, '.');
    let (ip_from, ip_to, fp_from, fp_to): (usize, usize, usize, usize) = match dot {
        Option::Some(j) => (from, j, j + 1, n),
        Option::None => (from, n, n, n),
    };
    proof {
        match dot {
            Option::Some(j) => {
                assert(body.take(j - from as int) =~= s.subrange(ip_from as int, ip_to as int));
                assert(body.skip(j - from as int + 1) =~= s.subrange(
                    fp_from as int,
                    fp_to as int,
                ));
            },
            Option::None => {
                assert(body =~= s.subrange(ip_from as int, ip_to as int));
                assert(Seq::<char>::empty() =~= s.subrange(fp_from as int, fp_to as int));
            },
        }
    }
    if ip_to - ip_from == 0 && fp_to - fp_from == 0 {
        return None;
    }
    if !all_digits_in(cell, ip_from, ip_to) {
        return None;
    }
    if !all_digits_in(cell, fp_from, fp_to) {
        return None;
    }
    let ghost ip = s.subrange(ip_from as int, ip_to as int);
    match digits_value_capped(cell, ip_from, ip_to, i64::MAX) {
        Option::Some(m) => if neg {
            Some(-m)
        } else {
            Some(m)
        },
        Option::None => {
            proof {
                assert(digits_val(ip) > i64::MAX as int);
            }
            if neg {
                Some(i64::MIN)
            } else {
                Some(i64::MAX)
            }
        },
    }
}

/// Parses an integer cell into an `i32`-ranged value.
pub fn parse_i32_cell(cell: &Vec<char>) -> (r: Option<i32>)
    ensures
        match r {
            Option::Some(x) => spec_parse_i32(cell@) == Option::Some(x as int),
            Option::None => spec_parse_i32(cell@) is None,
        },
{
    let ghost s = cell@;
    let n = cell.len();
    let mut from: usize = 0;
    let mut neg = false;
    if n > 0 && (cell[0] == '-' || cell[0] == '+') {
        neg = cell[0] == '-';
        from = 1;
    }
    let ghost body = spec_sign_split(s).1;
    proof {
        assert(body =~= s.skip(from as int));
        assert(neg == spec_sign_split(s).0);
    }
    if n - from == 0 {
        return None;
    }
    match find_char_from(cell, from, '.') {
        Option::Some(_) => {
            return None;
        },
        Option::None => {},
    }
    if !all_digits_in(cell, from, n) {
        proof {
            assert(body =~= s.subrange(from as int, n as int));
        }
        return None;
    }
    proof {
        assert(body =~= s.subrange(from as int, n as int));
    }
    match digits_value_capped(cell, from, n, 2_147_483_648) {
        Option::Some(m) => {
            if neg {
                Some((-m) as i32)
            } else if m <= 2_147_483_647 {
                Some(m as i32)
            } else {
                None
            }
        },
        Option::None => None,
    }
}

} // verus!
