//! The filename grammar for display metadata.
//!
//! A snapshot file is named `<Region>-<ItemName>-<Timestamp>.txt` with a
//! timestamp shaped like `YYYY.MM.DD HHMMSS`.  On a match the item name and
//! timestamp are extracted; otherwise the whole extension-stripped name
//! falls back to the item-name slot and the timestamp is absent.
use crate::text::{
    all_digits, all_digits_in, chars_to_string, copy_range, find_last_before, is_digit, is_ws,
    is_ws_char, str_to_chars,
};
use vstd::prelude::*;
use vstd::string::*;

verus! {

/// Whether the name still ends in the snapshot extension.
pub open spec fn txt_suffix(s: Seq<char>) -> bool {
    s.len() >= 4 && s[s.len() - 4] == '.' && s[s.len() - 3] == 't' && s[s.len() - 2] == 'x'
        && s[s.len() - 1] == 't'
}

/// The name with every trailing `.txt` removed.
pub open spec fn strip_txt(s: Seq<char>) -> Seq<char>
    decreases s.len(),
{
    if txt_suffix(s) {
        strip_txt(s.take(s.len() - 4))
    } else {
        s
    }
}

/// The length of the run of whitespace the sequence starts with.
pub open spec fn ws_run(s: Seq<char>) -> int
    decreases s.len(),
{
    if s.len() > 0 && is_ws(s[0]) {
        1 + ws_run(s.drop_first())
    } else {
        0
    }
}

proof fn lemma_ws_run(s: Seq<char>, k: int)
    requires
        0 <= k <= s.len(),
        forall|j: int| 0 <= j < k ==> is_ws(s[j]),
        k == s.len() || !is_ws(s[k]),
    ensures
        ws_run(s) == k,
    decreases k,
{
    if k > 0 {
        lemma_ws_run(s.drop_first(), k - 1);
    }
}

/// The timestamp shape: `dddd.dd.dd`, whitespace, then digits to the end.
pub open spec fn spec_is_timestamp(s: Seq<char>) -> bool {
    &&& s.len() >= 12
    &&& is_digit(s[0])
    &&& is_digit(s[1])
    &&& is_digit(s[2])
    &&& is_digit(s[3])
    &&& s[4] == '.'
    &&& is_digit(s[5])
    &&& is_digit(s[6])
    &&& s[7] == '.'
    &&& is_digit(s[8])
    &&& is_digit(s[9])
    &&& ws_run(s.skip(10)) >= 1
    &&& 10 + ws_run(s.skip(10)) < s.len()
    &&& all_digits(s.skip(10 + ws_run(s.skip(10))))
}

/// What filename parsing yields: the item name and the timestamp, or the
/// stripped name alone when the pattern does not match.
pub open spec fn spec_parse_filename(f: Option<Seq<char>>) -> (Option<Seq<char>>, Option<
    Seq<char>,
>) {
    match f {
        Option::None => (Option::None, Option::None),
        Option::Some(fname) => {
            let name = strip_txt(fname);
            match name.index_of_last('-') {
                Option::None => (Option::Some(name), Option::None),
                Option::Some(d2) => {
                    let ts = name.skip(d2 + 1);
                    if spec_is_timestamp(ts) && d2 >= 2 {
                        match name.take(d2 - 1).index_of_last('-') {
                            Option::None => (Option::Some(name), Option::None),
                            Option::Some(d1) => if d1 >= 1 {
                                (
                                    Option::Some(name.subrange(d1 + 1, d2)),
                                    Option::Some(ts),
                                )
                            } else {
                                (Option::Some(name), Option::None)
                            },
                        }
                    } else {
                        (Option::Some(name), Option::None)
                    }
                },
            }
        },
    }
}

pub open spec fn opt_string_view(o: Option<String>) -> Option<Seq<char>> {
    match o {
        Option::Some(s) => Option::Some(s@),
        Option::None => Option::None,
    }
}

pub open spec fn opt_str_view(o: Option<&str>) -> Option<Seq<char>> {
    match o {
        Option::Some(s) => Option::Some(s@),
        Option::None => Option::None,
    }
}

fn has_txt_suffix(v: &Vec<char>) -> (r: bool)
    ensures
        r == txt_suffix(v@),
{
    let n = v.len();
    n >= 4 && v[n - 4] == '.' && v[n - 3] == 't' && v[n - 2] == 'x' && v[n - 1] == 't'
}

fn strip_txt_vec(v: Vec<char>) -> (r: Vec<char>)
    ensures
        r@ == strip_txt(v@),
{
    let ghost orig = v@;
    let mut v = v;
    while has_txt_suffix(&v)
        invariant
            strip_txt(v@) == strip_txt(orig),
        decreases v@.len(),
    {
        let n = v.len();
        v.truncate(n - 4);
    }
    v
}

/// Checks the timestamp shape on the suffix `v[from..]`.
fn is_timestamp_at(v: &Vec<char>, from: usize) -> (r: bool)
    requires
        from <= v@.len(),
    ensures
        r == spec_is_timestamp(v@.skip(from as int)),
{
    let ghost s = v@.skip(from as int);
    let n = v.len();
    if n - from < 12 {
        return false;
    }
    proof {
        assert forall|k: int| 0 <= k < s.len() implies s[k] == v@[from + k] by {}
    }
    if !(48 <= v[from] as u32 && v[from] as u32 <= 57) {
        return false;
    }
    if !(48 <= v[from + 1] as u32 && v[from + 1] as u32 <= 57) {
        return false;
    }
    if !(48 <= v[from + 2] as u32 && v[from + 2] as u32 <= 57) {
        return false;
    }
    if !(48 <= v[from + 3] as u32 && v[from + 3] as u32 <= 57) {
        return false;
    }
    if v[from + 4] != '.' {
        return false;
    }
    if !(48 <= v[from + 5] as u32 && v[from + 5] as u32 <= 57) {
        return false;
    }
    if !(48 <= v[from + 6] as u32 && v[from + 6] as u32 <= 57) {
        return false;
    }
    if v[from + 7] != '.' {
        return false;
    }
    if !(48 <= v[from + 8] as u32 && v[from + 8] as u32 <= 57) {
        return false;
    }
    if !(48 <= v[from + 9] as u32 && v[from + 9] as u32 <= 57) {
        return false;
    }
    let mut j = from + 10;
    while j < n && is_ws_char(v[j])
        invariant
            from + 10 <= j <= n,
            forall|i: int| from + 10 <= i < j ==> is_ws(v@[i]),
        decreases n - j,
    {
        j = j + 1;
    }
    proof {
        let t = s.skip(10);
        assert forall|k: int| 0 <= k < t.len() implies t[k] == v@[from + 10 + k] by {}
        lemma_ws_run(t, j - (from + 10) as int);
    }
    let w = j - (from + 10);
    if w < 1 {
        return false;
    }
    if j >= n {
        return false;
    }
    let digits_ok = all_digits_in(v, j, n);
    proof {
        assert(s.skip(10 + ws_run(s.skip(10))) =~= v@.subrange(j as int, n as int));
    }
    digits_ok
}

/// Derives the display item name and timestamp from a snapshot filename.
pub fn parse_filename(filename: Option<&str>) -> (r: (Option<String>, Option<String>))
    ensures
        (opt_string_view(r.0), opt_string_view(r.1)) == spec_parse_filename(
            opt_str_view(filename),
        ),
{
    let f = match filename {
        Option::Some(f) => f,
        Option::None => {
            return (None, None);
        },
    };
    let name = strip_txt_vec(str_to_chars(f));
    let n = name.len();
    proof {
        assert(name@.take(n as int) =~= name@);
    }
    let d2 = match find_last_before(&name, n, '-') {
        Option::None => {
            return (Some(chars_to_string(&name)), None);
        },
        Option::Some(d2) => d2,
    };
    if !is_timestamp_at(&name, d2 + 1) || d2 < 2 {
        return (Some(chars_to_string(&name)), None);
    }
    let d1 = match find_last_before(&name, d2 - 1, '-') {
        Option::None => {
            return (Some(chars_to_string(&name)), None);
        },
        Option::Some(d1) => d1,
    };
    if d1 < 1 {
        return (Some(chars_to_string(&name)), None);
    }
    let item = copy_range(&name, d1 + 1, d2);
    let ts = copy_range(&name, d2 + 1, n);
    proof {
        assert(name@.subrange(d2 + 1 as int, n as int) =~= name@.skip(d2 + 1 as int));
    }
    (Some(chars_to_string(&item)), Some(chars_to_string(&ts)))
}

} // verus!
