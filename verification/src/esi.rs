//! The remote-catalog boundary: response shaping and the per-id caches.
//!
//! Network fetching is the embedding application's concern.  The library
//! owns what is decidable without the network: stripping the markup tags
//! from type descriptions, bounding a price history to its most recent
//! entries, and the time-bounded per-id cache that decides when a fetch
//! is needed at all.
use crate::text::{find_char_from, str_to_chars, chars_to_string};
use std::collections::HashMap;
use vstd::prelude::*;
use vstd::string::*;

verus! {

broadcast use vstd::std_specs::hash::group_hash_axioms;

/// How long a cached catalog answer stays fresh.
pub const CACHE_TTL_MS: u64 = 3_600_000;

/// Fetch timeout for one type-info request, in milliseconds.
pub const TYPE_FETCH_TIMEOUT_MS: u64 = 10_000;

/// Fetch timeout for one price-history request, in milliseconds.
pub const HISTORY_FETCH_TIMEOUT_MS: u64 = 15_000;

/// How many of the newest history entries are kept.
pub const HISTORY_KEPT: usize = 30;

/// The catalog data shown for one item type.
#[derive(Debug, Clone)]
pub struct TypeInfo {
    pub type_id: i32,
    pub name: String,
    pub description: String,
    pub icon_url: String,
}

/// The raw catalog answer for one item type.
#[derive(Debug, Clone)]
pub struct EsiTypeResponse {
    pub type_id: i32,
    pub name: String,
    pub description: String,
}

/// Markup removal: every `<`...`>` span with at least one character
/// between the brackets disappears; everything else stays.
pub open spec fn strip_tags(s: Seq<char>) -> Seq<char>
    decreases s.len(),
{
    if s.len() == 0 {
        s
    } else if s[0] == '<' {
        match s.drop_first().index_of_first('>') {
            Option::Some(k) => if 1 <= k < s.len() - 1 {
                strip_tags(s.skip(k + 2))
            } else {
                seq!['<'] + strip_tags(s.drop_first())
            },
            Option::None => seq!['<'] + strip_tags(s.drop_first()),
        }
    } else {
        seq![s[0]] + strip_tags(s.drop_first())
    }
}

/// Removes the catalog's markup tags from a description.
pub fn clean_description(description: &str) -> (r: String)
    ensures
        r@ == strip_tags(description@),
{
    let v = str_to_chars(description);
    let n = v.len();
    let mut out: Vec<char> = Vec::new();
    let mut i: usize = 0;
    proof {
        assert(v@.skip(0) =~= v@);
        assert(out@ + strip_tags(v@) =~= strip_tags(v@));
    }
    while i < n
        invariant
            0 <= i <= n,
            n == v@.len(),
            strip_tags(v@) == out@ + strip_tags(v@.skip(i as int)),
        decreases n - i,
    {
        let ghost s = v@.skip(i as int);
        let c = v[i];
        proof {
            assert(s[0] == v@[i as int]);
            assert(s.drop_first() =~= v@.skip(i + 1 as int));
        }
        if c == '<' {
            match find_char_from(&v, i + 1, '>') {
                Option::Some(j) => {
                    if j > i + 1 {
                        proof {
                            assert(1 <= j - (i + 1) + 1 < s.len());
                            assert(s.skip(j - (i + 1) + 2) =~= v@.skip(j + 1 as int));
                            assert(strip_tags(s) == strip_tags(v@.skip(j + 1 as int)));
                        }
                        i = j + 1;
                    } else {
                        proof {
                            assert(strip_tags(s) == seq!['<'] + strip_tags(s.drop_first()));
                            assert(out@.push('<') + strip_tags(v@.skip(i + 1 as int)) =~= out@
                                + strip_tags(s));
                        }
                        out.push('<');
                        i = i + 1;
                    }
                },
                Option::None => {
                    proof {
                        assert(strip_tags(s) == seq!['<'] + strip_tags(s.drop_first()));
                        assert(out@.push('<') + strip_tags(v@.skip(i + 1 as int)) =~= out@
                            + strip_tags(s));
                    }
                    out.push('<');
                    i = i + 1;
                },
            }
        } else {
            proof {
                assert(strip_tags(s) == seq![s[0]] + strip_tags(s.drop_first()));
                assert(out@.push(s[0]) + strip_tags(v@.skip(i + 1 as int)) =~= out@ + strip_tags(
                    s,
                ));
            }
            out.push(c);
            i = i + 1;
        }
    }
    proof {
        assert(v@.skip(n as int) =~= Seq::<char>::empty());
        assert(out@ + strip_tags(v@.skip(n as int)) =~= out@);
    }
    chars_to_string(&out)
}

/// Shapes a raw catalog answer for display: the description loses its
/// markup, the icon address passes through.
pub fn make_type_info(resp: EsiTypeResponse, icon_url: String) -> (r: TypeInfo)
    ensures
        r.type_id == resp.type_id,
        r.name@ == resp.name@,
        r.description@ == strip_tags(resp.description@),
        r.icon_url@ == icon_url@,
{
    TypeInfo {
        type_id: resp.type_id,
        name: resp.name,
        description: clean_description(resp.description.as_str()),
        icon_url,
    }
}

/// Keeps only the newest entries of a history, preserving their order.
pub fn keep_last_30<T>(v: Vec<T>) -> (r: Vec<T>)
    ensures
        v@.len() <= HISTORY_KEPT ==> r@ == v@,
        v@.len() > HISTORY_KEPT ==> r@ == v@.skip(v@.len() - HISTORY_KEPT as int),
        r@.len() <= HISTORY_KEPT,
{
    let ghost orig = v@;
    let mut v = v;
    proof {
        assert(orig.skip(0) =~= orig);
    }
    while v.len() > HISTORY_KEPT
        invariant
            v@.len() <= orig.len(),
            v@.len() >= if orig.len() <= HISTORY_KEPT {
                orig.len() as int
            } else {
                HISTORY_KEPT as int
            },
            v@ == orig.skip(orig.len() - v@.len()),
        decreases v@.len(),
    {
        let ghost before = v@;
        v.remove(0);
        proof {
            assert(v@ =~= before.remove(0));
            assert(v@ =~= orig.skip(orig.len() - v@.len()));
        }
    }
    proof {
        if orig.len() <= HISTORY_KEPT {
            assert(orig.skip(0) =~= orig);
        }
    }
    v
}

/// A time-bounded cache keyed by item type id: each stored value carries
/// its expiry instant, and only unexpired values are handed out.
pub struct TtlCache<T> {
    entries: HashMap<i32, (u64, T)>,
}

impl<T> TtlCache<T> {
    /// What the cache holds: expiry instant and value, by id.
    pub closed spec fn contents(self) -> Map<i32, (u64, T)> {
        self.entries@
    }

    /// An empty cache.
    pub fn new() -> (r: Self)
        ensures
            r.contents() == Map::<i32, (u64, T)>::empty(),
    {
        TtlCache { entries: HashMap::new() }
    }

    /// The cached value for an id, if present and not yet expired at
    /// `now_ms`; a miss means absent or expired.
    pub fn lookup(&self, id: i32, now_ms: u64) -> (r: Option<&T>)
        ensures
            match r {
                Option::Some(v) => self.contents().contains_key(id) && self.contents()[id].0
                    > now_ms && *v == self.contents()[id].1,
                Option::None => !self.contents().contains_key(id) || self.contents()[id].0
                    <= now_ms,
            },
    {
        match self.entries.get(&id) {
            Option::Some(entry) => {
                if entry.0 > now_ms {
                    Some(&entry.1)
                } else {
                    None
                }
            },
            Option::None => None,
        }
    }

    /// Stores a fresh value for an id, valid for `ttl_ms` from `now_ms`;
    /// every other id keeps its entry.
    pub fn store(&mut self, id: i32, value: T, now_ms: u64, ttl_ms: u64)
        requires
            now_ms + ttl_ms <= u64::MAX,
        ensures
            final(self).contents() == old(self).contents().insert(
                id,
                ((now_ms + ttl_ms) as u64, value),
            ),
    {
        self.entries.insert(id, (now_ms + ttl_ms, value));
    }
}

} // verus!
