//! The latest-file locator's decision core.
//!
//! The embedding application reads the snapshot directory and hands over
//! one entry per file: its name and, where readable, its modification
//! time.  The library chooses which file to parse: among the entries with
//! the snapshot extension and a readable time, the one modified last,
//! later entries winning ties.  Entries whose metadata could not be read
//! are excluded without failing the scan.
use crate::text::{find_last_before, str_to_chars};
use vstd::prelude::*;
use vstd::string::*;

verus! {

/// One directory entry as the application reports it: the file name and
/// its last-modified time in milliseconds, absent when unreadable.
#[derive(Debug, Clone)]
pub struct FileEntry {
    pub name: String,
    pub modified_ms: Option<u64>,
}

/// Mathematical image of a `FileEntry`.
pub struct EntryV {
    pub name: Seq<char>,
    pub modified_ms: Option<u64>,
}

impl View for FileEntry {
    type V = EntryV;

    open spec fn view(&self) -> EntryV {
        EntryV { name: self.name@, modified_ms: self.modified_ms }
    }
}

pub open spec fn entry_views(s: Seq<FileEntry>) -> Seq<EntryV> {
    s.map_values(|e: FileEntry| e@)
}

/// Whether a file name carries the snapshot extension: a final `txt`
/// after a dot that is not the name's first character.
pub open spec fn is_log_name(s: Seq<char>) -> bool {
    match s.index_of_last('.') {
        Option::None => false,
        Option::Some(d) => d >= 1 && s.skip(d + 1) == seq!['t', 'x', 't'],
    }
}

/// A considered entry: snapshot extension and readable metadata.
pub open spec fn is_candidate(e: EntryV) -> bool {
    is_log_name(e.name) && e.modified_ms is Some
}

pub open spec fn mtime(e: EntryV) -> u64 {
    match e.modified_ms {
        Option::Some(t) => t,
        Option::None => 0,
    }
}

/// The index of the chosen entry: the candidate with the greatest
/// modification time, the later of two equal ones.
pub open spec fn spec_select(entries: Seq<EntryV>) -> Option<int>
    decreases entries.len(),
{
    if entries.len() == 0 {
        Option::None
    } else {
        let rest = spec_select(entries.drop_last());
        let e = entries.last();
        if is_candidate(e) {
            match rest {
                Option::None => Option::Some(entries.len() - 1),
                Option::Some(i) => if mtime(e) >= mtime(entries[i]) {
                    Option::Some(entries.len() - 1)
                } else {
                    Option::Some(i)
                },
            }
        } else {
            rest
        }
    }
}

/// The chosen entry is a candidate of maximal modification time, and
/// nothing is chosen exactly when no candidate exists.
pub proof fn lemma_select_is_max(entries: Seq<EntryV>)
    ensures
        spec_select(entries) is None ==> forall|j: int|
            0 <= j < entries.len() ==> !is_candidate(#[trigger] entries[j]),
        spec_select(entries) matches Option::Some(i) ==> 0 <= i < entries.len() && is_candidate(
            entries[i],
        ) && forall|j: int|
            0 <= j < entries.len() && is_candidate(#[trigger] entries[j]) ==> mtime(entries[j])
                <= mtime(entries[i]),
    decreases entries.len(),
{
    if entries.len() > 0 {
        lemma_select_is_max(entries.drop_last());
        assert forall|j: int| 0 <= j < entries.len() - 1 implies entries.drop_last()[j]
            == entries[j] by {}
    }
}

fn is_log_file(name: &str) -> (r: bool)
    ensures
        r == is_log_name(name@),
{
    let v = str_to_chars(name);
    let n = v.len();
    proof {
        assert(v@.take(n as int) =~= v@);
    }
    match find_last_before(&v, n, '.') {
        Option::None => false,
        Option::Some(d) => {
            if d >= 1 && n - d - 1 == 3 && v[d + 1] == 't' && v[d + 2] == 'x' && v[d + 3] == 't' {
                proof {
                    assert(v@.skip(d + 1 as int) =~= seq!['t', 'x', 't']);
                }
                true
            } else {
                proof {
                    assert(v@.skip(d + 1 as int).len() == n - d - 1);
                    if d >= 1 && n - d - 1 == 3 {
                        assert(v@.skip(d + 1 as int)[0] == v@[d + 1 as int]);
                        assert(v@.skip(d + 1 as int)[1] == v@[d + 2 as int]);
                        assert(v@.skip(d + 1 as int)[2] == v@[d + 3 as int]);
                        assert(seq!['t', 'x', 't'][0] == 't');
                        assert(seq!['t', 'x', 't'][1] == 'x');
                        assert(seq!['t', 'x', 't'][2] == 't');
                        assert(v@.skip(d + 1 as int) != seq!['t', 'x', 't']);
                    } else {
                        assert(seq!['t', 'x', 't'].len() == 3);
                        assert(v@.skip(d + 1 as int) != seq!['t', 'x', 't'] || d == 0);
                    }
                }
                false
            }
        },
    }
}

/// Chooses the entry to parse, as an index into the given list.
pub fn select_latest(entries: &Vec<FileEntry>) -> (r: Option<usize>)
    ensures
        match r {
            Option::None => spec_select(entry_views(entries@)) is None,
            Option::Some(i) => i < entries@.len() && spec_select(entry_views(entries@))
                == Option::Some(i as int),
        },
{
    let ghost es = entry_views(entries@);
    let n = entries.len();
    let mut best: Option<usize> = None;
    let mut i: usize = 0;
    proof {
        assert(es.take(0) =~= Seq::<EntryV>::empty());
    }
    while i < n
        invariant
            0 <= i <= n,
            n == es.len(),
            match best {
                Option::None => spec_select(es.take(i as int)) is None,
                Option::Some(b) => b < i && spec_select(es.take(i as int)) == Option::Some(
                    b as int,
                ),
            },
        decreases n - i,
    {
        proof {
            assert(es.take(i + 1).drop_last() =~= es.take(i as int));
            assert(es.take(i + 1).last() == es[i as int]);
            assert(es[i as int] == entries@[i as int]@);
            assert forall|k: int| 0 <= k < i implies es.take(i + 1)[k] == es[k] by {}
        }
        let e = &entries[i];
        let cand = is_log_file(&e.name) && e.modified_ms.is_some();
        if cand {
            let t = match e.modified_ms {
                Option::Some(t) => t,
                Option::None => 0,
            };
            match best {
                Option::None => {
                    best = Some(i);
                },
                Option::Some(b) => {
                    let bt = match &entries[b].modified_ms {
                        Option::Some(bt) => *bt,
                        Option::None => 0,
                    };
                    proof {
                        assert(es[b as int] == entries@[b as int]@);
                        assert(es.take(i as int)[b as int] == es[b as int]);
                    }
                    if t >= bt {
                        best = Some(i);
                    }
                },
            }
        }
        i = i + 1;
    }
    proof {
        assert(es.take(n as int) =~= es);
    }
    best
}

} // verus!
