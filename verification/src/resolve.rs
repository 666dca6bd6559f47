//! Write resolution: of all Write events for one key, only the
//! chronologically latest survives. The write list is scanned newest
//! first and only the first occurrence of each key is kept.
use vstd::prelude::*;

use crate::entry::{entries_view, Entry, EntryView};
use crate::text::{chars_eq, push_range};

verus! {

/// Whether some entry in `s` carries the key `k`.
pub open spec fn has_key(s: Seq<EntryView>, k: Seq<char>) -> bool {
    exists|i: int| 0 <= i < s.len() && s[i].key == k
}

/// The resolved entry list of a chronologically ordered write list:
/// entries appear newest first, one per key, each carrying the value of
/// the latest write for its key.
pub open spec fn resolve_entries(ws: Seq<EntryView>) -> Seq<EntryView>
    decreases ws.len(),
{
    if ws.len() == 0 {
        Seq::empty()
    } else {
        let rest = resolve_entries(ws.drop_first());
        if has_key(rest, ws[0].key) {
            rest
        } else {
            rest.push(ws[0])
        }
    }
}

/// Copies a character vector.
pub fn clone_chars(v: &Vec<char>) -> (r: Vec<char>)
    ensures
        r@ == v@,
{
    let mut out: Vec<char> = Vec::new();
    push_range(&mut out, v, 0, v.len());
    assert(v@.subrange(0, v@.len() as int) =~= v@);
    out
}

/// Copies an entry.
pub fn clone_entry(e: &Entry) -> (r: Entry)
    ensures
        r@ == e@,
{
    Entry { key: clone_chars(&e.key), val: clone_chars(&e.val) }
}

/// Decides [`has_key`] on an entry vector.
pub fn has_key_exec(s: &Vec<Entry>, k: &Vec<char>) -> (r: bool)
    ensures
        r == has_key(entries_view(s@), k@),
{
    let mut i: usize = 0;
    while i < s.len()
        invariant
            i <= s.len(),
            forall|j: int| 0 <= j < i ==> entries_view(s@)[j].key != k@,
        decreases s.len() - i,
    {
        if chars_eq(&s[i].key, k) {
            assert(entries_view(s@)[i as int].key == k@);
            return true;
        }
        i = i + 1;
    }
    false
}

/// Resolves a chronologically ordered write list; agrees with
/// [`resolve_entries`].
pub fn resolve_writes(ws: &Vec<Entry>) -> (r: Vec<Entry>)
    ensures
        entries_view(r@) == resolve_entries(entries_view(ws@)),
{
    let ghost full = entries_view(ws@);
    let mut out: Vec<Entry> = Vec::new();
    let mut i: usize = ws.len();
    proof {
        assert(full.subrange(ws@.len() as int, ws@.len() as int) =~= Seq::empty());
        assert(entries_view(out@) =~= Seq::empty());
    }
    while i > 0
        invariant
            i <= ws@.len(),
            full == entries_view(ws@),
            entries_view(out@) == resolve_entries(full.subrange(i as int, full.len() as int)),
        decreases i,
    {
        i = i - 1;
        let ghost tail = full.subrange(i as int, full.len() as int);
        proof {
            assert(tail.drop_first() =~= full.subrange(i + 1, full.len() as int));
            assert(tail[0] == full[i as int]);
        }
        let e = &ws[i];
        if !has_key_exec(&out, &e.key) {
            let ghost prev = entries_view(out@);
            out.push(clone_entry(e));
            proof {
                assert(entries_view(out@) =~= prev.push(e@));
            }
        }
    }
    proof {
        assert(full.subrange(0, full.len() as int) =~= full);
    }
    out
}

} // verus!
