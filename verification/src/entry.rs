//! Resolved key/value entries and the fixed deterministic ordering the
//! canonical formatter sorts them by: key length ascending first, then
//! lexicographic key order, then (for duplicate keys) lexicographic
//! value order as a tie breaker.
use vstd::prelude::*;

use vstd::relations::total_ordering;

use crate::text::{chars_eq, lemma_lex_le_total, lemma_lex_le_trans, lex_le, lex_le_exec};

verus! {

/// One resolved key/value pair, both in their rendered textual form.
pub struct Entry {
    pub key: Vec<char>,
    pub val: Vec<char>,
}

/// Mathematical image of an [`Entry`].
#[verifier::ext_equal]
pub struct EntryView {
    pub key: Seq<char>,
    pub val: Seq<char>,
}

impl View for Entry {
    type V = EntryView;

    open spec fn view(&self) -> EntryView {
        EntryView { key: self.key@, val: self.val@ }
    }
}

/// View of a sequence of entries.
pub open spec fn entries_view(s: Seq<Entry>) -> Seq<EntryView> {
    s.map_values(|e: Entry| e@)
}

/// The formatter's ordering: shorter keys first, equal-length keys in
/// lexicographic order, and equal keys ordered by their values so that
/// the relation is a total order on entries.
pub open spec fn entry_le(a: EntryView, b: EntryView) -> bool {
    if a.key.len() != b.key.len() {
        a.key.len() < b.key.len()
    } else if a.key == b.key {
        lex_le(a.val, b.val)
    } else {
        lex_le(a.key, b.key)
    }
}

/// [`entry_le`] as a relation value, for use with vstd's ordering lemmas.
pub open spec fn entry_le_fn() -> spec_fn(EntryView, EntryView) -> bool {
    |a: EntryView, b: EntryView| entry_le(a, b)
}

/// `entry_le` is a total order on entry views.
pub proof fn lemma_entry_le_total_ordering()
    ensures
        total_ordering(entry_le_fn()),
{
    let leq = entry_le_fn();
    assert forall|a: EntryView, b: EntryView| #[trigger] leq(a, b) || #[trigger] leq(b, a) by {
        lemma_lex_le_total(a.key, b.key);
        lemma_lex_le_total(a.val, b.val);
    }
    assert forall|a: EntryView, b: EntryView| #[trigger] leq(a, b) && #[trigger] leq(b, a)
        implies a == b by {
        lemma_lex_le_total(a.key, b.key);
        lemma_lex_le_total(a.val, b.val);
        assert(a =~= b);
    }
    assert forall|a: EntryView, b: EntryView, c: EntryView|
        #[trigger] leq(a, b) && #[trigger] leq(b, c) implies leq(a, c) by {
        if a.key.len() == b.key.len() && b.key.len() == c.key.len() {
            if a.key == b.key && b.key == c.key {
                lemma_lex_le_trans(a.val, b.val, c.val);
            } else if a.key == b.key {
                assert(lex_le(a.key, c.key) == lex_le(b.key, c.key));
            } else if b.key == c.key {
                assert(lex_le(a.key, c.key) == lex_le(a.key, b.key));
            } else {
                lemma_lex_le_trans(a.key, b.key, c.key);
                if a.key == c.key {
                    lemma_lex_le_total(a.key, b.key);
                    lemma_lex_le_total(b.key, c.key);
                }
            }
        }
    }
}

/// Decides [`entry_le`] on two entries.
pub fn entry_le_exec(a: &Entry, b: &Entry) -> (r: bool)
    ensures
        r == entry_le(a@, b@),
{
    if a.key.len() != b.key.len() {
        a.key.len() < b.key.len()
    } else if chars_eq(&a.key, &b.key) {
        lex_le_exec(&a.val, &b.val)
    } else {
        lex_le_exec(&a.key, &b.key)
    }
}

} // verus!
