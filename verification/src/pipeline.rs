//! The per-block normalization pipeline: classify events, collect
//! append keys, resolve writes, exclude, sort and serialize.
use vstd::prelude::*;

use crate::append::{append_key_of, extract_append_key};
use crate::decode::{decode_value, decode_value_exec};
use crate::entry::{entries_view, Entry, EntryView};
use crate::event::{classify, classify_event, EventKind, EventView, RawEvent};
use crate::format::{bare_key, bare_key_exec, contains_key, filter_excluded, included_entries,
    join_entries, render_entries, sort_entries, sort_entries_exec, wrap_braces};
use crate::resolve::{clone_chars, resolve_entries, resolve_writes};
use crate::text::contains_seq;

verus! {

/// Why a block's validation was aborted.
#[derive(Clone, Copy, Debug, PartialEq, Eq, Structural)]
pub enum ValidateError {
    /// The trace document is not valid JSON.
    InvalidJson,
    /// An Append message does not contain the expected `key=value` shape.
    MalformedAppendMessage,
}

/// View of a raw event list.
pub open spec fn events_view(s: Seq<RawEvent>) -> Seq<EventView> {
    s.map_values(|e: RawEvent| e@)
}

/// The key an event contributes to the append-key set, if any.
pub open spec fn event_append_key(e: EventView) -> Option<Seq<char>> {
    match e.message {
        Some(m) => if contains_seq(m, "Append"@) {
            append_key_of(m)
        } else {
            None
        },
        None => None,
    }
}

/// Every Append event's message parses to a key.
pub open spec fn appends_ok(evs: Seq<EventView>) -> bool {
    forall|i: int|
        0 <= i < evs.len() ==> !(#[trigger] classify(evs[i]) is Append && event_append_key(
            evs[i],
        ) is None)
}

/// The append keys of an event list, in first-appearance order, without
/// duplicates.
pub open spec fn append_keys_of(evs: Seq<EventView>) -> Seq<Seq<char>>
    decreases evs.len(),
{
    if evs.len() == 0 {
        Seq::empty()
    } else {
        let rest = append_keys_of(evs.drop_last());
        match event_append_key(evs.last()) {
            Some(k) => if rest.contains(k) {
                rest
            } else {
                rest.push(k)
            },
            None => rest,
        }
    }
}

/// The Write events of an event list, in trace order, as entries whose
/// values are already decoded.
pub open spec fn writes_of(evs: Seq<EventView>) -> Seq<EntryView>
    decreases evs.len(),
{
    if evs.len() == 0 {
        Seq::empty()
    } else {
        let rest = writes_of(evs.drop_last());
        let e = evs.last();
        if classify(e) is Write {
            rest.push(EntryView { key: e.key, val: decode_value(e.value) })
        } else {
            rest
        }
    }
}

/// The canonical diff of an event list: resolved writes, minus entries
/// whose bare key was announced by an Append event, in sorted order.
pub open spec fn diff_entries(evs: Seq<EventView>) -> Seq<EntryView> {
    sort_entries(included_entries(resolve_entries(writes_of(evs)), append_keys_of(evs)))
}

/// The canonical diff text of an event list.
pub open spec fn canonical_text(evs: Seq<EventView>) -> Seq<char> {
    wrap_braces(join_entries(diff_entries(evs)))
}

/// The bare keys of an entry list, in order, without duplicates.
pub open spec fn dedup_bare_keys(s: Seq<EntryView>) -> Seq<Seq<char>>
    decreases s.len(),
{
    if s.len() == 0 {
        Seq::empty()
    } else {
        let rest = dedup_bare_keys(s.drop_last());
        let k = bare_key(s.last().key);
        if rest.contains(k) {
            rest
        } else {
            rest.push(k)
        }
    }
}

/// The keys that appear in the canonical diff, in diff order.
pub open spec fn all_keys_of(evs: Seq<EventView>) -> Seq<Seq<char>> {
    dedup_bare_keys(diff_entries(evs))
}

/// The canonical diff of one block: the keys it mentions, the append
/// keys that were excluded, and the serialized diff text.
pub struct CanonicalDiff {
    pub all_keys: Vec<Vec<char>>,
    pub append_keys: Vec<Vec<char>>,
    pub text: Vec<char>,
}

/// Collects the bare keys of a diff entry list; agrees with
/// [`dedup_bare_keys`].
fn collect_bare_keys(entries: &Vec<Entry>) -> (r: Vec<Vec<char>>)
    ensures
        r.deep_view() == dedup_bare_keys(entries_view(entries@)),
{
    let ghost full = entries_view(entries@);
    let mut out: Vec<Vec<char>> = Vec::new();
    let mut i: usize = 0;
    proof {
        assert(full.subrange(0, 0) =~= Seq::empty());
        assert(out.deep_view() =~~= Seq::empty());
    }
    while i < entries.len()
        invariant
            i <= full.len(),
            full == entries_view(entries@),
            out.deep_view() == dedup_bare_keys(full.subrange(0, i as int)),
        decreases entries.len() - i,
    {
        let ghost pre = full.subrange(0, i + 1);
        proof {
            assert(pre.drop_last() =~= full.subrange(0, i as int));
            assert(pre.last() == full[i as int]);
        }
        let bk = bare_key_exec(&entries[i].key);
        if !contains_key(&out, &bk) {
            let ghost prev = out.deep_view();
            let ghost bkv = bk@;
            out.push(bk);
            proof {
                assert(out.deep_view() =~~= prev.push(bkv));
            }
        }
        i = i + 1;
    }
    proof {
        assert(full.subrange(0, full.len() as int) =~= full);
    }
    out
}

/// Runs the whole normalization pipeline over one block's event list.
///
/// Succeeds if and only if every Append event's message is well formed;
/// the result then carries exactly the canonical diff of the events.
pub fn process_events(events: &Vec<RawEvent>) -> (r: Result<CanonicalDiff, ValidateError>)
    ensures
        match r {
            Ok(d) => appends_ok(events_view(events@)) && d.all_keys.deep_view() == all_keys_of(
                events_view(events@),
            ) && d.append_keys.deep_view() == append_keys_of(events_view(events@))
                && d.text@ == canonical_text(events_view(events@)),
            Err(e) => e is MalformedAppendMessage && !appends_ok(events_view(events@)),
        },
{
    let ghost evs = events_view(events@);
    let mut append_keys: Vec<Vec<char>> = Vec::new();
    let mut writes: Vec<Entry> = Vec::new();
    let mut i: usize = 0;
    proof {
        assert(evs.subrange(0, 0) =~= Seq::empty());
        assert(append_keys.deep_view() =~~= Seq::empty());
        assert(entries_view(writes@) =~= Seq::empty());
    }
    while i < events.len()
        invariant
            i <= evs.len(),
            evs == events_view(events@),
            append_keys.deep_view() == append_keys_of(evs.subrange(0, i as int)),
            entries_view(writes@) == writes_of(evs.subrange(0, i as int)),
            appends_ok(evs.subrange(0, i as int)),
        decreases events.len() - i,
    {
        let ghost pre = evs.subrange(0, i + 1);
        proof {
            assert(pre.drop_last() =~= evs.subrange(0, i as int));
            assert(pre.last() == evs[i as int]);
        }
        let e = &events[i];
        assert(evs[i as int] == e@);
        let kind = classify_event(e);
        if kind == EventKind::Append {
            match &e.message {
                Some(m) => {
                    match extract_append_key(m) {
                        Some(k) => {
                            assert(event_append_key(evs[i as int]) == Some(k@));
                            if !contains_key(&append_keys, &k) {
                                let ghost prev = append_keys.deep_view();
                                let ghost kv = k@;
                                append_keys.push(k);
                                proof {
                                    assert(append_keys.deep_view() =~~= prev.push(kv));
                                }
                            }
                        },
                        None => {
                            assert(event_append_key(evs[i as int]) is None);
                            assert(!appends_ok(evs));
                            return Err(ValidateError::MalformedAppendMessage);
                        },
                    }
                },
                None => {
                    proof {
                        assert(classify(evs[i as int]) is Append);
                        assert(false);
                    }
                },
            }
        } else {
            assert(event_append_key(evs[i as int]) is None);
            if kind == EventKind::Write {
                let dec = decode_value_exec(&e.value);
                let ghost prev = entries_view(writes@);
                writes.push(Entry { key: clone_chars(&e.key), val: dec });
                proof {
                    assert(entries_view(writes@) =~= prev.push(
                        EntryView {
                            key: evs[i as int].key,
                            val: decode_value(evs[i as int].value),
                        },
                    ));
                }
            }
        }
        i = i + 1;
    }
    proof {
        assert(evs.subrange(0, evs.len() as int) =~= evs);
    }
    let resolved = resolve_writes(&writes);
    let included = filter_excluded(&resolved, &append_keys);
    let sorted = sort_entries_exec(&included);
    let text = render_entries(&sorted);
    let all_keys = collect_bare_keys(&sorted);
    Ok(CanonicalDiff { all_keys, append_keys, text })
}

} // verus!
