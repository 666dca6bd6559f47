//! The library's laws: statements that relate several pipeline steps,
//! proved once and for all inputs.
use vstd::prelude::*;

use vstd::relations::sorted_by;

use crate::decode::{decode_value, null_marker};
use crate::entry::{entry_le, entry_le_fn, lemma_entry_le_total_ordering, EntryView};
use crate::event::{classify, EventView};
use crate::format::{bare_key, display_key, excluded, included_entries, insert_sorted,
    join_entries, render_entry, sort_entries, wrap_braces};
use crate::pipeline::{all_keys_of, append_keys_of, canonical_text, dedup_bare_keys, diff_entries,
    event_append_key, writes_of};
use crate::resolve::{has_key, resolve_entries};
use crate::text::{contains_seq, insert_after_first, occurs_at, remove_all};

verus! {

broadcast use vstd::seq_lib::group_to_multiset_ensures, vstd::multiset::group_multiset_axioms;

/// Decoding, null case: the quoted literal `None` always decodes to
/// the null marker.
pub proof fn lemma_decode_none()
    ensures
        decode_value("\"None\""@) == null_marker(),
{
}

/// A hex payload: nothing but the digits `0` to `9` and `a` to `f`.
pub open spec fn is_hex_payload(s: Seq<char>) -> bool {
    forall|i: int|
        0 <= i < s.len() ==> (48 <= (#[trigger] s[i]) as u32 <= 57) || (97 <= s[i] as u32 <= 102)
}

/// Removing a pattern passes over any stretch that never shows the
/// pattern's first character.
proof fn lemma_remove_all_prefix_clean(x: Seq<char>, rest: Seq<char>, pat: Seq<char>)
    requires
        pat.len() > 0,
        forall|i: int| 0 <= i < x.len() ==> (#[trigger] x[i]) != pat[0],
    ensures
        remove_all(x + rest, pat) == x + remove_all(rest, pat),
    decreases x.len(),
{
    if x.len() == 0 {
        assert(x + rest =~= rest);
        assert(x + remove_all(rest, pat) =~= remove_all(rest, pat));
    } else {
        let s = x + rest;
        assert(s[0] == x[0]);
        if s.len() < pat.len() {
            assert(rest.len() < pat.len());
            assert(remove_all(rest, pat) == rest);
        } else {
            if s.subrange(0, pat.len() as int) == pat {
                assert(s.subrange(0, pat.len() as int)[0] == s[0]);
                assert(false);
            }
            assert(s.drop_first() =~= x.drop_first() + rest);
            lemma_remove_all_prefix_clean(x.drop_first(), rest, pat);
            assert(seq![s[0]] + (x.drop_first() + remove_all(rest, pat)) =~= x + remove_all(
                rest,
                pat,
            ));
        }
    }
}

/// Decoding, wrapped case: any quoted `Some(...)` literal around a hex
/// payload decodes to the quoted payload with a `0x` prefix.
pub proof fn lemma_decode_some_wrapped(x: Seq<char>)
    requires
        is_hex_payload(x),
    ensures
        decode_value(seq!['"'] + "Some("@ + x + seq![')', '"']) == seq!['"'] + "0x"@ + x
            + seq!['"'],
{
    reveal_strlit("Some(");
    reveal_strlit(")");
    reveal_strlit("\"None\"");
    reveal_strlit("0x");
    let v = seq!['"'] + "Some("@ + x + seq![')', '"'];
    assert(v.len() == x.len() + 8);
    assert(v != "\"None\""@);
    let pat1 = "Some("@;
    assert(pat1[0] == 'S');
    let tail1 = "Some("@ + x + seq![')', '"'];
    assert(v =~= seq!['"'] + tail1);
    assert(forall|i: int| 0 <= i < seq!['"'].len() ==> (#[trigger] seq!['"'][i]) != pat1[0]);
    lemma_remove_all_prefix_clean(seq!['"'], tail1, pat1);
    assert(tail1.subrange(0, 5) =~= pat1);
    assert(remove_all(tail1, pat1) == remove_all(tail1.subrange(5, tail1.len() as int), pat1));
    assert(tail1.subrange(5, tail1.len() as int) =~= x + seq![')', '"']);
    assert(forall|i: int| 0 <= i < x.len() ==> (#[trigger] x[i]) != pat1[0]);
    lemma_remove_all_prefix_clean(x, seq![')', '"'], pat1);
    assert(remove_all(seq![')', '"'], pat1) == seq![')', '"']);
    let r1 = remove_all(v, pat1);
    assert(r1 =~= seq!['"'] + x + seq![')', '"']);

    let pat2 = ")"@;
    assert(pat2 =~= seq![')']);
    let pre2 = seq!['"'] + x;
    assert(forall|i: int| 0 <= i < pre2.len() ==> (#[trigger] pre2[i]) != pat2[0]);
    assert(r1 =~= pre2 + seq![')', '"']);
    lemma_remove_all_prefix_clean(pre2, seq![')', '"'], pat2);
    let in2 = seq![')', '"'];
    assert(in2.subrange(0, 1) =~= pat2);
    assert(remove_all(in2, pat2) == remove_all(in2.subrange(1, 2), pat2));
    assert(in2.subrange(1, 2) =~= seq!['"']);
    assert(seq!['"'].subrange(0, 1) =~= seq!['"']);
    assert(seq!['"'].subrange(0, 1) != pat2);
    assert(seq!['"'].drop_first() =~= Seq::<char>::empty());
    assert(remove_all(seq!['"'], pat2) =~= seq!['"'] + remove_all(Seq::<char>::empty(), pat2));
    let r2 = remove_all(r1, pat2);
    assert(r2 =~= seq!['"'] + x + seq!['"']);

    assert(r2[0] == '"');
    assert(crate::text::find_char(r2, '"') == Some(0int));
    assert(insert_after_first(r2, '"', "0x"@) == r2.subrange(0, 1) + "0x"@ + r2.subrange(
        1,
        r2.len() as int,
    ));
    assert(r2.subrange(0, 1) =~= seq!['"']);
    assert(r2.subrange(1, r2.len() as int) =~= x + seq!['"']);
    assert(decode_value(v) =~= seq!['"'] + "0x"@ + x + seq!['"']);
}

/// `has_key` looks one entry deeper.
proof fn lemma_has_key_unfold(s: Seq<EntryView>, k: Seq<char>)
    requires
        s.len() > 0,
    ensures
        has_key(s, k) == (s[0].key == k || has_key(s.drop_first(), k)),
{
    if has_key(s, k) {
        let i = choose|i: int| 0 <= i < s.len() && s[i].key == k;
        if i > 0 {
            assert(s.drop_first()[i - 1].key == k);
        }
    }
    if has_key(s.drop_first(), k) {
        let i = choose|i: int| 0 <= i < s.drop_first().len() && s.drop_first()[i].key == k;
        assert(s[i + 1].key == k);
    }
}

/// `has_key` over a push.
proof fn lemma_has_key_push(s: Seq<EntryView>, e: EntryView, k: Seq<char>)
    ensures
        has_key(s.push(e), k) == (has_key(s, k) || e.key == k),
{
    if has_key(s.push(e), k) {
        let i = choose|i: int| 0 <= i < s.push(e).len() && s.push(e)[i].key == k;
        if i < s.len() {
            assert(s[i].key == k);
        }
    }
    if has_key(s, k) {
        let i = choose|i: int| 0 <= i < s.len() && s[i].key == k;
        assert(s.push(e)[i].key == k);
    }
    if e.key == k {
        assert(s.push(e)[s.len() as int].key == k);
    }
}

/// Resolution neither invents nor loses keys.
proof fn lemma_resolve_has_key(ws: Seq<EntryView>, k: Seq<char>)
    ensures
        has_key(resolve_entries(ws), k) == has_key(ws, k),
    decreases ws.len(),
{
    if ws.len() == 0 {
    } else {
        lemma_resolve_has_key(ws.drop_first(), k);
        lemma_has_key_unfold(ws, k);
        let rest = resolve_entries(ws.drop_first());
        if has_key(rest, ws[0].key) {
            lemma_resolve_has_key(ws.drop_first(), ws[0].key);
        } else {
            lemma_has_key_push(rest, ws[0], k);
        }
    }
}

/// The resolved diff holds at most one entry per key.
pub proof fn lemma_resolved_keys_unique(ws: Seq<EntryView>)
    ensures
        forall|m: int, n: int|
            0 <= m < n < resolve_entries(ws).len() ==> (#[trigger] resolve_entries(ws)[m]).key
                != (#[trigger] resolve_entries(ws)[n]).key,
    decreases ws.len(),
{
    if ws.len() > 0 {
        lemma_resolved_keys_unique(ws.drop_first());
        let rest = resolve_entries(ws.drop_first());
        let r = resolve_entries(ws);
        if !has_key(rest, ws[0].key) {
            assert forall|m: int, n: int| 0 <= m < n < r.len() implies (#[trigger] r[m]).key
                != (#[trigger] r[n]).key by {
                if n < rest.len() {
                    assert(r[m] == rest[m] && r[n] == rest[n]);
                } else {
                    assert(r[n] == ws[0]);
                    assert(r[m] == rest[m]);
                    if rest[m].key == ws[0].key {
                        assert(has_key(rest, ws[0].key));
                    }
                }
            }
        }
    }
}

/// Recency (last write wins): when `j` indexes the chronologically
/// last Write for its key, the resolved diff carries exactly that
/// event's entry for the key, however many other keys are interleaved.
pub proof fn lemma_write_recency(ws: Seq<EntryView>, j: int)
    requires
        0 <= j < ws.len(),
        forall|l: int| j < l < ws.len() ==> (#[trigger] ws[l]).key != ws[j].key,
    ensures
        resolve_entries(ws).contains(ws[j]),
        forall|m: int|
            0 <= m < resolve_entries(ws).len() && (#[trigger] resolve_entries(ws)[m]).key
                == ws[j].key ==> resolve_entries(ws)[m] == ws[j],
    decreases ws.len(),
{
    let r = resolve_entries(ws);
    let rest = resolve_entries(ws.drop_first());
    if j == 0 {
        assert(!has_key(ws.drop_first(), ws[0].key)) by {
            if has_key(ws.drop_first(), ws[0].key) {
                let i = choose|i: int|
                    0 <= i < ws.drop_first().len() && ws.drop_first()[i].key == ws[0].key;
                assert(ws[i + 1].key == ws[0].key);
            }
        }
        lemma_resolve_has_key(ws.drop_first(), ws[0].key);
        assert(r == rest.push(ws[0]));
        assert(r[r.len() - 1] == ws[0]);
        assert(r.contains(ws[j]));
        assert forall|m: int| 0 <= m < r.len() && (#[trigger] r[m]).key == ws[j].key implies r[m]
            == ws[j] by {
            if m < rest.len() {
                assert(rest[m].key == ws[0].key);
                assert(has_key(rest, ws[0].key));
            }
        }
    } else {
        let d = ws.drop_first();
        assert forall|l: int| j - 1 < l < d.len() implies (#[trigger] d[l]).key != d[j - 1].key by {
            assert(d[l] == ws[l + 1]);
            assert(d[j - 1] == ws[j]);
        }
        lemma_write_recency(d, j - 1);
        assert(d[j - 1] == ws[j]);
        if has_key(rest, ws[0].key) {
            assert(r == rest);
        } else {
            assert(r == rest.push(ws[0]));
            let i = choose|i: int| 0 <= i < rest.len() && rest[i] == ws[j];
            assert(r[i] == ws[j]);
            assert(r.contains(ws[j]));
            assert forall|m: int|
                0 <= m < r.len() && (#[trigger] r[m]).key == ws[j].key implies r[m] == ws[j] by {
                if m < rest.len() {
                    assert(rest[m] == ws[j]);
                } else {
                    assert(r[m] == ws[0]);
                    assert(rest[i].key == ws[0].key);
                    assert(has_key(rest, ws[0].key));
                }
            }
        }
    }
}

/// Bridges event positions to the write list: a Write event with no
/// later Write for its key becomes the chronologically last write-list
/// entry for that key.
proof fn lemma_writes_of_last(evs: Seq<EventView>, j: int) -> (w: int)
    requires
        0 <= j < evs.len(),
        classify(evs[j]) is Write,
        forall|l: int|
            j < l < evs.len() ==> !((#[trigger] classify(evs[l])) is Write && evs[l].key
                == evs[j].key),
    ensures
        0 <= w < writes_of(evs).len(),
        writes_of(evs)[w] == (EntryView { key: evs[j].key, val: decode_value(evs[j].value) }),
        forall|l: int|
            w < l < writes_of(evs).len() ==> (#[trigger] writes_of(evs)[l]).key != evs[j].key,
    decreases evs.len(),
{
    let ws = writes_of(evs);
    let d = evs.drop_last();
    if j == evs.len() - 1 {
        assert(evs.last() == evs[j]);
        assert(ws == writes_of(d).push(
            EntryView { key: evs[j].key, val: decode_value(evs[j].value) },
        ));
        ws.len() - 1
    } else {
        assert(d[j] == evs[j]);
        assert forall|l: int|
            j < l < d.len() implies !((#[trigger] classify(d[l])) is Write && d[l].key
            == evs[j].key) by {
            assert(d[l] == evs[l]);
        }
        let w = lemma_writes_of_last(d, j);
        assert(evs.last() == evs[evs.len() - 1]);
        if classify(evs.last()) is Write {
            assert(evs.last().key != evs[j].key);
            assert(ws == writes_of(d).push(
                EntryView { key: evs.last().key, val: decode_value(evs.last().value) },
            ));
        } else {
            assert(ws == writes_of(d));
        }
        w
    }
}

/// Recency at the event level: when `j` indexes a Write event with no
/// later Write for the same key (in particular, the later of two Write
/// events for one key, however many other keys are interleaved), the
/// resolved diff carries exactly that event's decoded entry for the
/// key.
pub proof fn lemma_event_recency(evs: Seq<EventView>, j: int)
    requires
        0 <= j < evs.len(),
        classify(evs[j]) is Write,
        forall|l: int|
            j < l < evs.len() ==> !((#[trigger] classify(evs[l])) is Write && evs[l].key
                == evs[j].key),
    ensures
        resolve_entries(writes_of(evs)).contains(
            EntryView { key: evs[j].key, val: decode_value(evs[j].value) },
        ),
        forall|m: int|
            0 <= m < resolve_entries(writes_of(evs)).len() && (#[trigger] resolve_entries(
                writes_of(evs),
            )[m]).key == evs[j].key ==> resolve_entries(writes_of(evs))[m] == (EntryView {
                key: evs[j].key,
                val: decode_value(evs[j].value),
            }),
{
    let w = lemma_writes_of_last(evs, j);
    lemma_write_recency(writes_of(evs), w);
}

/// Insertion into a list keeps the list's contents plus the new entry.
proof fn lemma_insert_sorted_multiset(e: EntryView, s: Seq<EntryView>)
    ensures
        insert_sorted(e, s).to_multiset() == s.to_multiset().insert(e),
    decreases s.len(),
{
    if s.len() == 0 {
        assert(seq![e] =~= Seq::<EntryView>::empty().push(e));
        assert(insert_sorted(e, s).to_multiset() =~= s.to_multiset().insert(e));
    } else if entry_le(e, s[0]) {
        vstd::seq_lib::lemma_multiset_commutative(seq![e], s);
        assert(seq![e] =~= Seq::<EntryView>::empty().push(e));
        assert(insert_sorted(e, s).to_multiset() =~= s.to_multiset().insert(e));
    } else {
        lemma_insert_sorted_multiset(e, s.drop_first());
        vstd::seq_lib::lemma_multiset_commutative(seq![s[0]], insert_sorted(e, s.drop_first()));
        vstd::seq_lib::lemma_multiset_commutative(seq![s[0]], s.drop_first());
        assert(seq![s[0]] =~= Seq::<EntryView>::empty().push(s[0]));
        assert(s =~= seq![s[0]] + s.drop_first());
        assert(insert_sorted(e, s).to_multiset() =~= s.to_multiset().insert(e));
    }
}

/// Insertion into a sorted list keeps it sorted.
proof fn lemma_insert_sorted_sorted(e: EntryView, s: Seq<EntryView>)
    requires
        sorted_by(s, entry_le_fn()),
    ensures
        sorted_by(insert_sorted(e, s), entry_le_fn()),
    decreases s.len(),
{
    lemma_entry_le_total_ordering();
    let leq = entry_le_fn();
    assert(forall|a: EntryView, b: EntryView| #[trigger] leq(a, b) == entry_le(a, b));
    if s.len() == 0 {
    } else if entry_le(e, s[0]) {
        let r = seq![e] + s;
        assert forall|i: int, j: int| 0 <= i < j < r.len() implies leq(r[i], r[j]) by {
            if i == 0 {
                assert(r[0] == e);
                assert(r[j] == s[j - 1]);
                assert(leq(e, s[0]));
                if j > 1 {
                    assert(leq(s[0], s[j - 1]));
                    assert(leq(e, s[j - 1]));
                }
            } else {
                assert(r[i] == s[i - 1] && r[j] == s[j - 1]);
            }
        }
    } else {
        let d = s.drop_first();
        assert forall|i: int, j: int| 0 <= i < j < d.len() implies leq(d[i], d[j]) by {
            assert(d[i] == s[i + 1] && d[j] == s[j + 1]);
        }
        lemma_insert_sorted_sorted(e, d);
        lemma_insert_sorted_multiset(e, d);
        let t = insert_sorted(e, d);
        let r = seq![s[0]] + t;
        assert forall|i: int, j: int| 0 <= i < j < r.len() implies leq(r[i], r[j]) by {
            if i == 0 {
                let y = t[j - 1];
                assert(r[0] == s[0]);
                assert(r[j] == y);
                assert(t.contains(y));
                assert(t.to_multiset().count(y) > 0);
                if y == e {
                    assert(!leq(e, s[0]));
                    assert(leq(s[0], e));
                } else {
                    assert(d.to_multiset().count(y) > 0);
                    assert(d.contains(y));
                    let m = choose|m: int| 0 <= m < d.len() && d[m] == y;
                    assert(leq(s[0], s[m + 1]));
                }
            } else {
                assert(r[i] == t[i - 1] && r[j] == t[j - 1]);
            }
        }
    }
}

/// The insertion sort is a permutation and is sorted.
proof fn lemma_sort_entries_ensures(s: Seq<EntryView>)
    ensures
        sort_entries(s).to_multiset() == s.to_multiset(),
        sorted_by(sort_entries(s), entry_le_fn()),
    decreases s.len(),
{
    if s.len() > 0 {
        lemma_sort_entries_ensures(s.drop_first());
        lemma_insert_sorted_multiset(s[0], sort_entries(s.drop_first()));
        lemma_insert_sorted_sorted(s[0], sort_entries(s.drop_first()));
        vstd::seq_lib::lemma_multiset_commutative(seq![s[0]], s.drop_first());
        assert(seq![s[0]] =~= Seq::<EntryView>::empty().push(s[0]));
        assert(s =~= seq![s[0]] + s.drop_first());
        assert(sort_entries(s).to_multiset() =~= s.to_multiset());
    }
}

/// Two sorted lists with the same contents are the same list.
proof fn lemma_sorted_unique(s1: Seq<EntryView>, s2: Seq<EntryView>)
    requires
        sorted_by(s1, entry_le_fn()),
        sorted_by(s2, entry_le_fn()),
        s1.to_multiset() == s2.to_multiset(),
    ensures
        s1 == s2,
    decreases s1.len(),
{
    lemma_entry_le_total_ordering();
    let leq = entry_le_fn();
    assert(forall|a: EntryView, b: EntryView| #[trigger] leq(a, b) == entry_le(a, b));
    vstd::seq_lib::to_multiset_len::<EntryView>(s1);
    vstd::seq_lib::to_multiset_len::<EntryView>(s2);
    assert(s1.len() == s2.len());
    if s1.len() > 0 {
        assert(s1.contains(s1[0]));
        assert(s2.to_multiset().count(s1[0]) > 0);
        assert(s2.contains(s1[0]));
        let m = choose|m: int| 0 <= m < s2.len() && s2[m] == s1[0];
        assert(m > 0 ==> leq(s2[0], s2[m]));
        assert(s2.contains(s2[0]));
        assert(s1.to_multiset().count(s2[0]) > 0);
        assert(s1.contains(s2[0]));
        let n = choose|n: int| 0 <= n < s1.len() && s1[n] == s2[0];
        assert(n > 0 ==> leq(s1[0], s1[n]));
        assert(leq(s1[0], s2[0]) && leq(s2[0], s1[0]));
        assert(s1[0] == s2[0]);
        let d1 = s1.drop_first();
        let d2 = s2.drop_first();
        assert(s1.remove(0) =~= d1);
        assert(s2.remove(0) =~= d2);
        assert(d1.to_multiset() == s1.to_multiset().remove(s1[0]));
        assert(d2.to_multiset() == s2.to_multiset().remove(s2[0]));
        assert forall|i: int, j: int| 0 <= i < j < d1.len() implies leq(d1[i], d1[j]) by {
            assert(d1[i] == s1[i + 1] && d1[j] == s1[j + 1]);
        }
        assert forall|i: int, j: int| 0 <= i < j < d2.len() implies leq(d2[i], d2[j]) by {
            assert(d2[i] == s2[i + 1] && d2[j] == s2[j + 1]);
        }
        lemma_sorted_unique(d1, d2);
        assert forall|i: int| 0 <= i < s1.len() implies s1[i] == s2[i] by {
            if i > 0 {
                assert(s1[i] == d1[i - 1]);
                assert(s2[i] == d2[i - 1]);
            }
        }
        assert(s1 =~= s2);
    } else {
        assert(s1 =~= s2);
    }
}

/// Sort stability: the formatter's order, and with it the serialized
/// text, is a pure function of the set of resolved pairs; presenting
/// the same pairs in any other order changes nothing.
pub proof fn lemma_sort_permutation_invariant(s1: Seq<EntryView>, s2: Seq<EntryView>)
    requires
        s1.to_multiset() == s2.to_multiset(),
    ensures
        sort_entries(s1) == sort_entries(s2),
        wrap_braces(join_entries(sort_entries(s1))) == wrap_braces(
            join_entries(sort_entries(s2)),
        ),
{
    lemma_sort_entries_ensures(s1);
    lemma_sort_entries_ensures(s2);
    lemma_sorted_unique(sort_entries(s1), sort_entries(s2));
}

/// Exclusion keeps exactly the entries whose bare key is not in the
/// append-key set, counted with multiplicity.
proof fn lemma_included_multiset(s: Seq<EntryView>, append: Seq<Seq<char>>)
    ensures
        included_entries(s, append).to_multiset() == s.to_multiset().filter(
            |e: EntryView| !crate::format::excluded(e, append),
        ),
    decreases s.len(),
{
    let p = |e: EntryView| !crate::format::excluded(e, append);
    if s.len() == 0 {
        assert(included_entries(s, append).to_multiset() =~= s.to_multiset().filter(p));
    } else {
        lemma_included_multiset(s.drop_last(), append);
        assert(s =~= s.drop_last().push(s.last()));
        assert(s.to_multiset() == s.drop_last().to_multiset().insert(s.last()));
        if crate::format::excluded(s.last(), append) {
            assert(included_entries(s, append).to_multiset() =~= s.to_multiset().filter(p));
        } else {
            assert(included_entries(s, append).to_multiset() =~= s.to_multiset().filter(p));
        }
    }
}

/// Sort stability, formatter-wide: presenting the resolved entries in
/// any other order changes neither the excluded-and-sorted entry list
/// nor the serialized text.
pub proof fn lemma_format_order_independent(
    s1: Seq<EntryView>,
    s2: Seq<EntryView>,
    append: Seq<Seq<char>>,
)
    requires
        s1.to_multiset() == s2.to_multiset(),
    ensures
        sort_entries(included_entries(s1, append)) == sort_entries(included_entries(s2, append)),
        wrap_braces(join_entries(sort_entries(included_entries(s1, append)))) == wrap_braces(
            join_entries(sort_entries(included_entries(s2, append))),
        ),
{
    lemma_included_multiset(s1, append);
    lemma_included_multiset(s2, append);
    lemma_sort_permutation_invariant(included_entries(s1, append), included_entries(s2, append));
}

/// Every entry that survives exclusion has a bare key outside the
/// append-key set.
proof fn lemma_included_clean(s: Seq<EntryView>, append: Seq<Seq<char>>)
    ensures
        forall|m: int|
            0 <= m < included_entries(s, append).len() ==> !append.contains(
                bare_key((#[trigger] included_entries(s, append)[m]).key),
            ),
    decreases s.len(),
{
    if s.len() > 0 {
        lemma_included_clean(s.drop_last(), append);
        let rest = included_entries(s.drop_last(), append);
        let r = included_entries(s, append);
        assert forall|m: int| 0 <= m < r.len() implies !append.contains(
            bare_key((#[trigger] r[m]).key),
        ) by {
            if crate::format::excluded(s.last(), append) {
                assert(r[m] == rest[m]);
            } else {
                if m < rest.len() {
                    assert(r[m] == rest[m]);
                } else {
                    assert(r[m] == s.last());
                }
            }
        }
    }
}

/// A key reported by the diff is the bare key of one of its entries.
proof fn lemma_dedup_bare_keys_source(s: Seq<EntryView>, k: Seq<char>)
    requires
        dedup_bare_keys(s).contains(k),
    ensures
        exists|m: int| 0 <= m < s.len() && bare_key((#[trigger] s[m]).key) == k,
    decreases s.len(),
{
    if s.len() > 0 {
        let rest = dedup_bare_keys(s.drop_last());
        if rest.contains(k) {
            lemma_dedup_bare_keys_source(s.drop_last(), k);
            let m = choose|m: int|
                0 <= m < s.drop_last().len() && bare_key(s.drop_last()[m].key) == k;
            assert(bare_key(s[m].key) == k);
        } else {
            assert(bare_key(s.last().key) == k) by {
                let kk = bare_key(s.last().key);
                if kk != k {
                    assert(dedup_bare_keys(s) == rest || dedup_bare_keys(s) == rest.push(kk));
                    if dedup_bare_keys(s) == rest.push(kk) {
                        let i = choose|i: int|
                            0 <= i < rest.push(kk).len() && rest.push(kk)[i] == k;
                        assert(rest[i] == k);
                    }
                }
            }
            assert(bare_key(s[s.len() - 1].key) == k);
        }
    }
}

/// Append exclusion is absolute: a key announced by an Append event
/// appears neither among the canonical diff's entries nor in the
/// reported key set, even when a Write for the same key exists.
pub proof fn lemma_append_exclusion(evs: Seq<EventView>, k: Seq<char>)
    requires
        append_keys_of(evs).contains(k),
    ensures
        !all_keys_of(evs).contains(k),
        forall|m: int|
            0 <= m < diff_entries(evs).len() ==> bare_key((#[trigger] diff_entries(evs)[m]).key)
                != k,
{
    let append = append_keys_of(evs);
    let resolved = resolve_entries(writes_of(evs));
    let included = included_entries(resolved, append);
    let diff = diff_entries(evs);
    lemma_included_clean(resolved, append);
    lemma_sort_entries_ensures(included);
    assert forall|m: int| 0 <= m < diff.len() implies bare_key((#[trigger] diff[m]).key) != k by {
        assert(diff.contains(diff[m]));
        assert(diff.to_multiset().count(diff[m]) > 0);
        assert(included.contains(diff[m]));
        let i = choose|i: int| 0 <= i < included.len() && included[i] == diff[m];
        assert(!append.contains(bare_key(included[i].key)));
    }
    if all_keys_of(evs).contains(k) {
        lemma_dedup_bare_keys_source(diff, k);
    }
}

/// Insertion keeps every key of the list plus the new entry's key.
proof fn lemma_insert_sorted_keys(e: EntryView, s: Seq<EntryView>)
    ensures
        forall|k: Seq<char>| has_key(insert_sorted(e, s), k) == (has_key(s, k) || e.key == k),
        (!has_key(s, e.key) && (forall|m: int, n: int|
            0 <= m < n < s.len() ==> (#[trigger] s[m]).key != (#[trigger] s[n]).key)) ==> (
        forall|m: int, n: int|
            0 <= m < n < insert_sorted(e, s).len() ==> (#[trigger] insert_sorted(e, s)[m]).key
                != (#[trigger] insert_sorted(e, s)[n]).key),
    decreases s.len(),
{
    let r = insert_sorted(e, s);
    if s.len() == 0 {
        assert forall|k: Seq<char>| has_key(r, k) == (has_key(s, k) || e.key == k) by {
            assert(r[0] == e);
            if has_key(s, k) {
                let i = choose|i: int| 0 <= i < s.len() && s[i].key == k;
            }
        }
    } else if entry_le(e, s[0]) {
        assert forall|k: Seq<char>| has_key(r, k) == (has_key(s, k) || e.key == k) by {
            if has_key(r, k) {
                let i = choose|i: int| 0 <= i < r.len() && r[i].key == k;
                if i > 0 {
                    assert(s[i - 1].key == k);
                }
            }
            if has_key(s, k) {
                let i = choose|i: int| 0 <= i < s.len() && s[i].key == k;
                assert(r[i + 1].key == k);
            }
            assert(r[0] == e);
        }
        if !has_key(s, e.key) && (forall|m: int, n: int|
            0 <= m < n < s.len() ==> (#[trigger] s[m]).key != (#[trigger] s[n]).key) {
            assert forall|m: int, n: int| 0 <= m < n < r.len() implies (#[trigger] r[m]).key
                != (#[trigger] r[n]).key by {
                if m == 0 {
                    assert(r[n] == s[n - 1]);
                    if r[0].key == r[n].key {
                        assert(has_key(s, e.key));
                    }
                } else {
                    assert(r[m] == s[m - 1] && r[n] == s[n - 1]);
                }
            }
        }
    } else {
        let d = s.drop_first();
        lemma_insert_sorted_keys(e, d);
        let t = insert_sorted(e, d);
        assert(r == seq![s[0]] + t);
        assert forall|k: Seq<char>| has_key(r, k) == (has_key(s, k) || e.key == k) by {
            lemma_has_key_unfold(s, k);
            if has_key(r, k) {
                let i = choose|i: int| 0 <= i < r.len() && r[i].key == k;
                if i > 0 {
                    assert(t[i - 1].key == k);
                    assert(has_key(t, k));
                }
            }
            if has_key(t, k) {
                let i = choose|i: int| 0 <= i < t.len() && t[i].key == k;
                assert(r[i + 1].key == k);
            }
            assert(r[0] == s[0]);
            if s[0].key == k {
                assert(has_key(r, k));
            }
        }
        if !has_key(s, e.key) && (forall|m: int, n: int|
            0 <= m < n < s.len() ==> (#[trigger] s[m]).key != (#[trigger] s[n]).key) {
            assert forall|m: int, n: int| 0 <= m < n < d.len() implies (#[trigger] d[m]).key
                != (#[trigger] d[n]).key by {
                assert(d[m] == s[m + 1] && d[n] == s[n + 1]);
            }
            assert(!has_key(d, e.key)) by {
                if has_key(d, e.key) {
                    let i = choose|i: int| 0 <= i < d.len() && d[i].key == e.key;
                    assert(s[i + 1].key == e.key);
                }
            }
            assert forall|m: int, n: int| 0 <= m < n < r.len() implies (#[trigger] r[m]).key
                != (#[trigger] r[n]).key by {
                if m == 0 {
                    assert(r[n] == t[n - 1]);
                    assert(has_key(t, r[n].key)) by {
                        assert(t[n - 1].key == r[n].key);
                    }
                    if s[0].key == r[n].key {
                        lemma_has_key_unfold(s, s[0].key);
                        assert(has_key(d, s[0].key) || e.key == s[0].key);
                        if has_key(d, s[0].key) {
                            let i = choose|i: int| 0 <= i < d.len() && d[i].key == s[0].key;
                            assert(s[i + 1].key == s[0].key);
                        }
                        if e.key == s[0].key {
                            assert(has_key(s, e.key)) by {
                                assert(s[0].key == e.key);
                            }
                        }
                    }
                } else {
                    assert(r[m] == t[m - 1] && r[n] == t[n - 1]);
                }
            }
        }
    }
}

/// Sorting keeps the key set and key uniqueness.
proof fn lemma_sort_entries_keys(s: Seq<EntryView>)
    ensures
        forall|k: Seq<char>| has_key(sort_entries(s), k) == has_key(s, k),
        (forall|m: int, n: int|
            0 <= m < n < s.len() ==> (#[trigger] s[m]).key != (#[trigger] s[n]).key) ==> (
        forall|m: int, n: int|
            0 <= m < n < sort_entries(s).len() ==> (#[trigger] sort_entries(s)[m]).key
                != (#[trigger] sort_entries(s)[n]).key),
    decreases s.len(),
{
    if s.len() > 0 {
        let d = s.drop_first();
        lemma_sort_entries_keys(d);
        lemma_insert_sorted_keys(s[0], sort_entries(d));
        assert forall|k: Seq<char>| has_key(sort_entries(s), k) == has_key(s, k) by {
            lemma_has_key_unfold(s, k);
        }
        if forall|m: int, n: int|
            0 <= m < n < s.len() ==> (#[trigger] s[m]).key != (#[trigger] s[n]).key {
            assert forall|m: int, n: int| 0 <= m < n < d.len() implies (#[trigger] d[m]).key
                != (#[trigger] d[n]).key by {
                assert(d[m] == s[m + 1] && d[n] == s[n + 1]);
            }
            assert(!has_key(sort_entries(d), s[0].key)) by {
                if has_key(d, s[0].key) {
                    let i = choose|i: int| 0 <= i < d.len() && d[i].key == s[0].key;
                    assert(s[i + 1].key == s[0].key);
                }
            }
        }
    }
}

/// Exclusion keeps key uniqueness and every kept entry's origin.
proof fn lemma_included_keys_unique(s: Seq<EntryView>, append: Seq<Seq<char>>)
    requires
        forall|m: int, n: int|
            0 <= m < n < s.len() ==> (#[trigger] s[m]).key != (#[trigger] s[n]).key,
    ensures
        forall|i: int|
            0 <= i < included_entries(s, append).len() ==> exists|m: int|
                0 <= m < s.len() && s[m] == #[trigger] included_entries(s, append)[i],
        forall|m: int, n: int|
            0 <= m < n < included_entries(s, append).len() ==> (#[trigger] included_entries(
                s,
                append,
            )[m]).key != (#[trigger] included_entries(s, append)[n]).key,
    decreases s.len(),
{
    if s.len() > 0 {
        let d = s.drop_last();
        assert forall|m: int, n: int| 0 <= m < n < d.len() implies (#[trigger] d[m]).key
            != (#[trigger] d[n]).key by {
            assert(d[m] == s[m] && d[n] == s[n]);
        }
        lemma_included_keys_unique(d, append);
        let rest = included_entries(d, append);
        let r = included_entries(s, append);
        assert forall|i: int| 0 <= i < r.len() implies exists|m: int|
            0 <= m < s.len() && s[m] == #[trigger] r[i] by {
            if i < rest.len() {
                assert(r[i] == rest[i]);
                let m = choose|m: int| 0 <= m < d.len() && d[m] == rest[i];
                assert(s[m] == r[i]);
            } else {
                assert(r[i] == s.last());
                assert(s[s.len() - 1] == r[i]);
            }
        }
        if !excluded(s.last(), append) {
            assert(r == rest.push(s.last()));
            assert forall|m: int, n: int| 0 <= m < n < r.len() implies (#[trigger] r[m]).key
                != (#[trigger] r[n]).key by {
                if n < rest.len() {
                    assert(r[m] == rest[m] && r[n] == rest[n]);
                } else {
                    assert(r[n] == s.last());
                    assert(r[m] == rest[m]);
                    let i = choose|i: int| 0 <= i < d.len() && d[i] == rest[m];
                    assert(s[i] == rest[m]);
                    assert(s[i].key != s[s.len() - 1].key);
                }
            }
        }
    }
}

/// The canonical diff holds at most one entry per key: of all Write
/// events for one key, only one pair reaches the serialized text.
pub proof fn lemma_diff_keys_unique(evs: Seq<EventView>)
    ensures
        forall|m: int, n: int|
            0 <= m < n < diff_entries(evs).len() ==> (#[trigger] diff_entries(evs)[m]).key
                != (#[trigger] diff_entries(evs)[n]).key,
{
    let resolved = resolve_entries(writes_of(evs));
    let included = included_entries(resolved, append_keys_of(evs));
    lemma_resolved_keys_unique(writes_of(evs));
    lemma_included_keys_unique(resolved, append_keys_of(evs));
    lemma_sort_entries_keys(included);
}

/// A contained pattern stays contained under extension on the right.
proof fn lemma_contains_extend(a: Seq<char>, b: Seq<char>, pat: Seq<char>)
    requires
        contains_seq(a, pat),
    ensures
        contains_seq(a + b, pat),
{
    let i = choose|i: int| occurs_at(a, pat, i);
    assert((a + b).subrange(i, i + pat.len() as int) =~= a.subrange(i, i + pat.len() as int));
    assert(occurs_at(a + b, pat, i));
}

/// A pattern occurs in any text assembled around it.
proof fn lemma_contains_middle(a: Seq<char>, pat: Seq<char>, b: Seq<char>)
    ensures
        contains_seq(a + pat + b, pat),
{
    let s = a + pat + b;
    assert(s.subrange(a.len() as int, a.len() + pat.len() as int) =~= pat);
    assert(occurs_at(s, pat, a.len() as int));
}

/// The joined diff text carries each entry's rendering.
proof fn lemma_join_contains(s: Seq<EntryView>, m: int)
    requires
        0 <= m < s.len(),
    ensures
        contains_seq(join_entries(s), render_entry(s[m])),
    decreases s.len(),
{
    if s.len() == 1 {
        let t = join_entries(s);
        assert(t == render_entry(s[0]));
        assert(t.subrange(0, t.len() as int) =~= t);
        assert(occurs_at(t, render_entry(s[0]), 0));
    } else {
        let d = s.drop_last();
        if m < s.len() - 1 {
            lemma_join_contains(d, m);
            assert(d[m] == s[m]);
            lemma_contains_extend(
                join_entries(d),
                seq![','] + render_entry(s.last()),
                render_entry(s[m]),
            );
            assert(join_entries(s) =~= join_entries(d) + (seq![','] + render_entry(s.last())));
        } else {
            assert(s[m] == s.last());
            lemma_contains_middle(
                join_entries(d) + seq![','],
                render_entry(s.last()),
                Seq::empty(),
            );
            assert((join_entries(d) + seq![',']) + render_entry(s.last()) + Seq::<
                char,
            >::empty() =~= join_entries(s));
        }
    }
}

/// A pattern contained in the diff body is contained in the braced text.
proof fn lemma_wrap_contains(body: Seq<char>, pat: Seq<char>)
    requires
        contains_seq(body, pat),
    ensures
        contains_seq(wrap_braces(body), pat),
{
    let i = choose|i: int| occurs_at(body, pat, i);
    let w = wrap_braces(body);
    assert(w.subrange(i + 1, i + 1 + pat.len() as int) =~= body.subrange(
        i,
        i + pat.len() as int,
    ));
    assert(occurs_at(w, pat, i + 1));
}

/// An unexcluded entry survives the exclusion filter.
proof fn lemma_included_contains(s: Seq<EntryView>, append: Seq<Seq<char>>, m: int)
    requires
        0 <= m < s.len(),
        !excluded(s[m], append),
    ensures
        included_entries(s, append).contains(s[m]),
    decreases s.len(),
{
    let r = included_entries(s, append);
    let rest = included_entries(s.drop_last(), append);
    if m == s.len() - 1 {
        assert(s[m] == s.last());
        assert(r == rest.push(s.last()));
        assert(r[r.len() - 1] == s[m]);
    } else {
        lemma_included_contains(s.drop_last(), append, m);
        let i = choose|i: int| 0 <= i < rest.len() && rest[i] == s.drop_last()[m];
        assert(s.drop_last()[m] == s[m]);
        if excluded(s.last(), append) {
            assert(r[i] == s[m]);
        } else {
            assert(r == rest.push(s.last()));
            assert(r[i] == s[m]);
        }
    }
}

/// The latest Write for a key that no Append event announced puts its
/// decoded entry, rendered, into the canonical diff text.
pub proof fn lemma_latest_write_in_text(evs: Seq<EventView>, j: int)
    requires
        0 <= j < evs.len(),
        classify(evs[j]) is Write,
        forall|l: int|
            j < l < evs.len() ==> !((#[trigger] classify(evs[l])) is Write && evs[l].key
                == evs[j].key),
        !append_keys_of(evs).contains(bare_key(evs[j].key)),
    ensures
        contains_seq(
            canonical_text(evs),
            render_entry(EntryView { key: evs[j].key, val: decode_value(evs[j].value) }),
        ),
{
    let e = EntryView { key: evs[j].key, val: decode_value(evs[j].value) };
    let append = append_keys_of(evs);
    let resolved = resolve_entries(writes_of(evs));
    let included = included_entries(resolved, append);
    let diff = diff_entries(evs);
    lemma_event_recency(evs, j);
    let m = choose|m: int| 0 <= m < resolved.len() && resolved[m] == e;
    lemma_included_contains(resolved, append, m);
    assert(included.contains(e));
    lemma_sort_entries_ensures(included);
    assert(included.to_multiset().count(e) > 0);
    assert(diff.to_multiset().count(e) > 0);
    assert(diff.contains(e));
    let dm = choose|dm: int| 0 <= dm < diff.len() && diff[dm] == e;
    lemma_join_contains(diff, dm);
    lemma_wrap_contains(join_entries(diff), render_entry(e));
}

/// Null rendering at the text level: when the latest Write for an
/// unexcluded key carries the quoted `None` marker, the diff text
/// holds the pair of that key and the bare token `null`.
pub proof fn lemma_null_write_renders_null(evs: Seq<EventView>, j: int)
    requires
        0 <= j < evs.len(),
        classify(evs[j]) is Write,
        evs[j].value == "\"None\""@,
        forall|l: int|
            j < l < evs.len() ==> !((#[trigger] classify(evs[l])) is Write && evs[l].key
                == evs[j].key),
        !append_keys_of(evs).contains(bare_key(evs[j].key)),
    ensures
        contains_seq(canonical_text(evs), display_key(evs[j].key) + seq![':'] + "null"@),
{
    lemma_latest_write_in_text(evs, j);
    let e = EntryView { key: evs[j].key, val: decode_value(evs[j].value) };
    assert(render_entry(e) == display_key(evs[j].key) + seq![':'] + "null"@);
}

/// Wrapped rendering at the text level: when the latest Write for an
/// unexcluded key carries a quoted `Some(...)` literal around a hex
/// payload, the diff text holds the pair of that key and the quoted,
/// `0x`-prefixed payload.
pub proof fn lemma_some_write_renders_prefixed(evs: Seq<EventView>, j: int, x: Seq<char>)
    requires
        0 <= j < evs.len(),
        classify(evs[j]) is Write,
        evs[j].value == seq!['"'] + "Some("@ + x + seq![')', '"'],
        is_hex_payload(x),
        forall|l: int|
            j < l < evs.len() ==> !((#[trigger] classify(evs[l])) is Write && evs[l].key
                == evs[j].key),
        !append_keys_of(evs).contains(bare_key(evs[j].key)),
    ensures
        contains_seq(
            canonical_text(evs),
            display_key(evs[j].key) + seq![':'] + (seq!['"'] + "0x"@ + x + seq!['"']),
        ),
{
    lemma_latest_write_in_text(evs, j);
    lemma_decode_some_wrapped(x);
    let e = EntryView { key: evs[j].key, val: decode_value(evs[j].value) };
    reveal_strlit("00");
    reveal_strlit("0x");
    assert(e.val.len() == x.len() + 4);
    assert(e.val != null_marker());
    assert(render_entry(e) == display_key(evs[j].key) + seq![':'] + (seq!['"'] + "0x"@ + x
        + seq!['"']));
}

/// An event list without Write and Append events yields the empty key
/// sets and the empty diff text.
pub proof fn lemma_empty_events_diff(evs: Seq<EventView>)
    requires
        forall|i: int|
            0 <= i < evs.len() ==> !((#[trigger] classify(evs[i])) is Write) && !(classify(
                evs[i],
            ) is Append),
    ensures
        all_keys_of(evs).len() == 0,
        append_keys_of(evs).len() == 0,
        canonical_text(evs) == "{}"@,
    decreases evs.len(),
{
    reveal_strlit("{}");
    if evs.len() == 0 {
        assert(canonical_text(evs) =~= "{}"@);
    } else {
        let d = evs.drop_last();
        assert forall|i: int|
            0 <= i < d.len() implies !((#[trigger] classify(d[i])) is Write) && !(classify(
            d[i],
        ) is Append) by {
            assert(d[i] == evs[i]);
        }
        lemma_empty_events_diff(d);
        assert(evs.last() == evs[evs.len() - 1]);
        assert(!(classify(evs[evs.len() - 1]) is Append));
        assert(!(classify(evs[evs.len() - 1]) is Write));
        assert(event_append_key(evs.last()) is None);
        assert(append_keys_of(evs) == append_keys_of(d));
        assert(writes_of(evs) == writes_of(d));
        assert(canonical_text(evs) == canonical_text(d));
        assert(all_keys_of(evs) == all_keys_of(d));
    }
}

} // verus!
