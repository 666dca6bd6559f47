//! The canonical formatter: append-key exclusion, the deterministic
//! sort, and serialization of the resolved diff as a single-line
//! object literal.
use vstd::prelude::*;

use crate::decode::null_marker;
use crate::entry::{entries_view, entry_le, entry_le_exec, Entry, EntryView};
use crate::text::{chars_eq, insert_after_first, insert_after_first_exec, push_range, remove_all,
    remove_all_exec, str_to_chars};

verus! {

/// A key as it is displayed in the diff text: `0x` inserted right after
/// its opening quote.
pub open spec fn display_key(k: Seq<char>) -> Seq<char> {
    insert_after_first(k, '"', "0x"@)
}

/// A key as it is carried in the key sets: the displayed key with its
/// quotes removed.
pub open spec fn bare_key(k: Seq<char>) -> Seq<char> {
    remove_all(display_key(k), seq!['"'])
}

/// An entry is excluded from the diff when its bare key was announced
/// by an Append event.
pub open spec fn excluded(e: EntryView, append: Seq<Seq<char>>) -> bool {
    append.contains(bare_key(e.key))
}

/// The entries that survive append-key exclusion, in input order.
pub open spec fn included_entries(s: Seq<EntryView>, append: Seq<Seq<char>>) -> Seq<EntryView>
    decreases s.len(),
{
    if s.len() == 0 {
        Seq::empty()
    } else {
        let rest = included_entries(s.drop_last(), append);
        if excluded(s.last(), append) {
            rest
        } else {
            rest.push(s.last())
        }
    }
}

/// Insertion of one entry into a sorted entry list.
pub open spec fn insert_sorted(e: EntryView, s: Seq<EntryView>) -> Seq<EntryView>
    decreases s.len(),
{
    if s.len() == 0 {
        seq![e]
    } else if entry_le(e, s[0]) {
        seq![e] + s
    } else {
        seq![s[0]] + insert_sorted(e, s.drop_first())
    }
}

/// Insertion sort of an entry list under [`entry_le`].
pub open spec fn sort_entries(s: Seq<EntryView>) -> Seq<EntryView>
    decreases s.len(),
{
    if s.len() == 0 {
        Seq::empty()
    } else {
        insert_sorted(s[0], sort_entries(s.drop_first()))
    }
}

/// The text of one diff entry: displayed key, a colon, then the decoded
/// value, with the null marker rendered as the bare token `null`.
pub open spec fn render_entry(e: EntryView) -> Seq<char> {
    display_key(e.key) + seq![':'] + (if e.val == null_marker() {
        "null"@
    } else {
        e.val
    })
}

/// Comma-joined rendering of an entry list.
pub open spec fn join_entries(s: Seq<EntryView>) -> Seq<char>
    decreases s.len(),
{
    if s.len() == 0 {
        Seq::empty()
    } else if s.len() == 1 {
        render_entry(s[0])
    } else {
        join_entries(s.drop_last()) + seq![','] + render_entry(s.last())
    }
}

/// A rendered entry list wrapped in braces; an empty diff reads `{}`.
pub open spec fn wrap_braces(body: Seq<char>) -> Seq<char> {
    seq!['{'] + body + seq!['}']
}

/// Characterization of [`insert_sorted`] by the insertion position.
pub proof fn lemma_insert_sorted_at(e: EntryView, s: Seq<EntryView>, j: int)
    requires
        0 <= j <= s.len(),
        forall|k: int| 0 <= k < j ==> !entry_le(e, #[trigger] s[k]),
        j < s.len() ==> entry_le(e, s[j]),
    ensures
        insert_sorted(e, s) == s.subrange(0, j) + seq![e] + s.subrange(j, s.len() as int),
    decreases s.len(),
{
    if s.len() == 0 {
        assert(s.subrange(0, 0) + seq![e] + s.subrange(0, 0) =~= seq![e]);
    } else if entry_le(e, s[0]) {
        assert(j == 0);
        assert(s.subrange(0, 0) + seq![e] + s.subrange(0, s.len() as int) =~= seq![e] + s);
    } else {
        let d = s.drop_first();
        assert(forall|k: int| 0 <= k < j - 1 ==> !entry_le(e, #[trigger] d[k]));
        lemma_insert_sorted_at(e, d, j - 1);
        assert(seq![s[0]] + (d.subrange(0, j - 1) + seq![e] + d.subrange(j - 1, d.len() as int))
            =~= s.subrange(0, j) + seq![e] + s.subrange(j, s.len() as int));
    }
}

/// Inserts one entry into a vector that mirrors a sorted entry list;
/// agrees with [`insert_sorted`].
pub fn insert_entry_exec(e: Entry, s: &Vec<Entry>) -> (r: Vec<Entry>)
    ensures
        entries_view(r@) == insert_sorted(e@, entries_view(s@)),
{
    let ghost sv = entries_view(s@);
    let mut j: usize = 0;
    let mut found = false;
    while j < s.len() && !found
        invariant
            j <= s.len(),
            forall|k: int| 0 <= k < j ==> !entry_le(e@, #[trigger] sv[k]),
            found ==> j < s.len() && entry_le(e@, sv[j as int]),
            sv == entries_view(s@),
        decreases 2 * (s.len() - j) + (if found {
            0int
        } else {
            1int
        }),
    {
        if entry_le_exec(&e, &s[j]) {
            found = true;
        } else {
            j = j + 1;
        }
    }
    let mut out: Vec<Entry> = Vec::new();
    let mut k: usize = 0;
    while k < j
        invariant
            k <= j <= s.len(),
            sv == entries_view(s@),
            entries_view(out@) == sv.subrange(0, k as int),
        decreases j - k,
    {
        let ghost prev = entries_view(out@);
        out.push(crate::resolve::clone_entry(&s[k]));
        proof {
            assert(entries_view(out@) =~= prev.push(sv[k as int]));
            assert(prev.push(sv[k as int]) =~= sv.subrange(0, k + 1));
        }
        k = k + 1;
    }
    let ghost ev = e@;
    out.push(e);
    proof {
        assert(entries_view(out@) =~= sv.subrange(0, j as int) + seq![ev]);
    }
    let mut k2: usize = j;
    while k2 < s.len()
        invariant
            j <= k2 <= s.len(),
            sv == entries_view(s@),
            entries_view(out@) == sv.subrange(0, j as int) + seq![ev] + sv.subrange(
                j as int,
                k2 as int,
            ),
        decreases s.len() - k2,
    {
        let ghost prev = entries_view(out@);
        out.push(crate::resolve::clone_entry(&s[k2]));
        proof {
            assert(entries_view(out@) =~= prev.push(sv[k2 as int]));
            assert(prev.push(sv[k2 as int]) =~= sv.subrange(0, j as int) + seq![ev]
                + sv.subrange(j as int, k2 + 1));
        }
        k2 = k2 + 1;
    }
    proof {
        lemma_insert_sorted_at(ev, sv, j as int);
        assert(entries_view(out@) == sv.subrange(0, j as int) + seq![ev] + sv.subrange(
            j as int,
            sv.len() as int,
        ));
    }
    out
}

/// Sorts an entry vector under the formatter's ordering; agrees with
/// [`sort_entries`].
pub fn sort_entries_exec(s: &Vec<Entry>) -> (r: Vec<Entry>)
    ensures
        entries_view(r@) == sort_entries(entries_view(s@)),
{
    let ghost full = entries_view(s@);
    let mut out: Vec<Entry> = Vec::new();
    let mut i: usize = s.len();
    proof {
        assert(full.subrange(full.len() as int, full.len() as int) =~= Seq::empty());
        assert(entries_view(out@) =~= Seq::empty());
    }
    while i > 0
        invariant
            i <= full.len(),
            full == entries_view(s@),
            entries_view(out@) == sort_entries(full.subrange(i as int, full.len() as int)),
        decreases i,
    {
        i = i - 1;
        let ghost tail = full.subrange(i as int, full.len() as int);
        proof {
            assert(tail.drop_first() =~= full.subrange(i + 1, full.len() as int));
            assert(tail[0] == full[i as int]);
        }
        let next = insert_entry_exec(crate::resolve::clone_entry(&s[i]), &out);
        out = next;
    }
    proof {
        assert(full.subrange(0, full.len() as int) =~= full);
    }
    out
}

/// Drops every entry whose bare key is in `append`; agrees with
/// [`included_entries`].
pub fn filter_excluded(s: &Vec<Entry>, append: &Vec<Vec<char>>) -> (r: Vec<Entry>)
    ensures
        entries_view(r@) == included_entries(entries_view(s@), append.deep_view()),
{
    let ghost full = entries_view(s@);
    let mut out: Vec<Entry> = Vec::new();
    let mut i: usize = 0;
    proof {
        assert(full.subrange(0, 0) =~= Seq::empty());
        assert(entries_view(out@) =~= Seq::empty());
    }
    while i < s.len()
        invariant
            i <= full.len(),
            full == entries_view(s@),
            entries_view(out@) == included_entries(
                full.subrange(0, i as int),
                append.deep_view(),
            ),
        decreases s.len() - i,
    {
        let ghost pre = full.subrange(0, i + 1);
        proof {
            assert(pre.drop_last() =~= full.subrange(0, i as int));
            assert(pre.last() == full[i as int]);
        }
        let e = &s[i];
        let bk = bare_key_exec(&e.key);
        if !contains_key(append, &bk) {
            let ghost prev = entries_view(out@);
            out.push(crate::resolve::clone_entry(e));
            proof {
                assert(entries_view(out@) =~= prev.push(full[i as int]));
            }
        }
        i = i + 1;
    }
    proof {
        assert(full.subrange(0, full.len() as int) =~= full);
    }
    out
}

/// Computes the displayed form of a key; agrees with [`display_key`].
pub fn display_key_exec(k: &Vec<char>) -> (r: Vec<char>)
    ensures
        r@ == display_key(k@),
{
    let pref = str_to_chars("0x");
    insert_after_first_exec(k, '"', &pref)
}

/// Computes the bare form of a key; agrees with [`bare_key`].
pub fn bare_key_exec(k: &Vec<char>) -> (r: Vec<char>)
    ensures
        r@ == bare_key(k@),
{
    let dk = display_key_exec(k);
    let mut quote: Vec<char> = Vec::new();
    quote.push('"');
    assert(quote@ =~= seq!['"']);
    remove_all_exec(&dk, &quote)
}

/// Decides membership of a key in a key list.
pub fn contains_key(set: &Vec<Vec<char>>, k: &Vec<char>) -> (r: bool)
    ensures
        r == set.deep_view().contains(k@),
{
    let mut i: usize = 0;
    while i < set.len()
        invariant
            i <= set.len(),
            forall|j: int| 0 <= j < i ==> set.deep_view()[j] != k@,
        decreases set.len() - i,
    {
        proof {
            assert(set.deep_view()[i as int] =~= set@[i as int]@);
        }
        if chars_eq(&set[i], k) {
            assert(set.deep_view()[i as int] == k@);
            return true;
        }
        i = i + 1;
    }
    false
}

/// Serializes a sorted, filtered entry list as a single-line object
/// literal; agrees with [`wrap_braces`] of [`join_entries`].
pub fn render_entries(entries: &Vec<Entry>) -> (r: Vec<char>)
    ensures
        r@ == wrap_braces(join_entries(entries_view(entries@))),
{
    let ghost full = entries_view(entries@);
    let null_lit = str_to_chars("00");
    let null_word = str_to_chars("null");
    let mut body: Vec<char> = Vec::new();
    let mut i: usize = 0;
    proof {
        assert(full.subrange(0, 0) =~= Seq::empty());
        assert(body@ =~= join_entries(full.subrange(0, 0)));
    }
    while i < entries.len()
        invariant
            i <= full.len(),
            full == entries_view(entries@),
            null_lit@ == "00"@,
            null_word@ == "null"@,
            body@ == join_entries(full.subrange(0, i as int)),
        decreases entries.len() - i,
    {
        let ghost pre = full.subrange(0, i + 1);
        proof {
            assert(pre.drop_last() =~= full.subrange(0, i as int));
            assert(pre.last() == full[i as int]);
        }
        let ghost before = body@;
        if i > 0 {
            body.push(',');
            assert(body@ =~= before + seq![',']);
        }
        let ghost with_sep = body@;
        let e = &entries[i];
        let dk = display_key_exec(&e.key);
        push_range(&mut body, &dk, 0, dk.len());
        assert(dk@.subrange(0, dk@.len() as int) =~= dk@);
        body.push(':');
        let ghost with_key = body@;
        assert(with_key =~= with_sep + display_key(full[i as int].key) + seq![':']);
        if chars_eq(&e.val, &null_lit) {
            push_range(&mut body, &null_word, 0, null_word.len());
            assert(null_word@.subrange(0, null_word@.len() as int) =~= null_word@);
        } else {
            push_range(&mut body, &e.val, 0, e.val.len());
            assert(e.val@.subrange(0, e.val@.len() as int) =~= e.val@);
        }
        proof {
            assert(body@ =~= with_sep + render_entry(full[i as int]));
            if i == 0 {
                assert(join_entries(pre) == render_entry(pre[0]));
                assert(body@ =~= join_entries(pre));
            } else {
                assert(join_entries(pre) == join_entries(pre.drop_last()) + seq![',']
                    + render_entry(pre.last()));
                assert(body@ =~= join_entries(pre));
            }
        }
        i = i + 1;
    }
    proof {
        assert(full.subrange(0, full.len() as int) =~= full);
    }
    let mut out: Vec<char> = Vec::new();
    out.push('{');
    push_range(&mut out, &body, 0, body.len());
    assert(body@.subrange(0, body@.len() as int) =~= body@);
    out.push('}');
    assert(out@ =~= wrap_braces(body@));
    out
}

} // verus!
