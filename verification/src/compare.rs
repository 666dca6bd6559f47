//! The equivalence comparator: builds the comparable text of a stored
//! reference record, filtered by the canonical diff's key sets, and
//! decides byte-exact equality with the trace-derived text.
use vstd::prelude::*;

use crate::entry::{entries_view, Entry, EntryView};
use crate::format::wrap_braces;
use crate::text::{chars_eq, push_range};

verus! {

/// The reference pairs that take part in the comparison: key both
/// mentioned by the canonical diff and not announced by an Append
/// event, in the record's own order.
pub open spec fn reference_included(
    pairs: Seq<EntryView>,
    all_keys: Seq<Seq<char>>,
    append: Seq<Seq<char>>,
) -> Seq<EntryView>
    decreases pairs.len(),
{
    if pairs.len() == 0 {
        Seq::empty()
    } else {
        let rest = reference_included(pairs.drop_last(), all_keys, append);
        let p = pairs.last();
        if all_keys.contains(p.key) && !append.contains(p.key) {
            rest.push(p)
        } else {
            rest
        }
    }
}

/// The text of one reference entry: the quoted key, a colon, the value.
pub open spec fn render_reference_entry(e: EntryView) -> Seq<char> {
    seq!['"'] + e.key + seq!['"', ':'] + e.val
}

/// Comma-joined rendering of the included reference pairs.
pub open spec fn join_reference_entries(s: Seq<EntryView>) -> Seq<char>
    decreases s.len(),
{
    if s.len() == 0 {
        Seq::empty()
    } else if s.len() == 1 {
        render_reference_entry(s[0])
    } else {
        join_reference_entries(s.drop_last()) + seq![','] + render_reference_entry(s.last())
    }
}

/// The comparable text of a reference record under the canonical
/// diff's key sets.
pub open spec fn reference_text(
    pairs: Seq<EntryView>,
    all_keys: Seq<Seq<char>>,
    append: Seq<Seq<char>>,
) -> Seq<char> {
    wrap_braces(join_reference_entries(reference_included(pairs, all_keys, append)))
}

/// Serializes a reference record's pairs, filtered by the diff's key
/// sets; agrees with [`reference_text`].
pub fn reference_text_exec(
    pairs: &Vec<Entry>,
    all_keys: &Vec<Vec<char>>,
    append: &Vec<Vec<char>>,
) -> (r: Vec<char>)
    ensures
        r@ == reference_text(entries_view(pairs@), all_keys.deep_view(), append.deep_view()),
{
    let ghost full = entries_view(pairs@);
    let ghost ak = all_keys.deep_view();
    let ghost ap = append.deep_view();
    let mut body: Vec<char> = Vec::new();
    let mut n: usize = 0;
    let mut i: usize = 0;
    proof {
        assert(full.subrange(0, 0) =~= Seq::empty());
        assert(body@ =~= join_reference_entries(reference_included(full.subrange(0, 0), ak, ap)));
    }
    while i < pairs.len()
        invariant
            i <= full.len(),
            full == entries_view(pairs@),
            ak == all_keys.deep_view(),
            ap == append.deep_view(),
            n <= i,
            n as int == reference_included(full.subrange(0, i as int), ak, ap).len(),
            body@ == join_reference_entries(reference_included(full.subrange(0, i as int), ak, ap)),
        decreases pairs.len() - i,
    {
        let ghost pre = full.subrange(0, i + 1);
        proof {
            assert(pre.drop_last() =~= full.subrange(0, i as int));
            assert(pre.last() == full[i as int]);
        }
        let p = &pairs[i];
        assert(full[i as int] == p@);
        let in_all = crate::format::contains_key(all_keys, &p.key);
        let in_append = crate::format::contains_key(append, &p.key);
        if in_all && !in_append {
            let ghost included = reference_included(full.subrange(0, i as int), ak, ap);
            let ghost before = body@;
            if n > 0 {
                body.push(',');
                assert(body@ =~= before + seq![',']);
            }
            let ghost with_sep = body@;
            body.push('"');
            push_range(&mut body, &p.key, 0, p.key.len());
            assert(p.key@.subrange(0, p.key@.len() as int) =~= p.key@);
            body.push('"');
            body.push(':');
            push_range(&mut body, &p.val, 0, p.val.len());
            assert(p.val@.subrange(0, p.val@.len() as int) =~= p.val@);
            proof {
                assert(body@ =~= with_sep + render_reference_entry(full[i as int]));
                let now = reference_included(pre, ak, ap);
                assert(now == included.push(full[i as int]));
                if n == 0 {
                    assert(now.len() == 1);
                    assert(body@ =~= join_reference_entries(now));
                } else {
                    assert(now.drop_last() =~= included);
                    assert(body@ =~= join_reference_entries(now));
                }
            }
            n = n + 1;
        }
        i = i + 1;
    }
    proof {
        assert(full.subrange(0, full.len() as int) =~= full);
    }
    let mut out: Vec<char> = Vec::new();
    out.push('{');
    push_range(&mut out, &body, 0, body.len());
    assert(body@.subrange(0, body@.len() as int) =~= body@);
    out.push('}');
    assert(out@ =~= wrap_braces(body@));
    out
}

/// Builds the reference side's comparable text and decides byte-exact
/// equality with the canonical diff text; returns the verdict together
/// with the reference text for diagnostics.
pub fn compare_with_reference(
    pairs: &Vec<Entry>,
    all_keys: &Vec<Vec<char>>,
    append: &Vec<Vec<char>>,
    canonical: &Vec<char>,
) -> (r: (bool, Vec<char>))
    ensures
        r.1@ == reference_text(entries_view(pairs@), all_keys.deep_view(), append.deep_view()),
        r.0 == (r.1@ == canonical@),
{
    let t = reference_text_exec(pairs, all_keys, append);
    let eq = chars_eq(&t, canonical);
    (eq, t)
}

} // verus!
