//! The trace-document boundary: JSON parsing and navigation through
//! serde_json, reduction of each event to the plain textual fields the
//! verified pipeline reads, and the block-level entry point.
use vstd::prelude::*;

use crate::event::{EventView, RawEvent};
use crate::pipeline::{all_keys_of, append_keys_of, appends_ok, canonical_text, events_view,
    process_events, ValidateError};
use crate::text::str_to_chars;

verus! {

#[verifier::external_type_specification]
#[verifier::external_body]
pub struct ExValue(serde_json::Value);

#[verifier::external_type_specification]
#[verifier::external_body]
pub struct ExJsonError(serde_json::Error);

/// Relies on serde_json::from_str: parses a JSON document into a value
/// tree; fails exactly on text that is not valid JSON.
#[verifier::external_body]
fn parse_json(s: &str) -> Result<serde_json::Value, serde_json::Error> {
    serde_json::from_str(s)
}

/// Relies on serde_json::Value::get with a string index: looks up a
/// member of a JSON object; None when absent or when the value is not
/// an object.
#[verifier::external_body]
fn get_member<'a>(v: &'a serde_json::Value, name: &str) -> Option<&'a serde_json::Value> {
    v.get(name)
}

/// Relies on serde_json::Value::as_array: the element vector of a JSON
/// array value; None for any other value.
#[verifier::external_body]
fn as_array<'a>(v: &'a serde_json::Value) -> Option<&'a Vec<serde_json::Value>> {
    v.as_array()
}

/// Relies on serde_json's Display implementation for Value: renders a
/// value as compact JSON text (strings keep their quotes, absent
/// members are never handed here).
#[verifier::external_body]
fn render_json(v: &serde_json::Value) -> String {
    v.to_string()
}

/// Relies on String::from_iter: collects characters into a string, in
/// order.
#[verifier::external_body]
fn chars_to_string(v: &Vec<char>) -> (r: String)
    ensures
        r@ == v@,
{
    v.iter().collect()
}

/// The rendered JSON text of one member of an event's data object, or
/// None when the member is absent.
fn field_chars(data: &serde_json::Value, name: &str) -> Option<Vec<char>> {
    match get_member(data, name) {
        Some(v) => {
            let s = render_json(v);
            Some(str_to_chars(s.as_str()))
        },
        None => None,
    }
}

/// As [`field_chars`], with an absent member rendered as JSON `null`.
fn field_chars_or_null(data: &serde_json::Value, name: &str) -> Vec<char> {
    match field_chars(data, name) {
        Some(v) => v,
        None => str_to_chars("null"),
    }
}

/// Reduces one trace event to the textual fields the pipeline reads.
fn event_from_value(ev: &serde_json::Value) -> RawEvent {
    let data = match get_member(ev, "data") {
        Some(d) => get_member(d, "stringValues"),
        None => None,
    };
    match data {
        Some(sv) => RawEvent {
            message: field_chars(sv, "message"),
            method: field_chars(sv, "method"),
            key: field_chars_or_null(sv, "key"),
            value: field_chars_or_null(sv, "value"),
        },
        None => RawEvent {
            message: None,
            method: None,
            key: str_to_chars("null"),
            value: str_to_chars("null"),
        },
    }
}

/// Reads the document's `result.blockTrace.events` list; an absent or
/// non-array member is a valid input meaning "no changes" and yields
/// the empty event list.
fn events_from_doc(root: &serde_json::Value) -> Vec<RawEvent> {
    let events = match get_member(root, "result") {
        Some(res) => match get_member(res, "blockTrace") {
            Some(bt) => match get_member(bt, "events") {
                Some(evs) => as_array(evs),
                None => None,
            },
            None => None,
        },
        None => None,
    };
    match events {
        Some(arr) => {
            let mut out: Vec<RawEvent> = Vec::new();
            let mut i: usize = 0;
            while i < arr.len()
                decreases arr.len() - i,
            {
                out.push(event_from_value(&arr[i]));
                i = i + 1;
            }
            out
        },
        None => Vec::new(),
    }
}

/// The event list that one block's trace document describes: `None`
/// when the text is not valid JSON, otherwise the events under
/// `result.blockTrace.events`, each reduced to its rendered textual
/// fields (an absent or non-array member gives the empty list). The
/// parse, the member lookups and the rendering are all functions of
/// the document text alone, so the whole extraction is one too.
pub uninterp spec fn trace_events_of(s: Seq<char>) -> Option<Seq<EventView>>;

/// Relies on serde_json::from_str and the Value accessors behind
/// [`events_from_doc`]: reads a trace document's event list, failing
/// exactly on text that is not valid JSON. The result depends on the
/// document text alone; [`trace_events_of`] names it.
#[verifier::external_body]
fn read_trace_events(s: &str) -> (r: Option<Vec<RawEvent>>)
    ensures
        match r {
            Some(v) => trace_events_of(s@) == Some(events_view(v@)),
            None => trace_events_of(s@) is None,
        },
{
    match parse_json(s) {
        Ok(root) => Some(events_from_doc(&root)),
        Err(_) => None,
    }
}

/// Converts a key list to strings, keeping order and contents.
fn keys_to_strings(keys: &Vec<Vec<char>>) -> (r: Vec<String>)
    ensures
        r.deep_view() == keys.deep_view(),
{
    let mut out: Vec<String> = Vec::new();
    let mut i: usize = 0;
    proof {
        assert(out.deep_view() =~~= keys.deep_view().subrange(0, 0));
    }
    while i < keys.len()
        invariant
            i <= keys.len(),
            out.deep_view() == keys.deep_view().subrange(0, i as int),
        decreases keys.len() - i,
    {
        let ghost prev = out.deep_view();
        out.push(chars_to_string(&keys[i]));
        proof {
            assert(out.deep_view() =~~= prev.push(keys.deep_view()[i as int]));
            assert(prev.push(keys.deep_view()[i as int]) =~~= keys.deep_view().subrange(0, i + 1));
        }
        i = i + 1;
    }
    proof {
        assert(keys.deep_view().subrange(0, keys.deep_view().len() as int) =~~= keys.deep_view());
    }
    out
}

/// Normalizes one block's raw trace document into the canonical diff
/// contract: the keys the diff mentions, the excluded append keys, and
/// the serialized diff text, in that order.
///
/// Fails with `InvalidJson` exactly when the document does not parse,
/// and with `MalformedAppendMessage` exactly when the document's event
/// list has an Append event whose message has no `key=value` tail;
/// otherwise the result is exactly the canonical diff of that list.
pub fn do_validate(buffer: String) -> (r: Result<(Vec<String>, Vec<String>, String), ValidateError>)
    ensures
        match r {
            Ok(t) => trace_events_of(buffer@) matches Some(evs) && appends_ok(evs)
                && t.0.deep_view() == all_keys_of(evs) && t.1.deep_view() == append_keys_of(evs)
                && t.2@ == canonical_text(evs),
            Err(ValidateError::InvalidJson) => trace_events_of(buffer@) is None,
            Err(ValidateError::MalformedAppendMessage) => trace_events_of(buffer@) matches Some(
                evs,
            ) && !appends_ok(evs),
        },
{
    let events = match read_trace_events(buffer.as_str()) {
        Some(v) => v,
        None => {
            return Err(ValidateError::InvalidJson);
        },
    };
    let diff = match process_events(&events) {
        Ok(d) => d,
        Err(e) => {
            return Err(e);
        },
    };
    let all_keys = keys_to_strings(&diff.all_keys);
    let append_keys = keys_to_strings(&diff.append_keys);
    let text = chars_to_string(&diff.text);
    proof {
        let evs = events_view(events@);
        assert(appends_ok(evs) && all_keys.deep_view() == all_keys_of(evs)
            && append_keys.deep_view() == append_keys_of(evs) && text@ == canonical_text(evs));
    }
    Ok((all_keys, append_keys, text))
}

} // verus!
