use statediff::compare::compare_with_reference;
use statediff::decode::decode_value_exec;
use statediff::entry::Entry;
use statediff::event::RawEvent;
use statediff::json::do_validate;
use statediff::pipeline::{process_events, ValidateError};

fn chars(s: &str) -> Vec<char> {
    s.chars().collect()
}

fn text(v: &[char]) -> String {
    v.iter().collect()
}

fn write_event(key: &str, value: &str) -> RawEvent {
    RawEvent {
        message: None,
        method: Some(chars("\"Put\"")),
        key: chars(key),
        value: chars(value),
    }
}

fn append_event(message: &str) -> RawEvent {
    RawEvent {
        message: Some(chars(message)),
        method: None,
        key: chars("null"),
        value: chars("null"),
    }
}

#[test]
fn decode_none_yields_null_marker() {
    let out = decode_value_exec(&chars("\"None\""));
    assert_eq!(text(&out), "00");
}

#[test]
fn decode_some_wrapped_hex() {
    let out = decode_value_exec(&chars("\"Some(11)\""));
    assert_eq!(text(&out), "\"0x11\"");
    let out = decode_value_exec(&chars("\"Some(0000deadbeef)\""));
    assert_eq!(text(&out), "\"0x0000deadbeef\"");
}

#[test]
fn decode_unwrapped_literal_gets_hex_prefix() {
    let out = decode_value_exec(&chars("\"11\""));
    assert_eq!(text(&out), "\"0x11\"");
}

#[test]
fn recency_keeps_later_write() {
    let events = vec![
        write_event("\"aa\"", "\"Some(01)\""),
        write_event("\"bb\"", "\"Some(02)\""),
        write_event("\"aa\"", "\"Some(03)\""),
    ];
    let diff = process_events(&events).unwrap();
    assert_eq!(text(&diff.text), "{\"0xaa\":\"0x03\",\"0xbb\":\"0x02\"}");
}

#[test]
fn recency_interleaved_many_keys() {
    let events = vec![
        write_event("\"k\"", "\"Some(01)\""),
        write_event("\"x\"", "\"Some(aa)\""),
        write_event("\"y\"", "\"Some(bb)\""),
        write_event("\"k\"", "\"Some(02)\""),
        write_event("\"z\"", "\"Some(cc)\""),
    ];
    let diff = process_events(&events).unwrap();
    assert_eq!(
        text(&diff.text),
        "{\"0xk\":\"0x02\",\"0xx\":\"0xaa\",\"0xy\":\"0xbb\",\"0xz\":\"0xcc\"}"
    );
}

#[test]
fn append_key_excluded_even_with_write() {
    let events = vec![
        append_event("\"cc59: Append abc=0102\""),
        write_event("\"abc\"", "\"Some(11)\""),
        write_event("\"def\"", "\"Some(22)\""),
    ];
    let diff = process_events(&events).unwrap();
    let all_keys: Vec<String> = diff.all_keys.iter().map(|k| text(k)).collect();
    let append_keys: Vec<String> = diff.append_keys.iter().map(|k| text(k)).collect();
    assert_eq!(append_keys, vec!["0xabc".to_string()]);
    assert_eq!(all_keys, vec!["0xdef".to_string()]);
    assert!(!text(&diff.text).contains("0xabc"));
    assert_eq!(text(&diff.text), "{\"0xdef\":\"0x22\"}");
}

#[test]
fn sort_is_length_then_lexicographic() {
    let events = vec![
        write_event("\"bbb\"", "\"Some(01)\""),
        write_event("\"cc\"", "\"Some(02)\""),
        write_event("\"ba\"", "\"Some(03)\""),
    ];
    let diff = process_events(&events).unwrap();
    assert_eq!(
        text(&diff.text),
        "{\"0xba\":\"0x03\",\"0xcc\":\"0x02\",\"0xbbb\":\"0x01\"}"
    );
}

#[test]
fn sort_output_independent_of_input_order() {
    let a = vec![
        write_event("\"aa\"", "\"Some(01)\""),
        write_event("\"bb\"", "\"Some(02)\""),
        write_event("\"cc\"", "\"Some(03)\""),
    ];
    let b = vec![
        write_event("\"cc\"", "\"Some(03)\""),
        write_event("\"bb\"", "\"Some(02)\""),
        write_event("\"aa\"", "\"Some(01)\""),
    ];
    let da = process_events(&a).unwrap();
    let db = process_events(&b).unwrap();
    assert_eq!(text(&da.text), text(&db.text));
}

#[test]
fn null_write_renders_bare_null() {
    let events = vec![write_event("\"aa\"", "\"None\"")];
    let diff = process_events(&events).unwrap();
    assert_eq!(text(&diff.text), "{\"0xaa\":null}");
}

#[test]
fn read_events_do_not_contribute() {
    let mut ev = write_event("\"aa\"", "\"Some(01)\"");
    ev.method = Some(chars("\"Get\""));
    let events = vec![ev];
    let diff = process_events(&events).unwrap();
    assert_eq!(text(&diff.text), "{}");
    assert!(diff.all_keys.is_empty());
}

#[test]
fn message_without_append_is_dropped() {
    let events = vec![append_event("\"cc59: something else\"")];
    let diff = process_events(&events).unwrap();
    assert_eq!(text(&diff.text), "{}");
    assert!(diff.append_keys.is_empty());
}

#[test]
fn malformed_append_message_fails_block() {
    let events = vec![append_event("\"cc59: Append broken\"")];
    let err = match process_events(&events) {
        Ok(_) => panic!("malformed append message must fail the block"),
        Err(e) => e,
    };
    assert_eq!(err, ValidateError::MalformedAppendMessage);
}

#[test]
fn empty_event_list_round_trip() {
    let events: Vec<RawEvent> = Vec::new();
    let diff = process_events(&events).unwrap();
    assert!(diff.all_keys.is_empty());
    assert!(diff.append_keys.is_empty());
    assert_eq!(text(&diff.text), "{}");
}

#[test]
fn missing_events_member_round_trip() {
    let doc = r#"{"result":{"blockTrace":{}}}"#.to_string();
    let (all_keys, append_keys, out) = do_validate(doc).unwrap();
    assert!(all_keys.is_empty());
    assert!(append_keys.is_empty());
    assert_eq!(out, "{}");
}

#[test]
fn null_events_member_round_trip() {
    let doc = r#"{"result":{"blockTrace":{"events":null}}}"#.to_string();
    let (all_keys, append_keys, out) = do_validate(doc).unwrap();
    assert!(all_keys.is_empty());
    assert!(append_keys.is_empty());
    assert_eq!(out, "{}");
}

#[test]
fn invalid_json_is_rejected() {
    let err = do_validate("not json at all {".to_string()).unwrap_err();
    assert_eq!(err, ValidateError::InvalidJson);
}

#[test]
fn end_to_end_scenario() {
    let mut doc = String::new();
    doc.push_str(r#"{"result":{"blockTrace":{"events":["#);
    doc.push_str(r#"{"data":{"stringValues":{"message":"cc59: Append abc=0102"}}},"#);
    doc.push_str(r#"{"data":{"stringValues":{"key":"def","value":"Some(11)","method":"Put"}}}"#);
    doc.push_str(r#"]}}}"#);
    let (all_keys, append_keys, out) = do_validate(doc).unwrap();
    assert_eq!(append_keys, vec!["0xabc".to_string()]);
    assert_eq!(all_keys, vec!["0xdef".to_string()]);
    assert_eq!(out, "{\"0xdef\":\"0x11\"}");

    let all_keys_c: Vec<Vec<char>> = all_keys.iter().map(|s| s.chars().collect()).collect();
    let append_keys_c: Vec<Vec<char>> = append_keys.iter().map(|s| s.chars().collect()).collect();
    let canonical: Vec<char> = out.chars().collect();

    let reference = vec![
        Entry { key: chars("0xdef"), val: chars("\"0x11\"") },
        Entry { key: chars("0xabc"), val: chars("\"zz\"") },
    ];
    let (equal, ref_text) =
        compare_with_reference(&reference, &all_keys_c, &append_keys_c, &canonical);
    assert!(equal);
    assert_eq!(text(&ref_text), "{\"0xdef\":\"0x11\"}");

    let reference_bad = vec![Entry { key: chars("0xdef"), val: chars("\"0x12\"") }];
    let (equal_bad, ref_text_bad) =
        compare_with_reference(&reference_bad, &all_keys_c, &append_keys_c, &canonical);
    assert!(!equal_bad);
    assert_eq!(text(&ref_text_bad), "{\"0xdef\":\"0x12\"}");
}

#[test]
fn reference_keys_outside_all_keys_are_dropped() {
    let all_keys = vec![chars("0xaa")];
    let append_keys = vec![chars("0xbb")];
    let canonical = chars("{\"0xaa\":\"0x01\"}");
    let reference = vec![
        Entry { key: chars("0xzz"), val: chars("\"0x09\"") },
        Entry { key: chars("0xaa"), val: chars("\"0x01\"") },
        Entry { key: chars("0xbb"), val: chars("\"0x02\"") },
    ];
    let (equal, ref_text) = compare_with_reference(&reference, &all_keys, &append_keys, &canonical);
    assert!(equal);
    assert_eq!(text(&ref_text), "{\"0xaa\":\"0x01\"}");
}
