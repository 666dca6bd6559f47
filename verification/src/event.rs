//! The per-block trace event model and its classification into
//! Append, Read, Write and Unrecognized events.
use vstd::prelude::*;

use crate::text::{contains_pat, contains_seq, str_to_chars};

verus! {

/// One raw trace event, reduced to the textual fields the engine reads.
/// `key` and `value` hold the rendered form of the corresponding trace
/// fields (a quoted literal, or `null` when the field is absent).
pub struct RawEvent {
    pub message: Option<Vec<char>>,
    pub method: Option<Vec<char>>,
    pub key: Vec<char>,
    pub value: Vec<char>,
}

/// Mathematical image of a [`RawEvent`].
pub struct EventView {
    pub message: Option<Seq<char>>,
    pub method: Option<Seq<char>>,
    pub key: Seq<char>,
    pub value: Seq<char>,
}

impl View for RawEvent {
    type V = EventView;

    open spec fn view(&self) -> EventView {
        EventView {
            message: match self.message {
                Some(m) => Some(m@),
                None => None,
            },
            method: match self.method {
                Some(m) => Some(m@),
                None => None,
            },
            key: self.key@,
            value: self.value@,
        }
    }
}

/// The classification of one trace event.
#[derive(Clone, Copy, Debug, PartialEq, Eq, Structural)]
pub enum EventKind {
    /// An append-only mutation, recognized by its message text.
    Append,
    /// A message-bearing event that is not an append; it is dropped.
    Unrecognized,
    /// A read operation; reads never contribute to a diff.
    Read,
    /// A write of a key to a value (possibly to "no value").
    Write,
}

/// Classification rule, in priority order: a message-bearing event is an
/// Append exactly when the message contains "Append"; otherwise a method
/// containing "Get" marks a Read; everything else is a Write.
pub open spec fn classify(e: EventView) -> EventKind {
    match e.message {
        Some(m) => if contains_seq(m, "Append"@) {
            EventKind::Append
        } else {
            EventKind::Unrecognized
        },
        None => match e.method {
            Some(m) => if contains_seq(m, "Get"@) {
                EventKind::Read
            } else {
                EventKind::Write
            },
            None => EventKind::Write,
        },
    }
}

/// Labels one raw event; agrees with [`classify`].
pub fn classify_event(e: &RawEvent) -> (k: EventKind)
    ensures
        k == classify(e@),
{
    proof {
        reveal_strlit("Append");
        reveal_strlit("Get");
    }
    match &e.message {
        Some(m) => {
            let pat = str_to_chars("Append");
            if contains_pat(m, &pat) {
                EventKind::Append
            } else {
                EventKind::Unrecognized
            }
        },
        None => match &e.method {
            Some(m) => {
                let pat = str_to_chars("Get");
                if contains_pat(m, &pat) {
                    EventKind::Read
                } else {
                    EventKind::Write
                }
            },
            None => EventKind::Write,
        },
    }
}

} // verus!
