//! Normalization of a captured raw value string into its canonical
//! literal: the quoted text `None` becomes an internal null marker, and
//! any other literal loses its `Some(...)` wrapper and gains a `0x`
//! prefix right after its opening quote.
use vstd::prelude::*;

use crate::text::{chars_eq, insert_after_first, insert_after_first_exec, remove_all,
    remove_all_exec, str_to_chars};

verus! {

/// The internal marker for a write of "no value"; the formatter renders
/// it as the bare token `null`.
pub open spec fn null_marker() -> Seq<char> {
    "00"@
}

/// Canonical decoding of one raw value string.
pub open spec fn decode_value(v: Seq<char>) -> Seq<char> {
    if v == "\"None\""@ {
        null_marker()
    } else {
        insert_after_first(remove_all(remove_all(v, "Some("@), ")"@), '"', "0x"@)
    }
}

/// Decodes one raw value; agrees with [`decode_value`].
pub fn decode_value_exec(v: &Vec<char>) -> (r: Vec<char>)
    ensures
        r@ == decode_value(v@),
{
    let none_lit = str_to_chars("\"None\"");
    if chars_eq(v, &none_lit) {
        str_to_chars("00")
    } else {
        proof {
            reveal_strlit("Some(");
            reveal_strlit(")");
        }
        let some_pat = str_to_chars("Some(");
        let close_pat = str_to_chars(")");
        let hex_pref = str_to_chars("0x");
        let stripped = remove_all_exec(v, &some_pat);
        let stripped = remove_all_exec(&stripped, &close_pat);
        insert_after_first_exec(&stripped, '"', &hex_pref)
    }
}

} // verus!
