//! Recovery of the affected key from an Append event's message text.
//!
//! A well-formed message ends in a token of shape `<key>=<payload>`; the
//! extracted key is the part before the first `=`, prefixed with `0x`.
use vstd::prelude::*;

use crate::text::{find_char, find_char_in, last_token, last_token_exec, lemma_find_char_props,
    push_range, str_to_chars};

verus! {

/// The key announced by an Append message: take the last
/// whitespace-delimited token, split it at its first `=`, keep the left
/// side and prefix it with `0x`. `None` when the message has no such
/// token or the token has no `=`.
pub open spec fn append_key_of(msg: Seq<char>) -> Option<Seq<char>> {
    let tok = last_token(msg);
    match find_char(tok, '=') {
        Some(i) => Some("0x"@ + tok.subrange(0, i)),
        None => None,
    }
}

/// Extracts the append key from a message; agrees with [`append_key_of`].
pub fn extract_append_key(msg: &Vec<char>) -> (r: Option<Vec<char>>)
    ensures
        match r {
            Some(k) => append_key_of(msg@) == Some(k@),
            None => append_key_of(msg@) is None,
        },
{
    let tok = last_token_exec(msg);
    match find_char_in(&tok, '=') {
        Some(i) => {
            proof {
                lemma_find_char_props(tok@, '=');
            }
            let mut out = str_to_chars("0x");
            push_range(&mut out, &tok, 0, i);
            Some(out)
        },
        None => None,
    }
}

} // verus!
