//! Turns raw input lines into the queries of a run.
use vstd::prelude::*;

use crate::text::{decode_text, trim, trimmed};

verus! {

/// A trimmed line is a query unless it is empty or a comment.
pub open spec fn is_query(t: Seq<char>) -> bool {
    t.len() > 0 && t[0] != '#'
}

/// The query that a raw line holds: none for a line that is not UTF-8 text,
/// or that is empty or a comment once trimmed.
pub open spec fn query_of(raw: Seq<u8>) -> Option<Seq<char>> {
    if vstd::utf8::valid_utf8(raw) && is_query(trimmed(vstd::utf8::decode_utf8(raw))) {
        Some(trimmed(vstd::utf8::decode_utf8(raw)))
    } else {
        None
    }
}

/// Whether a trimmed line is a query.
pub fn is_query_line(t: &str) -> (r: bool)
    ensures
        r == is_query(t@),
{
    let mut chars = t.chars();
    match chars.next() {
        Some(c) => c != '#',
        None => false,
    }
}

/// The query of a raw line, its line break included or not.
pub fn query_from_line(raw: &[u8]) -> (r: Option<String>)
    ensures
        r matches Some(q) ==> query_of(raw@) == Some(q@),
        r is None ==> query_of(raw@) is None,
{
    match decode_text(raw) {
        Some(text) => {
            let t = trim(text.as_str());
            if is_query_line(t.as_str()) {
                Some(t)
            } else {
                None
            }
        },
        None => None,
    }
}

} // verus!
