//! Deciding which completion candidates fit what has been typed.

use vstd::prelude::*;
use crate::matching::{is_prefix, spec_matches_ignoring_case};
use crate::text;

verus! {

/// Whether `candidate` starts with what was typed: exactly when the case-sensitivity setting is
/// on, and ignoring case (folded per character) when it is off. An empty typed word matches
/// everything, which is what a bare Tab asks for.
pub fn matches_prefix(candidate: &str, typed: &str, case_sensitive: bool) -> (r: bool)
    ensures
        r == if case_sensitive {
            is_prefix(typed@, candidate@)
        } else {
            spec_matches_ignoring_case(candidate@, typed@)
        },
{
    if case_sensitive {
        let c = text::chars_of(candidate);
        let t = text::chars_of(typed);
        return text::starts_with(c.as_slice(), t.as_slice());
    }
    crate::matching::matches_ignoring_case(candidate, typed)
}

} // verus!
