//! Matching against a pattern that is still a string.

use crate::pattern::{matches_spec, parse_pattern};
use crate::text::split_on;
use vstd::prelude::*;

verus! {

/// Whether `s` matches the pattern string `pattern`, whose segments are the
/// pieces between its `*`.
pub fn matches(s: &str, pattern: &str) -> (b: bool)
    ensures
        b == matches_spec(s@, split_on(pattern@, '*')),
{
    let parsed = parse_pattern(pattern);
    crate::pattern::matches(s, &parsed)
}

} // verus!
