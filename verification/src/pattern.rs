//! Wildcard patterns: literal segments separated by `*`, matched greedily
//! from left to right.

use crate::text::{chars_of, split_chars, split_on, views};
use vstd::prelude::*;

verus! {

/// A pattern against which strings can be matched: its literal segments, in
/// order.
pub type Pattern = Vec<String>;

/// Whether `needle` stands in `hay` at position `at`.
pub open spec fn occurs_at(hay: Seq<char>, needle: Seq<char>, at: int) -> bool {
    0 <= at && at + needle.len() <= hay.len() && hay.subrange(at, at + needle.len()) == needle
}

/// Whether `needle` occurs in `hay` at `from` or later.
pub open spec fn found_from(hay: Seq<char>, needle: Seq<char>, from: int) -> bool {
    exists|at: int| from <= at && #[trigger] occurs_at(hay, needle, at)
}

/// Whether `at` is the first position at `from` or later where `needle`
/// stands in `hay`.
pub open spec fn first_from(hay: Seq<char>, needle: Seq<char>, from: int, at: int) -> bool {
    &&& from <= at
    &&& occurs_at(hay, needle, at)
    &&& forall|j: int| from <= j < at ==> !#[trigger] occurs_at(hay, needle, j)
}

/// Whether the part of `s` that starts at `from` matches the segments: each
/// segment in turn is looked for in what remains, and what remains then starts
/// where the segment was first found. Nothing is ever tried again.
pub open spec fn matches_from(s: Seq<char>, segments: Seq<Seq<char>>, from: int) -> bool
    decreases segments.len(),
{
    if segments.len() == 0 {
        true
    } else if !found_from(s, segments[0], from) {
        false
    } else {
        matches_from(
            s,
            segments.drop_first(),
            choose|at: int| first_from(s, segments[0], from, at),
        )
    }
}

/// Whether `s` matches the segments of a pattern.
pub open spec fn matches_spec(s: Seq<char>, segments: Seq<Seq<char>>) -> bool {
    matches_from(s, segments, 0)
}

/// A segment cannot be found first at two places.
pub proof fn lemma_first_from_unique(
    hay: Seq<char>,
    needle: Seq<char>,
    from: int,
    a: int,
    b: int,
)
    requires
        first_from(hay, needle, from, a),
        first_from(hay, needle, from, b),
    ensures
        a == b,
{
}

/// The segments of a pattern string: the pieces between its `*`.
pub fn parse_pattern(pattern_str: &str) -> (pattern: Pattern)
    ensures
        views(pattern@) == split_on(pattern_str@, '*'),
{
    let chars = chars_of(pattern_str);
    split_chars(&chars, '*')
}

/// Whether `needle` stands in `hay` at position `at`.
fn stands_at(hay: &Vec<char>, needle: &Vec<char>, at: usize) -> (b: bool)
    requires
        at + needle.len() <= hay.len(),
    ensures
        b == occurs_at(hay@, needle@, at as int),
{
    let mut j: usize = 0;
    while j < needle.len()
        invariant
            j <= needle.len(),
            at + needle.len() <= hay.len(),
            forall|k: int| 0 <= k < j ==> hay@[at + k] == needle@[k],
        decreases needle.len() - j,
    {
        if hay[at + j] != needle[j] {
            return false;
        }
        j += 1;
    }
    assert(hay@.subrange(at as int, at + needle.len()) =~= needle@);
    true
}

/// The first position at `from` or later where `needle` stands in `hay`.
pub fn find_from(hay: &Vec<char>, needle: &Vec<char>, from: usize) -> (r: Option<usize>)
    requires
        from <= hay.len(),
    ensures
        match r {
            Some(at) => first_from(hay@, needle@, from as int, at as int),
            None => !found_from(hay@, needle@, from as int),
        },
{
    if needle.len() > hay.len() - from {
        return None;
    }
    let last: usize = hay.len() - needle.len();
    let mut at: usize = from;
    loop
        invariant
            from <= at <= last,
            last == hay.len() - needle.len(),
            forall|j: int| from <= j < at ==> !#[trigger] occurs_at(hay@, needle@, j),
        decreases last - at,
    {
        if stands_at(hay, needle, at) {
            return Some(at);
        }
        if at == last {
            return None;
        }
        at += 1;
    }
}

/// Whether `s` matches `pattern`: an empty pattern matches everything, and an
/// empty segment is found at once where the search stands.
pub fn matches(s: &str, pattern: &Pattern) -> (b: bool)
    ensures
        b == matches_spec(s@, views(pattern@)),
{
    let hay = chars_of(s);
    let ghost segments = views(pattern@);
    let mut from: usize = 0;
    let mut k: usize = 0;
    assert(segments.skip(0) == segments);
    while k < pattern.len()
        invariant
            k <= pattern.len(),
            from <= hay.len(),
            hay@ == s@,
            segments == views(pattern@),
            matches_spec(s@, segments) == matches_from(s@, segments.skip(k as int), from as int),
        decreases pattern.len() - k,
    {
        let needle = chars_of(pattern[k].as_str());
        assert(segments.skip(k as int).drop_first() == segments.skip(k + 1));
        match find_from(&hay, &needle, from) {
            Some(at) => {
                proof {
                    let chosen = choose|c: int| first_from(hay@, needle@, from as int, c);
                    lemma_first_from_unique(hay@, needle@, from as int, at as int, chosen);
                }
                from = at;
            },
            None => {
                return false;
            },
        }
        k += 1;
    }
    true
}

} // verus!
