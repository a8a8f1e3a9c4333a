//! The text in which duplicates are reported.

use crate::occurrences::{entry_views, places, Entry, FileLocation, Index, Place};
use crate::text::push_char;
use vstd::prelude::*;
use vstd::string::StringExecFns;

verus! {

/// The decimal digit for `d`.
pub open spec fn digit_spec(d: int) -> char {
    if d == 0 {
        '0'
    } else if d == 1 {
        '1'
    } else if d == 2 {
        '2'
    } else if d == 3 {
        '3'
    } else if d == 4 {
        '4'
    } else if d == 5 {
        '5'
    } else if d == 6 {
        '6'
    } else if d == 7 {
        '7'
    } else if d == 8 {
        '8'
    } else {
        '9'
    }
}

/// The decimal numeral of `n`, without leading zeros.
pub open spec fn decimal_spec(n: nat) -> Seq<char>
    decreases n,
{
    if n < 10 {
        seq![digit_spec(n as int)]
    } else {
        decimal_spec(n / 10).push(digit_spec((n % 10) as int))
    }
}

/// How a place is written: the path, a colon, the line index.
pub open spec fn place_text(place: Place) -> Seq<char> {
    place.0.push(':') + decimal_spec(place.1 as nat)
}

/// How places are written below their line: each on a line of its own, behind
/// a tab.
pub open spec fn places_text(places: Seq<Place>) -> Seq<char>
    decreases places.len(),
{
    if places.len() == 0 {
        Seq::empty()
    } else {
        places_text(places.drop_last()) + seq!['\n', '\t'] + place_text(places.last())
    }
}

/// How one duplicate is written: its canonical value, then its places.
pub open spec fn occurences_text(entry: (Seq<char>, Seq<Place>)) -> Seq<char> {
    entry.0 + places_text(entry.1)
}

/// How duplicates are written: each behind an empty line.
pub open spec fn report_text(duplicates: Index) -> Seq<char>
    decreases duplicates.len(),
{
    if duplicates.len() == 0 {
        Seq::empty()
    } else {
        report_text(duplicates.drop_last()) + seq!['\n', '\n'] + occurences_text(duplicates.last())
    }
}

fn digit(d: usize) -> (c: char)
    requires
        d < 10,
    ensures
        c == digit_spec(d as int),
{
    if d == 0 {
        '0'
    } else if d == 1 {
        '1'
    } else if d == 2 {
        '2'
    } else if d == 3 {
        '3'
    } else if d == 4 {
        '4'
    } else if d == 5 {
        '5'
    } else if d == 6 {
        '6'
    } else if d == 7 {
        '7'
    } else if d == 8 {
        '8'
    } else {
        '9'
    }
}

/// Writes the decimal numeral of `n` behind `out`.
pub fn push_decimal(out: &mut String, n: usize)
    ensures
        final(out)@ == old(out)@ + decimal_spec(n as nat),
    decreases n,
{
    if n >= 10 {
        push_decimal(out, n / 10);
    }
    push_char(out, digit(n % 10));
}

impl FileLocation {
    /// The location as it is written: the path, a colon, the line index.
    pub fn to_text(&self) -> (out: String)
        ensures
            out@ == place_text(self@),
    {
        let mut out = self.path.clone();
        push_char(&mut out, ':');
        push_decimal(&mut out, self.line_number);
        out
    }
}

/// Writes one duplicate behind `out`: the line, then each of its locations on
/// a line of its own, behind a tab.
pub fn print_occurences(line: &str, occurences: &Vec<FileLocation>, out: &mut String)
    ensures
        final(out)@ == old(out)@ + occurences_text((line@, places(occurences@))),
{
    let ghost had = out@;
    let ghost all = places(occurences@);
    out.append(line);
    let mut i: usize = 0;
    while i < occurences.len()
        invariant
            i <= occurences.len(),
            all == places(occurences@),
            out@ == had + line@ + places_text(all.take(i as int)),
        decreases occurences.len() - i,
    {
        assert(all.take(i + 1).drop_last() == all.take(i as int));
        push_char(out, '\n');
        push_char(out, '\t');
        let text = occurences[i].to_text();
        out.append(text.as_str());
        i += 1;
    }
    assert(all.take(i as int) == all);
}

/// The report of the duplicates, each behind an empty line, and their number.
pub fn print_all_unhighlighted(duplicates: &Vec<Entry>) -> (r: (String, usize))
    ensures
        r.0@ == report_text(entry_views(duplicates@)),
        r.1 == duplicates@.len(),
{
    let ghost all = entry_views(duplicates@);
    let mut output_buffer = String::new();
    let mut duplicate_count: usize = 0;
    while duplicate_count < duplicates.len()
        invariant
            duplicate_count <= duplicates.len(),
            all == entry_views(duplicates@),
            output_buffer@ == report_text(all.take(duplicate_count as int)),
        decreases duplicates.len() - duplicate_count,
    {
        let entry = &duplicates[duplicate_count];
        assert(all.take(duplicate_count + 1).drop_last() == all.take(duplicate_count as int));
        push_char(&mut output_buffer, '\n');
        push_char(&mut output_buffer, '\n');
        print_occurences(entry.key.as_str(), &entry.locations, &mut output_buffer);
        duplicate_count += 1;
    }
    assert(all.take(duplicate_count as int) == all);
    (output_buffer, duplicate_count)
}

} // verus!
