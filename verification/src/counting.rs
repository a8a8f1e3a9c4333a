//! Cutting text into lines, counting where each line occurs, and rewriting
//! text without its repeated lines.

pub use crate::occurrences::{merge_records, FileLocation, Occurrences};
use crate::occurrences::{distinct_keys, has_key, lemma_extend, places_of, record_spec, Index, Place};
use crate::options::Options;
use crate::pattern::matches_spec;
use crate::rewrite_proofs::lemma_rewrite_keeps_delimiters;
use crate::text::{chars_of, push_char, string_of, trim_bounds, trim_spec, views};
use vstd::hash_set::StringHashSet;
use vstd::prelude::*;
use vstd::string::StringExecFns;

verus! {

/// A line as contracts see it: its content, which is what lines are compared
/// by; its raw text, which is every character of the line; and its lead, the
/// squashed repeats of the delimiter before the line, which belong to that
/// delimiter and to no line.
pub type LineView = (Seq<char>, Seq<char>, Seq<char>);

/// One line of a text.
#[derive(Debug)]
pub struct Line {
    /// What the line is compared by: its characters without the repetitions
    /// that are squashed.
    pub content: String,
    /// Every character of the line, as it stands in the text.
    pub raw: String,
    /// The squashed repeats of the delimiter that ends the line before: they
    /// stand before this line and are no part of it.
    pub lead: String,
}

impl View for Line {
    type V = LineView;

    open spec fn view(&self) -> LineView {
        (self.content@, self.raw@, self.lead@)
    }
}

/// The views of the lines in `lines`, in order.
pub open spec fn line_views(lines: Seq<Line>) -> Seq<LineView> {
    Seq::new(lines.len(), |i: int| lines[i]@)
}

/// The contents of the lines, in order.
pub open spec fn contents(lines: Seq<LineView>) -> Seq<Seq<char>> {
    Seq::new(lines.len(), |i: int| lines[i].0)
}

/// Whether the character at `i` repeats the one before it and is one of those
/// whose repetitions count as one.
pub open spec fn squashed(text: Seq<char>, i: int, squash: Seq<char>) -> bool {
    0 < i < text.len() && text[i - 1] == text[i] && squash.contains(text[i])
}

/// The line that nothing has gone into yet.
pub open spec fn empty_line() -> LineView {
    (Seq::empty(), Seq::empty(), Seq::empty())
}

/// The lines of `text`. A character that equals the delimiter and is not
/// squashed ends the line, and belongs to no line. A squashed repeat of the
/// delimiter belongs to the delimiter before it: it goes into the lead of the
/// line that follows. Any other squashed character belongs to the raw text of
/// its line and not to the content. Every other character belongs to both.
/// The text after the last delimiter is a line too, so there is always one
/// line more than there are delimiters that end a line.
pub open spec fn scan(text: Seq<char>, delimiter: char, squash: Seq<char>) -> Seq<LineView>
    decreases text.len(),
{
    if text.len() == 0 {
        seq![empty_line()]
    } else {
        let before = scan(text.drop_last(), delimiter, squash);
        let c = text.last();
        let open = before.last();
        if squashed(text, text.len() - 1, squash) {
            if c == delimiter {
                before.update(before.len() - 1, (open.0, open.1, open.2.push(c)))
            } else {
                before.update(before.len() - 1, (open.0, open.1.push(c), open.2))
            }
        } else if c == delimiter {
            before.push(empty_line())
        } else {
            before.update(before.len() - 1, (open.0.push(c), open.1.push(c), open.2))
        }
    }
}

/// Whether `c` is one of `chars`.
pub fn contains_char(chars: &Vec<char>, c: char) -> (b: bool)
    ensures
        b == chars@.contains(c),
{
    let mut i: usize = 0;
    while i < chars.len()
        invariant
            i <= chars.len(),
            forall|j: int| 0 <= j < i ==> chars@[j] != c,
        decreases chars.len() - i,
    {
        if chars[i] == c {
            return true;
        }
        i += 1;
    }
    false
}

/// Cuts `text` into its lines, with the delimiter and the squashed characters
/// that `options` names.
pub fn walk_lines(text: &str, options: &Options) -> (lines: Vec<Line>)
    ensures
        line_views(lines@) == scan(text@, options.line_delimiter, options.squash_chars@),
{
    let chars = chars_of(text);
    let ghost delimiter = options.line_delimiter;
    let ghost squash = options.squash_chars@;
    let mut lines: Vec<Line> = Vec::new();
    let mut content = String::new();
    // The lead of the open line is `chars[lead_start..start]`, its raw text
    // `chars[start..i]`.
    let mut lead_start: usize = 0;
    let mut start: usize = 0;
    let mut i: usize = 0;
    assert(chars@.take(0) == Seq::<char>::empty());
    while i < chars.len()
        invariant
            lead_start <= start <= i <= chars.len(),
            delimiter == options.line_delimiter,
            squash == options.squash_chars@,
            forall|k: int| start <= k < i ==> chars@[k] != delimiter,
            scan(chars@.take(i as int), delimiter, squash) == line_views(lines@).push(
                (
                    content@,
                    chars@.subrange(start as int, i as int),
                    chars@.subrange(lead_start as int, start as int),
                ),
            ),
        decreases chars.len() - i,
    {
        let c = chars[i];
        let ghost raw = chars@.subrange(start as int, i as int);
        let ghost lead = chars@.subrange(lead_start as int, start as int);
        let ghost grown = chars@.take(i + 1);
        assert(grown.drop_last() == chars@.take(i as int));
        let repeats = i > 0 && chars[i - 1] == c && contains_char(&options.squash_chars, c);
        if repeats {
            if c == options.line_delimiter {
                // The character before is the delimiter too, so the open
                // line has no raw text yet.
                start = i + 1;
                assert(chars@.subrange(lead_start as int, i + 1) == lead.push(c));
                assert(chars@.subrange(i + 1, i + 1) == raw);
            } else {
                assert(chars@.subrange(start as int, i + 1) == raw.push(c));
            }
        } else if c == options.line_delimiter {
            let raw_text = string_of(&chars, start, i);
            let lead_text = string_of(&chars, lead_start, start);
            let line = Line { content, raw: raw_text, lead: lead_text };
            lines.push(line);
            content = String::new();
            lead_start = i + 1;
            start = i + 1;
            assert(chars@.subrange(i + 1, i + 1) == Seq::<char>::empty());
        } else {
            push_char(&mut content, c);
            assert(chars@.subrange(start as int, i + 1) == raw.push(c));
        }
        i += 1;
    }
    assert(chars@.take(i as int) == chars@);
    let raw_text = string_of(&chars, start, i);
    let lead_text = string_of(&chars, lead_start, start);
    let line = Line { content, raw: raw_text, lead: lead_text };
    lines.push(line);
    lines
}

/// What a line is recorded under: the line itself, or the line without the
/// white space at its ends where trimming is asked for.
pub open spec fn canonical(line: Seq<char>, trim: bool) -> Seq<char> {
    if trim {
        trim_spec(line)
    } else {
        line
    }
}

/// Whether a canonical line is recorded: it is not empty and it matches the
/// pattern.
pub open spec fn accepted(key: Seq<char>, pattern: Seq<Seq<char>>) -> bool {
    key.len() > 0 && matches_spec(key, pattern)
}

/// `idx` after the line with number `number` of the file `path` was offered to
/// it.
pub open spec fn record_line_spec(
    idx: Index,
    path: Seq<char>,
    line: Seq<char>,
    number: usize,
    trim: bool,
    pattern: Seq<Seq<char>>,
) -> Index {
    let key = canonical(line, trim);
    if accepted(key, pattern) {
        record_spec(idx, key, (path, number))
    } else {
        idx
    }
}

/// The index of a file with the given line contents: each line was offered in
/// turn, under its zero-based number.
pub open spec fn count_spec(
    path: Seq<char>,
    lines: Seq<Seq<char>>,
    trim: bool,
    pattern: Seq<Seq<char>>,
) -> Index
    decreases lines.len(),
{
    if lines.len() == 0 {
        Seq::empty()
    } else {
        record_line_spec(
            count_spec(path, lines.drop_last(), trim, pattern),
            path,
            lines.last(),
            (lines.len() - 1) as usize,
            trim,
            pattern,
        )
    }
}

/// The places in the file `path` where a line stands that is recorded under
/// `key`, in ascending order.
pub open spec fn line_places(
    path: Seq<char>,
    lines: Seq<Seq<char>>,
    trim: bool,
    key: Seq<char>,
) -> Seq<Place>
    decreases lines.len(),
{
    if lines.len() == 0 {
        Seq::empty()
    } else if canonical(lines.last(), trim) == key {
        line_places(path, lines.drop_last(), trim, key).push((path, (lines.len() - 1) as usize))
    } else {
        line_places(path, lines.drop_last(), trim, key)
    }
}

/// The index of a file has no key twice. A key that is empty or does not
/// match the pattern has no entry. Every other key has, in ascending order,
/// the places of the lines that are recorded under it, and an entry if there
/// is such a line.
pub proof fn lemma_count_places(
    path: Seq<char>,
    lines: Seq<Seq<char>>,
    trim: bool,
    pattern: Seq<Seq<char>>,
    key: Seq<char>,
)
    ensures
        distinct_keys(count_spec(path, lines, trim, pattern)),
        places_of(count_spec(path, lines, trim, pattern), key) == if accepted(key, pattern) {
            line_places(path, lines, trim, key)
        } else {
            Seq::<Place>::empty()
        },
        has_key(count_spec(path, lines, trim, pattern), key) == (accepted(key, pattern)
            && line_places(path, lines, trim, key).len() > 0),
    decreases lines.len(),
{
    if lines.len() != 0 {
        let before = count_spec(path, lines.drop_last(), trim, pattern);
        lemma_count_places(path, lines.drop_last(), trim, pattern, key);
        let line = canonical(lines.last(), trim);
        if accepted(line, pattern) {
            let place = (path, (lines.len() - 1) as usize);
            lemma_extend(before, line, seq![place]);
        }
    }
}

/// Offers one line to `records`: it is trimmed where `options` asks for it,
/// and recorded at `line_number` of `file_path` unless it is then empty or
/// does not match the line pattern.
pub fn record_line(
    options: &Options,
    records: &mut Occurrences,
    file_path: &str,
    line: String,
    line_number: usize,
)
    requires
        old(records).wf(),
    ensures
        final(records).wf(),
        final(records)@ == record_line_spec(
            old(records)@,
            file_path@,
            line@,
            line_number,
            options.trim_whitespace,
            views(options.line_pattern@),
        ),
{
    let chars = chars_of(line.as_str());
    assert(chars@.subrange(0, chars@.len() as int) == chars@);
    let (key, filled) = if options.trim_whitespace {
        let (a, b) = trim_bounds(&chars, 0, chars.len());
        (string_of(&chars, a, b), a < b)
    } else {
        (line, chars.len() > 0)
    };
    if filled && crate::pattern::matches(key.as_str(), &options.line_pattern) {
        let location = FileLocation { path: String::from_str(file_path), line_number };
        records.record(key, location);
    }
}

/// A record of all occurrences of every line in `text`, the text of the file
/// `file_path`.
pub fn count_lines(file_path: &str, text: &str, options: &Options) -> (records: Occurrences)
    ensures
        records.wf(),
        records@ == count_spec(
            file_path@,
            contents(scan(text@, options.line_delimiter, options.squash_chars@)),
            options.trim_whitespace,
            views(options.line_pattern@),
        ),
{
    let lines = walk_lines(text, options);
    let ghost all = contents(line_views(lines@));
    let ghost trim = options.trim_whitespace;
    let ghost pattern = views(options.line_pattern@);
    let mut records = Occurrences::new();
    let mut number: usize = 0;
    while number < lines.len()
        invariant
            number <= lines.len(),
            all == contents(line_views(lines@)),
            trim == options.trim_whitespace,
            pattern == views(options.line_pattern@),
            records.wf(),
            records@ == count_spec(file_path@, all.take(number as int), trim, pattern),
        decreases lines.len() - number,
    {
        let content = lines[number].content.clone();
        assert(all.take(number + 1).drop_last() == all.take(number as int));
        record_line(options, &mut records, file_path, content, number);
        number += 1;
    }
    assert(all.take(number as int) == all);
    records
}

/// Whether no earlier line has the content of line `i`.
pub open spec fn first_seen(lines: Seq<LineView>, i: int) -> bool {
    forall|j: int| 0 <= j < i ==> (#[trigger] lines[j]).0 != lines[i].0
}

/// For each line what stands between the delimiter that ends the line before
/// and the one that ends this line: the lead and the raw text.
pub open spec fn whole(lines: Seq<LineView>) -> Seq<Seq<char>> {
    Seq::new(lines.len(), |i: int| lines[i].2 + lines[i].1)
}

/// For each line what is kept of that: the lead always, and the raw text
/// where the line's content is seen for the first time.
pub open spec fn kept(lines: Seq<LineView>) -> Seq<Seq<char>> {
    Seq::new(
        lines.len(),
        |i: int|
            if first_seen(lines, i) {
                lines[i].2 + lines[i].1
            } else {
                lines[i].2
            },
    )
}

/// How often `c` stands in `text`.
pub open spec fn count_of(text: Seq<char>, c: char) -> nat
    decreases text.len(),
{
    if text.len() == 0 {
        0
    } else if text.last() == c {
        count_of(text.drop_last(), c) + 1
    } else {
        count_of(text.drop_last(), c)
    }
}

/// The pieces in order, with one delimiter between each two.
pub open spec fn join_with(pieces: Seq<Seq<char>>, delimiter: char) -> Seq<char>
    decreases pieces.len(),
{
    if pieces.len() == 0 {
        Seq::empty()
    } else if pieces.len() == 1 {
        pieces[0]
    } else {
        join_with(pieces.drop_last(), delimiter).push(delimiter) + pieces.last()
    }
}

/// `text` without its repeated lines: every character that equals the
/// delimiter stays, squashed or not, and so does the raw text of each line
/// whose content no earlier line has.
pub open spec fn rewrite(text: Seq<char>, delimiter: char, squash: Seq<char>) -> Seq<char> {
    join_with(kept(scan(text, delimiter, squash)), delimiter)
}

/// A copy of `text` with all repeated lines removed: the first instance
/// remains, and so does every delimiter. Lines are compared by their content
/// as it stands, untrimmed, and the line pattern is not consulted.
pub fn strip_lines(text: &str, options: &Options) -> (new_text: String)
    ensures
        new_text@ == rewrite(text@, options.line_delimiter, options.squash_chars@),
        count_of(new_text@, options.line_delimiter) == count_of(text@, options.line_delimiter),
        new_text@.len() <= text@.len(),
{
    proof {
        lemma_rewrite_keeps_delimiters(text@, options.line_delimiter, options.squash_chars@);
    }
    let lines = walk_lines(text, options);
    let ghost all = line_views(lines@);
    let ghost pieces = kept(all);
    let mut found = StringHashSet::new();
    let mut new_text = String::new();
    let mut i: usize = 0;
    assert(pieces.take(0) == Seq::<Seq<char>>::empty());
    while i < lines.len()
        invariant
            i <= lines.len(),
            all == line_views(lines@),
            pieces == kept(all),
            new_text@ == join_with(pieces.take(i as int), options.line_delimiter),
            forall|k: Seq<char>|
                found@.contains(k) <==> exists|j: int| 0 <= j < i && (#[trigger] all[j]).0 == k,
        decreases lines.len() - i,
    {
        assert(pieces.take(i + 1).drop_last() == pieces.take(i as int));
        if i > 0 {
            push_char(&mut new_text, options.line_delimiter);
        }
        let ghost joined = new_text@;
        let line = &lines[i];
        assert(line@ == all[i as int]);
        let ghost before = found@;
        new_text.append(line.lead.as_str());
        if !found.contains(line.content.as_str()) {
            assert(first_seen(all, i as int));
            new_text.append(line.raw.as_str());
            found.insert(line.content.clone());
            assert(new_text@ == joined + (line@.2 + line@.1));
        } else {
            assert(!first_seen(all, i as int));
        }
        assert forall|k: Seq<char>|
            found@.contains(k) <==> exists|j: int| 0 <= j < i + 1 && (#[trigger] all[j]).0 == k by {
            if found@.contains(k) && !before.contains(k) {
                assert(all[i as int].0 == k);
            }
            if exists|j: int| 0 <= j < i + 1 && (#[trigger] all[j]).0 == k {
                let j = choose|j: int| 0 <= j < i + 1 && (#[trigger] all[j]).0 == k;
                if j < i {
                    assert(before.contains(k));
                }
            }
        }
        i += 1;
    }
    assert(pieces.take(i as int) == pieces);
    new_text
}

} // verus!
