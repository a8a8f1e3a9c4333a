//! Blocks: runs of two or more lines that follow each other in a file.

use crate::counting::{canonical, join_with};
use crate::occurrences::{
    distinct_keys, has_key, lemma_extend, places_of, record_spec, slot_of, FileLocation, Index,
    Occurrences, Place,
};
use crate::options::Options;
use crate::text::{chars_of, push_char, split_on, string_of, trim_bounds, views};
use vstd::prelude::*;
use vstd::string::StringExecFns;

verus! {

/// The lines among `pieces` that blocks are made of: each piece as it is
/// compared, the empty ones left out.
pub open spec fn filled(pieces: Seq<Seq<char>>, trim: bool) -> Seq<Seq<char>>
    decreases pieces.len(),
{
    if pieces.len() == 0 {
        Seq::empty()
    } else {
        let before = filled(pieces.drop_last(), trim);
        let line = canonical(pieces.last(), trim);
        if line.len() > 0 {
            before.push(line)
        } else {
            before
        }
    }
}

/// The lines of `text` that blocks are made of: the text is cut at every
/// delimiter, and then each piece is trimmed where that is asked for and left
/// out where it is empty.
pub open spec fn block_lines_spec(text: Seq<char>, delimiter: char, trim: bool) -> Seq<Seq<char>> {
    filled(split_on(text, delimiter), trim)
}

/// The canonical value of the block `lines[start..end]`: its lines with a
/// newline between each two.
pub open spec fn block_key(lines: Seq<Seq<char>>, start: int, end: int) -> Seq<char> {
    join_with(lines.subrange(start, end), '\n')
}

/// `idx` after every block that starts at `start` and ends at `end` or before
/// was recorded at `start`, the shortest first.
pub open spec fn blocks_from(
    idx: Index,
    path: Seq<char>,
    lines: Seq<Seq<char>>,
    start: int,
    end: int,
) -> Index
    decreases end - start,
{
    if end < start + 2 {
        idx
    } else {
        record_spec(
            blocks_from(idx, path, lines, start, end - 1),
            block_key(lines, start, end),
            (path, start as usize),
        )
    }
}

/// The index of the blocks of `lines` that start before `starts`: for each
/// start in turn, every run of two or more lines from there on is recorded at
/// that start.
pub open spec fn blocks_spec(path: Seq<char>, lines: Seq<Seq<char>>, starts: int) -> Index
    decreases starts,
{
    if starts <= 0 {
        Seq::empty()
    } else {
        blocks_from(blocks_spec(path, lines, starts - 1), path, lines, starts - 1, lines.len() as int)
    }
}

/// The lines of `text` that blocks are made of.
pub fn block_lines(text: &str, options: &Options) -> (lines: Vec<String>)
    ensures
        views(lines@) == block_lines_spec(text@, options.line_delimiter, options.trim_whitespace),
{
    let chars = chars_of(text);
    let ghost delimiter = options.line_delimiter;
    let ghost trim = options.trim_whitespace;
    let mut lines: Vec<String> = Vec::new();
    let ghost mut done: Seq<Seq<char>> = Seq::empty();
    let mut start: usize = 0;
    let mut i: usize = 0;
    assert(chars@.take(0) == Seq::<char>::empty());
    loop
        invariant_except_break
            split_on(chars@.take(i as int), delimiter) == done.push(
                chars@.subrange(start as int, i as int),
            ),
        invariant
            start <= i <= chars.len(),
            delimiter == options.line_delimiter,
            trim == options.trim_whitespace,
            views(lines@) == filled(done, trim),
        ensures
            i == chars.len(),
            split_on(chars@, delimiter) == done,
            views(lines@) == filled(done, trim),
        decreases chars.len() - i,
    {
        let at_end = i == chars.len();
        if at_end || chars[i] == options.line_delimiter {
            let ghost piece = chars@.subrange(start as int, i as int);
            let (a, b) = if options.trim_whitespace {
                trim_bounds(&chars, start, i)
            } else {
                (start, i)
            };
            if a < b {
                let line = string_of(&chars, a, b);
                lines.push(line);
            }
            proof {
                assert(done.push(piece).drop_last() == done);
                done = done.push(piece);
            }
            if at_end {
                assert(chars@.take(i as int) == chars@);
                break;
            }
            assert(chars@.take(i + 1).drop_last() == chars@.take(i as int));
            start = i + 1;
            assert(chars@.subrange(start as int, i + 1) == Seq::<char>::empty());
        } else {
            assert(chars@.take(i + 1).drop_last() == chars@.take(i as int));
            assert(chars@.subrange(start as int, i + 1) == chars@.subrange(
                start as int,
                i as int,
            ).push(chars@[i as int]));
        }
        i += 1;
    }
    lines
}

/// The index of every block of `items`, the lines of the file `file_path`:
/// each run of two or more lines, recorded once at each place where it starts.
pub fn all_chunks(file_path: &str, items: &Vec<String>) -> (records: Occurrences)
    ensures
        records.wf(),
        records@ == blocks_spec(file_path@, views(items@), items@.len() as int),
        names_blocks(records@, file_path@, views(items@)),
{
    let ghost lines = views(items@);
    let total: usize = items.len();
    proof {
        lemma_blocks_span_two_lines(file_path@, lines);
    }
    let mut records = Occurrences::new();
    let mut start: usize = 0;
    while start < total
        invariant
            start <= total,
            total == items@.len(),
            lines == views(items@),
            records.wf(),
            records@ == blocks_spec(file_path@, lines, start as int),
        decreases total - start,
    {
        let ghost base = records@;
        let mut block: String = items[start].clone();
        let mut end: usize = start + 1;
        while end < total
            invariant
                start < end <= total,
                total == items@.len(),
                lines == views(items@),
                block@ == block_key(lines, start as int, end as int),
                records.wf(),
                records@ == blocks_from(base, file_path@, lines, start as int, end as int),
            decreases total - end,
        {
            push_char(&mut block, '\n');
            block.append(items[end].as_str());
            assert(lines.subrange(start as int, end + 1).drop_last() == lines.subrange(
                start as int,
                end as int,
            ));
            end += 1;
            let location = FileLocation { path: String::from_str(file_path), line_number: start };
            records.record(block.clone(), location);
        }
        start += 1;
    }
    records
}

/// A record of every block of lines in `text`, the text of the file
/// `file_path`. The line pattern is not consulted.
pub fn count_chunks(file_path: &str, text: &str, options: &Options) -> (records: Occurrences)
    ensures
        records.wf(),
        records@ == blocks_spec(
            file_path@,
            block_lines_spec(text@, options.line_delimiter, options.trim_whitespace),
            block_lines_spec(text@, options.line_delimiter, options.trim_whitespace).len() as int,
        ),
        names_blocks(
            records@,
            file_path@,
            block_lines_spec(text@, options.line_delimiter, options.trim_whitespace),
        ),
{
    let lines = block_lines(text, options);
    all_chunks(file_path, &lines)
}

/// Whether `key` is the canonical value of a block of two or more lines that
/// starts at line `start`.
pub open spec fn is_block_at(lines: Seq<Seq<char>>, key: Seq<char>, start: int) -> bool {
    exists|end: int|
        0 <= start && start + 2 <= end <= lines.len() && key == #[trigger] block_key(
            lines,
            start,
            end,
        )
}

/// Every entry of `idx` has a place, and every place in it is in the file
/// `path`, at a line where a block of two or more lines with the entry's key
/// starts.
pub open spec fn names_blocks(idx: Index, path: Seq<char>, lines: Seq<Seq<char>>) -> bool {
    &&& forall|i: int| 0 <= i < idx.len() ==> (#[trigger] idx[i]).1.len() >= 1
    &&& forall|i: int, k: int|
        0 <= i < idx.len() && 0 <= k < idx[i].1.len() ==> (#[trigger] idx[i].1[k]).0 == path
            && is_block_at(lines, idx[i].0, idx[i].1[k].1 as int)
}

proof fn lemma_record_names_blocks(
    idx: Index,
    path: Seq<char>,
    lines: Seq<Seq<char>>,
    key: Seq<char>,
    start: int,
)
    requires
        names_blocks(idx, path, lines),
        is_block_at(lines, key, start),
        start <= usize::MAX,
    ensures
        names_blocks(record_spec(idx, key, (path, start as usize)), path, lines),
{
    let out = record_spec(idx, key, (path, start as usize));
    if has_key(idx, key) {
        let at = slot_of(idx, key);
        assert(idx[at].0 == key);
        assert forall|i: int| 0 <= i < out.len() implies (#[trigger] out[i]).1.len() >= 1 by {
            if i != at {
                assert(out[i] == idx[i]);
            }
        }
        assert forall|i: int, k: int| 0 <= i < out.len() && 0 <= k < out[i].1.len() implies (
        #[trigger] out[i].1[k]).0 == path && is_block_at(lines, out[i].0, out[i].1[k].1 as int) by {
            if i != at {
                assert(out[i] == idx[i]);
                assert(out[i].1[k] == idx[i].1[k]);
            } else if k < idx[i].1.len() {
                assert(out[i].1[k] == idx[i].1[k]);
            }
        }
    } else {
        assert forall|i: int| 0 <= i < out.len() implies (#[trigger] out[i]).1.len() >= 1 by {
            if i < idx.len() {
                assert(out[i] == idx[i]);
            }
        }
        assert forall|i: int, k: int| 0 <= i < out.len() && 0 <= k < out[i].1.len() implies (
        #[trigger] out[i].1[k]).0 == path && is_block_at(lines, out[i].0, out[i].1[k].1 as int) by {
            if i < idx.len() {
                assert(out[i] == idx[i]);
                assert(out[i].1[k] == idx[i].1[k]);
            }
        }
    }
}

proof fn lemma_blocks_from_names(
    idx: Index,
    path: Seq<char>,
    lines: Seq<Seq<char>>,
    start: int,
    end: int,
)
    requires
        names_blocks(idx, path, lines),
        0 <= start,
        end <= lines.len() <= usize::MAX,
    ensures
        names_blocks(blocks_from(idx, path, lines, start, end), path, lines),
    decreases end - start,
{
    if end >= start + 2 {
        lemma_blocks_from_names(idx, path, lines, start, end - 1);
        lemma_record_names_blocks(
            blocks_from(idx, path, lines, start, end - 1),
            path,
            lines,
            block_key(lines, start, end),
            start,
        );
    }
}

proof fn lemma_blocks_names(path: Seq<char>, lines: Seq<Seq<char>>, starts: int)
    requires
        starts <= lines.len() <= usize::MAX,
    ensures
        names_blocks(blocks_spec(path, lines, starts), path, lines),
    decreases starts,
{
    if starts > 0 {
        lemma_blocks_names(path, lines, starts - 1);
        lemma_blocks_from_names(
            blocks_spec(path, lines, starts - 1),
            path,
            lines,
            starts - 1,
            lines.len() as int,
        );
    }
}

/// The index of blocks names nothing shorter than two lines: each of its
/// entries has at least one place, and at each place that it names a block of
/// two or more lines with the entry's key starts.
pub proof fn lemma_blocks_span_two_lines(path: Seq<char>, lines: Seq<Seq<char>>)
    requires
        lines.len() <= usize::MAX,
    ensures
        names_blocks(blocks_spec(path, lines, lines.len() as int), path, lines),
{
    lemma_blocks_names(path, lines, lines.len() as int);
}

proof fn lemma_record_keeps(idx: Index, key: Seq<char>, place: Place, other: Seq<char>, had: Place)
    requires
        distinct_keys(idx),
    ensures
        distinct_keys(record_spec(idx, key, place)),
        places_of(record_spec(idx, key, place), key).contains(place),
        places_of(idx, other).contains(had) ==> places_of(
            record_spec(idx, key, place),
            other,
        ).contains(had),
{
    lemma_extend(idx, key, seq![place]);
    let grown = places_of(idx, key) + seq![place];
    assert(grown[grown.len() - 1] == place);
    if other == key && places_of(idx, other).contains(had) {
        let k = choose|k: int| 0 <= k < places_of(idx, key).len() && places_of(idx, key)[k] == had;
        assert(grown[k] == had);
    }
}

proof fn lemma_blocks_from_keeps(
    idx: Index,
    path: Seq<char>,
    lines: Seq<Seq<char>>,
    start: int,
    end: int,
    other: Seq<char>,
    had: Place,
)
    requires
        distinct_keys(idx),
    ensures
        distinct_keys(blocks_from(idx, path, lines, start, end)),
        places_of(idx, other).contains(had) ==> places_of(
            blocks_from(idx, path, lines, start, end),
            other,
        ).contains(had),
        forall|e: int|
            start + 2 <= e <= end ==> places_of(
                blocks_from(idx, path, lines, start, end),
                #[trigger] block_key(lines, start, e),
            ).contains((path, start as usize)),
    decreases end - start,
{
    if end >= start + 2 {
        let before = blocks_from(idx, path, lines, start, end - 1);
        let key = block_key(lines, start, end);
        let place = (path, start as usize);
        lemma_blocks_from_keeps(idx, path, lines, start, end - 1, other, had);
        lemma_record_keeps(before, key, place, other, had);
        assert forall|e: int| start + 2 <= e <= end implies places_of(
            blocks_from(idx, path, lines, start, end),
            #[trigger] block_key(lines, start, e),
        ).contains(place) by {
            if e < end {
                lemma_record_keeps(before, key, place, block_key(lines, start, e), place);
            }
        }
    }
}

/// Every block is in the index: for each run of two or more lines, the index
/// has, under the run's canonical value, the place where the run starts.
pub proof fn lemma_blocks_all_recorded(
    path: Seq<char>,
    lines: Seq<Seq<char>>,
    starts: int,
    start: int,
    end: int,
)
    requires
        0 <= start < starts,
        start + 2 <= end <= lines.len(),
    ensures
        distinct_keys(blocks_spec(path, lines, starts)),
        places_of(blocks_spec(path, lines, starts), block_key(lines, start, end)).contains(
            (path, start as usize),
        ),
    decreases starts,
{
    lemma_blocks_distinct(path, lines, starts - 1);
    let before = blocks_spec(path, lines, starts - 1);
    let key = block_key(lines, start, end);
    let place = (path, start as usize);
    if start < starts - 1 {
        lemma_blocks_all_recorded(path, lines, starts - 1, start, end);
    }
    lemma_blocks_from_keeps(before, path, lines, starts - 1, lines.len() as int, key, place);
}

/// The index of blocks has no key twice.
pub proof fn lemma_blocks_distinct(path: Seq<char>, lines: Seq<Seq<char>>, starts: int)
    ensures
        distinct_keys(blocks_spec(path, lines, starts)),
    decreases starts,
{
    if starts > 0 {
        lemma_blocks_distinct(path, lines, starts - 1);
        lemma_blocks_from_keeps(
            blocks_spec(path, lines, starts - 1),
            path,
            lines,
            starts - 1,
            lines.len() as int,
            Seq::empty(),
            (Seq::empty(), 0),
        );
    }
}

} // verus!
