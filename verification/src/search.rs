//! The decisions of a run: which mode it is in, how the files are shared out,
//! what is done with each file, and what is reported at the end.

use crate::blocks::{block_lines_spec, blocks_spec, count_chunks};
use crate::counting::{count_lines, count_of, count_spec, rewrite, scan, strip_lines};
use crate::occurrences::{
    empty_index, entry_views, merge_records, merge_spec, Entry, Index, Occurrences, Place,
};
use crate::options::{Mode, Options, SearchResult};
use crate::text::{chars_le, chars_of, lemma_lex_le_total, lemma_lex_le_transitive, lex_le, views};
use vstd::hash_set::StringHashSet;
use vstd::prelude::*;
use vstd::seq_lib::{to_multiset_build, to_multiset_insert};
use vstd::string::StringExecFns;

verus! {

/// The number of workers that a run has at most.
pub const MAX_THREADS: usize = 10;

/// A configuration that no run can start with.
#[derive(Clone, Copy, Debug, PartialEq, Eq, Structural)]
pub enum ConfigError {
    /// Lines are to be removed, but not per file.
    RemoveWithoutSameFile,
}

impl ConfigError {
    /// The words in which the error is reported.
    pub fn message(&self) -> (out: String)
        ensures
            out@ == "ERROR: Can't use --remove_duplicates without --same_file"@,
    {
        String::from_str("ERROR: Can't use --remove_duplicates without --same_file")
    }
}

/// The mode that the two flags ask for. Removing is per file only: asked for
/// without `same_file` it is refused.
pub fn mode_from_matches(remove_duplicates: bool, same_file: bool) -> (r: Result<Mode, ConfigError>)
    ensures
        r == if remove_duplicates && !same_file {
            Err::<Mode, ConfigError>(ConfigError::RemoveWithoutSameFile)
        } else if remove_duplicates {
            Ok::<Mode, ConfigError>(Mode::RemoveDuplicates)
        } else if same_file {
            Ok::<Mode, ConfigError>(Mode::SameFile)
        } else {
            Ok::<Mode, ConfigError>(Mode::AllFiles)
        },
{
    if remove_duplicates {
        if !same_file {
            Err(ConfigError::RemoveWithoutSameFile)
        } else {
            Ok(Mode::RemoveDuplicates)
        }
    } else {
        if !same_file {
            Ok(Mode::AllFiles)
        } else {
            Ok(Mode::SameFile)
        }
    }
}

/// Where a run stands.
#[derive(Clone, Copy, Debug, PartialEq, Eq, Structural)]
pub enum Phase {
    /// Nothing has been done yet.
    Init,
    /// The files are being listed.
    Listing,
    /// The workers are reading the files.
    Scanning,
    /// All workers are done and what they found is gathered.
    Aggregated,
    /// The result is reported: the run is over.
    Presented,
    /// The run was given up: it is over.
    Aborted,
}

/// What happens in a run.
#[derive(Clone, Copy, Debug, PartialEq, Eq, Structural)]
pub enum Event {
    /// The run starts.
    Started,
    /// The files are listed.
    Listed,
    /// The files could not be listed.
    ListingFailed,
    /// A file could not be read, or could not be written.
    FileFailed,
    /// All workers are done.
    Joined,
    /// The result is reported.
    Reported,
}

/// Where a run in `mode` stands after `event`. A file that fails ends the run
/// where files are rewritten, and is passed over where they are only read. An
/// event that does not belong to the phase changes nothing, and nothing
/// follows the end of a run.
pub open spec fn next_phase_spec(phase: Phase, mode: Mode, event: Event) -> Phase {
    match (phase, event) {
        (Phase::Init, Event::Started) => Phase::Listing,
        (Phase::Listing, Event::Listed) => Phase::Scanning,
        (Phase::Listing, Event::ListingFailed) => Phase::Aborted,
        (Phase::Scanning, Event::FileFailed) => if mode == Mode::RemoveDuplicates {
            Phase::Aborted
        } else {
            Phase::Scanning
        },
        (Phase::Scanning, Event::Joined) => Phase::Aggregated,
        (Phase::Aggregated, Event::Reported) => Phase::Presented,
        _ => phase,
    }
}

/// Where a run in `mode` stands after `event`.
pub fn next_phase(phase: Phase, mode: Mode, event: Event) -> (next: Phase)
    ensures
        next == next_phase_spec(phase, mode, event),
{
    match (phase, event) {
        (Phase::Init, Event::Started) => Phase::Listing,
        (Phase::Listing, Event::Listed) => Phase::Scanning,
        (Phase::Listing, Event::ListingFailed) => Phase::Aborted,
        (Phase::Scanning, Event::FileFailed) => {
            match mode {
                Mode::RemoveDuplicates => Phase::Aborted,
                _ => Phase::Scanning,
            }
        },
        (Phase::Scanning, Event::Joined) => Phase::Aggregated,
        (Phase::Aggregated, Event::Reported) => Phase::Presented,
        _ => phase,
    }
}

/// A run that is over stays as it is, whatever happens; and only a run that
/// rewrites files is given up for a file.
pub proof fn lemma_phases(phase: Phase, mode: Mode, event: Event)
    ensures
        phase == Phase::Presented || phase == Phase::Aborted ==> next_phase_spec(phase, mode, event)
            == phase,
        event == Event::FileFailed && mode != Mode::RemoveDuplicates ==> next_phase_spec(
            phase,
            mode,
            event,
        ) == phase,
{
}

/// The number of files that each worker gets: the least number with which
/// `max_threads` workers take all files, the files being shared out in runs of
/// this length.
pub fn files_per_thread(files_count: usize, max_threads: usize) -> (n: usize)
    requires
        max_threads > 0,
    ensures
        n == (files_count + max_threads - 1) / (max_threads as int),
        n * max_threads >= files_count,
        files_count > 0 ==> (n - 1) * max_threads < files_count,
{
    let whole: usize = files_count / max_threads;
    let rest: usize = files_count % max_threads;
    assert(files_count == whole * max_threads + rest) by (nonlinear_arith)
        requires
            max_threads > 0,
            whole == files_count / max_threads,
            rest == files_count % max_threads,
    ;
    if rest == 0 {
        assert((whole * max_threads + max_threads - 1) / (max_threads as int) == whole)
            by (nonlinear_arith)
            requires
                max_threads > 0,
        ;
        assert((whole - 1) * max_threads < whole * max_threads) by (nonlinear_arith)
            requires
                max_threads > 0,
        ;
        whole
    } else {
        assert((whole * max_threads + rest + max_threads - 1) / (max_threads as int) == whole + 1)
            by (nonlinear_arith)
            requires
                max_threads > 0,
                0 < rest < max_threads,
        ;
        assert(whole < files_count) by (nonlinear_arith)
            requires
                files_count == whole * max_threads + rest,
                max_threads > 0,
                rest > 0,
        ;
        assert((whole + 1) * max_threads == whole * max_threads + max_threads) by (nonlinear_arith);
        whole + 1
    }
}

/// The index of one file, whose text is `contents`: of its blocks where
/// `options` asks for blocks, else of its lines.
pub fn search_file(options: &Options, file_path: &str, contents: &str) -> (found: Occurrences)
    ensures
        found.wf(),
        found@ == if options.blocks {
            blocks_spec(
                file_path@,
                block_lines_spec(contents@, options.line_delimiter, options.trim_whitespace),
                block_lines_spec(
                    contents@,
                    options.line_delimiter,
                    options.trim_whitespace,
                ).len() as int,
            )
        } else {
            count_spec(
                file_path@,
                crate::counting::contents(
                    scan(contents@, options.line_delimiter, options.squash_chars@),
                ),
                options.trim_whitespace,
                views(options.line_pattern@),
            )
        },
{
    if options.blocks {
        count_chunks(file_path, contents, options)
    } else {
        count_lines(file_path, contents, options)
    }
}

/// What a file with the text `contents` is overwritten with when repeated
/// lines are removed.
pub fn dedupe_file(options: &Options, contents: &str) -> (new_contents: String)
    ensures
        new_contents@ == rewrite(contents@, options.line_delimiter, options.squash_chars@),
        count_of(new_contents@, options.line_delimiter) == count_of(
            contents@,
            options.line_delimiter,
        ),
        new_contents@.len() <= contents@.len(),
{
    strip_lines(contents, options)
}

/// Takes the index of one file into the state of the run: merged into the one
/// index over all files, or put behind the indexes of the files before it.
/// Where lines are removed nothing is gathered.
pub fn collect(results: &mut SearchResult, file_results: Occurrences)
    requires
        old(results).wf(),
        file_results.wf(),
    ensures
        final(results).wf(),
        final(results).mode() == old(results).mode(),
        final(results).gathered() == match old(results).mode() {
            Mode::AllFiles => seq![merge_spec(old(results).gathered()[0], file_results@)],
            Mode::SameFile => old(results).gathered().push(file_results@),
            Mode::RemoveDuplicates => old(results).gathered(),
        },
{
    match results {
        SearchResult::AllFiles(index) => {
            merge_records(index, file_results);
        },
        SearchResult::SameFile(list) => {
            list.push(file_results);
        },
        SearchResult::RemoveDuplicates => {},
    }
}

/// The entries of `idx` that are duplicates: those with two places or more,
/// in the order in which they stand.
pub open spec fn repeated(idx: Index) -> Index
    decreases idx.len(),
{
    if idx.len() == 0 {
        Seq::empty()
    } else if idx.last().1.len() >= 2 {
        repeated(idx.drop_last()).push(idx.last())
    } else {
        repeated(idx.drop_last())
    }
}

/// The duplicates of each index in turn.
pub open spec fn repeated_all(list: Seq<Index>) -> Index
    decreases list.len(),
{
    if list.len() == 0 {
        Seq::empty()
    } else {
        repeated_all(list.drop_last()) + repeated(list.last())
    }
}

/// Moves the duplicates of `index` behind `out`.
fn push_repeated(out: &mut Vec<Entry>, index: Occurrences)
    ensures
        entry_views(final(out)@) == entry_views(old(out)@) + repeated(index@),
{
    let ghost start = entry_views(out@);
    let entries = index.into_entries();
    let ghost moved = entries@;
    let ghost from = entry_views(moved);
    for entry in it: entries
        invariant
            it.seq() == moved,
            from == entry_views(moved),
            entry_views(out@) == start + repeated(from.take(it.index() as int)),
    {
        let ghost had = entry_views(out@);
        assert(from.take(it.index() + 1).drop_last() == from.take(it.index() as int));
        if entry.locations.len() >= 2 {
            out.push(entry);
            assert(entry_views(out@) == had.push(entry@));
        }
    }
    assert(from.take(from.len() as int) == from);
}

/// The duplicates that a run has gathered: every entry with two places or
/// more, index by index, in the order in which the entries stand.
pub fn into_duplicates(results: SearchResult) -> (out: Vec<Entry>)
    ensures
        entry_views(out@) == repeated_all(results.gathered()),
{
    let ghost all = results.gathered();
    let mut out: Vec<Entry> = Vec::new();
    match results {
        SearchResult::AllFiles(index) => {
            assert(repeated_all(all) == repeated(index@)) by {
                assert(repeated_all(all.drop_last()) + repeated(index@) == repeated(index@));
            }
            push_repeated(&mut out, index);
        },
        SearchResult::SameFile(list) => {
            let ghost moved = list@;
            for index in it: list
                invariant
                    it.seq() == moved,
                    all.len() == moved.len(),
                    forall|i: int| 0 <= i < moved.len() ==> (#[trigger] moved[i])@ == all[i],
                    entry_views(out@) == repeated_all(all.take(it.index() as int)),
            {
                assert(all.take(it.index() + 1).drop_last() == all.take(it.index() as int));
                push_repeated(&mut out, index);
            }
            assert(all.take(all.len() as int) == all);
        },
        SearchResult::RemoveDuplicates => {},
    }
    out
}

/// Whether the entries stand in the order of their keys.
pub open spec fn sorted_by_key(idx: Index) -> bool {
    forall|i: int, j: int| 0 <= i < j < idx.len() ==> lex_le((#[trigger] idx[i]).0, (#[trigger] idx[j]).0)
}

/// Where an entry with the key `key` goes into the sorted `idx`: behind the
/// last entry whose key does not come after `key`.
pub open spec fn insertion_point(idx: Index, key: Seq<char>) -> int
    decreases idx.len(),
{
    if idx.len() == 0 {
        0
    } else if lex_le(idx.last().0, key) {
        idx.len() as int
    } else {
        insertion_point(idx.drop_last(), key)
    }
}

/// The entries of `idx` in the order of their keys, entries with the same key
/// in the order in which they stand in `idx`.
pub open spec fn sort_spec(idx: Index) -> Index
    decreases idx.len(),
{
    if idx.len() == 0 {
        Seq::empty()
    } else {
        let before = sort_spec(idx.drop_last());
        before.insert(insertion_point(before, idx.last().0), idx.last())
    }
}

/// The same entries in the order of their keys; entries with the same key
/// keep their order.
pub fn sort_duplicates(duplicates: Vec<Entry>) -> (out: Vec<Entry>)
    ensures
        entry_views(out@) == sort_spec(entry_views(duplicates@)),
        sorted_by_key(entry_views(out@)),
        entry_views(out@).to_multiset() == entry_views(duplicates@).to_multiset(),
{
    let ghost moved = duplicates@;
    let ghost from = entry_views(moved);
    let mut out: Vec<Entry> = Vec::new();
    let mut keys: Vec<Vec<char>> = Vec::new();
    assert(from.take(0) == empty_index());
    for entry in it: duplicates
        invariant
            it.seq() == moved,
            from == entry_views(moved),
            keys@.len() == out@.len(),
            forall|i: int| 0 <= i < out@.len() ==> (#[trigger] keys@[i])@ == out@[i].key@,
            entry_views(out@) == sort_spec(from.take(it.index() as int)),
            sorted_by_key(entry_views(out@)),
            entry_views(out@).to_multiset() == from.take(it.index() as int).to_multiset(),
    {
        let ghost had = entry_views(out@);
        let key = chars_of(entry.key.as_str());
        let mut at: usize = out.len();
        assert(had.take(at as int) == had);
        while at > 0 && !chars_le(&keys[at - 1], &key)
            invariant
                at <= out@.len(),
                keys@.len() == out@.len(),
                had == entry_views(out@),
                forall|i: int| 0 <= i < out@.len() ==> (#[trigger] keys@[i])@ == out@[i].key@,
                forall|j: int| at <= j < out@.len() ==> !lex_le((#[trigger] keys@[j])@, key@),
                insertion_point(had, key@) == insertion_point(had.take(at as int), key@),
            decreases at,
        {
            assert(had.take(at as int).drop_last() == had.take(at - 1));
            at -= 1;
        }
        proof {
            assert forall|i: int| 0 <= i < at implies lex_le((#[trigger] had[i]).0, key@) by {
                if i < at - 1 {
                    lemma_lex_le_transitive(had[i].0, had[at - 1].0, key@);
                }
            }
            assert forall|j: int| at <= j < had.len() implies lex_le(key@, (#[trigger] had[j]).0) by {
                assert(keys@[j]@ == had[j].0);
                lemma_lex_le_total(key@, had[j].0);
            }
            to_multiset_insert(had, at as int, entry@);
            to_multiset_build(from.take(it.index() as int), entry@);
            assert(from.take(it.index() + 1) == from.take(it.index() as int).push(entry@));
            assert(from.take(it.index() + 1).drop_last() == from.take(it.index() as int));
        }
        out.insert(at, entry);
        keys.insert(at, key);
        proof {
            let now = entry_views(out@);
            assert(now == had.insert(at as int, entry@));
            assert forall|i: int, j: int| 0 <= i < j < now.len() implies lex_le(
                (#[trigger] now[i]).0,
                (#[trigger] now[j]).0,
            ) by {
                if i < at && j > at {
                    lemma_lex_le_transitive(had[i].0, key@, had[j - 1].0);
                }
            }
        }
    }
    assert(from.take(from.len() as int) == from);
    out
}

/// The files that the places name.
pub open spec fn paths_of(places: Seq<Place>) -> Set<Seq<char>>
    decreases places.len(),
{
    if places.len() == 0 {
        Set::empty()
    } else {
        paths_of(places.drop_last()).insert(places.last().0)
    }
}

/// The files that any place in `idx` names.
pub open spec fn paths_in(idx: Index) -> Set<Seq<char>>
    decreases idx.len(),
{
    if idx.len() == 0 {
        Set::empty()
    } else {
        paths_in(idx.drop_last()).union(paths_of(idx.last().1))
    }
}

/// The number of files in which any of the duplicates was found.
pub fn files_with_duplicates(duplicates: &Vec<Entry>) -> (n: usize)
    ensures
        n == paths_in(entry_views(duplicates@)).len(),
{
    let ghost idx = entry_views(duplicates@);
    let mut files = StringHashSet::new();
    let mut i: usize = 0;
    while i < duplicates.len()
        invariant
            i <= duplicates.len(),
            idx == entry_views(duplicates@),
            files@ == paths_in(idx.take(i as int)),
        decreases duplicates.len() - i,
    {
        let locations = &duplicates[i].locations;
        let ghost places = idx[i as int].1;
        let ghost base = files@;
        let mut k: usize = 0;
        while k < locations.len()
            invariant
                k <= locations.len(),
                places.len() == locations@.len(),
                forall|j: int| 0 <= j < places.len() ==> places[j] == (#[trigger] locations@[j])@,
                files@ == base.union(paths_of(places.take(k as int))),
            decreases locations.len() - k,
        {
            assert(places.take(k + 1).drop_last() == places.take(k as int));
            files.insert(locations[k].path.clone());
            k += 1;
        }
        assert(places.take(k as int) == places);
        assert(idx.take(i + 1).drop_last() == idx.take(i as int));
        i += 1;
    }
    assert(idx.take(i as int) == idx);
    files.len()
}

/// The counts that are reported at the end of a run.
#[derive(Clone, Copy, Debug, PartialEq, Eq, Structural)]
pub struct Summary {
    /// The number of files that were read.
    pub files_scanned: usize,
    /// The number of duplicates.
    pub duplicate_count: usize,
    /// The number of files in which any duplicate was found.
    pub files_with_duplicates: usize,
}

/// The counts for a run over `files_scanned` files that found `duplicates`.
pub fn summarize(files_scanned: usize, duplicates: &Vec<Entry>) -> (summary: Summary)
    ensures
        summary.files_scanned == files_scanned,
        summary.duplicate_count == duplicates@.len(),
        summary.files_with_duplicates == paths_in(entry_views(duplicates@)).len(),
{
    Summary {
        files_scanned,
        duplicate_count: duplicates.len(),
        files_with_duplicates: files_with_duplicates(duplicates),
    }
}

} // verus!
