use strainer::occurrences::{Entry, FileLocation};
use strainer::options::{Mode, Options, SearchResult};
use strainer::pattern::parse_pattern;
use strainer::printing::{print_all_unhighlighted, print_occurences, push_decimal};
use strainer::search::{
    collect, dedupe_file, files_per_thread, files_with_duplicates, into_duplicates,
    mode_from_matches, next_phase, search_file, sort_duplicates, summarize, ConfigError, Event,
    Phase, MAX_THREADS,
};

fn options(mode: Mode, blocks: bool) -> Options {
    Options {
        line_delimiter: '\n',
        line_pattern: parse_pattern("*"),
        squash_chars: vec![],
        trim_whitespace: false,
        blocks,
        mode,
    }
}

fn run(mode: Mode, blocks: bool, files: &[(&str, &str)]) -> Vec<Entry> {
    let opts = options(mode, blocks);
    let mut results = SearchResult::from_mode(mode);
    for (path, text) in files {
        collect(&mut results, search_file(&opts, path, text));
    }
    sort_duplicates(into_duplicates(results))
}

fn shape(entries: &Vec<Entry>) -> Vec<(String, Vec<(String, usize)>)> {
    entries
        .iter()
        .map(|e| {
            (
                e.key.clone(),
                e.locations.iter().map(|l| (l.path.clone(), l.line_number)).collect(),
            )
        })
        .collect()
}

fn entry(key: &str, at: &[(&str, usize)]) -> Entry {
    Entry {
        key: key.to_string(),
        locations: at
            .iter()
            .map(|(p, n)| FileLocation { path: p.to_string(), line_number: *n })
            .collect(),
    }
}

#[test]
fn all_files_end_to_end() {
    let dups = run(Mode::AllFiles, false, &[("f1", "foo\nbar\nfoo\n"), ("f2", "baz\n")]);
    assert_eq!(
        shape(&dups),
        vec![("foo".to_string(), vec![("f1".to_string(), 0), ("f1".to_string(), 2)])]
    );
    let summary = summarize(2, &dups);
    assert_eq!(summary.files_scanned, 2);
    assert_eq!(summary.duplicate_count, 1);
    assert_eq!(summary.files_with_duplicates, 1);
}

#[test]
fn all_files_reports_a_line_shared_by_two_files() {
    let dups = run(Mode::AllFiles, false, &[("A", "shared"), ("B", "shared")]);
    assert_eq!(
        shape(&dups),
        vec![("shared".to_string(), vec![("A".to_string(), 0), ("B".to_string(), 0)])]
    );
    assert_eq!(files_with_duplicates(&dups), 2);
}

#[test]
fn same_file_does_not_report_a_line_shared_by_two_files() {
    let dups = run(Mode::SameFile, false, &[("A", "shared"), ("B", "shared")]);
    assert!(dups.is_empty());
    assert_eq!(files_with_duplicates(&dups), 0);
}

#[test]
fn same_file_reports_each_file_on_its_own() {
    let dups = run(Mode::SameFile, false, &[("A", "x\ny\nx\n"), ("B", "y\nx\nx\ny\n")]);
    assert_eq!(dups.len(), 3);
    assert_eq!(dups[0].key, "x");
    assert_eq!(dups[1].key, "x");
    assert_eq!(dups[2].key, "y");
    assert_eq!(files_with_duplicates(&dups), 2);
}

#[test]
fn remove_duplicates_gathers_nothing() {
    let opts = options(Mode::RemoveDuplicates, false);
    let mut results = SearchResult::from_mode(Mode::RemoveDuplicates);
    collect(&mut results, search_file(&opts, "A", "x\nx\n"));
    assert!(matches!(results, SearchResult::RemoveDuplicates));
    assert!(into_duplicates(results).is_empty());
}

#[test]
fn block_mode_end_to_end() {
    let dups = run(Mode::SameFile, true, &[("f", "a\nb\na\nb\nc\n")]);
    assert_eq!(
        shape(&dups),
        vec![("a\nb".to_string(), vec![("f".to_string(), 0), ("f".to_string(), 2)])]
    );
    assert_eq!(summarize(1, &dups).duplicate_count, 1);
}

#[test]
fn from_mode_starts_empty() {
    match SearchResult::from_mode(Mode::AllFiles) {
        SearchResult::AllFiles(index) => assert_eq!(index.len(), 0),
        _ => panic!("wrong variant"),
    }
    match SearchResult::from_mode(Mode::SameFile) {
        SearchResult::SameFile(list) => assert!(list.is_empty()),
        _ => panic!("wrong variant"),
    }
    assert!(matches!(
        SearchResult::from_mode(Mode::RemoveDuplicates),
        SearchResult::RemoveDuplicates
    ));
}

#[test]
fn mode_from_matches_covers_the_four_cases() {
    assert_eq!(mode_from_matches(false, false), Ok(Mode::AllFiles));
    assert_eq!(mode_from_matches(false, true), Ok(Mode::SameFile));
    assert_eq!(mode_from_matches(true, true), Ok(Mode::RemoveDuplicates));
    assert_eq!(mode_from_matches(true, false), Err(ConfigError::RemoveWithoutSameFile));
}

#[test]
fn config_error_has_its_message() {
    assert_eq!(
        ConfigError::RemoveWithoutSameFile.message(),
        "ERROR: Can't use --remove_duplicates without --same_file"
    );
}

#[test]
fn files_per_thread_rounds_up() {
    assert_eq!(MAX_THREADS, 10);
    assert_eq!(files_per_thread(0, 10), 0);
    assert_eq!(files_per_thread(1, 10), 1);
    assert_eq!(files_per_thread(10, 10), 1);
    assert_eq!(files_per_thread(11, 10), 2);
    assert_eq!(files_per_thread(25, 10), 3);
    assert_eq!(files_per_thread(100, 10), 10);
    assert_eq!(files_per_thread(usize::MAX, 1), usize::MAX);
    assert_eq!(files_per_thread(usize::MAX, usize::MAX), 1);
}

#[test]
fn dedupe_file_rewrites_the_text() {
    let opts = options(Mode::RemoveDuplicates, false);
    assert_eq!(dedupe_file(&opts, "a\nb\na\n"), "a\nb\n\n");
}

#[test]
fn search_file_follows_the_block_flag() {
    let lines = search_file(&options(Mode::AllFiles, false), "f", "a\nb\n");
    assert!(lines.get("a").is_some());
    assert!(lines.get("a\nb").is_none());
    let blocks = search_file(&options(Mode::AllFiles, true), "f", "a\nb\n");
    assert!(blocks.get("a").is_none());
    assert!(blocks.get("a\nb").is_some());
}

#[test]
fn sort_duplicates_orders_by_key() {
    let sorted = sort_duplicates(vec![
        entry("pear", &[("f", 1), ("f", 2)]),
        entry("apple", &[("f", 3), ("g", 4)]),
        entry("fig", &[("h", 5), ("h", 6)]),
        entry("Zebra", &[("h", 7), ("h", 8)]),
        entry("apple", &[("z", 9), ("z", 10)]),
    ]);
    let keys: Vec<&str> = sorted.iter().map(|e| e.key.as_str()).collect();
    assert_eq!(keys, vec!["Zebra", "apple", "apple", "fig", "pear"]);
    assert_eq!(sorted[1].locations[0].path, "f");
    assert_eq!(sorted[2].locations[0].path, "z");
    assert_eq!(sorted[4].locations[1].line_number, 2);
}

#[test]
fn into_duplicates_keeps_only_repeated_keys() {
    let opts = options(Mode::AllFiles, false);
    let mut results = SearchResult::from_mode(Mode::AllFiles);
    collect(&mut results, search_file(&opts, "f", "b\na\nb\nc\na\n"));
    let dups = into_duplicates(results);
    let keys: Vec<&str> = dups.iter().map(|e| e.key.as_str()).collect();
    assert_eq!(keys, vec!["b", "a"]);
}

#[test]
fn files_with_duplicates_counts_distinct_paths() {
    let dups = vec![
        entry("a", &[("f", 1), ("g", 2), ("f", 3)]),
        entry("b", &[("g", 3), ("h", 4)]),
    ];
    assert_eq!(files_with_duplicates(&dups), 3);
}

#[test]
fn push_decimal_writes_numerals() {
    for n in [0usize, 7, 10, 42, 100, 909, 65536, usize::MAX] {
        let mut out = String::from("n=");
        push_decimal(&mut out, n);
        assert_eq!(out, format!("n={}", n));
    }
}

#[test]
fn file_location_is_written_as_path_and_line() {
    let location = FileLocation { path: "src/a.rs".to_string(), line_number: 12 };
    assert_eq!(location.to_text(), "src/a.rs:12");
}

#[test]
fn print_occurences_lists_the_locations() {
    let e = entry("foo", &[("f1", 0), ("f1", 2)]);
    let mut out = String::from(">");
    print_occurences(&e.key, &e.locations, &mut out);
    assert_eq!(out, ">foo\n\tf1:0\n\tf1:2");
}

#[test]
fn print_all_unhighlighted_counts_and_spaces() {
    let dups = vec![entry("foo", &[("f1", 0), ("f1", 2)]), entry("bar", &[("f2", 10), ("f3", 11)])];
    let (text, count) = print_all_unhighlighted(&dups);
    assert_eq!(count, 2);
    assert_eq!(text, "\n\nfoo\n\tf1:0\n\tf1:2\n\nbar\n\tf2:10\n\tf3:11");
}

#[test]
fn print_all_unhighlighted_of_nothing_is_empty() {
    let (text, count) = print_all_unhighlighted(&vec![]);
    assert_eq!(count, 0);
    assert_eq!(text, "");
}

#[test]
fn a_run_goes_through_its_phases() {
    let mode = Mode::AllFiles;
    let mut phase = Phase::Init;
    for (event, want) in [
        (Event::Started, Phase::Listing),
        (Event::Listed, Phase::Scanning),
        (Event::FileFailed, Phase::Scanning),
        (Event::Joined, Phase::Aggregated),
        (Event::Reported, Phase::Presented),
        (Event::Started, Phase::Presented),
    ] {
        phase = next_phase(phase, mode, event);
        assert_eq!(phase, want);
    }
}

#[test]
fn a_failing_file_ends_a_run_that_rewrites() {
    assert_eq!(
        next_phase(Phase::Scanning, Mode::RemoveDuplicates, Event::FileFailed),
        Phase::Aborted
    );
    assert_eq!(next_phase(Phase::Scanning, Mode::SameFile, Event::FileFailed), Phase::Scanning);
    assert_eq!(next_phase(Phase::Aborted, Mode::RemoveDuplicates, Event::Joined), Phase::Aborted);
    assert_eq!(next_phase(Phase::Listing, Mode::AllFiles, Event::ListingFailed), Phase::Aborted);
    assert_eq!(next_phase(Phase::Init, Mode::AllFiles, Event::Joined), Phase::Init);
}

#[test]
fn sort_duplicates_keeps_the_order_of_equal_keys() {
    let sorted = sort_duplicates(vec![
        entry("b", &[("1", 0), ("1", 1)]),
        entry("a", &[("2", 0), ("2", 1)]),
        entry("b", &[("3", 0), ("3", 1)]),
        entry("a", &[("4", 0), ("4", 1)]),
        entry("b", &[("5", 0), ("5", 1)]),
    ]);
    let files: Vec<&str> = sorted.iter().map(|e| e.locations[0].path.as_str()).collect();
    assert_eq!(files, vec!["2", "4", "1", "3", "5"]);
}
