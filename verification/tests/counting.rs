use strainer::counting::{count_lines, strip_lines, walk_lines};
use strainer::occurrences::{merge_records, FileLocation, Occurrences};
use strainer::options::{Mode, Options};
use strainer::pattern::parse_pattern;

fn options(pattern: &str) -> Options {
    Options {
        line_delimiter: '\n',
        line_pattern: parse_pattern(pattern),
        squash_chars: vec![],
        trim_whitespace: false,
        blocks: false,
        mode: Mode::AllFiles,
    }
}

fn places(index: &Occurrences, key: &str) -> Vec<(String, usize)> {
    match index.get(key) {
        Some(list) => list.iter().map(|l| (l.path.clone(), l.line_number)).collect(),
        None => vec![],
    }
}

fn keys(index: &Occurrences) -> Vec<String> {
    index.entries().iter().map(|e| e.key.clone()).collect()
}

#[test]
fn test_strip_lines_with_no_duplicates() {
    let s = "[Adblock Plus 2.0]
    ||apps.facebook.com^
    ||apps.facebook.com^$popup
    ||apps.facebook.com^$third-party";

    let stripped = strip_lines(
        s,
        &(Options {
            line_delimiter: '\n',
            squash_chars: vec![],

            // aren't used by this function
            line_pattern: vec![],
            trim_whitespace: false,
            blocks: false,
            mode: Mode::AllFiles,
        }),
    );

    assert_eq!(s, stripped);
}

#[test]
fn strip_lines_removes_later_copies_and_keeps_delimiters() {
    let out = strip_lines("foo\nbar\nfoo\nbaz\nbar\n", &options("*"));
    assert_eq!(out, "foo\nbar\n\nbaz\n\n");
}

#[test]
fn strip_lines_of_empty_text_is_empty() {
    assert_eq!(strip_lines("", &options("*")), "");
}

#[test]
fn strip_lines_handles_text_without_final_delimiter() {
    assert_eq!(strip_lines("x\nx", &options("*")), "x\n");
}

#[test]
fn strip_lines_keeps_characters_outside_ascii() {
    assert_eq!(strip_lines("é\nü\né\n", &options("*")), "é\nü\n\n");
}

#[test]
fn strip_lines_twice_gives_the_same_text() {
    let opts = options("*");
    for text in ["a\nb\na\nb\nc\n", "x\nx\n\n", "\n\n\n", "one", "q\n\nq\n\nq"] {
        let once = strip_lines(text, &opts);
        let twice = strip_lines(&once, &opts);
        assert_eq!(once, twice);
    }
}

#[test]
fn strip_lines_twice_with_squashing() {
    let mut opts = options("*");
    opts.squash_chars = vec![' '];
    let once = strip_lines("x y\nx  y\n \nz\n", &opts);
    assert_eq!(once, "x y\n\n \nz\n");
    assert_eq!(strip_lines(&once, &opts), once);
}

#[test]
fn strip_lines_leaves_unique_lines_alone() {
    let mut opts = options("*");
    opts.squash_chars = vec![' '];
    let text = "a  b\nc   d\n e\n";
    assert_eq!(strip_lines(text, &opts), text);
}

#[test]
fn strip_lines_compares_squashed_content() {
    let mut opts = options("*");
    opts.squash_chars = vec![' '];
    assert_eq!(strip_lines("x  y\nx y\nend", &opts), "x  y\n\nend");
}

#[test]
fn strip_lines_ignores_the_trim_flag() {
    let mut opts = options("*");
    opts.trim_whitespace = true;
    assert_eq!(strip_lines("a\n a\na \na\n", &opts), "a\n a\na \n\n");
}

#[test]
fn strip_lines_ignores_the_line_pattern() {
    let opts = options("zzz");
    assert_eq!(strip_lines("a\na\n", &opts), "a\n\n");
}

#[test]
fn strip_lines_keeps_squashed_delimiters_of_removed_lines() {
    let mut opts = options("*");
    opts.squash_chars = vec!['\n'];
    assert_eq!(strip_lines("a\n\na", &opts), "a\n\n");
    assert_eq!(strip_lines("a\n\n\nb\n\na", &opts), "a\n\n\nb\n\n");
    let once = strip_lines("\nx\nx\nx", &opts);
    assert_eq!(once, "\nx\n\n");
    assert_eq!(strip_lines(&once, &opts), once);
    let once = strip_lines("\na\na\na", &opts);
    assert_eq!(once, "\na\n\n");
    assert_eq!(strip_lines(&once, &opts), once);
}

#[test]
fn strip_lines_keeps_every_delimiter() {
    let texts = [
        "", "\n", "\n\n\n", "a\n\na", "a\na\na", "\na\n\n\na\nb  b\nb b\n\n", "x  y\n\nx y",
        "aa\na\n\n\naa",
    ];
    for squash in [vec![], vec!['\n'], vec![' '], vec!['\n', ' ', 'a']] {
        let mut opts = options("*");
        opts.squash_chars = squash;
        for text in texts {
            let out = strip_lines(text, &opts);
            assert_eq!(out.matches('\n').count(), text.matches('\n').count(), "{:?}", text);
            assert!(out.len() <= text.len());
            assert_eq!(strip_lines(&out, &opts), out, "{:?}", text);
        }
    }
}

#[test]
fn strip_lines_leaves_repeated_empty_lines_alone() {
    let text = "a\n\n\nb\n\n";
    assert_eq!(strip_lines(text, &options("*")), text);
}

#[test]
fn strip_lines_with_another_delimiter() {
    let mut opts = options("*");
    opts.line_delimiter = '.';
    assert_eq!(strip_lines("Hi.Ho.Hi.", &opts), "Hi.Ho..");
}

#[test]
fn walk_lines_gives_content_and_raw_text() {
    let mut opts = options("*");
    opts.squash_chars = vec![' '];
    let lines = walk_lines("a  b\n\nc", &opts);
    let got: Vec<(String, String, String)> =
        lines.iter().map(|l| (l.content.clone(), l.raw.clone(), l.lead.clone())).collect();
    assert_eq!(
        got,
        vec![
            ("a b".to_string(), "a  b".to_string(), String::new()),
            (String::new(), String::new(), String::new()),
            ("c".to_string(), "c".to_string(), String::new()),
        ]
    );
}

#[test]
fn walk_lines_of_empty_text_has_one_empty_line() {
    let lines = walk_lines("", &options("*"));
    assert_eq!(lines.len(), 1);
    assert_eq!(lines[0].content, "");
    assert_eq!(lines[0].raw, "");
    assert_eq!(lines[0].lead, "");
}

#[test]
fn walk_lines_squashes_a_repeated_delimiter() {
    let mut opts = options("*");
    opts.squash_chars = vec!['\n'];
    let lines = walk_lines("a\n\n\nb", &opts);
    let got: Vec<(String, String, String)> =
        lines.iter().map(|l| (l.content.clone(), l.raw.clone(), l.lead.clone())).collect();
    assert_eq!(
        got,
        vec![
            ("a".to_string(), "a".to_string(), String::new()),
            ("b".to_string(), "b".to_string(), "\n\n".to_string()),
        ]
    );
}

#[test]
fn count_lines_records_zero_based_indices() {
    let index = count_lines("f1", "foo\nbar\nfoo\n", &options("*"));
    assert_eq!(keys(&index), vec!["foo", "bar"]);
    assert_eq!(places(&index, "foo"), vec![("f1".to_string(), 0), ("f1".to_string(), 2)]);
    assert_eq!(places(&index, "bar"), vec![("f1".to_string(), 1)]);
    assert!(index.get("").is_none());
}

#[test]
fn count_lines_records_the_last_line_without_delimiter() {
    let index = count_lines("f", "a\nb", &options("*"));
    assert_eq!(places(&index, "b"), vec![("f".to_string(), 1)]);
}

#[test]
fn count_lines_counts_empty_lines_in_the_index() {
    let index = count_lines("f", "a\n\n\na", &options("*"));
    assert_eq!(index.len(), 1);
    assert_eq!(places(&index, "a"), vec![("f".to_string(), 0), ("f".to_string(), 3)]);
}

#[test]
fn count_lines_squashes_repeated_characters() {
    let mut opts = options("*");
    opts.squash_chars = vec![' '];
    let index = count_lines("f", "x  y\nx y\n", &opts);
    assert_eq!(index.len(), 1);
    assert_eq!(places(&index, "x y"), vec![("f".to_string(), 0), ("f".to_string(), 1)]);
}

#[test]
fn count_lines_without_squashing_keeps_lines_apart() {
    let index = count_lines("f", "x  y\nx y\n", &options("*"));
    assert_eq!(index.len(), 2);
}

#[test]
fn count_lines_trims_when_asked() {
    let mut opts = options("*");
    opts.trim_whitespace = true;
    let index = count_lines("f", "  a\t\na\n \t \n", &opts);
    assert_eq!(keys(&index), vec!["a"]);
    assert_eq!(places(&index, "a"), vec![("f".to_string(), 0), ("f".to_string(), 1)]);
}

#[test]
fn count_lines_without_trimming_keeps_white_space() {
    let index = count_lines("f", "  a\na\n", &options("*"));
    assert_eq!(keys(&index), vec!["  a", "a"]);
}

#[test]
fn count_lines_applies_the_line_pattern() {
    let index = count_lines("f", "let a\nfn b\nlet c\n", &options("let*"));
    assert_eq!(keys(&index), vec!["let a", "let c"]);
    assert_eq!(places(&index, "let c"), vec![("f".to_string(), 2)]);
}

#[test]
fn count_lines_with_another_delimiter() {
    let mut opts = options("*");
    opts.line_delimiter = '.';
    let index = count_lines("f", "Hi.Ho.Hi", &opts);
    assert_eq!(places(&index, "Hi"), vec![("f".to_string(), 0), ("f".to_string(), 2)]);
}

#[test]
fn record_keeps_the_order_of_discovery() {
    let mut index = Occurrences::new();
    index.record("b".to_string(), FileLocation { path: "p".to_string(), line_number: 4 });
    index.record("a".to_string(), FileLocation { path: "p".to_string(), line_number: 5 });
    index.record("b".to_string(), FileLocation { path: "q".to_string(), line_number: 6 });
    assert_eq!(keys(&index), vec!["b", "a"]);
    assert_eq!(places(&index, "b"), vec![("p".to_string(), 4), ("q".to_string(), 6)]);
    assert_eq!(index.len(), 2);
}

#[test]
fn merge_records_concatenates_and_adds() {
    let mut target = count_lines("f1", "a\nb\na\n", &options("*"));
    let source = count_lines("f2", "c\na\n", &options("*"));
    merge_records(&mut target, source);
    assert_eq!(keys(&target), vec!["a", "b", "c"]);
    assert_eq!(
        places(&target, "a"),
        vec![("f1".to_string(), 0), ("f1".to_string(), 2), ("f2".to_string(), 1)]
    );
    assert_eq!(places(&target, "c"), vec![("f2".to_string(), 0)]);
}

#[test]
fn merge_records_of_an_empty_source_changes_nothing() {
    let mut target = count_lines("f1", "a\n", &options("*"));
    merge_records(&mut target, Occurrences::new());
    assert_eq!(keys(&target), vec!["a"]);
    assert_eq!(places(&target, "a"), vec![("f1".to_string(), 0)]);
}

#[test]
fn strip_lines_twice_where_the_delimiter_is_squashed() {
    let mut opts = options("*");
    opts.squash_chars = vec!['\n', ' '];
    for text in ["x\nx\ny", "x\nx\n", "a\n\n\na\nb\nb", "x\nx\nx", "\nx\nx", "\nx\ny\nx", "\n\n"] {
        let once = strip_lines(text, &opts);
        let twice = strip_lines(&once, &opts);
        assert_eq!(once, twice, "{:?}", text);
    }
}

#[test]
fn index_paths_are_kept_for_callers_of_counting() {
    let mut index = strainer::counting::Occurrences::new();
    index.record(
        "k".to_string(),
        strainer::counting::FileLocation { path: "p".to_string(), line_number: 1 },
    );
    let mut target = Occurrences::new();
    strainer::counting::merge_records(&mut target, index);
    assert_eq!(places(&target, "k"), vec![("p".to_string(), 1)]);
}

#[test]
fn get_finds_only_recorded_keys() {
    let index = count_lines("f", "alpha\nbeta\n", &options("*"));
    assert!(index.get("alpha").is_some());
    assert!(index.get("alph").is_none());
    assert!(index.get("alphaa").is_none());
    assert_eq!(index.get("beta").unwrap().len(), 1);
}

#[test]
fn many_keys_are_all_found_again() {
    let mut text = String::new();
    for round in 0..3 {
        for n in 0..500 {
            text.push_str(&format!("line {}\n", n * 7919 % 1000));
            let _ = round;
        }
    }
    let index = count_lines("f", &text, &options("*"));
    assert_eq!(index.len(), 500);
    for entry in index.entries() {
        assert_eq!(entry.locations.len(), 3);
        assert_eq!(entry.locations[1].line_number, entry.locations[0].line_number + 500);
    }
}
