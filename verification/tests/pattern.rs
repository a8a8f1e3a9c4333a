use strainer::pattern::{find_from, parse_pattern};
use strainer::text::{chars_le, chars_of, is_whitespace, split_chars, string_of, trim_bounds};

#[test]
fn pattern_with_wildcards_matches() {
    assert!(strainer::pattern::matches("abcdef", &parse_pattern("a*c*f")));
}

#[test]
fn pattern_with_wildcards_fails_on_missing_segment() {
    assert!(!strainer::pattern::matches("abdef", &parse_pattern("a*c*f")));
}

#[test]
fn star_matches_everything() {
    let star = parse_pattern("*");
    assert!(strainer::pattern::matches("", &star));
    assert!(strainer::pattern::matches("anything at all", &star));
}

#[test]
fn empty_pattern_matches_everything() {
    assert!(strainer::pattern::matches("", &vec![]));
    assert!(strainer::pattern::matches("abc", &vec![]));
    assert!(strainer::pattern::matches("abc", &parse_pattern("")));
}

#[test]
fn consecutive_stars_match() {
    assert!(strainer::pattern::matches("ab", &parse_pattern("a**b")));
}

#[test]
fn literal_pattern_is_found_anywhere() {
    assert!(strainer::pattern::matches("xxabcxx", &parse_pattern("abc")));
    assert!(!strainer::pattern::matches("xxabxcx", &parse_pattern("abc")));
}

#[test]
fn next_segment_may_start_where_the_last_was_found() {
    // The search goes on from the start of what was found, not from behind it.
    assert!(strainer::pattern::matches("xaby", &parse_pattern("ab*a")));
    assert!(strainer::pattern::matches("ab", &parse_pattern("ab*b")));
}

#[test]
fn matching_is_greedy_and_never_goes_back() {
    assert!(!strainer::pattern::matches("ba", &parse_pattern("a*b")));
}

#[test]
fn matching_works_outside_ascii() {
    assert!(strainer::pattern::matches("grüße", &parse_pattern("ü*e")));
    assert!(!strainer::pattern::matches("grüße", &parse_pattern("e*ü")));
}

#[test]
fn common_matches_agrees() {
    assert!(strainer::common::matches("abcdef", "a*c*f"));
    assert!(!strainer::common::matches("abdef", "a*c*f"));
    assert!(strainer::common::matches("", "*"));
    assert!(strainer::common::matches("src/main.rs", "*.rs"));
    assert!(!strainer::common::matches("src/main.py", "*.rs"));
}

#[test]
fn parse_pattern_splits_on_stars() {
    assert_eq!(parse_pattern("a*c*f"), vec!["a", "c", "f"]);
    assert_eq!(parse_pattern("*"), vec!["", ""]);
    assert_eq!(parse_pattern(""), vec![""]);
    assert_eq!(parse_pattern("abc"), vec!["abc"]);
    assert_eq!(parse_pattern("a**"), vec!["a", "", ""]);
}

#[test]
fn parse_pattern_agrees_with_split() {
    for p in ["", "*", "a*b", "**", "x*", "*x", "é*ü"] {
        let want: Vec<String> = p.split('*').map(|s| s.to_string()).collect();
        assert_eq!(parse_pattern(p), want);
    }
}

#[test]
fn find_from_gives_the_first_position() {
    let hay = chars_of("abcabc");
    assert_eq!(find_from(&hay, &chars_of("bc"), 0), Some(1));
    assert_eq!(find_from(&hay, &chars_of("bc"), 2), Some(4));
    assert_eq!(find_from(&hay, &chars_of("bc"), 5), None);
    assert_eq!(find_from(&hay, &chars_of(""), 6), Some(6));
    assert_eq!(find_from(&hay, &chars_of("abcabcd"), 0), None);
}

#[test]
fn chars_of_and_string_of_are_inverse() {
    let chars = chars_of("héllo");
    assert_eq!(chars, vec!['h', 'é', 'l', 'l', 'o']);
    assert_eq!(string_of(&chars, 0, chars.len()), "héllo");
    assert_eq!(string_of(&chars, 1, 3), "él");
    assert_eq!(string_of(&chars, 2, 2), "");
}

#[test]
fn split_chars_agrees_with_split() {
    for text in ["", "a", "a\nb", "\n", "a\n\nb\n"] {
        let want: Vec<String> = text.split('\n').map(|s| s.to_string()).collect();
        assert_eq!(split_chars(&chars_of(text), '\n'), want);
    }
}

#[test]
fn is_whitespace_agrees_with_the_standard_library() {
    let mut n: u32 = 0;
    while n <= 0x10FFFF {
        if let Some(c) = char::from_u32(n) {
            assert_eq!(is_whitespace(c), c.is_whitespace(), "code point {}", n);
        }
        n += 1;
    }
}

#[test]
fn trim_bounds_agrees_with_trim() {
    for text in ["", " ", "  a b \t", "a", "\u{2003}x\u{a0}", "\n\n"] {
        let chars = chars_of(text);
        let (a, b) = trim_bounds(&chars, 0, chars.len());
        assert_eq!(string_of(&chars, a, b), text.trim());
    }
}

#[test]
fn trim_bounds_stays_inside_the_range() {
    let chars = chars_of("ab  cd  ef");
    assert_eq!(trim_bounds(&chars, 2, 8), (4, 6));
    assert_eq!(trim_bounds(&chars, 2, 4), (4, 4));
}

#[test]
fn chars_le_agrees_with_the_order_of_strings() {
    let words = ["", "a", "ab", "b", "B", "é", "z", "abc", "ab\u{10000}", "ab\u{ffff}"];
    for x in words {
        for y in words {
            assert_eq!(chars_le(&chars_of(x), &chars_of(y)), x <= y, "{:?} {:?}", x, y);
        }
    }
}
