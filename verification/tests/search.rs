use grepverse::error::ScanError;
use grepverse::matcher::{MatchConfig, MatchMode};
use grepverse::record::{LineRecord, OutputBlock};
use grepverse::render::{label_text, render_line};
use grepverse::filter::{compile_globs, keep_glob, passes_filters, should_process_file};
use grepverse::search::{choose_strategy, scan, scan_with, SourceKind, Strategy, MAX_MAP_SIZE};

fn config(pattern: &str, mode: MatchMode) -> MatchConfig {
    MatchConfig {
        pattern: pattern.to_string(),
        mode,
        case_insensitive: false,
        whole_word: false,
        invert: false,
    }
}

fn rec(line_number: usize, text: &str, matched: bool) -> LineRecord {
    LineRecord { line_number, text: text.to_string(), matched }
}

fn block(records: Vec<LineRecord>) -> OutputBlock {
    OutputBlock { records }
}

#[test]
fn stream_is_scanned_in_one_pass() {
    assert_eq!(choose_strategy(SourceKind::Stream), Strategy::Sequential);
}

#[test]
fn file_up_to_the_limit_is_scanned_in_parallel() {
    assert_eq!(MAX_MAP_SIZE, 1024 * 1024 * 1024);
    assert_eq!(choose_strategy(SourceKind::File { size: 0 }), Strategy::Parallel);
    assert_eq!(choose_strategy(SourceKind::File { size: MAX_MAP_SIZE }), Strategy::Parallel);
}

#[test]
fn file_over_the_limit_is_scanned_in_one_pass() {
    assert_eq!(choose_strategy(SourceKind::File { size: MAX_MAP_SIZE + 1 }), Strategy::Sequential);
    assert_eq!(choose_strategy(SourceKind::File { size: u64::MAX }), Strategy::Sequential);
}

#[test]
fn scan_fails_fast_on_a_bad_regex() {
    for strategy in [Strategy::Sequential, Strategy::Parallel] {
        let found = scan(b"a\nb\n", config("(", MatchMode::Regex), 1, strategy, 2);
        assert!(matches!(found, Err(ScanError::InvalidPattern { .. })));
    }
}

#[test]
fn scan_without_a_match_is_empty_and_no_error() {
    for strategy in [Strategy::Sequential, Strategy::Parallel] {
        let found = scan(b"a\nb\nc\n", config("zzz", MatchMode::Regex), 2, strategy, 3);
        assert_eq!(found, Ok(vec![]));
    }
}

#[test]
fn scan_by_either_strategy() {
    let buffer = b"one\nMATCH two\nthree\nfour\nMATCH five\n";
    let expected =
        vec![block(vec![rec(2, "MATCH two", true)]), block(vec![rec(5, "MATCH five", true)])];
    for strategy in [Strategy::Sequential, Strategy::Parallel] {
        for workers in [0, 1, 2, 5] {
            let found = scan(buffer, config("^MATCH", MatchMode::Regex), 0, strategy, workers);
            assert_eq!(found, Ok(expected.clone()));
        }
    }
}

#[test]
fn scan_with_inverted_sense_selects_the_other_lines() {
    let mut c = config("MATCH", MatchMode::Literal);
    c.invert = true;
    let found = scan(b"a\nMATCH\nb\n", c, 0, Strategy::Sequential, 1);
    assert_eq!(found, Ok(vec![block(vec![rec(1, "a", true)]), block(vec![rec(3, "b", true)])]));
}

#[test]
fn scan_with_uses_the_predicate_given() {
    let p = match grepverse::matcher::Predicate::build(config("b", MatchMode::Literal)) {
        Ok(p) => p,
        Err(_) => panic!("a literal pattern"),
    };
    let expected = vec![block(vec![rec(2, "b", true)])];
    assert_eq!(scan_with(b"a\nb\nc", &p, 0, Strategy::Sequential, 0), expected);
    assert_eq!(scan_with(b"a\nb\nc", &p, 0, Strategy::Parallel, 2), expected);
}

#[test]
fn filters_pass_what_is_included_and_not_excluded() {
    assert!(passes_filters(true, false, false));
    assert!(passes_filters(true, true, false));
    assert!(passes_filters(false, true, false));
    assert!(!passes_filters(false, false, false));
    assert!(!passes_filters(true, false, true));
    assert!(!passes_filters(true, true, true));
    assert!(!passes_filters(false, true, true));
    assert!(!passes_filters(false, false, true));
}

#[test]
fn plain_line_has_name_label_and_text() {
    assert_eq!(render_line("file.txt", &rec(12, "hello", true), true, false), "file.txt:12:hello");
    assert_eq!(render_line("file.txt", &rec(12, "hello", false), true, false), "file.txt:12:hello");
    assert_eq!(render_line("file.txt", &rec(12, "hello", true), false, false), "file.txt:hello");
    assert_eq!(render_line("", &rec(1, "", false), false, false), ":");
}

#[test]
fn coloured_selected_line() {
    assert_eq!(
        render_line("file.txt", &rec(12, "hello", true), true, true),
        "\u{1b}[32mfile.txt\u{1b}[0m:\u{1b}[32m12:\u{1b}[0m:\u{1b}[31mhello\u{1b}[0m"
    );
    assert_eq!(
        render_line("f", &rec(3, "hello", true), false, true),
        "\u{1b}[32mf\u{1b}[0m:\u{1b}[32m\u{1b}[0m:\u{1b}[31mhello\u{1b}[0m"
    );
}

#[test]
fn coloured_context_line() {
    assert_eq!(
        render_line("file.txt", &rec(12, "hello", false), true, true),
        "\u{1b}[32mfile.txt\u{1b}[0m:\u{1b}[32m12:\u{1b}[0mhello"
    );
}

#[test]
fn label_is_the_decimal_number_and_a_colon() {
    assert_eq!(label_text(0, true), "0:");
    assert_eq!(label_text(7, true), "7:");
    assert_eq!(label_text(10, true), "10:");
    assert_eq!(label_text(1234567890, true), "1234567890:");
    assert_eq!(label_text(usize::MAX, true), format!("{}:", usize::MAX));
    assert_eq!(label_text(42, false), "");
}

fn globs(patterns: &[&str]) -> globset::GlobSet {
    let patterns: Vec<String> = patterns.iter().map(|p| p.to_string()).collect();
    match compile_globs(&patterns) {
        Ok(set) => set,
        Err(error) => panic!("{}", error.message),
    }
}

#[test]
fn no_pattern_gives_the_empty_set() {
    let set = globs(&[]);
    assert!(set.is_empty());
    assert_eq!(set.len(), 0);
}

#[test]
fn set_has_one_glob_for_each_pattern() {
    let set = globs(&["*.rs", "*.toml", "Makefile"]);
    assert_eq!(set.len(), 3);
    assert!(set.is_match("main.rs"));
    assert!(set.is_match("Makefile"));
    assert!(!set.is_match("main.c"));
}

#[test]
fn refused_pattern_is_an_invalid_glob() {
    let patterns = vec!["*.rs".to_string(), "a[".to_string(), "{".to_string()];
    match compile_globs(&patterns) {
        Err(error) => assert!(error.message.contains("a[")),
        Ok(_) => panic!("the second pattern is not a glob"),
    }
}

#[test]
fn keep_glob_maps_the_error() {
    assert!(keep_glob(globset::Glob::new("*.rs")).is_ok());
    match keep_glob(globset::Glob::new("a[")) {
        Err(error) => assert!(!error.message.is_empty()),
        Ok(_) => panic!("not a glob"),
    }
}

#[test]
fn without_patterns_every_file_is_scanned() {
    let none = globs(&[]);
    assert!(should_process_file("main.rs", &none, &none));
    assert!(should_process_file("", &none, &none));
}

#[test]
fn include_and_exclude_sets_select_files() {
    let none = globs(&[]);
    let rust = globs(&["*.rs"]);
    let tests = globs(&["test_*"]);
    assert!(should_process_file("main.rs", &rust, &none));
    assert!(!should_process_file("main.c", &rust, &none));
    assert!(should_process_file("main.c", &none, &tests));
    assert!(!should_process_file("test_main.c", &none, &tests));
    assert!(should_process_file("main.rs", &rust, &tests));
    assert!(!should_process_file("test_main.rs", &rust, &tests));
}

#[test]
fn verdict_is_the_rule_on_what_the_sets_answer() {
    let sets = [globs(&[]), globs(&["*.rs"]), globs(&["test_*", "*.md"]), globs(&["a?c"])];
    let names = ["", "main.rs", "test_main.rs", "README.md", "abc", "abcd", "test_"];
    for includes in &sets {
        for excludes in &sets {
            for name in names {
                let expected =
                    (includes.is_empty() || includes.is_match(name)) && !excludes.is_match(name);
                assert_eq!(should_process_file(name, includes, excludes), expected);
            }
        }
    }
}
