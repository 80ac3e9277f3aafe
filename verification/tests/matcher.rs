use grepverse::error::ScanError;
use grepverse::matcher::{MatchConfig, MatchMode, Predicate};

fn config(pattern: &str, mode: MatchMode) -> MatchConfig {
    MatchConfig {
        pattern: pattern.to_string(),
        mode,
        case_insensitive: false,
        whole_word: false,
        invert: false,
    }
}

fn build(config: MatchConfig) -> Predicate {
    match Predicate::build(config) {
        Ok(predicate) => predicate,
        Err(error) => panic!("{}", error.describe()),
    }
}

#[test]
fn literal_finds_substring() {
    let p = build(config("MATCH", MatchMode::Literal));
    assert!(p.evaluate("a MATCH here"));
    assert!(p.evaluate("MATCH"));
    assert!(!p.evaluate("a match here"));
    assert!(!p.evaluate(""));
}

#[test]
fn empty_literal_is_found_everywhere() {
    let p = build(config("", MatchMode::Literal));
    assert!(p.evaluate(""));
    assert!(p.evaluate("anything"));
}

#[test]
fn literal_reads_meta_characters_as_text() {
    let p = build(config("a.b", MatchMode::Literal));
    assert!(p.evaluate("xa.by"));
    assert!(!p.evaluate("xaxby"));
}

#[test]
fn literal_ignoring_case_lowers_both_sides() {
    let mut c = config("MaTcH", MatchMode::Literal);
    c.case_insensitive = true;
    let p = build(c);
    assert!(p.evaluate("a match here"));
    assert!(p.evaluate("A MATCH HERE"));
    assert!(!p.evaluate("a mitch here"));
}

#[test]
fn regex_finds_anywhere_in_the_line() {
    let p = build(config("b+c", MatchMode::Regex));
    assert!(p.evaluate("aabbbcc"));
    assert!(!p.evaluate("aacc"));
}

#[test]
fn regex_honours_case_flag() {
    let mut c = config("h[ae]llo", MatchMode::Regex);
    assert!(!build(c.clone()).evaluate("HELLO world"));
    c.case_insensitive = true;
    assert!(build(c).evaluate("HELLO world"));
}

#[test]
fn whole_word_regex_needs_boundaries() {
    let mut c = config("cat|dog", MatchMode::Regex);
    c.whole_word = true;
    let p = build(c);
    assert!(p.evaluate("a cat sat"));
    assert!(p.evaluate("dog"));
    assert!(!p.evaluate("concatenate"));
    assert!(!p.evaluate("dogma"));
}

#[test]
fn whole_word_literal_escapes_the_pattern() {
    let mut c = config("a.b", MatchMode::Literal);
    c.whole_word = true;
    let p = build(c);
    assert!(p.evaluate("see a.b here"));
    assert!(!p.evaluate("see axb here"));
    assert!(!p.evaluate("seea.bhere"));
}

#[test]
fn whole_word_literal_can_ignore_case() {
    let mut c = config("Word", MatchMode::Literal);
    c.whole_word = true;
    c.case_insensitive = true;
    let p = build(c);
    assert!(p.evaluate("one WORD only"));
    assert!(!p.evaluate("swordfish"));
}

#[test]
fn invert_is_the_complement_on_every_line() {
    let lines = ["", "MATCH", "a match", "xMATCHx", "other"];
    for mode in [MatchMode::Literal, MatchMode::Regex] {
        for case_insensitive in [false, true] {
            for whole_word in [false, true] {
                let mut plain = config("MATCH", mode);
                plain.case_insensitive = case_insensitive;
                plain.whole_word = whole_word;
                let mut inverted = plain.clone();
                inverted.invert = true;
                let plain = build(plain);
                let inverted = build(inverted);
                for line in lines {
                    assert_eq!(inverted.evaluate(line), !plain.evaluate(line));
                }
            }
        }
    }
}

#[test]
fn bad_regex_is_invalid_pattern() {
    let r = Predicate::build(config("(", MatchMode::Regex));
    assert!(matches!(r, Err(ScanError::InvalidPattern { .. })));
}

#[test]
fn bad_regex_is_invalid_with_whole_word_too() {
    let mut c = config("[a-", MatchMode::Regex);
    c.whole_word = true;
    assert!(matches!(Predicate::build(c), Err(ScanError::InvalidPattern { .. })));
}

#[test]
fn literal_never_fails_to_build() {
    assert!(Predicate::build(config("(", MatchMode::Literal)).is_ok());
    let mut c = config("([{", MatchMode::Literal);
    c.whole_word = true;
    assert!(Predicate::build(c).is_ok());
}

#[test]
fn from_compiled_keeps_the_engine_or_maps_the_error() {
    let c = config("ab+", MatchMode::Regex);
    let p = match Predicate::from_compiled(c.clone(), regex::Regex::new("ab+")) {
        Ok(predicate) => predicate,
        Err(_) => panic!("an engine was given"),
    };
    assert!(p.evaluate("xabbb"));
    assert!(!p.evaluate("xa"));
    let failed = Predicate::from_compiled(c, regex::Regex::new("("));
    match failed {
        Err(ScanError::InvalidPattern { message }) => assert!(!message.is_empty()),
        _ => panic!("the error was given"),
    }
}

#[test]
fn verdict_applies_the_inversion() {
    let plain = build(config("x", MatchMode::Literal));
    assert!(plain.verdict(true));
    assert!(!plain.verdict(false));
    let mut c = config("x", MatchMode::Literal);
    c.invert = true;
    let inverted = build(c);
    assert!(!inverted.verdict(true));
    assert!(inverted.verdict(false));
}

#[test]
fn describe_names_each_kind_of_failure() {
    let e = ScanError::InvalidPattern { message: "unclosed group".to_string() };
    assert_eq!(e.describe(), "invalid pattern: unclosed group");
    let e = ScanError::SourceAccess { message: "no such file".to_string() };
    assert_eq!(e.describe(), "cannot read source: no such file");
    assert_eq!(ScanError::WorkerFailure.describe(), "a parallel worker failed");
}

#[test]
fn whole_word_regex_must_compile_by_itself() {
    // Between `\b(?:` and `)\b` this would be well-formed, with another meaning.
    let mut c = config("a)|(?:b", MatchMode::Regex);
    assert!(matches!(Predicate::build(c.clone()), Err(ScanError::InvalidPattern { .. })));
    c.whole_word = true;
    assert!(matches!(Predicate::build(c), Err(ScanError::InvalidPattern { .. })));
}
