use grepverse::matcher::{MatchConfig, MatchMode, Predicate};
use grepverse::record::{count_matched, LineRecord, OutputBlock};
use grepverse::scan::scan_sequential;
use grepverse::stream::SequentialScanner;

fn literal(pattern: &str) -> Predicate {
    let config = MatchConfig {
        pattern: pattern.to_string(),
        mode: MatchMode::Literal,
        case_insensitive: false,
        whole_word: false,
        invert: false,
    };
    match Predicate::build(config) {
        Ok(predicate) => predicate,
        Err(_) => panic!("a literal pattern"),
    }
}

fn rec(line_number: usize, text: &str, matched: bool) -> LineRecord {
    LineRecord { line_number, text: text.to_string(), matched }
}

fn block(records: Vec<LineRecord>) -> OutputBlock {
    OutputBlock { records }
}

fn in_pieces(buffer: &[u8], piece: usize, predicate: &Predicate, context: usize) -> Vec<OutputBlock> {
    let mut scanner = SequentialScanner::new(predicate, context);
    let mut all = Vec::new();
    for data in buffer.chunks(piece) {
        all.extend(scanner.feed(data));
    }
    assert_eq!(scanner.bytes_taken(), buffer.len());
    all.extend(scanner.finish());
    all
}

#[test]
fn fresh_scanner_has_taken_nothing() {
    let p = literal("M");
    let scanner = SequentialScanner::new(&p, 2);
    assert_eq!(scanner.bytes_taken(), 0);
    assert_eq!(scanner.finish(), vec![]);
}

#[test]
fn pieces_of_any_size_give_the_blocks_of_one_pass() {
    let p = literal("M");
    let buffer = b"a\nM1\nb\nc\nd\ne\nM2\nM3\nf\n\xff\xff\ng\nM4";
    for context in [0, 1, 2, 3] {
        let expected = scan_sequential(buffer, &p, context);
        for piece in 1..=buffer.len() + 1 {
            assert_eq!(in_pieces(buffer, piece, &p, context), expected);
        }
    }
}

#[test]
fn block_is_handed_out_with_the_line_that_makes_it_leave() {
    let p = literal("M");
    let mut scanner = SequentialScanner::new(&p, 0);
    assert_eq!(scanner.feed(b"a\nM"), vec![]);
    assert_eq!(scanner.feed(b"1"), vec![]);
    assert_eq!(scanner.feed(b"\nb\n"), vec![block(vec![rec(2, "M1", true)])]);
    assert_eq!(scanner.feed(b"M2\nM3\n"), vec![
        block(vec![rec(4, "M2", true)]),
        block(vec![rec(5, "M3", true)]),
    ]);
    assert_eq!(scanner.bytes_taken(), 13);
    assert_eq!(scanner.finish(), vec![]);
}

#[test]
fn finish_takes_the_line_in_progress() {
    let p = literal("M");
    let mut scanner = SequentialScanner::new(&p, 1);
    assert_eq!(scanner.feed(b"M1\nx\nM2"), vec![]);
    assert_eq!(
        scanner.finish(),
        vec![block(vec![rec(1, "M1", true), rec(2, "x", false), rec(3, "M2", true)])]
    );
}

#[test]
fn finish_can_hand_out_two_blocks() {
    let p = literal("M");
    let mut scanner = SequentialScanner::new(&p, 1);
    assert_eq!(scanner.feed(b"M1\na\nb\nM2"), vec![]);
    // The last line pushes M1 out, so a, b and M2 leave.
    assert_eq!(
        scanner.finish(),
        vec![block(vec![rec(2, "a", false), rec(3, "b", false), rec(4, "M2", true)])]
    );
    let mut scanner = SequentialScanner::new(&p, 0);
    assert_eq!(scanner.feed(b"M1\nM2"), vec![block(vec![rec(1, "M1", true)])]);
    assert_eq!(scanner.finish(), vec![block(vec![rec(2, "M2", true)])]);
}

#[test]
fn empty_pieces_change_nothing() {
    let p = literal("M");
    let mut scanner = SequentialScanner::new(&p, 0);
    assert_eq!(scanner.feed(b""), vec![]);
    assert_eq!(scanner.feed(b"M"), vec![]);
    assert_eq!(scanner.feed(b""), vec![]);
    assert_eq!(scanner.bytes_taken(), 1);
    assert_eq!(scanner.finish(), vec![block(vec![rec(1, "M", true)])]);
}

#[test]
fn undecodable_line_in_a_stream_keeps_its_number() {
    let p = literal("x");
    let mut scanner = SequentialScanner::new(&p, 0);
    let mut all = scanner.feed(b"x\n\xff");
    all.extend(scanner.feed(b"\xfe\nx\n"));
    all.extend(scanner.finish());
    assert_eq!(all, vec![block(vec![rec(1, "x", true)]), block(vec![rec(3, "x", true)])]);
}

#[test]
fn count_matched_leaves_context_out() {
    let blocks = vec![
        block(vec![rec(1, "M", true), rec(2, "a", false)]),
        block(vec![]),
        block(vec![rec(5, "M", true), rec(6, "M", true), rec(7, "b", false)]),
    ];
    assert_eq!(count_matched(&blocks), 3);
    assert_eq!(count_matched(&[]), 0);
}
