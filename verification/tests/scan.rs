use grepverse::chunk::{plan_chunks, scan_chunk, scan_on_pool, scan_parallel, merge_in_order, Chunk, align_cut, count_newlines};
use grepverse::matcher::{MatchConfig, MatchMode, Predicate};
use grepverse::record::{LineRecord, OutputBlock};
use grepverse::scan::{judge_line, scan_lines, scan_sequential};
use grepverse::segment::{find_line_end, Line, Segmenter};

fn literal(pattern: &str) -> Predicate {
    let config = MatchConfig {
        pattern: pattern.to_string(),
        mode: MatchMode::Literal,
        case_insensitive: false,
        whole_word: false,
        invert: false,
    };
    match Predicate::build(config) {
        Ok(predicate) => predicate,
        Err(_) => panic!("a literal pattern"),
    }
}

fn rec(line_number: usize, text: &str, matched: bool) -> LineRecord {
    LineRecord { line_number, text: text.to_string(), matched }
}

fn block(records: Vec<LineRecord>) -> OutputBlock {
    OutputBlock { records }
}

fn all_lines(buffer: &[u8], first_line: usize) -> Vec<(usize, String)> {
    let mut segmenter = Segmenter::new(buffer, first_line);
    let mut out = Vec::new();
    while let Some(line) = segmenter.next_line() {
        out.push((line.line_number, line.text.to_string()));
    }
    assert!(segmenter.next_line().is_none());
    out
}

fn numbers(blocks: &[OutputBlock]) -> Vec<Vec<usize>> {
    blocks.iter().map(|b| b.records.iter().map(|r| r.line_number).collect()).collect()
}

#[test]
fn lines_are_cut_at_terminators_and_numbered() {
    assert_eq!(
        all_lines(b"a\nMATCH\nb\n", 1),
        vec![(1, "a".to_string()), (2, "MATCH".to_string()), (3, "b".to_string())]
    );
}

#[test]
fn unterminated_last_line_is_a_line() {
    assert_eq!(all_lines(b"a\nb", 1), vec![(1, "a".to_string()), (2, "b".to_string())]);
    assert_eq!(all_lines(b"only", 7), vec![(7, "only".to_string())]);
}

#[test]
fn empty_buffer_has_no_line() {
    assert_eq!(all_lines(b"", 1), vec![]);
}

#[test]
fn empty_lines_are_lines() {
    assert_eq!(
        all_lines(b"\n\nx\n", 1),
        vec![(1, String::new()), (2, String::new()), (3, "x".to_string())]
    );
}

#[test]
fn carriage_return_stays_in_the_line() {
    assert_eq!(all_lines(b"a\r\nb\n", 1), vec![(1, "a\r".to_string()), (2, "b".to_string())]);
}

#[test]
fn undecodable_line_is_left_out_and_keeps_its_number() {
    assert_eq!(
        all_lines(b"ok\n\xff\xfe\nfine\n", 1),
        vec![(1, "ok".to_string()), (3, "fine".to_string())]
    );
    assert_eq!(all_lines(b"\xff\n\xff", 1), vec![]);
    assert_eq!(all_lines(b"caf\xc3\xa9\n", 1), vec![(1, "caf\u{e9}".to_string())]);
}

#[test]
fn numbering_starts_where_it_is_told() {
    assert_eq!(all_lines(b"x\ny\n", 41), vec![(41, "x".to_string()), (42, "y".to_string())]);
}

#[test]
fn find_line_end_stops_at_the_terminator_or_the_end() {
    let buffer = b"ab\ncd";
    assert_eq!(find_line_end(buffer, 0), 2);
    assert_eq!(find_line_end(buffer, 2), 2);
    assert_eq!(find_line_end(buffer, 3), 5);
    assert_eq!(find_line_end(buffer, 5), 5);
}

#[test]
fn judge_line_copies_the_line_and_asks_the_predicate() {
    let p = literal("MATCH");
    assert_eq!(judge_line(Line { line_number: 4, text: "a MATCH" }, &p), rec(4, "a MATCH", true));
    assert_eq!(judge_line(Line { line_number: 5, text: "none" }, &p), rec(5, "none", false));
}

#[test]
fn sequential_scan_of_an_isolated_match() {
    let p = literal("MATCH");
    let blocks = scan_sequential(b"a\nMATCH\nb\nc\nd\n", &p, 1);
    assert_eq!(
        blocks,
        vec![block(vec![rec(3, "b", false), rec(4, "c", false), rec(5, "d", false)])]
    );
}

#[test]
fn sequential_scan_of_adjacent_matches() {
    let p = literal("MATCH");
    let blocks = scan_sequential(b"x\nMATCH1\nMATCH2\ny", &p, 1);
    assert_eq!(blocks, vec![block(vec![rec(2, "MATCH1", true), rec(3, "MATCH2", true)])]);
}

#[test]
fn sequential_scan_without_context() {
    let p = literal("MATCH");
    let blocks = scan_sequential(b"a\nMATCH one\nb\nc\nMATCH two", &p, 0);
    assert_eq!(
        blocks,
        vec![block(vec![rec(2, "MATCH one", true)]), block(vec![rec(5, "MATCH two", true)])]
    );
}

#[test]
fn sequential_scan_flushes_at_the_end() {
    let p = literal("MATCH");
    let blocks = scan_sequential(b"a\nMATCH\nb\n", &p, 2);
    assert_eq!(blocks, vec![block(vec![rec(2, "MATCH", true), rec(3, "b", false)])]);
}

#[test]
fn pattern_that_matches_no_line_gives_no_block() {
    let p = literal("absent");
    assert_eq!(scan_sequential(b"a\nb\nc\n", &p, 2), vec![]);
    assert_eq!(scan_parallel(b"a\nb\nc\n", &p, 2, 3), vec![]);
    assert_eq!(scan_sequential(b"", &p, 2), vec![]);
}

#[test]
fn scan_lines_numbers_from_the_first_line_given() {
    let p = literal("M");
    let blocks = scan_lines(b"x\nM\n", 10, &p, 0);
    assert_eq!(blocks, vec![block(vec![rec(11, "M", true)])]);
}

#[test]
fn align_cut_moves_to_the_next_boundary() {
    let buffer = b"aaaaaaaa\nbb\n";
    assert_eq!(align_cut(buffer, 0), 0);
    assert_eq!(align_cut(buffer, 4), 9);
    assert_eq!(align_cut(buffer, 9), 9);
    assert_eq!(align_cut(buffer, 10), 12);
    assert_eq!(align_cut(buffer, 12), 12);
    assert_eq!(align_cut(b"abc", 1), 3);
}

#[test]
fn count_newlines_counts_terminators_in_the_range() {
    let buffer = b"a\n\nb\nc";
    assert_eq!(count_newlines(buffer, 0, 6), 3);
    assert_eq!(count_newlines(buffer, 2, 4), 1);
    assert_eq!(count_newlines(buffer, 3, 3), 0);
}

#[test]
fn chunks_start_on_line_boundaries() {
    let chunks = plan_chunks(b"aaaa\nbbbb\ncccc\n", 3);
    assert_eq!(
        chunks,
        vec![
            Chunk { start: 0, end: 5, index: 0, first_line: 1 },
            Chunk { start: 5, end: 10, index: 1, first_line: 2 },
            Chunk { start: 10, end: 15, index: 2, first_line: 3 },
        ]
    );
}

#[test]
fn cut_inside_a_line_moves_past_it() {
    let chunks = plan_chunks(b"aaaaaaaa\nbb\n", 3);
    assert_eq!(
        chunks,
        vec![
            Chunk { start: 0, end: 9, index: 0, first_line: 1 },
            Chunk { start: 9, end: 9, index: 1, first_line: 2 },
            Chunk { start: 9, end: 12, index: 2, first_line: 2 },
        ]
    );
}

#[test]
fn no_worker_counts_as_one() {
    assert_eq!(
        plan_chunks(b"a\nb\n", 0),
        vec![Chunk { start: 0, end: 4, index: 0, first_line: 1 }]
    );
    assert_eq!(plan_chunks(b"", 0), vec![Chunk { start: 0, end: 0, index: 0, first_line: 1 }]);
}

#[test]
fn more_workers_than_bytes_leaves_chunks_empty() {
    let chunks = plan_chunks(b"a\nb", 5);
    assert_eq!(chunks.len(), 5);
    assert_eq!(chunks[0], Chunk { start: 0, end: 0, index: 0, first_line: 1 });
    assert_eq!(chunks[4], Chunk { start: 0, end: 3, index: 4, first_line: 1 });
}

#[test]
fn chunks_cover_the_buffer_in_order() {
    let buffer = b"one\ntwo\n\nthree three three\nfour\nfive";
    for workers in 0..12 {
        let chunks = plan_chunks(buffer, workers);
        assert_eq!(chunks.len(), workers.max(1));
        assert_eq!(chunks[0].start, 0);
        assert_eq!(chunks[chunks.len() - 1].end, buffer.len());
        for (k, chunk) in chunks.iter().enumerate() {
            assert_eq!(chunk.index, k);
            assert!(chunk.start <= chunk.end);
            assert!(chunk.start == 0 || chunk.start == buffer.len() || buffer[chunk.start - 1] == b'\n');
            let before = buffer[..chunk.start].iter().filter(|b| **b == b'\n').count();
            assert_eq!(chunk.first_line, 1 + before);
            if k + 1 < chunks.len() {
                assert_eq!(chunk.end, chunks[k + 1].start);
            }
        }
    }
}

#[test]
fn scan_chunk_numbers_from_the_chunk() {
    let p = literal("M");
    let buffer = b"a\nb\nM\nc\n";
    let chunk = Chunk { start: 4, end: 8, index: 1, first_line: 3 };
    assert_eq!(scan_chunk(buffer, &chunk, &p, 0), vec![block(vec![rec(3, "M", true)])]);
}

#[test]
fn merge_keeps_chunk_order() {
    let a = block(vec![rec(1, "a", true)]);
    let b = block(vec![rec(2, "b", true)]);
    let c = block(vec![rec(3, "c", true)]);
    let merged = merge_in_order(vec![vec![a.clone(), b.clone()], vec![], vec![c.clone()]]);
    assert_eq!(merged, vec![a, b, c]);
    assert_eq!(merge_in_order(vec![]), vec![]);
}

#[test]
fn parallel_scan_equals_sequential_without_context() {
    let p = literal("M");
    let buffer = b"a\nM1\nb\nM2\nM3\nc\n\nlong line without it\nM4\nd\nM5";
    let expected = scan_sequential(buffer, &p, 0);
    assert_eq!(numbers(&expected), vec![vec![2], vec![4], vec![5], vec![9], vec![11]]);
    for workers in [0, 1, 2, 3, 4, 7, 50] {
        assert_eq!(scan_parallel(buffer, &p, 0, workers), expected);
    }
    assert_eq!(scan_on_pool(buffer, &p, 0), expected);
}

#[test]
fn parallel_scan_equals_sequential_where_no_block_is_open_at_a_cut() {
    let p = literal("M");
    let buffer = b"M\nM\nx\nx\nM\nM\nx\nx\n";
    let expected = vec![
        block(vec![rec(1, "M", true), rec(2, "M", true)]),
        block(vec![rec(5, "M", true), rec(6, "M", true)]),
    ];
    assert_eq!(scan_sequential(buffer, &p, 1), expected);
    for workers in [1, 2, 4] {
        assert_eq!(scan_parallel(buffer, &p, 1, workers), expected);
    }
}

#[test]
fn one_chunk_is_the_sequential_scan() {
    let p = literal("M");
    let buffer = b"M\na\nb\nc\nM\nd";
    for context in [0, 1, 2, 3] {
        assert_eq!(scan_parallel(buffer, &p, context, 1), scan_sequential(buffer, &p, context));
    }
}

#[test]
fn block_open_at_a_cut_is_closed_by_its_chunk() {
    let p = literal("M");
    let buffer = b"M\na\nb\nc\n";
    assert_eq!(
        scan_sequential(buffer, &p, 1),
        vec![block(vec![rec(2, "a", false), rec(3, "b", false), rec(4, "c", false)])]
    );
    assert_eq!(
        scan_parallel(buffer, &p, 1, 2),
        vec![block(vec![rec(1, "M", true), rec(2, "a", false)])]
    );
}

#[test]
fn line_numbers_go_on_across_chunks() {
    let p = literal("");
    let buffer = b"l1\nl2\nl3\nl4\nl5\nl6\nl7\nl8\nl9\nl10\n";
    for workers in [1, 2, 3, 5, 10, 33] {
        let blocks = scan_parallel(buffer, &p, 0, workers);
        let flat: Vec<usize> = numbers(&blocks).into_iter().flatten().collect();
        assert_eq!(flat, vec![1, 2, 3, 4, 5, 6, 7, 8, 9, 10]);
    }
}

#[test]
fn line_numbers_count_undecodable_lines_across_chunks() {
    let p = literal("x");
    let buffer = b"x\n\xff\nx\n\xff\xff\nx\n";
    for workers in [1, 2, 3, 4] {
        let blocks = scan_parallel(buffer, &p, 0, workers);
        assert_eq!(numbers(&blocks), vec![vec![1], vec![3], vec![5]]);
    }
}
