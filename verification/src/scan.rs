//! The scan of one contiguous source: segmenter, predicate and context window in a row.

use vstd::prelude::*;
use vstd::string::*;
use crate::matcher::{MatchSpec, Predicate};
use crate::record::{block_views, LineRecord, LineView, OutputBlock};
use crate::segment::{decoded_lines, Line, Segmenter, TextLine};
use crate::window::{aggregate, flush, run, ContextWindow};

verus! {

/// The record of `line` under `config`.
pub open spec fn judge(line: TextLine, config: MatchSpec) -> LineView {
    LineView { line_number: line.line_number, text: line.text, matched: config.selects(line.text) }
}

/// The records of `lines` under `config`, in order.
pub open spec fn judged(lines: Seq<TextLine>, config: MatchSpec) -> Seq<LineView> {
    lines.map_values(|line: TextLine| judge(line, config))
}

/// The records that the lines of `bytes` give under `config`, numbered from `first_line`.
pub open spec fn records_of(bytes: Seq<u8>, first_line: nat, config: MatchSpec) -> Seq<LineView> {
    judged(decoded_lines(bytes, first_line), config)
}

/// The blocks of one pass over `bytes` with a window of its own.
pub open spec fn scan_blocks(bytes: Seq<u8>, first_line: nat, config: MatchSpec, context: nat) -> Seq<
    Seq<LineView>,
> {
    aggregate(context, records_of(bytes, first_line, config))
}

/// Where the predicate selects no line of the buffer, the scan gives no block.
pub proof fn lemma_no_selected_line_no_blocks(
    bytes: Seq<u8>,
    first_line: nat,
    config: MatchSpec,
    context: nat,
)
    requires
        forall|i: int|
            0 <= i < decoded_lines(bytes, first_line).len() ==> !config.selects(
                (#[trigger] decoded_lines(bytes, first_line)[i]).text,
            ),
    ensures
        scan_blocks(bytes, first_line, config, context) == Seq::<Seq<LineView>>::empty(),
{
    let records = records_of(bytes, first_line, config);
    assert forall|i: int| 0 <= i < records.len() implies !(#[trigger] records[i]).matched by {
        assert(records[i] == judge(decoded_lines(bytes, first_line)[i], config));
    }
    crate::window::lemma_no_match_no_blocks(context, records);
}

/// The record of one decoded line: its number, its text, and the predicate's verdict.
pub fn judge_line(line: Line<'_>, predicate: &Predicate) -> (record: LineRecord)
    ensures
        record@ == judge(line@, predicate@),
{
    let matched: bool = predicate.evaluate(line.text);
    LineRecord { line_number: line.line_number, text: line.text.to_owned(), matched }
}

/// Scans `buffer` in one pass, with the number `first_line` for its first line: every line
/// that decodes is judged by `predicate` and given to one window, which is closed at the end.
pub fn scan_lines(buffer: &[u8], first_line: usize, predicate: &Predicate, context_size: usize) -> (blocks:
    Vec<OutputBlock>)
    requires
        first_line + buffer@.len() <= usize::MAX,
    ensures
        block_views(blocks@) == scan_blocks(
            buffer@,
            first_line as nat,
            predicate@,
            context_size as nat,
        ),
{
    let ghost all = decoded_lines(buffer@, first_line as nat);
    let ghost context = context_size as nat;
    let ghost none = Seq::<LineView>::empty();
    let mut segmenter = Segmenter::new(buffer, first_line);
    let mut window = ContextWindow::new(context_size);
    let mut blocks: Vec<OutputBlock> = Vec::new();
    let ghost mut seen: int = 0;
    let mut next: Option<Line<'_>> = segmenter.next_line();
    proof {
        assert(all.take(0) =~= Seq::<TextLine>::empty());
        assert(judged(all.take(0), predicate@) =~= none);
        assert(block_views(blocks@) =~= Seq::<Seq<LineView>>::empty());
        if next is Some {
            assert(all.drop_first() =~= all.skip(1));
        }
    }
    while next.is_some()
        invariant
            0 <= seen <= all.len(),
            context == context_size as nat,
            none == Seq::<LineView>::empty(),
            next is Some <==> seen < all.len(),
            next matches Some(line) ==> line@ == all[seen] && segmenter.remaining() == all.skip(
                seen + 1,
            ),
            window.context() == context,
            window.pending() == run(context, none, judged(all.take(seen), predicate@)).pending,
            block_views(blocks@) == run(context, none, judged(all.take(seen), predicate@)).blocks,
        decreases all.len() - seen,
    {
        let line: Line<'_> = next.unwrap();
        let record: LineRecord = judge_line(line, predicate);
        proof {
            let before = judged(all.take(seen), predicate@);
            assert(judged(all.take(seen + 1), predicate@) =~= before.push(record@));
            crate::window::lemma_run_push(context, none, before, record@);
        }
        let ghost old_blocks = block_views(blocks@);
        match window.push(record) {
            Some(block) => {
                blocks.push(block);
                assert(block_views(blocks@) =~= old_blocks.push(block@));
            },
            None => {},
        }
        proof {
            seen = seen + 1;
        }
        let ghost rest = segmenter.remaining();
        next = segmenter.next_line();
        proof {
            assert(rest.len() == all.len() - seen);
            if next is Some {
                assert(rest[0] == all[seen]);
                assert(rest.drop_first() =~= all.skip(seen + 1));
            }
        }
    }
    proof {
        assert(all.take(seen) =~= all);
    }
    let ghost old_blocks = block_views(blocks@);
    let ghost held = window.pending();
    match window.finish() {
        Some(block) => {
            blocks.push(block);
            assert(block_views(blocks@) =~= old_blocks + flush(held));
        },
        None => {
            assert(block_views(blocks@) =~= old_blocks + flush(held));
        },
    }
    blocks
}

/// The sequential scan of a whole source: one pass, lines numbered from 1.
pub fn scan_sequential(buffer: &[u8], predicate: &Predicate, context_size: usize) -> (blocks: Vec<
    OutputBlock,
>)
    requires
        buffer@.len() < usize::MAX,
    ensures
        block_views(blocks@) == scan_blocks(buffer@, 1, predicate@, context_size as nat),
{
    scan_lines(buffer, 1, predicate, context_size)
}

} // verus!
