//! The scan of a whole source from its configuration: the predicate is built first, then the
//! scanner that suits the source reads the buffer.

use vstd::prelude::*;
use crate::chunk::{chunked_blocks, planned_chunks, scan_parallel};
use crate::error::ScanError;
use crate::matcher::{MatchConfig, MatchSpec, Predicate};
use crate::record::{block_views, LineView, OutputBlock};
use crate::scan::{scan_blocks, scan_sequential};

verus! {

/// The largest file, in bytes, that is mapped and scanned in parallel: 1 GiB.
pub const MAX_MAP_SIZE: u64 = 1_073_741_824;

/// Where the bytes of a scan come from.
#[derive(Clone, Copy, Debug, PartialEq, Eq, Structural)]
pub enum SourceKind {
    /// A stream that is read once, such as standard input.
    Stream,
    /// A regular file of `size` bytes.
    File { size: u64 },
}

/// How a source is scanned.
#[derive(Clone, Copy, Debug, PartialEq, Eq, Structural)]
pub enum Strategy {
    /// In one pass, piece by piece.
    Sequential,
    /// Mapped as a whole and scanned chunk by chunk on the thread pool.
    Parallel,
}

/// The strategy for `source`: parallel for a file of at most `MAX_MAP_SIZE` bytes, sequential
/// for a larger file and for a stream.
pub open spec fn strategy_for(source: SourceKind) -> Strategy {
    match source {
        SourceKind::Stream => Strategy::Sequential,
        SourceKind::File { size } => if size > MAX_MAP_SIZE {
            Strategy::Sequential
        } else {
            Strategy::Parallel
        },
    }
}

/// Chooses how `source` is scanned.
pub fn choose_strategy(source: SourceKind) -> (strategy: Strategy)
    ensures
        strategy == strategy_for(source),
{
    match source {
        SourceKind::Stream => Strategy::Sequential,
        SourceKind::File { size } => {
            if size > MAX_MAP_SIZE {
                Strategy::Sequential
            } else {
                Strategy::Parallel
            }
        },
    }
}

/// The blocks that `strategy` gives for `bytes`, with `workers` workers where it is parallel.
pub open spec fn blocks_of(
    bytes: Seq<u8>,
    config: MatchSpec,
    context: nat,
    strategy: Strategy,
    workers: nat,
) -> Seq<Seq<LineView>> {
    match strategy {
        Strategy::Sequential => scan_blocks(bytes, 1, config, context),
        Strategy::Parallel => chunked_blocks(bytes, planned_chunks(bytes, workers), config, context),
    }
}

/// The two strategies give the same blocks wherever no block is open across a cut of the
/// plan: at the start of each chunk but the first, the one pass holds nothing in its window,
/// or the chunk has no line to give.
pub proof fn lemma_strategies_agree(bytes: Seq<u8>, config: MatchSpec, context: nat, workers: nat)
    requires
        bytes.len() < usize::MAX,
        workers <= usize::MAX,
        forall|k: int|
            0 < k < planned_chunks(bytes, workers).len() ==> crate::chunk::window_idle_at(
                bytes,
                (#[trigger] planned_chunks(bytes, workers)[k]).start as int,
                config,
                context,
            ) || crate::scan::records_of(
                crate::chunk::chunk_bytes(bytes, planned_chunks(bytes, workers)[k]),
                planned_chunks(bytes, workers)[k].first_line as nat,
                config,
            ).len() == 0,
    ensures
        blocks_of(bytes, config, context, Strategy::Parallel, workers) == blocks_of(
            bytes,
            config,
            context,
            Strategy::Sequential,
            workers,
        ),
{
    crate::chunk::lemma_plan_is_partition(bytes, workers);
    crate::chunk::lemma_chunked_scan_is_sequential(
        bytes,
        planned_chunks(bytes, workers),
        config,
        context,
    );
}

/// Scans `buffer` with an already built predicate, by `strategy`.
pub fn scan_with(
    buffer: &[u8],
    predicate: &Predicate,
    context_size: usize,
    strategy: Strategy,
    workers: usize,
) -> (blocks: Vec<OutputBlock>)
    requires
        buffer@.len() < usize::MAX,
    ensures
        block_views(blocks@) == blocks_of(
            buffer@,
            predicate@,
            context_size as nat,
            strategy,
            workers as nat,
        ),
{
    match strategy {
        Strategy::Sequential => scan_sequential(buffer, predicate, context_size),
        Strategy::Parallel => scan_parallel(buffer, predicate, context_size, workers),
    }
}

/// Scans `buffer` for what `config` describes. A pattern that the regex engine refuses ends
/// the scan before a byte is read; any other configuration gives the blocks of `strategy`,
/// of which there are none where no line is selected.
pub fn scan(
    buffer: &[u8],
    config: MatchConfig,
    context_size: usize,
    strategy: Strategy,
    workers: usize,
) -> (found: Result<Vec<OutputBlock>, ScanError>)
    requires
        buffer@.len() < usize::MAX,
    ensures
        found is Ok <==> config@.compiles(),
        found matches Ok(blocks) ==> block_views(blocks@) == blocks_of(
            buffer@,
            config@,
            context_size as nat,
            strategy,
            workers as nat,
        ),
        found matches Err(error) ==> error is InvalidPattern,
{
    match Predicate::build(config) {
        Ok(predicate) => Ok(scan_with(buffer, &predicate, context_size, strategy, workers)),
        Err(error) => Err(error),
    }
}

} // verus!
