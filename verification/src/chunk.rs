//! The parallel scan: the buffer is cut into chunks at line boundaries, each chunk is scanned
//! by a worker with a window of its own, and the workers' blocks are put in chunk order.

use vstd::prelude::*;
use rayon::iter::{IntoParallelRefIterator, ParallelIterator};
use crate::matcher::{MatchSpec, Predicate};
use crate::record::{block_views, LineView, OutputBlock};
use crate::scan::{judged, records_of, scan_blocks, scan_lines};
use crate::segment::{
    boundary_after, decoded_lines, find_line_end, lemma_boundary_after, lemma_lines_concat,
    lemma_newline_count_bound, lemma_newline_count_concat, line_aligned, newline_count,
    LINE_TERMINATOR,
};
use crate::window::{lemma_aggregate_concat, run};

verus! {

/// A stretch of the buffer that one worker scans.
#[derive(Clone, Copy, Debug, PartialEq, Eq, Structural)]
pub struct Chunk {
    /// Offset of the first byte.
    pub start: usize,
    /// Offset after the last byte.
    pub end: usize,
    /// Position of the chunk among the chunks of its buffer, from 0.
    pub index: usize,
    /// The number of the line that starts at `start`.
    pub first_line: usize,
}

/// The bytes of `chunk`.
pub open spec fn chunk_bytes(bytes: Seq<u8>, chunk: Chunk) -> Seq<u8> {
    bytes.subrange(chunk.start as int, chunk.end as int)
}

/// `chunk` lies in `bytes` and its line numbers fit the machine.
pub open spec fn chunk_fits(bytes: Seq<u8>, chunk: Chunk) -> bool {
    chunk.start <= chunk.end <= bytes.len() && chunk.first_line + (chunk.end - chunk.start)
        <= usize::MAX
}

/// `chunk` is the `k`-th of a partition of `bytes`: it starts on a line boundary, and its first
/// line has the number that the terminators before it give.
pub open spec fn chunk_in_place(bytes: Seq<u8>, chunk: Chunk, k: int) -> bool {
    &&& chunk.start <= chunk.end <= bytes.len()
    &&& chunk.index == k
    &&& line_aligned(bytes, chunk.start as int)
    &&& chunk.first_line == 1 + newline_count(bytes.take(chunk.start as int))
}

/// `chunks` cut `bytes` into consecutive stretches, from its start to its end, at line
/// boundaries.
pub open spec fn is_partition(bytes: Seq<u8>, chunks: Seq<Chunk>) -> bool {
    &&& chunks.len() > 0
    &&& chunks[0].start == 0
    &&& chunks[chunks.len() - 1].end == bytes.len()
    &&& forall|k: int| 0 <= k < chunks.len() ==> chunk_in_place(bytes, #[trigger] chunks[k], k)
    &&& forall|k: int| 0 <= k < chunks.len() - 1 ==> (#[trigger] chunks[k]).end == chunks[k + 1].start
}

/// The number of chunks made for `workers` workers: one for each, and one where there is none.
pub open spec fn worker_slots(workers: nat) -> nat {
    if workers == 0 {
        1
    } else {
        workers
    }
}

/// Where the `k`-th of `slots` chunks of equal size would start in a buffer of `len` bytes.
/// The last chunk takes what the division leaves.
pub open spec fn naive_cut(len: nat, slots: nat, k: nat) -> nat {
    if k >= slots {
        len
    } else {
        k * (len / slots)
    }
}

/// Where the `k`-th chunk does start: on the nearest line boundary at or after its naive cut.
pub open spec fn cut_at(bytes: Seq<u8>, slots: nat, k: nat) -> int {
    boundary_after(bytes, naive_cut(bytes.len(), slots, k) as int)
}

/// The `k`-th of the `slots` chunks of `bytes`.
pub open spec fn planned_chunk(bytes: Seq<u8>, slots: nat, k: nat) -> Chunk {
    Chunk {
        start: cut_at(bytes, slots, k) as usize,
        end: cut_at(bytes, slots, k + 1) as usize,
        index: k as usize,
        first_line: (1 + newline_count(bytes.take(cut_at(bytes, slots, k)))) as usize,
    }
}

/// The chunks that `bytes` is cut into for `workers` workers.
pub open spec fn planned_chunks(bytes: Seq<u8>, workers: nat) -> Seq<Chunk> {
    Seq::new(
        worker_slots(workers),
        |k: int| planned_chunk(bytes, worker_slots(workers), k as nat),
    )
}

/// The parts of `groups` in a row.
pub open spec fn concat_all<A>(groups: Seq<Seq<A>>) -> Seq<A>
    decreases groups.len(),
{
    if groups.len() == 0 {
        Seq::empty()
    } else {
        concat_all(groups.drop_last()) + groups.last()
    }
}

/// The records of each chunk, scanned by itself from its own first line number.
pub open spec fn chunk_records(bytes: Seq<u8>, chunks: Seq<Chunk>, config: MatchSpec) -> Seq<
    Seq<LineView>,
> {
    Seq::new(
        chunks.len(),
        |k: int| records_of(chunk_bytes(bytes, chunks[k]), chunks[k].first_line as nat, config),
    )
}

/// The blocks of each chunk, scanned by itself with a window of its own.
pub open spec fn chunk_results(
    bytes: Seq<u8>,
    chunks: Seq<Chunk>,
    config: MatchSpec,
    context: nat,
) -> Seq<Seq<Seq<LineView>>> {
    Seq::new(
        chunks.len(),
        |k: int|
            scan_blocks(chunk_bytes(bytes, chunks[k]), chunks[k].first_line as nat, config, context),
    )
}

/// The blocks of a scan by chunks: those of each chunk, in chunk order.
pub open spec fn chunked_blocks(
    bytes: Seq<u8>,
    chunks: Seq<Chunk>,
    config: MatchSpec,
    context: nat,
) -> Seq<Seq<LineView>> {
    concat_all(chunk_results(bytes, chunks, config, context))
}

/// A scan in one pass holds nothing in its window when it reaches offset `at`.
pub open spec fn window_idle_at(bytes: Seq<u8>, at: int, config: MatchSpec, context: nat) -> bool {
    run(context, Seq::empty(), records_of(bytes.take(at), 1, config)).pending.len() == 0
}

/// The naive cuts go up from 0 to the length of the buffer.
pub proof fn lemma_naive_cut(len: nat, slots: nat, k: nat)
    requires
        slots > 0,
    ensures
        naive_cut(len, slots, 0) == 0,
        naive_cut(len, slots, k) <= naive_cut(len, slots, k + 1) <= len,
        k + 1 < slots ==> naive_cut(len, slots, k + 1) == naive_cut(len, slots, k) + len / slots,
{
    let size = len / slots;
    assert(size * slots <= len) by (nonlinear_arith)
        requires
            size == len / slots,
            slots > 0,
    ;
    assert(0 * size == 0) by (nonlinear_arith);
    assert((k + 1) * size == k * size + size) by (nonlinear_arith);
    if k + 1 <= slots {
        assert((k + 1) * size <= size * slots) by (nonlinear_arith)
            requires
                k + 1 <= slots,
                size >= 0,
        ;
    }
}

/// The planned chunks are a partition of the buffer at line boundaries.
pub proof fn lemma_plan_is_partition(bytes: Seq<u8>, workers: nat)
    requires
        bytes.len() < usize::MAX,
        workers <= usize::MAX,
    ensures
        is_partition(bytes, planned_chunks(bytes, workers)),
        planned_chunks(bytes, workers).len() == worker_slots(workers),
        forall|k: int|
            0 <= k < planned_chunks(bytes, workers).len() ==> chunk_fits(
                bytes,
                #[trigger] planned_chunks(bytes, workers)[k],
            ),
{
    let slots = worker_slots(workers);
    let chunks = planned_chunks(bytes, workers);
    let len = bytes.len();
    lemma_naive_cut(len, slots, 0);
    lemma_boundary_after(bytes, 0, 0);
    assert forall|k: int| 0 <= k < chunks.len() implies chunk_in_place(bytes, #[trigger] chunks[k], k)
        && chunk_fits(bytes, chunks[k]) && chunks[k].end == cut_at(bytes, slots, (k + 1) as nat)
        && chunks[k].start == cut_at(bytes, slots, k as nat) by {
        lemma_naive_cut(len, slots, k as nat);
        lemma_boundary_after(
            bytes,
            naive_cut(len, slots, k as nat) as int,
            naive_cut(len, slots, (k + 1) as nat) as int,
        );
        lemma_boundary_after(
            bytes,
            naive_cut(len, slots, (k + 1) as nat) as int,
            naive_cut(len, slots, (k + 1) as nat) as int,
        );
        lemma_newline_count_bound(bytes.take(cut_at(bytes, slots, k as nat)));
    }
    assert(chunks[0].start == 0);
    assert(chunks[chunks.len() - 1].end == bytes.len()) by {
        lemma_boundary_after(bytes, len as int, len as int);
    }
}

/// Taking one more part: it comes last.
proof fn lemma_concat_all_push<A>(groups: Seq<Seq<A>>, part: Seq<A>)
    ensures
        concat_all(groups.push(part)) == concat_all(groups) + part,
{
    assert(groups.push(part).drop_last() =~= groups);
}

/// The records up to the end of the `m`-th chunk are the records up to its start, then the
/// chunk's own.
proof fn lemma_chunk_extends_prefix(bytes: Seq<u8>, chunks: Seq<Chunk>, config: MatchSpec, m: int)
    requires
        is_partition(bytes, chunks),
        0 <= m < chunks.len(),
    ensures
        records_of(bytes.take(chunks[m].end as int), 1, config) == records_of(
            bytes.take(chunks[m].start as int),
            1,
            config,
        ) + records_of(chunk_bytes(bytes, chunks[m]), chunks[m].first_line as nat, config),
{
    let chunk = chunks[m];
    assert(chunk_in_place(bytes, chunk, m));
    let head = bytes.take(chunk.start as int);
    let body = chunk_bytes(bytes, chunk);
    assert(head + body =~= bytes.take(chunk.end as int));
    if chunk.start == chunk.end {
        assert(body =~= Seq::<u8>::empty());
        assert(head =~= bytes.take(chunk.end as int));
        assert(records_of(body, chunk.first_line as nat, config) =~= Seq::<LineView>::empty());
        assert(records_of(head, 1, config) + Seq::<LineView>::empty() =~= records_of(
            head,
            1,
            config,
        ));
    } else {
        lemma_lines_concat(head, body, 1);
        assert(judged(
            decoded_lines(head, 1) + decoded_lines(body, chunk.first_line as nat),
            config,
        ) =~= judged(decoded_lines(head, 1), config) + judged(
            decoded_lines(body, chunk.first_line as nat),
            config,
        ));
    }
}

/// Where the `m`-th chunk of a partition starts: at the end of the chunk before it.
proof fn lemma_chunk_starts(bytes: Seq<u8>, chunks: Seq<Chunk>, m: int)
    requires
        is_partition(bytes, chunks),
        0 <= m < chunks.len(),
    ensures
        m == 0 ==> chunks[m].start == 0,
        m > 0 ==> chunks[m].start == chunks[m - 1].end,
{
    if m > 0 {
        assert(chunks[m - 1].end == chunks[m - 1 + 1].start);
    }
}

/// The records of the first `m` chunks in a row are the records of the buffer up to the end
/// of the last of them.
proof fn lemma_prefix_records(bytes: Seq<u8>, chunks: Seq<Chunk>, config: MatchSpec, m: int)
    requires
        is_partition(bytes, chunks),
        0 < m <= chunks.len(),
    ensures
        concat_all(chunk_records(bytes, chunks.take(m), config)) == records_of(
            bytes.take(chunks[m - 1].end as int),
            1,
            config,
        ),
    decreases m,
{
    let last = chunks[m - 1];
    let before = chunk_records(bytes, chunks.take(m - 1), config);
    let own = records_of(chunk_bytes(bytes, last), last.first_line as nat, config);
    assert(chunk_records(bytes, chunks.take(m), config) =~= before.push(own));
    lemma_concat_all_push(before, own);
    lemma_chunk_extends_prefix(bytes, chunks, config, m - 1);
    lemma_chunk_starts(bytes, chunks, m - 1);
    if m == 1 {
        assert(before =~= Seq::<Seq<LineView>>::empty());
        assert(bytes.take(0) =~= Seq::<u8>::empty());
        assert(records_of(bytes.take(0), 1, config) =~= Seq::<LineView>::empty());
    } else {
        lemma_prefix_records(bytes, chunks, config, m - 1);
    }
}

/// However a buffer is cut into chunks at line boundaries, the chunks' records in a row are
/// the records of the buffer scanned in one pass: every line keeps its number and its place.
pub proof fn lemma_chunk_records_are_source_records(
    bytes: Seq<u8>,
    chunks: Seq<Chunk>,
    config: MatchSpec,
)
    requires
        is_partition(bytes, chunks),
    ensures
        concat_all(chunk_records(bytes, chunks, config)) == records_of(bytes, 1, config),
{
    lemma_prefix_records(bytes, chunks, config, chunks.len() as int);
    assert(chunks.take(chunks.len() as int) =~= chunks);
    assert(bytes.take(bytes.len() as int) =~= bytes);
}

/// The blocks of the first `m` chunks in a row are the blocks of one pass over the buffer up
/// to the end of the last of them, where no block is open across a cut.
proof fn lemma_prefix_blocks(
    bytes: Seq<u8>,
    chunks: Seq<Chunk>,
    config: MatchSpec,
    context: nat,
    m: int,
)
    requires
        is_partition(bytes, chunks),
        0 < m <= chunks.len(),
        forall|k: int|
            0 < k < chunks.len() ==> window_idle_at(
                bytes,
                (#[trigger] chunks[k]).start as int,
                config,
                context,
            ) || records_of(chunk_bytes(bytes, chunks[k]), chunks[k].first_line as nat, config).len()
                == 0,
    ensures
        chunked_blocks(bytes, chunks.take(m), config, context) == scan_blocks(
            bytes.take(chunks[m - 1].end as int),
            1,
            config,
            context,
        ),
    decreases m,
{
    let last = chunks[m - 1];
    let before = chunk_results(bytes, chunks.take(m - 1), config, context);
    let own_records = records_of(chunk_bytes(bytes, last), last.first_line as nat, config);
    let own = scan_blocks(chunk_bytes(bytes, last), last.first_line as nat, config, context);
    assert(chunk_results(bytes, chunks.take(m), config, context) =~= before.push(own));
    lemma_concat_all_push(before, own);
    lemma_chunk_extends_prefix(bytes, chunks, config, m - 1);
    lemma_chunk_starts(bytes, chunks, m - 1);
    let head_records = records_of(bytes.take(last.start as int), 1, config);
    if m == 1 {
        assert(before =~= Seq::<Seq<Seq<LineView>>>::empty());
        assert(bytes.take(0) =~= Seq::<u8>::empty());
        assert(head_records =~= Seq::<LineView>::empty());
        lemma_aggregate_concat(context, head_records, own_records);
        assert(crate::window::aggregate(context, head_records) =~= Seq::<Seq<LineView>>::empty());
    } else {
        lemma_prefix_blocks(bytes, chunks, config, context, m - 1);
        assert(window_idle_at(bytes, chunks[m - 1].start as int, config, context)
            || own_records.len() == 0);
        lemma_aggregate_concat(context, head_records, own_records);
    }
}

/// A scan by chunks gives the blocks of the scan in one pass wherever no block is open across
/// a cut: at the start of each chunk but the first, the one pass holds nothing in its window,
/// or the chunk has no line to give.
pub proof fn lemma_chunked_scan_is_sequential(
    bytes: Seq<u8>,
    chunks: Seq<Chunk>,
    config: MatchSpec,
    context: nat,
)
    requires
        is_partition(bytes, chunks),
        forall|k: int|
            0 < k < chunks.len() ==> window_idle_at(
                bytes,
                (#[trigger] chunks[k]).start as int,
                config,
                context,
            ) || records_of(chunk_bytes(bytes, chunks[k]), chunks[k].first_line as nat, config).len()
                == 0,
    ensures
        chunked_blocks(bytes, chunks, config, context) == scan_blocks(bytes, 1, config, context),
{
    lemma_prefix_blocks(bytes, chunks, config, context, chunks.len() as int);
    assert(chunks.take(chunks.len() as int) =~= chunks);
    assert(bytes.take(bytes.len() as int) =~= bytes);
}

/// Without context lines a scan by chunks gives the blocks of the scan in one pass, however
/// the buffer is cut at line boundaries.
pub proof fn lemma_zero_context_chunked_scan_is_sequential(
    bytes: Seq<u8>,
    chunks: Seq<Chunk>,
    config: MatchSpec,
)
    requires
        is_partition(bytes, chunks),
    ensures
        chunked_blocks(bytes, chunks, config, 0) == scan_blocks(bytes, 1, config, 0),
{
    assert forall|k: int| 0 < k < chunks.len() implies window_idle_at(
        bytes,
        (#[trigger] chunks[k]).start as int,
        config,
        0,
    ) by {
        crate::window::lemma_zero_context_window_is_idle(
            records_of(bytes.take(chunks[k].start as int), 1, config),
        );
    }
    lemma_chunked_scan_is_sequential(bytes, chunks, config, 0);
}

/// With one worker or none the buffer is one chunk, and the scan by chunks is the scan in one
/// pass.
pub proof fn lemma_single_chunk_is_sequential(
    bytes: Seq<u8>,
    workers: nat,
    config: MatchSpec,
    context: nat,
)
    requires
        bytes.len() < usize::MAX,
        workers <= 1,
    ensures
        chunked_blocks(bytes, planned_chunks(bytes, workers), config, context) == scan_blocks(
            bytes,
            1,
            config,
            context,
        ),
{
    lemma_plan_is_partition(bytes, workers);
    lemma_chunked_scan_is_sequential(bytes, planned_chunks(bytes, workers), config, context);
}

/// Every record of every part is a record of the parts in a row.
proof fn lemma_part_in_concat_all<A>(groups: Seq<Seq<A>>, k: int, i: int)
    requires
        0 <= k < groups.len(),
        0 <= i < groups[k].len(),
    ensures
        concat_all(groups).contains(groups[k][i]),
    decreases groups.len(),
{
    let before = concat_all(groups.drop_last());
    if k == groups.len() - 1 {
        assert(concat_all(groups)[before.len() + i] == groups[k][i]);
    } else {
        lemma_part_in_concat_all(groups.drop_last(), k, i);
        let j = choose|j: int| 0 <= j < before.len() && before[j] == groups[k][i];
        assert(concat_all(groups)[j] == groups[k][i]);
    }
}

/// Parts that are all empty make an empty row.
proof fn lemma_concat_all_of_empty<A>(groups: Seq<Seq<A>>)
    requires
        forall|k: int| 0 <= k < groups.len() ==> (#[trigger] groups[k]).len() == 0,
    ensures
        concat_all(groups) == Seq::<A>::empty(),
    decreases groups.len(),
{
    if groups.len() > 0 {
        lemma_concat_all_of_empty(groups.drop_last());
        assert(groups[groups.len() - 1].len() == 0);
        assert(concat_all(groups) =~= Seq::<A>::empty());
    }
}

/// Where the predicate selects no line of the buffer, the scan by chunks gives no block.
pub proof fn lemma_no_selected_line_no_chunk_blocks(
    bytes: Seq<u8>,
    chunks: Seq<Chunk>,
    config: MatchSpec,
    context: nat,
)
    requires
        is_partition(bytes, chunks),
        forall|i: int|
            0 <= i < decoded_lines(bytes, 1).len() ==> !config.selects(
                (#[trigger] decoded_lines(bytes, 1)[i]).text,
            ),
    ensures
        chunked_blocks(bytes, chunks, config, context) == Seq::<Seq<LineView>>::empty(),
{
    let parts = chunk_records(bytes, chunks, config);
    let whole = records_of(bytes, 1, config);
    let results = chunk_results(bytes, chunks, config, context);
    lemma_chunk_records_are_source_records(bytes, chunks, config);
    assert forall|j: int| 0 <= j < whole.len() implies !(#[trigger] whole[j]).matched by {
        assert(whole[j] == crate::scan::judge(decoded_lines(bytes, 1)[j], config));
    }
    assert forall|k: int| 0 <= k < results.len() implies (#[trigger] results[k]).len() == 0 by {
        let own = parts[k];
        assert forall|i: int| 0 <= i < own.len() implies !(#[trigger] own[i]).matched by {
            lemma_part_in_concat_all(parts, k, i);
            let j = choose|j: int| 0 <= j < whole.len() && whole[j] == own[i];
            assert(!whole[j].matched);
        }
        crate::window::lemma_no_match_no_blocks(context, own);
    }
    lemma_concat_all_of_empty(results);
}

/// The number of terminators between two offsets of `buffer`.
pub fn count_newlines(buffer: &[u8], from: usize, to: usize) -> (count: usize)
    requires
        from <= to <= buffer@.len(),
    ensures
        count == newline_count(buffer@.subrange(from as int, to as int)),
        count <= to - from,
{
    let mut count: usize = 0;
    let mut at: usize = from;
    proof {
        assert(buffer@.subrange(from as int, from as int) =~= Seq::<u8>::empty());
    }
    while at < to
        invariant
            from <= at <= to <= buffer@.len(),
            count <= at - from,
            count == newline_count(buffer@.subrange(from as int, at as int)),
        decreases to - at,
    {
        proof {
            assert(buffer@.subrange(from as int, at + 1).drop_last() =~= buffer@.subrange(
                from as int,
                at as int,
            ));
        }
        if buffer[at] == LINE_TERMINATOR {
            count = count + 1;
        }
        at = at + 1;
    }
    count
}

/// The nearest line boundary of `buffer` at or after `at`.
pub fn align_cut(buffer: &[u8], at: usize) -> (cut: usize)
    requires
        at <= buffer@.len(),
    ensures
        cut == boundary_after(buffer@, at as int),
        at <= cut <= buffer@.len(),
{
    proof {
        lemma_boundary_after(buffer@, at as int, at as int);
    }
    if at == 0 {
        0
    } else {
        let end: usize = find_line_end(buffer, at - 1);
        if end >= buffer.len() {
            buffer.len()
        } else {
            end + 1
        }
    }
}

/// Cuts `buffer` into one chunk for each of `workers` workers, one where there is none. Each
/// chunk starts on the nearest line boundary at or after its equal share, so a long line may
/// leave chunks empty; each carries the number of its first line.
pub fn plan_chunks(buffer: &[u8], workers: usize) -> (chunks: Vec<Chunk>)
    requires
        buffer@.len() < usize::MAX,
    ensures
        chunks@ == planned_chunks(buffer@, workers as nat),
        is_partition(buffer@, chunks@),
        forall|k: int| 0 <= k < chunks@.len() ==> chunk_fits(buffer@, #[trigger] chunks@[k]),
{
    let slots: usize = if workers == 0 { 1 } else { workers };
    let len: usize = buffer.len();
    let share: usize = len / slots;
    let ghost bytes = buffer@;
    let mut chunks: Vec<Chunk> = Vec::new();
    let mut k: usize = 0;
    let mut naive: usize = 0;
    let mut start: usize = 0;
    let mut first_line: usize = 1;
    proof {
        lemma_plan_is_partition(bytes, workers as nat);
        lemma_naive_cut(len as nat, slots as nat, 0);
        lemma_boundary_after(bytes, 0, 0);
        assert(bytes.take(0) =~= Seq::<u8>::empty());
    }
    while k < slots
        invariant
            bytes == buffer@,
            len == bytes.len(),
            len < usize::MAX,
            slots == worker_slots(workers as nat),
            share == len / slots,
            k <= slots,
            chunks@.len() == k,
            k < slots ==> naive == naive_cut(len as nat, slots as nat, k as nat),
            k < slots ==> start == cut_at(bytes, slots as nat, k as nat),
            start <= len,
            first_line == 1 + newline_count(bytes.take(start as int)),
            forall|j: int| 0 <= j < k ==> #[trigger] chunks@[j] == planned_chunk(bytes, slots as nat, j as nat),
        decreases slots - k,
    {
        proof {
            lemma_naive_cut(len as nat, slots as nat, k as nat);
            lemma_boundary_after(
                bytes,
                naive_cut(len as nat, slots as nat, k as nat) as int,
                naive_cut(len as nat, slots as nat, (k + 1) as nat) as int,
            );
        }
        let next_naive: usize = if k + 1 == slots { len } else { naive + share };
        let end: usize = align_cut(buffer, next_naive);
        let lines: usize = count_newlines(buffer, start, end);
        proof {
            lemma_newline_count_concat(bytes.take(start as int), bytes.subrange(start as int, end as int));
            assert(bytes.take(start as int) + bytes.subrange(start as int, end as int) =~= bytes.take(
                end as int,
            ));
            lemma_newline_count_bound(bytes.take(end as int));
        }
        chunks.push(Chunk { start, end, index: k, first_line });
        first_line = first_line + lines;
        start = end;
        naive = next_naive;
        k = k + 1;
    }
    proof {
        assert(chunks@ =~= planned_chunks(bytes, workers as nat));
    }
    chunks
}

/// Scans one chunk of `buffer` as a source of its own, lines numbered from the chunk's first.
pub fn scan_chunk(buffer: &[u8], chunk: &Chunk, predicate: &Predicate, context_size: usize) -> (blocks:
    Vec<OutputBlock>)
    requires
        chunk_fits(buffer@, *chunk),
    ensures
        block_views(blocks@) == scan_blocks(
            chunk_bytes(buffer@, *chunk),
            chunk.first_line as nat,
            predicate@,
            context_size as nat,
        ),
{
    scan_lines(&buffer[chunk.start..chunk.end], chunk.first_line, predicate, context_size)
}

/// The views of the workers' results, in chunk order.
pub open spec fn group_views(groups: Seq<Vec<OutputBlock>>) -> Seq<Seq<Seq<LineView>>> {
    groups.map_values(|group: Vec<OutputBlock>| block_views(group@))
}

/// rayon's `par_iter`, `map` and `collect`: `scan_chunk` runs on every chunk, on the threads of
/// the pool, and the results come back in the order of the chunks.
#[verifier::external_body]
fn scan_chunks_on_pool(
    buffer: &[u8],
    chunks: &Vec<Chunk>,
    predicate: &Predicate,
    context_size: usize,
) -> (results: Vec<Vec<OutputBlock>>)
    requires
        forall|k: int| 0 <= k < chunks@.len() ==> chunk_fits(buffer@, #[trigger] chunks@[k]),
    ensures
        group_views(results@) == chunk_results(buffer@, chunks@, predicate@, context_size as nat),
{
    chunks.par_iter().map(|chunk| scan_chunk(buffer, chunk, predicate, context_size)).collect()
}

/// rayon's `current_num_threads`: the size of the thread pool. It depends on the machine and
/// on the environment, so nothing is claimed of it.
#[verifier::external_body]
fn pool_size() -> (workers: usize) {
    rayon::current_num_threads()
}

/// Puts the workers' blocks in a row, in chunk order.
pub fn merge_in_order(results: Vec<Vec<OutputBlock>>) -> (blocks: Vec<OutputBlock>)
    ensures
        block_views(blocks@) == concat_all(group_views(results@)),
{
    let ghost groups = results@;
    let ghost count = groups.len() as int;
    let mut results = results;
    let mut reversed: Vec<Vec<OutputBlock>> = Vec::new();
    while results.len() > 0
        invariant
            count == groups.len(),
            results@.len() + reversed@.len() == count,
            results@ =~= groups.take(results@.len() as int),
            forall|j: int| 0 <= j < reversed@.len() ==> #[trigger] reversed@[j] == groups[count - 1 - j],
        decreases results@.len(),
    {
        let group = results.pop();
        reversed.push(group.unwrap());
    }
    let mut blocks: Vec<OutputBlock> = Vec::new();
    proof {
        assert(groups.take(0) =~= Seq::<Vec<OutputBlock>>::empty());
        assert(block_views(blocks@) =~= Seq::<Seq<LineView>>::empty());
        assert(group_views(groups.take(0)) =~= Seq::<Seq<Seq<LineView>>>::empty());
    }
    while reversed.len() > 0
        invariant
            count == groups.len(),
            reversed@.len() <= count,
            forall|j: int| 0 <= j < reversed@.len() ==> #[trigger] reversed@[j] == groups[count - 1 - j],
            block_views(blocks@) == concat_all(group_views(groups.take(count - reversed@.len()))),
        decreases reversed@.len(),
    {
        let ghost done = count - reversed@.len();
        let ghost before = blocks@;
        let mut group: Vec<OutputBlock> = reversed.pop().unwrap();
        proof {
            assert(group == groups[done]);
            assert(group_views(groups.take(done + 1)) =~= group_views(groups.take(done)).push(
                block_views(group@),
            ));
            lemma_concat_all_push(group_views(groups.take(done)), block_views(group@));
        }
        let ghost moved = group@;
        blocks.append(&mut group);
        proof {
            assert(block_views(before + moved) =~= block_views(before) + block_views(moved));
        }
    }
    proof {
        assert(groups.take(count) =~= groups);
    }
    blocks
}

/// The parallel scan of a whole source for `workers` workers: the buffer is cut by
/// `plan_chunks`, every chunk is scanned by itself on the thread pool, and the blocks are put
/// in chunk order.
pub fn scan_parallel(buffer: &[u8], predicate: &Predicate, context_size: usize, workers: usize) -> (blocks:
    Vec<OutputBlock>)
    requires
        buffer@.len() < usize::MAX,
    ensures
        block_views(blocks@) == chunked_blocks(
            buffer@,
            planned_chunks(buffer@, workers as nat),
            predicate@,
            context_size as nat,
        ),
{
    let chunks: Vec<Chunk> = plan_chunks(buffer, workers);
    let results: Vec<Vec<OutputBlock>> = scan_chunks_on_pool(buffer, &chunks, predicate, context_size);
    merge_in_order(results)
}

/// The parallel scan with one chunk for each thread of the pool, however many there are.
pub fn scan_on_pool(buffer: &[u8], predicate: &Predicate, context_size: usize) -> (blocks: Vec<
    OutputBlock,
>)
    requires
        buffer@.len() < usize::MAX,
    ensures
        exists|workers: nat|
            block_views(blocks@) == chunked_blocks(
                buffer@,
                #[trigger] planned_chunks(buffer@, workers),
                predicate@,
                context_size as nat,
            ),
{
    let workers: usize = pool_size();
    let blocks = scan_parallel(buffer, predicate, context_size, workers);
    assert(block_views(blocks@) == chunked_blocks(
        buffer@,
        planned_chunks(buffer@, workers as nat),
        predicate@,
        context_size as nat,
    ));
    blocks
}

} // verus!
