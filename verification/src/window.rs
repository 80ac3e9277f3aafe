//! The context window: it holds the lines that may still belong to a block and decides, record
//! by record, when a block leaves.

use vstd::prelude::*;
use crate::record::{views_of, LineRecord, LineView, OutputBlock};

verus! {

/// The most records a window with `context` lines of context holds between two records.
pub open spec fn capacity(context: nat) -> nat {
    2 * context + 1
}

/// What one record does to a window: the records it holds afterwards and the block, if any,
/// that leaves.
pub struct Step {
    pub pending: Seq<LineView>,
    pub emitted: Option<Seq<LineView>>,
}

/// The window's rule for one incoming `record`.
///
/// A record that was not selected is dropped while nothing is held. Any other record joins the
/// held ones. When that makes more than `capacity(context)`, the oldest is removed; if the
/// removed record was a selected one, the rest leaves as a block. Otherwise, a selected record
/// that brings the held ones to `context + 1` makes them leave as a block.
pub open spec fn step(context: nat, pending: Seq<LineView>, record: LineView) -> Step {
    if pending.len() == 0 && !record.matched {
        Step { pending, emitted: None }
    } else {
        let grown = pending.push(record);
        let kept = if grown.len() > capacity(context) {
            grown.drop_first()
        } else {
            grown
        };
        if grown.len() > capacity(context) && grown[0].matched {
            Step { pending: Seq::empty(), emitted: Some(kept) }
        } else if record.matched && kept.len() == context + 1 {
            Step { pending: Seq::empty(), emitted: Some(kept) }
        } else {
            Step { pending: kept, emitted: None }
        }
    }
}

/// Where a window stands after a run of records: what it holds and the blocks that left.
pub struct Trace {
    pub pending: Seq<LineView>,
    pub blocks: Seq<Seq<LineView>>,
}

/// `step` applied to `records` in order, from a window that holds `start`.
pub open spec fn run(context: nat, start: Seq<LineView>, records: Seq<LineView>) -> Trace
    decreases records.len(),
{
    if records.len() == 0 {
        Trace { pending: start, blocks: Seq::empty() }
    } else {
        let before = run(context, start, records.drop_last());
        let last = step(context, before.pending, records.last());
        Trace {
            pending: last.pending,
            blocks: match last.emitted {
                Some(block) => before.blocks.push(block),
                None => before.blocks,
            },
        }
    }
}

/// What leaves at the end of the input: the held records as one block, if there are any.
pub open spec fn flush(pending: Seq<LineView>) -> Seq<Seq<LineView>> {
    if pending.len() > 0 {
        seq![pending]
    } else {
        Seq::empty()
    }
}

/// The blocks that a fresh window gives for `records`, the final flush included.
pub open spec fn aggregate(context: nat, records: Seq<LineView>) -> Seq<Seq<LineView>> {
    let trace = run(context, Seq::empty(), records);
    trace.blocks + flush(trace.pending)
}

/// The view of what `push` or `finish` hands back.
pub open spec fn emitted_view(emitted: Option<OutputBlock>) -> Option<Seq<LineView>> {
    match emitted {
        Some(block) => Some(block@),
        None => None,
    }
}

/// The pending records of one scan. It is made empty, takes records in line order through
/// `push`, and is closed by `finish`.
pub struct ContextWindow {
    context_size: usize,
    buffer: Vec<LineRecord>,
}

impl ContextWindow {
    #[verifier::type_invariant]
    spec fn within_capacity(self) -> bool {
        self.buffer@.len() <= capacity(self.context_size as nat)
    }

    /// The number of context lines the window was made for.
    pub closed spec fn context(&self) -> nat {
        self.context_size as nat
    }

    /// The records held, oldest first.
    pub closed spec fn pending(&self) -> Seq<LineView> {
        views_of(self.buffer@)
    }

    /// An empty window for `context_size` lines of context.
    pub fn new(context_size: usize) -> (window: ContextWindow)
        ensures
            window.context() == context_size,
            window.pending() == Seq::<LineView>::empty(),
    {
        let window = ContextWindow { context_size, buffer: Vec::new() };
        assert(window.pending() =~= Seq::<LineView>::empty());
        window
    }

    /// The number of context lines the window was made for.
    pub fn context_size(&self) -> (n: usize)
        ensures
            n == self.context(),
    {
        self.context_size
    }

    /// Whether the window holds nothing.
    pub fn is_idle(&self) -> (idle: bool)
        ensures
            idle == (self.pending().len() == 0),
    {
        self.buffer.len() == 0
    }

    /// The number of records held, never more than `capacity(self.context())`.
    pub fn pending_len(&self) -> (n: usize)
        ensures
            n == self.pending().len(),
            n <= capacity(self.context()),
    {
        proof {
            use_type_invariant(self);
        }
        self.buffer.len()
    }

    /// Takes the next record of the source and hands back the block that leaves, if one does.
    pub fn push(&mut self, record: LineRecord) -> (emitted: Option<OutputBlock>)
        ensures
            final(self).context() == old(self).context(),
            final(self).pending() == step(old(self).context(), old(self).pending(), record@).pending,
            emitted_view(emitted) == step(old(self).context(), old(self).pending(), record@).emitted,
    {
        proof {
            use_type_invariant(&*self);
        }
        let ghost before = self.pending();
        let ghost expected = step(self.context(), before, record@);
        let selected: bool = record.matched;
        if self.buffer.len() == 0 && !selected {
            return None;
        }
        let mut held: Vec<LineRecord> = Vec::new();
        std::mem::swap(&mut self.buffer, &mut held);
        held.push(record);
        assert(views_of(held@) =~= before.push(record@));
        let grown_len: usize = held.len();
        let context: usize = self.context_size;
        // More than 2 * context + 1, without computing that number.
        let over: bool = grown_len - 1 > context && grown_len - 1 - context > context;
        let mut oldest_selected: bool = false;
        if over {
            let oldest: LineRecord = held.remove(0);
            oldest_selected = oldest.matched;
            assert(views_of(held@) =~= before.push(record@).drop_first());
        }
        if oldest_selected || (selected && held.len() - 1 == context) {
            let block = OutputBlock { records: held };
            assert(self.pending() =~= Seq::<LineView>::empty());
            Some(block)
        } else {
            self.buffer = held;
            None
        }
    }

    /// Closes the window at the end of the input: what is still held leaves as a last block.
    pub fn finish(self) -> (last: Option<OutputBlock>)
        ensures
            last is Some <==> self.pending().len() > 0,
            last matches Some(block) ==> block@ == self.pending(),
    {
        if self.buffer.len() == 0 {
            None
        } else {
            Some(OutputBlock { records: self.buffer })
        }
    }
}

/// Taking one more record is one more `step`.
pub proof fn lemma_run_push(context: nat, start: Seq<LineView>, records: Seq<LineView>, record: LineView)
    ensures
        run(context, start, records.push(record)).pending == step(
            context,
            run(context, start, records).pending,
            record,
        ).pending,
        run(context, start, records.push(record)).blocks == match step(
            context,
            run(context, start, records).pending,
            record,
        ).emitted {
            Some(block) => run(context, start, records).blocks.push(block),
            None => run(context, start, records).blocks,
        },
{
    assert(records.push(record).drop_last() =~= records);
}

/// A run over `first + second` is the run over `first`, carried on over `second` from what the
/// window then holds.
pub proof fn lemma_run_concat(
    context: nat,
    start: Seq<LineView>,
    first: Seq<LineView>,
    second: Seq<LineView>,
)
    ensures
        run(context, start, first + second).pending == run(
            context,
            run(context, start, first).pending,
            second,
        ).pending,
        run(context, start, first + second).blocks == run(context, start, first).blocks + run(
            context,
            run(context, start, first).pending,
            second,
        ).blocks,
    decreases second.len(),
{
    let middle = run(context, start, first);
    if second.len() == 0 {
        assert(first + second =~= first);
        assert(middle.blocks + Seq::<Seq<LineView>>::empty() =~= middle.blocks);
    } else {
        lemma_run_concat(context, start, first, second.drop_last());
        assert((first + second).drop_last() =~= first + second.drop_last());
        let before = run(context, middle.pending, second.drop_last());
        let last = step(context, before.pending, second.last());
        match last.emitted {
            Some(block) => {
                assert((middle.blocks + before.blocks).push(block) =~= middle.blocks
                    + before.blocks.push(block));
            },
            None => {},
        }
    }
}

/// The window never holds more than its capacity, and the oldest record it holds is a
/// selected one.
pub proof fn lemma_pending_shape(context: nat, records: Seq<LineView>)
    ensures
        run(context, Seq::empty(), records).pending.len() <= capacity(context),
        run(context, Seq::empty(), records).pending.len() > 0 ==> run(
            context,
            Seq::empty(),
            records,
        ).pending[0].matched,
    decreases records.len(),
{
    if records.len() > 0 {
        lemma_pending_shape(context, records.drop_last());
    }
}

/// Every block that leaves the window holds at least one record.
pub proof fn lemma_blocks_are_not_empty(context: nat, records: Seq<LineView>)
    ensures
        forall|k: int|
            0 <= k < aggregate(context, records).len() ==> (#[trigger] aggregate(
                context,
                records,
            )[k]).len() > 0,
{
    lemma_run_blocks_are_not_empty(context, records);
}

/// No block that leaves during a run is empty.
proof fn lemma_run_blocks_are_not_empty(context: nat, records: Seq<LineView>)
    ensures
        forall|k: int|
            0 <= k < run(context, Seq::empty(), records).blocks.len() ==> (#[trigger] run(
                context,
                Seq::empty(),
                records,
            ).blocks[k]).len() > 0,
    decreases records.len(),
{
    if records.len() > 0 {
        lemma_run_blocks_are_not_empty(context, records.drop_last());
        let before = run(context, Seq::empty(), records.drop_last());
        let after = run(context, Seq::empty(), records);
        assert forall|k: int| 0 <= k < after.blocks.len() implies (#[trigger] after.blocks[k]).len()
            > 0 by {
            if k < before.blocks.len() {
                assert(after.blocks[k] == before.blocks[k]);
            }
        }
    }
}

/// `block` is a run of consecutive records of `records` that ends at or before `limit`.
pub open spec fn is_run_within(block: Seq<LineView>, records: Seq<LineView>, limit: int) -> bool {
    exists|from: int, to: int|
        0 <= from < to <= limit && limit <= records.len() && block == #[trigger] records.subrange(
            from,
            to,
        )
}

/// After the first `n` records the window holds the last records taken, and every block that
/// has left is a run of the records before.
proof fn lemma_run_keeps_runs(context: nat, records: Seq<LineView>, n: int)
    requires
        0 <= n <= records.len(),
    ensures
        run(context, Seq::empty(), records.take(n)).pending.len() <= n,
        run(context, Seq::empty(), records.take(n)).pending == records.subrange(
            n - run(context, Seq::empty(), records.take(n)).pending.len(),
            n,
        ),
        forall|k: int|
            0 <= k < run(context, Seq::empty(), records.take(n)).blocks.len() ==> is_run_within(
                #[trigger] run(context, Seq::empty(), records.take(n)).blocks[k],
                records,
                n,
            ),
    decreases n,
{
    let after = run(context, Seq::empty(), records.take(n));
    if n == 0 {
        assert(after.pending =~= records.subrange(0, 0));
    } else {
        lemma_run_keeps_runs(context, records, n - 1);
        assert(records.take(n).drop_last() =~= records.take(n - 1));
        let before = run(context, Seq::empty(), records.take(n - 1));
        let record = records[n - 1];
        let held = before.pending;
        let start = n - 1 - held.len();
        let last = step(context, held, record);
        if held.len() == 0 && !record.matched {
            assert(after.pending =~= records.subrange(n - 0, n));
        } else {
            let grown = held.push(record);
            assert(grown =~= records.subrange(start, n));
            if grown.len() > capacity(context) {
                assert(grown.drop_first() =~= records.subrange(start + 1, n));
            }
            if last.emitted is None {
                assert(after.pending == last.pending);
                assert(after.pending =~= records.subrange(n - after.pending.len(), n));
            } else {
                assert(after.pending =~= records.subrange(n, n));
            }
        }
        assert forall|k: int| 0 <= k < after.blocks.len() implies is_run_within(
            #[trigger] after.blocks[k],
            records,
            n,
        ) by {
            if k < before.blocks.len() {
                assert(after.blocks[k] == before.blocks[k]);
                assert(is_run_within(before.blocks[k], records, n - 1));
                let (from, to) = choose|from: int, to: int|
                    0 <= from < to <= n - 1 && before.blocks[k] == #[trigger] records.subrange(
                        from,
                        to,
                    );
                assert(before.blocks[k] == records.subrange(from, to));
            } else {
                let block = last.emitted->Some_0;
                assert(after.blocks[k] == block);
                let from = n - block.len();
                assert(block == records.subrange(from, n));
            }
        }
    }
}

/// Every block is a run of consecutive records of the input, in the input's order.
pub proof fn lemma_blocks_are_runs(context: nat, records: Seq<LineView>)
    ensures
        forall|k: int|
            0 <= k < aggregate(context, records).len() ==> is_run_within(
                #[trigger] aggregate(context, records)[k],
                records,
                records.len() as int,
            ),
{
    let n = records.len() as int;
    lemma_run_keeps_runs(context, records, n);
    assert(records.take(n) =~= records);
    let trace = run(context, Seq::empty(), records);
    let blocks = aggregate(context, records);
    assert forall|k: int| 0 <= k < blocks.len() implies is_run_within(
        #[trigger] blocks[k],
        records,
        n,
    ) by {
        if k < trace.blocks.len() {
            assert(blocks[k] == trace.blocks[k]);
        } else {
            assert(blocks[k] == trace.pending);
            assert(trace.pending == records.subrange(n - trace.pending.len(), n));
        }
    }
}

/// Records of which none was selected, given to a window that holds nothing, leave it as it
/// was: nothing held, no block.
pub proof fn lemma_unselected_are_dropped(context: nat, records: Seq<LineView>)
    requires
        forall|i: int| 0 <= i < records.len() ==> !(#[trigger] records[i]).matched,
    ensures
        run(context, Seq::empty(), records).pending == Seq::<LineView>::empty(),
        run(context, Seq::empty(), records).blocks == Seq::<Seq<LineView>>::empty(),
    decreases records.len(),
{
    if records.len() > 0 {
        lemma_unselected_are_dropped(context, records.drop_last());
        assert(!records[records.len() - 1].matched);
    }
}

/// Where the predicate selects no line, the scan gives no block at all.
pub proof fn lemma_no_match_no_blocks(context: nat, records: Seq<LineView>)
    requires
        forall|i: int| 0 <= i < records.len() ==> !(#[trigger] records[i]).matched,
    ensures
        aggregate(context, records) == Seq::<Seq<LineView>>::empty(),
{
    lemma_unselected_are_dropped(context, records);
    assert(aggregate(context, records) =~= Seq::<Seq<LineView>>::empty());
}

/// Without context lines a run holds nothing at its end, and each selected record has left
/// as a block of its own.
proof fn lemma_zero_context_run(records: Seq<LineView>)
    ensures
        run(0, Seq::empty(), records).pending == Seq::<LineView>::empty(),
        run(0, Seq::empty(), records).blocks.len() == crate::record::matched_count(records),
        forall|k: int|
            0 <= k < run(0, Seq::empty(), records).blocks.len() ==> (#[trigger] run(
                0,
                Seq::empty(),
                records,
            ).blocks[k]).len() == 1 && run(0, Seq::empty(), records).blocks[k][0].matched,
    decreases records.len(),
{
    if records.len() > 0 {
        lemma_zero_context_run(records.drop_last());
    }
}

/// Without context lines the window holds nothing between two records.
pub proof fn lemma_zero_context_window_is_idle(records: Seq<LineView>)
    ensures
        run(0, Seq::empty(), records).pending.len() == 0,
{
    lemma_zero_context_run(records);
}

/// Without context lines every block is one record, a selected one, and there are as many
/// blocks as selected records.
pub proof fn lemma_zero_context_blocks(records: Seq<LineView>)
    ensures
        aggregate(0, records).len() == crate::record::matched_count(records),
        forall|k: int|
            0 <= k < aggregate(0, records).len() ==> (#[trigger] aggregate(0, records)[k]).len()
                == 1 && aggregate(0, records)[k][0].matched,
{
    lemma_zero_context_run(records);
    assert(aggregate(0, records) =~= run(0, Seq::empty(), records).blocks);
}

/// Records of which none was selected, given to a window that holds `held` with a selected
/// record as its oldest: they join `held` while there is room; the first one too many pushes
/// the oldest out and makes the rest leave as the one block, and what follows is dropped.
proof fn lemma_unselected_after_match(context: nat, held: Seq<LineView>, tail: Seq<LineView>)
    requires
        0 < held.len() <= capacity(context),
        held[0].matched,
        forall|i: int| 0 <= i < tail.len() ==> !(#[trigger] tail[i]).matched,
    ensures
        held.len() + tail.len() <= capacity(context) ==> run(context, held, tail).pending == held
            + tail && run(context, held, tail).blocks == Seq::<Seq<LineView>>::empty(),
        held.len() + tail.len() > capacity(context) ==> run(context, held, tail).pending
            == Seq::<LineView>::empty() && run(context, held, tail).blocks == seq![
            (held + tail).subrange(1, capacity(context) as int + 1),
        ],
    decreases tail.len(),
{
    if tail.len() == 0 {
        assert(held + tail =~= held);
    } else {
        let shorter = tail.drop_last();
        lemma_unselected_after_match(context, held, shorter);
        assert(!tail[tail.len() - 1].matched);
        let before = run(context, held, shorter);
        if held.len() + shorter.len() <= capacity(context) {
            assert((held + shorter).push(tail.last()) =~= held + tail);
            if held.len() + tail.len() > capacity(context) {
                assert((held + tail).drop_first() =~= (held + tail).subrange(
                    1,
                    capacity(context) as int + 1,
                ));
                assert(Seq::<Seq<LineView>>::empty().push((held + tail).drop_first()) =~= seq![
                    (held + tail).subrange(1, capacity(context) as int + 1),
                ]);
            }
        } else {
            assert((held + shorter).subrange(1, capacity(context) as int + 1) =~= (held
                + tail).subrange(1, capacity(context) as int + 1));
        }
    }
}

/// Where the predicate selects exactly two records, at positions `i` and `j` of the input with
/// fewer than `capacity(context)` records from one to the other, all that the scan gives is
/// one block, and the second of the two is in it.
pub proof fn lemma_two_matches_one_block(context: nat, records: Seq<LineView>, i: int, j: int)
    requires
        0 <= i < j < records.len(),
        j - i < capacity(context),
        forall|k: int| 0 <= k < records.len() ==> ((#[trigger] records[k]).matched <==> (k == i || k == j)),
    ensures
        aggregate(context, records).len() == 1,
        aggregate(context, records)[0].contains(records[j]),
{
    let none = Seq::<LineView>::empty();
    let head = records.take(i);
    let between = records.subrange(i + 1, j);
    let tail = records.skip(j + 1);
    // Up to the first of the two: everything is dropped.
    lemma_unselected_are_dropped(context, head);
    // The first of the two opens the window.
    lemma_run_push(context, none, head, records[i]);
    let opened = seq![records[i]];
    assert(none.push(records[i]) =~= opened);
    assert(run(context, none, head.push(records[i])).pending == opened);
    assert(run(context, none, head.push(records[i])).blocks =~= Seq::<Seq<LineView>>::empty());
    // The records between the two join it.
    assert forall|k: int| 0 <= k < between.len() implies !(#[trigger] between[k]).matched by {
        assert(between[k] == records[i + 1 + k]);
    }
    lemma_unselected_after_match(context, opened, between);
    lemma_run_concat(context, none, head.push(records[i]), between);
    assert(head.push(records[i]) + between =~= records.take(j));
    let joined = opened + between;
    assert(run(context, none, records.take(j)).pending == joined);
    assert(run(context, none, records.take(j)).blocks =~= Seq::<Seq<LineView>>::empty());
    // The second of the two joins it as well, and may make it leave.
    lemma_run_push(context, none, records.take(j), records[j]);
    assert(records.take(j).push(records[j]) =~= records.take(j + 1));
    let both = joined.push(records[j]);
    assert(both.len() == j - i + 1);
    assert(both[0] == records[i]);
    assert(both[both.len() - 1] == records[j]);
    let after = run(context, none, records.take(j + 1));
    // What follows the two.
    assert forall|k: int| 0 <= k < tail.len() implies !(#[trigger] tail[k]).matched by {
        assert(tail[k] == records[j + 1 + k]);
    }
    lemma_run_concat(context, none, records.take(j + 1), tail);
    assert(records.take(j + 1) + tail =~= records);
    if both.len() == context + 1 {
        assert(after.pending == none);
        assert(after.blocks =~= seq![both]);
        lemma_unselected_are_dropped(context, tail);
        assert(aggregate(context, records) =~= seq![both]);
    } else {
        assert(after.pending == both);
        assert(after.blocks =~= Seq::<Seq<LineView>>::empty());
        lemma_unselected_after_match(context, both, tail);
        if both.len() + tail.len() <= capacity(context) {
            assert(aggregate(context, records) =~= seq![both + tail]);
            assert((both + tail)[both.len() - 1] == records[j]);
        } else {
            let block = (both + tail).subrange(1, capacity(context) as int + 1);
            assert(aggregate(context, records) =~= seq![block]);
            assert(block[both.len() - 2] == records[j]);
        }
    }
}

/// Where the window holds nothing after `first`, or `second` is empty, the blocks of
/// `first + second` are the blocks of `first`, then the blocks of `second`.
pub proof fn lemma_aggregate_concat(context: nat, first: Seq<LineView>, second: Seq<LineView>)
    requires
        run(context, Seq::empty(), first).pending.len() == 0 || second.len() == 0,
    ensures
        aggregate(context, first + second) == aggregate(context, first) + aggregate(context, second),
{
    let none = Seq::<LineView>::empty();
    if second.len() == 0 {
        assert(first + second =~= first);
        assert(aggregate(context, second) =~= Seq::<Seq<LineView>>::empty());
        assert(aggregate(context, first) + Seq::<Seq<LineView>>::empty() =~= aggregate(
            context,
            first,
        ));
    } else {
        lemma_run_concat(context, none, first, second);
        assert(run(context, none, first).pending =~= none);
        let head = run(context, none, first);
        let tail = run(context, none, second);
        assert(aggregate(context, first) =~= head.blocks);
        assert((head.blocks + tail.blocks) + flush(tail.pending) =~= head.blocks + (tail.blocks
            + flush(tail.pending)));
    }
}

/// A copy of `record`, field by field.
fn copy_record(record: &LineRecord) -> (copy: LineRecord)
    ensures
        copy@ == record@,
{
    LineRecord { line_number: record.line_number, text: record.text.clone(), matched: record.matched }
}

/// The blocks of a whole run of records: a fresh window takes each in order and is closed.
pub fn aggregate_records(context_size: usize, records: &[LineRecord]) -> (blocks: Vec<OutputBlock>)
    ensures
        crate::record::block_views(blocks@) == aggregate(context_size as nat, views_of(records@)),
{
    let mut window = ContextWindow::new(context_size);
    let mut blocks: Vec<OutputBlock> = Vec::new();
    let mut i: usize = 0;
    let ghost all = views_of(records@);
    assert(crate::record::block_views(blocks@) =~= Seq::<Seq<LineView>>::empty());
    while i < records.len()
        invariant
            i <= records.len(),
            all == views_of(records@),
            window.context() == context_size,
            window.pending() == run(context_size as nat, Seq::empty(), all.take(i as int)).pending,
            crate::record::block_views(blocks@) == run(
                context_size as nat,
                Seq::empty(),
                all.take(i as int),
            ).blocks,
        decreases records.len() - i,
    {
        proof {
            assert(all.take(i as int + 1).drop_last() =~= all.take(i as int));
            assert(all.take(i as int + 1).last() == records@[i as int]@);
        }
        let ghost old_blocks = crate::record::block_views(blocks@);
        let emitted = window.push(copy_record(&records[i]));
        match emitted {
            Some(block) => {
                blocks.push(block);
                assert(crate::record::block_views(blocks@) =~= old_blocks.push(block@));
            },
            None => {},
        }
        i = i + 1;
    }
    proof {
        assert(all.take(i as int) =~= all);
    }
    let ghost old_blocks = crate::record::block_views(blocks@);
    let ghost held = window.pending();
    match window.finish() {
        Some(block) => {
            blocks.push(block);
            assert(crate::record::block_views(blocks@) =~= old_blocks + flush(held));
        },
        None => {
            assert(crate::record::block_views(blocks@) =~= old_blocks + flush(held));
        },
    }
    blocks
}

} // verus!
