//! Lines as the scan reports them, and the blocks they are gathered into.

use vstd::prelude::*;

verus! {

/// One decoded line of a source with the predicate's verdict on it.
#[derive(Clone, Debug, PartialEq, Eq)]
pub struct LineRecord {
    /// 1-based position of the line in its source.
    pub line_number: usize,
    /// The line without its terminator.
    pub text: String,
    /// Whether the predicate selected the line.
    pub matched: bool,
}

/// What a `LineRecord` stands for in contracts.
pub struct LineView {
    pub line_number: nat,
    pub text: Seq<char>,
    pub matched: bool,
}

impl View for LineRecord {
    type V = LineView;

    open spec fn view(&self) -> LineView {
        LineView { line_number: self.line_number as nat, text: self.text@, matched: self.matched }
    }
}

/// The views of a run of records, in order.
pub open spec fn views_of(records: Seq<LineRecord>) -> Seq<LineView> {
    records.map_values(|r: LineRecord| r@)
}

/// A run of records that leaves the context window together.
#[derive(Clone, Debug, PartialEq, Eq)]
pub struct OutputBlock {
    /// The records of the block, oldest first.
    pub records: Vec<LineRecord>,
}

impl View for OutputBlock {
    type V = Seq<LineView>;

    open spec fn view(&self) -> Seq<LineView> {
        views_of(self.records@)
    }
}

/// The views of a run of blocks, in order.
pub open spec fn block_views(blocks: Seq<OutputBlock>) -> Seq<Seq<LineView>> {
    blocks.map_values(|b: OutputBlock| b@)
}

/// The number of selected lines among `records`.
pub open spec fn matched_count(records: Seq<LineView>) -> nat
    decreases records.len(),
{
    if records.len() == 0 {
        0
    } else {
        matched_count(records.drop_last()) + if records.last().matched { 1nat } else { 0nat }
    }
}

impl OutputBlock {
    /// The number of records in the block.
    pub fn len(&self) -> (n: usize)
        ensures
            n == self@.len(),
    {
        self.records.len()
    }

    /// How many records of the block the predicate selected; the rest are context.
    pub fn matched_lines(&self) -> (n: usize)
        ensures
            n == matched_count(self@),
    {
        let mut n: usize = 0;
        let mut i: usize = 0;
        while i < self.records.len()
            invariant
                i <= self.records.len(),
                n <= i,
                n == matched_count(self@.take(i as int)),
            decreases self.records.len() - i,
        {
            proof {
                assert(self@.take(i as int + 1).drop_last() =~= self@.take(i as int));
            }
            if self.records[i].matched {
                n = n + 1;
            }
            i = i + 1;
        }
        proof {
            assert(self@.take(i as int) =~= self@);
        }
        n
    }
}

/// The number of selected lines in all of `blocks`.
pub open spec fn matched_total(blocks: Seq<Seq<LineView>>) -> nat
    decreases blocks.len(),
{
    if blocks.len() == 0 {
        0
    } else {
        matched_total(blocks.drop_last()) + matched_count(blocks.last())
    }
}

/// The tally of a counting sink: the selected lines of `blocks`, context lines left out. A
/// tally that does not fit the machine's word stops at `usize::MAX`.
pub fn count_matched(blocks: &[OutputBlock]) -> (total: usize)
    ensures
        total == if matched_total(block_views(blocks@)) <= usize::MAX {
            matched_total(block_views(blocks@))
        } else {
            usize::MAX as nat
        },
{
    let ghost all = block_views(blocks@);
    let mut total: usize = 0;
    let mut i: usize = 0;
    while i < blocks.len()
        invariant
            i <= blocks.len(),
            all == block_views(blocks@),
            total == if matched_total(all.take(i as int)) <= usize::MAX {
                matched_total(all.take(i as int))
            } else {
                usize::MAX as nat
            },
        decreases blocks.len() - i,
    {
        proof {
            assert(all.take(i as int + 1).drop_last() =~= all.take(i as int));
            assert(all.take(i as int + 1).last() == blocks@[i as int]@);
        }
        let own: usize = blocks[i].matched_lines();
        total = if own > usize::MAX - total {
            usize::MAX
        } else {
            total + own
        };
        i = i + 1;
    }
    proof {
        assert(all.take(i as int) =~= all);
    }
    total
}

} // verus!
