//! The sequential scanner for a source that arrives piece by piece: it takes bytes as they
//! are read and hands out each block as soon as it leaves the window.

use vstd::prelude::*;
use vstd::utf8::*;
use crate::matcher::{MatchSpec, Predicate};
use crate::record::{block_views, LineView, OutputBlock};
use crate::scan::{judge_line, judged, records_of, scan_blocks};
use crate::segment::{
    complete_lines, decoded_lines, last_boundary, lemma_last_boundary, lemma_lines_concat,
    lemma_newline_count_bound, lemma_newline_count_concat, lemma_terminated_line,
    lemma_unterminated_line, newline_count, single_line, Line, TextLine, LINE_TERMINATOR,
};
use crate::window::{flush, lemma_run_concat, run, ContextWindow};

verus! {

/// The blocks that have left the window of one pass once `bytes` were taken. The line in
/// progress, which no terminator has ended yet, has not been looked at.
pub open spec fn blocks_so_far(bytes: Seq<u8>, config: MatchSpec, context: nat) -> Seq<Seq<LineView>> {
    run(context, Seq::empty(), records_of(complete_lines(bytes), 1, config)).blocks
}

/// The records that the span of one line gives: one if it decodes, none if not.
pub open spec fn span_records(span: Seq<u8>, number: nat, config: MatchSpec) -> Seq<LineView> {
    judged(single_line(span, number), config)
}

/// Decodes one line, judges it and gives it to the window. An undecodable line changes nothing.
fn take_line(window: &mut ContextWindow, predicate: &Predicate, line_number: usize, span: &[u8]) -> (emitted:
    Option<OutputBlock>)
    ensures
        final(window).context() == old(window).context(),
        final(window).pending() == run(
            old(window).context(),
            old(window).pending(),
            span_records(span@, line_number as nat, predicate@),
        ).pending,
        run(
            old(window).context(),
            old(window).pending(),
            span_records(span@, line_number as nat, predicate@),
        ).blocks == match emitted {
            Some(block) => seq![block@],
            None => Seq::empty(),
        },
{
    let ghost records = span_records(span@, line_number as nat, predicate@);
    let ghost none = Seq::<LineView>::empty();
    match std::str::from_utf8(span) {
        Ok(text) => {
            proof {
                encode_utf8_decode_utf8(text@);
            }
            let record = judge_line(Line { line_number, text }, predicate);
            proof {
                assert(records =~= none.push(record@));
                crate::window::lemma_run_push(window.context(), window.pending(), none, record@);
            }
            let emitted = window.push(record);
            proof {
                if emitted is Some {
                    let view = emitted->Some_0@;
                    assert(Seq::<Seq<LineView>>::empty().push(view) =~= seq![view]);
                }
            }
            emitted
        },
        Err(_) => {
            proof {
                assert(records =~= none);
            }
            None
        },
    }
}

/// The state of one pass over a source that is read piece by piece.
pub struct SequentialScanner<'a> {
    predicate: &'a Predicate,
    window: ContextWindow,
    line_number: usize,
    carry: Vec<u8>,
    seen: usize,
    history: Ghost<Seq<u8>>,
}

impl<'a> SequentialScanner<'a> {
    #[verifier::type_invariant]
    spec fn consistent(self) -> bool {
        let taken = self.history@;
        let done = complete_lines(taken);
        &&& self.seen == taken.len()
        &&& self.seen < usize::MAX
        &&& self.carry@ == taken.skip(last_boundary(taken))
        &&& self.line_number == 1 + newline_count(done)
        &&& self.window.pending() == run(
            self.window.context(),
            Seq::empty(),
            records_of(done, 1, self.predicate@),
        ).pending
    }

    /// All the bytes taken so far, in order.
    pub closed spec fn taken(&self) -> Seq<u8> {
        self.history@
    }

    /// The configuration of the predicate that judges the lines.
    pub closed spec fn config(&self) -> MatchSpec {
        self.predicate@
    }

    /// The number of context lines.
    pub closed spec fn context(&self) -> nat {
        self.window.context()
    }

    /// A scanner that has taken nothing yet.
    pub fn new(predicate: &'a Predicate, context_size: usize) -> (scanner: SequentialScanner<'a>)
        ensures
            scanner.taken() == Seq::<u8>::empty(),
            scanner.config() == predicate@,
            scanner.context() == context_size,
    {
        let window = ContextWindow::new(context_size);
        let ghost nothing = Seq::<u8>::empty();
        proof {
            assert(complete_lines(nothing) =~= nothing);
            assert(nothing.skip(0) =~= nothing);
            assert(records_of(nothing, 1, predicate@) =~= Seq::<LineView>::empty());
        }
        SequentialScanner {
            predicate,
            window,
            line_number: 1,
            carry: Vec::new(),
            seen: 0,
            history: Ghost(nothing),
        }
    }

    /// The number of bytes taken so far. It stays below `usize::MAX`.
    pub fn bytes_taken(&self) -> (n: usize)
        ensures
            n == self.taken().len(),
            n < usize::MAX,
    {
        proof {
            use_type_invariant(self);
        }
        self.seen
    }

    /// Takes the next piece of the source, cut anywhere, and hands back the blocks that have
    /// left the window by the end of its last complete line.
    pub fn feed(&mut self, data: &[u8]) -> (out: Vec<OutputBlock>)
        requires
            old(self).taken().len() + data@.len() < usize::MAX,
        ensures
            final(self).config() == old(self).config(),
            final(self).context() == old(self).context(),
            final(self).taken() == old(self).taken() + data@,
            blocks_so_far(final(self).taken(), old(self).config(), old(self).context())
                == blocks_so_far(old(self).taken(), old(self).config(), old(self).context())
                + block_views(out@),
    {
        proof {
            use_type_invariant(&*self);
        }
        let ghost before = self.history@;
        let ghost config = self.predicate@;
        let ghost context = self.window.context();
        let ghost none = Seq::<LineView>::empty();
        let predicate: &'a Predicate = self.predicate;
        let mut fresh = SequentialScanner::new(predicate, self.window.context_size());
        std::mem::swap(self, &mut fresh);
        let SequentialScanner { predicate: _, window, line_number, carry, seen, history: _ } = fresh;
        let mut window = window;
        let mut line_number = line_number;
        let mut carry = carry;
        let mut out: Vec<OutputBlock> = Vec::new();
        let mut i: usize = 0;
        proof {
            assert(before + data@.take(0) =~= before);
            assert(block_views(out@) =~= Seq::<Seq<LineView>>::empty());
            assert(blocks_so_far(before, config, context) + block_views(out@) =~= blocks_so_far(
                before,
                config,
                context,
            ));
        }
        while i < data.len()
            invariant
                i <= data@.len(),
                seen == before.len(),
                before.len() + data@.len() < usize::MAX,
                config == predicate@,
                context == window.context(),
                none == Seq::<LineView>::empty(),
                carry@ == (before + data@.take(i as int)).skip(
                    last_boundary(before + data@.take(i as int)),
                ),
                line_number == 1 + newline_count(complete_lines(before + data@.take(i as int))),
                window.pending() == run(
                    context,
                    none,
                    records_of(complete_lines(before + data@.take(i as int)), 1, config),
                ).pending,
                blocks_so_far(before + data@.take(i as int), config, context) == blocks_so_far(
                    before,
                    config,
                    context,
                ) + block_views(out@),
            decreases data@.len() - i,
        {
            let ghost taken = before + data@.take(i as int);
            let ghost next = before + data@.take(i + 1);
            let ghost done = complete_lines(taken);
            let byte: u8 = data[i];
            proof {
                assert(next =~= taken.push(byte));
                assert(next.drop_last() =~= taken);
                lemma_last_boundary(taken);
                lemma_newline_count_bound(done);
            }
            if byte == LINE_TERMINATOR {
                let ghost old_out = block_views(out@);
                let ghost span = carry@;
                let emitted = take_line(&mut window, predicate, line_number, carry.as_slice());
                proof {
                    let line = span.push(LINE_TERMINATOR);
                    assert(complete_lines(next) =~= done + line);
                    lemma_terminated_line(span, line_number as nat);
                    lemma_lines_concat(done, line, 1);
                    lemma_newline_count_concat(done, line);
                    let head = records_of(done, 1, config);
                    let own = span_records(span, line_number as nat, config);
                    assert(records_of(done + line, 1, config) =~= head + own);
                    lemma_run_concat(context, none, head, own);
                }
                match emitted {
                    Some(block) => {
                        out.push(block);
                        proof {
                            assert(block_views(out@) =~= old_out.push(block@));
                            assert(blocks_so_far(next, config, context) =~= blocks_so_far(
                                before,
                                config,
                                context,
                            ) + block_views(out@));
                        }
                    },
                    None => {
                        proof {
                            assert(blocks_so_far(next, config, context) =~= blocks_so_far(
                                before,
                                config,
                                context,
                            ) + block_views(out@));
                        }
                    },
                }
                carry = Vec::new();
                line_number = line_number + 1;
                proof {
                    assert(carry@ =~= next.skip(last_boundary(next)));
                }
            } else {
                carry.push(byte);
                proof {
                    assert(last_boundary(next) == last_boundary(taken));
                    assert(complete_lines(next) =~= done);
                    assert(carry@ =~= next.skip(last_boundary(next)));
                }
            }
            i = i + 1;
        }
        proof {
            assert(data@.take(i as int) =~= data@);
        }
        *self = SequentialScanner {
            predicate,
            window,
            line_number,
            carry,
            seen: seen + data.len(),
            history: Ghost(before + data@),
        };
        out
    }

    /// Ends the pass: the line in progress, if there is one, is taken as the last line, and the
    /// window is closed. With the blocks handed out before, these are the blocks of one pass
    /// over everything that was taken.
    pub fn finish(self) -> (out: Vec<OutputBlock>)
        ensures
            blocks_so_far(self.taken(), self.config(), self.context()) + block_views(out@)
                == scan_blocks(self.taken(), 1, self.config(), self.context()),
    {
        proof {
            use_type_invariant(&self);
        }
        let ghost taken = self.history@;
        let ghost done = complete_lines(taken);
        let ghost config = self.predicate@;
        let ghost context = self.window.context();
        let ghost none = Seq::<LineView>::empty();
        let SequentialScanner { predicate, window, line_number, carry, seen: _, history: _ } = self;
        let mut window = window;
        let mut out: Vec<OutputBlock> = Vec::new();
        let ghost head = records_of(done, 1, config);
        let ghost own = if carry@.len() > 0 {
            span_records(carry@, line_number as nat, config)
        } else {
            none
        };
        proof {
            lemma_last_boundary(taken);
            assert(done + carry@ =~= taken);
            lemma_lines_concat(done, carry@, 1);
            if carry@.len() > 0 {
                lemma_unterminated_line(carry@, line_number as nat);
            } else {
                assert(decoded_lines(carry@, line_number as nat) =~= Seq::<TextLine>::empty());
            }
            assert(records_of(taken, 1, config) =~= head + own);
            lemma_run_concat(context, none, head, own);
            assert(block_views(out@) =~= Seq::<Seq<LineView>>::empty());
        }
        if carry.len() > 0 {
            match take_line(&mut window, predicate, line_number, carry.as_slice()) {
                Some(block) => {
                    out.push(block);
                    proof {
                        assert(block_views(out@) =~= seq![block@]);
                    }
                },
                None => {},
            }
        }
        let ghost left = block_views(out@);
        let ghost held = window.pending();
        assert(left == run(context, run(context, none, head).pending, own).blocks);
        assert(held == run(context, none, head + own).pending);
        match window.finish() {
            Some(block) => {
                out.push(block);
                proof {
                    assert(block_views(out@) =~= left + flush(held));
                }
            },
            None => {
                proof {
                    assert(block_views(out@) =~= left + flush(held));
                }
            },
        }
        proof {
            let early = run(context, none, head).blocks;
            assert(early + (left + flush(held)) =~= (early + left) + flush(held));
        }
        out
    }
}

} // verus!
