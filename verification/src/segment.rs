//! The line segmenter: it walks a byte buffer from terminator to terminator and hands out the
//! lines that decode as text, each with its number.

use vstd::prelude::*;
use vstd::string::*;
use vstd::utf8::*;

verus! {

/// `core::str::Utf8Error`, which says where a buffer stops being well-formed UTF-8.
#[verifier::external_type_specification]
#[verifier::external_body]
pub struct ExUtf8Error(core::str::Utf8Error);

/// `str::from_utf8` succeeds exactly on well-formed UTF-8, and the text it gives has the bytes
/// it was given.
pub assume_specification[ core::str::from_utf8 ](v: &[u8]) -> (decoded: Result<
    &str,
    core::str::Utf8Error,
>)
    ensures
        decoded is Ok <==> valid_utf8(v@),
        decoded matches Ok(text) ==> text.spec_bytes() == v@,
;

/// The byte that ends a line.
pub const LINE_TERMINATOR: u8 = 0x0a;

/// The offset of the first terminator at or after `from`, or the length of `bytes` where
/// there is none.
pub open spec fn line_end(bytes: Seq<u8>, from: int) -> int
    decreases bytes.len() - from,
{
    if from < 0 || from >= bytes.len() {
        bytes.len() as int
    } else if bytes[from] == LINE_TERMINATOR {
        from
    } else {
        line_end(bytes, from + 1)
    }
}

/// `line_end` lies between `from` and the end of the buffer, on a terminator unless it is the
/// end, with no terminator before it.
pub proof fn lemma_line_end(bytes: Seq<u8>, from: int)
    requires
        0 <= from <= bytes.len(),
    ensures
        from <= line_end(bytes, from) <= bytes.len(),
        line_end(bytes, from) < bytes.len() ==> bytes[line_end(bytes, from)] == LINE_TERMINATOR,
        forall|k: int| from <= k < line_end(bytes, from) ==> bytes[k] != LINE_TERMINATOR,
    decreases bytes.len() - from,
{
    if from < bytes.len() && bytes[from] != LINE_TERMINATOR {
        lemma_line_end(bytes, from + 1);
    }
}

/// A line of text with its number, as contracts speak of it.
pub struct TextLine {
    pub line_number: nat,
    pub text: Seq<char>,
}

/// The lines of `bytes` from offset `from` on, where the line that starts there has the
/// number `number`.
///
/// A line runs up to the next terminator, or to the end of the buffer; what stands after the
/// last terminator is a line only if it is not empty. Each terminator advances the number by
/// one. A line whose bytes are not well-formed UTF-8 keeps its number and is left out.
pub open spec fn lines_from(bytes: Seq<u8>, from: int, number: nat) -> Seq<TextLine>
    decreases bytes.len() - from,
{
    if from < 0 || from >= bytes.len() {
        Seq::empty()
    } else {
        let end = line_end(bytes, from);
        let span = bytes.subrange(from, end);
        let rest = if end >= bytes.len() {
            Seq::empty()
        } else {
            proof {
                lemma_line_end(bytes, from);
            }
            lines_from(bytes, end + 1, number + 1)
        };
        if valid_utf8(span) {
            seq![TextLine { line_number: number, text: decode_utf8(span) }] + rest
        } else {
            rest
        }
    }
}

/// The lines of a whole buffer whose first line has the number `first_line`.
pub open spec fn decoded_lines(bytes: Seq<u8>, first_line: nat) -> Seq<TextLine> {
    lines_from(bytes, 0, first_line)
}

/// The number of terminators in `bytes`.
pub open spec fn newline_count(bytes: Seq<u8>) -> nat
    decreases bytes.len(),
{
    if bytes.len() == 0 {
        0
    } else {
        newline_count(bytes.drop_last()) + if bytes.last() == LINE_TERMINATOR {
            1nat
        } else {
            0nat
        }
    }
}

/// Offset `at` is a line boundary of `bytes`: the start or the end of the buffer, or the
/// offset just after a terminator.
pub open spec fn line_aligned(bytes: Seq<u8>, at: int) -> bool {
    at == 0 || at == bytes.len() || (0 < at < bytes.len() && bytes[at - 1] == LINE_TERMINATOR)
}

/// The nearest line boundary at or after `at`.
pub open spec fn boundary_after(bytes: Seq<u8>, at: int) -> int {
    if at <= 0 {
        0
    } else if line_end(bytes, at - 1) >= bytes.len() {
        bytes.len() as int
    } else {
        line_end(bytes, at - 1) + 1
    }
}

/// There are no more terminators than bytes.
pub proof fn lemma_newline_count_bound(bytes: Seq<u8>)
    ensures
        newline_count(bytes) <= bytes.len(),
    decreases bytes.len(),
{
    if bytes.len() > 0 {
        lemma_newline_count_bound(bytes.drop_last());
    }
}

/// The terminators of two buffers in a row are those of the one and those of the other.
pub proof fn lemma_newline_count_concat(first: Seq<u8>, second: Seq<u8>)
    ensures
        newline_count(first + second) == newline_count(first) + newline_count(second),
    decreases second.len(),
{
    if second.len() == 0 {
        assert(first + second =~= first);
    } else {
        lemma_newline_count_concat(first, second.drop_last());
        assert((first + second).drop_last() =~= first + second.drop_last());
    }
}

/// A stretch of bytes without a terminator counts none.
proof fn lemma_newline_count_none(bytes: Seq<u8>)
    requires
        forall|k: int| 0 <= k < bytes.len() ==> bytes[k] != LINE_TERMINATOR,
    ensures
        newline_count(bytes) == 0,
    decreases bytes.len(),
{
    if bytes.len() > 0 {
        lemma_newline_count_none(bytes.drop_last());
    }
}

/// From a line's first byte through its terminator there is one terminator.
proof fn lemma_newline_count_line(bytes: Seq<u8>, from: int)
    requires
        0 <= from <= bytes.len(),
        line_end(bytes, from) < bytes.len(),
    ensures
        newline_count(bytes.subrange(from, line_end(bytes, from) + 1)) == 1,
{
    lemma_line_end(bytes, from);
    let end = line_end(bytes, from);
    let line = bytes.subrange(from, end + 1);
    assert(line.drop_last() =~= bytes.subrange(from, end));
    lemma_newline_count_none(bytes.subrange(from, end));
}

/// A later offset has no earlier line end.
pub proof fn lemma_line_end_monotone(bytes: Seq<u8>, from: int, later: int)
    requires
        0 <= from <= later <= bytes.len(),
    ensures
        line_end(bytes, from) <= line_end(bytes, later),
{
    lemma_line_end(bytes, from);
    lemma_line_end(bytes, later);
}

/// `boundary_after` gives a line boundary between `at` and the end of the buffer, and a later
/// offset has no earlier boundary.
pub proof fn lemma_boundary_after(bytes: Seq<u8>, at: int, later: int)
    requires
        0 <= at <= later <= bytes.len(),
    ensures
        at <= boundary_after(bytes, at) <= boundary_after(bytes, later) <= bytes.len(),
        line_aligned(bytes, boundary_after(bytes, at)),
        boundary_after(bytes, 0) == 0,
        boundary_after(bytes, bytes.len() as int) == bytes.len(),
{
    if at > 0 {
        lemma_line_end(bytes, at - 1);
        lemma_line_end(bytes, later - 1);
        lemma_line_end_monotone(bytes, at - 1, later - 1);
    } else if later > 0 {
        lemma_line_end(bytes, later - 1);
    }
    if bytes.len() > 0 {
        lemma_line_end(bytes, bytes.len() - 1);
    }
}

/// Up to a line end, a buffer and its prefixes agree on where the line ends.
proof fn lemma_line_end_in_prefix(bytes: Seq<u8>, cut: int, from: int)
    requires
        0 <= from <= cut <= bytes.len(),
        line_end(bytes, from) < cut,
    ensures
        line_end(bytes.take(cut), from) == line_end(bytes, from),
    decreases cut - from,
{
    lemma_line_end(bytes, from);
    assert(bytes.take(cut)[from] == bytes[from]);
    if bytes[from] != LINE_TERMINATOR {
        lemma_line_end_in_prefix(bytes, cut, from + 1);
    }
}

/// Cutting off the front of a buffer moves its line ends by as much.
proof fn lemma_line_end_shift(bytes: Seq<u8>, cut: int, from: int)
    requires
        0 <= cut <= bytes.len(),
        0 <= from <= bytes.len() - cut,
    ensures
        line_end(bytes.skip(cut), from) + cut == line_end(bytes, cut + from),
    decreases bytes.len() - cut - from,
{
    if from < bytes.len() - cut && bytes[cut + from] != LINE_TERMINATOR {
        lemma_line_end_shift(bytes, cut, from + 1);
    }
}

/// The lines of a buffer from `cut + from` on are those of its tail from `from` on.
proof fn lemma_lines_shift(bytes: Seq<u8>, cut: int, from: int, number: nat)
    requires
        0 <= cut <= bytes.len(),
        0 <= from <= bytes.len() - cut,
    ensures
        lines_from(bytes.skip(cut), from, number) == lines_from(bytes, cut + from, number),
    decreases bytes.len() - cut - from,
{
    if from < bytes.len() - cut {
        let tail = bytes.skip(cut);
        lemma_line_end_shift(bytes, cut, from);
        lemma_line_end(tail, from);
        let end = line_end(tail, from);
        assert(tail.subrange(from, end) =~= bytes.subrange(cut + from, cut + end));
        if end < tail.len() {
            lemma_lines_shift(bytes, cut, end + 1, number + 1);
        }
    }
}

/// At a line boundary `cut`, the lines from `from` on are those that end before `cut`,
/// then those from `cut` on, whose numbers go on by the terminators in between.
proof fn lemma_lines_split(bytes: Seq<u8>, cut: int, from: int, number: nat)
    requires
        0 <= from <= cut < bytes.len(),
        line_aligned(bytes, cut),
    ensures
        lines_from(bytes, from, number) == lines_from(bytes.take(cut), from, number) + lines_from(
            bytes,
            cut,
            number + newline_count(bytes.subrange(from, cut)),
        ),
    decreases cut - from,
{
    let head = bytes.take(cut);
    if from == cut {
        assert(lines_from(head, from, number) =~= Seq::<TextLine>::empty());
        assert(bytes.subrange(from, cut) =~= Seq::<u8>::empty());
        assert(Seq::<TextLine>::empty() + lines_from(bytes, cut, number) =~= lines_from(
            bytes,
            cut,
            number,
        ));
    } else {
        lemma_line_end(bytes, from);
        lemma_line_end(bytes, cut - 1);
        lemma_line_end_monotone(bytes, from, cut - 1);
        let end = line_end(bytes, from);
        assert(end < cut);
        lemma_line_end_in_prefix(bytes, cut, from);
        assert(head.subrange(from, end) =~= bytes.subrange(from, end));
        lemma_newline_count_line(bytes, from);
        lemma_newline_count_concat(bytes.subrange(from, end + 1), bytes.subrange(end + 1, cut));
        assert(bytes.subrange(from, end + 1) + bytes.subrange(end + 1, cut) =~= bytes.subrange(
            from,
            cut,
        ));
        assert(line_aligned(bytes, end + 1));
        lemma_lines_split(bytes, cut, end + 1, number + 1);
        let span = bytes.subrange(from, end);
        let head_rest = if end >= head.len() {
            Seq::<TextLine>::empty()
        } else {
            lines_from(head, end + 1, number + 1)
        };
        assert(head_rest == lines_from(head, end + 1, number + 1));
        let later = lines_from(bytes, cut, number + newline_count(bytes.subrange(from, cut)));
        if valid_utf8(span) {
            let line = seq![TextLine { line_number: number, text: decode_utf8(span) }];
            assert(line + (head_rest + later) =~= (line + head_rest) + later);
        }
    }
}

/// Where `first` is empty or ends with a terminator, the lines of `first + second` are the
/// lines of `first`, then the lines of `second` numbered on from the terminators of `first`.
pub proof fn lemma_lines_concat(first: Seq<u8>, second: Seq<u8>, first_line: nat)
    requires
        first.len() == 0 || first.last() == LINE_TERMINATOR,
    ensures
        decoded_lines(first + second, first_line) == decoded_lines(first, first_line)
            + decoded_lines(second, first_line + newline_count(first)),
{
    let whole = first + second;
    let cut = first.len() as int;
    assert(whole.take(cut) =~= first);
    assert(whole.skip(cut) =~= second);
    assert(whole.subrange(0, cut) =~= first);
    if second.len() == 0 {
        assert(whole =~= first);
        assert(decoded_lines(first, first_line) + Seq::<TextLine>::empty() =~= decoded_lines(
            first,
            first_line,
        ));
    } else {
        lemma_lines_split(whole, cut, 0, first_line);
        lemma_lines_shift(whole, cut, 0, first_line + newline_count(first));
    }
}

/// Line numbers grow along the lines of a buffer, starting no lower than the first number.
pub proof fn lemma_line_numbers_increase(bytes: Seq<u8>, from: int, number: nat)
    requires
        0 <= from,
    ensures
        forall|i: int|
            0 <= i < lines_from(bytes, from, number).len() ==> (#[trigger] lines_from(
                bytes,
                from,
                number,
            )[i]).line_number >= number + i,
        forall|i: int, j: int|
            0 <= i < j < lines_from(bytes, from, number).len() ==> (#[trigger] lines_from(
                bytes,
                from,
                number,
            )[i]).line_number < (#[trigger] lines_from(bytes, from, number)[j]).line_number,
    decreases bytes.len() - from,
{
    if from < bytes.len() {
        lemma_line_end(bytes, from);
        let end = line_end(bytes, from);
        let span = bytes.subrange(from, end);
        let lines = lines_from(bytes, from, number);
        let rest = if end >= bytes.len() {
            Seq::<TextLine>::empty()
        } else {
            lines_from(bytes, end + 1, number + 1)
        };
        if end < bytes.len() {
            lemma_line_numbers_increase(bytes, end + 1, number + 1);
        }
        let shift: int = if valid_utf8(span) { 1 } else { 0 };
        assert forall|i: int| shift <= i < lines.len() implies #[trigger] lines[i] == rest[i - shift] by {}
        assert forall|i: int| 0 <= i < lines.len() implies (#[trigger] lines[i]).line_number
            >= number + i by {
            if i >= shift {
                assert(lines[i] == rest[i - shift]);
            }
        }
        assert forall|i: int, j: int| 0 <= i < j < lines.len() implies (#[trigger] lines[i]).line_number
            < (#[trigger] lines[j]).line_number by {
            assert(lines[j] == rest[j - shift]);
            if i >= shift {
                assert(lines[i] == rest[i - shift]);
            }
        }
    }
}

/// The one line that `span` holds, if it decodes.
pub open spec fn single_line(span: Seq<u8>, number: nat) -> Seq<TextLine> {
    if valid_utf8(span) {
        seq![TextLine { line_number: number, text: decode_utf8(span) }]
    } else {
        Seq::empty()
    }
}

/// A span without a terminator, followed by one, is one line.
pub proof fn lemma_terminated_line(span: Seq<u8>, number: nat)
    requires
        forall|k: int| 0 <= k < span.len() ==> span[k] != LINE_TERMINATOR,
    ensures
        decoded_lines(span.push(LINE_TERMINATOR), number) == single_line(span, number),
        newline_count(span.push(LINE_TERMINATOR)) == 1,
{
    let line = span.push(LINE_TERMINATOR);
    lemma_line_end(line, 0);
    assert(line[span.len() as int] == LINE_TERMINATOR);
    assert forall|k: int| 0 <= k < span.len() implies line[k] != LINE_TERMINATOR by {
        assert(line[k] == span[k]);
    }
    assert(line_end(line, 0) == span.len());
    assert(line.subrange(0, span.len() as int) =~= span);
    assert(lines_from(line, span.len() as int + 1, number + 1) =~= Seq::<TextLine>::empty());
    assert(single_line(span, number) + Seq::<TextLine>::empty() =~= single_line(span, number));
    assert(line.drop_last() =~= span);
    lemma_newline_count_none(span);
}

/// A span without a terminator that is not empty is one line.
pub proof fn lemma_unterminated_line(span: Seq<u8>, number: nat)
    requires
        span.len() > 0,
        forall|k: int| 0 <= k < span.len() ==> span[k] != LINE_TERMINATOR,
    ensures
        decoded_lines(span, number) == single_line(span, number),
{
    lemma_line_end(span, 0);
    assert(line_end(span, 0) == span.len());
    assert(span.subrange(0, span.len() as int) =~= span);
    assert(single_line(span, number) + Seq::<TextLine>::empty() =~= single_line(span, number));
}

/// The offset after the last terminator of `bytes`: where the line in progress starts.
pub open spec fn last_boundary(bytes: Seq<u8>) -> int
    decreases bytes.len(),
{
    if bytes.len() == 0 {
        0
    } else if bytes.last() == LINE_TERMINATOR {
        bytes.len() as int
    } else {
        last_boundary(bytes.drop_last())
    }
}

/// The lines of `bytes` that a terminator has ended.
pub open spec fn complete_lines(bytes: Seq<u8>) -> Seq<u8> {
    bytes.take(last_boundary(bytes))
}

/// `last_boundary` is a line boundary of the buffer with no terminator after it.
pub proof fn lemma_last_boundary(bytes: Seq<u8>)
    ensures
        0 <= last_boundary(bytes) <= bytes.len(),
        last_boundary(bytes) == 0 || bytes[last_boundary(bytes) - 1] == LINE_TERMINATOR,
        forall|k: int| last_boundary(bytes) <= k < bytes.len() ==> bytes[k] != LINE_TERMINATOR,
    decreases bytes.len(),
{
    if bytes.len() > 0 && bytes.last() != LINE_TERMINATOR {
        let shorter = bytes.drop_last();
        lemma_last_boundary(shorter);
        assert forall|k: int| last_boundary(bytes) <= k < bytes.len() implies bytes[k]
            != LINE_TERMINATOR by {
            if k < shorter.len() {
                assert(shorter[k] == bytes[k]);
            }
        }
    }
}

/// One decoded line of a buffer, borrowed from it.
#[derive(Clone, Copy, Debug, PartialEq, Eq)]
pub struct Line<'a> {
    /// The number of the line in its source.
    pub line_number: usize,
    /// The line without its terminator.
    pub text: &'a str,
}

impl<'a> View for Line<'a> {
    type V = TextLine;

    open spec fn view(&self) -> TextLine {
        TextLine { line_number: self.line_number as nat, text: self.text@ }
    }
}

/// The offset of the first terminator of `buffer` at or after `from`.
pub fn find_line_end(buffer: &[u8], from: usize) -> (end: usize)
    requires
        from <= buffer@.len(),
    ensures
        end == line_end(buffer@, from as int),
        from <= end <= buffer@.len(),
{
    let mut end: usize = from;
    while end < buffer.len() && buffer[end] != LINE_TERMINATOR
        invariant
            from <= end <= buffer@.len(),
            line_end(buffer@, from as int) == line_end(buffer@, end as int),
        decreases buffer@.len() - end,
    {
        end = end + 1;
    }
    end
}

/// A cursor over the lines of a buffer. Nothing is decoded before it is asked for.
pub struct Segmenter<'a> {
    buffer: &'a [u8],
    position: usize,
    line_number: usize,
}

impl<'a> Segmenter<'a> {
    #[verifier::type_invariant]
    spec fn in_bounds(self) -> bool {
        self.position <= self.buffer@.len() && self.line_number + (self.buffer@.len()
            - self.position) <= usize::MAX
    }

    /// The buffer that the cursor walks.
    pub closed spec fn source(&self) -> Seq<u8> {
        self.buffer@
    }

    /// The lines that the cursor has not handed out yet.
    pub closed spec fn remaining(&self) -> Seq<TextLine> {
        lines_from(self.buffer@, self.position as int, self.line_number as nat)
    }

    /// A cursor at the start of `buffer`, whose first line has the number `first_line`.
    pub fn new(buffer: &'a [u8], first_line: usize) -> (segmenter: Segmenter<'a>)
        requires
            first_line + buffer@.len() <= usize::MAX,
        ensures
            segmenter.source() == buffer@,
            segmenter.remaining() == decoded_lines(buffer@, first_line as nat),
    {
        Segmenter { buffer, position: 0, line_number: first_line }
    }

    /// The next line that decodes as text, or `None` when the buffer has no more.
    pub fn next_line(&mut self) -> (line: Option<Line<'a>>)
        ensures
            final(self).source() == old(self).source(),
            line is Some <==> old(self).remaining().len() > 0,
            line matches Some(found) ==> found@ == old(self).remaining()[0]
                && final(self).remaining() == old(self).remaining().drop_first(),
            line is None ==> final(self).remaining() == old(self).remaining(),
    {
        let buffer: &'a [u8] = self.buffer;
        let mut position: usize = self.position;
        let mut line_number: usize = self.line_number;
        proof {
            use_type_invariant(&*self);
        }
        let mut found: Option<Line<'a>> = None;
        while found.is_none() && position < buffer.len()
            invariant
                position <= buffer@.len(),
                line_number + (buffer@.len() - position) <= usize::MAX,
                buffer@ == old(self).source(),
                found is None ==> lines_from(buffer@, position as int, line_number as nat) == old(
                    self,
                ).remaining(),
                found matches Some(line) ==> old(self).remaining().len() > 0 && line@ == old(
                    self,
                ).remaining()[0] && lines_from(buffer@, position as int, line_number as nat)
                    == old(self).remaining().drop_first(),
            decreases buffer@.len() - position, if found is None { 1int } else { 0int },
        {
            let start: usize = position;
            let end: usize = find_line_end(buffer, start);
            let ghost span = buffer@.subrange(start as int, end as int);
            let ghost rest = if end >= buffer@.len() {
                Seq::<TextLine>::empty()
            } else {
                lines_from(buffer@, end + 1, (line_number + 1) as nat)
            };
            let number: usize = line_number;
            let decoded = std::str::from_utf8(&buffer[start..end]);
            if end < buffer.len() {
                position = end + 1;
                line_number = line_number + 1;
            } else {
                position = end;
            }
            assert(lines_from(buffer@, position as int, line_number as nat) == rest);
            match decoded {
                Ok(text) => {
                    proof {
                        encode_utf8_decode_utf8(text@);
                        let line = TextLine { line_number: number as nat, text: text@ };
                        assert((seq![line] + rest).drop_first() =~= rest);
                    }
                    found = Some(Line { line_number: number, text });
                },
                Err(_) => {},
            }
        }
        *self = Segmenter { buffer, position, line_number };
        found
    }
}

} // verus!
