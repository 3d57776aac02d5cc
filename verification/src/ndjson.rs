//! NDJSON framing: bytes to lines, and events to bytes.
//!
//! One JSON object per line, UTF-8, `\n`-terminated, no pretty-printing, in both
//! directions. Lines are routinely large (a 64 KiB PCM chunk is ~87 KB of
//! base64), so the reader collects into a growable buffer with a hard ceiling
//! rather than trusting the peer. The reader is handed the bytes chunk by chunk,
//! as they come: it does no reading of its own.
use vstd::prelude::*;
use vstd::slice::slice_subrange;
use vstd::utf8::{decode_utf8, encode_utf8, encode_utf8_decode_utf8, encode_utf8_valid_utf8, valid_utf8};
use crate::json::object_json;
use crate::protocol::{event_line, event_members, fitted, law_event_is_one_line, law_short_errors_fit, Event, EventView, MAX_LINE_BYTES};
use crate::text::utf8_text;

verus! {

/// One read from the peer.
#[derive(Debug, PartialEq, Eq)]
pub enum Line {
    /// A complete line, newline stripped. May be empty.
    Text(String),
    /// The line exceeded the ceiling and was discarded up to its terminating
    /// newline. The stream stays framed; the caller reports it.
    Oversize,
    /// The line was not valid UTF-8 and was discarded up to its newline.
    NotUtf8,
    /// The peer closed the stream.
    Eof,
}

/// What a [`Line`] says.
pub enum LineView {
    /// See [`Line::Text`].
    Text(Seq<char>),
    /// See [`Line::Oversize`].
    Oversize,
    /// See [`Line::NotUtf8`].
    NotUtf8,
    /// See [`Line::Eof`].
    Eof,
}

impl View for Line {
    type V = LineView;

    open spec fn view(&self) -> LineView {
        match *self {
            Line::Text(text) => LineView::Text(text@),
            Line::Oversize => LineView::Oversize,
            Line::NotUtf8 => LineView::NotUtf8,
            Line::Eof => LineView::Eof,
        }
    }
}

/// What the bytes of a line, without its newline, are read as.
pub open spec fn line_of(bytes: Seq<u8>, max_bytes: nat) -> LineView {
    if bytes.len() > max_bytes {
        LineView::Oversize
    } else if valid_utf8(bytes) {
        LineView::Text(decode_utf8(bytes))
    } else {
        LineView::NotUtf8
    }
}

/// How many bytes come before the first newline, or how many there are without one.
pub open spec fn line_length(bytes: Seq<u8>) -> nat
    decreases bytes.len(),
{
    if bytes.len() == 0 || bytes[0] == 10 {
        0
    } else {
        1 + line_length(bytes.drop_first())
    }
}

/// Every line of a stream, from its first byte to its end. A trailing fragment
/// without a newline is a line too; an empty one is not.
pub open spec fn lines_of(stream: Seq<u8>, max_bytes: nat) -> Seq<LineView>
    decreases stream.len(),
{
    let n = line_length(stream) as int;
    if n < stream.len() {
        seq![line_of(stream.take(n), max_bytes)] + lines_of(stream.skip(n + 1), max_bytes)
    } else if stream.len() > 0 {
        seq![line_of(stream, max_bytes), LineView::Eof]
    } else {
        seq![LineView::Eof]
    }
}

/// What a reader that holds `held` of a line makes of the next chunk: how many bytes
/// it uses up, the line that this completes, and what it then holds. An empty chunk
/// is the end of the stream.
pub open spec fn take_chunk(held: Seq<u8>, chunk: Seq<u8>, max_bytes: nat) -> (
    int,
    Option<LineView>,
    Seq<u8>,
) {
    let n = line_length(chunk) as int;
    if n < chunk.len() {
        (n + 1, Some(line_of(held + chunk.take(n), max_bytes)), Seq::empty())
    } else if chunk.len() > 0 {
        (chunk.len() as int, None, held + chunk)
    } else if held.len() == 0 {
        (0, Some(LineView::Eof), Seq::empty())
    } else {
        (0, Some(line_of(held, max_bytes)), Seq::empty())
    }
}

/// What became of a chunk of bytes.
#[derive(Debug, PartialEq, Eq)]
pub struct Taken {
    /// How many bytes of the chunk are used up; the rest begins the next chunk.
    pub consumed: usize,
    /// The line that the chunk completed, if it completed one.
    pub line: Option<Line>,
}

impl Taken {
    /// What the line says, if there is one.
    pub open spec fn found(self) -> Option<LineView> {
        match self.line {
            Some(line) => Some(line@),
            None => None,
        }
    }
}

/// Reads NDJSON lines with a hard per-line ceiling.
pub struct LineReader {
    max_bytes: usize,
    buf: Vec<u8>,
    overflowed: bool,
    held: Ghost<Seq<u8>>,
}

impl View for LineReader {
    type V = Seq<u8>;

    /// The bytes read of the line that is not complete yet.
    closed spec fn view(&self) -> Seq<u8> {
        self.held@
    }
}

impl LineReader {
    /// The ceiling on a line's bytes.
    pub closed spec fn max_bytes(self) -> nat {
        self.max_bytes as nat
    }

    /// The buffer holds the line until it outgrows the ceiling, and nothing from
    /// then on.
    pub closed spec fn wf(self) -> bool {
        &&& self.max_bytes > 0
        &&& self.overflowed == (self.held@.len() > self.max_bytes)
        &&& self.buf@ == if self.overflowed {
            Seq::empty()
        } else {
            self.held@
        }
        &&& line_length(self.held@) == self.held@.len()
    }

    /// Every reader that operations lead to has a ceiling, and holds no newline.
    pub proof fn lemma_wf(&self)
        requires
            self.wf(),
        ensures
            self.max_bytes() > 0,
            line_length(self@) == self@.len(),
    {
    }

    /// A reader with the protocol's [`MAX_LINE_BYTES`] ceiling.
    pub fn new() -> (reader: Self)
        ensures
            reader.wf(),
            reader.max_bytes() == MAX_LINE_BYTES,
            reader@ == Seq::<u8>::empty(),
    {
        Self::with_max_bytes(MAX_LINE_BYTES)
    }

    /// A reader with an explicit ceiling. `max_bytes` must be non-zero.
    pub fn with_max_bytes(max_bytes: usize) -> (reader: Self)
        requires
            max_bytes > 0,
        ensures
            reader.wf(),
            reader.max_bytes() == max_bytes,
            reader@ == Seq::<u8>::empty(),
    {
        LineReader { max_bytes, buf: Vec::new(), overflowed: false, held: Ghost(Seq::empty()) }
    }

    /// Take a chunk of bytes; an empty chunk is the end of the stream. Uses bytes
    /// up to and including the newline even when the line is rejected, so
    /// framing survives a bad line.
    pub fn next_line(&mut self, chunk: &[u8]) -> (taken: Taken)
        requires
            old(self).wf(),
        ensures
            final(self).wf(),
            final(self).max_bytes() == old(self).max_bytes(),
            taken.consumed <= chunk@.len(),
            (taken.consumed as int, taken.found(), final(self)@) == take_chunk(
                old(self)@,
                chunk@,
                old(self).max_bytes(),
            ),
    {
        if chunk.is_empty() {
            // A trailing fragment without a newline is still a line.
            if self.buf.is_empty() && !self.overflowed {
                return Taken { consumed: 0, line: Some(Line::Eof) };
            }
            let line = self.finish();
            return Taken { consumed: 0, line: Some(line) };
        }
        let idx = newline(chunk);
        if idx < chunk.len() {
            self.extend(slice_subrange(chunk, 0, idx));
            let line = self.finish();
            Taken { consumed: idx + 1, line: Some(line) }
        } else {
            self.extend(chunk);
            Taken { consumed: chunk.len(), line: None }
        }
    }

    /// Add bytes to the line, or give up on it once it is too long.
    fn extend(&mut self, chunk: &[u8])
        requires
            old(self).wf(),
            line_length(chunk@) == chunk@.len(),
        ensures
            final(self).wf(),
            final(self).max_bytes == old(self).max_bytes,
            final(self)@ == old(self)@ + chunk@,
    {
        proof {
            lemma_no_newline_joined(self.held@, chunk@);
        }
        let ghost held = self.held@ + chunk@;
        self.held = Ghost(held);
        if self.overflowed {
            return;
        }
        if chunk.len() > self.max_bytes - self.buf.len() {
            self.overflowed = true;
            self.buf = Vec::new();
            return;
        }
        self.buf.extend_from_slice(chunk);
        assert(self.buf@ =~= held);
    }

    /// Hand out the line and begin the next.
    fn finish(&mut self) -> (line: Line)
        requires
            old(self).wf(),
        ensures
            final(self).wf(),
            final(self).max_bytes == old(self).max_bytes,
            final(self)@ == Seq::<u8>::empty(),
            line@ == line_of(old(self)@, old(self).max_bytes as nat),
    {
        let mut bytes: Vec<u8> = Vec::new();
        bytes.append(&mut self.buf);
        assert(bytes@ =~= old(self).buf@);
        let overflowed = self.overflowed;
        self.buf = Vec::new();
        self.overflowed = false;
        self.held = Ghost(Seq::empty());
        if overflowed {
            return Line::Oversize;
        }
        match utf8_text(bytes) {
            Some(text) => Line::Text(text),
            None => Line::NotUtf8,
        }
    }
}

/// The index of the first newline, or the length without one.
fn newline(bytes: &[u8]) -> (idx: usize)
    ensures
        idx == line_length(bytes@),
        idx <= bytes@.len(),
        line_length(bytes@.take(idx as int)) == idx,
{
    let mut idx: usize = 0;
    assert(bytes@.skip(0) =~= bytes@);
    assert(line_length(bytes@.take(0)) == 0);
    while idx < bytes.len() && bytes[idx] != 10
        invariant
            idx <= bytes@.len(),
            line_length(bytes@) == idx + line_length(bytes@.skip(idx as int)),
            line_length(bytes@.take(idx as int)) == idx,
        decreases bytes@.len() - idx,
    {
        assert(bytes@.skip(idx as int).drop_first() =~= bytes@.skip(idx + 1));
        proof {
            let one = seq![bytes@[idx as int]];
            assert(one.drop_first() =~= Seq::empty());
            reveal_with_fuel(line_length, 2);
            lemma_no_newline_joined(bytes@.take(idx as int), one);
            assert(bytes@.take(idx as int) + one =~= bytes@.take(idx + 1));
        }
        idx = idx + 1;
    }
    idx
}

/// Two pieces without a newline make one without a newline.
proof fn lemma_no_newline_joined(first: Seq<u8>, second: Seq<u8>)
    requires
        line_length(first) == first.len(),
    ensures
        line_length(first + second) == first.len() + line_length(second),
    decreases first.len(),
{
    if first.len() == 0 {
        assert(first + second =~= second);
    } else {
        assert((first + second).drop_first() =~= first.drop_first() + second);
        lemma_no_newline_joined(first.drop_first(), second);
    }
}

/// Writes events as compact NDJSON.
pub struct EventWriter {
    inner: Vec<u8>,
}

impl View for EventWriter {
    type V = Seq<u8>;

    /// The bytes written so far.
    closed spec fn view(&self) -> Seq<u8> {
        self.inner@
    }
}

impl EventWriter {
    /// Wrap a sink.
    pub fn new(inner: Vec<u8>) -> (writer: Self)
        ensures
            writer@ == inner@,
    {
        EventWriter { inner }
    }

    /// Write one event as one line, if that is within the ceiling, and say whether
    /// it is. If not, nothing is written.
    pub fn write(&mut self, event: &Event) -> (written: bool)
        ensures
            written == (event_line(event@).len() <= MAX_LINE_BYTES + 1),
            final(self)@ == if written {
                old(self)@ + event_line(event@)
            } else {
                old(self)@
            },
    {
        let json = event.to_json();
        if json.as_str().as_bytes().len() > MAX_LINE_BYTES {
            return false;
        }
        self.inner.extend_from_slice(json.as_str().as_bytes());
        self.inner.push(10);
        assert(self.inner@ =~= old(self)@ + event_line(event@));
        true
    }

    /// Write one event, or the error in its place where its line is over the
    /// ceiling.
    pub fn deliver(&mut self, event: &Event)
        ensures
            final(self)@ == old(self)@ + event_line(fitted(event@)),
    {
        if !self.write(event) {
            self.write(&event.short_error());
        }
    }

    /// Consume the writer and return the sink.
    pub fn into_inner(self) -> (inner: Vec<u8>)
        ensures
            inner@ == self@,
    {
        self.inner
    }
}

/// What is left of the chunks once `consumed` bytes of the first are used up.
pub open spec fn after_first(chunks: Seq<Seq<u8>>, consumed: int) -> Seq<Seq<u8>> {
    if chunks.len() == 0 {
        chunks
    } else if consumed == chunks[0].len() {
        chunks.drop_first()
    } else {
        seq![chunks[0].skip(consumed)] + chunks.drop_first()
    }
}

/// The lines that a reader holding `held` hands out, one call after the other,
/// when the rest of the stream comes in the given chunks. What a call leaves of a
/// chunk is what the next call is given, and after the last chunk an empty one.
pub open spec fn read_lines(held: Seq<u8>, chunks: Seq<Seq<u8>>, max_bytes: nat) -> Seq<LineView>
    decreases
            chunks.flatten().len(),
            chunks.len(),
            held.len(),
{
    let chunk = if chunks.len() == 0 {
        Seq::empty()
    } else {
        chunks[0]
    };
    let (consumed, line, holding) = take_chunk(held, chunk, max_bytes);
    let rest = after_first(chunks, consumed);
    proof {
        if chunks.len() > 0 {
            assert(chunks.flatten() == chunk + chunks.drop_first().flatten());
            if consumed != chunk.len() {
                assert(rest.drop_first() =~= chunks.drop_first());
                assert(rest.flatten() == chunk.skip(consumed) + chunks.drop_first().flatten());
            }
        }
    }
    // Where nothing is left, the line is the end of the input: the empty answers below
    // only show that the calls come to an end.
    match line {
        None => if chunk.len() > 0 {
            read_lines(holding, rest, max_bytes)
        } else {
            Seq::empty()
        },
        Some(LineView::Eof) => seq![LineView::Eof],
        Some(line) => if chunk.len() > 0 || held.len() > 0 {
            seq![line] + read_lines(holding, rest, max_bytes)
        } else {
            Seq::empty()
        },
    }
}

proof fn lemma_flatten_first(chunks: Seq<Seq<u8>>)
    requires
        chunks.len() > 0,
    ensures
        chunks.flatten() == chunks[0] + chunks.drop_first().flatten(),
{
}

/// However the bytes of a stream arrive, the reader hands out the same lines:
/// those of the whole stream. An oversize or undecodable line costs no other
/// line its place.
pub proof fn law_lines_do_not_depend_on_chunks(
    held: Seq<u8>,
    chunks: Seq<Seq<u8>>,
    max_bytes: nat,
)
    requires
        line_length(held) == held.len(),
        forall|i: int| 0 <= i < chunks.len() ==> (#[trigger] chunks[i]).len() > 0,
    ensures
        read_lines(held, chunks, max_bytes) == lines_of(held + chunks.flatten(), max_bytes),
    decreases chunks.flatten().len(), chunks.len(), held.len(),
{
    let stream = held + chunks.flatten();
    if chunks.len() == 0 {
        assert(stream =~= held);
        if held.len() > 0 {
            law_lines_do_not_depend_on_chunks(Seq::empty(), chunks, max_bytes);
            assert(Seq::<u8>::empty() + chunks.flatten() =~= Seq::<u8>::empty());
            assert(seq![line_of(held, max_bytes)] + seq![LineView::Eof] =~= seq![
                line_of(held, max_bytes),
                LineView::Eof,
            ]);
        }
    } else {
        let chunk = chunks[0];
        let later = chunks.drop_first();
        let n = line_length(chunk) as int;
        assert(forall|i: int| 0 <= i < later.len() ==> (#[trigger] later[i]) == chunks[i + 1]);
        lemma_flatten_first(chunks);
        if n < chunk.len() {
            let rest = after_first(chunks, n + 1);
            assert forall|i: int| 0 <= i < rest.len() implies (#[trigger] rest[i]).len() > 0 by {
                if n + 1 != chunk.len() && i > 0 {
                    assert(rest[i] == later[i - 1]);
                }
            }
            if n + 1 != chunk.len() {
                lemma_flatten_first(rest);
                assert(rest.drop_first() =~= later);
            }
            assert(rest.flatten() =~= chunk.skip(n + 1) + later.flatten());
            law_lines_do_not_depend_on_chunks(Seq::empty(), rest, max_bytes);
            lemma_no_newline_joined(held, chunks.flatten());
            lemma_line_length_of_prefix(chunk, later.flatten());
            assert(stream.take(held.len() + n) =~= held + chunk.take(n));
            assert(stream.skip(held.len() + n + 1) =~= Seq::<u8>::empty() + rest.flatten());
        } else {
            lemma_line_length_at_most(chunk);
            lemma_no_newline_joined(held, chunk);
            law_lines_do_not_depend_on_chunks(held + chunk, later, max_bytes);
            assert(stream =~= (held + chunk) + later.flatten());
        }
    }
}

proof fn lemma_line_length_at_most(bytes: Seq<u8>)
    ensures
        line_length(bytes) <= bytes.len(),
    decreases bytes.len(),
{
    if bytes.len() > 0 {
        lemma_line_length_at_most(bytes.drop_first());
    }
}

proof fn lemma_line_length_of_prefix(first: Seq<u8>, second: Seq<u8>)
    requires
        line_length(first) < first.len(),
    ensures
        line_length(first + second) == line_length(first),
    decreases first.len(),
{
    if first[0] != 10 {
        assert((first + second).drop_first() =~= first.drop_first() + second);
        lemma_line_length_of_prefix(first.drop_first(), second);
    }
}

/// The bytes that events are written as, one after the other.
pub open spec fn event_lines(events: Seq<EventView>) -> Seq<u8>
    decreases events.len(),
{
    if events.len() == 0 {
        Seq::empty()
    } else {
        event_line(events[0]) + event_lines(events.drop_first())
    }
}

/// The line that ends at the first newline is as long as what comes before that.
proof fn lemma_line_ends_at_newline(bytes: Seq<u8>, end: int)
    requires
        0 <= end < bytes.len(),
        bytes[end] == 10,
        forall|i: int| 0 <= i < end ==> bytes[i] != 10,
    ensures
        line_length(bytes) == end,
    decreases end,
{
    if end > 0 {
        lemma_line_ends_at_newline(bytes.drop_first(), end - 1);
    }
}

/// What is written is read back line by line: the lines of the bytes that events
/// are written as are the JSON objects of those events, in order, as long as none
/// is over the reader's ceiling.
pub proof fn law_written_events_are_read_back(events: Seq<EventView>, max_bytes: nat)
    requires
        forall|i: int|
            0 <= i < events.len() ==> event_line(#[trigger] events[i]).len() <= max_bytes + 1,
    ensures
        lines_of(event_lines(events), max_bytes) == Seq::new(
            events.len() + 1,
            |i: int|
                if i < events.len() {
                    LineView::Text(object_json(event_members(events[i])))
                } else {
                    LineView::Eof
                },
        ),
    decreases events.len(),
{
    let lines = lines_of(event_lines(events), max_bytes);
    let expected = Seq::new(
        events.len() + 1,
        |i: int|
            if i < events.len() {
                LineView::Text(object_json(event_members(events[i])))
            } else {
                LineView::Eof
            },
    );
    if events.len() == 0 {
        assert(lines =~= expected);
    } else {
        let first = event_line(events[0]);
        let later = events.drop_first();
        let stream = event_lines(events);
        let json = object_json(event_members(events[0]));
        let n = first.len() - 1;
        law_event_is_one_line(events[0]);
        lemma_line_ends_at_newline(stream, n);
        assert(stream.take(n) =~= encode_utf8(json));
        assert(stream.skip(n + 1) =~= event_lines(later));
        encode_utf8_valid_utf8(json);
        encode_utf8_decode_utf8(json);
        assert forall|i: int| 0 <= i < later.len() implies event_line(
            #[trigger] later[i],
        ).len() <= max_bytes + 1 by {
            assert(later[i] == events[i + 1]);
        }
        law_written_events_are_read_back(later, max_bytes);
        assert(lines =~= expected);
    }
}

/// No line that is delivered is over the ceiling: whatever the events, each is sent
/// as one line within it, and a reader with the protocol's ceiling reads each back,
/// none as oversize.
pub proof fn law_delivered_lines_are_within_the_ceiling(events: Seq<EventView>)
    ensures
        forall|i: int|
            0 <= i < events.len() ==> event_line(fitted(#[trigger] events[i])).len()
                <= MAX_LINE_BYTES + 1,
        lines_of(
            event_lines(events.map_values(|event: EventView| fitted(event))),
            MAX_LINE_BYTES as nat,
        ) == Seq::new(
            events.len() + 1,
            |i: int|
                if i < events.len() {
                    LineView::Text(object_json(event_members(fitted(events[i]))))
                } else {
                    LineView::Eof
                },
        ),
{
    let sent = events.map_values(|event: EventView| fitted(event));
    assert forall|i: int| 0 <= i < events.len() implies event_line(
        fitted(#[trigger] events[i]),
    ).len() <= MAX_LINE_BYTES + 1 by {
        law_short_errors_fit(events[i]);
    }
    assert forall|i: int| 0 <= i < sent.len() implies event_line(#[trigger] sent[i]).len()
        <= MAX_LINE_BYTES + 1 by {
        assert(sent[i] == fitted(events[i]));
    }
    law_written_events_are_read_back(sent, MAX_LINE_BYTES as nat);
    assert(lines_of(event_lines(sent), MAX_LINE_BYTES as nat) =~= Seq::new(
        events.len() + 1,
        |i: int|
            if i < events.len() {
                LineView::Text(object_json(event_members(fitted(events[i]))))
            } else {
                LineView::Eof
            },
    ));
}

/// The lines of whole lines and then more are those of the whole lines and then those
/// of the rest.
pub proof fn lemma_lines_joined(first: Seq<u8>, second: Seq<u8>, max_bytes: nat)
    requires
        first.len() > 0 ==> first.last() == 10,
    ensures
        lines_of(first, max_bytes).len() > 0,
        lines_of(first, max_bytes).last() is Eof,
        forall|i: int|
            0 <= i < lines_of(first, max_bytes).len() - 1 ==> !((#[trigger] lines_of(
                first,
                max_bytes,
            )[i]) is Eof),
        lines_of(first + second, max_bytes) == lines_of(first, max_bytes).drop_last() + lines_of(
            second,
            max_bytes,
        ),
    decreases first.len(),
{
    let lines = lines_of(first, max_bytes);
    if first.len() == 0 {
        assert(first + second =~= second);
        assert(lines.drop_last() + lines_of(second, max_bytes) =~= lines_of(second, max_bytes));
    } else {
        lemma_line_length_of_whole_lines(first);
        let n = line_length(first) as int;
        let rest = first.skip(n + 1);
        lemma_line_length_of_prefix(first, second);
        lemma_lines_joined(rest, second, max_bytes);
        assert((first + second).take(n) =~= first.take(n));
        assert((first + second).skip(n + 1) =~= rest + second);
        assert(lines =~= seq![line_of(first.take(n), max_bytes)] + lines_of(rest, max_bytes));
        assert(lines.drop_last() =~= seq![line_of(first.take(n), max_bytes)] + lines_of(
            rest,
            max_bytes,
        ).drop_last());
        assert(lines_of(first + second, max_bytes) =~= lines.drop_last() + lines_of(
            second,
            max_bytes,
        ));
        assert forall|i: int| 0 <= i < lines.len() - 1 implies !((#[trigger] lines[i]) is Eof) by {
            if i > 0 {
                assert(lines[i] == lines_of(rest, max_bytes)[i - 1]);
            }
        }
    }
}

proof fn lemma_line_length_of_whole_lines(bytes: Seq<u8>)
    requires
        bytes.len() > 0,
        bytes.last() == 10,
    ensures
        line_length(bytes) < bytes.len(),
    decreases bytes.len(),
{
    if bytes[0] != 10 {
        lemma_line_length_of_whole_lines(bytes.drop_first());
    }
}

/// A text on a line of its own is read as that text.
pub proof fn lemma_text_line(text: Seq<char>, rest: Seq<u8>, max_bytes: nat)
    requires
        !encode_utf8(text).contains(10u8),
        encode_utf8(text).len() <= max_bytes,
    ensures
        lines_of(encode_utf8(text).push(10u8) + rest, max_bytes) == seq![LineView::Text(text)]
            + lines_of(rest, max_bytes),
{
    let bytes = encode_utf8(text);
    let stream = bytes.push(10u8) + rest;
    assert forall|i: int| 0 <= i < bytes.len() implies stream[i] != 10 by {
        assert(bytes.contains(bytes[i]));
    }
    lemma_line_ends_at_newline(stream, bytes.len() as int);
    assert(stream.take(bytes.len() as int) =~= bytes);
    assert(stream.skip(bytes.len() as int + 1) =~= rest);
    encode_utf8_valid_utf8(text);
    encode_utf8_decode_utf8(text);
}

} // verus!
