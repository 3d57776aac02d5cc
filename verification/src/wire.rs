//! What stands on the wire, spelled out: the bytes of each event, what is sent for
//! one that is too long, and the lines that bytes are read as.
use vstd::prelude::*;
use vstd::utf8::{decode_utf8, encode_utf8, valid_utf8};
use crate::json::{escape, escaped, members_json, object_json, quoted, Value};
use crate::ndjson::{line_length, lines_of, LineView};
use crate::protocol::{event_line, event_members, fitted, fits, ErrorCode, EventView};
use crate::text::{decimal, digit, joined, lemma_decimal_is_digits};

verus! {

/// The number that digits make, read from the left.
pub open spec fn number_in(digits: Seq<char>) -> nat
    decreases digits.len(),
{
    if digits.len() == 0 {
        0
    } else {
        10 * number_in(digits.drop_last()) + (digits.last() as nat - 48) as nat
    }
}

/// A number in decimal is digits that make that number, the first of them no zero
/// unless it is the only one.
pub proof fn law_decimal_makes_the_number(value: nat)
    ensures
        decimal(value).len() > 0,
        forall|i: int| 0 <= i < decimal(value).len() ==> '0' <= #[trigger] decimal(value)[i] <= '9',
        number_in(decimal(value)) == value,
        decimal(value)[0] == '0' ==> decimal(value).len() == 1,
    decreases value,
{
    let text = decimal(value);
    lemma_decimal_is_digits(value);
    assert(text.last() == digit(value % 10));
    assert(digit(value % 10) as nat == 48 + value % 10);
    if value >= 10 {
        let high = decimal(value / 10);
        law_decimal_makes_the_number(value / 10);
        assert(text.drop_last() =~= high);
        assert(text[0] == high[0]);
        if high[0] == '0' {
            assert(high.drop_last() =~= Seq::<char>::empty());
            assert(number_in(high.drop_last()) == 0);
            assert(high.last() == '0');
            assert(false);
        }
    } else {
        assert(text.drop_last() =~= Seq::<char>::empty());
        assert(number_in(text.drop_last()) == 0);
    }
}

/// Parts are joined part by part: what joins two lists stands between them.
pub proof fn law_joined_lists_are_joined(
    first: Seq<Seq<char>>,
    second: Seq<Seq<char>>,
    separator: Seq<char>,
)
    requires
        first.len() > 0,
        second.len() > 0,
    ensures
        joined(first + second, separator) == joined(first, separator) + separator + joined(
            second,
            separator,
        ),
        first.len() == 1 ==> joined(first, separator) == first[0],
    decreases second.len(),
{
    let all = first + second;
    assert(all.last() == second.last());
    assert(all.drop_last() =~= first + second.drop_last());
    if second.len() == 1 {
        assert(all.drop_last() =~= first);
    } else {
        law_joined_lists_are_joined(first, second.drop_last(), separator);
        assert(joined(all, separator) =~= joined(first, separator) + separator + joined(
            second,
            separator,
        ));
    }
}

/// A name between quotes.
pub open spec fn named(name: Seq<char>) -> Seq<char> {
    seq!['"'] + name + seq!['"', ':']
}

/// What stands between the first quote of an event and the value of its second member.
pub open spec fn opening(event: Seq<char>, second: Seq<char>) -> Seq<char> {
    seq!['{'] + named("event"@) + seq!['"'] + event + seq!['"', ','] + named(second)
}

/// An error code's name.
pub open spec fn code_name(code: ErrorCode) -> Seq<char> {
    match code {
        ErrorCode::ModelLoadFailed => "model_load_failed"@,
        ErrorCode::DecodeFailed => "decode_failed"@,
        ErrorCode::IoError => "io_error"@,
        ErrorCode::BadRequest => "bad_request"@,
        ErrorCode::Internal => "internal"@,
    }
}

/// The text of an event: one object with its members in order, numbers in decimal and
/// texts between quotes.
pub open spec fn event_text(event: EventView) -> Seq<char> {
    match event {
        EventView::Hello { protocol_version, engine, stt_version } => opening(
            "hello"@,
            "protocol_version"@,
        ) + decimal(protocol_version as nat) + seq![','] + named("engine"@) + quoted(engine)
            + seq![','] + named("stt_version"@) + quoted(stt_version) + seq!['}'],
        EventView::Result { id, text, duration_ms } => opening("result"@, "id"@) + quoted(id)
            + seq![','] + named("text"@) + quoted(text) + seq![','] + named("duration_ms"@)
            + decimal(duration_ms as nat) + seq!['}'],
        EventView::StreamStarted { id } => opening("stream_started"@, "id"@) + quoted(id) + seq![
            '}',
        ],
        EventView::Segment { id, text, t0_ms, t1_ms } => opening("segment"@, "id"@) + quoted(id)
            + seq![','] + named("text"@) + quoted(text) + seq![','] + named("t0_ms"@) + decimal(
            t0_ms as nat,
        ) + seq![','] + named("t1_ms"@) + decimal(t1_ms as nat) + seq!['}'],
        EventView::StreamDone { id, segments } => opening("stream_done"@, "id"@) + quoted(id)
            + seq![','] + named("segments"@) + decimal(segments as nat) + seq!['}'],
        EventView::Error { id, code, message } => opening("error"@, "id"@) + quoted(id) + seq![
            ',',
        ] + named("code"@) + (seq!['"'] + code_name(code) + seq!['"']) + seq![','] + named("message"@) + quoted(message) + seq!['}'],
    }
}

/// Characters that stand for themselves.
#[verifier::opaque]
spec fn is_plain(text: Seq<char>) -> bool {
    forall|i: int|
        0 <= i < text.len() ==> (#[trigger] text[i]) as u32 >= 0x20 && text[i] != '"' && text[i]
            != '\\'
}

proof fn lemma_plain(text: Seq<char>)
    requires
        is_plain(text),
    ensures
        escaped(text) == text,
        quoted(text) == seq!['"'] + text + seq!['"'],
    decreases text.len(),
{
    reveal(is_plain);
    if text.len() > 0 {
        let rest = text.drop_first();
        assert forall|i: int| 0 <= i < rest.len() implies (#[trigger] rest[i]) as u32 >= 0x20
            && rest[i] != '"' && rest[i] != '\\' by {
            assert(rest[i] == text[i + 1]);
        }
        lemma_plain(rest);
        assert(escape(text[0]) == seq![text[0]]);
        assert(escaped(text) =~= text);
    }
}

proof fn lemma_names_are_plain()
    ensures
        is_plain("event"@),
        is_plain("id"@),
        is_plain("text"@),
        is_plain("code"@),
        is_plain("message"@),
        is_plain("engine"@),
        is_plain("stt_version"@),
        is_plain("protocol_version"@),
        is_plain("duration_ms"@),
        is_plain("t0_ms"@),
        is_plain("t1_ms"@),
        is_plain("segments"@),
{
    reveal(is_plain);
    reveal_strlit("event");
    reveal_strlit("id");
    reveal_strlit("text");
    reveal_strlit("code");
    reveal_strlit("message");
    reveal_strlit("engine");
    reveal_strlit("stt_version");
    reveal_strlit("protocol_version");
    reveal_strlit("duration_ms");
    reveal_strlit("t0_ms");
    reveal_strlit("t1_ms");
    reveal_strlit("segments");
}

proof fn lemma_values_are_plain()
    ensures
        is_plain("hello"@),
        is_plain("result"@),
        is_plain("stream_started"@),
        is_plain("segment"@),
        is_plain("stream_done"@),
        is_plain("error"@),
        is_plain("model_load_failed"@),
        is_plain("decode_failed"@),
        is_plain("io_error"@),
        is_plain("bad_request"@),
        is_plain("internal"@),
{
    reveal(is_plain);
    reveal_strlit("hello");
    reveal_strlit("result");
    reveal_strlit("stream_started");
    reveal_strlit("segment");
    reveal_strlit("stream_done");
    reveal_strlit("error");
    reveal_strlit("model_load_failed");
    reveal_strlit("decode_failed");
    reveal_strlit("io_error");
    reveal_strlit("bad_request");
    reveal_strlit("internal");
}

/// One member more.
proof fn lemma_another_member(
    members: Seq<(Seq<char>, Value)>,
    name: Seq<char>,
    value: Value,
    start: Seq<char>,
)
    requires
        members.len() > 0,
        is_plain(name),
        seq!['{'] + members_json(members) == start,
    ensures
        seq!['{'] + members_json(members.push((name, value))) == start + seq![','] + named(name)
            + match value {
            Value::Text(text) => quoted(text),
            Value::Number(number) => decimal(number),
        },
{
    lemma_plain(name);
    let more = members.push((name, value));
    assert(more.drop_last() =~= members);
    let json = match value {
        Value::Text(text) => quoted(text),
        Value::Number(number) => decimal(number),
    };
    assert(seq!['{'] + members_json(more) =~= start + seq![','] + named(name) + json);
}

/// The first two members.
proof fn lemma_two_members(event: Seq<char>, name: Seq<char>, value: Value)
    requires
        is_plain(event),
        is_plain(name),
    ensures
        seq!['{'] + members_json(seq![("event"@, Value::Text(event)), (name, value)]) == opening(
            event,
            name,
        ) + match value {
            Value::Text(text) => quoted(text),
            Value::Number(number) => decimal(number),
        },
{
    lemma_names_are_plain();
    lemma_plain("event"@);
    lemma_plain(event);
    let one = seq![("event"@, Value::Text(event))];
    let two = seq![("event"@, Value::Text(event)), (name, value)];
    let start = seq!['{'] + named("event"@) + seq!['"'] + event + seq!['"'];
    assert(seq!['{'] + members_json(one) =~= start);
    lemma_another_member(one, name, value, start);
    assert(one.push((name, value)) =~= two);
    assert(start + seq![','] + named(name) =~= opening(event, name));
}

/// An event is written as exactly this text, in UTF-8, and a line feed.
pub proof fn law_what_an_event_is_written_as(event: EventView)
    ensures
        object_json(event_members(event)) == event_text(event),
        event_line(event) == encode_utf8(event_text(event)) + seq![10u8],
{
    lemma_names_are_plain();
    lemma_values_are_plain();
    let members = event_members(event);
    match event {
        EventView::Hello { protocol_version, engine, stt_version } => {
            let (a, b, c) = (
                Value::Number(protocol_version as nat),
                Value::Text(engine),
                Value::Text(stt_version),
            );
            lemma_two_members("hello"@, "protocol_version"@, a);
            let two = seq![("event"@, Value::Text("hello"@)), ("protocol_version"@, a)];
            lemma_another_member(two, "engine"@, b, seq!['{'] + members_json(two));
            let three = two.push(("engine"@, b));
            lemma_another_member(three, "stt_version"@, c, seq!['{'] + members_json(three));
            assert(members =~= three.push(("stt_version"@, c)));
        },
        EventView::Result { id, text, duration_ms } => {
            let (a, b, c) = (
                Value::Text(id),
                Value::Text(text),
                Value::Number(duration_ms as nat),
            );
            lemma_two_members("result"@, "id"@, a);
            let two = seq![("event"@, Value::Text("result"@)), ("id"@, a)];
            lemma_another_member(two, "text"@, b, seq!['{'] + members_json(two));
            let three = two.push(("text"@, b));
            lemma_another_member(three, "duration_ms"@, c, seq!['{'] + members_json(three));
            assert(members =~= three.push(("duration_ms"@, c)));
        },
        EventView::StreamStarted { id } => {
            lemma_two_members("stream_started"@, "id"@, Value::Text(id));
        },
        EventView::Segment { id, text, t0_ms, t1_ms } => {
            let (a, b, c, d) = (
                Value::Text(id),
                Value::Text(text),
                Value::Number(t0_ms as nat),
                Value::Number(t1_ms as nat),
            );
            lemma_two_members("segment"@, "id"@, a);
            let two = seq![("event"@, Value::Text("segment"@)), ("id"@, a)];
            lemma_another_member(two, "text"@, b, seq!['{'] + members_json(two));
            let three = two.push(("text"@, b));
            lemma_another_member(three, "t0_ms"@, c, seq!['{'] + members_json(three));
            let four = three.push(("t0_ms"@, c));
            lemma_another_member(four, "t1_ms"@, d, seq!['{'] + members_json(four));
            assert(members =~= four.push(("t1_ms"@, d)));
        },
        EventView::StreamDone { id, segments } => {
            let (a, b) = (Value::Text(id), Value::Number(segments as nat));
            lemma_two_members("stream_done"@, "id"@, a);
            let two = seq![("event"@, Value::Text("stream_done"@)), ("id"@, a)];
            lemma_another_member(two, "segments"@, b, seq!['{'] + members_json(two));
            assert(members =~= two.push(("segments"@, b)));
        },
        EventView::Error { id, code, message } => {
            let (a, b, c) = (
                Value::Text(id),
                Value::Text(code.spec_name()),
                Value::Text(message),
            );
            lemma_plain(code.spec_name());
            lemma_two_members("error"@, "id"@, a);
            let two = seq![("event"@, Value::Text("error"@)), ("id"@, a)];
            lemma_another_member(two, "code"@, b, seq!['{'] + members_json(two));
            let three = two.push(("code"@, b));
            lemma_another_member(three, "message"@, c, seq!['{'] + members_json(three));
            assert(members =~= three.push(("message"@, c)));
        },
    }
    assert(object_json(members) == event_text(event));
    lemma_pushed(encode_utf8(event_text(event)), 10u8);
}

proof fn lemma_pushed(bytes: Seq<u8>, byte: u8)
    ensures
        bytes.push(byte) == bytes + seq![byte],
{
    assert(bytes.push(byte) =~= bytes + seq![byte]);
}

/// Every event that is 8 MiB long or less is delivered as it is. In place of a longer
/// one goes an error under its id, or under none where its id makes the error itself
/// too long; with its code, where it is an error.
pub proof fn law_what_is_delivered(event: EventView)
    ensures
        ({
            let ceiling = 8 * 1024 * 1024;
            let (id, code) = match event {
                EventView::Hello { .. } => (Seq::<char>::empty(), ErrorCode::Internal),
                EventView::Result { id, .. } => (id, ErrorCode::Internal),
                EventView::StreamStarted { id } => (id, ErrorCode::Internal),
                EventView::Segment { id, .. } => (id, ErrorCode::Internal),
                EventView::StreamDone { id, .. } => (id, ErrorCode::Internal),
                EventView::Error { id, code, .. } => (id, code),
            };
            let message = "event exceeds the 8 MiB protocol ceiling"@;
            let echo = EventView::Error { id, code, message };
            if encode_utf8(event_text(event)).len() <= ceiling {
                fits(event) && fitted(event) == event
            } else if encode_utf8(event_text(echo)).len() <= ceiling {
                !fits(event) && fitted(event) == echo
            } else {
                !fits(event) && fitted(event) == (EventView::Error {
                    id: Seq::empty(),
                    code,
                    message,
                })
            }
        }),
{
    law_what_an_event_is_written_as(event);
    let (id, code) = match event {
        EventView::Hello { .. } => (Seq::<char>::empty(), ErrorCode::Internal),
        EventView::Result { id, .. } => (id, ErrorCode::Internal),
        EventView::StreamStarted { id } => (id, ErrorCode::Internal),
        EventView::Segment { id, .. } => (id, ErrorCode::Internal),
        EventView::StreamDone { id, .. } => (id, ErrorCode::Internal),
        EventView::Error { id, code, .. } => (id, code),
    };
    law_what_an_event_is_written_as(
        EventView::Error { id, code, message: "event exceeds the 8 MiB protocol ceiling"@ },
    );
}

/// A stream of bytes: the pieces, each ended by a line feed, and what follows the last.
pub open spec fn ended_by_line_feeds(pieces: Seq<Seq<u8>>, tail: Seq<u8>) -> Seq<u8>
    decreases pieces.len(),
{
    if pieces.len() == 0 {
        tail
    } else {
        pieces[0] + seq![10u8] + ended_by_line_feeds(pieces.drop_first(), tail)
    }
}

/// The line says what the bytes do: their text, or what is wrong with them.
pub open spec fn says(line: LineView, bytes: Seq<u8>, max_bytes: nat) -> bool {
    match line {
        LineView::Text(text) => bytes.len() <= max_bytes && valid_utf8(bytes) && text
            == decode_utf8(bytes),
        LineView::Oversize => bytes.len() > max_bytes,
        LineView::NotUtf8 => bytes.len() <= max_bytes && !valid_utf8(bytes),
        LineView::Eof => false,
    }
}

proof fn lemma_up_to_the_line_feed(piece: Seq<u8>, rest: Seq<u8>)
    requires
        !piece.contains(10),
    ensures
        line_length(piece + seq![10u8] + rest) == piece.len(),
        line_length(piece) == piece.len(),
    decreases piece.len(),
{
    let stream = piece + seq![10u8] + rest;
    if piece.len() > 0 {
        let shorter = piece.drop_first();
        assert(piece.contains(piece[0]));
        assert forall|i: int| 0 <= i < shorter.len() implies shorter[i] != 10 by {
            assert(piece.contains(piece[i + 1]));
        }
        assert(!shorter.contains(10));
        lemma_up_to_the_line_feed(shorter, rest);
        assert(stream.drop_first() =~= shorter + seq![10u8] + rest);
    }
}

/// The lines of a stream are the pieces between its line feeds, each one of them and
/// in order; what follows the last is a line too, unless there is nothing; and then
/// comes the end.
pub proof fn law_lines_are_what_line_feeds_end(
    pieces: Seq<Seq<u8>>,
    tail: Seq<u8>,
    max_bytes: nat,
)
    requires
        forall|i: int| 0 <= i < pieces.len() ==> !(#[trigger] pieces[i]).contains(10),
        !tail.contains(10),
    ensures
        ({
            let lines = lines_of(ended_by_line_feeds(pieces, tail), max_bytes);
            let n = pieces.len() as int;
            &&& forall|i: int| 0 <= i < n ==> says(#[trigger] lines[i], pieces[i], max_bytes)
            &&& if tail.len() == 0 {
                lines.len() == n + 1 && lines[n] == LineView::Eof
            } else {
                &&& lines.len() == n + 2
                &&& says(lines[n], tail, max_bytes)
                &&& lines[n + 1] == LineView::Eof
            }
        }),
    decreases pieces.len(),
{
    let stream = ended_by_line_feeds(pieces, tail);
    let lines = lines_of(stream, max_bytes);
    if pieces.len() == 0 {
        lemma_up_to_the_line_feed(tail, Seq::empty());
    } else {
        let piece = pieces[0];
        let later = pieces.drop_first();
        let rest = ended_by_line_feeds(later, tail);
        assert forall|i: int| 0 <= i < later.len() implies !(#[trigger] later[i]).contains(10) by {
            assert(!pieces[i + 1].contains(10));
        }
        law_lines_are_what_line_feeds_end(later, tail, max_bytes);
        lemma_up_to_the_line_feed(piece, rest);
        let n = piece.len() as int;
        assert(stream.take(n) =~= piece);
        assert(stream.skip(n + 1) =~= rest);
        let others = lines_of(rest, max_bytes);
        assert forall|i: int| 0 <= i < pieces.len() implies says(
            #[trigger] lines[i],
            pieces[i],
            max_bytes,
        ) by {
            if i > 0 {
                assert(lines[i] == others[i - 1]);
                assert(pieces[i] == later[i - 1]);
            }
        }
        assert(lines.len() == others.len() + 1);
        assert(lines[pieces.len() as int] == others[later.len() as int]);
        if tail.len() > 0 {
            assert(lines[pieces.len() as int + 1] == others[later.len() as int + 1]);
        }
    }
}

} // verus!
