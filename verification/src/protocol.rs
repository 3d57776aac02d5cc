//! Wire types of the sidecar protocol, and the bytes that an event becomes.
//!
//! Every frame is one compact JSON object on a line of its own. What the sidecar
//! sends carries `"event"`, what it is sent carries `"op"`.
use vstd::prelude::*;
use vstd::utf8::{encode_utf8, encode_utf8_decode_utf8};
use crate::json::{law_object_is_one_line, law_object_tells_members_apart, lemma_object_length, lemma_quoted_length, member_json, object_json, ObjectWriter, Value};
use crate::text::{lemma_no_line_feed_in_utf8, lemma_utf8_length};

verus! {

/// The single integer version carried in `hello`.
pub const PROTOCOL_VERSION: u32 = 1;

/// The engine name the daemon expects in `hello`.
pub const ENGINE: &'static str = "sherpa-onnx";

/// The daemon reassembles NDJSON lines up to this length; beyond it, a line is
/// a protocol error. Applies in both directions.
pub const MAX_LINE_BYTES: usize = 8 * 1024 * 1024;

/// The message of an error that is sent in place of an event whose line is over the
/// ceiling.
pub const TOO_LONG: &'static str = "event exceeds the 8 MiB protocol ceiling";

/// Maximum raw PCM bytes carried by one `audio` frame, before base64.
pub const MAX_AUDIO_FRAME_BYTES: usize = 65536;

/// The only sample rate accepted on the stream.
pub const STREAM_SAMPLE_RATE: u32 = 16000;

/// The only PCM format accepted on the stream.
pub const STREAM_FORMAT: &'static str = "s16le";

/// The only channel count accepted on the stream.
pub const STREAM_CHANNELS: u16 = 1;

/// Terminal error codes. The set is closed; the daemon rejects anything else.
#[derive(Debug, Clone, Copy, PartialEq, Eq, Structural)]
pub enum ErrorCode {
    /// The ASR model directory could not be loaded.
    ModelLoadFailed,
    /// The container could not be demuxed or decoded to PCM.
    DecodeFailed,
    /// A filesystem or pipe operation failed.
    IoError,
    /// The daemon sent something this sidecar cannot honour.
    BadRequest,
    /// An unexpected failure inside the sidecar.
    Internal,
}

impl ErrorCode {
    /// The code's name on the wire.
    pub open spec fn spec_name(self) -> Seq<char> {
        match self {
            ErrorCode::ModelLoadFailed => "model_load_failed"@,
            ErrorCode::DecodeFailed => "decode_failed"@,
            ErrorCode::IoError => "io_error"@,
            ErrorCode::BadRequest => "bad_request"@,
            ErrorCode::Internal => "internal"@,
        }
    }

    /// The code's name on the wire.
    pub fn name(&self) -> (name: &'static str)
        ensures
            name@ == self.spec_name(),
    {
        match self {
            ErrorCode::ModelLoadFailed => "model_load_failed",
            ErrorCode::DecodeFailed => "decode_failed",
            ErrorCode::IoError => "io_error",
            ErrorCode::BadRequest => "bad_request",
            ErrorCode::Internal => "internal",
        }
    }
}

/// Frames the sidecar sends. Written as one compact JSON object per line.
#[derive(Debug, Clone, PartialEq, Eq)]
pub enum Event {
    /// First line after spawn, before any model load.
    Hello {
        /// The wire version this build speaks.
        protocol_version: u32,
        /// The recognition backend, `"sherpa-onnx"`.
        engine: String,
        /// This sidecar's semver.
        stt_version: String,
    },
    /// Batch success.
    Result {
        /// Echoes the request id.
        id: String,
        /// The full transcript.
        text: String,
        /// Duration of the audio that was recognized.
        duration_ms: u64,
    },
    /// Stream mode accepted and the model is loaded.
    StreamStarted {
        /// Echoes the `stream_start` id.
        id: String,
    },
    /// One VAD-segmented recognition result, in order.
    Segment {
        /// Echoes the stream id.
        id: String,
        /// Transcript for this utterance.
        text: String,
        /// Utterance start, milliseconds from stream start.
        t0_ms: u64,
        /// Utterance end, milliseconds from stream start.
        t1_ms: u64,
    },
    /// Flush complete after `stream_end`.
    StreamDone {
        /// Echoes the stream id.
        id: String,
        /// How many `segment` events were emitted.
        segments: u64,
    },
    /// Terminal for that request or stream.
    Error {
        /// Echoes the failing request's id, empty when none could be read.
        id: String,
        /// The closed-set error code.
        code: ErrorCode,
        /// Human-readable detail; the daemon surfaces it to operators.
        message: String,
    },
}

/// What an [`Event`] says.
pub enum EventView {
    /// See [`Event::Hello`].
    Hello { protocol_version: u32, engine: Seq<char>, stt_version: Seq<char> },
    /// See [`Event::Result`].
    Result { id: Seq<char>, text: Seq<char>, duration_ms: u64 },
    /// See [`Event::StreamStarted`].
    StreamStarted { id: Seq<char> },
    /// See [`Event::Segment`].
    Segment { id: Seq<char>, text: Seq<char>, t0_ms: u64, t1_ms: u64 },
    /// See [`Event::StreamDone`].
    StreamDone { id: Seq<char>, segments: u64 },
    /// See [`Event::Error`].
    Error { id: Seq<char>, code: ErrorCode, message: Seq<char> },
}

impl View for Event {
    type V = EventView;

    open spec fn view(&self) -> EventView {
        match *self {
            Event::Hello { protocol_version, engine, stt_version } => EventView::Hello {
                protocol_version,
                engine: engine@,
                stt_version: stt_version@,
            },
            Event::Result { id, text, duration_ms } => EventView::Result {
                id: id@,
                text: text@,
                duration_ms,
            },
            Event::StreamStarted { id } => EventView::StreamStarted { id: id@ },
            Event::Segment { id, text, t0_ms, t1_ms } => EventView::Segment {
                id: id@,
                text: text@,
                t0_ms,
                t1_ms,
            },
            Event::StreamDone { id, segments } => EventView::StreamDone { id: id@, segments },
            Event::Error { id, code, message } => EventView::Error {
                id: id@,
                code,
                message: message@,
            },
        }
    }
}

/// The members of the JSON object that an event is written as.
pub open spec fn event_members(event: EventView) -> Seq<(Seq<char>, Value)> {
    match event {
        EventView::Hello { protocol_version, engine, stt_version } => seq![
            ("event"@, Value::Text("hello"@)),
            ("protocol_version"@, Value::Number(protocol_version as nat)),
            ("engine"@, Value::Text(engine)),
            ("stt_version"@, Value::Text(stt_version)),
        ],
        EventView::Result { id, text, duration_ms } => seq![
            ("event"@, Value::Text("result"@)),
            ("id"@, Value::Text(id)),
            ("text"@, Value::Text(text)),
            ("duration_ms"@, Value::Number(duration_ms as nat)),
        ],
        EventView::StreamStarted { id } => seq![
            ("event"@, Value::Text("stream_started"@)),
            ("id"@, Value::Text(id)),
        ],
        EventView::Segment { id, text, t0_ms, t1_ms } => seq![
            ("event"@, Value::Text("segment"@)),
            ("id"@, Value::Text(id)),
            ("text"@, Value::Text(text)),
            ("t0_ms"@, Value::Number(t0_ms as nat)),
            ("t1_ms"@, Value::Number(t1_ms as nat)),
        ],
        EventView::StreamDone { id, segments } => seq![
            ("event"@, Value::Text("stream_done"@)),
            ("id"@, Value::Text(id)),
            ("segments"@, Value::Number(segments as nat)),
        ],
        EventView::Error { id, code, message } => seq![
            ("event"@, Value::Text("error"@)),
            ("id"@, Value::Text(id)),
            ("code"@, Value::Text(code.spec_name())),
            ("message"@, Value::Text(message)),
        ],
    }
}

/// The id of the request or stream that an event belongs to. `hello` has none.
pub open spec fn event_id(event: EventView) -> Option<Seq<char>> {
    match event {
        EventView::Hello { .. } => None,
        EventView::Result { id, .. } => Some(id),
        EventView::StreamStarted { id } => Some(id),
        EventView::Segment { id, .. } => Some(id),
        EventView::StreamDone { id, .. } => Some(id),
        EventView::Error { id, .. } => Some(id),
    }
}

/// The line that an event is sent as: its JSON object in UTF-8, and a line feed.
pub open spec fn event_line(event: EventView) -> Seq<u8> {
    encode_utf8(object_json(event_members(event))).push(10u8)
}

/// An event whose line is within the ceiling.
pub open spec fn fits(event: EventView) -> bool {
    event_line(event).len() <= MAX_LINE_BYTES + 1
}

/// The error that is sent in place of an event whose line is over the ceiling. It
/// echoes the event's id, unless that alone is too long, and has its code if it is
/// an error itself.
pub open spec fn short_error(event: EventView) -> EventView {
    let code = match event {
        EventView::Error { code, .. } => code,
        _ => ErrorCode::Internal,
    };
    let id = match event_id(event) {
        Some(id) => id,
        None => Seq::empty(),
    };
    let echo = EventView::Error { id, code, message: TOO_LONG@ };
    if fits(echo) {
        echo
    } else {
        EventView::Error { id: Seq::empty(), code, message: TOO_LONG@ }
    }
}

/// What is sent for an event: the event itself if its line is within the ceiling,
/// and the error in its place if not.
pub open spec fn fitted(event: EventView) -> EventView {
    if fits(event) {
        event
    } else {
        short_error(event)
    }
}

impl Event {
    /// The `hello` line for this build.
    pub fn hello(stt_version: &str) -> (event: Self)
        ensures
            event@ == (EventView::Hello {
                protocol_version: PROTOCOL_VERSION,
                engine: ENGINE@,
                stt_version: stt_version@,
            }),
    {
        Event::Hello {
            protocol_version: PROTOCOL_VERSION,
            engine: ENGINE.to_owned(),
            stt_version: stt_version.to_owned(),
        }
    }

    /// A terminal error for `id`.
    pub fn error(id: &str, code: ErrorCode, message: String) -> (event: Self)
        ensures
            event@ == (EventView::Error { id: id@, code, message: message@ }),
    {
        Event::Error { id: id.to_owned(), code, message }
    }

    /// The event's JSON object.
    pub fn to_json(&self) -> (json: String)
        ensures
            json@ == object_json(event_members(self@)),
    {
        let mut object = ObjectWriter::new();
        match self {
            Event::Hello { protocol_version, engine, stt_version } => {
                object.text("event", "hello");
                object.number("protocol_version", *protocol_version as u64);
                object.text("engine", engine.as_str());
                object.text("stt_version", stt_version.as_str());
            },
            Event::Result { id, text, duration_ms } => {
                object.text("event", "result");
                object.text("id", id.as_str());
                object.text("text", text.as_str());
                object.number("duration_ms", *duration_ms);
            },
            Event::StreamStarted { id } => {
                object.text("event", "stream_started");
                object.text("id", id.as_str());
            },
            Event::Segment { id, text, t0_ms, t1_ms } => {
                object.text("event", "segment");
                object.text("id", id.as_str());
                object.text("text", text.as_str());
                object.number("t0_ms", *t0_ms);
                object.number("t1_ms", *t1_ms);
            },
            Event::StreamDone { id, segments } => {
                object.text("event", "stream_done");
                object.text("id", id.as_str());
                object.number("segments", *segments);
            },
            Event::Error { id, code, message } => {
                object.text("event", "error");
                object.text("id", id.as_str());
                object.text("code", code.name());
                object.text("message", message.as_str());
            },
        }
        assert(object@ =~= event_members(self@));
        object.finish()
    }
}

impl Event {
    /// The id of the request or stream that the event belongs to, empty if none.
    fn id(&self) -> (id: &str)
        ensures
            id@ == (match event_id(self@) {
                Some(id) => id,
                None => Seq::empty(),
            }),
    {
        match self {
            Event::Hello { .. } => {
                proof {
                    reveal_strlit("");
                    assert(""@ =~= Seq::<char>::empty());
                }
                ""
            },
            Event::Result { id, .. } => id.as_str(),
            Event::StreamStarted { id } => id.as_str(),
            Event::Segment { id, .. } => id.as_str(),
            Event::StreamDone { id, .. } => id.as_str(),
            Event::Error { id, .. } => id.as_str(),
        }
    }

    /// Whether the event's line is within the ceiling.
    pub fn fits(&self) -> (within: bool)
        ensures
            within == fits(self@),
    {
        self.to_json().as_str().as_bytes().len() <= MAX_LINE_BYTES
    }

    /// The error that is sent in place of the event where its line is over the
    /// ceiling.
    pub fn short_error(&self) -> (error: Event)
        ensures
            error@ == short_error(self@),
            fits(error@),
    {
        let code = match self {
            Event::Error { code, .. } => *code,
            _ => ErrorCode::Internal,
        };
        proof {
            reveal_strlit("");
            assert(""@ =~= Seq::<char>::empty());
            law_short_errors_fit(self@);
        }
        let echo = Event::error(self.id(), code, TOO_LONG.to_owned());
        if echo.fits() {
            echo
        } else {
            Event::error("", code, TOO_LONG.to_owned())
        }
    }

    /// The event itself if its line is within the ceiling, and the error in its
    /// place if not.
    pub fn fitted(self) -> (event: Event)
        ensures
            event@ == fitted(self@),
            fits(event@),
    {
        if self.fits() {
            self
        } else {
            self.short_error()
        }
    }
}

/// An error without an id fits where its message is short.
proof fn lemma_bare_error_fits(code: ErrorCode)
    ensures
        fits(EventView::Error { id: Seq::empty(), code, message: TOO_LONG@ }),
{
    let event = EventView::Error { id: Seq::empty(), code, message: TOO_LONG@ };
    let members = event_members(event);
    reveal_strlit("event");
    reveal_strlit("error");
    reveal_strlit("id");
    reveal_strlit("code");
    reveal_strlit("message");
    reveal_strlit("model_load_failed");
    reveal_strlit("decode_failed");
    reveal_strlit("io_error");
    reveal_strlit("bad_request");
    reveal_strlit("internal");
    reveal_strlit("event exceeds the 8 MiB protocol ceiling");
    assert("event"@.len() <= 50 && "error"@.len() <= 50 && "id"@.len() <= 50);
    assert("code"@.len() <= 50 && "message"@.len() <= 50 && TOO_LONG@.len() <= 50);
    assert("model_load_failed"@.len() <= 50 && "decode_failed"@.len() <= 50);
    assert("io_error"@.len() <= 50 && "bad_request"@.len() <= 50 && "internal"@.len() <= 50);
    assert forall|i: int| 0 <= i < members.len() implies member_json(#[trigger] members[i]).len()
        <= 1000 by {
        lemma_quoted_length(members[i].0);
        lemma_quoted_length(members[i].1->Text_0);
    }
    lemma_object_length(members, 1000);
    assert(members.len() == 4);
    assert(object_json(members).len() <= 4 * 1001 + 2);
    lemma_utf8_length(object_json(members));
}

/// The error that is sent in place of an event is within the ceiling itself.
pub proof fn law_short_errors_fit(event: EventView)
    ensures
        fits(short_error(event)),
        fits(fitted(event)),
{
    lemma_bare_error_fits(
        match event {
            EventView::Error { code, .. } => code,
            _ => ErrorCode::Internal,
        },
    );
}

/// Frames the daemon sends.
#[derive(Debug, Clone, PartialEq, Eq)]
pub enum Op {
    /// Decode the container at `path` and recognize it in one shot.
    Transcribe {
        /// Correlation id to echo.
        id: String,
        /// Absolute path to the audio container.
        path: String,
        /// Absolute path to the ASR model directory.
        model_dir: String,
    },
    /// Enter stream mode. Exactly one live stream per process.
    StreamStart {
        /// Correlation id to echo.
        id: String,
        /// Absolute path to the ASR model directory.
        model_dir: String,
        /// Always 16000.
        sample_rate: u32,
        /// Always `"s16le"`.
        format: String,
        /// Always 1.
        channels: u16,
    },
    /// Base64 s16le PCM for the live stream.
    Audio {
        /// The live stream's id.
        id: String,
        /// Base64-encoded s16le PCM.
        pcm: String,
    },
    /// No more audio: flush the pending VAD run.
    StreamEnd {
        /// The live stream's id.
        id: String,
    },
    /// Exit 0 promptly.
    Shutdown,
}

/// What an [`Op`] asks.
pub enum OpView {
    /// See [`Op::Transcribe`].
    Transcribe { id: Seq<char>, path: Seq<char>, model_dir: Seq<char> },
    /// See [`Op::StreamStart`].
    StreamStart {
        id: Seq<char>,
        model_dir: Seq<char>,
        sample_rate: u32,
        format: Seq<char>,
        channels: u16,
    },
    /// See [`Op::Audio`].
    Audio { id: Seq<char>, pcm: Seq<char> },
    /// See [`Op::StreamEnd`].
    StreamEnd { id: Seq<char> },
    /// See [`Op::Shutdown`].
    Shutdown,
}

impl View for Op {
    type V = OpView;

    open spec fn view(&self) -> OpView {
        match *self {
            Op::Transcribe { id, path, model_dir } => OpView::Transcribe {
                id: id@,
                path: path@,
                model_dir: model_dir@,
            },
            Op::StreamStart { id, model_dir, sample_rate, format, channels } => {
                OpView::StreamStart {
                    id: id@,
                    model_dir: model_dir@,
                    sample_rate,
                    format: format@,
                    channels,
                }
            },
            Op::Audio { id, pcm } => OpView::Audio { id: id@, pcm: pcm@ },
            Op::StreamEnd { id } => OpView::StreamEnd { id: id@ },
            Op::Shutdown => OpView::Shutdown,
        }
    }
}

/// Every event is exactly one line: its bytes end in a line feed, and hold no
/// other, whatever texts the event carries.
pub proof fn law_event_is_one_line(event: EventView)
    ensures
        event_line(event).len() > 0,
        event_line(event).last() == 10,
        forall|i: int| 0 <= i < event_line(event).len() - 1 ==> event_line(event)[i] != 10,
{
    let json = object_json(event_members(event));
    law_object_is_one_line(event_members(event));
    lemma_no_line_feed_in_utf8(json);
    let line = event_line(event);
    assert forall|i: int| 0 <= i < line.len() - 1 implies line[i] != 10 by {
        assert(encode_utf8(json).contains(encode_utf8(json)[i]));
    }
}

/// Different error codes have different names.
proof fn lemma_names_tell_codes_apart(first: ErrorCode, second: ErrorCode)
    requires
        first.spec_name() == second.spec_name(),
    ensures
        first == second,
{
    reveal_strlit("model_load_failed");
    reveal_strlit("decode_failed");
    reveal_strlit("io_error");
    reveal_strlit("bad_request");
    reveal_strlit("internal");
    assert("model_load_failed"@.len() == 17);
    assert("decode_failed"@.len() == 13);
    assert("bad_request"@.len() == 11);
    assert("io_error"@.len() == 8 && "internal"@.len() == 8);
    assert("io_error"@[1] != "internal"@[1]);
}

/// The name of an event's kind.
spec fn kind(event: EventView) -> Seq<char> {
    match event {
        EventView::Hello { .. } => "hello"@,
        EventView::Result { .. } => "result"@,
        EventView::StreamStarted { .. } => "stream_started"@,
        EventView::Segment { .. } => "segment"@,
        EventView::StreamDone { .. } => "stream_done"@,
        EventView::Error { .. } => "error"@,
    }
}

/// Different kinds of events have different names.
proof fn lemma_kinds_tell_events_apart(first: EventView, second: EventView)
    requires
        kind(first) == kind(second),
    ensures
        first is Hello == second is Hello,
        first is Result == second is Result,
        first is StreamStarted == second is StreamStarted,
        first is Segment == second is Segment,
        first is StreamDone == second is StreamDone,
        first is Error == second is Error,
{
    reveal_strlit("hello");
    reveal_strlit("result");
    reveal_strlit("stream_started");
    reveal_strlit("segment");
    reveal_strlit("stream_done");
    reveal_strlit("error");
    assert("result"@.len() == 6);
    assert("stream_started"@.len() == 14);
    assert("segment"@.len() == 7);
    assert("stream_done"@.len() == 11);
    assert("hello"@.len() == 5 && "error"@.len() == 5);
    assert("hello"@[0] != "error"@[0]);
}

/// The wire loses nothing: different events are different lines.
pub proof fn law_lines_tell_events_apart(first: EventView, second: EventView)
    requires
        event_line(first) == event_line(second),
    ensures
        first == second,
{
    let (a, b) = (event_members(first), event_members(second));
    assert(encode_utf8(object_json(a)) =~= event_line(first).drop_last());
    assert(encode_utf8(object_json(b)) =~= event_line(second).drop_last());
    encode_utf8_decode_utf8(object_json(a));
    encode_utf8_decode_utf8(object_json(b));
    law_object_tells_members_apart(a, b);
    assert(a[0] == ("event"@, Value::Text(kind(first))));
    assert(b[0] == ("event"@, Value::Text(kind(second))));
    lemma_kinds_tell_events_apart(first, second);
    assert(a[1] == b[1] && a.last() == b.last());
    match (first, second) {
        (EventView::Error { code: first_code, .. }, EventView::Error { code: second_code, .. }) => {
            assert(a[2] == b[2]);
            lemma_names_tell_codes_apart(first_code, second_code);
        },
        _ => {
            assert(a.len() > 2 ==> a[2] == b[2]);
            assert(a.len() > 3 ==> a[3] == b[3]);
        },
    }
}

/// The event that a line is, if it is one's.
pub open spec fn event_of(line: Seq<u8>) -> Option<EventView> {
    if exists|event: EventView| #[trigger] event_line(event) == line {
        Some(choose|event: EventView| #[trigger] event_line(event) == line)
    } else {
        None
    }
}

/// The line of an event is read as that event and no other.
pub proof fn law_an_event_is_read_back(event: EventView)
    ensures
        event_of(event_line(event)) == Some(event),
{
    let line = event_line(event);
    let read = choose|read: EventView| #[trigger] event_line(read) == line;
    law_lines_tell_events_apart(read, event);
}

} // verus!
