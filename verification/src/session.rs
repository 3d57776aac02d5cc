//! The dispatch state machine: one request in flight, one reply per request.
//!
//! A [`Session`] reads and writes nothing itself. Each of its operations answers
//! with a [`Flow`]: the one thing that its caller has to do next. Where that is to
//! send an event, to parse a line or to decode a file, the caller does so and
//! comes back with the outcome. Every obligation of the protocol lives here: hello
//! first, `bad_request` for anything unexpected, never silence, a terminal event
//! per request, and a stop on `shutdown` or at the end of the input.
use vstd::prelude::*;
use crate::asr::{Engine, EngineError, Recognizer};
use crate::decode::{DecodeError, Pcm};
use crate::json::{read_text_member, text_member};
use crate::ndjson::{Line, LineView};
use crate::payload::{base64_bytes, base64_failure, decode};
use crate::pcm::{from_le_bytes, samples_of, PcmError};
use crate::protocol::{fits, fitted, short_error, ErrorCode, Event, EventView, Op, OpView, ENGINE, MAX_AUDIO_FRAME_BYTES, PROTOCOL_VERSION, STREAM_CHANNELS, STREAM_FORMAT, STREAM_SAMPLE_RATE};
use crate::text::{decimal, push_decimal, same_text, trim, trimmed};
use crate::vad::{ms, Segmenter, Utterance, VadError};

verus! {

/// What the session's caller has to do next.
#[derive(Debug, Clone, PartialEq, Eq)]
pub enum Flow {
    /// Read the next line, and hand it to [`Session::handle`].
    Continue,
    /// Exit 0.
    Stop,
    /// Send this event, and call [`Session::resume`].
    Send(Event),
    /// Parse this line as an op, and call [`Session::handle_text`].
    Parse(String),
    /// Decode the file at this path, and call [`Session::decoded`].
    Decode(String),
}

/// What a [`Flow`] asks.
pub enum FlowView {
    /// See [`Flow::Continue`].
    Continue,
    /// See [`Flow::Stop`].
    Stop,
    /// See [`Flow::Send`].
    Send(EventView),
    /// See [`Flow::Parse`].
    Parse(Seq<char>),
    /// See [`Flow::Decode`].
    Decode(Seq<char>),
}

impl View for Flow {
    type V = FlowView;

    open spec fn view(&self) -> FlowView {
        match *self {
            Flow::Continue => FlowView::Continue,
            Flow::Stop => FlowView::Stop,
            Flow::Send(event) => FlowView::Send(event@),
            Flow::Parse(text) => FlowView::Parse(text@),
            Flow::Decode(path) => FlowView::Decode(path@),
        }
    }
}

/// The live stream, if one is open. Exactly one may exist at a time.
struct Stream<R, S> {
    id: String,
    recognizer: R,
    segmenter: S,
    emitted: u64,
}

/// What of a request is still to be done.
enum Work {
    /// Nothing: the next line may be read.
    Idle,
    /// A file is being decoded.
    Batch { id: String, model_dir: String },
    /// Utterances wait to be recognized, and with `ending` the stream's end after
    /// them.
    Segments { queue: Vec<Utterance>, ending: bool },
}

/// One sidecar's protocol state.
pub struct Session<E: Engine> {
    engine: E,
    stream: Option<Stream<E::Recognizer, E::Segmenter>>,
    work: Work,
}

/// A live stream.
pub struct StreamView<R, S> {
    /// The id that `stream_start` gave it.
    pub id: Seq<char>,
    /// The model that was loaded for it.
    pub recognizer: R,
    /// The segmenter that was built for it.
    pub segmenter: S,
    /// How many segments were sent.
    pub emitted: u64,
}

/// What of a request is still to be done.
pub enum WorkView {
    /// Nothing: the next line may be read.
    Idle,
    /// The outcome of decoding a file is awaited.
    Batch { id: Seq<char>, model_dir: Seq<char> },
    /// Utterances wait to be recognized, and with `ending` the stream's end after
    /// them.
    Segments { queue: Seq<Utterance>, ending: bool },
}

/// The protocol state.
pub struct SessionView<E: Engine> {
    /// The backend.
    pub engine: E,
    /// The live stream.
    pub stream: Option<StreamView<E::Recognizer, E::Segmenter>>,
    /// What is still to be done.
    pub work: WorkView,
}

impl<E: Engine> View for Session<E> {
    type V = SessionView<E>;

    closed spec fn view(&self) -> SessionView<E> {
        SessionView {
            engine: self.engine,
            stream: match self.stream {
                Some(stream) => Some(stream.state()),
                None => None,
            },
            work: match self.work {
                Work::Idle => WorkView::Idle,
                Work::Batch { id, model_dir } => WorkView::Batch {
                    id: id@,
                    model_dir: model_dir@,
                },
                Work::Segments { queue, ending } => WorkView::Segments { queue: queue@, ending },
            },
        }
    }
}

impl<R, S> Stream<R, S> {
    spec fn state(self) -> StreamView<R, S> {
        StreamView {
            id: self.id@,
            recognizer: self.recognizer,
            segmenter: self.segmenter,
            emitted: self.emitted,
        }
    }
}

/// What a session is handed.
pub enum Input {
    /// A line of its input.
    Line(LineView),
    /// A line's text, with the op that it is or the reason why it is none.
    Text(Seq<char>, Result<OpView, Seq<char>>),
    /// The samples of a file, or the reason why there are none.
    Decoded(Result<Seq<i16>, DecodeError>),
    /// Word that the last event was sent.
    Sent,
}

/// An error event for an engine's failure.
pub open spec fn engine_failure(id: Seq<char>, error: EngineError) -> EventView {
    EventView::Error { id, code: error.spec_code(), message: error.spec_message() }
}

/// The reply to a batch request, given what the recognizer heard.
pub open spec fn batch_event(
    id: Seq<char>,
    duration_ms: u64,
    heard: Result<String, EngineError>,
) -> EventView {
    match heard {
        Ok(text) => EventView::Result { id, text: text@, duration_ms },
        Err(error) => engine_failure(id, error),
    }
}

/// The recognizer hears a whole file, and its transcript is the reply.
pub open spec fn recognizes<R: Recognizer>(
    recognizer: R,
    id: Seq<char>,
    samples: Seq<i16>,
    flow: FlowView,
) -> bool {
    exists|after: R, heard: Result<String, EngineError>| #[trigger]
        recognizer.batch_outcome(samples, &after, heard) && flow == FlowView::Send(
            batch_event(id, ms(samples.len() as int) as u64, heard),
        )
}

/// The recognizer heard something, but no words.
pub open spec fn is_blank(heard: Result<String, EngineError>) -> bool {
    heard matches Ok(text) && trimmed(text@).len() == 0
}

/// The event that an utterance becomes, given what the recognizer heard: none if it
/// heard no words, and an error if it failed or the segment is too long for a line.
pub open spec fn segment_event(
    id: Seq<char>,
    utterance: Utterance,
    heard: Result<String, EngineError>,
) -> Option<EventView> {
    match heard {
        Ok(text) => if is_blank(heard) {
            None
        } else {
            Some(
                fitted(
                    EventView::Segment {
                        id,
                        text: text@,
                        t0_ms: utterance.t0_ms,
                        t1_ms: utterance.t1_ms,
                    },
                ),
            )
        },
        Err(error) => Some(engine_failure(id, error)),
    }
}

/// What a recognizer heard, and what became of it.
pub struct Heard<R> {
    /// The transcript, or why there is none.
    pub outcome: Result<String, EngineError>,
    /// The recognizer from then on.
    pub after: R,
}

/// The recognizer once it heard everything in `trace`.
pub open spec fn recognizer_after<R>(recognizer: R, trace: Seq<Heard<R>>) -> R {
    if trace.len() == 0 {
        recognizer
    } else {
        trace.last().after
    }
}

/// The recognizer may hear in the first utterances of the queue, in turn, what
/// `trace` says, and there are no words in any of them but the last.
pub open spec fn heard_in_turn<R: Recognizer>(
    recognizer: R,
    queue: Seq<Utterance>,
    trace: Seq<Heard<R>>,
) -> bool {
    &&& trace.len() <= queue.len()
    &&& forall|i: int|
        0 <= i < trace.len() ==> recognizer_after(recognizer, trace.take(i)).segment_outcome(
            queue[i].pcm@,
            &(#[trigger] trace[i]).after,
            trace[i].outcome,
        )
    &&& forall|i: int| 0 <= i < trace.len() - 1 ==> is_blank((#[trigger] trace[i]).outcome)
}

/// One more segment. The count starts again after `u64::MAX`.
pub open spec fn next_count(emitted: u64) -> u64 {
    if emitted == u64::MAX {
        0
    } else {
        (emitted + 1) as u64
    }
}

/// Why a stream of the wrong shape is refused.
pub open spec fn shape_refusal(sample_rate: u32, format: Seq<char>, channels: u16) -> Seq<char> {
    "stream must be "@ + decimal(STREAM_SAMPLE_RATE as nat) + " Hz "@ + STREAM_FORMAT@ + " x"@
        + decimal(STREAM_CHANNELS as nat) + ", got "@ + decimal(sample_rate as nat) + " Hz "@
        + format + " x"@ + decimal(channels as nat)
}

/// Why an audio frame of `len` bytes is refused as too long.
pub open spec fn frame_refusal(len: nat) -> Seq<char> {
    "audio frame is "@ + decimal(len) + " bytes, over the "@ + decimal(
        MAX_AUDIO_FRAME_BYTES as nat,
    ) + "-byte ceiling"@
}

/// The id that a reply to a line which is no op carries.
pub open spec fn hinted_id(text: Seq<char>) -> Seq<char> {
    match text_member(text, "id"@) {
        Some(id) => id,
        None => Seq::empty(),
    }
}

/// The stream that starts with a recognizer and a segmenter.
pub open spec fn fresh_stream<R, S>(id: Seq<char>, recognizer: R, segmenter: S) -> StreamView<
    R,
    S,
> {
    StreamView { id, recognizer, segmenter, emitted: 0 }
}

impl<E: Engine> SessionView<E> {
    /// Whether the stream with that id is live.
    pub open spec fn is_live(self, id: Seq<char>) -> bool {
        self.stream matches Some(stream) && stream.id == id
    }

    /// The stream's segmenter is in order, and work that waits is work of a request
    /// that is in flight.
    pub open spec fn wf(self) -> bool {
        &&& self.stream matches Some(stream) ==> stream.segmenter.wf()
        &&& self.work is Batch ==> self.stream is None
        &&& self.work is Segments ==> self.stream is Some
    }

    /// The session with nothing to do and this stream.
    pub open spec fn idle(
        self,
        stream: Option<StreamView<E::Recognizer, E::Segmenter>>,
    ) -> SessionView<E> {
        SessionView { engine: self.engine, stream, work: WorkView::Idle }
    }

    /// The request is refused, and nothing else happens.
    pub open spec fn refuses(
        self,
        id: Seq<char>,
        message: Seq<char>,
        flow: FlowView,
        after: SessionView<E>,
    ) -> bool {
        &&& flow == FlowView::Send(EventView::Error { id, code: ErrorCode::BadRequest, message })
        &&& after == self
    }

    /// A line is taken.
    pub open spec fn takes_line(
        self,
        line: LineView,
        flow: FlowView,
        after: SessionView<E>,
    ) -> bool {
        match line {
            LineView::Eof => flow == FlowView::Stop && after == self,
            LineView::Oversize => self.refuses(
                Seq::empty(),
                "line exceeds the 8 MiB protocol ceiling"@,
                flow,
                after,
            ),
            LineView::NotUtf8 => self.refuses(
                Seq::empty(),
                "line is not valid UTF-8"@,
                flow,
                after,
            ),
            LineView::Text(text) => flow == FlowView::Parse(text) && after == self,
        }
    }

    /// A line's text is taken.
    pub open spec fn takes_text(
        self,
        text: Seq<char>,
        parsed: Result<OpView, Seq<char>>,
        flow: FlowView,
        after: SessionView<E>,
    ) -> bool {
        match parsed {
            Err(reason) => self.refuses(
                hinted_id(text),
                "unhandled op: "@ + reason,
                flow,
                after,
            ),
            Ok(op) => self.takes_op(op, flow, after),
        }
    }

    /// An op is taken.
    pub open spec fn takes_op(self, op: OpView, flow: FlowView, after: SessionView<E>) -> bool {
        match op {
            OpView::Shutdown => flow == FlowView::Stop && after == self,
            OpView::Transcribe { id, path, model_dir } => self.takes_transcribe(
                id,
                path,
                model_dir,
                flow,
                after,
            ),
            OpView::StreamStart { id, model_dir, sample_rate, format, channels } => {
                self.takes_stream_start(id, model_dir, sample_rate, format, channels, flow, after)
            },
            OpView::Audio { id, pcm } => self.takes_audio(id, pcm, flow, after),
            OpView::StreamEnd { id } => self.takes_stream_end(id, flow, after),
        }
    }

    /// A batch request is taken.
    pub open spec fn takes_transcribe(
        self,
        id: Seq<char>,
        path: Seq<char>,
        model_dir: Seq<char>,
        flow: FlowView,
        after: SessionView<E>,
    ) -> bool {
        if self.stream is Some {
            self.refuses(id, "a stream is already in flight"@, flow, after)
        } else {
            &&& flow == FlowView::Decode(path)
            &&& after == SessionView::<E> { work: WorkView::Batch { id, model_dir }, ..self }
        }
    }

    /// The samples of a file are recognized with the model of a batch request.
    pub open spec fn transcribes(
        self,
        id: Seq<char>,
        model_dir: Seq<char>,
        samples: Seq<i16>,
        flow: FlowView,
    ) -> bool {
        exists|loaded: Result<E::Recognizer, EngineError>| #[trigger]
            self.engine.load_outcome(model_dir, loaded) && match loaded {
                Err(error) => flow == FlowView::Send(engine_failure(id, error)),
                Ok(recognizer) => recognizes(recognizer, id, samples, flow),
            }
    }

    /// The outcome of decoding a file is taken.
    pub open spec fn takes_decoded(
        self,
        pcm: Result<Seq<i16>, DecodeError>,
        flow: FlowView,
        after: SessionView<E>,
    ) -> bool {
        &&& self.work matches WorkView::Batch { id, model_dir }
        &&& after == self.idle(self.stream)
        &&& match pcm {
            Err(error) => flow == FlowView::Send(
                EventView::Error { id, code: error.spec_code(), message: error.spec_message() },
            ),
            Ok(samples) => self.transcribes(id, model_dir, samples, flow),
        }
    }

    /// The stream starts, or it does not, given whether the model loads.
    pub open spec fn started(
        self,
        id: Seq<char>,
        segmenter: E::Segmenter,
        loaded: Result<E::Recognizer, EngineError>,
    ) -> (FlowView, SessionView<E>) {
        match loaded {
            Err(error) => (FlowView::Send(engine_failure(id, error)), self),
            Ok(recognizer) => {
                let event = EventView::StreamStarted { id };
                if fits(event) {
                    (
                        FlowView::Send(event),
                        SessionView {
                            stream: Some(fresh_stream(id, recognizer, segmenter)),
                            ..self
                        },
                    )
                } else {
                    (FlowView::Send(short_error(event)), self)
                }
            },
        }
    }

    /// The start of a stream is taken.
    pub open spec fn takes_stream_start(
        self,
        id: Seq<char>,
        model_dir: Seq<char>,
        sample_rate: u32,
        format: Seq<char>,
        channels: u16,
        flow: FlowView,
        after: SessionView<E>,
    ) -> bool {
        if self.stream is Some {
            self.refuses(id, "a stream is already in flight"@, flow, after)
        } else if sample_rate != STREAM_SAMPLE_RATE || format != STREAM_FORMAT@ || channels
            != STREAM_CHANNELS {
            self.refuses(id, shape_refusal(sample_rate, format, channels), flow, after)
        } else {
            exists|built: Result<E::Segmenter, EngineError>| #[trigger]
                self.engine.segmenter_outcome(built) && match built {
                    Err(error) => flow == FlowView::Send(engine_failure(id, error)) && after
                        == self,
                    Ok(segmenter) => segmenter.wf() && exists|
                        loaded: Result<E::Recognizer, EngineError>,
                    | #[trigger]
                        self.engine.load_outcome(model_dir, loaded) && (flow, after)
                            == self.started(id, segmenter, loaded),
                }
        }
    }

    /// Audio is taken.
    pub open spec fn takes_audio(
        self,
        id: Seq<char>,
        payload: Seq<char>,
        flow: FlowView,
        after: SessionView<E>,
    ) -> bool {
        if !self.is_live(id) {
            self.refuses(id, "no live stream with that id"@, flow, after)
        } else {
            match base64_bytes(payload) {
                None => self.refuses(
                    id,
                    "pcm is not valid base64: "@ + base64_failure(payload).spec_message(),
                    flow,
                    after,
                ),
                Some(bytes) => if bytes.len() > MAX_AUDIO_FRAME_BYTES {
                    self.refuses(id, frame_refusal(bytes.len()), flow, after)
                } else if bytes.len() % 2 != 0 {
                    self.refuses(
                        id,
                        PcmError::OddLength(bytes.len() as usize).spec_message(),
                        flow,
                        after,
                    )
                } else {
                    self.feeds(samples_of(bytes), flow, after)
                },
            }
        }
    }

    /// Samples go to the live stream's segmenter.
    pub open spec fn feeds(
        self,
        samples: Seq<i16>,
        flow: FlowView,
        after: SessionView<E>,
    ) -> bool {
        &&& self.stream matches Some(stream)
        &&& exists|segmenter: E::Segmenter, found: Result<Vec<Utterance>, VadError>| #[trigger]
            stream.segmenter.push_outcome(samples, &segmenter, found) && segmenter.wf()
                && self.finds(segmenter, found, false, flow, after)
    }

    /// The end of a stream is taken.
    pub open spec fn takes_stream_end(
        self,
        id: Seq<char>,
        flow: FlowView,
        after: SessionView<E>,
    ) -> bool {
        if !self.is_live(id) {
            self.refuses(id, "no live stream with that id"@, flow, after)
        } else {
            &&& self.stream matches Some(stream)
            &&& exists|segmenter: E::Segmenter, found: Result<Vec<Utterance>, VadError>| #[trigger]
                stream.segmenter.flush_outcome(&segmenter, found) && segmenter.wf() && self.finds(
                    segmenter,
                    found,
                    true,
                    flow,
                    after,
                )
        }
    }

    /// The live stream's segmenter has answered, and is `segmenter` from now on.
    pub open spec fn finds(
        self,
        segmenter: E::Segmenter,
        found: Result<Vec<Utterance>, VadError>,
        ending: bool,
        flow: FlowView,
        after: SessionView<E>,
    ) -> bool {
        &&& self.stream matches Some(stream)
        &&& match found {
            Err(error) => {
                &&& flow == FlowView::Send(
                    EventView::Error {
                        id: stream.id,
                        code: ErrorCode::Internal,
                        message: error.spec_message(),
                    },
                )
                &&& after == self.idle(None)
            },
            Ok(utterances) => self.idle(Some(StreamView { segmenter, ..stream })).emits(
                utterances@,
                ending,
                flow,
                after,
            ),
        }
    }

    /// The utterances of a queue are recognized, until there is something to send.
    pub open spec fn emits(
        self,
        queue: Seq<Utterance>,
        ending: bool,
        flow: FlowView,
        after: SessionView<E>,
    ) -> bool {
        &&& self.stream matches Some(stream)
        &&& exists|trace: Seq<Heard<E::Recognizer>>| #[trigger]
            heard_in_turn(stream.recognizer, queue, trace) && self.emitted(
                queue,
                ending,
                trace,
                flow,
                after,
            )
    }

    /// What follows once the recognizer heard what `trace` says.
    pub open spec fn emitted(
        self,
        queue: Seq<Utterance>,
        ending: bool,
        trace: Seq<Heard<E::Recognizer>>,
        flow: FlowView,
        after: SessionView<E>,
    ) -> bool {
        let stream = self.stream->0;
        let left = StreamView { recognizer: recognizer_after(stream.recognizer, trace), ..stream };
        if trace.len() > 0 && !is_blank(trace.last().outcome) {
            let event = segment_event(stream.id, queue[trace.len() - 1], trace.last().outcome);
            &&& flow == FlowView::Send(event->0)
            &&& if event->0 is Error {
                after == self.idle(None)
            } else {
                after == SessionView::<E> {
                    engine: self.engine,
                    stream: Some(StreamView { emitted: next_count(stream.emitted), ..left }),
                    work: WorkView::Segments { queue: queue.skip(trace.len() as int), ending },
                }
            }
        } else {
            &&& trace.len() == queue.len()
            &&& if ending {
                &&& flow == FlowView::Send(
                    EventView::StreamDone { id: stream.id, segments: stream.emitted },
                )
                &&& after == self.idle(None)
            } else {
                &&& flow == FlowView::Continue
                &&& after == self.idle(Some(left))
            }
        }
    }

    /// Word that the last event was sent is taken.
    pub open spec fn takes_sent(self, flow: FlowView, after: SessionView<E>) -> bool {
        match self.work {
            WorkView::Idle => flow == FlowView::Continue && after == self,
            WorkView::Batch { .. } => false,
            WorkView::Segments { queue, ending } => self.idle(self.stream).emits(
                queue,
                ending,
                flow,
                after,
            ),
        }
    }

    /// The session may take what it is handed.
    pub open spec fn expects(self, input: Input) -> bool {
        match input {
            Input::Line(_) => self.work is Idle,
            Input::Text(_, _) => self.work is Idle,
            Input::Decoded(_) => self.work is Batch,
            Input::Sent => !(self.work is Batch),
        }
    }

    /// Handed `input`, the session may answer `flow` and go on as `after`.
    pub open spec fn steps(self, input: Input, flow: FlowView, after: SessionView<E>) -> bool {
        match input {
            Input::Line(line) => self.takes_line(line, flow, after),
            Input::Text(text, parsed) => self.takes_text(text, parsed, flow, after),
            Input::Decoded(pcm) => self.takes_decoded(pcm, flow, after),
            Input::Sent => self.takes_sent(flow, after),
        }
    }
}

/// What a session waits for.
#[derive(Debug, Clone, Copy, PartialEq, Eq)]
pub enum Phase {
    /// The next line.
    Line,
    /// The outcome of decoding a file.
    Decode,
    /// Word that an event was sent.
    Sent,
}

/// The reply to a batch request, given what the recognizer heard.
pub fn batch_reply(id: &str, duration_ms: u64, heard: Result<String, EngineError>) -> (event:
    Event)
    ensures
        event@ == batch_event(id@, duration_ms, heard),
{
    match heard {
        Ok(text) => Event::Result { id: id.to_owned(), text, duration_ms },
        Err(error) => Event::error(id, error.code(), error.message()),
    }
}

/// The event that an utterance becomes, given what the recognizer heard: none if
/// it heard no words, and an error if it failed or the segment is too long for a
/// line.
pub fn segment_reply(id: &str, utterance: &Utterance, heard: Result<String, EngineError>) -> (event:
    Option<Event>)
    ensures
        match event {
            Some(event) => segment_event(id@, *utterance, heard) == Some(event@),
            None => segment_event(id@, *utterance, heard) is None,
        },
{
    match heard {
        Ok(text) => {
            if trim(text.as_str()).is_empty() {
                return None;
            }
            let segment = Event::Segment {
                id: id.to_owned(),
                text,
                t0_ms: utterance.t0_ms,
                t1_ms: utterance.t1_ms,
            };
            Some(segment.fitted())
        },
        Err(error) => Some(Event::error(id, error.code(), error.message())),
    }
}

/// Best-effort correlation id for a line that did not parse as an [`Op`].
pub fn id_hint(text: &str) -> (id: String)
    ensures
        id@ == hinted_id(text@),
{
    match read_text_member(text, "id") {
        Some(id) => id,
        None => String::new(),
    }
}

/// The event that refuses a request.
fn refusal(id: &str, message: String) -> (flow: Flow)
    ensures
        flow@ == FlowView::Send(
            EventView::Error { id: id@, code: ErrorCode::BadRequest, message: message@ },
        ),
{
    Flow::Send(Event::error(id, ErrorCode::BadRequest, message))
}

impl<E: Engine> Session<E> {
    /// A session backed by `engine`. Nothing is loaded yet.
    pub fn new(engine: E) -> (session: Self)
        ensures
            session@ == (SessionView::<E> { engine, stream: None, work: WorkView::Idle }),
            session@.wf(),
    {
        Session { engine, stream: None, work: Work::Idle }
    }

    /// The `hello` event. Must be the first line and must precede any model load.
    pub fn announce(&self, stt_version: &str) -> (flow: Flow)
        ensures
            flow@ == FlowView::Send(
                EventView::Hello {
                    protocol_version: PROTOCOL_VERSION,
                    engine: ENGINE@,
                    stt_version: stt_version@,
                },
            ),
    {
        Flow::Send(Event::hello(stt_version))
    }

    /// What the session waits for.
    pub fn phase(&self) -> (phase: Phase)
        ensures
            phase == (match self@.work {
                WorkView::Idle => Phase::Line,
                WorkView::Batch { .. } => Phase::Decode,
                WorkView::Segments { .. } => Phase::Sent,
            }),
    {
        match &self.work {
            Work::Idle => Phase::Line,
            Work::Batch { .. } => Phase::Decode,
            Work::Segments { .. } => Phase::Sent,
        }
    }

    /// Handle one framed line.
    pub fn handle(&mut self, line: Line) -> (flow: Flow)
        requires
            old(self)@.wf(),
            old(self)@.expects(Input::Line(line@)),
        ensures
            final(self)@.wf(),
            old(self)@.steps(Input::Line(line@), flow@, final(self)@),
    {
        proof {
            reveal_strlit("");
            assert(""@ =~= Seq::<char>::empty());
        }
        match line {
            Line::Eof => Flow::Stop,
            Line::Oversize => {
                refusal("", "line exceeds the 8 MiB protocol ceiling".to_owned())
            },
            Line::NotUtf8 => refusal("", "line is not valid UTF-8".to_owned()),
            Line::Text(text) => Flow::Parse(text),
        }
    }

    /// Handle the text of a line, given the op that it is or the reason why it is
    /// none.
    pub fn handle_text(&mut self, text: &str, parsed: Result<Op, String>) -> (flow: Flow)
        requires
            old(self)@.wf(),
            old(self)@.work is Idle,
        ensures
            final(self)@.wf(),
            old(self)@.steps(
                Input::Text(
                    text@,
                    match parsed {
                        Ok(op) => Ok(op@),
                        Err(reason) => Err(reason@),
                    },
                ),
                flow@,
                final(self)@,
            ),
    {
        match parsed {
            Err(reason) => {
                let id = id_hint(text);
                let mut message = "unhandled op: ".to_owned();
                message.append(reason.as_str());
                refusal(id.as_str(), message)
            },
            Ok(Op::Shutdown) => Flow::Stop,
            Ok(Op::Transcribe { id, path, model_dir }) => self.on_transcribe(id, path, model_dir),
            Ok(Op::StreamStart { id, model_dir, sample_rate, format, channels }) => {
                self.on_stream_start(
                    id.as_str(),
                    model_dir.as_str(),
                    sample_rate,
                    format.as_str(),
                    channels,
                )
            },
            Ok(Op::Audio { id, pcm }) => self.on_audio(id.as_str(), pcm.as_str()),
            Ok(Op::StreamEnd { id }) => self.on_stream_end(id.as_str()),
        }
    }

    fn on_transcribe(&mut self, id: String, path: String, model_dir: String) -> (flow: Flow)
        requires
            old(self)@.wf(),
            old(self)@.work is Idle,
        ensures
            final(self)@.wf(),
            old(self)@.takes_transcribe(id@, path@, model_dir@, flow@, final(self)@),
    {
        if self.stream.is_some() {
            return refusal(id.as_str(), "a stream is already in flight".to_owned());
        }
        self.work = Work::Batch { id, model_dir };
        Flow::Decode(path)
    }

    /// Take up the batch request whose file was decoded: load the model, and
    /// recognize.
    pub fn decoded(&mut self, pcm: Result<Pcm, DecodeError>) -> (flow: Flow)
        requires
            old(self)@.wf(),
            old(self)@.work is Batch,
        ensures
            final(self)@.wf(),
            old(self)@.steps(
                Input::Decoded(
                    match pcm {
                        Ok(pcm) => Ok(pcm@),
                        Err(error) => Err(error),
                    },
                ),
                flow@,
                final(self)@,
            ),
    {
        let (id, model_dir) = match &self.work {
            Work::Batch { id, model_dir } => (id.clone(), model_dir.clone()),
            _ => (String::new(), String::new()),
        };
        self.work = Work::Idle;
        let pcm = match pcm {
            Ok(pcm) => pcm,
            Err(error) => {
                return Flow::Send(Event::error(id.as_str(), error.code(), error.message()));
            },
        };
        let loaded = self.engine.load(model_dir.as_str());
        let ghost answer = loaded;
        assert(old(self)@.engine.load_outcome(model_dir@, answer));
        match loaded {
            Ok(recognizer) => {
                let mut recognizer = recognizer;
                let duration_ms: u64 = pcm.duration_ms();
                let heard = recognizer.transcribe_batch(pcm.samples());
                assert(answer->Ok_0.batch_outcome(pcm@, &recognizer, heard));
                let flow = Flow::Send(batch_reply(id.as_str(), duration_ms, heard));
                assert(recognizes(answer->Ok_0, id@, pcm@, flow@));
                assert(old(self)@.transcribes(id@, model_dir@, pcm@, flow@));
                flow
            },
            Err(error) => Flow::Send(Event::error(id.as_str(), error.code(), error.message())),
        }
    }

    fn on_stream_start(
        &mut self,
        id: &str,
        model_dir: &str,
        sample_rate: u32,
        format: &str,
        channels: u16,
    ) -> (flow: Flow)
        requires
            old(self)@.wf(),
            old(self)@.work is Idle,
        ensures
            final(self)@.wf(),
            old(self)@.takes_stream_start(
                id@,
                model_dir@,
                sample_rate,
                format@,
                channels,
                flow@,
                final(self)@,
            ),
    {
        if self.stream.is_some() {
            return refusal(id, "a stream is already in flight".to_owned());
        }
        if sample_rate != STREAM_SAMPLE_RATE || !same_text(format, STREAM_FORMAT) || channels
            != STREAM_CHANNELS {
            let mut message = "stream must be ".to_owned();
            push_decimal(&mut message, STREAM_SAMPLE_RATE as u64);
            message.append(" Hz ");
            message.append(STREAM_FORMAT);
            message.append(" x");
            push_decimal(&mut message, STREAM_CHANNELS as u64);
            message.append(", got ");
            push_decimal(&mut message, sample_rate as u64);
            message.append(" Hz ");
            message.append(format);
            message.append(" x");
            push_decimal(&mut message, channels as u64);
            return refusal(id, message);
        }
        let built = self.engine.segmenter();
        assert(old(self)@.engine.segmenter_outcome(built));
        match built {
            Ok(segmenter) => {
                let loaded = self.engine.load(model_dir);
                let ghost answer = loaded;
                assert(old(self)@.engine.load_outcome(model_dir@, answer));
                let flow = self.start_stream(id, segmenter, loaded);
                assert((flow@, self@) == old(self)@.started(id@, segmenter, answer));
                flow
            },
            Err(error) => Flow::Send(Event::error(id, error.code(), error.message())),
        }
    }

    /// Start the stream, given its segmenter and whether the model loads.
    pub fn start_stream(
        &mut self,
        id: &str,
        segmenter: E::Segmenter,
        loaded: Result<E::Recognizer, EngineError>,
    ) -> (flow: Flow)
        requires
            old(self)@.wf(),
            old(self)@.work is Idle,
            old(self)@.stream is None,
            segmenter.wf(),
        ensures
            final(self)@.wf(),
            (flow@, final(self)@) == old(self)@.started(id@, segmenter, loaded),
    {
        match loaded {
            Ok(recognizer) => {
                let event = Event::StreamStarted { id: id.to_owned() };
                if !event.fits() {
                    return Flow::Send(event.short_error());
                }
                self.stream = Some(
                    Stream { id: id.to_owned(), recognizer, segmenter, emitted: 0 },
                );
                Flow::Send(event)
            },
            Err(error) => Flow::Send(Event::error(id, error.code(), error.message())),
        }
    }

    fn on_audio(&mut self, id: &str, payload: &str) -> (flow: Flow)
        requires
            old(self)@.wf(),
            old(self)@.work is Idle,
        ensures
            final(self)@.wf(),
            old(self)@.takes_audio(id@, payload@, flow@, final(self)@),
    {
        if !self.stream_matches(id) {
            return refusal(id, "no live stream with that id".to_owned());
        }
        let bytes = match decode(payload) {
            Ok(bytes) => bytes,
            Err(error) => {
                let mut message = "pcm is not valid base64: ".to_owned();
                message.append(error.message().as_str());
                return refusal(id, message);
            },
        };
        if bytes.len() > MAX_AUDIO_FRAME_BYTES {
            let mut message = "audio frame is ".to_owned();
            push_decimal(&mut message, bytes.len() as u64);
            message.append(" bytes, over the ");
            push_decimal(&mut message, MAX_AUDIO_FRAME_BYTES as u64);
            message.append("-byte ceiling");
            return refusal(id, message);
        }
        let samples = match from_le_bytes(bytes.as_slice()) {
            Ok(samples) => samples,
            Err(error) => {
                return refusal(id, error.message());
            },
        };
        match self.stream.take() {
            Some(stream) => {
                let mut stream = stream;
                let found = stream.segmenter.push(samples.as_slice());
                let ghost segmenter = stream.segmenter;
                assert(old(self)@.stream->0.segmenter.push_outcome(samples@, &segmenter, found));
                self.stream = Some(stream);
                self.on_found(found, false)
            },
            None => Flow::Continue,
        }
    }

    fn on_stream_end(&mut self, id: &str) -> (flow: Flow)
        requires
            old(self)@.wf(),
            old(self)@.work is Idle,
        ensures
            final(self)@.wf(),
            old(self)@.takes_stream_end(id@, flow@, final(self)@),
    {
        if !self.stream_matches(id) {
            return refusal(id, "no live stream with that id".to_owned());
        }
        match self.stream.take() {
            Some(stream) => {
                let mut stream = stream;
                let found = stream.segmenter.flush();
                let ghost segmenter = stream.segmenter;
                assert(old(self)@.stream->0.segmenter.flush_outcome(&segmenter, found));
                self.stream = Some(stream);
                self.on_found(found, true)
            },
            None => Flow::Continue,
        }
    }

    /// Go on with what the live stream's segmenter found, and with `ending` end the
    /// stream then.
    pub fn on_found(&mut self, found: Result<Vec<Utterance>, VadError>, ending: bool) -> (flow:
        Flow)
        requires
            old(self)@.wf(),
            old(self)@.work is Idle,
            old(self)@.stream is Some,
        ensures
            final(self)@.wf(),
            old(self)@.finds(
                old(self)@.stream->0.segmenter,
                found,
                ending,
                flow@,
                final(self)@,
            ),
    {
        match found {
            Ok(utterances) => self.emit_segments(utterances, ending),
            Err(error) => self.fail_stream(ErrorCode::Internal, error.message()),
        }
    }

    /// Recognize the utterances in order, up to the first that produces text: a
    /// `segment` is to be sent for it, and the others wait. A recognition failure,
    /// or a segment too long for a line, is terminal for the stream.
    fn emit_segments(&mut self, utterances: Vec<Utterance>, ending: bool) -> (flow: Flow)
        requires
            old(self)@.wf(),
            old(self)@.work is Idle,
            old(self)@.stream is Some,
        ensures
            final(self)@.wf(),
            old(self)@.emits(utterances@, ending, flow@, final(self)@),
    {
        let mut stream = match self.stream.take() {
            Some(stream) => stream,
            None => {
                return Flow::Continue;
            },
        };
        let ghost first = stream.state();
        let mut queue = utterances;
        let ghost mut trace: Seq<Heard<E::Recognizer>> = Seq::empty();
        while queue.len() > 0
            invariant
                self.stream is None,
                self.work is Idle,
                self.engine == old(self)@.engine,
                old(self)@.work is Idle,
                old(self)@.stream == Some(first),
                stream.segmenter.wf(),
                stream.state() == (StreamView {
                    recognizer: recognizer_after(first.recognizer, trace),
                    ..first
                }),
                trace.len() <= utterances@.len(),
                queue@ == utterances@.skip(trace.len() as int),
                heard_in_turn(first.recognizer, utterances@, trace),
                forall|i: int| 0 <= i < trace.len() ==> is_blank((#[trigger] trace[i]).outcome),
            decreases queue@.len(),
        {
            let utterance = queue.remove(0);
            let ghost before = trace;
            let heard = stream.recognizer.transcribe_segment(utterance.pcm.as_slice());
            proof {
                trace = trace.push(Heard { outcome: heard, after: stream.recognizer });
                assert(trace.take(before.len() as int) =~= before);
                assert(heard_in_turn(first.recognizer, utterances@, trace)) by {
                    assert forall|i: int| 0 <= i < trace.len() implies recognizer_after(
                        first.recognizer,
                        trace.take(i),
                    ).segment_outcome(
                        utterances@[i].pcm@,
                        &(#[trigger] trace[i]).after,
                        trace[i].outcome,
                    ) by {
                        if i < before.len() {
                            assert(trace.take(i) =~= before.take(i));
                            assert(before[i] == trace[i]);
                        }
                    }
                }
                assert(queue@ =~= utterances@.skip(trace.len() as int));
            }
            match segment_reply(stream.id.as_str(), &utterance, heard) {
                None => {},
                Some(event) => {
                    let failed = match &event {
                        Event::Error { .. } => true,
                        _ => false,
                    };
                    if !failed {
                        stream.emitted = stream.emitted.wrapping_add(1);
                        self.stream = Some(stream);
                        self.work = Work::Segments { queue, ending };
                    }
                    let flow = Flow::Send(event);
                    assert(old(self)@.emitted(utterances@, ending, trace, flow@, self@));
                    return flow;
                },
            }
        }
        if ending {
            return Flow::Send(Event::StreamDone { id: stream.id, segments: stream.emitted });
        }
        self.stream = Some(stream);
        Flow::Continue
    }

    /// Terminate the live stream with an error event.
    fn fail_stream(&mut self, code: ErrorCode, message: String) -> (flow: Flow)
        requires
            old(self)@.wf(),
            old(self)@.work is Idle,
            old(self)@.stream is Some,
        ensures
            final(self)@ == old(self)@.idle(None),
            flow@ == FlowView::Send(
                EventView::Error { id: old(self)@.stream->0.id, code, message: message@ },
            ),
    {
        match self.stream.take() {
            Some(stream) => Flow::Send(Event::error(stream.id.as_str(), code, message)),
            None => Flow::Continue,
        }
    }

    fn stream_matches(&self, id: &str) -> (matches: bool)
        ensures
            matches == self@.is_live(id@),
    {
        match &self.stream {
            Some(stream) => same_text(stream.id.as_str(), id),
            None => false,
        }
    }

    /// Go on once the last event was sent.
    pub fn resume(&mut self) -> (flow: Flow)
        requires
            old(self)@.wf(),
            old(self)@.expects(Input::Sent),
        ensures
            final(self)@.wf(),
            old(self)@.steps(Input::Sent, flow@, final(self)@),
    {
        let mut work = Work::Idle;
        std::mem::swap(&mut work, &mut self.work);
        match work {
            Work::Segments { queue, ending } => self.emit_segments(queue, ending),
            _ => Flow::Continue,
        }
    }
}

/// Begin a run: a session, and what is to be done first, which is to announce it.
/// From there on each [`Flow`] says what follows, until `shutdown` or the end of
/// the input.
pub fn run<E: Engine>(engine: E, stt_version: &str) -> (begun: (Session<E>, Flow))
    ensures
        begun.0@ == (SessionView::<E> { engine, stream: None, work: WorkView::Idle }),
        begun.0@.wf(),
        begun.1@ == FlowView::Send(
            EventView::Hello {
                protocol_version: PROTOCOL_VERSION,
                engine: ENGINE@,
                stt_version: stt_version@,
            },
        ),
{
    let session = Session::new(engine);
    let flow = session.announce(stt_version);
    (session, flow)
}

} // verus!
