//! What a session answers to everything that it may be handed, spelled out.
//!
//! Each law takes a step of any session and says what was sent and what the session
//! is from then on, in terms of what it was handed, of what it was before, and of
//! what its backend answered to exactly which arguments.
use vstd::prelude::*;
use vstd::utf8::encode_utf8;
use crate::asr::{Engine, EngineError, Recognizer};
use crate::decode::DecodeError;
use crate::json::{object_json, text_member};
use crate::ndjson::LineView;
use crate::payload::{base64_failure, base64_text, law_base64_reads_back, Base64Error};
use crate::pcm::samples_of;
use crate::protocol::{event_members, ErrorCode, EventView, OpView};
use crate::session::{heard_in_turn, is_blank, recognizer_after, segment_event, FlowView, Heard, Input, SessionView, StreamView, WorkView};
use crate::text::{decimal, is_white_space, trimmed, trimmed_end, trimmed_start};
use crate::vad::{Segmenter, Utterance, VadError};

verus! {

/// The request is answered by an error with that code and message, under its id.
pub open spec fn fails(
    flow: FlowView,
    id: Seq<char>,
    code: ErrorCode,
    message: Seq<char>,
) -> bool {
    flow == FlowView::Send(EventView::Error { id, code, message })
}

/// The request is answered by the backend's failure, under its id.
pub open spec fn tells(flow: FlowView, id: Seq<char>, error: EngineError) -> bool {
    match error {
        EngineError::ModelLoad { dir, detail } => fails(
            flow,
            id,
            ErrorCode::ModelLoadFailed,
            "cannot load model from "@ + dir@ + ": "@ + detail@,
        ),
        EngineError::Recognition(detail) => fails(
            flow,
            id,
            ErrorCode::Internal,
            "recognition failed: "@ + detail@,
        ),
        EngineError::Vad(VadError::Unavailable(detail)) => fails(
            flow,
            id,
            ErrorCode::ModelLoadFailed,
            "voice activity detector unavailable: "@ + detail@,
        ),
    }
}

/// The event's JSON is no longer than 8 MiB.
pub open spec fn is_sendable(event: EventView) -> bool {
    encode_utf8(object_json(event_members(event))).len() <= 8 * 1024 * 1024
}

/// The error in place of an event that is not sendable, under the id if that is.
pub open spec fn is_too_long(flow: FlowView, id: Seq<char>, code: ErrorCode) -> bool {
    let message = "event exceeds the 8 MiB protocol ceiling"@;
    if is_sendable(EventView::Error { id, code, message }) {
        fails(flow, id, code, message)
    } else {
        fails(flow, Seq::empty(), code, message)
    }
}

/// A character that Unicode counts as white space.
pub open spec fn is_blank_char(c: char) -> bool {
    let code = c as u32;
    ||| 9 <= code <= 13
    ||| code == 32
    ||| code == 133
    ||| code == 160
    ||| code == 5760
    ||| 8192 <= code <= 8202
    ||| 8232 <= code <= 8233
    ||| code == 8239
    ||| code == 8287
    ||| code == 12288
}

/// Nothing but white space.
pub open spec fn is_white(text: Seq<char>) -> bool {
    forall|i: int| 0 <= i < text.len() ==> is_blank_char(#[trigger] text[i])
}

/// A text is trimmed to nothing exactly where it is nothing but white space.
pub proof fn law_only_white_space_is_trimmed_away(text: Seq<char>)
    ensures
        trimmed(text).len() == 0 <==> is_white(text),
{
    lemma_trimmed_start(text);
    lemma_trimmed_end(trimmed_start(text));
}

/// Trimming takes white space from both ends, all of it, and nothing else.
pub proof fn law_trimming_takes_white_space_only(text: Seq<char>) -> (inner: (int, int))
    ensures
        0 <= inner.0 <= inner.1 <= text.len(),
        is_white(text.take(inner.0)),
        is_white(text.skip(inner.1)),
        trimmed(text) == text.subrange(inner.0, inner.1),
        inner.0 < inner.1 ==> !is_blank_char(text[inner.0]) && !is_blank_char(text[inner.1 - 1]),
{
    let from = lemma_start_taken(text);
    let rest = trimmed_start(text);
    let left = lemma_end_taken(rest);
    let to = from + left;
    assert forall|i: int| 0 <= i < text.skip(to).len() implies is_blank_char(
        #[trigger] text.skip(to)[i],
    ) by {
        assert(rest.skip(left)[i] == text[to + i]);
    }
    assert(rest.take(left) =~= text.subrange(from, to));
    if left > 0 {
        assert(rest[0] == text[from]);
        assert(rest[left - 1] == text[to - 1]);
    }
    (from, to)
}

proof fn lemma_white_space(c: char)
    ensures
        is_white_space(c) == is_blank_char(c),
{
}

proof fn lemma_start_taken(text: Seq<char>) -> (from: int)
    ensures
        0 <= from <= text.len(),
        trimmed_start(text) == text.skip(from),
        is_white(text.take(from)),
        from < text.len() ==> !is_blank_char(text[from]),
    decreases text.len(),
{
    if text.len() > 0 {
        lemma_white_space(text[0]);
    }
    if text.len() > 0 && is_white_space(text[0]) {
        let rest = text.drop_first();
        let from = lemma_start_taken(rest);
        assert(rest.skip(from) =~= text.skip(from + 1));
        if from < rest.len() {
            assert(rest[from] == text[from + 1]);
        }
        assert forall|i: int| 0 <= i < from + 1 implies is_blank_char(
            #[trigger] text.take(from + 1)[i],
        ) by {
            if i > 0 {
                assert(is_blank_char(rest.take(from)[i - 1]));
            }
        }
        from + 1
    } else {
        assert(text.skip(0) =~= text);
        0
    }
}

proof fn lemma_end_taken(text: Seq<char>) -> (to: int)
    ensures
        0 <= to <= text.len(),
        trimmed_end(text) == text.take(to),
        is_white(text.skip(to)),
        to > 0 ==> !is_blank_char(text[to - 1]),
        to > 0 ==> trimmed_end(text)[0] == text[0],
    decreases text.len(),
{
    if text.len() > 0 {
        lemma_white_space(text.last());
    }
    if text.len() > 0 && is_white_space(text.last()) {
        let rest = text.drop_last();
        let to = lemma_end_taken(rest);
        assert(rest.take(to) =~= text.take(to));
        if to > 0 {
            assert(rest[to - 1] == text[to - 1]);
        }
        assert forall|i: int| 0 <= i < text.len() - to implies is_blank_char(
            #[trigger] text.skip(to)[i],
        ) by {
            if i < rest.len() - to {
                assert(is_blank_char(rest.skip(to)[i]));
            }
        }
        to
    } else {
        assert(text.take(text.len() as int) =~= text);
        text.len() as int
    }
}

proof fn lemma_trimmed_start(text: Seq<char>)
    ensures
        is_white(text) ==> trimmed_start(text).len() == 0,
        !is_white(text) ==> !is_white(trimmed_start(text)),
    decreases text.len(),
{
    if text.len() > 0 {
        lemma_white_space(text[0]);
    }
    if text.len() > 0 && is_white_space(text[0]) {
        let rest = text.drop_first();
        lemma_trimmed_start(rest);
        if is_white(rest) {
            assert forall|i: int| 0 <= i < text.len() implies is_blank_char(#[trigger] text[i]) by {
                if i > 0 {
                    assert(is_blank_char(rest[i - 1]));
                }
            }
        }
        if is_white(text) {
            assert forall|i: int| 0 <= i < rest.len() implies is_blank_char(#[trigger] rest[i]) by {
                assert(is_blank_char(text[i + 1]));
            }
        }
    }
}

proof fn lemma_trimmed_end(text: Seq<char>)
    ensures
        text.len() == 0 ==> trimmed_end(text).len() == 0,
        !is_white(text) ==> trimmed_end(text).len() > 0,
    decreases text.len(),
{
    if text.len() > 0 {
        lemma_white_space(text.last());
    }
    if text.len() > 0 && is_white_space(text.last()) {
        let rest = text.drop_last();
        lemma_trimmed_end(rest);
        if is_white(rest) {
            assert forall|i: int| 0 <= i < text.len() implies is_blank_char(#[trigger] text[i]) by {
                if i < rest.len() {
                    assert(is_blank_char(rest[i]));
                }
            }
        }
    }
}

/// A line is an op to be parsed, the end, or refused.
pub proof fn law_what_a_line_gets<E: Engine>(
    session: SessionView<E>,
    line: LineView,
    flow: FlowView,
    after: SessionView<E>,
)
    requires
        session.steps(Input::Line(line), flow, after),
    ensures
        after == session,
        match line {
            LineView::Eof => flow is Stop,
            LineView::Text(text) => flow == FlowView::Parse(text),
            LineView::Oversize => fails(
                flow,
                Seq::empty(),
                ErrorCode::BadRequest,
                "line exceeds the 8 MiB protocol ceiling"@,
            ),
            LineView::NotUtf8 => fails(
                flow,
                Seq::empty(),
                ErrorCode::BadRequest,
                "line is not valid UTF-8"@,
            ),
        },
{
}

/// A line that is no op is refused with the reason, under the id that can be read
/// from it.
pub proof fn law_what_no_op_gets<E: Engine>(
    session: SessionView<E>,
    text: Seq<char>,
    reason: Seq<char>,
    flow: FlowView,
    after: SessionView<E>,
)
    requires
        session.steps(Input::Text(text, Err(reason)), flow, after),
    ensures
        after == session,
        fails(
            flow,
            match text_member(text, "id"@) {
                Some(id) => id,
                None => Seq::empty(),
            },
            ErrorCode::BadRequest,
            "unhandled op: "@ + reason,
        ),
{
}

/// `shutdown` stops the session.
pub proof fn law_what_shutdown_gets<E: Engine>(
    session: SessionView<E>,
    text: Seq<char>,
    flow: FlowView,
    after: SessionView<E>,
)
    requires
        session.steps(Input::Text(text, Ok(OpView::Shutdown)), flow, after),
    ensures
        after == session,
        flow is Stop,
{
}

/// A batch request asks for its file, unless a stream is live.
pub proof fn law_what_transcribe_gets<E: Engine>(
    session: SessionView<E>,
    text: Seq<char>,
    id: Seq<char>,
    path: Seq<char>,
    model_dir: Seq<char>,
    flow: FlowView,
    after: SessionView<E>,
)
    requires
        session.steps(
            Input::Text(text, Ok(OpView::Transcribe { id, path, model_dir })),
            flow,
            after,
        ),
    ensures
        match session.stream {
            Some(_) => after == session && fails(
                flow,
                id,
                ErrorCode::BadRequest,
                "a stream is already in flight"@,
            ),
            None => {
                &&& flow == FlowView::Decode(path)
                &&& after.engine == session.engine
                &&& after.stream is None
                &&& after.work == WorkView::Batch { id, model_dir }
            },
        },
{
}

/// A file that cannot be decoded fails its request.
pub proof fn law_what_a_failed_decode_gets<E: Engine>(
    session: SessionView<E>,
    id: Seq<char>,
    model_dir: Seq<char>,
    error: DecodeError,
    flow: FlowView,
    after: SessionView<E>,
)
    requires
        session.work == (WorkView::Batch { id, model_dir }),
        session.steps(Input::Decoded(Err(error)), flow, after),
    ensures
        after == (SessionView::<E> { work: WorkView::Idle, ..session }),
        match error {
            DecodeError::Io { path, detail } => fails(
                flow,
                id,
                ErrorCode::IoError,
                "cannot read "@ + path@ + ": "@ + detail@,
            ),
            DecodeError::Unsupported { detail } => fails(
                flow,
                id,
                ErrorCode::DecodeFailed,
                "unsupported container: "@ + detail@,
            ),
            DecodeError::Failed { detail } => fails(
                flow,
                id,
                ErrorCode::DecodeFailed,
                "decode failed: "@ + detail@,
            ),
        },
{
}

/// A batch request is answered from the whole file: its model is loaded, the
/// recognizer is handed every sample that was decoded, and what it answers to those
/// is the reply, with the duration of those samples.
pub proof fn law_a_whole_file_is_recognized<E: Engine>(
    session: SessionView<E>,
    id: Seq<char>,
    model_dir: Seq<char>,
    samples: Seq<i16>,
    flow: FlowView,
    after: SessionView<E>,
)
    requires
        session.work == (WorkView::Batch { id, model_dir }),
        session.steps(Input::Decoded(Ok(samples)), flow, after),
    ensures
        after == (SessionView::<E> { work: WorkView::Idle, ..session }),
        exists|loaded: Result<E::Recognizer, EngineError>|
            #![trigger session.engine.load_outcome(model_dir, loaded)]
            session.engine.load_outcome(model_dir, loaded) && match loaded {
                Err(error) => tells(flow, id, error),
                Ok(recognizer) => is_answered_from(recognizer, id, samples, flow),
            },
{
    let loaded = choose|loaded: Result<E::Recognizer, EngineError>|
        #![trigger session.engine.load_outcome(model_dir, loaded)]
        session.engine.load_outcome(model_dir, loaded) && match loaded {
            Err(error) => flow == FlowView::Send(crate::session::engine_failure(id, error)),
            Ok(recognizer) => crate::session::recognizes(recognizer, id, samples, flow),
        };
    assert(session.transcribes(id, model_dir, samples, flow));
    assert(session.engine.load_outcome(model_dir, loaded));
    if let Ok(recognizer) = loaded {
        assert(crate::session::recognizes(recognizer, id, samples, flow));
        let (left, heard) = choose|left: E::Recognizer, heard: Result<String, EngineError>|
            #![trigger recognizer.batch_outcome(samples, &left, heard)]
            recognizer.batch_outcome(samples, &left, heard) && flow == FlowView::Send(
                crate::session::batch_event(
                    id,
                    crate::vad::ms(samples.len() as int) as u64,
                    heard,
                ),
            );
        assert(recognizer.batch_outcome(samples, &left, heard));
        assert(is_answered_from(recognizer, id, samples, flow));
    }
}

/// The reply is an answer of the recognizer to those samples.
pub open spec fn is_answered_from<R: Recognizer>(
    recognizer: R,
    id: Seq<char>,
    samples: Seq<i16>,
    flow: FlowView,
) -> bool {
    exists|left: R, heard: Result<String, EngineError>|
        #![trigger recognizer.batch_outcome(samples, &left, heard)]
        recognizer.batch_outcome(samples, &left, heard) && match heard {
            Ok(text) => {
                &&& flow matches FlowView::Send(EventView::Result { id: sent, text: said, duration_ms })
                &&& sent == id
                &&& said == text@
                &&& samples.len() <= u64::MAX ==> 16 * duration_ms <= samples.len() < 16
                    * duration_ms + 16
            },
            Err(error) => tells(flow, id, error),
        }
}

/// A stream starts exactly where none is live, its shape is 16 kHz s16le mono, its
/// segmenter can be built and its model loads; then it is live under its id, with
/// both, and no segment was sent yet.
pub proof fn law_what_stream_start_gets<E: Engine>(
    session: SessionView<E>,
    text: Seq<char>,
    id: Seq<char>,
    model_dir: Seq<char>,
    sample_rate: u32,
    format: Seq<char>,
    channels: u16,
    flow: FlowView,
    after: SessionView<E>,
)
    requires
        session.steps(
            Input::Text(
                text,
                Ok(OpView::StreamStart { id, model_dir, sample_rate, format, channels }),
            ),
            flow,
            after,
        ),
    ensures
        if session.stream is Some {
            after == session && fails(
                flow,
                id,
                ErrorCode::BadRequest,
                "a stream is already in flight"@,
            )
        } else if !(sample_rate == 16000 && format == "s16le"@ && channels == 1) {
            after == session && fails(
                flow,
                id,
                ErrorCode::BadRequest,
                "stream must be "@ + decimal(16000) + " Hz "@ + "s16le"@ + " x"@ + decimal(1)
                    + ", got "@ + decimal(sample_rate as nat) + " Hz "@ + format + " x"@ + decimal(
                    channels as nat,
                ),
            )
        } else {
            exists|built: Result<E::Segmenter, EngineError>|
                #![trigger session.engine.segmenter_outcome(built)]
                session.engine.segmenter_outcome(built) && match built {
                    Err(error) => after == session && tells(flow, id, error),
                    Ok(segmenter) => starts_with(
                        session,
                        id,
                        model_dir,
                        segmenter,
                        flow,
                        after,
                    ),
                }
        },
{
    if session.stream is None && sample_rate == 16000 && format == "s16le"@ && channels == 1 {
        let built = choose|built: Result<E::Segmenter, EngineError>|
            #![trigger session.engine.segmenter_outcome(built)]
            session.engine.segmenter_outcome(built) && match built {
                Err(error) => flow == FlowView::Send(crate::session::engine_failure(id, error))
                    && after == session,
                Ok(segmenter) => segmenter.wf() && exists|
                    loaded: Result<E::Recognizer, EngineError>,
                |
                    #![trigger session.engine.load_outcome(model_dir, loaded)]
                    session.engine.load_outcome(model_dir, loaded) && (flow, after)
                        == session.started(id, segmenter, loaded),
            };
        assert(session.engine.segmenter_outcome(built));
        if let Ok(segmenter) = built {
            let loaded = choose|loaded: Result<E::Recognizer, EngineError>|
                #![trigger session.engine.load_outcome(model_dir, loaded)]
                session.engine.load_outcome(model_dir, loaded) && (flow, after)
                    == session.started(id, segmenter, loaded);
            assert(session.engine.load_outcome(model_dir, loaded));
            assert(starts_with(session, id, model_dir, segmenter, flow, after));
        }
    }
}

/// The stream starts with that segmenter, if its model loads.
pub open spec fn starts_with<E: Engine>(
    session: SessionView<E>,
    id: Seq<char>,
    model_dir: Seq<char>,
    segmenter: E::Segmenter,
    flow: FlowView,
    after: SessionView<E>,
) -> bool {
    exists|loaded: Result<E::Recognizer, EngineError>|
        #![trigger session.engine.load_outcome(model_dir, loaded)]
        session.engine.load_outcome(model_dir, loaded) && match loaded {
            Err(error) => after == session && tells(flow, id, error),
            Ok(recognizer) => if is_sendable(EventView::StreamStarted { id }) {
                &&& flow == FlowView::Send(EventView::StreamStarted { id })
                &&& after.engine == session.engine
                &&& after.work == session.work
                &&& after.stream matches Some(stream)
                &&& stream.id == id
                &&& stream.recognizer == recognizer
                &&& stream.segmenter == segmenter
                &&& stream.emitted == 0
            } else {
                after == session && is_too_long(flow, id, ErrorCode::Internal)
            },
        }
}

/// The segmenter of the live stream answered `found` and is `segmenter` from now on:
/// its failure ends the stream, and its utterances are sent like any that wait.
pub open spec fn goes_on_with<E: Engine>(
    session: SessionView<E>,
    stream: StreamView<E::Recognizer, E::Segmenter>,
    segmenter: E::Segmenter,
    found: Result<Vec<Utterance>, VadError>,
    ending: bool,
    flow: FlowView,
    after: SessionView<E>,
) -> bool {
    match found {
        Err(VadError::Unavailable(detail)) => {
            &&& fails(
                flow,
                stream.id,
                ErrorCode::Internal,
                "voice activity detector unavailable: "@ + detail@,
            )
            &&& after.engine == session.engine
            &&& after.stream is None
            &&& after.work is Idle
        },
        Ok(utterances) => (SessionView::<E> {
            engine: session.engine,
            stream: Some(StreamView { segmenter, ..stream }),
            work: WorkView::Segments { queue: utterances@, ending },
        }).steps(Input::Sent, flow, after),
    }
}

/// Audio for a stream that is not live is refused.
pub proof fn law_what_stray_audio_gets<E: Engine>(
    session: SessionView<E>,
    text: Seq<char>,
    op: OpView,
    id: Seq<char>,
    flow: FlowView,
    after: SessionView<E>,
)
    requires
        session.steps(Input::Text(text, Ok(op)), flow, after),
        (op matches OpView::Audio { id: sent, .. } && sent == id) || op == (OpView::StreamEnd {
            id,
        }),
        session.stream matches Some(stream) ==> stream.id != id,
    ensures
        after == session,
        fails(flow, id, ErrorCode::BadRequest, "no live stream with that id"@),
{
}

/// Audio that is no base64 is refused.
pub proof fn law_what_garbled_audio_gets<E: Engine>(
    session: SessionView<E>,
    text: Seq<char>,
    id: Seq<char>,
    pcm: Seq<char>,
    flow: FlowView,
    after: SessionView<E>,
)
    requires
        session.steps(Input::Text(text, Ok(OpView::Audio { id, pcm })), flow, after),
        session.stream matches Some(stream) && stream.id == id,
        forall|bytes: Seq<u8>| #[trigger] base64_text(bytes) != pcm,
    ensures
        after == session,
        fails(
            flow,
            id,
            ErrorCode::BadRequest,
            "pcm is not valid base64: "@ + match base64_failure(pcm) {
                Base64Error::InvalidByte { offset, byte } => "Invalid symbol "@ + decimal(
                    byte as nat,
                ) + ", offset "@ + decimal(offset as nat) + "."@,
                Base64Error::InvalidLength { len } => "Invalid input length: "@ + decimal(
                    len as nat,
                ),
                Base64Error::InvalidLastSymbol { offset, byte } => "Invalid last symbol "@
                    + decimal(byte as nat) + ", offset "@ + decimal(offset as nat) + "."@,
                Base64Error::InvalidPadding => "Invalid padding"@,
            },
        ),
{
}

/// Audio whose bytes are too many, or no whole samples, is refused.
pub proof fn law_what_misshapen_audio_gets<E: Engine>(
    session: SessionView<E>,
    text: Seq<char>,
    id: Seq<char>,
    bytes: Seq<u8>,
    flow: FlowView,
    after: SessionView<E>,
)
    requires
        session.steps(
            Input::Text(text, Ok(OpView::Audio { id, pcm: base64_text(bytes) })),
            flow,
            after,
        ),
        session.stream matches Some(stream) && stream.id == id,
        bytes.len() <= usize::MAX,
        bytes.len() > 65536 || bytes.len() % 2 == 1,
    ensures
        after == session,
        fails(
            flow,
            id,
            ErrorCode::BadRequest,
            if bytes.len() > 65536 {
                "audio frame is "@ + decimal(bytes.len()) + " bytes, over the "@ + decimal(65536)
                    + "-byte ceiling"@
            } else {
                "s16le payload has an odd length ("@ + decimal(bytes.len()) + " bytes)"@
            },
        ),
{
    law_base64_reads_back(bytes);
}

/// Audio of whole samples, no more than 65536 bytes of it, goes to the segmenter of
/// the live stream: those samples, low byte first, all of them and nothing else.
pub proof fn law_audio_goes_to_the_segmenter<E: Engine>(
    session: SessionView<E>,
    text: Seq<char>,
    id: Seq<char>,
    bytes: Seq<u8>,
    samples: Seq<i16>,
    flow: FlowView,
    after: SessionView<E>,
)
    requires
        session.steps(
            Input::Text(text, Ok(OpView::Audio { id, pcm: base64_text(bytes) })),
            flow,
            after,
        ),
        session.stream matches Some(stream) && stream.id == id,
        bytes.len() <= 65536,
        bytes.len() == 2 * samples.len(),
        forall|i: int|
            0 <= i < samples.len() ==> (#[trigger] samples[i]) as int % 0x1_0000 == bytes[2 * i]
                + 256 * bytes[2 * i + 1],
    ensures
        exists|segmenter: E::Segmenter, found: Result<Vec<Utterance>, VadError>|
            #![trigger session.stream->0.segmenter.push_outcome(samples, &segmenter, found)]
            session.stream->0.segmenter.push_outcome(samples, &segmenter, found) && goes_on_with(
                session,
                session.stream->0,
                segmenter,
                found,
                false,
                flow,
                after,
            ),
{
    let stream = session.stream->0;
    law_base64_reads_back(bytes);
    assert forall|i: int| 0 <= i < samples.len() implies samples_of(bytes)[i] == samples[i] by {
        assert(samples[i] as int % 0x1_0000 == bytes[2 * i] + 256 * bytes[2 * i + 1]);
    }
    assert(samples_of(bytes) =~= samples);
    assert(session.feeds(samples, flow, after));
    let (segmenter, found) = choose|
        segmenter: E::Segmenter,
        found: Result<Vec<Utterance>, VadError>,
    |
        #![trigger stream.segmenter.push_outcome(samples, &segmenter, found)]
        stream.segmenter.push_outcome(samples, &segmenter, found) && segmenter.wf()
            && session.finds(segmenter, found, false, flow, after);
    lemma_goes_on(session, segmenter, found, false, flow, after);
    assert(stream.segmenter.push_outcome(samples, &segmenter, found));
}

proof fn lemma_goes_on<E: Engine>(
    session: SessionView<E>,
    segmenter: E::Segmenter,
    found: Result<Vec<Utterance>, VadError>,
    ending: bool,
    flow: FlowView,
    after: SessionView<E>,
)
    requires
        session.stream is Some,
        session.finds(segmenter, found, ending, flow, after),
    ensures
        goes_on_with(session, session.stream->0, segmenter, found, ending, flow, after),
{
    if let Ok(utterances) = found {
        let waiting = SessionView::<E> {
            engine: session.engine,
            stream: Some(StreamView { segmenter, ..session.stream->0 }),
            work: WorkView::Segments { queue: utterances@, ending },
        };
        assert(waiting.idle(waiting.stream) == session.idle(waiting.stream));
    }
}

/// The end of the live stream flushes its segmenter, and what that hands out is sent
/// like any utterances that wait, with the end after them.
pub proof fn law_a_stream_end_flushes_the_segmenter<E: Engine>(
    session: SessionView<E>,
    text: Seq<char>,
    id: Seq<char>,
    flow: FlowView,
    after: SessionView<E>,
)
    requires
        session.steps(Input::Text(text, Ok(OpView::StreamEnd { id })), flow, after),
        session.stream matches Some(stream) && stream.id == id,
    ensures
        exists|segmenter: E::Segmenter, found: Result<Vec<Utterance>, VadError>|
            #![trigger session.stream->0.segmenter.flush_outcome(&segmenter, found)]
            session.stream->0.segmenter.flush_outcome(&segmenter, found) && goes_on_with(
                session,
                session.stream->0,
                segmenter,
                found,
                true,
                flow,
                after,
            ),
{
    let stream = session.stream->0;
    let (segmenter, found) = choose|
        segmenter: E::Segmenter,
        found: Result<Vec<Utterance>, VadError>,
    |
        #![trigger stream.segmenter.flush_outcome(&segmenter, found)]
        stream.segmenter.flush_outcome(&segmenter, found) && segmenter.wf() && session.finds(
            segmenter,
            found,
            true,
            flow,
            after,
        );
    lemma_goes_on(session, segmenter, found, true, flow, after);
    assert(stream.segmenter.flush_outcome(&segmenter, found));
}

/// With nothing left to do, the next line is read.
pub proof fn law_an_idle_session_reads_on<E: Engine>(
    session: SessionView<E>,
    flow: FlowView,
    after: SessionView<E>,
)
    requires
        session.work is Idle,
        session.steps(Input::Sent, flow, after),
    ensures
        flow is Continue,
        after == session,
{
}

/// Utterances that wait are recognized one after the other, each with all its
/// samples, by the recognizer as the one before left it. One is passed over only
/// where its transcript is nothing but white space. The first with any other
/// transcript is sent as it is, with its times, and counted, and the ones after it
/// wait on; a failure, or a segment that is too long, ends the stream. Once all were
/// passed over, the stream goes on, or ends with its count.
pub proof fn law_what_waiting_utterances_get<E: Engine>(
    session: SessionView<E>,
    queue: Seq<Utterance>,
    ending: bool,
    flow: FlowView,
    after: SessionView<E>,
) -> (trace: Seq<Heard<E::Recognizer>>)
    requires
        session.work == (WorkView::Segments { queue, ending }),
        session.stream is Some,
        session.steps(Input::Sent, flow, after),
    ensures
        trace.len() <= queue.len(),
        forall|i: int|
            #![trigger queue[i]]
            0 <= i < trace.len() ==> (if i == 0 {
                session.stream->0.recognizer
            } else {
                trace[i - 1].after
            }).segment_outcome(queue[i].pcm@, &trace[i].after, trace[i].outcome),
        forall|i: int|
            #![trigger trace[i]]
            0 <= i < trace.len() - 1 ==> trace[i].outcome is Ok && is_white(
                trace[i].outcome->Ok_0@,
            ),
        after.engine == session.engine,
        ({
            let stream = session.stream->0;
            let n = trace.len() as int;
            let left = if n == 0 {
                stream.recognizer
            } else {
                trace[n - 1].after
            };
            if n > 0 && trace[n - 1].outcome is Err {
                &&& tells(flow, stream.id, trace[n - 1].outcome->Err_0)
                &&& after.stream is None
                &&& after.work is Idle
            } else if n > 0 && !is_white(trace[n - 1].outcome->Ok_0@) {
                let event = EventView::Segment {
                    id: stream.id,
                    text: trace[n - 1].outcome->Ok_0@,
                    t0_ms: queue[n - 1].t0_ms,
                    t1_ms: queue[n - 1].t1_ms,
                };
                if is_sendable(event) {
                    &&& flow == FlowView::Send(event)
                    &&& after.work == WorkView::Segments { queue: queue.skip(n), ending }
                    &&& after.stream matches Some(counted)
                    &&& counted.id == stream.id
                    &&& counted.recognizer == left
                    &&& counted.segmenter == stream.segmenter
                    &&& stream.emitted < u64::MAX ==> counted.emitted == stream.emitted + 1
                } else {
                    &&& is_too_long(flow, stream.id, ErrorCode::Internal)
                    &&& after.stream is None
                    &&& after.work is Idle
                }
            } else {
                &&& n == queue.len()
                &&& after.work is Idle
                &&& if ending {
                    &&& flow == FlowView::Send(
                        EventView::StreamDone { id: stream.id, segments: stream.emitted },
                    )
                    &&& after.stream is None
                } else {
                    &&& flow is Continue
                    &&& after.stream == Some(StreamView { recognizer: left, ..stream })
                }
            }
        }),
{
    let stream = session.stream->0;
    let idle = session.idle(session.stream);
    let trace = choose|trace: Seq<Heard<E::Recognizer>>| #[trigger]
        heard_in_turn(stream.recognizer, queue, trace) && idle.emitted(
            queue,
            ending,
            trace,
            flow,
            after,
        );
    assert forall|i: int| #![trigger queue[i]] 0 <= i < trace.len() implies (if i == 0 {
        stream.recognizer
    } else {
        trace[i - 1].after
    }).segment_outcome(queue[i].pcm@, &trace[i].after, trace[i].outcome) by {
        assert(recognizer_after(stream.recognizer, trace.take(i)).segment_outcome(
            queue[i].pcm@,
            &trace[i].after,
            trace[i].outcome,
        ));
        if i > 0 {
            assert(trace.take(i).last() == trace[i - 1]);
        }
    }
    assert forall|i: int| #![trigger trace[i]] 0 <= i < trace.len() - 1 implies trace[i].outcome
        is Ok && is_white(trace[i].outcome->Ok_0@) by {
        assert(is_blank(trace[i].outcome));
        law_only_white_space_is_trimmed_away(trace[i].outcome->Ok_0@);
    }
    if trace.len() > 0 && trace.last().outcome is Ok {
        law_only_white_space_is_trimmed_away(trace.last().outcome->Ok_0@);
    }
    trace
}

/// What is heard in an utterance becomes a segment with exactly those words, or the
/// error in its place where that is too long; only white space becomes nothing.
pub proof fn law_what_a_transcript_becomes(
    id: Seq<char>,
    utterance: Utterance,
    heard: Result<String, EngineError>,
)
    ensures
        match (heard, segment_event(id, utterance, heard)) {
            (Ok(text), None) => is_white(text@),
            (Ok(text), Some(event)) => {
                let segment = EventView::Segment {
                    id,
                    text: text@,
                    t0_ms: utterance.t0_ms,
                    t1_ms: utterance.t1_ms,
                };
                &&& !is_white(text@)
                &&& if is_sendable(segment) {
                    event == segment
                } else {
                    is_too_long(FlowView::Send(event), id, ErrorCode::Internal)
                }
            },
            (Err(error), Some(event)) => tells(FlowView::Send(event), id, error),
            (Err(_), None) => false,
        },
{
    if let Ok(text) = heard {
        law_only_white_space_is_trimmed_away(text@);
    }
}

/// Words are never passed over: whatever utterance of a live stream the recognizer
/// hears words in, once it is reached a segment with exactly those words is sent,
/// or, where that is too long for a line, the error in its place.
pub proof fn law_words_are_sent<E: Engine>(
    session: SessionView<E>,
    queue: Seq<Utterance>,
    ending: bool,
    flow: FlowView,
    after: SessionView<E>,
)
    requires
        session.work == (WorkView::Segments { queue, ending }),
        session.stream is Some,
        queue.len() > 0,
        session.steps(Input::Sent, flow, after),
        forall|left: E::Recognizer, heard: Result<String, EngineError>|
            #![trigger session.stream->0.recognizer.segment_outcome(queue[0].pcm@, &left, heard)]
            session.stream->0.recognizer.segment_outcome(queue[0].pcm@, &left, heard) ==> heard
                is Ok && !is_white(heard->Ok_0@),
    ensures
        exists|left: E::Recognizer, heard: Result<String, EngineError>|
            #![trigger session.stream->0.recognizer.segment_outcome(queue[0].pcm@, &left, heard)]
            session.stream->0.recognizer.segment_outcome(queue[0].pcm@, &left, heard) && ({
                let event = EventView::Segment {
                    id: session.stream->0.id,
                    text: heard->Ok_0@,
                    t0_ms: queue[0].t0_ms,
                    t1_ms: queue[0].t1_ms,
                };
                if is_sendable(event) {
                    flow == FlowView::Send(event)
                } else {
                    is_too_long(flow, session.stream->0.id, ErrorCode::Internal)
                }
            }),
{
    let trace = law_what_waiting_utterances_get(session, queue, ending, flow, after);
    let first = queue[0];
    if trace.len() > 0 {
        let (left, heard) = (trace[0].after, trace[0].outcome);
        assert(session.stream->0.recognizer.segment_outcome(first.pcm@, &left, heard));
        if trace.len() > 1 {
            assert(trace[0].outcome is Ok && is_white(trace[0].outcome->Ok_0@));
        }
    }
}

} // verus!
