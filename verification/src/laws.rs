//! What holds of every session, whatever its backend does.
//!
//! A session is driven by steps: it is handed an input and answers with what is to
//! be done next. The laws here speak of any step that a session may take, and of
//! runs of them.
use vstd::prelude::*;
use crate::asr::{Engine, EngineError, Recognizer};
use crate::decode::DecodeError;
use crate::ndjson::LineView;
use crate::payload::{base64_text, law_payload_carries_its_samples};
use crate::pcm::bytes_of;
use crate::protocol::{event_id, fits, fitted, ErrorCode, EventView, OpView, MAX_AUDIO_FRAME_BYTES, TOO_LONG};
use crate::session::{heard_in_turn, is_blank, FlowView, Heard, Input, SessionView, WorkView};
use crate::vad::{Segmenter, Utterance, VadError};

verus! {

/// The event answers to the id, by echoing it, or, where no short error that echoes
/// it fits a line, by one without an id.
pub open spec fn echoes(event: EventView, id: Seq<char>) -> bool {
    ||| event_id(event) == Some(id)
    ||| event matches EventView::Error { id: sent, code, message } && sent.len() == 0 && message
        == TOO_LONG@ && !fits(EventView::Error { id, code, message })
}

/// The id that an op gives. `shutdown` gives none.
pub open spec fn op_id(op: OpView) -> Option<Seq<char>> {
    match op {
        OpView::Transcribe { id, .. } => Some(id),
        OpView::StreamStart { id, .. } => Some(id),
        OpView::Audio { id, .. } => Some(id),
        OpView::StreamEnd { id } => Some(id),
        OpView::Shutdown => None,
    }
}

/// An error event that refuses a request.
pub open spec fn is_refusal(event: EventView) -> bool {
    event matches EventView::Error { code, .. } && code == ErrorCode::BadRequest
}

/// An event after which its request or stream is over.
pub open spec fn is_terminal(event: EventView) -> bool {
    event is Result || event is StreamDone || event is Error
}

/// A session stays well-formed and keeps its backend.
pub proof fn law_steps_keep_a_session_well_formed<E: Engine>(
    session: SessionView<E>,
    input: Input,
    flow: FlowView,
    after: SessionView<E>,
)
    requires
        session.wf(),
        session.expects(input),
        session.steps(input, flow, after),
    ensures
        after.wf(),
        after.engine == session.engine,
{
}

/// A refused request changes nothing: the session goes on as if it had not come.
pub proof fn law_a_refusal_changes_nothing<E: Engine>(
    session: SessionView<E>,
    input: Input,
    flow: FlowView,
    after: SessionView<E>,
)
    requires
        session.wf(),
        session.expects(input),
        session.steps(input, flow, after),
        flow matches FlowView::Send(event) && is_refusal(event),
    ensures
        after == session,
{
}

/// One request at a time: while a stream is live, a batch request or another
/// stream is refused under its own id.
pub proof fn law_one_request_is_in_flight<E: Engine>(
    session: SessionView<E>,
    text: Seq<char>,
    op: OpView,
    flow: FlowView,
    after: SessionView<E>,
)
    requires
        session.wf(),
        session.stream is Some,
        op is Transcribe || op is StreamStart,
        session.steps(Input::Text(text, Ok(op)), flow, after),
    ensures
        after == session,
        flow matches FlowView::Send(event) && is_refusal(event) && event_id(event) == op_id(op),
{
}

/// Audio, or the end of a stream, is refused under its own id unless the stream
/// with that id is live.
pub proof fn law_a_stream_that_is_not_live_is_refused<E: Engine>(
    session: SessionView<E>,
    text: Seq<char>,
    op: OpView,
    flow: FlowView,
    after: SessionView<E>,
)
    requires
        session.wf(),
        op is Audio || op is StreamEnd,
        !session.is_live(op_id(op)->0),
        session.steps(Input::Text(text, Ok(op)), flow, after),
    ensures
        after == session,
        flow matches FlowView::Send(event) && is_refusal(event) && event_id(event) == op_id(op),
{
}

/// Samples reach the live stream's segmenter: an audio frame that carries samples
/// in base64, and is not over the ceiling, feeds just those samples.
pub proof fn law_audio_reaches_the_segmenter<E: Engine>(
    session: SessionView<E>,
    text: Seq<char>,
    id: Seq<char>,
    samples: Seq<i16>,
    flow: FlowView,
    after: SessionView<E>,
)
    requires
        session.wf(),
        session.is_live(id),
        bytes_of(samples).len() <= MAX_AUDIO_FRAME_BYTES,
        session.steps(
            Input::Text(text, Ok(OpView::Audio { id, pcm: base64_text(bytes_of(samples)) })),
            flow,
            after,
        ),
    ensures
        session.feeds(samples, flow, after),
{
    law_payload_carries_its_samples(samples);
}

/// A failure is terminal for the stream: once a session with a live stream sends
/// an error that is no refusal, the stream is gone, and nothing of it is left to
/// be done.
pub proof fn law_a_failure_ends_the_stream<E: Engine>(
    session: SessionView<E>,
    input: Input,
    flow: FlowView,
    after: SessionView<E>,
)
    requires
        session.wf(),
        session.expects(input),
        session.steps(input, flow, after),
        session.stream is Some,
        flow matches FlowView::Send(event) && event is Error && !is_refusal(event),
    ensures
        after.stream is None,
        after.work is Idle,
        flow matches FlowView::Send(event) && echoes(event, session.stream->0.id),
{
}

/// Nothing is ignored: every line is answered, or stops the session, or is an op;
/// and every op is answered but for `shutdown`, a batch request that goes to the
/// decoder first, and audio for the live stream.
pub proof fn law_nothing_is_ignored<E: Engine>(
    session: SessionView<E>,
    input: Input,
    flow: FlowView,
    after: SessionView<E>,
)
    requires
        session.wf(),
        session.expects(input),
        session.steps(input, flow, after),
    ensures
        flow is Continue ==> match input {
            Input::Text(_, Ok(op)) => op matches OpView::Audio { id, .. } && session.is_live(id),
            Input::Sent => true,
            _ => false,
        },
        input matches Input::Text(_, Err(reason)) ==> (flow matches FlowView::Send(event)
            && is_refusal(event)),
        input matches Input::Line(line) ==> (line is Oversize || line is NotUtf8) ==> (
        flow matches FlowView::Send(event) && is_refusal(event)),
        input is Decoded ==> flow is Send,
{
}

/// Every reply echoes the id of its request, as far as a line can hold it.
pub proof fn law_replies_echo_ids<E: Engine>(
    session: SessionView<E>,
    text: Seq<char>,
    op: OpView,
    flow: FlowView,
    after: SessionView<E>,
)
    requires
        session.wf(),
        session.expects(Input::Text(text, Ok(op))),
        session.steps(Input::Text(text, Ok(op)), flow, after),
        flow is Send,
    ensures
        op_id(op) matches Some(id) && (flow matches FlowView::Send(event) && echoes(event, id)),
{
}

/// What is delivered for an event answers to its id.
pub proof fn law_delivered_events_echo_ids(event: EventView)
    ensures
        event_id(event) matches Some(id) ==> echoes(fitted(event), id),
{
}

/// Segments and the end of a stream are only sent for the live stream, under its
/// id, and a batch transcript only while there is none: the two never mix.
pub proof fn law_streams_and_batches_never_mix<E: Engine>(
    session: SessionView<E>,
    input: Input,
    flow: FlowView,
    after: SessionView<E>,
)
    requires
        session.wf(),
        session.expects(input),
        session.steps(input, flow, after),
    ensures
        flow matches FlowView::Send(event) ==> {
            &&& event is Segment || event is StreamDone ==> (session.stream matches Some(stream)
                && event_id(event) == Some(stream.id))
            &&& event is Result ==> session.stream is None && after.stream is None
            &&& event is StreamDone ==> after.stream is None
        },
{
}

/// A session says `hello` at no other time than when it is announced.
pub proof fn law_no_step_says_hello<E: Engine>(
    session: SessionView<E>,
    input: Input,
    flow: FlowView,
    after: SessionView<E>,
)
    requires
        session.wf(),
        session.expects(input),
        session.steps(input, flow, after),
    ensures
        flow matches FlowView::Send(event) ==> !(event is Hello),
{
}

/// A session stops at the end of its input and on `shutdown`, and at no other
/// time.
pub proof fn law_a_session_stops_when_told<E: Engine>(
    session: SessionView<E>,
    input: Input,
    flow: FlowView,
    after: SessionView<E>,
)
    requires
        session.wf(),
        session.expects(input),
        session.steps(input, flow, after),
    ensures
        flow is Stop <==> input == Input::Line(LineView::Eof) || (input matches Input::Text(
            _,
            Ok(op),
        ) && op is Shutdown),
{
}

/// A batch request gets exactly one reply, under its id: a transcript or an error.
/// Then the session is what it was, and the next line is read.
pub proof fn law_a_batch_request_gets_one_reply<E: Engine>(
    session: SessionView<E>,
    text: Seq<char>,
    id: Seq<char>,
    path: Seq<char>,
    model_dir: Seq<char>,
    asked: (FlowView, SessionView<E>),
    pcm: Result<Seq<i16>, DecodeError>,
    replied: (FlowView, SessionView<E>),
    resumed: (FlowView, SessionView<E>),
)
    requires
        session.wf(),
        session.work is Idle,
        session.stream is None,
        session.steps(
            Input::Text(text, Ok(OpView::Transcribe { id, path, model_dir })),
            asked.0,
            asked.1,
        ),
        asked.1.steps(Input::Decoded(pcm), replied.0, replied.1),
        replied.1.steps(Input::Sent, resumed.0, resumed.1),
    ensures
        asked.0 == FlowView::Decode(path),
        replied.0 matches FlowView::Send(event) && (event is Result || event is Error)
            && event_id(event) == Some(id),
        resumed.0 is Continue,
        resumed.1 == session,
{
}

/// What waits to be sent of a stream is sent in order: either some utterance of
/// the queue is sent as a segment, with its times, and those after it are left; or
/// none of them is, and the queue is done with.
pub proof fn law_segments_keep_their_order<E: Engine>(
    session: SessionView<E>,
    queue: Seq<Utterance>,
    ending: bool,
    flow: FlowView,
    after: SessionView<E>,
)
    requires
        session.wf(),
        session.work == (WorkView::Segments { queue, ending }),
        session.steps(Input::Sent, flow, after),
    ensures
        (exists|k: int|
            0 <= k < queue.len() && (flow matches FlowView::Send(
                EventView::Segment { t0_ms, t1_ms, .. },
            ) && t0_ms == (#[trigger] queue[k]).t0_ms && t1_ms == queue[k].t1_ms) && after.work == (
            WorkView::Segments { queue: queue.skip(k + 1), ending })) || (after.work is Idle
            && !(flow matches FlowView::Send(event) && event is Segment)),
{
    let stream = session.stream->0;
    let idle = session.idle(session.stream);
    let trace = choose|trace: Seq<Heard<E::Recognizer>>| #[trigger]
        heard_in_turn(stream.recognizer, queue, trace) && idle.emitted(
            queue,
            ending,
            trace,
            flow,
            after,
        );
    if trace.len() > 0 && !is_blank(trace.last().outcome)
        && flow->Send_0 is Segment {
        let k = trace.len() - 1;
        assert(queue[k].t0_ms == flow->Send_0->Segment_t0_ms);
    }
}

/// The end of a stream is answered: after `stream_end` something is sent at every
/// step, segments first, each of which leaves less to be done, and last the one
/// terminal event, with which the stream is gone.
pub proof fn law_the_end_of_a_stream_is_answered<E: Engine>(
    session: SessionView<E>,
    input: Input,
    flow: FlowView,
    after: SessionView<E>,
)
    requires
        session.wf(),
        session.expects(input),
        session.steps(input, flow, after),
        match input {
            Input::Text(_, Ok(op)) => op matches OpView::StreamEnd { id } && session.is_live(id),
            Input::Sent => session.work matches WorkView::Segments { ending, .. } && ending,
            _ => false,
        },
    ensures
        flow matches FlowView::Send(event) && echoes(event, session.stream->0.id) && (
        if is_terminal(event) {
            after.stream is None && after.work is Idle
        } else {
            &&& event is Segment
            &&& after.work matches WorkView::Segments { queue, ending }
            &&& ending
            &&& session.work matches WorkView::Segments { queue: waiting, .. } ==> queue.len()
                < waiting.len()
        }),
{
}

/// A stream fails for a reason: with a backend that neither fails to flush nor to
/// recognize, the end of a stream is answered by an error only where an event is
/// too long for a line.
pub proof fn law_a_sound_backend_ends_its_streams<E: Engine>(
    session: SessionView<E>,
    input: Input,
    flow: FlowView,
    after: SessionView<E>,
)
    requires
        session.wf(),
        session.expects(input),
        session.steps(input, flow, after),
        match input {
            Input::Text(_, Ok(op)) => op matches OpView::StreamEnd { id } && session.is_live(id),
            Input::Sent => session.work matches WorkView::Segments { ending, .. } && ending,
            _ => false,
        },
        forall|
            segmenter: E::Segmenter,
            left: E::Segmenter,
            found: Result<Vec<Utterance>, VadError>,
        | #[trigger]
            segmenter.flush_outcome(&left, found) ==> found is Ok,
        forall|
            recognizer: E::Recognizer,
            pcm: Seq<i16>,
            left: E::Recognizer,
            heard: Result<String, EngineError>,
        | #[trigger]
            recognizer.segment_outcome(pcm, &left, heard) ==> heard is Ok,
    ensures
        flow matches FlowView::Send(event) && (event is Segment || event is StreamDone || (
        event matches EventView::Error { message, .. } && message == TOO_LONG@)),
{
}

} // verus!
