//! What holds of whole runs of a session.
//!
//! A run follows the flows: each step is handed what the flow before it asked for,
//! and nothing follows a stop. The first flow is the one that [`crate::session::run`]
//! begins with.
use vstd::prelude::*;
use vstd::utf8::encode_utf8;
use crate::asr::Engine;
use crate::decode::DecodeError;
use crate::laws::{echoes, law_the_end_of_a_stream_is_answered};
use crate::ndjson::{lemma_lines_joined, lemma_text_line, lines_of, LineView};
use crate::protocol::{EventView, OpView, MAX_LINE_BYTES};
use crate::session::{FlowView, Input, SessionView, WorkView};

verus! {

/// One step of a run.
pub struct Step<E: Engine> {
    /// What the session was handed.
    pub input: Input,
    /// What it answered.
    pub flow: FlowView,
    /// The session from then on.
    pub after: SessionView<E>,
}

/// A session that has just begun.
pub open spec fn is_new<E: Engine>(session: SessionView<E>) -> bool {
    session.stream is None && session.work is Idle
}

/// The session once the steps were taken.
pub open spec fn session_after<E: Engine>(
    session: SessionView<E>,
    steps: Seq<Step<E>>,
) -> SessionView<E> {
    if steps.len() == 0 {
        session
    } else {
        steps.last().after
    }
}

/// What the last of the steps asked for. Before the first of them, an event was
/// sent: the session was announced.
pub open spec fn asked<E: Engine>(hello: EventView, steps: Seq<Step<E>>) -> FlowView {
    if steps.len() == 0 {
        FlowView::Send(hello)
    } else {
        steps.last().flow
    }
}

/// What a flow asks for is what the session is handed next.
pub open spec fn follows(flow: FlowView, input: Input) -> bool {
    match flow {
        FlowView::Continue => input is Line,
        FlowView::Stop => false,
        FlowView::Send(_) => input is Sent,
        FlowView::Parse(text) => input matches Input::Text(read, _) && read == text,
        FlowView::Decode(_) => input is Decoded,
    }
}

/// The session may take these steps, one after the other, when its flows are
/// followed.
pub open spec fn is_run<E: Engine>(
    session: SessionView<E>,
    hello: EventView,
    steps: Seq<Step<E>>,
) -> bool
    decreases steps.len(),
{
    steps.len() > 0 ==> {
        let earlier = steps.drop_last();
        &&& is_run(session, hello, earlier)
        &&& follows(asked(hello, earlier), steps.last().input)
        &&& session_after(session, earlier).steps(
            steps.last().input,
            steps.last().flow,
            steps.last().after,
        )
    }
}

/// The session waits for what the flow asks for.
pub open spec fn awaits<E: Engine>(session: SessionView<E>, flow: FlowView) -> bool {
    match flow {
        FlowView::Continue => session.work is Idle,
        FlowView::Stop => true,
        FlowView::Send(_) => !(session.work is Batch),
        FlowView::Parse(_) => session.work is Idle,
        FlowView::Decode(_) => session.work is Batch,
    }
}

/// Who follows the flows of a session always hands it what it waits for: whatever
/// comes next, the session is well-formed and expects it.
pub proof fn law_who_follows_the_flows_is_expected<E: Engine>(
    session: SessionView<E>,
    hello: EventView,
    steps: Seq<Step<E>>,
)
    requires
        is_new(session),
        is_run(session, hello, steps),
    ensures
        session_after(session, steps).wf(),
        awaits(session_after(session, steps), asked(hello, steps)),
        forall|input: Input| #[trigger]
            follows(asked(hello, steps), input) ==> session_after(session, steps).expects(input),
    decreases steps.len(),
{
    if steps.len() > 0 {
        let earlier = steps.drop_last();
        law_who_follows_the_flows_is_expected(session, hello, earlier);
        assert(session_after(session, earlier).expects(steps.last().input));
    }
}

/// How many segments were sent since the last stream was started.
pub open spec fn segments_sent<E: Engine>(steps: Seq<Step<E>>) -> nat
    decreases steps.len(),
{
    if steps.len() == 0 {
        0
    } else {
        match steps.last().flow {
            FlowView::Send(EventView::Segment { .. }) => segments_sent(steps.drop_last()) + 1,
            FlowView::Send(EventView::StreamStarted { .. }) => 0,
            _ => segments_sent(steps.drop_last()),
        }
    }
}

/// A session that ran from the start counts its segments.
proof fn lemma_run_counts<E: Engine>(
    session: SessionView<E>,
    hello: EventView,
    steps: Seq<Step<E>>,
)
    requires
        is_new(session),
        is_run(session, hello, steps),
        steps.len() <= u64::MAX,
    ensures
        segments_sent(steps) <= steps.len(),
        session_after(session, steps).stream matches Some(stream) ==> stream.emitted
            == segments_sent(steps),
    decreases steps.len(),
{
    if steps.len() > 0 {
        lemma_run_counts(session, hello, steps.drop_last());
        law_who_follows_the_flows_is_expected(session, hello, steps.drop_last());
    }
}

/// `stream_done` counts the segments: it says how many were sent since the stream
/// was started. A run has no more steps than 64 bits can count.
pub proof fn law_stream_done_counts_the_segments<E: Engine>(
    session: SessionView<E>,
    hello: EventView,
    steps: Seq<Step<E>>,
    id: Seq<char>,
    segments: u64,
)
    requires
        is_new(session),
        is_run(session, hello, steps),
        0 < steps.len() <= u64::MAX,
        steps.last().flow == FlowView::Send(EventView::StreamDone { id, segments }),
    ensures
        segments == segments_sent(steps),
{
    lemma_run_counts(session, hello, steps.drop_last());
    law_who_follows_the_flows_is_expected(session, hello, steps.drop_last());
}

/// A segment is sent.
pub open spec fn sends_segment(flow: FlowView) -> bool {
    flow matches FlowView::Send(event) && event is Segment
}

/// A segment of the stream with that id is sent.
pub open spec fn sends_segment_of(flow: FlowView, id: Seq<char>) -> bool {
    flow matches FlowView::Send(EventView::Segment { id: sent, .. }) && sent == id
}

/// A stream's end waits to be answered.
pub open spec fn is_ending(work: WorkView) -> bool {
    work matches WorkView::Segments { ending, .. } && ending
}

proof fn lemma_run_prefix<E: Engine>(
    session: SessionView<E>,
    hello: EventView,
    steps: Seq<Step<E>>,
    n: int,
)
    requires
        is_run(session, hello, steps),
        0 <= n <= steps.len(),
    ensures
        is_run(session, hello, steps.take(n)),
    decreases steps.len(),
{
    if n < steps.len() {
        lemma_run_prefix(session, hello, steps.drop_last(), n);
        assert(steps.drop_last().take(n) =~= steps.take(n));
    } else {
        assert(steps.take(n) =~= steps);
    }
}

/// What each step sends from the end of a stream on, while nothing but segments
/// was sent since.
proof fn lemma_stream_ending<E: Engine>(
    session: SessionView<E>,
    hello: EventView,
    steps: Seq<Step<E>>,
    id: Seq<char>,
    from: int,
    to: int,
)
    requires
        is_new(session),
        is_run(session, hello, steps),
        0 <= from <= to < steps.len(),
        steps[from].input matches Input::Text(_, Ok(op)) && op == (OpView::StreamEnd { id }),
        session_after(session, steps.take(from)).is_live(id),
        forall|k: int|
            from <= k < to ==> sends_segment((#[trigger] steps[k]).flow),
    ensures
        session_after(session, steps.take(to)).is_live(id),
        from < to ==> is_ending(session_after(session, steps.take(to)).work),
        ({
            let flow = steps[to].flow;
            let after = steps[to].after;
            flow matches FlowView::Send(event) && echoes(event, id) && (if event is Segment {
                &&& after.is_live(id)
                &&& is_ending(after.work)
            } else {
                &&& event is StreamDone || event is Error
                &&& after.stream is None
                &&& after.work is Idle
            })
        }),
    decreases to - from,
{
    let before = steps.take(to);
    let now = steps.take(to + 1);
    lemma_run_prefix(session, hello, steps, to);
    lemma_run_prefix(session, hello, steps, to + 1);
    assert(now.drop_last() =~= before);
    assert(now.last() == steps[to]);
    law_who_follows_the_flows_is_expected(session, hello, before);
    if from < to {
        lemma_stream_ending(session, hello, steps, id, from, to - 1);
        assert(before.last() == steps[to - 1]);
    }
    law_the_end_of_a_stream_is_answered(
        session_after(session, before),
        steps[to].input,
        steps[to].flow,
        steps[to].after,
    );
}

/// The end of a live stream is answered in full: from there on only segments of the
/// stream are sent, under its id, up to one terminal event, with which the stream is
/// gone. That is an error, or it is `stream_done` with the number of segments that
/// were sent since the stream was started, those since its end with them.
pub proof fn law_a_stream_ends_with_its_count<E: Engine>(
    session: SessionView<E>,
    hello: EventView,
    steps: Seq<Step<E>>,
    id: Seq<char>,
    from: int,
    to: int,
)
    requires
        is_new(session),
        is_run(session, hello, steps),
        0 <= from <= to < steps.len() <= u64::MAX,
        steps[from].input matches Input::Text(_, Ok(op)) && op == (OpView::StreamEnd { id }),
        session_after(session, steps.take(from)).is_live(id),
        forall|k: int|
            from <= k < to ==> sends_segment((#[trigger] steps[k]).flow),
        !sends_segment(steps[to].flow),
    ensures
        forall|k: int|
            from <= k < to ==> sends_segment_of((#[trigger] steps[k]).flow, id),
        steps[to].after.stream is None,
        steps[to].after.work is Idle,
        steps[to].flow matches FlowView::Send(event) && echoes(event, id) && match event {
            EventView::StreamDone { segments, .. } => segments == segments_sent(
                steps.take(to + 1),
            ),
            EventView::Error { .. } => true,
            _ => false,
        },
{
    lemma_stream_ending(session, hello, steps, id, from, to);
    assert forall|k: int| from <= k < to implies sends_segment_of(
        (#[trigger] steps[k]).flow,
        id,
    ) by {
        lemma_stream_ending(session, hello, steps, id, from, k);
    }
    lemma_run_prefix(session, hello, steps, to + 1);
    assert(steps.take(to + 1).last() == steps[to]);
    if let FlowView::Send(EventView::StreamDone { id: sent, segments }) = steps[to].flow {
        law_stream_done_counts_the_segments(
            session,
            hello,
            steps.take(to + 1),
            sent,
            segments,
        );
    }
}

/// What a session is surrounded by: the lines of its input, what each text is
/// parsed as, and what each file is decoded to.
pub struct World {
    /// The lines of the input.
    pub lines: Seq<LineView>,
    /// The op that a text is, or the reason why it is none.
    pub parse: spec_fn(Seq<char>) -> Result<OpView, Seq<char>>,
    /// The samples of the file at a path, or the reason why there are none.
    pub decode: spec_fn(Seq<char>) -> Result<Seq<i16>, DecodeError>,
}

/// How many lines the steps took in.
pub open spec fn lines_read<E: Engine>(steps: Seq<Step<E>>) -> nat
    decreases steps.len(),
{
    if steps.len() == 0 {
        0
    } else {
        lines_read(steps.drop_last()) + if steps.last().input is Line {
            1nat
        } else {
            0nat
        }
    }
}

/// The events that the steps sent.
pub open spec fn events_sent<E: Engine>(steps: Seq<Step<E>>) -> Seq<EventView>
    decreases steps.len(),
{
    if steps.len() == 0 {
        Seq::empty()
    } else {
        match steps.last().flow {
            FlowView::Send(event) => events_sent(steps.drop_last()).push(event),
            _ => events_sent(steps.drop_last()),
        }
    }
}

impl World {
    /// What the world hands to a session for what it asked, once it took in so many
    /// lines.
    pub open spec fn hands(self, flow: FlowView, read: nat, input: Input) -> bool {
        match flow {
            FlowView::Continue => read < self.lines.len() && input == Input::Line(
                self.lines[read as int],
            ),
            FlowView::Stop => false,
            FlowView::Send(_) => input is Sent,
            FlowView::Parse(text) => input == Input::Text(text, (self.parse)(text)),
            FlowView::Decode(path) => input == Input::Decoded((self.decode)(path)),
        }
    }

    /// The session may take these steps in this world.
    pub open spec fn is_served<E: Engine>(
        self,
        session: SessionView<E>,
        hello: EventView,
        steps: Seq<Step<E>>,
    ) -> bool
        decreases steps.len(),
    {
        steps.len() > 0 ==> {
            let earlier = steps.drop_last();
            &&& self.is_served(session, hello, earlier)
            &&& self.hands(asked(hello, earlier), lines_read(earlier), steps.last().input)
            &&& session_after(session, earlier).steps(
                steps.last().input,
                steps.last().flow,
                steps.last().after,
            )
        }
    }

    /// The session may take these steps in this world, from its announcement to its
    /// stop.
    pub open spec fn is_served_to_the_end<E: Engine>(
        self,
        session: SessionView<E>,
        hello: EventView,
        steps: Seq<Step<E>>,
    ) -> bool {
        &&& self.is_served(session, hello, steps)
        &&& asked(hello, steps) is Stop
    }

    /// A line of this world that does not stop a session: not the end of the input,
    /// and no `shutdown`.
    pub open spec fn is_ordinary(self, line: LineView) -> bool {
        match line {
            LineView::Eof => false,
            LineView::Text(text) => (self.parse)(text) != Ok::<OpView, Seq<char>>(OpView::Shutdown),
            _ => true,
        }
    }
}

/// What a world serves is a run.
proof fn lemma_served_is_run<E: Engine>(
    world: World,
    session: SessionView<E>,
    hello: EventView,
    steps: Seq<Step<E>>,
)
    requires
        world.is_served(session, hello, steps),
    ensures
        is_run(session, hello, steps),
    decreases steps.len(),
{
    if steps.len() > 0 {
        lemma_served_is_run(world, session, hello, steps.drop_last());
    }
}

/// While only ordinary lines were taken in, the session goes on.
proof fn lemma_goes_on<E: Engine>(
    world: World,
    session: SessionView<E>,
    hello: EventView,
    steps: Seq<Step<E>>,
    ordinary: nat,
)
    requires
        is_new(session),
        world.is_served(session, hello, steps),
        ordinary <= world.lines.len(),
        forall|i: int| 0 <= i < ordinary ==> world.is_ordinary(#[trigger] world.lines[i]),
        lines_read(steps) <= ordinary,
    ensures
        !(asked(hello, steps) is Stop),
        asked(hello, steps) matches FlowView::Parse(text) ==> (world.parse)(text) != Ok::<
            OpView,
            Seq<char>,
        >(OpView::Shutdown),
    decreases steps.len(),
{
    if steps.len() > 0 {
        let earlier = steps.drop_last();
        lemma_goes_on(world, session, hello, earlier, ordinary);
        lemma_served_is_run(world, session, hello, earlier);
        law_who_follows_the_flows_is_expected(session, hello, earlier);
        if asked(hello, earlier) is Continue {
            assert(world.is_ordinary(world.lines[lines_read(earlier) as int]));
        }
    }
}

/// Once the end of the input was taken in, the session has stopped.
proof fn lemma_stops_at_the_end<E: Engine>(
    world: World,
    session: SessionView<E>,
    hello: EventView,
    steps: Seq<Step<E>>,
    ordinary: nat,
)
    requires
        is_new(session),
        world.is_served(session, hello, steps),
        ordinary < world.lines.len(),
        world.lines[ordinary as int] is Eof,
        lines_read(steps) > ordinary,
    ensures
        asked(hello, steps) is Stop,
    decreases steps.len(),
{
    let earlier = steps.drop_last();
    if lines_read(earlier) > ordinary {
        lemma_stops_at_the_end(world, session, hello, earlier, ordinary);
    }
}

/// Once `shutdown` was taken in, the session has stopped or is about to.
proof fn lemma_stops_at_shutdown<E: Engine>(
    world: World,
    session: SessionView<E>,
    hello: EventView,
    steps: Seq<Step<E>>,
    ordinary: nat,
    shutdown: Seq<char>,
)
    requires
        is_new(session),
        world.is_served(session, hello, steps),
        ordinary < world.lines.len(),
        world.lines[ordinary as int] == LineView::Text(shutdown),
        (world.parse)(shutdown) == Ok::<OpView, Seq<char>>(OpView::Shutdown),
        lines_read(steps) > ordinary,
    ensures
        ({
            let earlier = steps.drop_last();
            ||| asked(hello, steps) == FlowView::Parse(shutdown) && steps.last().input is Line
                && lines_read(earlier) == ordinary
            ||| asked(hello, steps) is Stop && asked(hello, earlier) == FlowView::Parse(shutdown)
                && earlier.len() > 0 && earlier.last().input is Line && lines_read(
                earlier.drop_last(),
            ) == ordinary
        }),
    decreases steps.len(),
{
    let earlier = steps.drop_last();
    if lines_read(earlier) > ordinary {
        lemma_stops_at_shutdown(world, session, hello, earlier, ordinary, shutdown);
    }
}

/// Worlds that differ only in lines not taken in serve the same.
proof fn lemma_served_alike<E: Engine>(
    one: World,
    other: World,
    session: SessionView<E>,
    hello: EventView,
    steps: Seq<Step<E>>,
    alike: nat,
)
    requires
        one.is_served(session, hello, steps),
        one.parse == other.parse,
        one.decode == other.decode,
        alike <= one.lines.len(),
        alike <= other.lines.len(),
        forall|i: int| 0 <= i < alike ==> one.lines[i] == other.lines[i],
        lines_read(steps) <= alike,
    ensures
        other.is_served(session, hello, steps),
    decreases steps.len(),
{
    if steps.len() > 0 {
        lemma_served_alike(one, other, session, hello, steps.drop_last(), alike);
    }
}

/// Nothing after `shutdown` is served, and the end of the input means the same: a
/// session whose input is some lines, none of which stops it, then `shutdown`, and
/// then anything, may serve that just as it may serve those lines alone, with the
/// same events in the same order, and in the end stands as it does there.
pub proof fn law_shutdown_is_the_end_of_the_input<E: Engine>(
    session: SessionView<E>,
    hello: EventView,
    lines: Seq<LineView>,
    shutdown: Seq<char>,
    rest: Seq<LineView>,
    alone: World,
    cut_off: World,
)
    requires
        is_new(session),
        alone.parse == cut_off.parse,
        alone.decode == cut_off.decode,
        alone.lines == lines.push(LineView::Eof),
        cut_off.lines == lines.push(LineView::Text(shutdown)) + rest,
        (alone.parse)(shutdown) == Ok::<OpView, Seq<char>>(OpView::Shutdown),
        forall|i: int| 0 <= i < lines.len() ==> alone.is_ordinary(#[trigger] lines[i]),
    ensures
        forall|steps: Seq<Step<E>>| #[trigger]
            cut_off.is_served_to_the_end(session, hello, steps) ==> exists|same: Seq<Step<E>>|
                #[trigger] alone.is_served_to_the_end(session, hello, same) && events_sent(same)
                    == events_sent(steps) && session_after(session, same) == session_after(
                    session,
                    steps,
                ),
        forall|steps: Seq<Step<E>>| #[trigger]
            alone.is_served_to_the_end(session, hello, steps) ==> exists|same: Seq<Step<E>>|
                #[trigger] cut_off.is_served_to_the_end(session, hello, same) && events_sent(same)
                    == events_sent(steps) && session_after(session, same) == session_after(
                    session,
                    steps,
                ),
{
    let n = lines.len();
    assert forall|steps: Seq<Step<E>>| #[trigger]
        cut_off.is_served_to_the_end(session, hello, steps) implies exists|same: Seq<Step<E>>|
        #[trigger] alone.is_served_to_the_end(session, hello, same) && events_sent(same)
            == events_sent(steps) && session_after(session, same) == session_after(
            session,
            steps,
        ) by {
        assert forall|i: int| 0 <= i < n implies cut_off.is_ordinary(
            #[trigger] cut_off.lines[i],
        ) by {
            assert(alone.is_ordinary(lines[i]));
        }
        if lines_read(steps) <= n {
            lemma_goes_on(cut_off, session, hello, steps, n);
        }
        lemma_stops_at_shutdown(cut_off, session, hello, steps, n, shutdown);
        let reading = steps.drop_last();
        let served = reading.drop_last();
        assert(cut_off.is_served(session, hello, reading));
        lemma_served_alike(cut_off, alone, session, hello, served, n);
        let stop = Step {
            input: Input::Line(LineView::Eof),
            flow: FlowView::Stop,
            after: session_after(session, served),
        };
        let same = served.push(stop);
        assert(same.drop_last() =~= served);
        assert(asked(hello, served) is Continue);
        assert(events_sent(reading) == events_sent(served));
        assert(events_sent(same) == events_sent(served));
        assert(session_after(session, reading) == session_after(session, served));
        assert(alone.is_served_to_the_end(session, hello, same));
    }
    assert forall|steps: Seq<Step<E>>| #[trigger]
        alone.is_served_to_the_end(session, hello, steps) implies exists|same: Seq<Step<E>>|
        #[trigger] cut_off.is_served_to_the_end(session, hello, same) && events_sent(same)
            == events_sent(steps) && session_after(session, same) == session_after(
            session,
            steps,
        ) by {
        assert forall|i: int| 0 <= i < n implies alone.is_ordinary(#[trigger] alone.lines[i]) by {
            assert(alone.is_ordinary(lines[i]));
        }
        let served = steps.drop_last();
        if lines_read(steps) <= n {
            lemma_goes_on(alone, session, hello, steps, n);
        }
        if lines_read(served) > n {
            lemma_stops_at_the_end(alone, session, hello, served, n);
        }
        lemma_served_alike(alone, cut_off, session, hello, served, n);
        let left = session_after(session, served);
        let read = Step {
            input: Input::Line(LineView::Text(shutdown)),
            flow: FlowView::Parse(shutdown),
            after: left,
        };
        let stop = Step {
            input: Input::Text(shutdown, Ok(OpView::Shutdown)),
            flow: FlowView::Stop,
            after: left,
        };
        let reading = served.push(read);
        let same = reading.push(stop);
        assert(reading.drop_last() =~= served);
        assert(same.drop_last() =~= reading);
        assert(lines_read(served) == n);
        assert(asked(hello, served) is Continue);
        assert(cut_off.is_served(session, hello, reading));
        assert(events_sent(reading) == events_sent(served));
        assert(cut_off.is_served_to_the_end(session, hello, same));
    }
}

/// The same of bytes: whatever `input` of whole lines a session is given, and
/// whatever bytes come after a `shutdown` line, what is served is what is served
/// of the input alone.
pub proof fn law_nothing_after_shutdown_is_served<E: Engine>(
    session: SessionView<E>,
    hello: EventView,
    input: Seq<u8>,
    shutdown: Seq<char>,
    rest: Seq<u8>,
    alone: World,
    cut_off: World,
)
    requires
        is_new(session),
        input.len() > 0 ==> input.last() == 10,
        !encode_utf8(shutdown).contains(10u8),
        encode_utf8(shutdown).len() <= MAX_LINE_BYTES,
        alone.parse == cut_off.parse,
        alone.decode == cut_off.decode,
        alone.lines == lines_of(input, MAX_LINE_BYTES as nat),
        cut_off.lines == lines_of(
            input + encode_utf8(shutdown).push(10u8) + rest,
            MAX_LINE_BYTES as nat,
        ),
        (alone.parse)(shutdown) == Ok::<OpView, Seq<char>>(OpView::Shutdown),
        forall|i: int|
            0 <= i < alone.lines.len() && !(alone.lines[i] is Eof) ==> alone.is_ordinary(
                #[trigger] alone.lines[i],
            ),
    ensures
        forall|steps: Seq<Step<E>>| #[trigger]
            cut_off.is_served_to_the_end(session, hello, steps) ==> exists|same: Seq<Step<E>>|
                #[trigger] alone.is_served_to_the_end(session, hello, same) && events_sent(same)
                    == events_sent(steps),
        forall|steps: Seq<Step<E>>| #[trigger]
            alone.is_served_to_the_end(session, hello, steps) ==> exists|same: Seq<Step<E>>|
                #[trigger] cut_off.is_served_to_the_end(session, hello, same) && events_sent(same)
                    == events_sent(steps),
{
    let max = MAX_LINE_BYTES as nat;
    let line = encode_utf8(shutdown).push(10u8);
    let lines = alone.lines.drop_last();
    lemma_lines_joined(input, line + rest, max);
    lemma_text_line(shutdown, rest, max);
    assert(input + line + rest =~= input + (line + rest));
    assert(alone.lines =~= lines.push(LineView::Eof));
    assert(cut_off.lines =~= lines.push(LineView::Text(shutdown)) + lines_of(rest, max));
    assert forall|i: int| 0 <= i < lines.len() implies alone.is_ordinary(#[trigger] lines[i]) by {
        assert(alone.lines[i] == lines[i]);
    }
    law_shutdown_is_the_end_of_the_input(
        session,
        hello,
        lines,
        shutdown,
        lines_of(rest, max),
        alone,
        cut_off,
    );
}

} // verus!
