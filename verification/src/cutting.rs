//! What segmentation comes to, told from the frames of a stream alone.
//!
//! Some frames of a stream are speech, and the others are not. From that, and from
//! the bounds, it follows where utterances begin and end. The laws here say so of
//! everything that a segmenter hands out over a stream, without a word on how it
//! goes about it.
use vstd::prelude::*;
use crate::segmentation::{energy, frame_at, is_speech, law_utterances_are_in_order, lemma_run, lemma_run_joined, lemma_run_whole, lemma_step, nothing_heard, padded, span_samples, Cut, Segmentation, Span};
use crate::utterances::{all_samples, all_utterances, fed, feeds, lemma_clock_counts, lemma_ended, lemma_feeds, padded_stream};
use crate::vad::{lemma_are_cut_extends, EnergyParams, EnergySegmenter, Segmenter, Utterance, VadError, FRAME_SAMPLES};

verus! {

/// The sum of the squares of the samples from `from` up to `to`.
pub open spec fn squares(stream: Seq<i16>, from: int, to: int) -> int
    decreases to - from,
{
    if to <= from {
        0
    } else {
        stream[from] * stream[from] + squares(stream, from + 1, to)
    }
}

/// Which frames of a stream are speech: those of 512 samples whose squares add up to
/// more than the bound.
pub open spec fn speech_in(params: EnergyParams, stream: Seq<i16>) -> Seq<bool> {
    Seq::new(
        stream.len() / 512,
        |i: int| squares(stream, 512 * i, 512 * i + 512) > params.speech_energy,
    )
}

/// The frames from `from` up to `to` are there, and none is speech.
pub open spec fn quiet(speech: Seq<bool>, from: int, to: int) -> bool {
    &&& from < to ==> 0 <= from && to <= speech.len()
    &&& forall|i: int| from <= i < to ==> !#[trigger] speech[i]
}

/// From frame `at` on, that many frames are quiet.
pub open spec fn pauses(speech: Seq<bool>, at: int, frames: int) -> bool {
    quiet(speech, at, at + frames)
}

/// How many of the frames from `from` up to `to` are speech.
pub open spec fn count(speech: Seq<bool>, from: int, to: int) -> nat
    decreases to - from,
{
    if to <= from {
        0
    } else {
        count(speech, from, to - 1) + if speech[to - 1] {
            1nat
        } else {
            0nat
        }
    }
}

/// A run of speech, and of what belongs to it.
pub struct Run {
    /// The first frame that belongs to it.
    pub start: int,
    /// The first frame of it that is speech.
    pub onset: int,
    /// The frame after the last that belongs to it.
    pub end: int,
    /// How many frames were heard when it was over.
    pub closed: int,
}

/// A run that begins with speech at `onset`, when no frame before `free` could
/// belong to it, starts at `start`: as many frames earlier as the pre-roll, the
/// bound and `free` allow.
pub open spec fn begins(
    params: EnergyParams,
    speech: Seq<bool>,
    free: int,
    onset: int,
    start: int,
) -> bool {
    &&& 0 <= free <= onset < speech.len()
    &&& speech[onset]
    &&& quiet(speech, free, onset)
    &&& free <= start <= onset
    &&& onset - start <= params.pre_roll_frames
    &&& onset - start < params.max_frames
    &&& start == free || onset - start == params.pre_roll_frames || onset - start + 1
        == params.max_frames
}

/// A run from `start` on is over once `heard` frames were heard: it holds as many
/// frames as the bound allows, or the last `hangover_frames` were all quiet.
pub open spec fn is_over(params: EnergyParams, speech: Seq<bool>, start: int, heard: int) -> bool {
    ||| heard - start >= params.max_frames
    ||| quiet(speech, heard - params.hangover_frames, heard)
}

/// A run that is over: it was over just then and not before, and what belongs to it
/// ends there, or before the silence that closed it.
pub open spec fn is_closed(
    params: EnergyParams,
    speech: Seq<bool>,
    free: int,
    run: Run,
) -> bool {
    &&& begins(params, speech, free, run.onset, run.start)
    &&& run.onset < run.closed <= speech.len()
    &&& is_over(params, speech, run.start, run.closed)
    &&& forall|heard: int|
        run.onset < heard < run.closed ==> !#[trigger] is_over(params, speech, run.start, heard)
    &&& run.end == if quiet(speech, run.closed - params.hangover_frames, run.closed) {
        run.closed - params.hangover_frames
    } else {
        run.closed
    }
}

/// The first frame that can belong to run number `k`.
pub open spec fn free_at(runs: Seq<Run>, k: int) -> int {
    if k <= 0 {
        0
    } else {
        runs[k - 1].closed
    }
}

/// The runs are all those that are over in the frames heard, and `open`, an onset and
/// a start, is the one that is not, if there is one.
pub open spec fn is_cutting(
    params: EnergyParams,
    speech: Seq<bool>,
    runs: Seq<Run>,
    open: Option<(int, int)>,
) -> bool {
    &&& forall|k: int|
        0 <= k < runs.len() ==> #[trigger] is_closed(params, speech, free_at(runs, k), runs[k])
    &&& match open {
        None => quiet(speech, free_at(runs, runs.len() as int), speech.len() as int)
            && free_at(runs, runs.len() as int) <= speech.len(),
        Some((onset, start)) => {
            &&& begins(params, speech, free_at(runs, runs.len() as int), onset, start)
            &&& forall|heard: int|
                onset < heard <= speech.len() ==> !#[trigger] is_over(params, speech, start, heard)
        },
    }
}

/// The spans of the runs with as much speech as the bounds ask for.
pub open spec fn worth_it(params: EnergyParams, speech: Seq<bool>, runs: Seq<Run>) -> Seq<Span>
    decreases runs.len(),
{
    if runs.len() == 0 {
        Seq::empty()
    } else {
        let run = runs.last();
        let earlier = worth_it(params, speech, runs.drop_last());
        if count(speech, run.start, run.end) >= params.min_voiced_frames {
            earlier.push(Span { start: run.start as nat, end: run.end as nat })
        } else {
            earlier
        }
    }
}

proof fn lemma_squares_of_frame(stream: Seq<i16>, from: int, to: int)
    requires
        0 <= from <= to <= stream.len(),
    ensures
        squares(stream, from, to) == energy(stream.subrange(from, to)),
    decreases to - from,
{
    if from < to {
        lemma_squares_of_frame(stream, from, to - 1);
        lemma_squares_at_end(stream, from, to);
        assert(stream.subrange(from, to).drop_last() =~= stream.subrange(from, to - 1));
        assert(stream.subrange(from, to).last() == stream[to - 1]);
    }
}

proof fn lemma_squares_at_end(stream: Seq<i16>, from: int, to: int)
    requires
        from < to,
    ensures
        squares(stream, from, to) == squares(stream, from, to - 1) + stream[to - 1] * stream[to
            - 1],
    decreases to - from,
{
    if from + 1 < to {
        lemma_squares_at_end(stream, from + 1, to);
    } else {
        assert(squares(stream, from + 1, to) == 0);
        assert(squares(stream, from, to - 1) == 0);
    }
}

/// A frame is speech by its squares.
proof fn lemma_speech(params: EnergyParams, stream: Seq<i16>, i: int)
    requires
        0 <= i < stream.len() / 512,
    ensures
        speech_in(params, stream)[i] == is_speech(params, frame_at(stream, i)),
{
    assert(i * FRAME_SAMPLES == 512 * i);
    assert((i + 1) * FRAME_SAMPLES == 512 * i + 512);
    lemma_squares_of_frame(stream, 512 * i, 512 * i + 512);
}

/// What is speech so far stays so, whatever is heard next.
proof fn lemma_speech_extends(params: EnergyParams, stream: Seq<i16>, more: Seq<i16>)
    ensures
        speech_in(params, stream + more).len() >= speech_in(params, stream).len(),
        speech_in(params, stream + more).take(speech_in(params, stream).len() as int)
            == speech_in(params, stream),
{
    let (all, few) = (speech_in(params, stream + more), speech_in(params, stream));
    assert forall|i: int| 0 <= i < few.len() implies all[i] == few[i] by {
        lemma_speech(params, stream, i);
        lemma_speech(params, stream + more, i);
        assert(frame_at(stream + more, i) =~= frame_at(stream, i));
    }
    assert(all.take(few.len() as int) =~= few);
}

proof fn lemma_count_extends(speech: Seq<bool>, more: Seq<bool>, from: int, to: int)
    requires
        0 <= from,
        to <= speech.len() <= more.len(),
        more.take(speech.len() as int) == speech,
    ensures
        count(more, from, to) == count(speech, from, to),
    decreases to - from,
{
    if from < to {
        lemma_count_extends(speech, more, from, to - 1);
        assert(more.take(speech.len() as int)[to - 1] == more[to - 1]);
    }
}

proof fn lemma_quiet_extends(speech: Seq<bool>, more: Seq<bool>, from: int, to: int)
    requires
        to <= speech.len() <= more.len(),
        more.take(speech.len() as int) == speech,
    ensures
        quiet(more, from, to) == quiet(speech, from, to),
{
    assert forall|i: int| i < to && 0 <= i implies #[trigger] more[i] == speech[i] by {
        assert(more.take(speech.len() as int)[i] == more[i]);
    }
}

proof fn lemma_count_of_quiet(speech: Seq<bool>, from: int, middle: int, to: int)
    requires
        from <= middle <= to,
        quiet(speech, middle, to),
    ensures
        count(speech, from, to) == count(speech, from, middle),
    decreases to - middle,
{
    if middle < to {
        lemma_count_of_quiet(speech, from, middle, to - 1);
        assert(!speech[to - 1]);
    }
}

/// A run that is over stays so, whatever is heard next.
proof fn lemma_closed_extends(
    params: EnergyParams,
    speech: Seq<bool>,
    more: Seq<bool>,
    free: int,
    run: Run,
)
    requires
        speech.len() <= more.len(),
        more.take(speech.len() as int) == speech,
        is_closed(params, speech, free, run),
    ensures
        is_closed(params, more, free, run),
{
    let hangover = params.hangover_frames as int;
    assert(more.take(speech.len() as int)[run.onset] == more[run.onset]);
    lemma_quiet_extends(speech, more, free, run.onset);
    lemma_quiet_extends(speech, more, run.closed - hangover, run.closed);
    assert forall|heard: int| run.onset < heard < run.closed implies !#[trigger] is_over(
        params,
        more,
        run.start,
        heard,
    ) by {
        lemma_quiet_extends(speech, more, heard - hangover, heard);
        assert(!is_over(params, speech, run.start, heard));
    }
}

proof fn lemma_worth_extends(
    params: EnergyParams,
    speech: Seq<bool>,
    more: Seq<bool>,
    runs: Seq<Run>,
)
    requires
        speech.len() <= more.len(),
        more.take(speech.len() as int) == speech,
        forall|k: int|
            0 <= k < runs.len() ==> #[trigger] is_closed(params, speech, free_at(runs, k), runs[k]),
    ensures
        worth_it(params, more, runs) == worth_it(params, speech, runs),
    decreases runs.len(),
{
    if runs.len() > 0 {
        let earlier = runs.drop_last();
        assert forall|k: int| 0 <= k < earlier.len() implies #[trigger] is_closed(
            params,
            speech,
            free_at(earlier, k),
            earlier[k],
        ) by {
            assert(earlier[k] == runs[k]);
            assert(free_at(earlier, k) == free_at(runs, k));
            assert(is_closed(params, speech, free_at(runs, k), runs[k]));
        }
        lemma_worth_extends(params, speech, more, earlier);
        let run = runs.last();
        assert(is_closed(params, speech, free_at(runs, runs.len() - 1), runs[runs.len() - 1]));
        lemma_count_extends(speech, more, run.start, run.end);
    }
}

/// How a segmenter stands to the runs of what it heard.
spec fn agrees(
    params: EnergyParams,
    cut: Cut,
    speech: Seq<bool>,
    runs: Seq<Run>,
    open: Option<(int, int)>,
) -> bool {
    let n = speech.len() as int;
    &&& cut.frames() == n
    &&& match (cut.open, open) {
        (None, None) => {
            let free = free_at(runs, runs.len() as int);
            let oldest = n - params.pre_roll_frames;
            cut.quiet_from == if free < oldest {
                oldest
            } else {
                free
            }
        },
        (Some(now), Some((onset, start))) => {
            &&& now.start == start
            &&& now.voiced == count(speech, start, n)
            &&& now.silent < n - onset
            &&& quiet(speech, n - now.silent, n)
            &&& speech[n - now.silent - 1]
        },
        _ => false,
    }
}

/// One more frame makes of the runs what the segmenter makes of the utterances.
proof fn lemma_one_more(
    params: EnergyParams,
    cut: Cut,
    frame: Seq<i16>,
    runs: Seq<Run>,
    open: Option<(int, int)>,
    speech: Seq<bool>,
    more: Seq<bool>,
) -> (then: (Seq<Run>, Option<(int, int)>))
    requires
        params.valid(),
        frame.len() == FRAME_SAMPLES,
        cut.wf(params),
        more.len() == speech.len() + 1,
        more.take(speech.len() as int) == speech,
        more.last() == is_speech(params, frame),
        is_cutting(params, speech, runs, open),
        agrees(params, cut, speech, runs, open),
    ensures
        is_cutting(params, more, then.0, then.1),
        agrees(params, cut.step(params, frame).0, more, then.0, then.1),
        worth_it(params, more, then.0) == worth_it(params, speech, runs) + cut.step(
            params,
            frame,
        ).1,
{
    let n = more.len() as int;
    let hangover = params.hangover_frames as int;
    let free = free_at(runs, runs.len() as int);
    let (next, ended) = cut.step(params, frame);
    lemma_step(params, cut, frame);
    lemma_worth_extends(params, speech, more, runs);
    assert(worth_it(params, speech, runs) + Seq::<Span>::empty() =~= worth_it(
        params,
        speech,
        runs,
    ));
    assert forall|i: int| 0 <= i < n - 1 implies #[trigger] more[i] == speech[i] by {
        assert(more.take(speech.len() as int)[i] == more[i]);
    }
    assert forall|k: int| 0 <= k < runs.len() implies #[trigger] is_closed(
        params,
        more,
        free_at(runs, k),
        runs[k],
    ) by {
        assert(is_closed(params, speech, free_at(runs, k), runs[k]));
        lemma_closed_extends(params, speech, more, free_at(runs, k), runs[k]);
    }
    if runs.len() > 0 {
        assert(is_closed(params, speech, free_at(runs, runs.len() - 1), runs[runs.len() - 1]));
    }
    match open {
        None => {
            lemma_quiet_extends(speech, more, free, n - 1);
            if !more.last() {
                assert(quiet(more, free, n));
                (runs, None)
            } else {
                let start = cut.onset(params) as int;
                assert(begins(params, more, free, n - 1, start));
                lemma_count_of_quiet(more, start, start, n - 1);
                assert(count(more, start, start) == 0);
                assert(count(more, start, n) == 1);
                assert(!quiet(more, n - hangover, n)) by {
                    assert(more[n - 1]);
                }
                if n - start >= params.max_frames {
                    let run = Run { start, onset: n - 1, end: n, closed: n };
                    assert(is_over(params, more, start, n));
                    lemma_another_run(params, more, runs, run);
                    assert(quiet(more, n, n));
                    (runs.push(run), None)
                } else {
                    assert forall|heard: int| n - 1 < heard <= n implies !#[trigger] is_over(
                        params,
                        more,
                        start,
                        heard,
                    ) by {
                        assert(heard == n);
                    }
                    assert(quiet(more, n - 0, n));
                    (runs, Some((n - 1, start)))
                }
            }
        },
        Some((onset, start)) => {
            let silent = cut.open->0.silent as int;
            lemma_quiet_extends(speech, more, free, onset);
            lemma_count_extends(speech, more, start, n - 1);
            lemma_quiet_extends(speech, more, n - 1 - silent, n - 1);
            assert(begins(params, more, free, onset, start));
            assert forall|heard: int| onset < heard < n implies !#[trigger] is_over(
                params,
                more,
                start,
                heard,
            ) by {
                lemma_quiet_extends(speech, more, heard - hangover, heard);
                assert(!is_over(params, speech, start, heard));
            }
            assert(!is_over(params, speech, start, n - 1));
            if silent >= hangover {
                assert(quiet(speech, n - 1 - hangover, n - 1));
            }
            let now = if more.last() {
                0
            } else {
                silent + 1
            };
            assert(quiet(more, n - now, n));
            assert(more[n - now - 1]);
            assert(quiet(more, n - hangover, n) == (now >= hangover)) by {
                if now < hangover {
                    assert(more[n - now - 1]);
                }
            }
            if is_over(params, more, start, n) {
                let end = if quiet(more, n - hangover, n) {
                    n - hangover
                } else {
                    n
                };
                let run = Run { start, onset, end, closed: n };
                if now >= hangover {
                    lemma_count_of_quiet(more, start, end, n);
                }
                lemma_another_run(params, more, runs, run);
                assert(quiet(more, n, n));
                (runs.push(run), None)
            } else {
                assert forall|heard: int| onset < heard <= n implies !#[trigger] is_over(
                    params,
                    more,
                    start,
                    heard,
                ) by {
                }
                (runs, Some((onset, start)))
            }
        },
    }
}

/// Runs that are over, and another after them.
proof fn lemma_another_run(params: EnergyParams, speech: Seq<bool>, runs: Seq<Run>, run: Run)
    requires
        forall|k: int|
            0 <= k < runs.len() ==> #[trigger] is_closed(params, speech, free_at(runs, k), runs[k]),
        is_closed(params, speech, free_at(runs, runs.len() as int), run),
    ensures
        forall|k: int|
            0 <= k < runs.push(run).len() ==> #[trigger] is_closed(
                params,
                speech,
                free_at(runs.push(run), k),
                runs.push(run)[k],
            ),
        runs.push(run).drop_last() == runs,
        worth_it(params, speech, runs.push(run)) == worth_it(params, speech, runs) + (if count(
            speech,
            run.start,
            run.end,
        ) >= params.min_voiced_frames {
            seq![Span { start: run.start as nat, end: run.end as nat }]
        } else {
            Seq::empty()
        }),
        free_at(runs.push(run), runs.len() as int + 1) == run.closed,
{
    assert(runs.push(run).drop_last() =~= runs);
    assert forall|k: int| 0 <= k < runs.push(run).len() implies #[trigger] is_closed(
        params,
        speech,
        free_at(runs.push(run), k),
        runs.push(run)[k],
    ) by {
        assert(free_at(runs.push(run), k) == free_at(runs, k));
        if k < runs.len() {
            assert(is_closed(params, speech, free_at(runs, k), runs[k]));
        }
    }
    assert(worth_it(params, speech, runs.push(run)) =~= worth_it(params, speech, runs) + (
    if count(speech, run.start, run.end) >= params.min_voiced_frames {
        seq![Span { start: run.start as nat, end: run.end as nat }]
    } else {
        Seq::empty()
    }));
}

/// The whole frames of a stream have the runs that the segmenter finds.
proof fn lemma_cutting(params: EnergyParams, stream: Seq<i16>) -> (then: (
    Seq<Run>,
    Option<(int, int)>,
))
    requires
        params.valid(),
        stream.len() % 512 == 0,
    ensures
        ({
            let (cut, spans) = nothing_heard().run(params, stream);
            let speech = speech_in(params, stream);
            &&& is_cutting(params, speech, then.0, then.1)
            &&& agrees(params, cut, speech, then.0, then.1)
            &&& spans == worth_it(params, speech, then.0)
        }),
    decreases stream.len(),
{
    let speech = speech_in(params, stream);
    lemma_run(params, nothing_heard(), stream);
    if stream.len() == 0 {
        (Seq::empty(), None)
    } else {
        let last = stream.len() - 512;
        let (few, frame) = (stream.take(last), stream.skip(last));
        let (runs, open) = lemma_cutting(params, few);
        let (cut, spans) = nothing_heard().run(params, few);
        lemma_run(params, nothing_heard(), few);
        lemma_run_joined(params, nothing_heard(), few, frame);
        assert(few + frame =~= stream);
        assert(frame.take(512) =~= frame);
        assert(frame.skip(512) =~= Seq::empty());
        let (next, ended) = cut.step(params, frame);
        assert(next.run(params, Seq::empty()) == (next, Seq::<Span>::empty()));
        assert(cut.run(params, frame) == (next, ended + Seq::<Span>::empty()));
        assert(ended + Seq::<Span>::empty() =~= ended);
        lemma_speech_extends(params, few, frame);
        let i = speech.len() - 1;
        lemma_speech(params, stream, i);
        assert(frame_at(stream, i) =~= frame);
        lemma_one_more(params, cut, frame, runs, open, speech_in(params, few), speech)
    }
}

/// Samples that do not fill a frame are no frame.
proof fn lemma_whole_frames(params: EnergyParams, stream: Seq<i16>)
    ensures
        ({
            let whole = stream.take((stream.len() / 512 * 512) as int);
            &&& whole.len() % 512 == 0
            &&& speech_in(params, whole) == speech_in(params, stream)
            &&& nothing_heard().run(params, stream) == nothing_heard().run(params, whole)
        }),
{
    let n = (stream.len() / 512 * 512) as int;
    let (whole, rest) = (stream.take(n), stream.skip(n));
    lemma_run_whole(params, nothing_heard(), stream);
    lemma_speech_extends(params, whole, rest);
    assert(whole + rest =~= stream);
    assert(speech_in(params, stream).take(speech_in(params, whole).len() as int) =~= speech_in(
        params,
        stream,
    ));
}

/// An utterance is what its frames make of a stream, told by the clock.
pub open spec fn holds(utterance: Utterance, stream: Seq<i16>, span: Span) -> bool {
    &&& span.start < span.end
    &&& 512 * span.end <= stream.len()
    &&& utterance.pcm@ == stream.subrange(512 * span.start as int, 512 * span.end as int)
    &&& utterance.t0_ms == 32 * span.start
    &&& utterance.t1_ms == 32 * span.end
}

/// What a new segmenter hands out while a stream is pushed, however that is cut into
/// chunks, follows from which of its frames are speech: it is the runs of speech that
/// are over, but for those with too little speech in them, each with its frames and
/// its times, and in order.
pub proof fn law_utterances_follow_from_the_speech(
    first: EnergySegmenter,
    chunks: Seq<Seq<i16>>,
    states: Seq<EnergySegmenter>,
    found: Seq<Vec<Utterance>>,
) -> (cutting: (Seq<Run>, Option<(int, int)>))
    requires
        first.wf(),
        first@ == Segmentation::fresh(),
        feeds(first, chunks, states, found),
        32 * (all_samples(chunks).len() / 512) <= u64::MAX,
    ensures
        ({
            let stream = all_samples(chunks);
            let speech = speech_in(first.params(), stream);
            let spans = worth_it(first.params(), speech, cutting.0);
            let utterances = all_utterances(found);
            &&& is_cutting(first.params(), speech, cutting.0, cutting.1)
            &&& utterances.len() == spans.len()
            &&& forall|i: int|
                0 <= i < spans.len() ==> holds(#[trigger] utterances[i], stream, spans[i])
        }),
{
    let params = first.params();
    let stream = all_samples(chunks);
    let fresh = Segmentation::fresh();
    let (heard, spans) = fresh.push(params, stream);
    first.lemma_wf();
    lemma_feeds(first, chunks, states, found);
    assert(fresh.partial + stream =~= stream);
    lemma_whole_frames(params, stream);
    let whole = stream.take((stream.len() / 512 * 512) as int);
    let cutting = lemma_cutting(params, whole);
    law_utterances_are_in_order(params, fresh, stream);
    lemma_run(params, fresh.cut, whole);
    assert(whole.take((whole.len() / 512 * 512) as int) =~= whole);
    assert(heard.cut.framed =~= whole);
    let utterances = all_utterances(found);
    assert forall|i: int| 0 <= i < spans.len() implies holds(
        #[trigger] utterances[i],
        stream,
        spans[i],
    ) by {
        let span = spans[i];
        assert(utterances[i].is_cut(heard.cut.framed, span));
        lemma_clock_counts(span.start, stream.len() / 512);
        lemma_clock_counts(span.end, stream.len() / 512);
        assert(span_samples(whole, span) =~= stream.subrange(512 * span.start as int, 512 * span.end as int));
    }
    cutting
}

/// The spans that a stream and its end make are those of its runs, and that of the
/// run which is not over.
proof fn lemma_to_the_end(params: EnergyParams, pushed: Seq<i16>) -> (cutting: (
    Seq<Run>,
    Option<(int, int)>,
    int,
))
    requires
        params.valid(),
    ensures
        ({
            let (heard, spans_pushed) = Segmentation::fresh().push(params, pushed);
            let all = spans_pushed + heard.flush(params).1;
            let speech = speech_in(params, padded_stream(pushed));
            let n = speech.len() as int;
            let (runs, open, end) = cutting;
            let closed = worth_it(params, speech, runs);
            &&& is_cutting(params, speech, runs, open)
            &&& match open {
                None => all == closed,
                Some((onset, start)) => {
                    &&& 0 <= start <= onset < end <= n
                    &&& speech[end - 1]
                    &&& quiet(speech, end, n)
                    &&& all == if count(speech, start, n) >= params.min_voiced_frames {
                        closed.push(Span { start: start as nat, end: end as nat })
                    } else {
                        closed
                    }
                },
            }
        }),
{
    let stream = padded_stream(pushed);
    let fresh = Segmentation::fresh();
    let (heard, spans_pushed) = fresh.push(params, pushed);
    let (ended, spans_ended) = heard.flush(params);
    lemma_ended(params, pushed);
    assert(fresh.partial + pushed =~= pushed);
    lemma_whole_frames(params, pushed);
    let whole = pushed.take((pushed.len() / 512 * 512) as int);
    let (cut, spans) = nothing_heard().run(params, stream);
    let (middle, spans_middle) = if heard.partial.len() == 0 {
        (heard.cut, Seq::<Span>::empty())
    } else {
        heard.cut.step(params, padded(heard.partial))
    };
    if heard.partial.len() == 0 {
        assert(stream =~= whole);
        assert(spans_pushed + spans_middle =~= spans_pushed);
    } else {
        let frame = padded(heard.partial);
        lemma_run_joined(params, nothing_heard(), whole, frame);
        assert(whole + frame =~= stream);
        assert(frame.take(512) =~= frame);
        assert(frame.skip(512) =~= Seq::empty());
        assert(middle.run(params, Seq::empty()) == (middle, Seq::<Span>::empty()));
        assert(heard.cut.run(params, frame) == (middle, spans_middle + Seq::<Span>::empty()));
        assert(spans_middle + Seq::<Span>::empty() =~= spans_middle);
    }
    assert(cut == middle);
    assert(spans == spans_pushed + spans_middle);
    let (runs, open) = lemma_cutting(params, stream);
    let all = spans_pushed + spans_ended;
    let tail = middle.end(params).1;
    assert(spans_ended =~= spans_middle + tail);
    assert(all =~= spans + tail);
    let speech = speech_in(params, stream);
    match open {
        None => {
            assert(all =~= spans);
            (runs, open, 0)
        },
        Some((onset, start)) => {
            let end = speech.len() - middle.open->0.silent;
            assert(all =~= if count(speech, start, speech.len() as int)
                >= params.min_voiced_frames {
                spans.push(Span { start: start as nat, end: end as nat })
            } else {
                spans
            });
            (runs, open, end)
        },
    }
}

/// What was handed out over a stream and at its end are the frames of its spans.
proof fn lemma_all_held(
    first: EnergySegmenter,
    chunks: Seq<Seq<i16>>,
    states: Seq<EnergySegmenter>,
    found: Seq<Vec<Utterance>>,
    after: EnergySegmenter,
    last: Result<Vec<Utterance>, VadError>,
)
    requires
        first.wf(),
        first@ == Segmentation::fresh(),
        feeds(first, chunks, states, found),
        fed(first, states).flush_outcome(&after, last),
        32 * (padded_stream(all_samples(chunks)).len() / 512) <= u64::MAX,
    ensures
        last is Ok,
        ({
            let stream = padded_stream(all_samples(chunks));
            let (heard, spans_pushed) = Segmentation::fresh().push(
                first.params(),
                all_samples(chunks),
            );
            let all = spans_pushed + heard.flush(first.params()).1;
            let utterances = all_utterances(found) + last->Ok_0@;
            &&& utterances.len() == all.len()
            &&& forall|i: int|
                0 <= i < all.len() ==> holds(#[trigger] utterances[i], stream, all[i])
        }),
{
    let params = first.params();
    let pushed = all_samples(chunks);
    let stream = padded_stream(pushed);
    let (heard, spans_pushed) = Segmentation::fresh().push(params, pushed);
    let (ended, spans_ended) = heard.flush(params);
    first.lemma_wf();
    lemma_feeds(first, chunks, states, found);
    lemma_ended(params, pushed);
    let all = spans_pushed + spans_ended;
    let utterances = all_utterances(found) + last->Ok_0@;
    let more = stream.skip(heard.cut.framed.len() as int);
    assert(heard.cut.framed + more =~= stream);
    lemma_are_cut_extends(all_utterances(found), heard.cut.framed, more, spans_pushed);
    assert forall|i: int| 0 <= i < all.len() implies holds(
        #[trigger] utterances[i],
        stream,
        all[i],
    ) by {
        let span = all[i];
        if i < spans_pushed.len() {
            assert(all_utterances(found)[i].is_cut(stream, spans_pushed[i]));
        } else {
            assert(last->Ok_0@[i - spans_pushed.len()].is_cut(
                stream,
                spans_ended[i - spans_pushed.len()],
            ));
        }
        assert(utterances[i].is_cut(stream, span));
        lemma_clock_counts(span.start, stream.len() / 512);
        lemma_clock_counts(span.end, stream.len() / 512);
    }
}

/// No speech is lost at the end: the end of audio fills up the last frame with
/// silence, and hands out the run that is not over, if it has as much speech as the
/// bounds ask for, from its start to its last frame of speech. So everything that a
/// segmenter hands out over a stream, to its end, follows from which frames are
/// speech.
pub proof fn law_the_end_hands_out_the_open_run(
    first: EnergySegmenter,
    chunks: Seq<Seq<i16>>,
    states: Seq<EnergySegmenter>,
    found: Seq<Vec<Utterance>>,
    after: EnergySegmenter,
    last: Result<Vec<Utterance>, VadError>,
) -> (cutting: (Seq<Run>, Option<(int, int)>, int))
    requires
        first.wf(),
        first@ == Segmentation::fresh(),
        feeds(first, chunks, states, found),
        fed(first, states).flush_outcome(&after, last),
        32 * (padded_stream(all_samples(chunks)).len() / 512) <= u64::MAX,
    ensures
        last is Ok,
        ({
            let stream = padded_stream(all_samples(chunks));
            let speech = speech_in(first.params(), stream);
            let n = speech.len() as int;
            let (runs, open, end) = cutting;
            let closed = worth_it(first.params(), speech, runs);
            let utterances = all_utterances(found) + last->Ok_0@;
            &&& is_cutting(first.params(), speech, runs, open)
            &&& forall|i: int|
                0 <= i < closed.len() ==> holds(#[trigger] utterances[i], stream, closed[i])
            &&& match open {
                None => utterances.len() == closed.len(),
                Some((onset, start)) => {
                    &&& onset < end <= n
                    &&& speech[end - 1]
                    &&& quiet(speech, end, n)
                    &&& if count(speech, start, n) >= first.params().min_voiced_frames {
                        &&& utterances.len() == closed.len() + 1
                        &&& holds(
                            utterances.last(),
                            stream,
                            Span { start: start as nat, end: end as nat },
                        )
                    } else {
                        utterances.len() == closed.len()
                    }
                },
            }
        }),
{
    let params = first.params();
    let stream = padded_stream(all_samples(chunks));
    let speech = speech_in(params, stream);
    first.lemma_wf();
    lemma_all_held(first, chunks, states, found, after, last);
    let (runs, open, end) = lemma_to_the_end(params, all_samples(chunks));
    let (heard, spans_pushed) = Segmentation::fresh().push(params, all_samples(chunks));
    let all = spans_pushed + heard.flush(params).1;
    let closed = worth_it(params, speech, runs);
    let utterances = all_utterances(found) + last->Ok_0@;
    assert forall|i: int| 0 <= i < closed.len() implies holds(
        #[trigger] utterances[i],
        stream,
        closed[i],
    ) by {
        assert(all[i] == closed[i]);
    }
    if all.len() > 0 {
        assert(holds(utterances[all.len() - 1], stream, all[all.len() - 1]));
    }
    (runs, open, end)
}

/// Where each worthwhile span comes from.
proof fn lemma_worth_from(params: EnergyParams, speech: Seq<bool>, runs: Seq<Run>, i: int) -> (k:
    int)
    requires
        0 <= i < worth_it(params, speech, runs).len(),
        forall|k: int|
            0 <= k < runs.len() ==> 0 <= (#[trigger] runs[k]).start && 0 <= runs[k].end,
    ensures
        0 <= k < runs.len(),
        worth_it(params, speech, runs)[i].start == runs[k].start,
        worth_it(params, speech, runs)[i].end == runs[k].end,
        count(speech, runs[k].start, runs[k].end) >= params.min_voiced_frames,
    decreases runs.len(),
{
    let earlier = worth_it(params, speech, runs.drop_last());
    assert forall|k: int| 0 <= k < runs.drop_last().len() implies 0 <= (
    #[trigger] runs.drop_last()[k]).start && 0 <= runs.drop_last()[k].end by {
        assert(runs.drop_last()[k] == runs[k]);
    }
    if i < earlier.len() {
        let k = lemma_worth_from(params, speech, runs.drop_last(), i);
        assert(runs.drop_last()[k] == runs[k]);
        k
    } else {
        runs.len() - 1
    }
}

/// Where each run with enough speech goes to.
proof fn lemma_worth_to(params: EnergyParams, speech: Seq<bool>, runs: Seq<Run>, k: int) -> (i:
    int)
    requires
        0 <= k < runs.len(),
        count(speech, runs[k].start, runs[k].end) >= params.min_voiced_frames,
        0 <= runs[k].start,
        0 <= runs[k].end,
    ensures
        0 <= i < worth_it(params, speech, runs).len(),
        worth_it(params, speech, runs)[i].start == runs[k].start,
        worth_it(params, speech, runs)[i].end == runs[k].end,
    decreases runs.len(),
{
    if k < runs.len() - 1 {
        assert(runs.drop_last()[k] == runs[k]);
        lemma_worth_to(params, speech, runs.drop_last(), k)
    } else {
        worth_it(params, speech, runs.drop_last()).len() as int
    }
}

/// A pause shorter than the hangover does not split an utterance, and a longer one
/// does: of an utterance handed out while a stream is pushed that is not at its
/// bound, the `hangover_frames` frames after it are all quiet; and after its first
/// frame of speech no utterance holds so many quiet frames in a row.
pub proof fn law_only_a_long_pause_splits(
    first: EnergySegmenter,
    chunks: Seq<Seq<i16>>,
    states: Seq<EnergySegmenter>,
    found: Seq<Vec<Utterance>>,
    i: int,
) -> (onset: int)
    requires
        first.wf(),
        first@ == Segmentation::fresh(),
        feeds(first, chunks, states, found),
        32 * (all_samples(chunks).len() / 512) <= u64::MAX,
        0 <= i < all_utterances(found).len(),
    ensures
        ({
            let speech = speech_in(first.params(), all_samples(chunks));
            let hangover = first.params().hangover_frames as int;
            let start = all_utterances(found)[i].t0_ms as int / 32;
            let end = all_utterances(found)[i].t1_ms as int / 32;
            &&& start <= onset < end <= speech.len()
            &&& speech[onset]
            &&& quiet(speech, start, onset)
            &&& end - start < first.params().max_frames ==> pauses(speech, end, hangover)
                && speech[end - 1]
            &&& forall|j: int|
                onset < j && j + hangover <= end ==> !#[trigger] pauses(speech, j, hangover)
        }),
{
    let params = first.params();
    let speech = speech_in(params, all_samples(chunks));
    let (runs, open) = law_utterances_follow_from_the_speech(first, chunks, states, found);
    first.lemma_wf();
    assert(holds(
        all_utterances(found)[i],
        all_samples(chunks),
        worth_it(params, speech, runs)[i],
    ));
    lemma_spans_pause(params, speech, runs, open, i)
}

/// The same of the spans of runs.
proof fn lemma_spans_pause(
    params: EnergyParams,
    speech: Seq<bool>,
    runs: Seq<Run>,
    open: Option<(int, int)>,
    i: int,
) -> (onset: int)
    requires
        params.valid(),
        is_cutting(params, speech, runs, open),
        0 <= i < worth_it(params, speech, runs).len(),
    ensures
        ({
            let hangover = params.hangover_frames as int;
            let start = worth_it(params, speech, runs)[i].start as int;
            let end = worth_it(params, speech, runs)[i].end as int;
            &&& start <= onset < end <= speech.len()
            &&& speech[onset]
            &&& quiet(speech, start, onset)
            &&& end - start < params.max_frames ==> pauses(speech, end, hangover) && speech[end
                - 1]
            &&& forall|j: int|
                onset < j && j + hangover <= end ==> !#[trigger] pauses(speech, j, hangover)
        }),
{
    assert forall|k: int| 0 <= k < runs.len() implies 0 <= (#[trigger] runs[k]).start && 0
        <= runs[k].end by {
        assert(is_closed(params, speech, free_at(runs, k), runs[k]));
        lemma_run_shape(params, speech, free_at(runs, k), runs[k]);
    }
    let k = lemma_worth_from(params, speech, runs, i);
    let run = runs[k];
    assert(is_closed(params, speech, free_at(runs, k), run));
    lemma_run_shape(params, speech, free_at(runs, k), run);
    lemma_pauses(params, speech, free_at(runs, k), run);
    run.onset
}

/// The shape of a run that is over.
proof fn lemma_run_shape(params: EnergyParams, speech: Seq<bool>, free: int, run: Run)
    requires
        params.valid(),
        is_closed(params, speech, free, run),
    ensures
        0 <= free <= run.start <= run.onset < run.end <= run.closed <= speech.len(),
        quiet(speech, run.end, run.closed),
        run.end - run.start <= params.max_frames,
        run.end - run.start < params.max_frames ==> run.closed == run.end + params.hangover_frames
            && speech[run.end - 1],
{
    let hangover = params.hangover_frames as int;
    if quiet(speech, run.closed - hangover, run.closed) {
        if run.closed - hangover <= run.onset {
            assert(!speech[run.onset]);
        }
        if run.closed - hangover - 1 > run.onset && !speech[run.closed - hangover - 1] {
            assert(quiet(speech, run.closed - 1 - hangover, run.closed - 1));
            assert(is_over(params, speech, run.start, run.closed - 1));
        }
    }
    if run.closed - 1 > run.onset {
        assert(!is_over(params, speech, run.start, run.closed - 1));
    }
}

/// A run that is over holds no long pause.
proof fn lemma_pauses(params: EnergyParams, speech: Seq<bool>, free: int, run: Run)
    requires
        params.valid(),
        is_closed(params, speech, free, run),
    ensures
        run.end - run.start < params.max_frames ==> pauses(
            speech,
            run.end,
            params.hangover_frames as int,
        ),
        forall|j: int|
            run.onset < j && j + params.hangover_frames <= run.end ==> !#[trigger] pauses(
                speech,
                j,
                params.hangover_frames as int,
            ),
        quiet(speech, run.start, run.onset),
{
    lemma_run_shape(params, speech, free, run);
    assert forall|j: int| run.onset < j && j + params.hangover_frames <= run.end implies !(
    #[trigger] pauses(speech, j, params.hangover_frames as int)) by {
        let heard = j + params.hangover_frames;
        if heard < run.closed {
            assert(!is_over(params, speech, run.start, heard));
            assert(heard - params.hangover_frames == j);
        } else {
            assert(heard == run.closed && run.end == run.closed);
        }
    }
}

/// Every frame of speech belongs to a run.
proof fn lemma_speech_in_a_run(
    params: EnergyParams,
    speech: Seq<bool>,
    runs: Seq<Run>,
    open: Option<(int, int)>,
    k: int,
    i: int,
) -> (which: int)
    requires
        params.valid(),
        is_cutting(params, speech, runs, open),
        0 <= k <= runs.len(),
        0 <= i < free_at(runs, k),
        i < speech.len(),
        speech[i],
    ensures
        0 <= which < k,
        runs[which].start <= i < runs[which].end,
    decreases k,
{
    let run = runs[k - 1];
    assert(is_closed(params, speech, free_at(runs, k - 1), run));
    lemma_run_shape(params, speech, free_at(runs, k - 1), run);
    if i < free_at(runs, k - 1) {
        lemma_speech_in_a_run(params, speech, runs, open, k - 1, i)
    } else {
        k - 1
    }
}

/// No speech is lost over a stream: each frame of speech is in an utterance that was
/// handed out by the end, unless it is in a run with less speech than the bounds ask
/// for, before and after which there is a pause, the edge of the stream, or another
/// run at its bound.
pub proof fn law_no_speech_is_lost(
    first: EnergySegmenter,
    chunks: Seq<Seq<i16>>,
    states: Seq<EnergySegmenter>,
    found: Seq<Vec<Utterance>>,
    after: EnergySegmenter,
    last: Result<Vec<Utterance>, VadError>,
    frame: int,
)
    requires
        first.wf(),
        first@ == Segmentation::fresh(),
        feeds(first, chunks, states, found),
        fed(first, states).flush_outcome(&after, last),
        32 * (padded_stream(all_samples(chunks)).len() / 512) <= u64::MAX,
        0 <= frame < speech_in(first.params(), padded_stream(all_samples(chunks))).len(),
        speech_in(first.params(), padded_stream(all_samples(chunks)))[frame],
    ensures
        last is Ok,
        ({
            let speech = speech_in(first.params(), padded_stream(all_samples(chunks)));
            let utterances = all_utterances(found) + last->Ok_0@;
            ||| exists|i: int|
                0 <= i < utterances.len() && (#[trigger] utterances[i]).t0_ms <= 32 * frame
                    && 32 * frame < utterances[i].t1_ms
            ||| exists|start: int, end: int|
                start <= frame < end && #[trigger] count(speech, start, end)
                    < first.params().min_voiced_frames && (quiet(
                    speech,
                    end,
                    end + first.params().hangover_frames,
                ) || end - start == first.params().max_frames || quiet(
                    speech,
                    end,
                    speech.len() as int,
                ))
        }),
{
    let params = first.params();
    let stream = padded_stream(all_samples(chunks));
    let speech = speech_in(params, stream);
    let n = speech.len() as int;
    let (runs, open, end) = law_the_end_hands_out_the_open_run(
        first,
        chunks,
        states,
        found,
        after,
        last,
    );
    first.lemma_wf();
    let closed = worth_it(params, speech, runs);
    let utterances = all_utterances(found) + last->Ok_0@;
    let free = free_at(runs, runs.len() as int);
    if frame < free {
        let k = lemma_speech_in_a_run(params, speech, runs, open, runs.len() as int, frame);
        let run = runs[k];
        assert(is_closed(params, speech, free_at(runs, k), run));
        lemma_run_shape(params, speech, free_at(runs, k), run);
        if count(speech, run.start, run.end) >= params.min_voiced_frames {
            let i = lemma_worth_to(params, speech, runs, k);
            assert(holds(utterances[i], stream, closed[i]));
            assert(utterances[i].t0_ms <= 32 * frame);
        } else {
            assert(count(speech, run.start, run.end) < params.min_voiced_frames);
        }
    } else {
        match open {
            None => {},
            Some((onset, start)) => {
                lemma_count_of_quiet(speech, start, end, n);
                if frame >= end {
                    assert(!speech[frame]);
                }
                if count(speech, start, n) >= params.min_voiced_frames {
                    assert(holds(
                        utterances[utterances.len() - 1],
                        stream,
                        Span { start: start as nat, end: end as nat },
                    ));
                } else {
                    assert(count(speech, start, end) < params.min_voiced_frames);
                }
            },
        }
    }
}

} // verus!
