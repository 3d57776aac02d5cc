//! What holds of every energy segmenter, and of all the utterances that it hands
//! out over a stream.
use vstd::prelude::*;
use crate::segmentation::{acceptable, all_acceptable, frame_at, in_order, law_chunked_delivery_matches_one_shot, law_utterances_are_acceptable, law_utterances_are_in_order, lemma_run, lemma_step, padded, remainder, span_samples, voiced_in, Segmentation, Span};
use crate::vad::{are_cut, countable, frame_ms, lemma_are_cut_extends, ms, said, EnergyParams, EnergySegmenter, Segmenter, Utterance, UtteranceView, VadError, FRAME_MS, FRAME_SAMPLES};

verus! {

/// An utterance of whole frames, no more than the bounds allow, with as many
/// frames of speech as they ask for.
pub open spec fn is_worthwhile(params: EnergyParams, utterance: UtteranceView) -> bool {
    let frames = utterance.pcm.len() / FRAME_SAMPLES as nat;
    &&& utterance.pcm.len() == frames * FRAME_SAMPLES
    &&& 0 < frames <= params.max_frames
    &&& voiced_in(params, utterance.pcm, 0, frames as int) >= params.min_voiced_frames
}

proof fn lemma_voiced_in_span(params: EnergyParams, stream: Seq<i16>, span: Span, end: int)
    requires
        span.start <= end <= span.end,
        span.end * FRAME_SAMPLES <= stream.len(),
    ensures
        voiced_in(params, span_samples(stream, span), 0, end - span.start) == voiced_in(
            params,
            stream,
            span.start as int,
            end,
        ),
    decreases end - span.start,
{
    if end > span.start {
        lemma_voiced_in_span(params, stream, span, end - 1);
        assert(frame_at(span_samples(stream, span), end - 1 - span.start) =~= frame_at(
            stream,
            end - 1,
        ));
    }
}

/// What the acceptable spans of a stream make is worthwhile.
proof fn lemma_worthwhile(
    params: EnergyParams,
    utterances: Seq<Utterance>,
    stream: Seq<i16>,
    spans: Seq<Span>,
)
    requires
        are_cut(utterances, stream, spans),
        all_acceptable(params, stream, spans),
        forall|i: int|
            0 <= i < spans.len() ==> (#[trigger] spans[i]).end * FRAME_SAMPLES <= stream.len(),
    ensures
        forall|i: int|
            0 <= i < utterances.len() ==> is_worthwhile(params, (#[trigger] utterances[i])@),
{
    assert forall|i: int| 0 <= i < utterances.len() implies is_worthwhile(
        params,
        (#[trigger] utterances[i])@,
    ) by {
        let span = spans[i];
        assert(utterances[i].is_cut(stream, span));
        assert(acceptable(params, stream, span));
        lemma_voiced_in_span(params, stream, span, span.end as int);
    }
}

/// Whatever a segmenter has heard, feeding it samples succeeds, and every utterance
/// that it hands out is of whole frames, no more than `max_frames` of them, with
/// at least `min_voiced_frames` of speech.
pub proof fn law_pushed_utterances_are_worthwhile(
    segmenter: EnergySegmenter,
    pcm: Seq<i16>,
    after: EnergySegmenter,
    found: Result<Vec<Utterance>, VadError>,
)
    requires
        segmenter.wf(),
        segmenter.push_outcome(pcm, &after, found),
    ensures
        found matches Ok(utterances) && forall|i: int|
            0 <= i < utterances@.len() ==> is_worthwhile(
                segmenter.params(),
                (#[trigger] utterances@[i])@,
            ),
{
    let params = segmenter.params();
    let (heard, spans) = segmenter@.push(params, pcm);
    segmenter.lemma_wf();
    law_utterances_are_acceptable(params, segmenter@, pcm);
    law_utterances_are_in_order(params, segmenter@, pcm);
    lemma_worthwhile(params, found->Ok_0@, heard.cut.framed, spans);
}

/// Whatever a segmenter has heard, the end of audio succeeds with one utterance at
/// most, of whole frames, no more than `max_frames` of them, with at least
/// `min_voiced_frames` of speech. Another end of audio right after it yields none.
pub proof fn law_a_flush_ends_one_utterance_at_most(
    segmenter: EnergySegmenter,
    after: EnergySegmenter,
    found: Result<Vec<Utterance>, VadError>,
    again: EnergySegmenter,
    found_again: Result<Vec<Utterance>, VadError>,
)
    requires
        segmenter.wf(),
        segmenter.flush_outcome(&after, found),
        after.flush_outcome(&again, found_again),
    ensures
        found matches Ok(utterances) && utterances@.len() <= 1 && forall|i: int|
            0 <= i < utterances@.len() ==> is_worthwhile(
                segmenter.params(),
                (#[trigger] utterances@[i])@,
            ),
        found_again matches Ok(utterances) && utterances@.len() == 0,
{
    let params = segmenter.params();
    let (heard, spans) = segmenter@.flush(params);
    segmenter.lemma_wf();
    law_utterances_are_acceptable(params, segmenter@, Seq::empty());
    law_utterances_are_in_order(params, segmenter@, Seq::empty());
    lemma_worthwhile(params, found->Ok_0@, heard.cut.framed, spans);
}

/// Delivery in chunks matches delivery in one piece: of two segmenters that stand
/// alike, the one that is fed two parts hands out what the other does that is fed
/// both at once, and they stand alike again.
pub proof fn law_chunked_delivery_gives_the_same_utterances(
    whole: EnergySegmenter,
    chunked: EnergySegmenter,
    first: Seq<i16>,
    second: Seq<i16>,
    whole_after: EnergySegmenter,
    halfway: EnergySegmenter,
    chunked_after: EnergySegmenter,
    found: Vec<Utterance>,
    found_first: Vec<Utterance>,
    found_second: Vec<Utterance>,
)
    requires
        whole.wf(),
        whole@ == chunked@,
        whole.params() == chunked.params(),
        whole.push_outcome(first + second, &whole_after, Ok(found)),
        chunked.push_outcome(first, &halfway, Ok(found_first)),
        halfway.push_outcome(second, &chunked_after, Ok(found_second)),
    ensures
        said(found@) == said(found_first@) + said(found_second@),
        whole_after@ == chunked_after@,
        whole_after.params() == chunked_after.params(),
{
    let params = whole.params();
    let heard = whole@;
    whole.lemma_wf();
    law_chunked_delivery_matches_one_shot(params, heard, first, second);
    law_utterances_are_in_order(params, heard, first);
    let (middle, spans_first) = heard.push(params, first);
    let (last, spans_second) = middle.push(params, second);
    lemma_run(params, middle.cut, middle.partial + second);
    let samples = middle.partial + second;
    let more = samples.take(
        (samples.len() / FRAME_SAMPLES as nat * FRAME_SAMPLES as nat) as int,
    );
    lemma_are_cut_extends(found_first@, middle.cut.framed, more, spans_first);
    let stream = last.cut.framed;
    let spans = spans_first + spans_second;
    assert forall|i: int| 0 <= i < found@.len() implies said(found@)[i] == (said(found_first@)
        + said(found_second@))[i] by {
        assert(found@[i].is_cut(stream, spans[i]));
        if i < found_first@.len() {
            assert(found_first@[i].is_cut(stream, spans_first[i]));
        } else {
            assert(found_second@[i - found_first@.len()].is_cut(
                stream,
                spans_second[i - found_first@.len()],
            ));
        }
    }
    assert(said(found@) =~= said(found_first@) + said(found_second@));
}

/// The segmenter once it was fed as often as there are `states`.
pub open spec fn fed(first: EnergySegmenter, states: Seq<EnergySegmenter>) -> EnergySegmenter {
    if states.len() == 0 {
        first
    } else {
        states.last()
    }
}

/// Fed the chunks in turn, the segmenter may go through these states and hand out
/// these utterances.
pub open spec fn feeds(
    first: EnergySegmenter,
    chunks: Seq<Seq<i16>>,
    states: Seq<EnergySegmenter>,
    found: Seq<Vec<Utterance>>,
) -> bool
    decreases chunks.len(),
{
    &&& chunks.len() == states.len() == found.len()
    &&& chunks.len() > 0 ==> {
        &&& feeds(first, chunks.drop_last(), states.drop_last(), found.drop_last())
        &&& fed(first, states.drop_last()).push_outcome(
            chunks.last(),
            &states.last(),
            Ok(found.last()),
        )
    }
}

/// Every sample of the chunks.
pub open spec fn all_samples(chunks: Seq<Seq<i16>>) -> Seq<i16>
    decreases chunks.len(),
{
    if chunks.len() == 0 {
        Seq::empty()
    } else {
        all_samples(chunks.drop_last()) + chunks.last()
    }
}

/// Every utterance handed out.
pub open spec fn all_utterances(found: Seq<Vec<Utterance>>) -> Seq<Utterance>
    decreases found.len(),
{
    if found.len() == 0 {
        Seq::empty()
    } else {
        all_utterances(found.drop_last()) + found.last()@
    }
}

/// A new segmenter that is fed chunks stands where one does that is fed all their
/// samples at once, and its utterances are those.
pub proof fn lemma_feeds(
    first: EnergySegmenter,
    chunks: Seq<Seq<i16>>,
    states: Seq<EnergySegmenter>,
    found: Seq<Vec<Utterance>>,
)
    requires
        first.wf(),
        first@ == Segmentation::fresh(),
        feeds(first, chunks, states, found),
    ensures
        ({
            let (heard, spans) = Segmentation::fresh().push(first.params(), all_samples(chunks));
            &&& fed(first, states)@ == heard
            &&& fed(first, states).params() == first.params()
            &&& are_cut(all_utterances(found), heard.cut.framed, spans)
        }),
    decreases chunks.len(),
{
    let params = first.params();
    let fresh = Segmentation::fresh();
    first.lemma_wf();
    if chunks.len() == 0 {
        assert(fresh.partial + all_samples(chunks) =~= Seq::empty());
        assert(remainder(Seq::empty()) =~= Seq::<i16>::empty());
    } else {
        let before = chunks.drop_last();
        let (earlier, chunk) = (all_samples(before), chunks.last());
        lemma_feeds(first, before, states.drop_last(), found.drop_last());
        law_chunked_delivery_matches_one_shot(params, fresh, earlier, chunk);
        law_utterances_are_in_order(params, fresh, earlier);
        let (middle, spans_before) = fresh.push(params, earlier);
        let (last, spans_now) = middle.push(params, chunk);
        let samples = middle.partial + chunk;
        lemma_run(params, middle.cut, samples);
        let more = samples.take(
            (samples.len() / FRAME_SAMPLES as nat * FRAME_SAMPLES as nat) as int,
        );
        let utterances_before = all_utterances(found.drop_last());
        lemma_are_cut_extends(utterances_before, middle.cut.framed, more, spans_before);
        let utterances = all_utterances(found);
        let spans = spans_before + spans_now;
        assert forall|i: int| 0 <= i < spans.len() implies (#[trigger] utterances[i]).is_cut(
            last.cut.framed,
            spans[i],
        ) by {
            if i < spans_before.len() {
                assert(utterances_before[i].is_cut(last.cut.framed, spans_before[i]));
            } else {
                assert(found.last()@[i - spans_before.len()].is_cut(
                    last.cut.framed,
                    spans_now[i - spans_before.len()],
                ));
            }
        }
    }
}

/// The utterances of a stream are the stream itself: each holds the samples that
/// were pushed from its start to its end, by the clock from the start of the
/// stream, whose times are whole frames; they come in the order of time and never
/// overlap. The stream is one whose milliseconds 64 bits can count.
pub proof fn law_utterances_are_the_stream_at_their_times(
    first: EnergySegmenter,
    chunks: Seq<Seq<i16>>,
    states: Seq<EnergySegmenter>,
    found: Seq<Vec<Utterance>>,
)
    requires
        first.wf(),
        first@ == Segmentation::fresh(),
        feeds(first, chunks, states, found),
        countable(all_samples(chunks).len() / FRAME_SAMPLES as nat),
    ensures
        forall|i: int|
            0 <= i < all_utterances(found).len() ==> {
                let utterance = #[trigger] all_utterances(found)[i];
                &&& utterance.t0_ms < utterance.t1_ms
                &&& utterance.t0_ms % FRAME_MS == 0
                &&& utterance.t1_ms % FRAME_MS == 0
                &&& 16 * utterance.t1_ms <= all_samples(chunks).len()
                &&& utterance.pcm@ == all_samples(chunks).subrange(
                    16 * utterance.t0_ms,
                    16 * utterance.t1_ms,
                )
            },
        forall|i: int, j: int|
            0 <= i < j < all_utterances(found).len() ==> (#[trigger] all_utterances(found)[i]).t1_ms
                <= (#[trigger] all_utterances(found)[j]).t0_ms,
{
    let params = first.params();
    let fresh = Segmentation::fresh();
    let stream = all_samples(chunks);
    let utterances = all_utterances(found);
    let (heard, spans) = fresh.push(params, stream);
    first.lemma_wf();
    lemma_feeds(first, chunks, states, found);
    law_utterances_are_in_order(params, fresh, stream);
    assert(fresh.partial + stream =~= stream);
    lemma_run(params, fresh.cut, stream);
    let whole = (stream.len() / FRAME_SAMPLES as nat * FRAME_SAMPLES as nat) as int;
    assert(heard.cut.framed =~= stream.take(whole));
    assert forall|i: int| 0 <= i < utterances.len() implies {
        let utterance = #[trigger] utterances[i];
        &&& utterance.t0_ms == spans[i].start * 32
        &&& utterance.t1_ms == spans[i].end * 32
        &&& utterance.t0_ms < utterance.t1_ms
        &&& utterance.t0_ms % FRAME_MS == 0
        &&& utterance.t1_ms % FRAME_MS == 0
        &&& 16 * utterance.t1_ms <= stream.len()
        &&& utterance.pcm@ == stream.subrange(16 * utterance.t0_ms, 16 * utterance.t1_ms)
    } by {
        let (span, utterance) = (spans[i], utterances[i]);
        assert(utterance.is_cut(heard.cut.framed, span));
        lemma_clock_counts(span.start, stream.len() / FRAME_SAMPLES as nat);
        lemma_clock_counts(span.end, stream.len() / FRAME_SAMPLES as nat);
        assert(span_samples(heard.cut.framed, span) =~= stream.subrange(
            16 * utterance.t0_ms,
            16 * utterance.t1_ms,
        ));
    }
    assert forall|i: int, j: int| 0 <= i < j < utterances.len() implies (
    #[trigger] utterances[i]).t1_ms <= (#[trigger] utterances[j]).t0_ms by {
        assert(spans[i].end <= spans[j].start);
    }
}

/// A stream with its last, incomplete frame filled up with silence.
pub open spec fn padded_stream(stream: Seq<i16>) -> Seq<i16> {
    if stream.len() % FRAME_SAMPLES as nat == 0 {
        stream
    } else {
        stream + Seq::new(
            (FRAME_SAMPLES - stream.len() % FRAME_SAMPLES as nat) as nat,
            |i: int| 0i16,
        )
    }
}

/// What the end of audio makes of the samples of a stream.
pub proof fn lemma_ended(params: EnergyParams, stream: Seq<i16>)
    requires
        params.valid(),
    ensures
        ({
            let (heard, spans) = Segmentation::fresh().push(params, stream);
            let (ended, last) = heard.flush(params);
            &&& ended.cut.framed == padded_stream(stream)
            &&& heard.cut.framed == stream.take(heard.cut.framed.len() as int)
            &&& heard.cut.framed.len() <= stream.len()
            &&& in_order(spans, 0, heard.cut.reach())
            &&& in_order(last, heard.cut.reach(), ended.cut.reach())
            &&& heard.cut.reach() * FRAME_SAMPLES <= heard.cut.framed.len()
            &&& ended.cut.reach() * FRAME_SAMPLES <= ended.cut.framed.len()
            &&& last.len() <= 1
        }),
{
    let fresh = Segmentation::fresh();
    let (heard, spans) = fresh.push(params, stream);
    law_utterances_are_in_order(params, fresh, stream);
    law_utterances_are_in_order(params, heard, Seq::empty());
    assert(fresh.partial + stream =~= stream);
    lemma_run(params, fresh.cut, stream);
    let whole = (stream.len() / FRAME_SAMPLES as nat * FRAME_SAMPLES as nat) as int;
    assert(heard.cut.framed =~= stream.take(whole));
    assert(heard.partial == stream.skip(whole));
    if heard.partial.len() > 0 {
        lemma_step(params, heard.cut, padded(heard.partial));
        assert(heard.cut.framed + padded(heard.partial) =~= padded_stream(stream));
    } else {
        assert(heard.cut.framed =~= padded_stream(stream));
    }
}

/// The same of a whole stream, to its end: of the utterances handed out while a
/// stream was pushed and the one that its end hands out, each holds the samples of
/// the stream, filled up with silence to a whole frame, from its start to its end by
/// the clock; the times are whole frames; and they come in the order of time and
/// never overlap. The end hands out one at most.
pub proof fn law_utterances_are_the_whole_stream_at_their_times(
    first: EnergySegmenter,
    chunks: Seq<Seq<i16>>,
    states: Seq<EnergySegmenter>,
    found: Seq<Vec<Utterance>>,
    after: EnergySegmenter,
    last: Result<Vec<Utterance>, VadError>,
)
    requires
        first.wf(),
        first@ == Segmentation::fresh(),
        feeds(first, chunks, states, found),
        fed(first, states).flush_outcome(&after, last),
        countable(padded_stream(all_samples(chunks)).len() / FRAME_SAMPLES as nat),
    ensures
        last matches Ok(ended) && ended@.len() <= 1 && ({
            let stream = padded_stream(all_samples(chunks));
            let utterances = all_utterances(found) + ended@;
            &&& forall|i: int|
                0 <= i < utterances.len() ==> {
                    let utterance = #[trigger] utterances[i];
                    &&& utterance.t0_ms < utterance.t1_ms
                    &&& utterance.t0_ms % FRAME_MS == 0
                    &&& utterance.t1_ms % FRAME_MS == 0
                    &&& 16 * utterance.t1_ms <= stream.len()
                    &&& utterance.pcm@ == stream.subrange(
                        16 * utterance.t0_ms,
                        16 * utterance.t1_ms,
                    )
                }
            &&& forall|i: int, j: int|
                0 <= i < j < utterances.len() ==> (#[trigger] utterances[i]).t1_ms <= (
                #[trigger] utterances[j]).t0_ms
        }),
{
    let params = first.params();
    let pushed = all_samples(chunks);
    let stream = padded_stream(pushed);
    let (heard, spans_pushed) = Segmentation::fresh().push(params, pushed);
    let (ended, spans_ended) = heard.flush(params);
    first.lemma_wf();
    lemma_feeds(first, chunks, states, found);
    lemma_ended(params, pushed);
    let spans = spans_pushed + spans_ended;
    let utterances = all_utterances(found) + last->Ok_0@;
    let more = stream.skip(heard.cut.framed.len() as int);
    assert(heard.cut.framed + more =~= stream);
    lemma_are_cut_extends(all_utterances(found), heard.cut.framed, more, spans_pushed);
    assert forall|i: int| 0 <= i < utterances.len() implies {
        let utterance = #[trigger] utterances[i];
        &&& utterance.t0_ms == spans[i].start * 32
        &&& utterance.t1_ms == spans[i].end * 32
        &&& utterance.t0_ms < utterance.t1_ms
        &&& utterance.t0_ms % FRAME_MS == 0
        &&& utterance.t1_ms % FRAME_MS == 0
        &&& 16 * utterance.t1_ms <= stream.len()
        &&& utterance.pcm@ == stream.subrange(16 * utterance.t0_ms, 16 * utterance.t1_ms)
    } by {
        let (span, utterance) = (spans[i], utterances[i]);
        if i < spans_pushed.len() {
            assert(all_utterances(found)[i].is_cut(stream, spans_pushed[i]));
        } else {
            assert(last->Ok_0@[i - spans_pushed.len()].is_cut(
                stream,
                spans_ended[i - spans_pushed.len()],
            ));
        }
        assert(utterance.is_cut(stream, span));
        lemma_clock_counts(span.start, stream.len() / FRAME_SAMPLES as nat);
        lemma_clock_counts(span.end, stream.len() / FRAME_SAMPLES as nat);
    }
    assert forall|i: int, j: int| 0 <= i < j < utterances.len() implies (
    #[trigger] utterances[i]).t1_ms <= (#[trigger] utterances[j]).t0_ms by {
        if i < spans_pushed.len() && j >= spans_pushed.len() {
            assert(spans_pushed[i].end <= heard.cut.reach());
            assert(heard.cut.reach() <= spans_ended[j - spans_pushed.len()].start);
        } else if j < spans_pushed.len() {
            assert(spans_pushed[i].end <= spans_pushed[j].start);
        }
    }
}

/// As long as the clock has not started again, it says the milliseconds of the
/// samples that were heard.
pub proof fn lemma_clock_counts(frames: nat, limit: nat)
    requires
        frames <= limit,
        countable(limit),
    ensures
        frame_ms(frames) == frames * FRAME_MS,
        frame_ms(frames) == ms((frames * FRAME_SAMPLES) as int),
{
    assert(frames * FRAME_MS == frames * 32);
    assert(limit * FRAME_MS == limit * 32);
    assert(frames * FRAME_SAMPLES == frames * 512);
}

} // verus!
