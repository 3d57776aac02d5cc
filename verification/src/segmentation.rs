//! What segmentation by short-term energy means.
//!
//! A stream is a sequence of samples, cut into whole frames. An utterance is a
//! [`Span`] of consecutive frames of that stream: the functions here say which
//! spans a stream yields, and the laws at the end say what holds of them.
use vstd::prelude::*;
use crate::vad::{EnergyParams, FRAME_SAMPLES};

verus! {

/// The frames from `start` up to, but not with, `end`.
pub struct Span {
    /// The first frame.
    pub start: nat,
    /// The frame after the last.
    pub end: nat,
}

/// An utterance that has begun and not ended.
pub struct Open {
    /// Its first frame.
    pub start: nat,
    /// How many of its frames are speech.
    pub voiced: nat,
    /// How many frames without speech it ends in so far.
    pub silent: nat,
}

/// Where segmentation stands after some whole frames.
#[verifier::ext_equal]
pub struct Cut {
    /// Every sample of those frames, from the start of the stream.
    pub framed: Seq<i16>,
    /// The first frame that an utterance opened now would hold.
    pub quiet_from: nat,
    /// The utterance in progress.
    pub open: Option<Open>,
}

/// The sum of the squares of the samples.
pub open spec fn energy(samples: Seq<i16>) -> int
    decreases samples.len(),
{
    if samples.len() == 0 {
        0
    } else {
        energy(samples.drop_last()) + samples.last() as int * samples.last() as int
    }
}

/// Whether a frame is loud enough to be speech.
pub open spec fn is_speech(params: EnergyParams, frame: Seq<i16>) -> bool {
    energy(frame) > params.speech_energy
}

/// Frame number `index` of a stream.
pub open spec fn frame_at(stream: Seq<i16>, index: int) -> Seq<i16> {
    stream.subrange(index * FRAME_SAMPLES, (index + 1) * FRAME_SAMPLES)
}

/// The samples that a span of a stream holds.
pub open spec fn span_samples(stream: Seq<i16>, span: Span) -> Seq<i16> {
    stream.subrange((span.start * FRAME_SAMPLES) as int, (span.end * FRAME_SAMPLES) as int)
}

/// Digital silence.
pub open spec fn silence(samples: Seq<i16>) -> bool {
    forall|i: int| 0 <= i < samples.len() ==> samples[i] == 0
}

/// How many of the frames from `start` up to `end` are speech.
pub open spec fn voiced_in(params: EnergyParams, stream: Seq<i16>, start: int, end: int) -> nat
    decreases end - start,
{
    if end <= start {
        0
    } else {
        voiced_in(params, stream, start, end - 1) + if is_speech(
            params,
            frame_at(stream, end - 1),
        ) {
            1nat
        } else {
            0nat
        }
    }
}

/// A stream of which nothing has been heard yet.
pub open spec fn nothing_heard() -> Cut {
    Cut { framed: Seq::empty(), quiet_from: 0, open: None }
}

/// An ended utterance is kept only where enough of it is speech.
pub open spec fn kept(params: EnergyParams, span: Span, voiced: nat) -> Seq<Span> {
    if voiced >= params.min_voiced_frames && span.end > span.start {
        seq![span]
    } else {
        Seq::empty()
    }
}

impl Cut {
    /// How many whole frames have been heard.
    pub open spec fn frames(self) -> nat {
        self.framed.len() / FRAME_SAMPLES as nat
    }

    /// The bounds that every operation keeps.
    pub open spec fn wf(self, params: EnergyParams) -> bool {
        &&& self.framed.len() == self.frames() * FRAME_SAMPLES
        &&& self.quiet_from <= self.frames()
        &&& self.frames() - self.quiet_from <= params.pre_roll_frames
        &&& self.open matches Some(open) ==> {
            &&& self.quiet_from == self.frames()
            &&& open.start + open.silent < self.frames()
            &&& 1 <= open.voiced <= self.frames() - open.start
        }
    }

    /// The utterance in progress has not outgrown its bound.
    pub open spec fn bounded(self, params: EnergyParams) -> bool {
        self.open matches Some(open) ==> self.frames() - open.start < params.max_frames
    }

    /// The counts are those of the frames heard: the frames in reach of the next
    /// utterance are no speech, and the utterance in progress counts the speech
    /// in it and the frames since the last of it.
    pub open spec fn counts(self, params: EnergyParams) -> bool {
        let n = self.frames() as int;
        match self.open {
            None => forall|i: int|
                self.quiet_from <= i < n ==> !is_speech(params, #[trigger] frame_at(self.framed, i)),
            Some(open) => {
                &&& open.voiced == voiced_in(params, self.framed, open.start as int, n)
                &&& is_speech(params, frame_at(self.framed, n - open.silent - 1))
                &&& forall|i: int|
                    n - open.silent <= i < n ==> !is_speech(
                        params,
                        #[trigger] frame_at(self.framed, i),
                    )
            },
        }
    }

    /// One more frame that no utterance holds: as many frames before it stay in
    /// reach of the next utterance as the pre-roll allows.
    pub open spec fn wait(self, params: EnergyParams, frame: Seq<i16>) -> Cut {
        let n = self.frames() + 1;
        let oldest = n - params.pre_roll_frames;
        Cut {
            framed: self.framed + frame,
            quiet_from: if self.quiet_from < oldest { oldest as nat } else { self.quiet_from },
            open: None,
        }
    }

    /// One more frame, which is in the utterance `open` or has just ended it.
    pub open spec fn hear(self, frame: Seq<i16>, open: Option<Open>) -> Cut {
        Cut { framed: self.framed + frame, quiet_from: self.frames() + 1, open }
    }

    /// The first frame of an utterance that this frame would begin: as far back as
    /// the frames in reach go, but no further than its bound.
    pub open spec fn onset(self, params: EnergyParams) -> nat {
        let oldest = self.frames() + 1 - params.max_frames;
        if self.quiet_from < oldest {
            oldest as nat
        } else {
            self.quiet_from
        }
    }

    /// One more frame, with which the utterance is `open`: it ends where it has been
    /// silent for long enough, without that silence, or where it is at its bound.
    pub open spec fn go_on(self, params: EnergyParams, frame: Seq<i16>, open: Open) -> (
        Cut,
        Seq<Span>,
    ) {
        let n = self.frames() + 1;
        if open.silent >= params.hangover_frames {
            let span = Span { start: open.start, end: (n - open.silent) as nat };
            (self.hear(frame, None), kept(params, span, open.voiced))
        } else if n - open.start >= params.max_frames {
            let span = Span { start: open.start, end: n };
            (self.hear(frame, None), kept(params, span, open.voiced))
        } else {
            (self.hear(frame, Some(open)), Seq::empty())
        }
    }

    /// Hear one frame: where segmentation stands then, and the utterance that
    /// the frame ended, if it ended one that is kept.
    pub open spec fn step(self, params: EnergyParams, frame: Seq<i16>) -> (Cut, Seq<Span>) {
        let speech = is_speech(params, frame);
        match self.open {
            None => if speech {
                self.go_on(
                    params,
                    frame,
                    Open { start: self.onset(params), voiced: 1, silent: 0 },
                )
            } else {
                (self.wait(params, frame), Seq::empty())
            },
            Some(open) => self.go_on(
                params,
                frame,
                if speech {
                    Open { start: open.start, voiced: open.voiced + 1, silent: 0 }
                } else {
                    Open { start: open.start, voiced: open.voiced, silent: open.silent + 1 }
                },
            ),
        }
    }

    /// Hear every whole frame that `samples` begins with.
    pub open spec fn run(self, params: EnergyParams, samples: Seq<i16>) -> (Cut, Seq<Span>)
        decreases samples.len(),
    {
        if samples.len() < FRAME_SAMPLES {
            (self, Seq::empty())
        } else {
            let (next, ended) = self.step(params, samples.take(FRAME_SAMPLES as int));
            let (last, later) = next.run(params, samples.skip(FRAME_SAMPLES as int));
            (last, ended + later)
        }
    }

    /// End the utterance in progress, without the silence it ends in.
    pub open spec fn end(self, params: EnergyParams) -> (Cut, Seq<Span>) {
        let after = Cut { framed: self.framed, quiet_from: self.frames(), open: None };
        match self.open {
            None => (after, Seq::empty()),
            Some(open) => {
                let span = Span { start: open.start, end: (self.frames() - open.silent) as nat };
                (after, kept(params, span, open.voiced))
            },
        }
    }
}

/// The samples that are left once every whole frame is taken off.
pub open spec fn remainder(samples: Seq<i16>) -> Seq<i16> {
    samples.skip((samples.len() / FRAME_SAMPLES as nat * FRAME_SAMPLES as nat) as int)
}

/// A last, incomplete frame, filled up with silence.
pub open spec fn padded(samples: Seq<i16>) -> Seq<i16> {
    samples + Seq::new((FRAME_SAMPLES - samples.len()) as nat, |i: int| 0i16)
}

/// A segmenter: the frames it has heard, and the samples that make no frame yet.
#[verifier::ext_equal]
pub struct Segmentation {
    /// Where the cutting of whole frames stands.
    pub cut: Cut,
    /// Samples heard that do not fill a frame.
    pub partial: Seq<i16>,
}

impl Segmentation {
    /// A segmenter that has heard nothing.
    pub open spec fn fresh() -> Segmentation {
        Segmentation { cut: nothing_heard(), partial: Seq::empty() }
    }

    /// Feed samples.
    pub open spec fn push(self, params: EnergyParams, pcm: Seq<i16>) -> (Segmentation, Seq<Span>) {
        let samples = self.partial + pcm;
        let (cut, ended) = self.cut.run(params, samples);
        (Segmentation { cut, partial: remainder(samples) }, ended)
    }

    /// End of audio.
    pub open spec fn flush(self, params: EnergyParams) -> (Segmentation, Seq<Span>) {
        let (cut, ended) = if self.partial.len() == 0 {
            (self.cut, Seq::empty())
        } else {
            self.cut.step(params, padded(self.partial))
        };
        let (last, open) = cut.end(params);
        (Segmentation { cut: last, partial: Seq::empty() }, ended + open)
    }

    /// The bounds that every operation keeps.
    pub open spec fn wf(self, params: EnergyParams) -> bool {
        &&& self.cut.wf(params)
        &&& self.partial.len() < FRAME_SAMPLES
    }
}

impl Cut {
    /// The first frame that an utterance may still hold.
    pub open spec fn reach(self) -> nat {
        match self.open {
            None => self.quiet_from,
            Some(open) => open.start,
        }
    }
}

/// The spans follow each other from frame `low` on without overlap, up to `high`.
pub open spec fn in_order(spans: Seq<Span>, low: nat, high: nat) -> bool {
    &&& low <= high
    &&& forall|i: int|
        0 <= i < spans.len() ==> low <= (#[trigger] spans[i]).start < spans[i].end <= high
    &&& forall|i: int, j: int|
        0 <= i < j < spans.len() ==> (#[trigger] spans[i]).end <= (#[trigger] spans[j]).start
}

/// Hearing a frame keeps the bounds, and ends at most one utterance, which lies
/// before everything that a later one can hold.
pub proof fn lemma_step(params: EnergyParams, cut: Cut, frame: Seq<i16>)
    requires
        params.valid(),
        cut.wf(params),
        frame.len() == FRAME_SAMPLES,
    ensures
        cut.step(params, frame).0.wf(params),
        cut.step(params, frame).0.framed == cut.framed + frame,
        cut.step(params, frame).0.frames() == cut.frames() + 1,
        cut.reach() <= cut.step(params, frame).0.reach(),
        in_order(cut.step(params, frame).1, cut.reach(), cut.step(params, frame).0.reach()),
{
}

/// Hearing frames keeps the bounds, and the utterances that they end follow
/// each other without overlap.
pub proof fn lemma_run(params: EnergyParams, cut: Cut, samples: Seq<i16>)
    requires
        params.valid(),
        cut.wf(params),
    ensures
        cut.run(params, samples).0.wf(params),
        cut.run(params, samples).0.framed == cut.framed + samples.take(
            (samples.len() / FRAME_SAMPLES as nat * FRAME_SAMPLES as nat) as int,
        ),
        in_order(cut.run(params, samples).1, cut.reach(), cut.run(params, samples).0.reach()),
    decreases samples.len(),
{
    let whole = (samples.len() / FRAME_SAMPLES as nat * FRAME_SAMPLES as nat) as int;
    if samples.len() < FRAME_SAMPLES {
        assert(samples.take(whole) =~= Seq::empty());
        assert(cut.framed + samples.take(whole) =~= cut.framed);
    } else {
        let first = samples.take(FRAME_SAMPLES as int);
        let rest = samples.skip(FRAME_SAMPLES as int);
        let (next, ended) = cut.step(params, first);
        lemma_step(params, cut, first);
        lemma_run(params, next, rest);
        let rest_whole = (rest.len() / FRAME_SAMPLES as nat * FRAME_SAMPLES as nat) as int;
        assert(whole == FRAME_SAMPLES + rest_whole);
        assert(first + rest.take(rest_whole) =~= samples.take(whole));
        assert(cut.framed + samples.take(whole) =~= next.framed + rest.take(rest_whole));
        lemma_in_order_joined(
            ended,
            next.run(params, rest).1,
            cut.reach(),
            next.reach(),
            next.run(params, rest).0.reach(),
        );
    }
}

proof fn lemma_in_order_joined(first: Seq<Span>, second: Seq<Span>, low: nat, middle: nat, high: nat)
    requires
        in_order(first, low, middle),
        in_order(second, middle, high),
    ensures
        in_order(first + second, low, high),
{
    let spans = first + second;
    assert forall|i: int, j: int| 0 <= i < j < spans.len() implies (#[trigger] spans[i]).end <= (
    #[trigger] spans[j]).start by {
        if i < first.len() && j >= first.len() {
            assert(spans[i] == first[i]);
            assert(spans[j] == second[j - first.len()]);
        } else if i >= first.len() {
            assert(spans[i] == second[i - first.len()]);
            assert(spans[j] == second[j - first.len()]);
        }
    }
}

/// Hearing samples in two parts is hearing them at once.
pub proof fn lemma_run_joined(params: EnergyParams, cut: Cut, first: Seq<i16>, second: Seq<i16>)
    requires
        first.len() % FRAME_SAMPLES as nat == 0,
    ensures
        ({
            let (middle, ended) = cut.run(params, first);
            let (last, later) = middle.run(params, second);
            cut.run(params, first + second) == (last, ended + later)
        }),
    decreases first.len(),
{
    let (middle, ended) = cut.run(params, first);
    let (last, later) = middle.run(params, second);
    let both = first + second;
    if first.len() == 0 {
        assert(both =~= second);
        assert(ended + later =~= later);
    } else {
        let head = first.take(FRAME_SAMPLES as int);
        let tail = first.skip(FRAME_SAMPLES as int);
        assert(both.take(FRAME_SAMPLES as int) =~= head);
        assert(both.skip(FRAME_SAMPLES as int) =~= tail + second);
        let (next, now) = cut.step(params, head);
        lemma_run_joined(params, next, tail, second);
        assert((now + next.run(params, tail).1) + later =~= now + (next.run(params, tail).1 + later));
    }
}

/// Only whole frames count: what is left over changes nothing yet.
pub proof fn lemma_run_whole(params: EnergyParams, cut: Cut, samples: Seq<i16>)
    ensures
        cut.run(params, samples) == cut.run(
            params,
            samples.take((samples.len() / FRAME_SAMPLES as nat * FRAME_SAMPLES as nat) as int),
        ),
{
    let whole = (samples.len() / FRAME_SAMPLES as nat * FRAME_SAMPLES as nat) as int;
    let first = samples.take(whole);
    let second = samples.skip(whole);
    assert(first + second =~= samples);
    lemma_run_joined(params, cut, first, second);
    let (middle, ended) = cut.run(params, first);
    assert(ended + Seq::<Span>::empty() =~= ended);
}

/// Delivery in chunks matches delivery in one piece: feeding `first` and then
/// `second` leaves the segmenter where feeding both at once does, and the
/// utterances of the two calls are, in order, those of the one.
pub proof fn law_chunked_delivery_matches_one_shot(
    params: EnergyParams,
    heard: Segmentation,
    first: Seq<i16>,
    second: Seq<i16>,
)
    ensures
        heard.push(params, first + second).0 == heard.push(params, first).0.push(params, second).0,
        heard.push(params, first + second).1 == heard.push(params, first).1 + heard.push(
            params,
            first,
        ).0.push(params, second).1,
{
    let samples = heard.partial + first;
    let whole = (samples.len() / FRAME_SAMPLES as nat * FRAME_SAMPLES as nat) as int;
    let rest = remainder(samples) + second;
    let all = heard.partial + (first + second);
    assert(all =~= samples.take(whole) + rest);
    lemma_run_whole(params, heard.cut, samples);
    lemma_run_joined(params, heard.cut, samples.take(whole), rest);
    assert(remainder(all) =~= remainder(rest)) by {
        let all_whole = (all.len() / FRAME_SAMPLES as nat * FRAME_SAMPLES as nat) as int;
        let rest_whole = (rest.len() / FRAME_SAMPLES as nat * FRAME_SAMPLES as nat) as int;
        assert(all_whole == whole + rest_whole);
    }
}

/// Utterances come out in the order of the stream and never overlap: those of
/// one call lie between the first frame that could still be held before the call
/// and the first that can be held after it.
pub proof fn law_utterances_are_in_order(params: EnergyParams, heard: Segmentation, pcm: Seq<i16>)
    requires
        params.valid(),
        heard.wf(params),
    ensures
        heard.push(params, pcm).0.wf(params),
        in_order(
            heard.push(params, pcm).1,
            heard.cut.reach(),
            heard.push(params, pcm).0.cut.reach(),
        ),
        heard.flush(params).0.wf(params),
        in_order(
            heard.flush(params).1,
            heard.cut.reach(),
            heard.flush(params).0.cut.reach(),
        ),
{
    lemma_run(params, heard.cut, heard.partial + pcm);
    if heard.partial.len() > 0 {
        lemma_step(params, heard.cut, padded(heard.partial));
        let (cut, ended) = heard.cut.step(params, padded(heard.partial));
        lemma_in_order_joined(
            ended,
            cut.end(params).1,
            heard.cut.reach(),
            cut.reach(),
            cut.end(params).0.reach(),
        );
    } else {
        lemma_in_order_joined(
            Seq::empty(),
            heard.cut.end(params).1,
            heard.cut.reach(),
            heard.cut.reach(),
            heard.cut.end(params).0.reach(),
        );
    }
}

/// An utterance that is short enough and has enough speech in it.
pub open spec fn acceptable(params: EnergyParams, stream: Seq<i16>, span: Span) -> bool {
    &&& span.start < span.end <= span.start + params.max_frames
    &&& voiced_in(params, stream, span.start as int, span.end as int) >= params.min_voiced_frames
}

/// Every one of the spans is acceptable.
pub open spec fn all_acceptable(params: EnergyParams, stream: Seq<i16>, spans: Seq<Span>) -> bool {
    forall|i: int| 0 <= i < spans.len() ==> acceptable(params, stream, #[trigger] spans[i])
}

proof fn lemma_voiced_extends(
    params: EnergyParams,
    stream: Seq<i16>,
    more: Seq<i16>,
    start: int,
    end: int,
)
    requires
        0 <= start,
        end * FRAME_SAMPLES <= stream.len(),
    ensures
        voiced_in(params, stream + more, start, end) == voiced_in(params, stream, start, end),
    decreases end - start,
{
    if end > start {
        lemma_voiced_extends(params, stream, more, start, end - 1);
        assert(frame_at(stream + more, end - 1) =~= frame_at(stream, end - 1));
    }
}

proof fn lemma_no_voice(params: EnergyParams, stream: Seq<i16>, start: int, middle: int, end: int)
    requires
        start <= middle <= end,
        forall|i: int| middle <= i < end ==> !is_speech(params, #[trigger] frame_at(stream, i)),
    ensures
        voiced_in(params, stream, start, end) == voiced_in(params, stream, start, middle),
    decreases end - middle,
{
    if middle < end {
        lemma_no_voice(params, stream, start, middle, end - 1);
        assert(!is_speech(params, frame_at(stream, end - 1)));
    }
}

proof fn lemma_end_accepts(params: EnergyParams, cut: Cut, silent: nat)
    requires
        cut.wf(params),
        cut.counts(params),
        cut.open matches Some(open) && silent <= open.silent && cut.frames() - open.start
            <= params.max_frames,
    ensures
        all_acceptable(
            params,
            cut.framed,
            kept(
                params,
                Span { start: cut.open->0.start, end: (cut.frames() - silent) as nat },
                cut.open->0.voiced,
            ),
        ),
{
    let open = cut.open->0;
    lemma_no_voice(
        params,
        cut.framed,
        open.start as int,
        cut.frames() - silent,
        cut.frames() as int,
    );
}

/// What one frame leaves of the counts and bounds, and of the span it ends.
pub proof fn lemma_step_counts(params: EnergyParams, cut: Cut, frame: Seq<i16>)
    requires
        params.valid(),
        cut.wf(params),
        cut.bounded(params),
        cut.counts(params),
        frame.len() == FRAME_SAMPLES,
    ensures
        cut.step(params, frame).0.bounded(params),
        cut.step(params, frame).0.counts(params),
        all_acceptable(
            params,
            cut.step(params, frame).0.framed,
            cut.step(params, frame).1,
        ),
{
    let (next, ended) = cut.step(params, frame);
    let n = cut.frames() as int;
    let framed = cut.framed + frame;
    lemma_step(params, cut, frame);
    assert(frame_at(framed, n) =~= frame);
    assert forall|i: int| 0 <= i < n implies #[trigger] frame_at(framed, i) == frame_at(
        cut.framed,
        i,
    ) by {
        assert(frame_at(framed, i) =~= frame_at(cut.framed, i));
    }
    let speech = is_speech(params, frame);
    match cut.open {
        None => {
            if speech {
                let start = cut.onset(params);
                let begun = cut.hear(frame, Some(Open { start, voiced: 1, silent: 0 }));
                lemma_no_voice(params, framed, start as int, start as int, n);
                assert(voiced_in(params, framed, start as int, start as int) == 0);
                assert(begun.wf(params));
                assert(begun.counts(params));
                lemma_end_accepts(params, begun, 0);
            }
        },
        Some(open) => {
            lemma_voiced_extends(params, cut.framed, frame, open.start as int, n);
            let voiced = if speech { open.voiced + 1 } else { open.voiced };
            let silent = if speech { 0 } else { open.silent + 1 };
            let still = cut.hear(frame, Some(Open { start: open.start, voiced, silent }));
            assert(still.wf(params));
            assert(still.counts(params));
            lemma_end_accepts(params, still, silent);
            lemma_end_accepts(params, still, 0);
        },
    }
}

proof fn lemma_acceptable_extends(
    params: EnergyParams,
    stream: Seq<i16>,
    more: Seq<i16>,
    spans: Seq<Span>,
)
    requires
        all_acceptable(params, stream, spans),
        forall|i: int|
            0 <= i < spans.len() ==> (#[trigger] spans[i]).end * FRAME_SAMPLES <= stream.len(),
    ensures
        all_acceptable(params, stream + more, spans),
{
    assert forall|i: int| 0 <= i < spans.len() implies acceptable(
        params,
        stream + more,
        #[trigger] spans[i],
    ) by {
        assert(acceptable(params, stream, spans[i]));
        lemma_voiced_extends(params, stream, more, spans[i].start as int, spans[i].end as int);
    }
}

proof fn lemma_run_counts(params: EnergyParams, cut: Cut, samples: Seq<i16>)
    requires
        params.valid(),
        cut.wf(params),
        cut.bounded(params),
        cut.counts(params),
    ensures
        cut.run(params, samples).0.bounded(params),
        cut.run(params, samples).0.counts(params),
        all_acceptable(params, cut.run(params, samples).0.framed, cut.run(params, samples).1),
    decreases samples.len(),
{
    if samples.len() >= FRAME_SAMPLES {
        let first = samples.take(FRAME_SAMPLES as int);
        let rest = samples.skip(FRAME_SAMPLES as int);
        let (next, ended) = cut.step(params, first);
        let (last, later) = next.run(params, rest);
        lemma_step(params, cut, first);
        lemma_step_counts(params, cut, first);
        lemma_run(params, next, rest);
        lemma_run_counts(params, next, rest);
        let more = rest.take((rest.len() / FRAME_SAMPLES as nat * FRAME_SAMPLES as nat) as int);
        assert(last.framed == next.framed + more);
        lemma_acceptable_extends(params, next.framed, more, ended);
        assert forall|i: int| 0 <= i < (ended + later).len() implies acceptable(
            params,
            last.framed,
            #[trigger] (ended + later)[i],
        ) by {
            if i < ended.len() {
                assert(acceptable(params, last.framed, ended[i]));
            } else {
                assert(acceptable(params, last.framed, later[i - ended.len()]));
            }
        }
    }
}

/// Every utterance is bounded and worth recognizing: it holds `max_frames` frames at
/// most, those before its onset with it, and `min_voiced_frames` of speech at least.
/// What the next call needs for this holds again after the call.
pub proof fn law_utterances_are_acceptable(params: EnergyParams, heard: Segmentation, pcm: Seq<i16>)
    requires
        params.valid(),
        heard.wf(params),
        heard.cut.bounded(params),
        heard.cut.counts(params),
    ensures
        heard.push(params, pcm).0.cut.bounded(params),
        heard.push(params, pcm).0.cut.counts(params),
        all_acceptable(
            params,
            heard.push(params, pcm).0.cut.framed,
            heard.push(params, pcm).1,
        ),
        heard.flush(params).0.cut.bounded(params),
        heard.flush(params).0.cut.counts(params),
        all_acceptable(params, heard.flush(params).0.cut.framed, heard.flush(params).1),
{
    lemma_run_counts(params, heard.cut, heard.partial + pcm);
    let cut = if heard.partial.len() > 0 {
        lemma_step(params, heard.cut, padded(heard.partial));
        lemma_step_counts(params, heard.cut, padded(heard.partial));
        heard.cut.step(params, padded(heard.partial)).0
    } else {
        heard.cut
    };
    if cut.open is Some {
        lemma_end_accepts(params, cut, cut.open->0.silent);
    }
}

proof fn lemma_silent_energy(samples: Seq<i16>)
    requires
        silence(samples),
    ensures
        energy(samples) == 0,
    decreases samples.len(),
{
    if samples.len() > 0 {
        assert(silence(samples.drop_last()));
        lemma_silent_energy(samples.drop_last());
        let last = samples.last() as int;
        assert(last * last == 0) by (nonlinear_arith)
            requires
                last == 0,
        ;
    }
}

proof fn lemma_silent_run(params: EnergyParams, cut: Cut, samples: Seq<i16>)
    requires
        params.valid(),
        cut.open is None,
        silence(samples),
    ensures
        cut.run(params, samples).0.open is None,
        cut.run(params, samples).1 == Seq::<Span>::empty(),
    decreases samples.len(),
{
    if samples.len() >= FRAME_SAMPLES {
        let first = samples.take(FRAME_SAMPLES as int);
        let rest = samples.skip(FRAME_SAMPLES as int);
        assert(silence(first) && silence(rest));
        lemma_silent_energy(first);
        lemma_silent_run(params, cut.step(params, first).0, rest);
    }
}

/// Silence alone produces nothing: while no utterance is in progress, silent
/// samples begin none, and the end of audio then yields none.
pub proof fn law_silence_alone_produces_nothing(
    params: EnergyParams,
    heard: Segmentation,
    pcm: Seq<i16>,
)
    requires
        params.valid(),
        heard.wf(params),
        heard.cut.open is None,
        silence(heard.partial),
        silence(pcm),
    ensures
        heard.push(params, pcm).1 == Seq::<Span>::empty(),
        heard.push(params, pcm).0.cut.open is None,
        silence(heard.push(params, pcm).0.partial),
        heard.flush(params).1 == Seq::<Span>::empty(),
{
    assert(silence(heard.partial + pcm));
    lemma_silent_run(params, heard.cut, heard.partial + pcm);
    assert(silence(padded(heard.partial)));
    lemma_silent_energy(padded(heard.partial));
}

} // verus!
