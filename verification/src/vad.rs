//! Voice-activity segmentation for stream mode.
//!
//! Stream mode recognizes utterances, not frames: audio arrives as a byte
//! stream, a segmenter cuts it into speech runs, and each run is recognized on
//! its own. [`Segmenter`] is that seam, and [`EnergySegmenter`] the segmenter
//! that needs neither a model nor a native library.
use vstd::prelude::*;
use vstd::slice::{slice_subrange, slice_to_vec};
use std::collections::VecDeque;
use crate::resample::TARGET_RATE;
use crate::segmentation::{energy, frame_at, in_order, is_speech, kept, lemma_step, lemma_step_counts, padded, remainder, span_samples, Cut, Open, Segmentation, Span};

verus! {

/// Samples per analysis frame: 32 ms at 16 kHz.
pub const FRAME_SAMPLES: usize = 512;

/// Milliseconds per analysis frame.
pub const FRAME_MS: u64 = 32;

/// One detected speech run, with times measured from stream start.
#[derive(Debug, Clone, PartialEq, Eq)]
pub struct Utterance {
    /// 16 kHz mono samples for this run.
    pub pcm: Vec<i16>,
    /// Start time in milliseconds from stream start.
    pub t0_ms: u64,
    /// End time in milliseconds from stream start.
    pub t1_ms: u64,
}

/// What an [`Utterance`] says.
pub struct UtteranceView {
    /// Its samples.
    pub pcm: Seq<i16>,
    /// Its start.
    pub t0_ms: u64,
    /// Its end.
    pub t1_ms: u64,
}

impl View for Utterance {
    type V = UtteranceView;

    open spec fn view(&self) -> UtteranceView {
        UtteranceView { pcm: self.pcm@, t0_ms: self.t0_ms, t1_ms: self.t1_ms }
    }
}

/// What the utterances say.
pub open spec fn said(utterances: Seq<Utterance>) -> Seq<UtteranceView> {
    utterances.map_values(|utterance: Utterance| utterance@)
}

/// Why segmentation failed.
#[derive(Debug, Clone, PartialEq, Eq)]
pub enum VadError {
    /// The VAD model could not be initialized.
    Unavailable(String),
}

impl VadError {
    /// The error in words.
    pub open spec fn spec_message(self) -> Seq<char> {
        match self {
            VadError::Unavailable(detail) => "voice activity detector unavailable: "@ + detail@,
        }
    }

    /// The error in words.
    pub fn message(&self) -> (message: String)
        ensures
            message@ == self.spec_message(),
    {
        match self {
            VadError::Unavailable(detail) => {
                let mut message = "voice activity detector unavailable: ".to_owned();
                message.append(detail.as_str());
                message
            },
        }
    }
}

/// Cuts a continuous 16 kHz mono stream into utterances.
///
/// What a segmenter answers is its own affair: an implementation may say it through
/// `push_outcome` and `flush_outcome`, which leave every answer open otherwise.
pub trait Segmenter: Send + Sized {
    /// The segmenter is in a state that its operations lead to.
    open spec fn wf(&self) -> bool {
        true
    }

    /// Whether feeding `pcm` may leave the segmenter as `after` and answer `found`.
    open spec fn push_outcome(
        &self,
        pcm: Seq<i16>,
        after: &Self,
        found: Result<Vec<Utterance>, VadError>,
    ) -> bool {
        true
    }

    /// Whether the end of audio may leave the segmenter as `after` and answer `found`.
    open spec fn flush_outcome(
        &self,
        after: &Self,
        found: Result<Vec<Utterance>, VadError>,
    ) -> bool {
        true
    }

    /// Feed samples; returns every utterance completed by this chunk.
    fn push(&mut self, pcm: &[i16]) -> (found: Result<Vec<Utterance>, VadError>)
        requires
            old(self).wf(),
        ensures
            final(self).wf(),
            old(self).push_outcome(pcm@, final(self), found),
    ;

    /// End of audio: return the utterance still open, if any.
    fn flush(&mut self) -> (found: Result<Vec<Utterance>, VadError>)
        requires
            old(self).wf(),
        ensures
            final(self).wf(),
            old(self).flush_outcome(final(self), found),
    ;
}

/// Tuning for [`EnergySegmenter`]. Every field is a hard bound on the state
/// machine, not a preference knob.
#[derive(Debug, Clone, Copy, PartialEq, Eq)]
pub struct EnergyParams {
    /// The sum of the squares of a frame's samples above which the frame counts as
    /// speech: see [`rms_energy`].
    pub speech_energy: u64,
    /// Silent frames that close an open utterance (~384 ms by default).
    pub hangover_frames: usize,
    /// Frames kept before onset so a word is not clipped (~128 ms).
    pub pre_roll_frames: usize,
    /// Voiced frames an utterance needs to be worth recognizing (~64 ms).
    pub min_voiced_frames: usize,
    /// Frames after which an utterance is force-closed (~30 s), those kept before
    /// onset with them.
    pub max_frames: usize,
}

impl EnergyParams {
    /// No bound is degenerate: a zero would make the state machine unbounded
    /// or trivial.
    pub open spec fn valid(self) -> bool {
        &&& self.speech_energy > 0
        &&& self.hangover_frames > 0
        &&& self.min_voiced_frames > 0
        &&& self.max_frames > self.hangover_frames
    }

    /// The bounds that [`EnergyParams::default`] gives.
    pub open spec fn is_default(self) -> bool {
        &&& self.speech_energy == DEFAULT_SPEECH_RMS * DEFAULT_SPEECH_RMS * FRAME_SAMPLES
        &&& self.hangover_frames == 12
        &&& self.pre_roll_frames == 4
        &&& self.min_voiced_frames == 2
        &&& self.max_frames == 937
    }
}

/// RMS above which a frame counts as speech by default, on the s16 scale.
pub const DEFAULT_SPEECH_RMS: u16 = 350;

/// The energy of a frame whose RMS is `rms`: the root of the mean of the squares
/// of a frame's samples is above `rms` exactly where their sum is above this.
pub fn rms_energy(rms: u16) -> (energy: u64)
    ensures
        energy == rms * rms * FRAME_SAMPLES,
{
    let rms: u64 = rms as u64;
    assert(0 <= rms * rms <= 0xffff_ffff) by (nonlinear_arith)
        requires
            rms <= 0xffff,
    ;
    let square: u64 = rms * rms;
    let samples: u64 = FRAME_SAMPLES as u64;
    assert(square * samples == square * 512);
    square * samples
}

impl Default for EnergyParams {
    fn default() -> (params: Self)
        ensures
            params.valid(),
            params.is_default(),
    {
        EnergyParams {
            speech_energy: rms_energy(DEFAULT_SPEECH_RMS),
            hangover_frames: 12,
            pre_roll_frames: 4,
            min_voiced_frames: 2,
            max_frames: 937,
        }
    }
}

/// Whole milliseconds in `samples` samples at the target rate.
pub open spec fn ms(samples: int) -> int {
    samples * 1000 / TARGET_RATE as int
}

/// Convert a 16 kHz sample count to milliseconds.
pub fn samples_to_ms(samples: u64) -> (millis: u64)
    ensures
        millis == ms(samples as int),
{
    let millis: u128 = samples as u128 * 1000 / TARGET_RATE as u128;
    assert(millis == samples as int * 1000 / 16_000);
    millis as u64
}

/// Short-term-energy segmenter.
pub struct EnergySegmenter {
    params: EnergyParams,
    partial: Vec<i16>,
    pre_roll: VecDeque<Vec<i16>>,
    active: Option<Active>,
    frames_seen: u64,
    framed: Ghost<Seq<i16>>,
}

struct Active {
    start_frame: u64,
    pcm: Vec<i16>,
    voiced_frames: usize,
    silence_run: usize,
}

/// The clock after `frames` frames, in milliseconds. It has 64 bits and starts
/// again once they are used up.
pub open spec fn frame_ms(frames: nat) -> u64 {
    (frames * FRAME_MS % 0x1_0000_0000_0000_0000) as u64
}

/// Whether the clock has not started again by the end of `frames` frames.
pub open spec fn countable(frames: nat) -> bool {
    frames * FRAME_MS <= u64::MAX
}

/// What the frames of `span` make of a stream: those samples, from the time of the
/// first to the time of the last.
pub open spec fn cut_from(stream: Seq<i16>, span: Span) -> UtteranceView {
    UtteranceView {
        pcm: span_samples(stream, span),
        t0_ms: frame_ms(span.start),
        t1_ms: frame_ms(span.end),
    }
}

impl Utterance {
    /// Whether this is what the frames of `span` make of a stream.
    pub open spec fn is_cut(self, stream: Seq<i16>, span: Span) -> bool {
        self@ == cut_from(stream, span)
    }
}

/// Whether `utterances` are what the `spans` of a stream make, in order.
pub open spec fn are_cut(utterances: Seq<Utterance>, stream: Seq<i16>, spans: Seq<Span>) -> bool {
    &&& utterances.len() == spans.len()
    &&& forall|i: int|
        0 <= i < spans.len() ==> (#[trigger] utterances[i]).is_cut(stream, spans[i])
}

/// Whether `after` is `before` and then what the `spans` of a stream make.
spec fn appended(
    before: Seq<Utterance>,
    after: Seq<Utterance>,
    stream: Seq<i16>,
    spans: Seq<Span>,
) -> bool {
    &&& after.len() == before.len() + spans.len()
    &&& after.take(before.len() as int) == before
    &&& are_cut(after.skip(before.len() as int), stream, spans)
}

impl View for EnergySegmenter {
    type V = Segmentation;

    /// What has been heard, and where segmentation stands.
    closed spec fn view(&self) -> Segmentation {
        Segmentation { cut: self.cut(), partial: self.partial@ }
    }
}

impl EnergySegmenter {
    /// The bounds this segmenter was made with.
    pub closed spec fn params(self) -> EnergyParams {
        self.params
    }

    spec fn cut(self) -> Cut {
        let n = self.framed@.len() / FRAME_SAMPLES as nat;
        Cut {
            framed: self.framed@,
            quiet_from: (n - self.pre_roll@.len()) as nat,
            open: match self.active {
                None => None,
                Some(active) => Some(
                    Open {
                        start: (n - active.pcm@.len() / FRAME_SAMPLES as nat) as nat,
                        voiced: active.voiced_frames as nat,
                        silent: active.silence_run as nat,
                    },
                ),
            },
        }
    }

    /// All that holds of the fields but for the incomplete frame.
    spec fn inv(self) -> bool {
        let n = self.framed@.len() / FRAME_SAMPLES as nat;
        &&& self.params.valid()
        &&& self.cut().wf(self.params)
        &&& self.pre_roll@.len() <= n
        &&& self.frames_seen == n % 0x1_0000_0000_0000_0000
        &&& forall|i: int|
            0 <= i < self.pre_roll@.len() ==> (#[trigger] self.pre_roll@[i])@ == frame_at(
                self.framed@,
                n - self.pre_roll@.len() + i,
            )
        &&& self.active matches Some(active) ==> {
            let k = active.pcm@.len() / FRAME_SAMPLES as nat;
            &&& active.pcm@.len() == k * FRAME_SAMPLES
            &&& k <= n
            &&& active.pcm@ == self.framed@.subrange((n - k) * FRAME_SAMPLES, (n * FRAME_SAMPLES) as int)
            &&& active.start_frame == (n - k) % 0x1_0000_0000_0000_0000
        }
    }

    /// Every segmenter that operations lead to is within its bounds, and counts the
    /// frames that it heard.
    pub proof fn lemma_wf(&self)
        requires
            self.wf(),
        ensures
            self.params().valid(),
            self@.wf(self.params()),
            self@.cut.bounded(self.params()),
            self@.cut.counts(self.params()),
    {
    }

    /// A segmenter with the given bounds.
    pub fn new(params: EnergyParams) -> (segmenter: Self)
        requires
            params.valid(),
        ensures
            segmenter.wf(),
            segmenter.params() == params,
            segmenter@ == Segmentation::fresh(),
    {
        let segmenter = EnergySegmenter {
            params,
            partial: Vec::with_capacity(FRAME_SAMPLES),
            pre_roll: VecDeque::new(),
            active: None,
            frames_seen: 0,
            framed: Ghost(Seq::empty()),
        };
        segmenter
    }

    /// Whether the frame is loud enough to be speech.
    fn is_speech(&self, frame: &[i16]) -> (speech: bool)
        requires
            frame@.len() <= FRAME_SAMPLES,
        ensures
            speech == is_speech(self.params, frame@),
    {
        let mut sum: u64 = 0;
        let mut i: usize = 0;
        while i < frame.len()
            invariant
                i <= frame@.len() <= FRAME_SAMPLES,
                sum == energy(frame@.take(i as int)),
                sum <= i * 0x4000_0000,
            decreases frame@.len() - i,
        {
            let sample: i64 = frame[i] as i64;
            assert(0 <= sample * sample <= 0x4000_0000) by (nonlinear_arith)
                requires
                    -0x8000 <= sample <= 0x7fff,
            ;
            assert(frame@.take(i + 1).drop_last() =~= frame@.take(i as int));
            sum = sum + (sample * sample) as u64;
            i = i + 1;
        }
        assert(frame@.take(frame@.len() as int) =~= frame@);
        sum > self.params.speech_energy
    }

    /// Hear one frame.
    fn consume_frame(&mut self, frame: &[i16], out: &mut Vec<Utterance>)
        requires
            old(self).inv(),
            frame@.len() == FRAME_SAMPLES,
        ensures
            final(self).inv(),
            final(self).params == old(self).params,
            final(self).partial == old(self).partial,
            final(self).cut() == old(self).cut().step(old(self).params, frame@).0,
            appended(
                old(out)@,
                final(out)@,
                final(self).framed@,
                old(self).cut().step(old(self).params, frame@).1,
            ),
    {
        let ghost before = *old(self);
        let ghost n = before.framed@.len() / FRAME_SAMPLES as nat;
        let ghost framed = before.framed@ + frame@;
        proof {
            assert(framed.len() / FRAME_SAMPLES as nat == n + 1);
            assert(frame_at(framed, n as int) =~= frame@);
            assert forall|i: int| 0 <= i < n implies #[trigger] frame_at(framed, i) == frame_at(
                before.framed@,
                i,
            ) by {
                assert(frame_at(framed, i) =~= frame_at(before.framed@, i));
            }
        }
        let speech = self.is_speech(frame);
        let index = self.frames_seen;
        self.frames_seen = self.frames_seen.wrapping_add(1);
        self.framed = Ghost(framed);

        match self.active.take() {
            None => {
                assert(out@.skip(out@.len() as int) =~= Seq::empty());
                assert(out@.take(out@.len() as int) =~= out@);
                if speech {
                    let frames: usize = self.open(index, frame);
                    if frames >= self.params.max_frames {
                        self.close(false, out);
                    }
                } else {
                    self.pre_roll.push_back(slice_to_vec(frame));
                    if self.pre_roll.len() > self.params.pre_roll_frames {
                        self.pre_roll.pop_front();
                    }
                }
            },
            Some(active) => {
                let mut active = active;
                let ghost k = active.pcm@.len() / FRAME_SAMPLES as nat;
                assert(active.silence_run < k && active.voiced_frames <= k);
                assert(k <= active.pcm.len() <= usize::MAX);
                active.pcm.extend_from_slice(frame);
                assert(active.pcm@ =~= framed.subrange((n - k) * FRAME_SAMPLES, (n + 1) * FRAME_SAMPLES));
                if speech {
                    active.voiced_frames = active.voiced_frames + 1;
                    active.silence_run = 0;
                } else {
                    active.silence_run = active.silence_run + 1;
                }
                let frames: usize = active.pcm.len() / FRAME_SAMPLES;
                let silence_run: usize = active.silence_run;
                self.active = Some(active);
                assert(frames == k + 1);
                assert(self.inv());
                if silence_run >= self.params.hangover_frames {
                    self.close(true, out);
                } else if frames >= self.params.max_frames {
                    self.close(false, out);
                } else {
                    assert(out@.skip(out@.len() as int) =~= Seq::empty());
                    assert(out@.take(out@.len() as int) =~= out@);
                }
            },
        }
    }

    /// Begin an utterance with the frames kept before onset and this one, as far as
    /// its bound allows, and say how many they are.
    fn open(&mut self, index: u64, frame: &[i16]) -> (frames: usize)
        requires
            frame@.len() == FRAME_SAMPLES,
            old(self).params.valid(),
            old(self).active is None,
            old(self).pre_roll@.len() <= old(self).params.pre_roll_frames,
            old(self).framed@.len() % FRAME_SAMPLES as nat == 0,
            old(self).pre_roll@.len() < old(self).framed@.len() / FRAME_SAMPLES as nat,
            ({
                let n = old(self).framed@.len() / FRAME_SAMPLES as nat;
                &&& frame@ == frame_at(old(self).framed@, n - 1)
                &&& index == (n - 1) % 0x1_0000_0000_0000_0000
                &&& old(self).frames_seen == n % 0x1_0000_0000_0000_0000
                &&& forall|i: int|
                    0 <= i < old(self).pre_roll@.len() ==> (#[trigger] old(self).pre_roll@[i])@
                        == frame_at(old(self).framed@, n - 1 - old(self).pre_roll@.len() + i)
            }),
        ensures
            final(self).inv(),
            final(self).params == old(self).params,
            final(self).partial == old(self).partial,
            ({
                let n = old(self).framed@.len() / FRAME_SAMPLES as nat;
                &&& frames == if old(self).pre_roll@.len() < old(self).params.max_frames {
                    old(self).pre_roll@.len() + 1
                } else {
                    old(self).params.max_frames as nat
                }
                &&& final(self).cut() == Cut {
                    framed: old(self).framed@,
                    quiet_from: n,
                    open: Some(Open { start: (n - frames) as nat, voiced: 1, silent: 0 }),
                }
            }),
    {
        let ghost kept_before = self.pre_roll@;
        while self.pre_roll.len() >= self.params.max_frames
            invariant
                self.params.valid(),
                self.params == old(self).params,
                self.partial == old(self).partial,
                self.active == old(self).active,
                self.frames_seen == old(self).frames_seen,
                self.framed == old(self).framed,
                self.pre_roll@.len() <= kept_before.len(),
                self.pre_roll@ == kept_before.skip(kept_before.len() - self.pre_roll@.len()),
                kept_before.len() < self.params.max_frames ==> self.pre_roll@ == kept_before,
                kept_before.len() >= self.params.max_frames ==> self.pre_roll@.len()
                    >= self.params.max_frames - 1,
            decreases self.pre_roll@.len(),
        {
            let ghost before = self.pre_roll@;
            self.pre_roll.pop_front();
            assert(self.pre_roll@ =~= kept_before.skip(
                kept_before.len() - self.pre_roll@.len(),
            ));
        }
        let lead: usize = self.pre_roll.len();
        let ghost buffered = self.pre_roll@;
        let ghost framed = self.framed@;
        let ghost n = framed.len() / FRAME_SAMPLES as nat;
        let ghost start = n - 1 - lead;
        let mut pcm: Vec<i16> = Vec::new();
        let mut taken: usize = 0;
        while taken < lead
            invariant
                taken <= lead == buffered.len(),
                lead < n,
                framed.len() == n * FRAME_SAMPLES,
                start == n - 1 - lead,
                self.pre_roll@ == buffered.skip(taken as int),
                self.params == old(self).params,
                self.partial == old(self).partial,
                self.active == old(self).active,
                self.frames_seen == old(self).frames_seen,
                self.framed == old(self).framed,
                pcm@ == framed.subrange(start * FRAME_SAMPLES, (start + taken) * FRAME_SAMPLES),
                forall|i: int|
                    0 <= i < buffered.len() ==> (#[trigger] buffered[i])@ == frame_at(
                        framed,
                        start + i,
                    ),
            decreases lead - taken,
        {
            if let Some(oldest) = self.pre_roll.pop_front() {
                assert(oldest == buffered[taken as int]);
                pcm.extend_from_slice(oldest.as_slice());
                assert(pcm@ =~= framed.subrange(
                    start * FRAME_SAMPLES,
                    (start + taken + 1) * FRAME_SAMPLES,
                ));
            }
            taken = taken + 1;
        }
        pcm.extend_from_slice(frame);
        assert(pcm@ =~= framed.subrange(start * FRAME_SAMPLES, (n * FRAME_SAMPLES) as int));
        self.active = Some(
            Active {
                start_frame: index.wrapping_sub(lead as u64),
                pcm,
                voiced_frames: 1,
                silence_run: 0,
            },
        );
        assert(pcm@.len() / FRAME_SAMPLES as nat == lead + 1);
        lead + 1
    }

    /// End the utterance in progress.
    fn close(&mut self, trim_trailing_silence: bool, out: &mut Vec<Utterance>)
        requires
            old(self).inv(),
        ensures
            final(self).inv(),
            final(self).params == old(self).params,
            final(self).partial == old(self).partial,
            ({
                let n = old(self).cut().frames();
                final(self).cut() == match old(self).cut().open {
                    None => old(self).cut(),
                    Some(_) => Cut { framed: old(self).framed@, quiet_from: n, open: None },
                }
            }),
            appended(
                old(out)@,
                final(out)@,
                old(self).framed@,
                match old(self).cut().open {
                    None => Seq::empty(),
                    Some(open) => {
                        let end = if trim_trailing_silence {
                            (old(self).cut().frames() - open.silent) as nat
                        } else {
                            old(self).cut().frames()
                        };
                        kept(old(self).params, Span { start: open.start, end }, open.voiced)
                    },
                },
            ),
    {
        let ghost before = *old(self);
        let ghost n = before.framed@.len() / FRAME_SAMPLES as nat;
        let ghost len = out@.len() as int;
        assert(out@.skip(len) =~= Seq::empty());
        assert(out@.take(len) =~= out@);
        match self.active.take() {
            None => {},
            Some(active) => {
                let mut active = active;
                let ghost k = active.pcm@.len() / FRAME_SAMPLES as nat;
                let ghost start = (n - k) as nat;
                assert(active.silence_run < k);
                assert(k * FRAME_SAMPLES == active.pcm.len());
                if trim_trailing_silence {
                    let trim: usize = active.silence_run * FRAME_SAMPLES;
                    let keep: usize = active.pcm.len() - trim;
                    active.pcm.truncate(keep);
                }
                let ghost end = if trim_trailing_silence { (n - active.silence_run) as nat } else { n };
                let ghost span = Span { start, end };
                assert(active.pcm@ =~= span_samples(before.framed@, span));
                if active.voiced_frames < self.params.min_voiced_frames || active.pcm.len() == 0 {
                    return;
                }
                let frames: u64 = (active.pcm.len() / FRAME_SAMPLES) as u64;
                let t0_ms: u64 = active.start_frame.wrapping_mul(FRAME_MS);
                let t1_ms: u64 = active.start_frame.wrapping_add(frames).wrapping_mul(FRAME_MS);
                proof {
                    assert(end == start + frames);
                    lemma_times(start, frames, active.start_frame);
                }
                out.push(Utterance { pcm: active.pcm, t0_ms, t1_ms });
                assert(out@.take(len) =~= old(out)@);
                assert(out@.skip(len)[0].is_cut(before.framed@, span));
            },
        }
    }
}

/// The clock goes by the frame counter.
proof fn lemma_clock(frames: nat, counter: u64)
    requires
        counter == frames % 0x1_0000_0000_0000_0000,
    ensures
        counter.wrapping_mul(FRAME_MS) == frame_ms(frames),
{
    let q = frames / 0x1_0000_0000_0000_0000;
    assert(frames == q * 0x1_0000_0000_0000_0000 + counter);
    assert(frames * 32 == (q * 32) * 0x1_0000_0000_0000_0000 + counter * 32);
}

/// The clock at both ends of an utterance.
proof fn lemma_times(start: nat, frames: u64, counter: u64)
    requires
        counter == start % 0x1_0000_0000_0000_0000,
    ensures
        counter.wrapping_mul(FRAME_MS) == frame_ms(start),
        counter.wrapping_add(frames).wrapping_mul(FRAME_MS) == frame_ms(start + frames as nat),
{
    lemma_clock(start, counter);
    lemma_clock(start + frames as nat, counter.wrapping_add(frames));
}

/// A later stream makes the same of the spans of an earlier one.
pub proof fn lemma_are_cut_extends(
    utterances: Seq<Utterance>,
    stream: Seq<i16>,
    more: Seq<i16>,
    spans: Seq<Span>,
)
    requires
        are_cut(utterances, stream, spans),
        forall|i: int|
            0 <= i < spans.len() ==> (#[trigger] spans[i]).start <= spans[i].end && spans[i].end
                * FRAME_SAMPLES <= stream.len(),
    ensures
        are_cut(utterances, stream + more, spans),
{
    assert forall|i: int| 0 <= i < spans.len() implies (#[trigger] utterances[i]).is_cut(
        stream + more,
        spans[i],
    ) by {
        assert(span_samples(stream + more, spans[i]) =~= span_samples(stream, spans[i]));
    }
}

proof fn lemma_are_cut_joined(
    before: Seq<Utterance>,
    after: Seq<Utterance>,
    stream: Seq<i16>,
    first: Seq<Span>,
    second: Seq<Span>,
)
    requires
        are_cut(before, stream, first),
        appended(before, after, stream, second),
    ensures
        are_cut(after, stream, first + second),
{
    let spans = first + second;
    assert forall|i: int| 0 <= i < spans.len() implies (#[trigger] after[i]).is_cut(
        stream,
        spans[i],
    ) by {
        if i < first.len() {
            assert(after.take(before.len() as int)[i] == after[i]);
        } else {
            assert(after.skip(before.len() as int)[i - before.len()] == after[i]);
        }
    }
}

impl Segmenter for EnergySegmenter {
    closed spec fn wf(&self) -> bool {
        &&& self.inv()
        &&& self.cut().bounded(self.params)
        &&& self.cut().counts(self.params)
        &&& self.partial@.len() < FRAME_SAMPLES
    }

    open spec fn push_outcome(
        &self,
        pcm: Seq<i16>,
        after: &Self,
        found: Result<Vec<Utterance>, VadError>,
    ) -> bool {
        let (heard, spans) = self@.push(self.params(), pcm);
        &&& after.params() == self.params()
        &&& after@ == heard
        &&& found matches Ok(utterances) && are_cut(utterances@, heard.cut.framed, spans)
    }

    open spec fn flush_outcome(
        &self,
        after: &Self,
        found: Result<Vec<Utterance>, VadError>,
    ) -> bool {
        let (heard, spans) = self@.flush(self.params());
        &&& after.params() == self.params()
        &&& after@ == heard
        &&& found matches Ok(utterances) && are_cut(utterances@, heard.cut.framed, spans)
    }

    fn push(&mut self, pcm: &[i16]) -> (found: Result<Vec<Utterance>, VadError>) {
        let mut out: Vec<Utterance> = Vec::new();
        let ghost params = self.params;
        let ghost samples = self.partial@ + pcm@;
        let ghost first = self.cut();
        let ghost ended: Seq<Span> = Seq::empty();
        self.partial.extend_from_slice(pcm);
        assert(self.partial@ =~= samples);
        assert(samples.skip(0) =~= samples);

        let mut offset: usize = 0;
        while self.partial.len() - offset >= FRAME_SAMPLES
            invariant
                self.inv(),
                self.cut().bounded(params),
                self.cut().counts(params),
                self.params == params,
                params == old(self).params,
                self.partial@ == samples,
                offset <= samples.len(),
                offset % FRAME_SAMPLES == 0,
                are_cut(out@, self.framed@, ended),
                forall|i: int|
                    0 <= i < ended.len() ==> (#[trigger] ended[i]).start <= ended[i].end
                        && ended[i].end <= self.cut().frames(),
                first.run(params, samples).0 == self.cut().run(params, samples.skip(offset as int)).0,
                first.run(params, samples).1 == ended + self.cut().run(
                    params,
                    samples.skip(offset as int),
                ).1,
            decreases samples.len() - offset,
        {
            let ghost before = *self;
            let ghost found = out@;
            let ghost rest = samples.skip(offset as int);
            let frame = slice_subrange(self.partial.as_slice(), offset, offset + FRAME_SAMPLES);
            let frame: Vec<i16> = slice_to_vec(frame);
            assert(frame@ =~= rest.take(FRAME_SAMPLES as int));
            self.consume_frame(frame.as_slice(), &mut out);
            offset = offset + FRAME_SAMPLES;
            proof {
                let (next, spans) = before.cut().step(params, frame@);
                lemma_step(params, before.cut(), frame@);
                lemma_step_counts(params, before.cut(), frame@);
                lemma_are_cut_extends(found, before.framed@, frame@, ended);
                lemma_are_cut_joined(found, out@, self.framed@, ended, spans);
                assert(rest.skip(FRAME_SAMPLES as int) =~= samples.skip(offset as int));
                assert(ended + (spans + next.run(params, samples.skip(offset as int)).1) =~= (ended
                    + spans) + next.run(params, samples.skip(offset as int)).1);
                ended = ended + spans;
            }
        }
        let rest = slice_subrange(self.partial.as_slice(), offset, self.partial.len());
        self.partial = slice_to_vec(rest);
        assert(self.partial@ =~= remainder(samples));
        assert(self.cut().run(params, samples.skip(offset as int)).1 =~= Seq::empty());
        assert(ended + Seq::<Span>::empty() =~= ended);
        Ok(out)
    }

    fn flush(&mut self) -> (found: Result<Vec<Utterance>, VadError>) {
        let mut out: Vec<Utterance> = Vec::new();
        let ghost params = self.params;
        let ghost first = self@;
        let ghost ended: Seq<Span> = Seq::empty();
        if !self.partial.is_empty() {
            let mut frame: Vec<i16> = Vec::new();
            frame.append(&mut self.partial);
            frame.resize(FRAME_SAMPLES, 0);
            assert(frame@ =~= padded(first.partial));
            self.consume_frame(frame.as_slice(), &mut out);
            proof {
                lemma_step(params, first.cut, frame@);
                lemma_step_counts(params, first.cut, frame@);
                ended = first.cut.step(params, frame@).1;
                assert(out@.skip(0) =~= out@);
            }
        }
        let ghost found = out@;
        let ghost middle = self.cut();
        self.close(true, &mut out);
        proof {
            lemma_are_cut_joined(found, out@, self.framed@, ended, middle.end(params).1);
        }
        self.pre_roll.clear();
        proof {
            let (heard, spans) = first.flush(params);
            assert(spans =~= ended + middle.end(params).1);
            assert(self.partial@ =~= Seq::empty());
            assert(self.cut() == middle.end(params).0);
            assert(self@ == heard);
        }
        Ok(out)
    }
}

/// Utterances are in order on the clock too: each ends after it begins, and none
/// begins before an earlier one has ended.
pub proof fn law_times_are_in_order(
    utterances: Seq<Utterance>,
    stream: Seq<i16>,
    spans: Seq<Span>,
    low: nat,
    high: nat,
)
    requires
        are_cut(utterances, stream, spans),
        in_order(spans, low, high),
        countable(high),
    ensures
        forall|i: int|
            0 <= i < utterances.len() ==> (#[trigger] utterances[i]).t0_ms < utterances[i].t1_ms,
        forall|i: int, j: int|
            0 <= i < j < utterances.len() ==> (#[trigger] utterances[i]).t1_ms <= (
            #[trigger] utterances[j]).t0_ms,
{
    assert forall|i: int| 0 <= i < utterances.len() implies (#[trigger] utterances[i]).t0_ms
        < utterances[i].t1_ms by {
        assert(utterances[i].is_cut(stream, spans[i]));
    }
    assert forall|i: int, j: int| 0 <= i < j < utterances.len() implies (
    #[trigger] utterances[i]).t1_ms <= (#[trigger] utterances[j]).t0_ms by {
        assert(utterances[i].is_cut(stream, spans[i]));
        assert(utterances[j].is_cut(stream, spans[j]));
        assert(spans[i].end <= spans[j].start);
    }
}

/// A millisecond is 16 samples, and what is left at the end does not count.
pub proof fn law_a_millisecond_is_sixteen_samples(samples: int)
    ensures
        16 * ms(samples) <= samples < 16 * ms(samples) + 16,
{
}

/// Once the audio has ended, nothing is open: a second end hands out nothing.
pub proof fn law_the_end_leaves_nothing(
    before: EnergySegmenter,
    ended: EnergySegmenter,
    found: Result<Vec<Utterance>, VadError>,
    after: EnergySegmenter,
    again: Result<Vec<Utterance>, VadError>,
)
    requires
        before.flush_outcome(&ended, found),
        ended.flush_outcome(&after, again),
    ensures
        found is Ok,
        again matches Ok(utterances) && utterances@.len() == 0,
        after@ == ended@,
{
    assert(Seq::<Span>::empty() + Seq::<Span>::empty() =~= Seq::<Span>::empty());
}

} // verus!
