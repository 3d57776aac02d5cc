//! Segmentation of a live stream.

use fermix_stt::vad::{
    rms_energy, samples_to_ms, EnergyParams, EnergySegmenter, Segmenter, FRAME_SAMPLES,
};

fn tone(frames: usize) -> Vec<i16> {
    (0..frames * FRAME_SAMPLES).map(|i| ((i as f32 * 0.2).sin() * 8000.0) as i16).collect()
}

fn silence(frames: usize) -> Vec<i16> {
    vec![0; frames * FRAME_SAMPLES]
}

fn segmenter() -> EnergySegmenter {
    EnergySegmenter::new(EnergyParams::default())
}

#[test]
fn silence_alone_produces_nothing() {
    let mut seg = segmenter();
    assert!(seg.push(&silence(30)).unwrap().is_empty());
    assert!(seg.flush().unwrap().is_empty());
}

#[test]
fn one_speech_run_is_one_utterance_closed_by_flush() {
    let mut seg = segmenter();
    assert!(seg.push(&tone(10)).unwrap().is_empty());
    let out = seg.flush().unwrap();
    assert_eq!(out.len(), 1);
    assert_eq!(out[0].t0_ms, 0);
    assert!(out[0].t1_ms > out[0].t0_ms);
}

#[test]
fn a_long_gap_splits_two_utterances() {
    let mut seg = segmenter();
    let mut audio = tone(10);
    audio.extend(silence(20));
    audio.extend(tone(10));

    let first = seg.push(&audio).unwrap();
    assert_eq!(first.len(), 1, "the gap should have closed the first run");

    let rest = seg.flush().unwrap();
    assert_eq!(rest.len(), 1);
    assert!(
        rest[0].t0_ms > first[0].t1_ms,
        "utterances must not overlap: {:?} then {:?}",
        first[0],
        rest[0]
    );
}

#[test]
fn a_short_gap_does_not_split() {
    let mut seg = segmenter();
    let mut audio = tone(6);
    audio.extend(silence(3));
    audio.extend(tone(6));
    assert!(seg.push(&audio).unwrap().is_empty());
    assert_eq!(seg.flush().unwrap().len(), 1);
}

#[test]
fn chunked_delivery_matches_one_shot_delivery() {
    let mut audio = silence(3);
    audio.extend(tone(8));
    audio.extend(silence(20));
    audio.extend(tone(8));

    let mut whole = segmenter();
    let mut expected = whole.push(&audio).unwrap();
    expected.extend(whole.flush().unwrap());

    let mut chunked = segmenter();
    let mut actual = Vec::new();
    for chunk in audio.chunks(333) {
        actual.extend(chunked.push(chunk).unwrap());
    }
    actual.extend(chunked.flush().unwrap());

    assert_eq!(actual, expected);
}

#[test]
fn an_utterance_is_force_closed_at_the_frame_ceiling() {
    let params = EnergyParams {
        max_frames: 10,
        hangover_frames: 4,
        ..EnergyParams::default()
    };
    let mut seg = EnergySegmenter::new(params);
    let out = seg.push(&tone(25)).unwrap();
    assert_eq!(out.len(), 2, "expected two force-closed utterances");
    for utterance in &out {
        assert_eq!(utterance.pcm.len(), 10 * FRAME_SAMPLES);
    }
    assert_eq!(
        seg.flush().unwrap().len(),
        1,
        "the tail should still be flushed"
    );
}

#[test]
fn a_blip_shorter_than_the_voiced_minimum_is_dropped() {
    let params = EnergyParams {
        min_voiced_frames: 5,
        ..EnergyParams::default()
    };
    let mut seg = EnergySegmenter::new(params);
    seg.push(&tone(2)).unwrap();
    seg.push(&silence(20)).unwrap();
    assert!(seg.flush().unwrap().is_empty());
}

#[test]
fn pre_roll_backdates_the_start_of_a_run() {
    let mut seg = segmenter();
    let mut audio = silence(10);
    audio.extend(tone(5));
    seg.push(&audio).unwrap();
    let out = seg.flush().unwrap();
    assert_eq!(out.len(), 1);
    // Onset is at frame 10; four pre-roll frames back that up to frame 6.
    assert_eq!(out[0].t0_ms, samples_to_ms(6 * FRAME_SAMPLES as u64));
}

#[test]
fn the_default_bounds_are_those_of_the_protocol() {
    let params = EnergyParams::default();
    assert_eq!(params.speech_energy, 350 * 350 * 512);
    assert_eq!(params.hangover_frames, 12);
    assert_eq!(params.pre_roll_frames, 4);
    assert_eq!(params.min_voiced_frames, 2);
    assert_eq!(params.max_frames, 937);
    assert_eq!(rms_energy(350), params.speech_energy);
    assert_eq!(rms_energy(u16::MAX), 65_535 * 65_535 * 512);
}

#[test]
fn a_frame_counts_as_speech_above_the_threshold() {
    let mut at = segmenter();
    assert!(at.push(&vec![350; 4 * FRAME_SAMPLES]).unwrap().is_empty());
    assert!(at.flush().unwrap().is_empty());
    let mut above = segmenter();
    let mut frame = vec![350; 4 * FRAME_SAMPLES];
    for i in 0..4 {
        frame[i * FRAME_SAMPLES] = 351;
    }
    assert!(above.push(&frame).unwrap().is_empty());
    assert_eq!(above.flush().unwrap().len(), 1);
}

#[test]
fn the_frame_ceiling_holds_for_the_pre_roll_too() {
    let params = EnergyParams {
        hangover_frames: 1,
        pre_roll_frames: 4,
        min_voiced_frames: 1,
        max_frames: 2,
        ..EnergyParams::default()
    };
    let mut seg = EnergySegmenter::new(params);
    let mut audio = silence(4);
    audio.extend(tone(2));
    let out = seg.push(&audio).unwrap();
    assert_eq!(out.len(), 1);
    assert_eq!(out[0].pcm.len(), 2 * FRAME_SAMPLES);
    // The onset is frame 4, and one frame before it is as many as fit.
    assert_eq!((out[0].t0_ms, out[0].t1_ms), (96, 160));
    let rest = seg.flush().unwrap();
    assert_eq!(rest.len(), 1);
    assert_eq!((rest[0].t0_ms, rest[0].t1_ms), (160, 192));
    assert!(seg.flush().unwrap().is_empty());
}

#[test]
fn utterances_are_the_stream_at_their_times() {
    let mut audio = silence(7);
    audio.extend(tone(9));
    audio.extend(silence(30));
    audio.extend(tone(5));
    audio.extend(silence(14));
    let mut seg = segmenter();
    let mut end = 0;
    let mut count = 0;
    for chunk in audio.chunks(700) {
        for utterance in seg.push(chunk).unwrap() {
            let (from, to) = (16 * utterance.t0_ms as usize, 16 * utterance.t1_ms as usize);
            assert_eq!(utterance.pcm, &audio[from..to]);
            assert_eq!((utterance.t0_ms % 32, utterance.t1_ms % 32), (0, 0));
            assert!(end <= utterance.t0_ms && utterance.t0_ms < utterance.t1_ms);
            end = utterance.t1_ms;
            count += 1;
        }
    }
    assert_eq!(count, 2);
}

#[test]
fn trailing_silence_is_trimmed_and_a_partial_frame_padded() {
    let mut seg = segmenter();
    let mut audio = tone(3);
    audio.extend(silence(12));
    let out = seg.push(&audio).unwrap();
    assert_eq!(out.len(), 1);
    assert_eq!(out[0].pcm, tone(3));
    assert_eq!((out[0].t0_ms, out[0].t1_ms), (0, 96));

    let mut seg = segmenter();
    let loud = vec![8000i16; 2 * FRAME_SAMPLES + 100];
    assert!(seg.push(&loud).unwrap().is_empty());
    let out = seg.flush().unwrap();
    assert_eq!(out.len(), 1);
    assert_eq!(out[0].pcm.len(), 3 * FRAME_SAMPLES);
    assert_eq!(&out[0].pcm[..loud.len()], &loud[..]);
    assert!(out[0].pcm[loud.len()..].iter().all(|s| *s == 0));
}

#[test]
fn sample_counts_become_milliseconds() {
    assert_eq!(samples_to_ms(0), 0);
    assert_eq!(samples_to_ms(15), 0);
    assert_eq!(samples_to_ms(16), 1);
    assert_eq!(samples_to_ms(16_000), 1000);
    assert_eq!(samples_to_ms(u64::MAX), u64::MAX / 16);
}

#[test]
fn the_last_utterance_is_the_padded_stream_at_its_times() {
    let mut audio = silence(2);
    audio.extend(tone(4));
    audio.extend(silence(20));
    audio.extend(vec![8000i16; 3 * FRAME_SAMPLES + 77]);
    let mut seg = segmenter();
    let mut all = Vec::new();
    for chunk in audio.chunks(1000) {
        all.extend(seg.push(chunk).unwrap());
    }
    assert_eq!(all.len(), 1);
    let last = seg.flush().unwrap();
    assert_eq!(last.len(), 1);
    all.extend(last);
    let mut stream = audio.clone();
    stream.resize(30 * FRAME_SAMPLES, 0);
    for utterance in &all {
        let (from, to) = (16 * utterance.t0_ms as usize, 16 * utterance.t1_ms as usize);
        assert_eq!(utterance.pcm, &stream[from..to]);
        assert_eq!((utterance.t0_ms % 32, utterance.t1_ms % 32), (0, 0));
    }
    assert!(all[0].t1_ms <= all[1].t0_ms);
    assert_eq!((all[1].t0_ms, all[1].t1_ms), (704, 960));
}
