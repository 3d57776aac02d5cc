//! The decisions around container decode.

use fermix_stt::decode::{
    DecodeError, Decoded, Decoding, Demuxed, Format, Kept, MonoAccumulator, Next, Opened, Pcm,
    MAX_BAD_PACKETS, MAX_DURATION_SECS,
};
use fermix_stt::protocol::ErrorCode;
use fermix_stt::resample::{plan, Plan, MAX_INPUT_RATE, TARGET_RATE};

#[test]
fn duration_is_derived_from_the_target_rate() {
    let pcm = Pcm::new(vec![0; 8000]);
    assert_eq!(pcm.duration_ms(), 500);
    assert_eq!(pcm.samples().len(), 8000);
}

#[test]
fn a_channel_count_change_mid_stream_is_refused() {
    let mut acc = MonoAccumulator::default();
    acc.push(16_000, 1, 2).unwrap();
    let err = acc.push(16_000, 2, 2).unwrap_err();
    assert!(matches!(err, DecodeError::Failed { .. }), "{err:?}");
    assert_eq!(
        err.message(),
        "decode failed: sample rate or channel count changed mid-stream"
    );
}

#[test]
fn a_rate_change_mid_stream_is_refused() {
    let mut acc = MonoAccumulator::default();
    acc.push(16_000, 1, 1).unwrap();
    let err = acc.push(44_100, 1, 1).unwrap_err();
    assert!(matches!(err, DecodeError::Failed { .. }), "{err:?}");
}

#[test]
fn an_implausible_rate_is_refused_before_it_reaches_the_resampler() {
    let mut acc = MonoAccumulator::default();
    let err = acc.push(MAX_INPUT_RATE + 1, 1, 1).unwrap_err();
    assert!(matches!(err, DecodeError::Unsupported { .. }), "{err:?}");
    assert_eq!(err.message(), "unsupported container: implausible sample rate 768001");
    assert_eq!(
        acc.push(0, 1, 1).unwrap_err().message(),
        "unsupported container: implausible sample rate 0"
    );
    assert_eq!(
        acc.push(16_000, 0, 1).unwrap_err().message(),
        "unsupported container: stream declares zero channels"
    );
    assert_eq!(acc.format, None);
}

#[test]
fn an_over_long_stream_is_refused() {
    let mut acc = MonoAccumulator::default();
    let rate = 16_000u32;
    for _ in 0..MAX_DURATION_SECS {
        acc.push(rate, 1, rate as usize).unwrap();
    }
    let err = acc.push(rate, 1, rate as usize).unwrap_err();
    assert!(err.message().contains("ceiling"), "{err:?}");
    assert_eq!(err.message(), "decode failed: audio exceeds the 3600s ceiling");
    assert_eq!(acc.frames, 3600 * 16_000);
}

#[test]
fn a_packet_gives_its_whole_frames() {
    let mut acc = MonoAccumulator::default();
    assert_eq!(acc.push(16_000, 2, 4).unwrap(), 2);
    assert_eq!(acc.push(16_000, 2, 5).unwrap(), 2);
    assert_eq!(acc.format, Some(Format { rate: 16_000, channels: 2 }));
    assert_eq!(acc.frames, 4);
    assert_eq!(acc.finish().unwrap(), 16_000);
}

#[test]
fn a_stream_with_no_audio_is_an_error() {
    let err = MonoAccumulator::default().finish().unwrap_err();
    assert!(matches!(err, DecodeError::Failed { .. }), "{err:?}");
    assert_eq!(err.message(), "decode failed: stream produced no audio");
}

#[test]
fn decode_a_missing_file_is_an_io_error() {
    let path = "/nonexistent/fermix-stt/missing.wav";
    let err = Decoding::begin(path, Opened::NoFile("no such file".to_string())).unwrap_err();
    assert!(matches!(err, DecodeError::Io { .. }), "{err:?}");
    assert_eq!(err.code(), ErrorCode::IoError);
    assert_eq!(
        err.message(),
        "cannot read /nonexistent/fermix-stt/missing.wav: no such file"
    );
}

#[test]
fn a_container_that_cannot_be_opened_is_refused() {
    let refused = |opened: Opened| Decoding::begin("a.amr", opened).unwrap_err();
    let container = refused(Opened::NoContainer("unknown".to_string()));
    assert_eq!(container.code(), ErrorCode::DecodeFailed);
    assert_eq!(container.message(), "unsupported container: a.amr (unknown)");
    assert_eq!(
        refused(Opened::NoTrack).message(),
        "unsupported container: a.amr has no audio track"
    );
    assert_eq!(
        refused(Opened::NoParameters).message(),
        "unsupported container: a.amr has no audio codec parameters"
    );
    assert_eq!(
        refused(Opened::NoDecoder("amr".to_string())).message(),
        "unsupported container: no decoder for a.amr: amr"
    );
}

#[test]
fn only_packets_of_the_track_are_decoded() {
    let decoding = Decoding::begin("a.ogg", Opened::Ready(7)).unwrap();
    assert_eq!(decoding.demuxed(Demuxed::Packet(7)).unwrap(), Next::Decode);
    assert_eq!(decoding.demuxed(Demuxed::Packet(8)).unwrap(), Next::Skip);
    assert_eq!(decoding.demuxed(Demuxed::End).unwrap(), Next::Finish);
    let err = decoding.demuxed(Demuxed::Failed("cut short".to_string())).unwrap_err();
    assert_eq!(err.code(), ErrorCode::DecodeFailed);
    assert_eq!(err.message(), "decode failed: demux error: cut short");
}

#[test]
fn a_run_of_corrupt_packets_is_skipped_up_to_the_bound() {
    let corrupt = || Decoded::Corrupt("bad".to_string());
    let audio = Decoded::Audio { rate: 16_000, channels: 1, len: 512 };
    let mut decoding = Decoding::begin("a.ogg", Opened::Ready(0)).unwrap();
    for round in 0..3 {
        for skipped in 1..=MAX_BAD_PACKETS {
            assert_eq!(decoding.decoded(corrupt()).unwrap(), Kept::Skipped(skipped), "{round}");
        }
        assert_eq!(decoding.decoded(audio.clone()).unwrap(), Kept::Frames(512));
    }
    for _ in 0..MAX_BAD_PACKETS {
        decoding.decoded(corrupt()).unwrap();
    }
    assert_eq!(
        decoding.decoded(corrupt()).unwrap_err().message(),
        "decode failed: decoder error after 32 skipped packets: bad"
    );
}

#[test]
fn a_broken_decoder_is_refused_at_once() {
    let mut decoding = Decoding::begin("a.ogg", Opened::Ready(0)).unwrap();
    assert_eq!(
        decoding.decoded(Decoded::Broken("reset".to_string())).unwrap_err().message(),
        "decode failed: decoder error after 0 skipped packets: reset"
    );
}

#[test]
fn the_rate_decides_how_to_resample() {
    assert_eq!(plan(10, TARGET_RATE), Plan::Keep);
    assert_eq!(plan(0, 44_100), Plan::Keep);
    assert_eq!(plan(10, 44_100), Plan::FilterAndInterpolate);
    assert_eq!(plan(10, 8_000), Plan::Interpolate);
    assert_eq!(plan(10, MAX_INPUT_RATE), Plan::FilterAndInterpolate);
}

/// A 16-bit PCM WAV file.
fn wav(rate: u32, channels: u16, samples: &[i16]) -> Vec<u8> {
    let data = 2 * samples.len() as u32;
    let mut bytes = Vec::new();
    bytes.extend_from_slice(b"RIFF");
    bytes.extend_from_slice(&(36 + data).to_le_bytes());
    bytes.extend_from_slice(b"WAVEfmt ");
    bytes.extend_from_slice(&16u32.to_le_bytes());
    bytes.extend_from_slice(&1u16.to_le_bytes());
    bytes.extend_from_slice(&channels.to_le_bytes());
    bytes.extend_from_slice(&rate.to_le_bytes());
    bytes.extend_from_slice(&(rate * channels as u32 * 2).to_le_bytes());
    bytes.extend_from_slice(&(channels * 2).to_le_bytes());
    bytes.extend_from_slice(&16u16.to_le_bytes());
    bytes.extend_from_slice(b"data");
    bytes.extend_from_slice(&data.to_le_bytes());
    for sample in samples {
        bytes.extend_from_slice(&sample.to_le_bytes());
    }
    bytes
}

/// Decode a file in memory, as far as its frames and its rate.
fn decode_bytes(bytes: Vec<u8>) -> Result<(usize, u32), DecodeError> {
    let path = "memory.wav";
    let stream =
        symphonia::core::io::MediaSourceStream::new(Box::new(std::io::Cursor::new(bytes)), Default::default());
    let probed = symphonia::default::get_probe().probe(
        &symphonia::core::formats::probe::Hint::new(),
        stream,
        symphonia::core::formats::FormatOptions::default(),
        symphonia::core::meta::MetadataOptions::default(),
    );
    let mut format = match probed {
        Ok(format) => format,
        Err(e) => {
            let opened = Opened::NoContainer(e.to_string());
            return Err(Decoding::begin(path, opened).unwrap_err());
        }
    };
    let track = format.default_track(symphonia::core::formats::TrackType::Audio).expect("a track");
    let track_id = track.id;
    let params = track.codec_params.as_ref().and_then(|p| p.audio()).expect("parameters").clone();
    let mut decoder = symphonia::default::get_codecs()
        .make_audio_decoder(&params, &symphonia::core::codecs::audio::AudioDecoderOptions::default())
        .expect("a decoder");
    let mut decoding = Decoding::begin(path, Opened::Ready(track_id))?;
    loop {
        let (demuxed, packet) = match format.next_packet() {
            Ok(Some(packet)) => (Demuxed::Packet(packet.track_id), Some(packet)),
            Ok(None) => (Demuxed::End, None),
            Err(e) => (Demuxed::Failed(e.to_string()), None),
        };
        match (decoding.demuxed(demuxed)?, packet) {
            (Next::Decode, Some(packet)) => {
                let decoded = match decoder.decode(&packet) {
                    Ok(buffer) => Decoded::Audio {
                        rate: buffer.spec().rate(),
                        channels: buffer.spec().channels().count(),
                        len: buffer.samples_interleaved(),
                    },
                    Err(e) => Decoded::Broken(e.to_string()),
                };
                decoding.decoded(decoded)?;
            }
            (Next::Finish, _) => {
                let rate = decoding.mono.finish()?;
                return Ok((decoding.mono.frames, rate));
            }
            _ => {}
        }
    }
}

#[test]
fn a_wav_file_is_decoded_frame_by_frame() {
    let samples = vec![1000i16; 13_230];
    assert_eq!(decode_bytes(wav(44_100, 1, &samples)).unwrap(), (13_230, 44_100));
    assert_eq!(decode_bytes(wav(8_000, 2, &samples)).unwrap(), (6_615, 8_000));
}

#[test]
fn a_file_that_is_not_a_container_is_refused() {
    let err = decode_bytes(b"#!AMR\n and then nothing that anything could decode".to_vec())
        .unwrap_err();
    assert!(
        matches!(err, DecodeError::Unsupported { .. } | DecodeError::Failed { .. }),
        "{err:?}"
    );
    assert_eq!(err.code(), ErrorCode::DecodeFailed);
}
