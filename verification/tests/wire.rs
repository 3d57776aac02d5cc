//! Whole NDJSON sessions, driven in-process.

use base64::Engine as _;
use fermix_stt::asr::{Engine, EngineError, Recognizer};
use fermix_stt::decode::{DecodeError, Pcm};
use fermix_stt::engine::compiled_in;
use fermix_stt::ndjson::{EventWriter, Line, LineReader};
use fermix_stt::protocol::{ErrorCode, Event, Op, ENGINE, PROTOCOL_VERSION};
use fermix_stt::session::{run, Flow, Phase, Session};
use fermix_stt::vad::{EnergyParams, EnergySegmenter, Segmenter, Utterance, VadError, FRAME_SAMPLES};

/// What a [`StubEngine`] should do when asked to recognize.
#[derive(Debug, Clone)]
enum Behavior {
    /// Return this text for every utterance.
    Text(String),
    /// Return these texts, one after the other.
    Texts(Vec<String>),
    /// Fail to load the model.
    FailLoad,
    /// Load fine, then fail recognition.
    FailRecognize,
    /// Fail to build a segmenter.
    FailSegmenter,
    /// Fail to segment audio.
    FailPush,
    /// Fail to flush the segmenter.
    FailFlush,
}

/// An engine with no model behind it, used to drive the wire.
#[derive(Debug, Clone)]
struct StubEngine {
    behavior: Behavior,
}

impl StubEngine {
    fn saying(text: &str) -> Self {
        StubEngine { behavior: Behavior::Text(text.to_string()) }
    }

    fn failing_to_load() -> Self {
        StubEngine { behavior: Behavior::FailLoad }
    }

    fn failing_to_recognize() -> Self {
        StubEngine { behavior: Behavior::FailRecognize }
    }
}

impl Engine for StubEngine {
    type Recognizer = StubRecognizer;
    type Segmenter = StubSegmenter;

    fn name(&self) -> &'static str {
        "stub"
    }

    fn load(&self, model_dir: &str) -> Result<StubRecognizer, EngineError> {
        match &self.behavior {
            Behavior::FailLoad => Err(EngineError::ModelLoad {
                dir: model_dir.to_string(),
                detail: "stub refuses every model".to_string(),
            }),
            other => Ok(StubRecognizer { behavior: other.clone(), heard: 0 }),
        }
    }

    fn segmenter(&self) -> Result<StubSegmenter, EngineError> {
        if matches!(self.behavior, Behavior::FailSegmenter) {
            return Err(EngineError::Vad(VadError::Unavailable("no detector".to_string())));
        }
        Ok(StubSegmenter {
            behavior: self.behavior.clone(),
            inner: EnergySegmenter::new(EnergyParams::default()),
        })
    }
}

struct StubSegmenter {
    behavior: Behavior,
    inner: EnergySegmenter,
}

impl Segmenter for StubSegmenter {
    fn push(&mut self, pcm: &[i16]) -> Result<Vec<Utterance>, VadError> {
        if matches!(self.behavior, Behavior::FailPush) {
            return Err(VadError::Unavailable("cannot push".to_string()));
        }
        self.inner.push(pcm)
    }

    fn flush(&mut self) -> Result<Vec<Utterance>, VadError> {
        if matches!(self.behavior, Behavior::FailFlush) {
            return Err(VadError::Unavailable("cannot flush".to_string()));
        }
        self.inner.flush()
    }
}

struct StubRecognizer {
    behavior: Behavior,
    heard: usize,
}

impl StubRecognizer {
    fn answer(&mut self) -> Result<String, EngineError> {
        self.heard += 1;
        match &self.behavior {
            Behavior::Text(text) => Ok(text.clone()),
            Behavior::Texts(texts) => Ok(texts[self.heard - 1].clone()),
            Behavior::FailRecognize => {
                Err(EngineError::Recognition("stub cannot recognize".to_string()))
            }
            _ => Ok("unused".to_string()),
        }
    }
}

impl Recognizer for StubRecognizer {
    fn transcribe_batch(&mut self, _pcm: &[i16]) -> Result<String, EngineError> {
        self.answer()
    }

    fn transcribe_segment(&mut self, _pcm: &[i16]) -> Result<String, EngineError> {
        self.answer()
    }
}

fn text_of(value: &serde_json::Value, key: &str) -> Result<String, String> {
    match value.get(key).and_then(|v| v.as_str()) {
        Some(text) => Ok(text.to_string()),
        None => Err(format!("missing field `{key}`")),
    }
}

fn number_of(value: &serde_json::Value, key: &str) -> Result<u64, String> {
    value.get(key).and_then(|v| v.as_u64()).ok_or(format!("missing field `{key}`"))
}

fn parse_op(text: &str) -> Result<Op, String> {
    let value: serde_json::Value = serde_json::from_str(text).map_err(|e| e.to_string())?;
    match text_of(&value, "op")?.as_str() {
        "transcribe" => Ok(Op::Transcribe {
            id: text_of(&value, "id")?,
            path: text_of(&value, "path")?,
            model_dir: text_of(&value, "model_dir")?,
        }),
        "stream_start" => Ok(Op::StreamStart {
            id: text_of(&value, "id")?,
            model_dir: text_of(&value, "model_dir")?,
            sample_rate: number_of(&value, "sample_rate")? as u32,
            format: text_of(&value, "format")?,
            channels: number_of(&value, "channels")? as u16,
        }),
        "audio" => Ok(Op::Audio { id: text_of(&value, "id")?, pcm: text_of(&value, "pcm")? }),
        "stream_end" => Ok(Op::StreamEnd { id: text_of(&value, "id")? }),
        "shutdown" => Ok(Op::Shutdown),
        other => Err(format!("unknown variant `{other}`")),
    }
}

fn parse_event(line: &str) -> Event {
    let value: serde_json::Value = serde_json::from_str(line).expect("an event is JSON");
    let text = |key: &str| text_of(&value, key).expect("a text");
    let number = |key: &str| number_of(&value, key).expect("a number");
    match text("event").as_str() {
        "hello" => Event::Hello {
            protocol_version: number("protocol_version") as u32,
            engine: text("engine"),
            stt_version: text("stt_version"),
        },
        "result" => Event::Result {
            id: text("id"),
            text: text("text"),
            duration_ms: number("duration_ms"),
        },
        "stream_started" => Event::StreamStarted { id: text("id") },
        "segment" => Event::Segment {
            id: text("id"),
            text: text("text"),
            t0_ms: number("t0_ms"),
            t1_ms: number("t1_ms"),
        },
        "stream_done" => Event::StreamDone { id: text("id"), segments: number("segments") },
        "error" => Event::Error {
            id: text("id"),
            code: match text("code").as_str() {
                "model_load_failed" => ErrorCode::ModelLoadFailed,
                "decode_failed" => ErrorCode::DecodeFailed,
                "io_error" => ErrorCode::IoError,
                "bad_request" => ErrorCode::BadRequest,
                "internal" => ErrorCode::Internal,
                other => panic!("unknown code {other}"),
            },
            message: text("message"),
        },
        other => panic!("unknown event {other}"),
    }
}

/// Files that the driver below can decode: 300 ms of audio, junk, and nothing.
fn decode(path: &str) -> Result<Pcm, DecodeError> {
    if path == wav_fixture() {
        return Ok(Pcm::new(vec![0; 4800]));
    }
    if path == junk_fixture() {
        return Err(DecodeError::Unsupported { detail: format!("{path} (no such format)") });
    }
    Err(DecodeError::Io { path: path.to_string(), detail: "no such file".to_string() })
}

/// Run a whole session in-process against `input` and return the raw output.
fn drive_raw<E: Engine>(engine: E, input: &str) -> Vec<u8> {
    let (mut session, mut flow): (Session<E>, Flow) = run(engine, "9.9.9");
    let mut writer = EventWriter::new(Vec::new());
    let mut reader = LineReader::new();
    let mut rest = input.as_bytes();
    loop {
        flow = match flow {
            Flow::Stop => return writer.into_inner(),
            Flow::Send(event) => {
                writer.deliver(&event);
                session.resume()
            }
            Flow::Continue => {
                assert_eq!(session.phase(), Phase::Line);
                session.handle(next_line(&mut reader, &mut rest))
            }
            Flow::Parse(text) => session.handle_text(&text, parse_op(&text)),
            Flow::Decode(path) => {
                assert_eq!(session.phase(), Phase::Decode);
                session.decoded(decode(&path))
            }
        };
    }
}

fn next_line(reader: &mut LineReader, rest: &mut &[u8]) -> Line {
    loop {
        let chunk = &rest[..rest.len().min(8192)];
        let taken = reader.next_line(chunk);
        *rest = &rest[taken.consumed..];
        if let Some(line) = taken.line {
            return line;
        }
    }
}

/// Run a whole session in-process and decode every event it emitted.
fn drive<E: Engine>(engine: E, input: &str) -> Vec<Event> {
    let raw = drive_raw(engine, input);
    String::from_utf8(raw).expect("the output is UTF-8").lines().map(parse_event).collect()
}

/// One `audio` op carrying `samples` as base64 s16le.
fn audio_op(id: &str, samples: &[i16]) -> String {
    let bytes: Vec<u8> = samples.iter().flat_map(|s| s.to_le_bytes()).collect();
    let pcm = base64::engine::general_purpose::STANDARD.encode(bytes);
    format!("{{\"op\":\"audio\",\"id\":\"{id}\",\"pcm\":\"{pcm}\"}}")
}

/// Loud audio: `frames` frames of a tone the energy segmenter counts as speech.
fn tone(frames: usize) -> Vec<i16> {
    (0..frames * FRAME_SAMPLES).map(|i| ((i as f32 * 0.2).sin() * 8000.0) as i16).collect()
}

/// Digital silence, `frames` frames long.
fn silence(frames: usize) -> Vec<i16> {
    vec![0; frames * FRAME_SAMPLES]
}

fn wav_fixture() -> String {
    "/fixtures/sine_440_44k1_mono.wav".to_string()
}

fn junk_fixture() -> String {
    "/fixtures/not_audio.amr".to_string()
}

fn model_dir() -> String {
    "/".to_string()
}

fn assert_hello(event: &Event) {
    let Event::Hello { protocol_version, engine, stt_version } = event else {
        panic!("the first event must be hello, got {event:?}");
    };
    assert_eq!(*protocol_version, PROTOCOL_VERSION);
    assert_eq!(engine, ENGINE);
    assert_eq!(stt_version, "9.9.9");
}

fn transcribe_op(id: &str, path: &str) -> String {
    format!(
        "{{\"op\":\"transcribe\",\"id\":\"{id}\",\"path\":\"{path}\",\"model_dir\":\"{}\"}}\n",
        model_dir()
    )
}

fn start_op(id: &str) -> String {
    format!(
        "{{\"op\":\"stream_start\",\"id\":\"{id}\",\"model_dir\":\"{}\",\
         \"sample_rate\":16000,\"format\":\"s16le\",\"channels\":1}}\n",
        model_dir()
    )
}

fn is_refusal(event: &Event, expected: &str) -> bool {
    matches!(event, Event::Error { id, code, .. }
        if id == expected && *code == ErrorCode::BadRequest)
}

fn message_of(event: &Event) -> String {
    match event {
        Event::Error { message, .. } => message.clone(),
        other => panic!("expected an error, got {other:?}"),
    }
}

#[test]
fn hello_is_the_first_line_even_with_no_input() {
    let events = drive(StubEngine::saying("hi"), "");
    assert_eq!(events.len(), 1);
    assert_hello(&events[0]);
}

#[test]
fn transcribe_decodes_and_replies_with_one_result() {
    let input = format!("{}{{\"op\":\"shutdown\"}}\n", transcribe_op("b1", &wav_fixture()));
    let events = drive(StubEngine::saying("the quick brown fox"), &input);

    assert_eq!(events.len(), 2, "{events:?}");
    assert_hello(&events[0]);
    let Event::Result { id, text, duration_ms } = &events[1] else {
        panic!("expected a result, got {:?}", events[1]);
    };
    assert_eq!(id, "b1");
    assert_eq!(text, "the quick brown fox");
    assert!((295..=305).contains(duration_ms), "duration_ms was {duration_ms}");
}

#[test]
fn an_unsupported_container_is_a_decode_failure() {
    let events = drive(StubEngine::saying("unused"), &transcribe_op("b1", &junk_fixture()));
    let Event::Error { id, code, message } = &events[1] else {
        panic!("expected an error, got {:?}", events[1]);
    };
    assert_eq!(id, "b1");
    assert_eq!(*code, ErrorCode::DecodeFailed);
    assert!(!message.is_empty());
}

#[test]
fn wire_a_missing_file_is_an_io_error() {
    let events = drive(StubEngine::saying("unused"), &transcribe_op("b1", "/nonexistent/x.wav"));
    let Event::Error { code, .. } = &events[1] else {
        panic!("expected an error, got {:?}", events[1]);
    };
    assert_eq!(*code, ErrorCode::IoError);
}

#[test]
fn a_model_that_will_not_load_is_a_model_load_failure() {
    let events = drive(StubEngine::failing_to_load(), &transcribe_op("b1", &wav_fixture()));
    let Event::Error { code, .. } = &events[1] else {
        panic!("expected an error, got {:?}", events[1]);
    };
    assert_eq!(*code, ErrorCode::ModelLoadFailed);
    assert_eq!(
        message_of(&events[1]),
        "cannot load model from /: stub refuses every model"
    );
}

#[test]
fn a_batch_that_cannot_be_recognized_is_an_internal_error() {
    let events = drive(StubEngine::failing_to_recognize(), &transcribe_op("b1", &wav_fixture()));
    assert_eq!(events.len(), 2);
    assert_eq!(
        events[1],
        Event::error(
            "b1",
            ErrorCode::Internal,
            "recognition failed: stub cannot recognize".to_string()
        )
    );
}

/// The daemon's 8 MiB reassembly budget must hold for a realistic long
/// transcript: one compact object, one trailing newline, no interior newline.
#[test]
fn a_long_transcript_is_delivered_as_one_line() {
    let long = "supercalifragilistic ".repeat(60_000);
    let raw = drive_raw(StubEngine::saying(&long), &transcribe_op("b1", &wav_fixture()));

    let lines: Vec<&[u8]> = raw.split(|b| *b == b'\n').collect();
    // hello, result, and the empty tail after the final newline.
    assert_eq!(lines.len(), 3);
    assert!(lines[2].is_empty());
    assert!(lines[1].len() > 1_000_000, "line was {} bytes", lines[1].len());
    assert!(lines[1].len() < 8 * 1024 * 1024);

    let line = String::from_utf8(lines[1].to_vec()).unwrap();
    let Event::Result { text, .. } = parse_event(&line) else {
        panic!("expected a result");
    };
    assert_eq!(text.len(), long.len());
}

fn stream_script(id: &str) -> String {
    let mut audio = silence(3);
    audio.extend(tone(8));
    audio.extend(silence(20));
    audio.extend(tone(8));

    let mut script = start_op(id);
    // 16384 samples is 32768 bytes: half the per-frame ceiling.
    for chunk in audio.chunks(16_384) {
        script.push_str(&audio_op(id, chunk));
        script.push('\n');
    }
    script.push_str(&format!("{{\"op\":\"stream_end\",\"id\":\"{id}\"}}\n"));
    script.push_str("{\"op\":\"shutdown\"}\n");
    script
}

#[test]
fn a_stream_reports_started_then_segments_then_done() {
    let events = drive(StubEngine::saying("hello there"), &stream_script("s1"));

    assert_hello(&events[0]);
    assert!(
        matches!(&events[1], Event::StreamStarted { id } if id == "s1"),
        "{:?}",
        events[1]
    );

    let segments: Vec<&Event> = events[2..events.len() - 1].iter().collect();
    assert_eq!(segments.len(), 2, "expected two utterances: {events:?}");

    let mut previous_end = 0;
    for event in &segments {
        let Event::Segment { id, text, t0_ms, t1_ms } = event else {
            panic!("expected a segment, got {event:?}");
        };
        assert_eq!(id, "s1");
        assert_eq!(text, "hello there");
        assert!(t1_ms > t0_ms);
        assert!(*t0_ms >= previous_end, "segments overlap: {event:?}");
        previous_end = *t1_ms;
    }

    let last = events.last().expect("stream_done");
    assert!(
        matches!(last, Event::StreamDone { id, segments } if id == "s1" && *segments == 2),
        "{last:?}"
    );
}

#[test]
fn a_silent_stream_still_completes_with_zero_segments() {
    let id = "s1";
    let mut script = start_op(id);
    script.push_str(&audio_op(id, &silence(20)));
    script.push('\n');
    script.push_str(&format!("{{\"op\":\"stream_end\",\"id\":\"{id}\"}}\n"));

    let events = drive(StubEngine::saying("never spoken"), &script);
    assert_eq!(events.len(), 3, "{events:?}");
    assert!(matches!(events[2], Event::StreamDone { segments: 0, .. }));
}

#[test]
fn a_second_stream_start_before_stream_done_is_refused() {
    let events =
        drive(StubEngine::saying("x"), &format!("{}{}", start_op("s1"), start_op("s2")));

    assert!(matches!(&events[1], Event::StreamStarted { .. }));
    let Event::Error { id, code, .. } = &events[2] else {
        panic!("expected an error, got {:?}", events[2]);
    };
    assert_eq!(id, "s2");
    assert_eq!(*code, ErrorCode::BadRequest);
}

#[test]
fn a_refused_stream_start_leaves_the_live_stream_alone() {
    let script = stream_script("s1");
    let plain = drive(StubEngine::saying("x"), &script);
    let start = start_op("s1");
    let disturbed = script.replacen(&start, &format!("{start}{}", start_op("s2")), 1);
    let mut events = drive(StubEngine::saying("x"), &disturbed);
    assert!(is_refusal(&events[2], "s2"));
    assert_eq!(message_of(&events[2]), "a stream is already in flight");
    events.remove(2);
    assert_eq!(events, plain);
}

#[test]
fn a_batch_request_during_a_live_stream_is_refused() {
    let events = drive(
        StubEngine::saying("x"),
        &format!("{}{}", start_op("s1"), transcribe_op("b1", &wav_fixture())),
    );
    assert!(is_refusal(&events[2], "b1"), "{:?}", events[2]);
}

#[test]
fn a_stream_start_with_the_wrong_audio_shape_is_refused() {
    let input = start_op("s1").replace("16000", "48000");
    let events = drive(StubEngine::saying("x"), &input);
    assert!(
        matches!(&events[1], Event::Error { code, .. } if *code == ErrorCode::BadRequest),
        "{:?}",
        events[1]
    );
    assert_eq!(
        message_of(&events[1]),
        "stream must be 16000 Hz s16le x1, got 48000 Hz s16le x1"
    );
}

#[test]
fn a_stream_start_with_the_wrong_format_or_channels_is_refused() {
    let format = start_op("s1").replace("s16le", "f32le");
    let channels = start_op("s2").replace("\"channels\":1", "\"channels\":2");
    let events = drive(StubEngine::saying("x"), &format!("{format}{channels}"));
    assert_eq!(
        message_of(&events[1]),
        "stream must be 16000 Hz s16le x1, got 16000 Hz f32le x1"
    );
    assert_eq!(
        message_of(&events[2]),
        "stream must be 16000 Hz s16le x1, got 16000 Hz s16le x2"
    );
}

#[test]
fn a_stream_whose_model_does_not_load_is_not_started() {
    let input = format!("{}{}\n", start_op("s1"), audio_op("s1", &tone(1)));
    let events = drive(StubEngine::failing_to_load(), &input);
    assert!(
        matches!(&events[1], Event::Error { id, code, .. }
            if id == "s1" && *code == ErrorCode::ModelLoadFailed)
    );
    assert!(is_refusal(&events[2], "s1"));
}

#[test]
fn a_stream_without_a_segmenter_is_not_started() {
    let engine = StubEngine { behavior: Behavior::FailSegmenter };
    let events = drive(engine, &start_op("s1"));
    assert_eq!(
        events[1],
        Event::error(
            "s1",
            ErrorCode::ModelLoadFailed,
            "voice activity detector unavailable: no detector".to_string()
        )
    );
}

#[test]
fn audio_without_a_live_stream_is_refused() {
    let input = format!("{}\n", audio_op("s1", &tone(1)));
    let events = drive(StubEngine::saying("x"), &input);
    assert!(is_refusal(&events[1], "s1"), "{:?}", events[1]);
}

#[test]
fn the_end_of_a_stream_that_is_not_live_is_refused() {
    let events =
        drive(StubEngine::saying("x"), "{\"op\":\"stream_end\",\"id\":\"s1\"}\n");
    assert!(is_refusal(&events[1], "s1"));
    assert_eq!(message_of(&events[1]), "no live stream with that id");
}

#[test]
fn audio_for_a_different_stream_id_is_refused() {
    let input = format!("{}{}\n", start_op("s1"), audio_op("s9", &tone(1)));
    let events = drive(StubEngine::saying("x"), &input);
    assert!(is_refusal(&events[2], "s9"), "{:?}", events[2]);
}

#[test]
fn an_oversize_audio_frame_is_refused() {
    // 33_000 samples is 66_000 bytes, past the 65_536-byte frame ceiling.
    let input = format!("{}{}\n", start_op("s1"), audio_op("s1", &vec![0i16; 33_000]));
    let events = drive(StubEngine::saying("x"), &input);
    let Event::Error { code, message, .. } = &events[2] else {
        panic!("expected an error, got {:?}", events[2]);
    };
    assert_eq!(*code, ErrorCode::BadRequest);
    assert!(message.contains("ceiling"), "{message}");
    assert_eq!(message, "audio frame is 66000 bytes, over the 65536-byte ceiling");
}

#[test]
fn an_audio_frame_at_the_ceiling_is_taken() {
    let input = format!("{}{}\n", start_op("s1"), audio_op("s1", &vec![0i16; 32_768]));
    let events = drive(StubEngine::saying("x"), &input);
    assert_eq!(events.len(), 2, "{events:?}");
}

#[test]
fn malformed_base64_pcm_is_refused() {
    let input = format!(
        "{}{{\"op\":\"audio\",\"id\":\"s1\",\"pcm\":\"not base64!!\"}}\n",
        start_op("s1")
    );
    let events = drive(StubEngine::saying("x"), &input);
    assert!(
        matches!(&events[2], Event::Error { code, .. } if *code == ErrorCode::BadRequest),
        "{:?}",
        events[2]
    );
    assert_eq!(
        message_of(&events[2]),
        "pcm is not valid base64: Invalid symbol 32, offset 3."
    );
}

#[test]
fn an_odd_number_of_pcm_bytes_is_refused() {
    let input = format!(
        "{}{{\"op\":\"audio\",\"id\":\"s1\",\"pcm\":\"AA==\"}}\n",
        start_op("s1")
    );
    let events = drive(StubEngine::saying("x"), &input);
    assert!(is_refusal(&events[2], "s1"));
    assert_eq!(message_of(&events[2]), "s16le payload has an odd length (1 bytes)");
}

#[test]
fn a_recognition_failure_ends_the_stream_with_an_error() {
    let events = drive(StubEngine::failing_to_recognize(), &stream_script("s1"));
    assert!(matches!(&events[1], Event::StreamStarted { .. }));
    let Event::Error { id, code, .. } = &events[2] else {
        panic!("expected an error, got {:?}", events[2]);
    };
    assert_eq!(id, "s1");
    assert_eq!(*code, ErrorCode::Internal);

    // The stream is gone. Anything the daemon still had in flight is refused,
    // loudly, and no stream_done ever appears.
    assert!(
        !events.iter().any(|e| matches!(e, Event::StreamDone { .. })),
        "{events:?}"
    );
    for event in &events[3..] {
        assert!(
            matches!(event, Event::Error { code, .. } if *code == ErrorCode::BadRequest),
            "{event:?}"
        );
    }
}

#[test]
fn a_segmenter_that_fails_on_audio_ends_the_stream() {
    let input = format!("{}{}\n", start_op("s1"), audio_op("s1", &tone(1)));
    let engine = StubEngine { behavior: Behavior::FailPush };
    let events = drive(engine, &format!("{input}{}\n", audio_op("s1", &tone(1))));
    assert_eq!(
        events[2],
        Event::error(
            "s1",
            ErrorCode::Internal,
            "voice activity detector unavailable: cannot push".to_string()
        )
    );
    assert!(is_refusal(&events[3], "s1"));
}

#[test]
fn a_segmenter_that_fails_at_the_end_ends_the_stream() {
    let input = format!("{}{{\"op\":\"stream_end\",\"id\":\"s1\"}}\n", start_op("s1"));
    let engine = StubEngine { behavior: Behavior::FailFlush };
    let events = drive(engine, &input);
    assert_eq!(events.len(), 3);
    assert_eq!(
        events[2],
        Event::error(
            "s1",
            ErrorCode::Internal,
            "voice activity detector unavailable: cannot flush".to_string()
        )
    );
}

#[test]
fn an_utterance_without_words_is_not_sent_and_not_counted() {
    let engine = StubEngine {
        behavior: Behavior::Texts(vec![" \t\u{3000}\n".to_string(), " words ".to_string()]),
    };
    let events = drive(engine, &stream_script("s1"));
    assert_eq!(events.len(), 4, "{events:?}");
    assert!(matches!(&events[2], Event::Segment { text, .. } if text == " words "));
    assert!(matches!(&events[3], Event::StreamDone { segments: 1, .. }));
}

#[test]
fn every_utterance_of_one_frame_is_sent_in_order() {
    let mut audio = tone(8);
    audio.extend(silence(20));
    audio.extend(tone(8));
    audio.extend(silence(20));
    let engine = StubEngine {
        behavior: Behavior::Texts(vec!["one".to_string(), "two".to_string()]),
    };
    let mut script = start_op("s1");
    script.push_str(&audio_op("s1", &audio));
    script.push_str("\n{\"op\":\"stream_end\",\"id\":\"s1\"}\n");
    let events = drive(engine, &script);
    assert_eq!(events.len(), 5, "{events:?}");
    assert_eq!(
        events[2],
        Event::Segment { id: "s1".to_string(), text: "one".to_string(), t0_ms: 0, t1_ms: 256 }
    );
    assert_eq!(
        events[3],
        Event::Segment { id: "s1".to_string(), text: "two".to_string(), t0_ms: 768, t1_ms: 1152 }
    );
    assert_eq!(events[4], Event::StreamDone { id: "s1".to_string(), segments: 2 });
}

#[test]
fn each_stream_counts_its_own_segments() {
    let first = stream_script("s1").replace("{\"op\":\"shutdown\"}\n", "");
    let events = drive(StubEngine::saying("x"), &format!("{first}{}", stream_script("s2")));
    let counts: Vec<u64> = events
        .iter()
        .filter_map(|e| match e {
            Event::StreamDone { segments, .. } => Some(*segments),
            _ => None,
        })
        .collect();
    assert_eq!(counts, vec![2, 2]);
}

#[test]
fn an_unknown_op_is_refused_and_never_silent() {
    let events = drive(StubEngine::saying("x"), "{\"op\":\"teleport\",\"id\":\"z9\"}\n");
    let Event::Error { id, code, message } = &events[1] else {
        panic!("expected an error, got {:?}", events[1]);
    };
    assert_eq!(id, "z9");
    assert_eq!(*code, ErrorCode::BadRequest);
    assert!(message.contains("unhandled op"), "{message}");
}

#[test]
fn a_non_json_line_is_refused() {
    let events = drive(StubEngine::saying("x"), "this is not json\n\n");
    assert_eq!(events.len(), 3, "{events:?}");
    for event in &events[1..] {
        assert!(
            matches!(event, Event::Error { code, .. } if *code == ErrorCode::BadRequest),
            "{event:?}"
        );
    }
}

#[test]
fn an_oversize_line_is_refused_and_the_session_continues() {
    let huge = "a".repeat(9 * 1024 * 1024);
    let input =
        format!("{{\"op\":\"audio\",\"id\":\"s1\",\"pcm\":\"{huge}\"}}\n{{\"op\":\"shutdown\"}}\n");
    let events = drive(StubEngine::saying("x"), &input);

    assert_eq!(events.len(), 2, "{events:?}");
    let Event::Error { code, message, .. } = &events[1] else {
        panic!("expected an error, got {:?}", events[1]);
    };
    assert_eq!(*code, ErrorCode::BadRequest);
    assert!(message.contains("8 MiB"), "{message}");
}

#[test]
fn a_line_that_is_not_utf8_is_refused() {
    let mut session = Session::new(StubEngine::saying("x"));
    let flow = session.handle(Line::NotUtf8);
    assert_eq!(
        flow,
        Flow::Send(Event::error(
            "",
            ErrorCode::BadRequest,
            "line is not valid UTF-8".to_string()
        ))
    );
    assert_eq!(session.resume(), Flow::Continue);
}

#[test]
fn shutdown_stops_reading_immediately() {
    let input = format!("{{\"op\":\"shutdown\"}}\n{}", transcribe_op("b1", &wav_fixture()));
    let events = drive(StubEngine::saying("x"), &input);
    assert_eq!(events.len(), 1, "nothing after shutdown: {events:?}");
}

#[test]
fn two_batch_requests_in_a_row_each_get_one_reply() {
    let one = transcribe_op("b1", &wav_fixture());
    let two = one.replace("\"b1\"", "\"b2\"");
    let events = drive(StubEngine::saying("ok"), &format!("{one}{two}"));

    assert_eq!(events.len(), 3, "{events:?}");
    assert!(matches!(&events[1], Event::Result { id, .. } if id == "b1"));
    assert!(matches!(&events[2], Event::Result { id, .. } if id == "b2"));
}

#[test]
fn a_stream_can_be_followed_by_a_batch_request() {
    let mut script = stream_script("s1").replace("{\"op\":\"shutdown\"}\n", "");
    script.push_str(&transcribe_op("b1", &wav_fixture()));
    let events = drive(StubEngine::saying("ok"), &script);
    assert!(
        matches!(events.last(), Some(Event::Result { id, .. }) if id == "b1"),
        "{:?}",
        events.last()
    );
}

#[test]
fn a_batch_request_round_trips_through_the_null_engine() {
    let events = drive(compiled_in(), &transcribe_op("b1", &wav_fixture()));
    assert_eq!(
        events[1],
        Event::Result {
            id: "b1".to_string(),
            text: "[null-recognizer batch 4800 samples]".to_string(),
            duration_ms: 300,
        }
    );
}

#[test]
fn a_stream_round_trips_through_the_null_engine() {
    let mut audio = silence(2);
    audio.extend(tone(8));
    let mut input = start_op("s1");
    for chunk in audio.chunks(16_384) {
        input.push_str(&audio_op("s1", chunk));
        input.push('\n');
    }
    input.push_str("{\"op\":\"stream_end\",\"id\":\"s1\"}\n{\"op\":\"shutdown\"}\n");

    let events = drive(compiled_in(), &input);
    assert!(matches!(&events[1], Event::StreamStarted { id } if id == "s1"));
    assert_eq!(
        events[2],
        Event::Segment {
            id: "s1".to_string(),
            text: "[null-recognizer segment 5120 samples]".to_string(),
            t0_ms: 0,
            t1_ms: 320,
        }
    );
    assert!(matches!(events.last(), Some(Event::StreamDone { segments: 1, .. })));
}

#[test]
fn a_missing_model_directory_is_a_model_load_failure() {
    let input = format!(
        "{{\"op\":\"transcribe\",\"id\":\"b1\",\"path\":\"{}\",\
         \"model_dir\":\"/nonexistent/fermix-stt/models\"}}\n",
        wav_fixture()
    );
    let events = drive(compiled_in(), &input);
    assert!(
        matches!(&events[1], Event::Error { code, .. } if *code == ErrorCode::ModelLoadFailed),
        "{:?}",
        events[1]
    );
}

/// The documented sample of every event.
fn fixture(name: &str) -> &'static str {
    match name {
        "hello" => "{\"event\":\"hello\",\"protocol_version\":1,\"engine\":\"sherpa-onnx\",\"stt_version\":\"0.1.0\"}\n",
        "result" => "{\"event\":\"result\",\"id\":\"b1\",\"text\":\"The quick brown fox jumps over the lazy dog.\",\"duration_ms\":1840}\n",
        "stream_started" => "{\"event\":\"stream_started\",\"id\":\"s1\"}\n",
        "segment" => "{\"event\":\"segment\",\"id\":\"s1\",\"text\":\"the quick brown fox\",\"t0_ms\":0,\"t1_ms\":1200}\n",
        "stream_done" => "{\"event\":\"stream_done\",\"id\":\"s1\",\"segments\":2}\n",
        "error" => "{\"event\":\"error\",\"id\":\"b1\",\"code\":\"decode_failed\",\"message\":\"unsupported container: audio/amr\"}\n",
        other => panic!("no sample of {other}"),
    }
}

#[test]
fn fixtures_round_trip_byte_for_byte() {
    for name in ["hello", "result", "stream_started", "segment", "stream_done", "error"] {
        let raw = fixture(name);
        let mut writer = EventWriter::new(Vec::new());
        assert!(writer.write(&parse_event(raw)));
        assert_eq!(
            String::from_utf8(writer.into_inner()).unwrap(),
            raw,
            "{name} did not round-trip byte-for-byte"
        );
    }
}

#[test]
fn fixture_variants_decode_to_the_expected_shapes() {
    assert_eq!(
        parse_event(fixture("hello")),
        Event::Hello {
            protocol_version: PROTOCOL_VERSION,
            engine: ENGINE.to_string(),
            stt_version: "0.1.0".to_string(),
        }
    );
    let Event::Error { id, code, .. } = parse_event(fixture("error")) else {
        panic!("not an error event");
    };
    assert_eq!(id, "b1");
    assert_eq!(code, ErrorCode::DecodeFailed);
    assert_eq!(
        parse_event(fixture("stream_done")),
        Event::StreamDone { id: "s1".to_string(), segments: 2 }
    );
}

#[test]
fn a_transcript_too_long_for_a_line_is_an_error_instead() {
    let long = "x".repeat(9 * 1024 * 1024);
    let raw = drive_raw(StubEngine::saying(&long), &transcribe_op("b1", &wav_fixture()));
    assert!(raw.split(|b| *b == b'\n').all(|line| line.len() <= 8 * 1024 * 1024));
    let events: Vec<Event> =
        String::from_utf8(raw).unwrap().lines().map(parse_event).collect();
    assert_eq!(
        events[1],
        Event::error(
            "b1",
            ErrorCode::Internal,
            "event exceeds the 8 MiB protocol ceiling".to_string()
        )
    );
}

#[test]
fn a_segment_too_long_for_a_line_ends_the_stream() {
    let long = "x".repeat(9 * 1024 * 1024);
    let events = drive(StubEngine::saying(&long), &stream_script("s1"));
    assert_eq!(
        events[2],
        Event::error(
            "s1",
            ErrorCode::Internal,
            "event exceeds the 8 MiB protocol ceiling".to_string()
        )
    );
    assert!(events.len() > 3);
    assert!(events[3..].iter().all(|event| is_refusal(event, "s1")));
}

#[test]
fn an_id_too_long_to_echo_is_answered_without() {
    let id = "i".repeat(8 * 1024 * 1024 - 40);
    let raw = drive_raw(
        StubEngine::saying("x"),
        &format!("{{\"op\":\"stream_end\",\"id\":\"{id}\"}}\n"),
    );
    assert!(raw.split(|b| *b == b'\n').all(|line| line.len() <= 8 * 1024 * 1024));
    let events: Vec<Event> =
        String::from_utf8(raw).unwrap().lines().map(parse_event).collect();
    assert_eq!(
        events[1],
        Event::error(
            "",
            ErrorCode::BadRequest,
            "event exceeds the 8 MiB protocol ceiling".to_string()
        )
    );
}

#[test]
fn a_stream_whose_start_cannot_be_told_is_not_started() {
    let mut session = Session::new(StubEngine::saying("x"));
    let id = "i".repeat(8 * 1024 * 1024);
    let start = |id: &str| Op::StreamStart {
        id: id.to_string(),
        model_dir: model_dir(),
        sample_rate: 16000,
        format: "s16le".to_string(),
        channels: 1,
    };
    let flow = session.handle_text("", Ok(start(&id)));
    assert!(matches!(flow, Flow::Send(Event::Error { .. })));
    assert_eq!(session.resume(), Flow::Continue);
    let flow = session.handle_text("", Ok(start("s1")));
    assert_eq!(flow, Flow::Send(Event::StreamStarted { id: "s1".to_string() }));
}

#[test]
fn shutdown_and_the_end_of_the_input_serve_the_same() {
    let script = stream_script("s1").replace("{\"op\":\"shutdown\"}\n", "");
    let alone = drive_raw(StubEngine::saying("x"), &script);
    let cut_off = drive_raw(
        StubEngine::saying("x"),
        &format!("{script}{{\"op\":\"shutdown\"}}\n{}", stream_script("s2")),
    );
    assert_eq!(alone, cut_off);
}
