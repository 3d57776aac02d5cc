//! The bytes on the wire.

use fermix_stt::json::ObjectWriter;
use fermix_stt::protocol::{
    ErrorCode, Event, ENGINE, MAX_AUDIO_FRAME_BYTES, MAX_LINE_BYTES, PROTOCOL_VERSION,
    STREAM_CHANNELS, STREAM_FORMAT, STREAM_SAMPLE_RATE,
};
use fermix_stt::session::id_hint;
use fermix_stt::text::{decimal_text, join};
use fermix_stt::VERSION;

fn samples() -> Vec<(&'static str, Event)> {
    vec![
        (
            "{\"event\":\"hello\",\"protocol_version\":1,\"engine\":\"sherpa-onnx\",\"stt_version\":\"0.1.0\"}\n",
            Event::Hello {
                protocol_version: PROTOCOL_VERSION,
                engine: ENGINE.to_string(),
                stt_version: "0.1.0".to_string(),
            },
        ),
        (
            "{\"event\":\"result\",\"id\":\"b1\",\"text\":\"The quick brown fox jumps over the lazy dog.\",\"duration_ms\":1840}\n",
            Event::Result {
                id: "b1".to_string(),
                text: "The quick brown fox jumps over the lazy dog.".to_string(),
                duration_ms: 1840,
            },
        ),
        (
            "{\"event\":\"stream_started\",\"id\":\"s1\"}\n",
            Event::StreamStarted { id: "s1".to_string() },
        ),
        (
            "{\"event\":\"segment\",\"id\":\"s1\",\"text\":\"the quick brown fox\",\"t0_ms\":0,\"t1_ms\":1200}\n",
            Event::Segment {
                id: "s1".to_string(),
                text: "the quick brown fox".to_string(),
                t0_ms: 0,
                t1_ms: 1200,
            },
        ),
        (
            "{\"event\":\"stream_done\",\"id\":\"s1\",\"segments\":2}\n",
            Event::StreamDone { id: "s1".to_string(), segments: 2 },
        ),
        (
            "{\"event\":\"error\",\"id\":\"b1\",\"code\":\"decode_failed\",\"message\":\"unsupported container: audio/amr\"}\n",
            Event::error(
                "b1",
                ErrorCode::DecodeFailed,
                "unsupported container: audio/amr".to_string(),
            ),
        ),
    ]
}

#[test]
fn events_become_the_documented_bytes() {
    for (raw, event) in samples() {
        let mut encoded = event.to_json();
        encoded.push('\n');
        assert_eq!(encoded, raw);
    }
}

#[test]
fn different_events_are_different_lines() {
    let mut lines: Vec<String> = samples().iter().map(|(_, event)| event.to_json()).collect();
    lines.push(Event::StreamStarted { id: "s1\",\"x\":\"".to_string() }.to_json());
    lines.push(Event::StreamStarted { id: "s1\\".to_string() }.to_json());
    lines.push(Event::StreamDone { id: "s1".to_string(), segments: 20 }.to_json());
    for (i, line) in lines.iter().enumerate() {
        for other in &lines[i + 1..] {
            assert_ne!(line, other);
        }
    }
}

#[test]
fn texts_are_escaped_as_json_asks() {
    let event = Event::error(
        "\"\\\u{8}\t\n\u{c}\r\u{1f}/\u{7f}\u{e9}\u{1f600}",
        ErrorCode::BadRequest,
        String::new(),
    );
    assert_eq!(
        event.to_json(),
        "{\"event\":\"error\",\"id\":\"\\\"\\\\\\b\\t\\n\\f\\r\\u001f/\u{7f}\u{e9}\u{1f600}\",\
         \"code\":\"bad_request\",\"message\":\"\"}"
    );
    let value: serde_json::Value = serde_json::from_str(&event.to_json()).unwrap();
    assert_eq!(
        value.get("id").and_then(|id| id.as_str()),
        Some("\"\\\u{8}\t\n\u{c}\r\u{1f}/\u{7f}\u{e9}\u{1f600}")
    );
}

#[test]
fn codes_have_their_wire_names() {
    assert_eq!(ErrorCode::ModelLoadFailed.name(), "model_load_failed");
    assert_eq!(ErrorCode::DecodeFailed.name(), "decode_failed");
    assert_eq!(ErrorCode::IoError.name(), "io_error");
    assert_eq!(ErrorCode::BadRequest.name(), "bad_request");
    assert_eq!(ErrorCode::Internal.name(), "internal");
}

#[test]
fn the_constants_are_those_of_the_protocol() {
    assert_eq!(PROTOCOL_VERSION, 1);
    assert_eq!(ENGINE, "sherpa-onnx");
    assert_eq!(MAX_LINE_BYTES, 8 * 1024 * 1024);
    assert_eq!(MAX_AUDIO_FRAME_BYTES, 65536);
    assert_eq!(STREAM_SAMPLE_RATE, 16000);
    assert_eq!(STREAM_FORMAT, "s16le");
    assert_eq!(STREAM_CHANNELS, 1);
    assert_eq!(VERSION, "0.1.0");
    assert_eq!(
        Event::hello(VERSION),
        Event::Hello {
            protocol_version: 1,
            engine: "sherpa-onnx".to_string(),
            stt_version: "0.1.0".to_string(),
        }
    );
}

/// A long transcript must be written as exactly one line: no pretty-printing, no
/// embedded newline.
#[test]
fn a_long_result_is_one_line() {
    let text = "word ".repeat(400_000);
    let event = Event::Result { id: "b1".into(), text, duration_ms: 1_800_000 };

    let mut encoded = event.to_json().into_bytes();
    encoded.push(b'\n');

    assert!(encoded.len() > 1_000_000);
    assert!(encoded.len() < MAX_LINE_BYTES);
    assert_eq!(encoded.iter().filter(|b| **b == b'\n').count(), 1);
    assert_eq!(encoded.last(), Some(&b'\n'));
}

#[test]
fn an_id_is_read_where_there_is_one() {
    assert_eq!(id_hint("{\"op\":\"teleport\",\"id\":\"z\\u0039\"}"), "z9");
    assert_eq!(id_hint("{\"op\":\"teleport\",\"id\":7}"), "");
    assert_eq!(id_hint("{\"op\":\"teleport\"}"), "");
    assert_eq!(id_hint("[\"id\"]"), "");
    assert_eq!(id_hint("not json"), "");
    assert_eq!(id_hint(""), "");
}

#[test]
fn numbers_and_lists_are_spelled_out() {
    assert_eq!(decimal_text(0), "0");
    assert_eq!(decimal_text(1_002_030), "1002030");
    assert_eq!(decimal_text(u64::MAX), "18446744073709551615");
    let parts = vec!["a".to_string(), String::new(), "b".to_string()];
    assert_eq!(join(&parts, ", "), "a, , b");
    assert_eq!(join(&Vec::new(), ", "), "");
}

#[test]
fn an_object_without_members_is_empty() {
    assert_eq!(ObjectWriter::new().finish(), "{}");
}
