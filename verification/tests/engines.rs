//! The backends.

use fermix_stt::asr::{Engine, EngineError, Recognizer};
use fermix_stt::engine::compiled_in;
use fermix_stt::engine::null::NullEngine;
use fermix_stt::engine::sherpa::{
    detector_refused, drains_on, rejected, transcript, unheard, utterance, ModelFiles,
    SherpaEngine, MAX_SEGMENTS_PER_DRAIN,
};
use fermix_stt::protocol::ErrorCode;
use fermix_stt::vad::{Segmenter, VadError};

#[test]
fn loading_a_missing_directory_is_a_model_load_failure() {
    let Err(err) = NullEngine.load("/nonexistent/fermix-stt/models") else {
        panic!("a missing directory must not load");
    };
    assert_eq!(err.code(), ErrorCode::ModelLoadFailed);
    assert_eq!(
        err.message(),
        "cannot load model from /nonexistent/fermix-stt/models: not a directory"
    );
}

#[test]
fn loading_an_existing_directory_succeeds() {
    let mut recognizer = NullEngine.load("/").unwrap();
    assert_eq!(
        recognizer.transcribe_batch(&[0, 0, 0]).unwrap(),
        "[null-recognizer batch 3 samples]"
    );
    assert_eq!(
        recognizer.transcribe_segment(&[0; 12]).unwrap(),
        "[null-recognizer segment 12 samples]"
    );
}

#[test]
fn what_loads_depends_on_what_is_found() {
    assert!(NullEngine.load_found("/models", true).is_ok());
    assert_eq!(
        NullEngine.load_found("/models", false).unwrap_err(),
        EngineError::ModelLoad {
            dir: "/models".to_string(),
            detail: "not a directory".to_string(),
        }
    );
}

#[test]
fn the_compiled_in_engine_names_itself_and_segments() {
    let engine = compiled_in();
    assert_eq!(engine.name(), "null");
    let mut segmenter = engine.segmenter().unwrap();
    assert!(segmenter.flush().unwrap().is_empty());
}

#[test]
fn engine_errors_say_what_went_wrong() {
    let recognition = EngineError::Recognition("noise".to_string());
    assert_eq!(recognition.code(), ErrorCode::Internal);
    assert_eq!(recognition.message(), "recognition failed: noise");
    let vad = EngineError::Vad(VadError::Unavailable("no model".to_string()));
    assert_eq!(vad.code(), ErrorCode::ModelLoadFailed);
    assert_eq!(vad.message(), "voice activity detector unavailable: no model");
}

#[test]
fn a_model_directory_needs_every_file() {
    let all = ModelFiles { encoder: true, decoder: true, joiner: true, tokens: true };
    assert!(all.check("/m").is_ok());
    let some = ModelFiles { decoder: false, tokens: false, ..all };
    assert_eq!(
        some.check("/m").unwrap_err().message(),
        "cannot load model from /m: missing decoder.int8.onnx, tokens.txt"
    );
    let none = ModelFiles { encoder: false, decoder: false, joiner: false, tokens: false };
    assert_eq!(
        none.check("/m").unwrap_err(),
        EngineError::ModelLoad {
            dir: "/m".to_string(),
            detail: "missing encoder.int8.onnx, decoder.int8.onnx, joiner.int8.onnx, tokens.txt"
                .to_string(),
        }
    );
    assert_eq!(
        rejected("/m").message(),
        "cannot load model from /m: sherpa-onnx rejected the model configuration"
    );
}

#[test]
fn a_transcript_is_trimmed_and_owed() {
    assert_eq!(transcript(Some(" two words\n".to_string())).unwrap(), "two words");
    assert_eq!(
        transcript(None).unwrap_err(),
        EngineError::Recognition("sherpa-onnx returned no result".to_string())
    );
}

#[test]
fn a_segment_becomes_an_utterance() {
    let cut = utterance(32_000, vec![7; 1600]);
    assert_eq!((cut.t0_ms, cut.t1_ms), (2000, 2100));
    assert_eq!(cut.pcm, vec![7; 1600]);
    assert_eq!(utterance(-5, vec![0; 16]).t0_ms, 0);
    assert_eq!(utterance(-5, vec![0; 16]).t1_ms, 1);
}

#[test]
fn the_detector_is_staged_once() {
    let mut engine = SherpaEngine::new();
    assert!(!engine.is_staged());
    assert_eq!(
        engine.vad_model_path(Err("disk full".to_string())).unwrap_err().message(),
        "voice activity detector unavailable: cannot stage Silero VAD: disk full"
    );
    assert!(!engine.is_staged());
    assert_eq!(engine.vad_model_path(Ok("/tmp/a".to_string())).unwrap(), "/tmp/a");
    assert!(engine.is_staged());
    assert_eq!(engine.vad_model_path(Ok("/tmp/b".to_string())).unwrap(), "/tmp/a");
    assert_eq!(engine.vad_model_path(Err("gone".to_string())).unwrap(), "/tmp/a");
    assert_eq!(
        detector_refused("/tmp/a"),
        VadError::Unavailable("Silero VAD refused /tmp/a".to_string())
    );
}

#[test]
fn no_samples_are_an_empty_transcript() {
    assert_eq!(unheard(&[]), Some(String::new()));
    assert_eq!(unheard(&[0]), None);
}

#[test]
fn a_drain_pass_is_bounded() {
    assert_eq!(MAX_SEGMENTS_PER_DRAIN, 1024);
    assert!(drains_on(0));
    assert!(drains_on(1023));
    assert!(!drains_on(1024));
}
