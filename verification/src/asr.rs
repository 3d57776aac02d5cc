//! The recognition seam.
//!
//! [`Engine`] is the backend. It is chosen once, never per call, so there is
//! exactly one recognition path in any given binary.
use vstd::prelude::*;
use crate::protocol::ErrorCode;
use crate::vad::{Segmenter, VadError};

verus! {

/// Why the engine could not do its job.
#[derive(Debug, Clone, PartialEq, Eq)]
pub enum EngineError {
    /// The ASR model directory is missing, incomplete, or unreadable.
    ModelLoad {
        /// The model directory that was rejected.
        dir: String,
        /// Why it was rejected.
        detail: String,
    },
    /// Recognition itself failed.
    Recognition(String),
    /// The segmenter could not be created.
    Vad(VadError),
}

impl EngineError {
    /// The wire error code this maps to.
    pub open spec fn spec_code(self) -> ErrorCode {
        match self {
            EngineError::ModelLoad { .. } => ErrorCode::ModelLoadFailed,
            EngineError::Recognition(_) => ErrorCode::Internal,
            EngineError::Vad(_) => ErrorCode::ModelLoadFailed,
        }
    }

    /// The error in words.
    pub open spec fn spec_message(self) -> Seq<char> {
        match self {
            EngineError::ModelLoad { dir, detail } => "cannot load model from "@ + dir@ + ": "@
                + detail@,
            EngineError::Recognition(detail) => "recognition failed: "@ + detail@,
            EngineError::Vad(error) => error.spec_message(),
        }
    }

    /// The wire error code this maps to.
    pub fn code(&self) -> (code: ErrorCode)
        ensures
            code == self.spec_code(),
    {
        match self {
            EngineError::ModelLoad { .. } => ErrorCode::ModelLoadFailed,
            EngineError::Recognition(_) => ErrorCode::Internal,
            EngineError::Vad(_) => ErrorCode::ModelLoadFailed,
        }
    }

    /// The error in words.
    pub fn message(&self) -> (message: String)
        ensures
            message@ == self.spec_message(),
    {
        match self {
            EngineError::ModelLoad { dir, detail } => {
                let mut message = "cannot load model from ".to_owned();
                message.append(dir.as_str());
                message.append(": ");
                message.append(detail.as_str());
                message
            },
            EngineError::Recognition(detail) => {
                let mut message = "recognition failed: ".to_owned();
                message.append(detail.as_str());
                message
            },
            EngineError::Vad(error) => error.message(),
        }
    }
}

/// A loaded ASR model, bound to one request or one live stream.
///
/// Batch and streaming stay separate methods: both may run the same offline
/// decode, but the streaming call is the one an online recognizer would
/// implement its own way, and the session should not have to change when it
/// does.
///
/// What a recognizer hears is its own affair: an implementation may say it through
/// `batch_outcome` and `segment_outcome`, which leave every answer open otherwise.
pub trait Recognizer: Send + Sized {
    /// Whether recognizing a whole file's `pcm` may leave the recognizer as `after`
    /// and answer `heard`.
    open spec fn batch_outcome(
        &self,
        pcm: Seq<i16>,
        after: &Self,
        heard: Result<String, EngineError>,
    ) -> bool {
        true
    }

    /// Whether recognizing the utterance `pcm` may leave the recognizer as `after`
    /// and answer `heard`.
    open spec fn segment_outcome(
        &self,
        pcm: Seq<i16>,
        after: &Self,
        heard: Result<String, EngineError>,
    ) -> bool {
        true
    }

    /// Recognize a whole file's PCM in one shot.
    fn transcribe_batch(&mut self, pcm: &[i16]) -> (heard: Result<String, EngineError>)
        ensures
            old(self).batch_outcome(pcm@, final(self), heard),
    ;

    /// Recognize one utterance from a live stream.
    fn transcribe_segment(&mut self, pcm: &[i16]) -> (heard: Result<String, EngineError>)
        ensures
            old(self).segment_outcome(pcm@, final(self), heard),
    ;
}

/// The backend: loads models and builds segmenters.
///
/// Which models load is the backend's affair: an implementation may say it through
/// `load_outcome` and `segmenter_outcome`, which leave every answer open otherwise.
pub trait Engine: Send + Sized {
    /// The models it loads.
    type Recognizer: Recognizer;

    /// The segmenters it builds.
    type Segmenter: Segmenter;

    /// Whether loading `model_dir` may answer `loaded`.
    open spec fn load_outcome(
        &self,
        model_dir: Seq<char>,
        loaded: Result<Self::Recognizer, EngineError>,
    ) -> bool {
        true
    }

    /// Whether building a segmenter may answer `built`.
    open spec fn segmenter_outcome(&self, built: Result<Self::Segmenter, EngineError>) -> bool {
        true
    }

    /// Whether `name` may be the backend's name.
    open spec fn is_name(&self, name: Seq<char>) -> bool {
        true
    }

    /// Human-readable backend name, for diagnostics on stderr.
    fn name(&self) -> (name: &'static str)
        ensures
            self.is_name(name@),
    ;

    /// Load the ASR model in `model_dir`. Called per request, never at startup:
    /// `hello` must go out before any model touches disk.
    fn load(&self, model_dir: &str) -> (loaded: Result<Self::Recognizer, EngineError>)
        ensures
            self.load_outcome(model_dir@, loaded),
    ;

    /// A fresh segmenter for one live stream.
    fn segmenter(&self) -> (built: Result<Self::Segmenter, EngineError>)
        ensures
            self.segmenter_outcome(built),
            built matches Ok(segmenter) ==> segmenter.wf(),
    ;
}

} // verus!
