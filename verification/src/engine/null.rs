//! The hermetic engine.
//!
//! It exercises the whole wire, decode and segmentation path without a native
//! library, a model, or a network fetch. It does not recognize speech: every
//! transcript is a deterministic placeholder naming the sample count it was
//! handed.
use vstd::prelude::*;
use crate::asr::{Engine, EngineError, Recognizer};
use crate::segmentation::Segmentation;
use crate::text::{decimal, push_decimal};
use crate::vad::{EnergyParams, EnergySegmenter, Segmenter};

verus! {

/// Asks [`std::path::Path::is_dir`] whether there is a directory at `path` now.
/// Nothing is claimed of the answer, which is the file system's.
#[verifier::external_body]
fn is_dir(path: &str) -> (found: bool) {
    std::path::Path::new(path).is_dir()
}

/// The default engine.
#[derive(Debug, Default, Clone, Copy)]
pub struct NullEngine;

impl NullEngine {
    /// What loading the model in `model_dir` comes to, given whether that is a
    /// directory.
    pub fn load_found(&self, model_dir: &str, found: bool) -> (loaded: Result<
        NullRecognizer,
        EngineError,
    >)
        ensures
            match loaded {
                Ok(recognizer) => found && recognizer == NullRecognizer,
                Err(error) => {
                    &&& !found
                    &&& error matches EngineError::ModelLoad { dir, detail }
                    &&& dir@ == model_dir@
                    &&& detail@ == "not a directory"@
                },
            },
    {
        if !found {
            return Err(
                EngineError::ModelLoad {
                    dir: model_dir.to_owned(),
                    detail: "not a directory".to_owned(),
                },
            );
        }
        Ok(NullRecognizer)
    }
}

impl Engine for NullEngine {
    type Recognizer = NullRecognizer;

    type Segmenter = EnergySegmenter;

    open spec fn is_name(&self, name: Seq<char>) -> bool {
        name == "null"@
    }

    open spec fn load_outcome(
        &self,
        model_dir: Seq<char>,
        loaded: Result<NullRecognizer, EngineError>,
    ) -> bool {
        match loaded {
            Ok(recognizer) => recognizer == NullRecognizer,
            Err(error) => {
                &&& error matches EngineError::ModelLoad { dir, detail }
                &&& dir@ == model_dir
                &&& detail@ == "not a directory"@
            },
        }
    }

    open spec fn segmenter_outcome(&self, built: Result<EnergySegmenter, EngineError>) -> bool {
        &&& built matches Ok(segmenter)
        &&& segmenter@ == Segmentation::fresh()
        &&& segmenter.params().is_default()
    }

    fn name(&self) -> (name: &'static str) {
        "null"
    }

    fn load(&self, model_dir: &str) -> (loaded: Result<NullRecognizer, EngineError>) {
        let found = is_dir(model_dir);
        self.load_found(model_dir, found)
    }

    fn segmenter(&self) -> (built: Result<EnergySegmenter, EngineError>) {
        Ok(EnergySegmenter::new(EnergyParams::default()))
    }
}

/// Returns a placeholder transcript instead of recognizing speech.
#[derive(Debug, Default, Clone, Copy)]
pub struct NullRecognizer;

/// The placeholder for a transcript of `samples` samples.
pub open spec fn placeholder_text(kind: Seq<char>, samples: nat) -> Seq<char> {
    "[null-recognizer "@ + kind + " "@ + decimal(samples) + " samples]"@
}

impl NullRecognizer {
    fn placeholder(kind: &str, pcm: &[i16]) -> (text: String)
        ensures
            text@ == placeholder_text(kind@, pcm@.len()),
    {
        let mut text = "[null-recognizer ".to_owned();
        text.append(kind);
        text.append(" ");
        push_decimal(&mut text, pcm.len() as u64);
        text.append(" samples]");
        text
    }
}

impl Recognizer for NullRecognizer {
    open spec fn batch_outcome(
        &self,
        pcm: Seq<i16>,
        after: &Self,
        heard: Result<String, EngineError>,
    ) -> bool {
        heard matches Ok(text) && text@ == placeholder_text("batch"@, pcm.len())
    }

    open spec fn segment_outcome(
        &self,
        pcm: Seq<i16>,
        after: &Self,
        heard: Result<String, EngineError>,
    ) -> bool {
        heard matches Ok(text) && text@ == placeholder_text("segment"@, pcm.len())
    }

    fn transcribe_batch(&mut self, pcm: &[i16]) -> (heard: Result<String, EngineError>) {
        Ok(Self::placeholder("batch", pcm))
    }

    fn transcribe_segment(&mut self, pcm: &[i16]) -> (heard: Result<String, EngineError>) {
        Ok(Self::placeholder("segment", pcm))
    }
}

/// Whatever it is handed, the recognizer answers with how many samples that was, and
/// whether it was a whole file or an utterance.
pub proof fn law_placeholders_count_the_samples(
    before: NullRecognizer,
    pcm: Seq<i16>,
    after: NullRecognizer,
    heard: Result<String, EngineError>,
)
    ensures
        before.batch_outcome(pcm, &after, heard) ==> heard is Ok && heard->Ok_0@
            == "[null-recognizer "@ + "batch"@ + " "@ + decimal(pcm.len()) + " samples]"@,
        before.segment_outcome(pcm, &after, heard) ==> heard is Ok && heard->Ok_0@
            == "[null-recognizer "@ + "segment"@ + " "@ + decimal(pcm.len()) + " samples]"@,
{
}

/// Its segmenter can always be built, and is new: speech is what is louder than an
/// RMS of 350, a pause of 12 frames ends an utterance, 4 frames before its onset are
/// kept, it needs 2 frames of speech, and has 937 frames at most.
pub proof fn law_the_segmenter_is_new(engine: NullEngine, built: Result<EnergySegmenter, EngineError>)
    requires
        engine.segmenter_outcome(built),
    ensures
        built is Ok,
        ({
            let segmenter = built->Ok_0;
            &&& segmenter@.partial.len() == 0
            &&& segmenter@.cut.framed.len() == 0
            &&& segmenter@.cut.open is None
            &&& segmenter.params().speech_energy == 350 * 350 * 512
            &&& segmenter.params().hangover_frames == 12
            &&& segmenter.params().pre_roll_frames == 4
            &&& segmenter.params().min_voiced_frames == 2
            &&& segmenter.params().max_frames == 937
        }),
{
}

/// Loading answers a recognizer, or that the directory it was asked for is none.
pub proof fn law_only_a_missing_directory_fails(
    engine: NullEngine,
    model_dir: Seq<char>,
    loaded: Result<NullRecognizer, EngineError>,
)
    requires
        engine.load_outcome(model_dir, loaded),
    ensures
        loaded matches Err(error) ==> error.spec_code() == crate::protocol::ErrorCode::ModelLoadFailed
            && error.spec_message() == "cannot load model from "@ + model_dir + ": "@
            + "not a directory"@,
{
}

} // verus!
