//! The rules of the sherpa-onnx backend: which files make a model, and how what
//! the native library answers is read.
use vstd::prelude::*;
use crate::asr::EngineError;
use crate::text::{join, joined, texts, trim, trimmed};
use crate::vad::{ms, samples_to_ms, Utterance, VadError};

verus! {

/// The encoder's file in a Parakeet TDT model directory.
pub const ENCODER: &'static str = "encoder.int8.onnx";

/// The decoder's file.
pub const DECODER: &'static str = "decoder.int8.onnx";

/// The joiner's file.
pub const JOINER: &'static str = "joiner.int8.onnx";

/// The file that lists the tokens.
pub const TOKENS: &'static str = "tokens.txt";

/// The model family of a Parakeet TDT export.
pub const MODEL_TYPE: &'static str = "nemo_transducer";

/// Where models run.
pub const PROVIDER: &'static str = "cpu";

/// How transcripts are searched for.
pub const DECODING_METHOD: &'static str = "greedy_search";

/// Threads each recognizer and the VAD may use.
pub const NUM_THREADS: i32 = 2;

/// Upper bound on one drain pass. The queue holds at most a few segments per
/// audio frame; this only exists so the loop cannot run away.
pub const MAX_SEGMENTS_PER_DRAIN: usize = 1024;

/// The sherpa-onnx backend: where its voice-activity model was staged, if it was.
#[derive(Debug, Clone, Default)]
pub struct SherpaEngine {
    vad_model: Option<String>,
}

impl View for SherpaEngine {
    type V = Option<Seq<char>>;

    /// The path of the staged model.
    closed spec fn view(&self) -> Option<Seq<char>> {
        match self.vad_model {
            Some(path) => Some(path@),
            None => None,
        }
    }
}

impl SherpaEngine {
    /// A backend that has not yet touched the filesystem.
    pub fn new() -> (engine: Self)
        ensures
            engine@ is None,
    {
        SherpaEngine { vad_model: None }
    }

    /// Whether the voice-activity model was staged already.
    pub fn is_staged(&self) -> (staged: bool)
        ensures
            staged == (self@ is Some),
    {
        self.vad_model.is_some()
    }

    /// The path of the staged voice-activity model: where it was staged first, or
    /// else where it was `written` now.
    pub fn vad_model_path(&mut self, written: Result<String, String>) -> (path: Result<
        String,
        VadError,
    >)
        ensures
            match (old(self)@, written, path) {
                (Some(staged), _, Ok(path)) => path@ == staged && final(self)@ == old(self)@,
                (None, Ok(written), Ok(path)) => path@ == written@ && final(self)@ == Some(
                    written@,
                ),
                (None, Err(reason), Err(VadError::Unavailable(detail))) => {
                    &&& detail@ == "cannot stage Silero VAD: "@ + reason@
                    &&& final(self)@ is None
                },
                _ => false,
            },
    {
        if let Some(path) = &self.vad_model {
            return Ok(path.clone());
        }
        match written {
            Ok(path) => {
                self.vad_model = Some(path.clone());
                Ok(path)
            },
            Err(reason) => {
                let mut detail = "cannot stage Silero VAD: ".to_owned();
                detail.append(reason.as_str());
                Err(VadError::Unavailable(detail))
            },
        }
    }
}

/// The error for a voice-activity model that the native library does not take.
pub fn detector_refused(model_path: &str) -> (error: VadError)
    ensures
        error matches VadError::Unavailable(detail) && detail@ == "Silero VAD refused "@
            + model_path@,
{
    let mut detail = "Silero VAD refused ".to_owned();
    detail.append(model_path);
    VadError::Unavailable(detail)
}

/// Which of its files a model directory holds. Exact names, no probing: a
/// missing file is a loud `model_load_failed`, not a silent second guess.
#[derive(Debug, Clone, Copy, PartialEq, Eq)]
pub struct ModelFiles {
    /// Whether there is a file [`ENCODER`].
    pub encoder: bool,
    /// Whether there is a file [`DECODER`].
    pub decoder: bool,
    /// Whether there is a file [`JOINER`].
    pub joiner: bool,
    /// Whether there is a file [`TOKENS`].
    pub tokens: bool,
}

/// A list of one name, or of none.
pub open spec fn listed(name: Seq<char>, listed: bool) -> Seq<Seq<char>> {
    if listed {
        seq![name]
    } else {
        Seq::empty()
    }
}

impl ModelFiles {
    /// The names of the files that are not there.
    pub open spec fn missing(self) -> Seq<Seq<char>> {
        listed(ENCODER@, !self.encoder) + listed(DECODER@, !self.decoder) + listed(
            JOINER@,
            !self.joiner,
        ) + listed(TOKENS@, !self.tokens)
    }

    /// Refuse the model directory `dir` if it lacks a file.
    pub fn check(&self, dir: &str) -> (checked: Result<(), EngineError>)
        ensures
            match checked {
                Ok(_) => self.missing().len() == 0,
                Err(error) => {
                    &&& self.missing().len() > 0
                    &&& error matches EngineError::ModelLoad { dir: refused, detail }
                    &&& refused@ == dir@
                    &&& detail@ == "missing "@ + joined(self.missing(), ", "@)
                },
            },
    {
        let mut missing: Vec<String> = Vec::new();
        if !self.encoder {
            missing.push(ENCODER.to_owned());
        }
        if !self.decoder {
            missing.push(DECODER.to_owned());
        }
        if !self.joiner {
            missing.push(JOINER.to_owned());
        }
        if !self.tokens {
            missing.push(TOKENS.to_owned());
        }
        assert(texts(missing@) =~= self.missing());
        if missing.len() == 0 {
            return Ok(());
        }
        let mut detail = "missing ".to_owned();
        detail.append(join(&missing, ", ").as_str());
        Err(EngineError::ModelLoad { dir: dir.to_owned(), detail })
    }
}

/// The error for a model that the native library does not take.
pub fn rejected(dir: &str) -> (error: EngineError)
    ensures
        error matches EngineError::ModelLoad { dir: refused, detail } && refused@ == dir@
            && detail@ == "sherpa-onnx rejected the model configuration"@,
{
    EngineError::ModelLoad {
        dir: dir.to_owned(),
        detail: "sherpa-onnx rejected the model configuration".to_owned(),
    }
}

/// The transcript of no samples, for which the native library is not asked.
pub fn unheard(pcm: &[i16]) -> (text: Option<String>)
    ensures
        match text {
            Some(text) => pcm@.len() == 0 && text@.len() == 0,
            None => pcm@.len() > 0,
        },
{
    if pcm.len() == 0 {
        return Some(String::new());
    }
    None
}

/// Whether a drain pass that has taken so many segments may take another.
pub fn drains_on(taken: usize) -> (more: bool)
    ensures
        more == (taken < MAX_SEGMENTS_PER_DRAIN),
        more <==> taken < 1024,
{
    taken < MAX_SEGMENTS_PER_DRAIN
}

/// The transcript in what the native library answers, which may be nothing.
pub fn transcript(result: Option<String>) -> (heard: Result<String, EngineError>)
    ensures
        match (result, heard) {
            (Some(text), Ok(transcript)) => transcript@ == trimmed(text@),
            (None, Err(EngineError::Recognition(detail))) => detail@
                == "sherpa-onnx returned no result"@,
            _ => false,
        },
{
    match result {
        Some(text) => Ok(trim(text.as_str()).to_owned()),
        None => Err(EngineError::Recognition("sherpa-onnx returned no result".to_owned())),
    }
}

/// The utterance that a segment is, given the sample it starts at.
pub fn utterance(start: i64, pcm: Vec<i16>) -> (utterance: Utterance)
    ensures
        utterance.pcm@ == pcm@,
        utterance.t0_ms == ms(if start < 0 {
            0
        } else {
            start as int
        }),
        utterance.t1_ms == utterance.t0_ms + ms(pcm@.len() as int),
{
    let start: u64 = if start < 0 {
        0
    } else {
        start as u64
    };
    let t0_ms: u64 = samples_to_ms(start);
    let len: u64 = pcm.len() as u64;
    let t1_ms: u64 = t0_ms + samples_to_ms(len);
    Utterance { pcm, t0_ms, t1_ms }
}

/// A file is listed as missing exactly where it is not there, and nothing else is;
/// the encoder's file before the decoder's, the joiner's and the tokens'.
pub proof fn law_missing_files_are_listed(files: ModelFiles)
    ensures
        ({
            let names = seq![
                "encoder.int8.onnx"@,
                "decoder.int8.onnx"@,
                "joiner.int8.onnx"@,
                "tokens.txt"@,
            ];
            let there = seq![files.encoder, files.decoder, files.joiner, files.tokens];
            let missing = files.missing();
            &&& missing.len() == 0 <==> forall|i: int| 0 <= i < 4 ==> #[trigger] there[i]
            &&& forall|i: int| 0 <= i < 4 && !#[trigger] there[i] ==> missing.contains(names[i])
            &&& forall|i: int|
                0 <= i < missing.len() ==> exists|j: int|
                    i <= j < 4 && !#[trigger] there[j] && #[trigger] missing[i] == names[j]
            &&& forall|j: int|
                0 <= j < 4 && (forall|k: int| 0 <= k < j ==> #[trigger] there[k])
                    && !#[trigger] there[j] ==> missing[0] == names[j]
        }),
{
    let names = seq![
        "encoder.int8.onnx"@,
        "decoder.int8.onnx"@,
        "joiner.int8.onnx"@,
        "tokens.txt"@,
    ];
    let there = seq![files.encoder, files.decoder, files.joiner, files.tokens];
    let missing = files.missing();
    let at = |i: int| -> int
        {
            (if i > 0 && !files.encoder {
                1int
            } else {
                0
            }) + (if i > 1 && !files.decoder {
                1int
            } else {
                0
            }) + (if i > 2 && !files.joiner {
                1int
            } else {
                0
            })
        };
    assert forall|i: int| 0 <= i < 4 && !#[trigger] there[i] implies missing.contains(names[i]) by {
        assert(missing[at(i)] == names[i]);
    }
    assert(there[0] == files.encoder && there[1] == files.decoder);
    assert(there[2] == files.joiner && there[3] == files.tokens);
    assert forall|i: int| 0 <= i < missing.len() implies exists|j: int|
        i <= j < 4 && !#[trigger] there[j] && #[trigger] missing[i] == names[j] by {
        let j = if !there[0] && at(0) == i {
            0int
        } else if !there[1] && at(1) == i {
            1
        } else if !there[2] && at(2) == i {
            2
        } else {
            3
        };
        assert(!there[j]);
        assert(missing[i] == names[j]);
    }
}

} // verus!
