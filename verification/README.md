# fermix-stt

A local speech-to-text sidecar. A daemon spawns it as a child process and speaks
NDJSON over stdin and stdout: the sidecar decodes an audio container to 16 kHz
mono samples and recognizes it, in one shot (a whole voice note) or as a stream
(cut into utterances, for a live microphone).

`src/` is the library, verified with Verus. `app/` is the program around it: the
pipes, the files, the codecs, floating-point audio and the native backend.

| Module | What it holds |
|---|---|
| `session` | the dispatch state machine: one request in flight, one reply per request |
| `laws`, `runs` | what holds of every step of a session, and of whole runs |
| `ndjson` | line framing, with the 8 MiB ceiling both ways |
| `protocol` | every event and op, and the bytes an event becomes |
| `json`, `text` | compact JSON objects, decimal numbers, white space |
| `payload`, `pcm` | the audio payload: base64, and s16le samples |
| `vad`, `segmentation`, `utterances` | segmentation of a live stream, its model, and what holds of it |
| `decode`, `resample` | every decision around container decode and resampling |
| `asr`, `engine` | the backend's interface, the hermetic backend, the native one's rules |
| `args` | the command line |

A session does no input or output. Each operation answers with a `Flow`, the one
thing to do next, and the program in `app/main.rs` does it:

```
Send(event)   deliver the event's line, flush, then resume
Continue      read the next line, then handle it
Parse(text)   parse the line as an op, then handle that
Decode(path)  decode the file, then hand its samples over
Stop          exit 0
```

The outside functions that the library calls are `String::from_utf8`,
`str::trim`, `Path::is_dir`, `base64`'s standard decoder and `serde_json`'s text
writer and value reader. Each stands behind a function of its own whose comment
says what is claimed of it.

The native backend is compiled in with
`RUSTFLAGS='--cfg sherpa' SILERO_VAD_ONNX=/abs/silero_vad.onnx`; without that the
program has the hermetic one, which recognizes no speech.
