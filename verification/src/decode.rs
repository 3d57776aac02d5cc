//! Container decode: ogg / mp3 / m4a / mp4 / wav to 16 kHz mono samples.
//!
//! The demuxer and the decoders are outside; what stands here is every decision
//! taken around them: what is refused, what is skipped, and where it ends.
use vstd::prelude::*;
use crate::protocol::ErrorCode;
use crate::resample::MAX_INPUT_RATE;
use crate::text::{decimal, push_decimal};
use crate::vad::{ms, samples_to_ms};

verus! {

/// Longest input accepted. A voice note is seconds; this is a memory bound, not
/// a product limit.
pub const MAX_DURATION_SECS: u64 = 3600;

/// Consecutive corrupt packets tolerated before the whole decode is refused.
pub const MAX_BAD_PACKETS: u32 = 32;

/// Decoded audio, always mono at [`crate::resample::TARGET_RATE`].
#[derive(Debug, Clone, PartialEq, Eq)]
pub struct Pcm {
    samples: Vec<i16>,
}

impl View for Pcm {
    type V = Seq<i16>;

    /// The samples.
    closed spec fn view(&self) -> Seq<i16> {
        self.samples@
    }
}

impl Pcm {
    /// Wrap already-16 kHz mono samples.
    pub fn new(samples: Vec<i16>) -> (pcm: Self)
        ensures
            pcm@ == samples@,
    {
        Pcm { samples }
    }

    /// The samples, mono, 16 kHz.
    pub fn samples(&self) -> (samples: &[i16])
        ensures
            samples@ == self@,
    {
        self.samples.as_slice()
    }

    /// Duration in milliseconds, rounded down.
    pub fn duration_ms(&self) -> (millis: u64)
        ensures
            millis == ms(self@.len() as int),
    {
        samples_to_ms(self.samples.len() as u64)
    }
}

/// Why a decode did not produce PCM.
#[derive(Debug, Clone, PartialEq, Eq)]
pub enum DecodeError {
    /// The file could not be opened or read.
    Io {
        /// The path that could not be read.
        path: String,
        /// What the file system says.
        detail: String,
    },
    /// The container or codec is not one this build can decode.
    Unsupported {
        /// What was unsupported.
        detail: String,
    },
    /// The container was recognized but the audio could not be decoded.
    Failed {
        /// What went wrong.
        detail: String,
    },
}

impl DecodeError {
    /// The wire error code this maps to.
    pub open spec fn spec_code(self) -> ErrorCode {
        match self {
            DecodeError::Io { .. } => ErrorCode::IoError,
            DecodeError::Unsupported { .. } => ErrorCode::DecodeFailed,
            DecodeError::Failed { .. } => ErrorCode::DecodeFailed,
        }
    }

    /// The error in words.
    pub open spec fn spec_message(self) -> Seq<char> {
        match self {
            DecodeError::Io { path, detail } => "cannot read "@ + path@ + ": "@ + detail@,
            DecodeError::Unsupported { detail } => "unsupported container: "@ + detail@,
            DecodeError::Failed { detail } => "decode failed: "@ + detail@,
        }
    }

    /// The wire error code this maps to.
    pub fn code(&self) -> (code: ErrorCode)
        ensures
            code == self.spec_code(),
    {
        match self {
            DecodeError::Io { .. } => ErrorCode::IoError,
            DecodeError::Unsupported { .. } => ErrorCode::DecodeFailed,
            DecodeError::Failed { .. } => ErrorCode::DecodeFailed,
        }
    }

    /// The error in words.
    pub fn message(&self) -> (message: String)
        ensures
            message@ == self.spec_message(),
    {
        match self {
            DecodeError::Io { path, detail } => {
                let mut message = "cannot read ".to_owned();
                message.append(path.as_str());
                message.append(": ");
                message.append(detail.as_str());
                message
            },
            DecodeError::Unsupported { detail } => {
                let mut message = "unsupported container: ".to_owned();
                message.append(detail.as_str());
                message
            },
            DecodeError::Failed { detail } => {
                let mut message = "decode failed: ".to_owned();
                message.append(detail.as_str());
                message
            },
        }
    }
}

/// How far a container could be opened.
#[derive(Debug, Clone, PartialEq, Eq)]
pub enum Opened {
    /// The file could not be opened, for this reason.
    NoFile(String),
    /// The container was not recognized, for this reason.
    NoContainer(String),
    /// The container holds no audio track.
    NoTrack,
    /// The audio track does not say how it is coded.
    NoParameters,
    /// Nothing decodes the track's codec, for this reason.
    NoDecoder(String),
    /// A decoder stands ready for the audio track with this id.
    Ready(u32),
}

/// What the demuxer came to next.
#[derive(Debug, Clone, PartialEq, Eq)]
pub enum Demuxed {
    /// A packet of the track with this id.
    Packet(u32),
    /// The end of the container.
    End,
    /// A failure, for this reason.
    Failed(String),
}

/// What to do about what the demuxer came to.
#[derive(Debug, Clone, Copy, PartialEq, Eq)]
pub enum Next {
    /// Hand the packet to the decoder.
    Decode,
    /// Ask the demuxer for the next packet.
    Skip,
    /// There is no more audio.
    Finish,
}

/// What the decoder made of a packet.
#[derive(Debug, Clone, PartialEq, Eq)]
pub enum Decoded {
    /// Interleaved samples.
    Audio {
        /// The sample rate that they are declared to have.
        rate: u32,
        /// How many channels they are declared to have.
        channels: usize,
        /// How many samples there are, of all channels together.
        len: usize,
    },
    /// The packet is corrupt, in this way; a later packet may decode.
    Corrupt(String),
    /// The decoder cannot go on, for this reason.
    Broken(String),
}

/// What becomes of a decoded packet.
#[derive(Debug, Clone, Copy, PartialEq, Eq)]
pub enum Kept {
    /// That many frames are to be mixed down and kept.
    Frames(usize),
    /// The packet is skipped, the so many-th in a row.
    Skipped(u32),
}

/// The rate and channel count of a stream.
#[derive(Debug, Clone, Copy, PartialEq, Eq, Structural)]
pub struct Format {
    /// Samples per second.
    pub rate: u32,
    /// Channels per frame.
    pub channels: usize,
}

/// Keeps count of what is accumulated as mono at the source rate, and sees to it
/// that the stream's rate and channel count never change mid-file.
#[derive(Debug, Clone, Copy)]
pub struct MonoAccumulator {
    /// Set by the first packet.
    pub format: Option<Format>,
    /// Frames accumulated.
    pub frames: usize,
}

/// Frames in an hour.
pub open spec fn frame_ceiling(rate: u32) -> int {
    rate * MAX_DURATION_SECS
}

impl Default for MonoAccumulator {
    fn default() -> (accumulator: Self)
        ensures
            accumulator.wf(),
            accumulator.format is None,
            accumulator.frames == 0,
    {
        MonoAccumulator { format: None, frames: 0 }
    }
}

impl MonoAccumulator {
    /// Whatever was accumulated is plausible audio of an hour at most.
    pub open spec fn wf(self) -> bool {
        match self.format {
            None => self.frames == 0,
            Some(format) => {
                &&& 0 < format.rate <= MAX_INPUT_RATE
                &&& format.channels > 0
                &&& self.frames <= frame_ceiling(format.rate)
            },
        }
    }

    /// Why a packet is refused, if it is: whether the decode failed with it, or else
    /// the stream is not supported; and the reason.
    pub open spec fn refusal(self, rate: u32, channels: usize, len: usize) -> Option<
        (bool, Seq<char>),
    > {
        if rate == 0 || rate > MAX_INPUT_RATE {
            Some((false, "implausible sample rate "@ + decimal(rate as nat)))
        } else if channels == 0 {
            Some((false, "stream declares zero channels"@))
        } else if self.format is Some && self.format != Some(Format { rate, channels }) {
            Some((true, "sample rate or channel count changed mid-stream"@))
        } else if self.frames + len / channels > frame_ceiling(rate) {
            Some(
                (
                    true,
                    "audio exceeds the "@ + decimal(MAX_DURATION_SECS as nat) + "s ceiling"@,
                ),
            )
        } else {
            None
        }
    }

    /// The stream's format once a packet was seen: that of its first packet with a
    /// plausible one.
    pub open spec fn format_after(self, rate: u32, channels: usize) -> Option<Format> {
        if self.format is None && 0 < rate <= MAX_INPUT_RATE && channels > 0 {
            Some(Format { rate, channels })
        } else {
            self.format
        }
    }

    /// Take a packet of `len` interleaved samples, and say how many frames of it
    /// are to be kept: a partial frame at its end is not.
    pub fn push(&mut self, rate: u32, channels: usize, len: usize) -> (pushed: Result<
        usize,
        DecodeError,
    >)
        requires
            old(self).wf(),
        ensures
            final(self).wf(),
            final(self).format == old(self).format_after(rate, channels),
            match pushed {
                Ok(frames) => {
                    &&& old(self).refusal(rate, channels, len) is None
                    &&& frames == len / channels
                    &&& final(self).frames == old(self).frames + frames
                },
                Err(error) => {
                    &&& old(self).refusal(rate, channels, len) matches Some((failed, reason))
                    &&& error.is_refusal(failed, reason)
                    &&& final(self).frames == old(self).frames
                },
            },
            0 < rate <= 768_000 && channels > 0 && (old(self).format matches Some(format)
                ==> format.rate == rate && format.channels == channels) && old(self).frames + len
                / channels <= 3600 * rate ==> pushed == Ok::<usize, DecodeError>(
                (len / channels) as usize,
            ),
    {
        if rate == 0 || rate > MAX_INPUT_RATE {
            let mut detail = "implausible sample rate ".to_owned();
            push_decimal(&mut detail, rate as u64);
            return Err(DecodeError::Unsupported { detail });
        }
        if channels == 0 {
            return Err(
                DecodeError::Unsupported { detail: "stream declares zero channels".to_owned() },
            );
        }
        if let Some(format) = self.format {
            if format.rate != rate || format.channels != channels {
                return Err(
                    DecodeError::Failed {
                        detail: "sample rate or channel count changed mid-stream".to_owned(),
                    },
                );
            }
        }
        self.format = Some(Format { rate, channels });
        assert(rate * MAX_DURATION_SECS == rate * 3600);
        let limit: u64 = rate as u64 * MAX_DURATION_SECS;
        let frames: usize = len / channels;
        if self.frames as u64 > limit || frames as u64 > limit - self.frames as u64 {
            let mut detail = "audio exceeds the ".to_owned();
            push_decimal(&mut detail, MAX_DURATION_SECS);
            detail.append("s ceiling");
            return Err(DecodeError::Failed { detail });
        }
        self.frames = self.frames + frames;
        Ok(frames)
    }

    /// The rate of what was accumulated.
    pub fn finish(&self) -> (rate: Result<u32, DecodeError>)
        ensures
            match rate {
                Ok(rate) => self.format matches Some(format) && rate == format.rate,
                Err(error) => self.format is None && error.is_refusal(
                    true,
                    "stream produced no audio"@,
                ),
            },
    {
        match self.format {
            Some(format) => Ok(format.rate),
            None => Err(DecodeError::Failed { detail: "stream produced no audio".to_owned() }),
        }
    }
}

impl DecodeError {
    /// The error says `reason` of a stream that could not be decoded, where it has
    /// `failed`, or else of one that is not supported.
    pub open spec fn is_refusal(self, failed: bool, reason: Seq<char>) -> bool {
        if failed {
            self matches DecodeError::Failed { detail } && detail@ == reason
        } else {
            self matches DecodeError::Unsupported { detail } && detail@ == reason
        }
    }
}

/// Plausible audio is kept: whatever the rate up to the highest, the channels and the
/// length of a packet, it is taken as long as the file has that format and stays
/// within an hour, and the file has that format from then on.
pub proof fn law_plausible_audio_is_kept(
    mono: MonoAccumulator,
    rate: u32,
    channels: usize,
    len: usize,
)
    requires
        0 < rate <= 768_000,
        channels > 0,
        mono.format matches Some(format) ==> format.rate == rate && format.channels == channels,
        mono.frames + len / channels <= 3600 * rate,
    ensures
        mono.refusal(rate, channels, len) is None,
        mono.format_after(rate, channels) == Some(Format { rate, channels }),
{
    assert(frame_ceiling(rate) == 3600 * rate);
}

/// Every other packet is refused, for its first fault: a rate that is none or too
/// high, no channels, another format than the packets before, or more than an hour.
/// Only the last comes from a packet that may have set the format.
pub proof fn law_other_audio_is_refused(
    mono: MonoAccumulator,
    rate: u32,
    channels: usize,
    len: usize,
)
    ensures
        rate == 0 || rate > 768_000 ==> {
            &&& mono.refusal(rate, channels, len) == Some(
                (false, "implausible sample rate "@ + decimal(rate as nat)),
            )
            &&& mono.format_after(rate, channels) == mono.format
        },
        0 < rate <= 768_000 && channels == 0 ==> {
            &&& mono.refusal(rate, channels, len) == Some(
                (false, "stream declares zero channels"@),
            )
            &&& mono.format_after(rate, channels) == mono.format
        },
        0 < rate <= 768_000 && channels > 0 ==> match mono.format {
            Some(format) if format.rate != rate || format.channels != channels => {
                &&& mono.refusal(rate, channels, len) == Some(
                    (true, "sample rate or channel count changed mid-stream"@),
                )
                &&& mono.format_after(rate, channels) == mono.format
            },
            _ => mono.frames + len / channels > 3600 * rate ==> mono.refusal(rate, channels, len)
                == Some((true, "audio exceeds the "@ + decimal(3600) + "s ceiling"@)),
        },
{
    assert(frame_ceiling(rate) == 3600 * rate);
}

/// The decode of one container, from its first packet on.
#[derive(Debug, Clone, Copy)]
pub struct Decoding {
    /// The id of the track that is decoded.
    pub track: u32,
    /// Corrupt packets skipped since the last good one.
    pub bad_packets: u32,
    /// What was accumulated.
    pub mono: MonoAccumulator,
}

impl Decoding {
    /// What was accumulated is in order, and not too much was skipped.
    pub open spec fn wf(self) -> bool {
        self.mono.wf() && self.bad_packets <= MAX_BAD_PACKETS
    }

    /// Begin to decode the container at `path`, given how far it could be opened.
    pub fn begin(path: &str, opened: Opened) -> (begun: Result<Self, DecodeError>)
        ensures
            match (opened, begun) {
                (Opened::Ready(track), Ok(decoding)) => {
                    &&& decoding.wf()
                    &&& decoding.track == track
                    &&& decoding.bad_packets == 0
                    &&& decoding.mono.format is None
                    &&& decoding.mono.frames == 0
                },
                (Opened::NoFile(reason), Err(DecodeError::Io { path: unread, detail })) => {
                    unread@ == path@ && detail@ == reason@
                },
                (Opened::NoContainer(reason), Err(error)) => error.is_refusal(
                    false,
                    path@ + " ("@ + reason@ + ")"@,
                ),
                (Opened::NoTrack, Err(error)) => error.is_refusal(
                    false,
                    path@ + " has no audio track"@,
                ),
                (Opened::NoParameters, Err(error)) => error.is_refusal(
                    false,
                    path@ + " has no audio codec parameters"@,
                ),
                (Opened::NoDecoder(reason), Err(error)) => error.is_refusal(
                    false,
                    "no decoder for "@ + path@ + ": "@ + reason@,
                ),
                _ => false,
            },
    {
        match opened {
            Opened::NoFile(reason) => Err(
                DecodeError::Io { path: path.to_owned(), detail: reason },
            ),
            Opened::NoContainer(reason) => {
                let mut detail = path.to_owned();
                detail.append(" (");
                detail.append(reason.as_str());
                detail.append(")");
                Err(DecodeError::Unsupported { detail })
            },
            Opened::NoTrack => {
                let mut detail = path.to_owned();
                detail.append(" has no audio track");
                Err(DecodeError::Unsupported { detail })
            },
            Opened::NoParameters => {
                let mut detail = path.to_owned();
                detail.append(" has no audio codec parameters");
                Err(DecodeError::Unsupported { detail })
            },
            Opened::NoDecoder(reason) => {
                let mut detail = "no decoder for ".to_owned();
                detail.append(path);
                detail.append(": ");
                detail.append(reason.as_str());
                Err(DecodeError::Unsupported { detail })
            },
            Opened::Ready(track) => Ok(
                Decoding { track, bad_packets: 0, mono: MonoAccumulator::default() },
            ),
        }
    }

    /// What to do next, given what the demuxer came to.
    pub fn demuxed(&self, demuxed: Demuxed) -> (next: Result<Next, DecodeError>)
        ensures
            match demuxed {
                Demuxed::Packet(track) => next == Ok::<Next, DecodeError>(
                    if track == self.track {
                        Next::Decode
                    } else {
                        Next::Skip
                    },
                ),
                Demuxed::End => next == Ok::<Next, DecodeError>(Next::Finish),
                Demuxed::Failed(reason) => next matches Err(error) && error.is_refusal(
                    true,
                    "demux error: "@ + reason@,
                ),
            },
    {
        match demuxed {
            Demuxed::Packet(track) => if track == self.track {
                Ok(Next::Decode)
            } else {
                Ok(Next::Skip)
            },
            Demuxed::End => Ok(Next::Finish),
            Demuxed::Failed(reason) => {
                let mut detail = "demux error: ".to_owned();
                detail.append(reason.as_str());
                Err(DecodeError::Failed { detail })
            },
        }
    }

    /// What becomes of a packet of the track, given what the decoder made of it.
    pub fn decoded(&mut self, decoded: Decoded) -> (kept: Result<Kept, DecodeError>)
        requires
            old(self).wf(),
        ensures
            final(self).wf(),
            final(self).track == old(self).track,
            match decoded {
                Decoded::Audio { rate, channels, len } => {
                    &&& final(self).bad_packets == 0
                    &&& final(self).mono.format == old(self).mono.format_after(rate, channels)
                    &&& match kept {
                        Ok(kept) => {
                            &&& old(self).mono.refusal(rate, channels, len) is None
                            &&& kept == Kept::Frames((len / channels) as usize)
                            &&& final(self).mono.frames == old(self).mono.frames + len / channels
                        },
                        Err(error) => {
                            &&& old(self).mono.refusal(rate, channels, len) matches Some(
                                (failed, reason),
                            )
                            &&& error.is_refusal(failed, reason)
                            &&& final(self).mono.frames == old(self).mono.frames
                        },
                    }
                },
                Decoded::Corrupt(reason) => {
                    &&& final(self).mono == old(self).mono
                    &&& if old(self).bad_packets < MAX_BAD_PACKETS {
                        &&& final(self).bad_packets == old(self).bad_packets + 1
                        &&& kept == Ok::<Kept, DecodeError>(
                            Kept::Skipped(final(self).bad_packets),
                        )
                    } else {
                        &&& *final(self) == *old(self)
                        &&& kept matches Err(error)
                        &&& error.is_refusal(true, decoder_failure(old(self).bad_packets, reason@))
                    }
                },
                Decoded::Broken(reason) => {
                    &&& *final(self) == *old(self)
                    &&& kept matches Err(error)
                    &&& error.is_refusal(true, decoder_failure(old(self).bad_packets, reason@))
                },
            },
            decoded is Corrupt ==> (kept is Ok <==> old(self).bad_packets < 32),
    {
        match decoded {
            Decoded::Audio { rate, channels, len } => {
                self.bad_packets = 0;
                match self.mono.push(rate, channels, len) {
                    Ok(frames) => Ok(Kept::Frames(frames)),
                    Err(error) => Err(error),
                }
            },
            Decoded::Corrupt(reason) => {
                if self.bad_packets < MAX_BAD_PACKETS {
                    self.bad_packets = self.bad_packets + 1;
                    return Ok(Kept::Skipped(self.bad_packets));
                }
                Err(self.broken(reason))
            },
            Decoded::Broken(reason) => Err(self.broken(reason)),
        }
    }

    fn broken(&self, reason: String) -> (error: DecodeError)
        ensures
            error.is_refusal(true, decoder_failure(self.bad_packets, reason@)),
    {
        let mut detail = "decoder error after ".to_owned();
        push_decimal(&mut detail, self.bad_packets as u64);
        detail.append(" skipped packets: ");
        detail.append(reason.as_str());
        DecodeError::Failed { detail }
    }
}

/// The words for a decoder that cannot go on.
pub open spec fn decoder_failure(bad_packets: u32, reason: Seq<char>) -> Seq<char> {
    "decoder error after "@ + decimal(bad_packets as nat) + " skipped packets: "@ + reason
}

/// The words for a decoder that cannot go on say how many packets it skipped, and the
/// reason.
pub proof fn law_a_broken_decoder_is_told(bad_packets: u32, reason: Seq<char>)
    ensures
        decoder_failure(bad_packets, reason) == "decoder error after "@ + decimal(
            bad_packets as nat,
        ) + " skipped packets: "@ + reason,
{
}

} // verus!
