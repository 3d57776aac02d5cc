//! The s16le bytes on the wire and the `i16` samples they stand for.
use vstd::prelude::*;
use crate::text::{decimal, push_decimal};

verus! {

/// Why a wire PCM frame could not be read.
#[derive(Debug, Clone, Copy, PartialEq, Eq)]
pub enum PcmError {
    /// s16le needs two bytes per sample.
    OddLength(usize),
}

impl PcmError {
    /// The error in words.
    pub open spec fn spec_message(self) -> Seq<char> {
        match self {
            PcmError::OddLength(len) => "s16le payload has an odd length ("@ + decimal(len as nat)
                + " bytes)"@,
        }
    }

    /// The error in words.
    pub fn message(&self) -> (message: String)
        ensures
            message@ == self.spec_message(),
    {
        match self {
            PcmError::OddLength(len) => {
                let mut message = "s16le payload has an odd length (".to_owned();
                push_decimal(&mut message, *len as u64);
                message.append(" bytes)");
                message
            },
        }
    }
}

/// The sample whose little-endian bytes are `low` and `high`.
pub open spec fn sample_of(low: u8, high: u8) -> i16 {
    let bits = low as int + 256 * high as int;
    (if bits < 0x8000 {
        bits
    } else {
        bits - 0x1_0000
    }) as i16
}

/// The samples that pairs of bytes stand for.
pub open spec fn samples_of(bytes: Seq<u8>) -> Seq<i16> {
    Seq::new(bytes.len() / 2, |i: int| sample_of(bytes[2 * i], bytes[2 * i + 1]))
}

/// The little-endian bytes of a sample.
pub open spec fn sample_bytes(sample: i16) -> (u8, u8) {
    let bits = if sample >= 0 {
        sample as int
    } else {
        sample + 0x1_0000
    };
    ((bits % 256) as u8, (bits / 256) as u8)
}

/// The little-endian bytes of samples.
pub open spec fn bytes_of(samples: Seq<i16>) -> Seq<u8> {
    Seq::new(
        2 * samples.len(),
        |i: int|
            if i % 2 == 0 {
                sample_bytes(samples[i / 2]).0
            } else {
                sample_bytes(samples[i / 2]).1
            },
    )
}

/// Decode little-endian signed 16-bit samples.
pub fn from_le_bytes(bytes: &[u8]) -> (samples: Result<Vec<i16>, PcmError>)
    ensures
        match samples {
            Ok(samples) => bytes@.len() % 2 == 0 && samples@ == samples_of(bytes@),
            Err(error) => bytes@.len() % 2 == 1 && error == PcmError::OddLength(
                bytes@.len() as usize,
            ),
        },
{
    if bytes.len() % 2 != 0 {
        return Err(PcmError::OddLength(bytes.len()));
    }
    let mut samples: Vec<i16> = Vec::new();
    let mut i: usize = 0;
    while i < bytes.len()
        invariant
            i <= bytes@.len(),
            i % 2 == 0,
            bytes@.len() % 2 == 0,
            samples@.len() == i / 2,
            forall|k: int| 0 <= k < samples@.len() ==> samples@[k] == samples_of(bytes@)[k],
        decreases bytes@.len() - i,
    {
        let bits: i32 = bytes[i] as i32 + 256 * bytes[i + 1] as i32;
        let sample: i32 = if bits < 0x8000 {
            bits
        } else {
            bits - 0x1_0000
        };
        samples.push(sample as i16);
        assert(2 * (i as int / 2) == i);
        i = i + 2;
    }
    assert(samples@ =~= samples_of(bytes@));
    Ok(samples)
}

/// Reading the bytes of samples gives the samples back, and the bytes of the
/// samples that an even number of bytes stand for are those bytes.
pub proof fn law_samples_survive_the_wire(samples: Seq<i16>, bytes: Seq<u8>)
    requires
        bytes.len() % 2 == 0,
    ensures
        bytes_of(samples).len() % 2 == 0,
        samples_of(bytes_of(samples)) == samples,
        bytes_of(samples_of(bytes)) == bytes,
{
    let written = bytes_of(samples);
    assert forall|i: int| 0 <= i < samples.len() implies samples_of(written)[i] == samples[i] by {
        assert((2 * i) / 2 == i && (2 * i) % 2 == 0);
        assert((2 * i + 1) / 2 == i && (2 * i + 1) % 2 == 1);
    }
    assert(samples_of(written) =~= samples);
    assert forall|i: int| 0 <= i < bytes.len() implies bytes_of(samples_of(bytes))[i]
        == bytes[i] by {
        let k = i / 2;
        assert(i == 2 * k || i == 2 * k + 1);
    }
    assert(bytes_of(samples_of(bytes)) =~= bytes);
}

/// A sample is made of two bytes, the low one first, and every pair of bytes is one
/// sample.
pub proof fn law_samples_are_pairs_of_bytes(bytes: Seq<u8>, i: int)
    requires
        0 <= i,
        2 * i + 1 < bytes.len(),
    ensures
        2 * samples_of(bytes).len() <= bytes.len() <= 2 * samples_of(bytes).len() + 1,
        samples_of(bytes)[i] as int % 0x1_0000 == bytes[2 * i] + 256 * bytes[2 * i + 1],
{
}

} // verus!
