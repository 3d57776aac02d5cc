//! The payload of an `audio` frame: s16le samples in base64.
use base64::Engine;
use vstd::prelude::*;
use crate::pcm::{bytes_of, law_samples_survive_the_wire, samples_of};
use crate::text::{decimal, push_decimal};

verus! {

/// The base64 symbol of a six-bit value.
pub open spec fn symbol(value: int) -> char {
    if value < 26 {
        ('A' as int + value) as char
    } else if value < 52 {
        ('a' as int + value - 26) as char
    } else if value < 62 {
        ('0' as int + value - 52) as char
    } else if value == 62 {
        '+'
    } else {
        '/'
    }
}

/// The six bits at `place`, counted from the high end, of three bytes in a row.
pub open spec fn sextet(first: u8, second: u8, third: u8, place: int) -> int {
    if place == 0 {
        first as int / 4
    } else if place == 1 {
        first as int % 4 * 16 + second as int / 16
    } else if place == 2 {
        second as int % 16 * 4 + third as int / 64
    } else {
        third as int % 64
    }
}

/// Bytes in base64, with the standard alphabet and padded to whole quads.
pub open spec fn base64_text(bytes: Seq<u8>) -> Seq<char>
    decreases bytes.len(),
{
    if bytes.len() == 0 {
        Seq::empty()
    } else if bytes.len() == 1 {
        seq![symbol(sextet(bytes[0], 0, 0, 0)), symbol(sextet(bytes[0], 0, 0, 1)), '=', '=']
    } else if bytes.len() == 2 {
        seq![
            symbol(sextet(bytes[0], bytes[1], 0, 0)),
            symbol(sextet(bytes[0], bytes[1], 0, 1)),
            symbol(sextet(bytes[0], bytes[1], 0, 2)),
            '=',
        ]
    } else {
        seq![
            symbol(sextet(bytes[0], bytes[1], bytes[2], 0)),
            symbol(sextet(bytes[0], bytes[1], bytes[2], 1)),
            symbol(sextet(bytes[0], bytes[1], bytes[2], 2)),
            symbol(sextet(bytes[0], bytes[1], bytes[2], 3)),
        ] + base64_text(bytes.skip(3))
    }
}

/// Why a text is not base64.
#[derive(Debug, Clone, Copy, PartialEq, Eq)]
pub enum Base64Error {
    /// A byte that is no symbol, or padding out of place.
    InvalidByte {
        /// Where the byte stands.
        offset: usize,
        /// The byte.
        byte: u8,
    },
    /// The last quad has too few symbols.
    InvalidLength {
        /// The length up to which the text was read.
        len: usize,
    },
    /// The last symbol has bits set that no byte takes.
    InvalidLastSymbol {
        /// Where the symbol stands.
        offset: usize,
        /// The symbol.
        byte: u8,
    },
    /// The padding does not fill the last quad.
    InvalidPadding,
}

impl Base64Error {
    /// The error in words.
    pub open spec fn spec_message(self) -> Seq<char> {
        match self {
            Base64Error::InvalidByte { offset, byte } => "Invalid symbol "@ + decimal(byte as nat)
                + ", offset "@ + decimal(offset as nat) + "."@,
            Base64Error::InvalidLength { len } => "Invalid input length: "@ + decimal(len as nat),
            Base64Error::InvalidLastSymbol { offset, byte } => "Invalid last symbol "@ + decimal(
                byte as nat,
            ) + ", offset "@ + decimal(offset as nat) + "."@,
            Base64Error::InvalidPadding => "Invalid padding"@,
        }
    }

    /// The error in words.
    pub fn message(&self) -> (message: String)
        ensures
            message@ == self.spec_message(),
    {
        match self {
            Base64Error::InvalidByte { offset, byte } => {
                let mut message = "Invalid symbol ".to_owned();
                push_decimal(&mut message, *byte as u64);
                message.append(", offset ");
                push_decimal(&mut message, *offset as u64);
                message.append(".");
                message
            },
            Base64Error::InvalidLength { len } => {
                let mut message = "Invalid input length: ".to_owned();
                push_decimal(&mut message, *len as u64);
                message
            },
            Base64Error::InvalidLastSymbol { offset, byte } => {
                let mut message = "Invalid last symbol ".to_owned();
                push_decimal(&mut message, *byte as u64);
                message.append(", offset ");
                push_decimal(&mut message, *offset as u64);
                message.append(".");
                message
            },
            Base64Error::InvalidPadding => "Invalid padding".to_owned(),
        }
    }
}

/// What `base64` finds wrong with a text that is not base64.
pub uninterp spec fn base64_failure(text: Seq<char>) -> Base64Error;

/// Calls `base64::Engine::decode` on `base64::engine::general_purpose::STANDARD`.
///
/// That engine is strict: it takes the standard alphabet only, with canonical
/// padding and no stray bits in the last symbol. So it returns bytes just when the
/// text is their base64 text, and fails just when the text is nobody's. Which
/// failure it reports for a text is named, not described.
#[verifier::external_body]
fn decode_base64(text: &str) -> (decoded: Result<Vec<u8>, Base64Error>)
    ensures
        match decoded {
            Ok(bytes) => base64_text(bytes@) == text@,
            Err(error) => error == base64_failure(text@) && forall|bytes: Seq<u8>| #[trigger]
                base64_text(bytes) != text@,
        },
{
    match base64::engine::general_purpose::STANDARD.decode(text) {
        Ok(bytes) => Ok(bytes),
        Err(base64::DecodeError::InvalidByte(offset, byte)) => Err(
            Base64Error::InvalidByte { offset, byte },
        ),
        Err(base64::DecodeError::InvalidLength(len)) => Err(Base64Error::InvalidLength { len }),
        Err(base64::DecodeError::InvalidLastSymbol(offset, byte)) => Err(
            Base64Error::InvalidLastSymbol { offset, byte },
        ),
        Err(base64::DecodeError::InvalidPadding) => Err(Base64Error::InvalidPadding),
    }
}

/// The bytes whose base64 text is `text`, if there are any.
pub open spec fn base64_bytes(text: Seq<char>) -> Option<Seq<u8>> {
    if exists|bytes: Seq<u8>| #[trigger] base64_text(bytes) == text {
        Some(choose|bytes: Seq<u8>| #[trigger] base64_text(bytes) == text)
    } else {
        None
    }
}

/// Read a base64 text.
pub fn decode(text: &str) -> (decoded: Result<Vec<u8>, Base64Error>)
    ensures
        match decoded {
            Ok(bytes) => base64_bytes(text@) == Some(bytes@),
            Err(error) => base64_bytes(text@) is None && error == base64_failure(text@),
        },
{
    let decoded = decode_base64(text);
    proof {
        if decoded is Ok {
            law_base64_reads_back(decoded->Ok_0@);
        }
    }
    decoded
}

/// Different values have different symbols, and none is the padding.
proof fn lemma_symbol_tells_values_apart(first: int, second: int)
    requires
        0 <= first < 64,
        0 <= second < 64,
    ensures
        symbol(first) == symbol(second) ==> first == second,
        symbol(first) != '=',
{
}

/// Three bytes are determined by their four six-bit values.
proof fn lemma_sextets_tell_bytes_apart(first: (u8, u8, u8), second: (u8, u8, u8))
    requires
        forall|place: int|
            0 <= place < 4 ==> #[trigger] sextet(first.0, first.1, first.2, place) == sextet(
                second.0,
                second.1,
                second.2,
                place,
            ),
    ensures
        first == second,
{
    assert(sextet(first.0, first.1, first.2, 0) == first.0 as int / 4);
    assert(sextet(first.0, first.1, first.2, 1) == first.0 as int % 4 * 16 + first.1 as int / 16);
    assert(sextet(first.0, first.1, first.2, 2) == first.1 as int % 16 * 4 + first.2 as int / 64);
    assert(sextet(first.0, first.1, first.2, 3) == first.2 as int % 64);
}

/// What each symbol of a text that starts with one quad says.
proof fn lemma_quad_tells_bytes_apart(
    first: (u8, u8, u8),
    second: (u8, u8, u8),
    places: int,
)
    requires
        2 <= places <= 4,
        places < 4 ==> first.2 == 0 && second.2 == 0,
        places < 3 ==> first.1 == 0 && second.1 == 0,
        forall|place: int|
            0 <= place < places ==> symbol(
                #[trigger] sextet(first.0, first.1, first.2, place),
            ) == symbol(sextet(second.0, second.1, second.2, place)),
    ensures
        first == second,
{
    assert forall|place: int| 0 <= place < 4 implies #[trigger] sextet(
        first.0,
        first.1,
        first.2,
        place,
    ) == sextet(second.0, second.1, second.2, place) by {
        if place < places {
            lemma_symbol_tells_values_apart(
                sextet(first.0, first.1, first.2, place),
                sextet(second.0, second.1, second.2, place),
            );
        }
    }
    lemma_sextets_tell_bytes_apart(first, second);
}

/// No two byte strings have the same base64 text.
pub proof fn law_base64_tells_bytes_apart(first: Seq<u8>, second: Seq<u8>)
    requires
        base64_text(first) == base64_text(second),
    ensures
        first == second,
    decreases first.len(),
{
    let text = base64_text(first);
    if first.len() == 0 || second.len() == 0 {
        assert(text.len() == 0 && base64_text(second).len() == 0);
        assert(first =~= second);
    } else {
        let a = (
            first[0],
            if first.len() > 1 {
                first[1]
            } else {
                0
            },
            if first.len() > 2 {
                first[2]
            } else {
                0
            },
        );
        let b = (
            second[0],
            if second.len() > 1 {
                second[1]
            } else {
                0
            },
            if second.len() > 2 {
                second[2]
            } else {
                0
            },
        );
        lemma_symbol_tells_values_apart(sextet(a.0, a.1, a.2, 2), 0);
        lemma_symbol_tells_values_apart(sextet(a.0, a.1, a.2, 3), 0);
        lemma_symbol_tells_values_apart(sextet(b.0, b.1, b.2, 2), 0);
        lemma_symbol_tells_values_apart(sextet(b.0, b.1, b.2, 3), 0);
        assert(text[2] == base64_text(second)[2]);
        assert(text[3] == base64_text(second)[3]);
        if first.len() == 1 {
            assert(second.len() == 1);
            assert(text[0] == base64_text(second)[0]);
            assert(text[1] == base64_text(second)[1]);
            lemma_quad_tells_bytes_apart(a, b, 2);
            assert(first =~= second);
        } else if first.len() == 2 {
            assert(second.len() == 2);
            assert(text[0] == base64_text(second)[0]);
            assert(text[1] == base64_text(second)[1]);
            lemma_quad_tells_bytes_apart(a, b, 3);
            assert(first =~= second);
        } else {
            assert(second.len() > 2);
            assert(text[0] == base64_text(second)[0]);
            assert(text[1] == base64_text(second)[1]);
            lemma_quad_tells_bytes_apart(a, b, 4);
            assert(base64_text(first.skip(3)) =~= text.skip(4));
            assert(base64_text(second.skip(3)) =~= base64_text(second).skip(4));
            law_base64_tells_bytes_apart(first.skip(3), second.skip(3));
            assert(first =~= first.take(3) + first.skip(3));
            assert(second =~= second.take(3) + second.skip(3));
            assert(first.take(3) =~= second.take(3));
        }
    }
}

/// Bytes are read back from their base64 text.
pub proof fn law_base64_reads_back(bytes: Seq<u8>)
    ensures
        base64_bytes(base64_text(bytes)) == Some(bytes),
{
    let text = base64_text(bytes);
    let read = choose|read: Seq<u8>| #[trigger] base64_text(read) == text;
    law_base64_tells_bytes_apart(read, bytes);
}

/// Samples are read back from the payload that carries them.
pub proof fn law_payload_carries_its_samples(samples: Seq<i16>)
    ensures
        base64_bytes(base64_text(bytes_of(samples))) matches Some(bytes) && bytes.len() % 2 == 0
            && samples_of(bytes) == samples,
{
    law_base64_reads_back(bytes_of(samples));
    law_samples_survive_the_wire(samples, bytes_of(samples));
}

} // verus!
