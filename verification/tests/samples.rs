//! Samples on the wire, and the payload that carries them.

use fermix_stt::payload::{decode, Base64Error};
use fermix_stt::pcm::{from_le_bytes, PcmError};

#[test]
fn little_endian_pairs_become_samples() {
    assert_eq!(
        from_le_bytes(&[0x00, 0x00, 0xff, 0x7f, 0x01, 0x80]).unwrap(),
        vec![0, 32767, -32767]
    );
}

#[test]
fn an_odd_payload_is_rejected() {
    let err = from_le_bytes(&[0x00]).unwrap_err();
    assert!(err.message().contains("odd length"), "{}", err.message());
    assert_eq!(err, PcmError::OddLength(1));
    assert_eq!(err.message(), "s16le payload has an odd length (1 bytes)");
}

#[test]
fn an_empty_payload_is_an_empty_frame() {
    assert!(from_le_bytes(&[]).unwrap().is_empty());
}

#[test]
fn every_sample_survives_the_wire() {
    let samples: Vec<i16> = (i16::MIN..=i16::MAX).collect();
    let bytes: Vec<u8> = samples.iter().flat_map(|s| s.to_le_bytes()).collect();
    assert_eq!(from_le_bytes(&bytes).unwrap(), samples);
}

#[test]
fn base64_is_read_back() {
    assert_eq!(decode("").unwrap(), Vec::<u8>::new());
    assert_eq!(decode("Zg==").unwrap(), b"f");
    assert_eq!(decode("Zm8=").unwrap(), b"fo");
    assert_eq!(decode("Zm9v").unwrap(), b"foo");
    assert_eq!(decode("Zm9vYmFy").unwrap(), b"foobar");
    assert_eq!(decode("+/+/").unwrap(), vec![0xfb, 0xff, 0xbf]);
}

#[test]
fn what_is_not_base64_is_refused() {
    let byte = decode("Zm9!").unwrap_err();
    assert_eq!(byte, Base64Error::InvalidByte { offset: 3, byte: b'!' });
    assert_eq!(byte.message(), "Invalid symbol 33, offset 3.");

    let length = decode("Zm9vY").unwrap_err();
    assert_eq!(length, Base64Error::InvalidLength { len: 5 });
    assert_eq!(length.message(), "Invalid input length: 5");

    let last = decode("Zh==").unwrap_err();
    assert_eq!(last, Base64Error::InvalidLastSymbol { offset: 1, byte: b'h' });
    assert_eq!(last.message(), "Invalid last symbol 104, offset 1.");

    let padding = decode("Zg=").unwrap_err();
    assert_eq!(padding, Base64Error::InvalidPadding);
    assert_eq!(padding.message(), "Invalid padding");
}
