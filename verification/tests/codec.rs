use c2pa_structured_text::codec::{decode, encode, DecodeError};

#[test]
fn encode_known_vectors() {
    assert_eq!(encode(b""), "");
    assert_eq!(encode(b"f"), "Zg==");
    assert_eq!(encode(b"fo"), "Zm8=");
    assert_eq!(encode(b"foo"), "Zm9v");
    assert_eq!(encode(b"foob"), "Zm9vYg==");
    assert_eq!(encode(b"fooba"), "Zm9vYmE=");
    assert_eq!(encode(b"foobar"), "Zm9vYmFy");
}

#[test]
fn decode_known_vectors() {
    assert_eq!(decode("").unwrap(), b"");
    assert_eq!(decode("Zg==").unwrap(), b"f");
    assert_eq!(decode("Zm8=").unwrap(), b"fo");
    assert_eq!(decode("Zm9v").unwrap(), b"foo");
    assert_eq!(decode("Zm9vYg==").unwrap(), b"foob");
    assert_eq!(decode("Zm9vYmE=").unwrap(), b"fooba");
    assert_eq!(decode("Zm9vYmFy").unwrap(), b"foobar");
}

#[test]
fn round_trip_binary() {
    let data: Vec<u8> = (0u16..=255).map(|b| b as u8).collect();
    assert_eq!(decode(&encode(&data)).unwrap(), data);
}

#[test]
fn decode_rejects_bad_input() {
    assert_eq!(decode("Zg="), Err(DecodeError::InvalidLength));
    assert_eq!(decode("Zg=v"), Err(DecodeError::InvalidPadding));
    assert_eq!(decode("Z-9v"), Err(DecodeError::InvalidCharacter(b'-')));
    assert_eq!(decode("====").unwrap_err(), DecodeError::InvalidPadding);
}

#[test]
fn decode_accepts_every_symbol() {
    // The whole alphabet in order, 64 symbols, decodes to 48 bytes and back.
    let alphabet = "ABCDEFGHIJKLMNOPQRSTUVWXYZabcdefghijklmnopqrstuvwxyz0123456789+/";
    let bytes = decode(alphabet).unwrap();
    assert_eq!(bytes.len(), 48);
    assert_eq!(encode(&bytes), alphabet);
}

#[test]
fn decode_reports_first_error_in_order() {
    // Padding in a group that is not the last one.
    assert_eq!(decode("Zg==Zg=="), Err(DecodeError::InvalidPadding));
    // Padding in the first two positions of the last group.
    assert_eq!(decode("Z===").unwrap_err(), DecodeError::InvalidPadding);
    // An invalid byte before a misplaced pad is reported first.
    assert_eq!(decode("Z_=="), Err(DecodeError::InvalidCharacter(b'_')));
    // A non-ASCII character is reported by its first UTF-8 byte.
    assert_eq!(decode("Zé=="), Err(DecodeError::InvalidLength));
    assert_eq!(decode("Zé="), Err(DecodeError::InvalidCharacter(0xC3)));
    // Whitespace is not permitted.
    assert_eq!(decode("Zm9 "), Err(DecodeError::InvalidCharacter(b' ')));
}

#[test]
fn decode_accepts_non_canonical_padding_bits() {
    // The unused low bits of the last symbol are not checked.
    assert_eq!(decode("Zh==").unwrap(), b"f");
}
