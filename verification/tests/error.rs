use c2pa_structured_text::{DecodeError, Error};

fn all() -> Vec<Error> {
    vec![
        Error::NotFound,
        Error::MultipleBlocks,
        Error::EmptyReference,
        Error::MalformedReference("x".into()),
        Error::BareCarriageReturn,
        Error::MalformedExclusion,
        Error::HashMismatch,
        Error::UnsupportedAlgorithm("sha1".into()),
    ]
}

#[test]
fn every_code_is_a_registered_identifier() {
    for e in all() {
        if let Some(code) = e.code() {
            assert!(
                matches!(
                    code,
                    "assertion.dataHash.malformed"
                        | "assertion.dataHash.mismatch"
                        | "algorithm.unsupported"
                ),
                "{e:?} reports an unregistered code: {code}"
            );
        }
    }
}

#[test]
fn no_structured_text_specific_code_is_emitted() {
    for e in all() {
        if let Some(code) = e.code() {
            assert!(!code.starts_with("manifest."), "{e:?} emits {code}");
        }
    }
}

#[test]
fn locating_outcomes_carry_no_code() {
    for e in [Error::NotFound, Error::MultipleBlocks] {
        assert_eq!(e.code(), None, "{e:?} must not report a status code");
        assert!(e.is_no_manifest_located(), "{e:?} must classify as unsigned");
    }
}

#[test]
fn binding_failures_are_not_no_manifest_located() {
    for e in [
        Error::MalformedExclusion,
        Error::HashMismatch,
        Error::UnsupportedAlgorithm("sha1".into()),
    ] {
        assert!(!e.is_no_manifest_located(), "{e:?} misclassified");
        assert!(e.code().is_some(), "{e:?} should report a code");
    }
}

#[test]
fn codes_are_exact() {
    assert_eq!(Error::MalformedExclusion.code(), Some("assertion.dataHash.malformed"));
    assert_eq!(Error::HashMismatch.code(), Some("assertion.dataHash.mismatch"));
    assert_eq!(Error::UnsupportedAlgorithm("md5".into()).code(), Some("algorithm.unsupported"));
    assert_eq!(Error::ManifestDecode(DecodeError::InvalidLength).code(), None);
    assert_eq!(Error::EmptyReference.code(), None);
    assert!(!Error::BareCarriageReturn.is_no_manifest_located());
}

#[test]
fn messages_are_exact() {
    assert_eq!(Error::NotFound.message(), "no manifest block found");
    assert_eq!(Error::MultipleBlocks.message(), "multiple manifest blocks found");
    assert_eq!(Error::EmptyReference.message(), "empty manifest reference");
    assert_eq!(
        Error::MalformedReference("x y".into()).message(),
        "malformed manifest reference: x y"
    );
    assert_eq!(
        Error::BareCarriageReturn.message(),
        "bare CR line endings are not supported; convert to LF or CRLF"
    );
    assert_eq!(
        Error::ManifestDecode(DecodeError::InvalidCharacter(b'-')).message(),
        "manifest data URI is not valid base64: base64 input has invalid character 0x2d"
    );
    assert_eq!(
        Error::ManifestDecode(DecodeError::InvalidLength).message(),
        "manifest data URI is not valid base64: base64 input length is not a multiple of 4"
    );
    assert_eq!(Error::MalformedExclusion.message(), "data hash exclusion range is malformed");
    assert_eq!(Error::HashMismatch.message(), "data hash does not match the asset content");
    assert_eq!(
        Error::UnsupportedAlgorithm("sha1".into()).message(),
        "unsupported hash algorithm: sha1"
    );
    assert_eq!(DecodeError::InvalidPadding.message(), "base64 input has malformed padding");
    assert_eq!(
        DecodeError::InvalidCharacter(0xC3).message(),
        "base64 input has invalid character 0xc3"
    );
    assert_eq!(
        DecodeError::InvalidCharacter(0x07).message(),
        "base64 input has invalid character 0x07"
    );
}
