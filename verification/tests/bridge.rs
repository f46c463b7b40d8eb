use c2pa_structured_text::bridge::{manifest_data, validate, validate_with_manifest, BridgeError, DEFAULT_FORMAT};
use c2pa_structured_text::{embed_manifest, DecodeError, Error, ManifestRef};

#[test]
fn manifest_data_decodes_inline_store() {
    let text = embed_manifest("x = 1\n", ManifestRef::Embedded(b"store bytes"), "#", None);
    assert_eq!(manifest_data(&text).unwrap(), b"store bytes");
}

#[test]
fn url_reference_is_left_to_the_caller() {
    let text = embed_manifest("x = 1\n", ManifestRef::Url("https://example.com/m.c2pa"), "#", None);
    match manifest_data(&text) {
        Err(BridgeError::RemoteNotEnabled(url)) => assert_eq!(url, "https://example.com/m.c2pa"),
        other => panic!("unexpected {other:?}"),
    }
    assert!(matches!(validate(&text, DEFAULT_FORMAT), Err(BridgeError::RemoteNotEnabled(_))));
}

#[test]
fn extraction_errors_are_passed_through() {
    assert!(matches!(manifest_data("plain"), Err(BridgeError::Extract(Error::NotFound))));
    assert!(matches!(
        validate("plain", DEFAULT_FORMAT),
        Err(BridgeError::Extract(Error::NotFound))
    ));
    let bad = "# -----BEGIN C2PA MANIFEST----- data:application/c2pa;base64,Zg= -----END C2PA MANIFEST-----\n";
    assert!(matches!(
        manifest_data(bad),
        Err(BridgeError::Extract(Error::ManifestDecode(DecodeError::InvalidLength)))
    ));
    let odd = "# -----BEGIN C2PA MANIFEST----- nothing here -----END C2PA MANIFEST-----\n";
    assert!(matches!(
        manifest_data(odd),
        Err(BridgeError::Extract(Error::MalformedReference(r))) if r == "nothing here"
    ));
}

#[test]
fn invalid_store_is_refused_by_c2pa() {
    let text = embed_manifest("x = 1\n", ManifestRef::Embedded(b"not a manifest store"), "#", None);
    assert!(matches!(validate(&text, DEFAULT_FORMAT), Err(BridgeError::C2pa(_))));
    assert!(matches!(
        validate_with_manifest("x", b"not a manifest store", DEFAULT_FORMAT),
        Err(BridgeError::C2pa(_))
    ));
}

#[test]
fn bridge_messages() {
    assert_eq!(
        BridgeError::Extract(Error::NotFound).message(),
        "manifest extraction failed: no manifest block found"
    );
    assert_eq!(
        BridgeError::RemoteNotEnabled("https://x/m".to_string()).message(),
        "reference is a URL (https://x/m); enable the `remote` feature to resolve it"
    );
    assert_eq!(
        BridgeError::Fetch("timed out".to_string()).message(),
        "remote manifest fetch failed: timed out"
    );
    match validate_with_manifest("x", b"junk", DEFAULT_FORMAT) {
        Err(e) => assert!(e.message().starts_with("c2pa validation error: ")),
        Ok(_) => panic!("junk accepted"),
    }
}
