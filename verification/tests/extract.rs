use c2pa_structured_text::{classify_reference, extract_manifest, DecodeError, Error, Reference};

#[test]
fn single_line_python() {
    let text = "# -----BEGIN C2PA MANIFEST----- https://example.com/m.c2pa -----END C2PA MANIFEST-----\nprint('hello')\n";
    let result = extract_manifest(text).unwrap();
    assert_eq!(result.reference, "https://example.com/m.c2pa");
    assert_eq!(result.offset, 0);
}

#[test]
fn front_matter() {
    let text = "---\n-----BEGIN C2PA MANIFEST-----\nhttps://example.com/m.c2pa\n-----END C2PA MANIFEST-----\ntitle: doc\n---\n";
    let result = extract_manifest(text).unwrap();
    assert_eq!(result.reference, "https://example.com/m.c2pa");
    // The excluded span starts after the opening `---` fence, not at 0.
    assert_eq!(result.offset, 4);
}

#[test]
fn not_found() {
    assert!(matches!(extract_manifest("no manifest here"), Err(Error::NotFound)));
}

#[test]
fn empty_reference() {
    let text = "# -----BEGIN C2PA MANIFEST-----  -----END C2PA MANIFEST-----\n";
    assert!(matches!(extract_manifest(text), Err(Error::EmptyReference)));
}

#[test]
fn multiple_blocks() {
    let text = "# -----BEGIN C2PA MANIFEST----- https://a.com -----END C2PA MANIFEST-----\n# -----BEGIN C2PA MANIFEST----- https://b.com -----END C2PA MANIFEST-----\n";
    assert!(matches!(extract_manifest(text), Err(Error::MultipleBlocks)));
}

#[test]
fn classify_url() {
    assert_eq!(
        classify_reference("https://example.com/m.c2pa").unwrap(),
        Reference::Url("https://example.com/m.c2pa".to_string())
    );
}

#[test]
fn classify_data_uri() {
    // "foobar" base64-encoded.
    let r = classify_reference("data:application/c2pa;base64,Zm9vYmFy").unwrap();
    assert_eq!(r, Reference::Embedded(b"foobar".to_vec()));
}

#[test]
fn classify_rejects_bare_text() {
    assert!(matches!(
        classify_reference("not a reference"),
        Err(Error::MalformedReference(_))
    ));
}

#[test]
fn extract_offsets_and_length() {
    let text = "#!/bin/sh\n# -----BEGIN C2PA MANIFEST----- u -----END C2PA MANIFEST-----\necho\n";
    let result = extract_manifest(text).unwrap();
    assert_eq!(result.reference, "u");
    assert_eq!(result.offset, 10);
    assert_eq!(result.length, 62);
    // A block without a terminator runs to the end of the text.
    let tail = "x\n<!-- -----BEGIN C2PA MANIFEST----- u -----END C2PA MANIFEST----- -->";
    let result = extract_manifest(tail).unwrap();
    assert_eq!(result.offset, 2);
    assert_eq!(result.offset + result.length, tail.len());
}

#[test]
fn extract_needs_both_delimiters_in_order() {
    assert!(matches!(
        extract_manifest("-----END C2PA MANIFEST----- x -----BEGIN C2PA MANIFEST-----"),
        Err(Error::NotFound)
    ));
    assert!(matches!(
        extract_manifest("-----BEGIN C2PA MANIFEST----- x"),
        Err(Error::NotFound)
    ));
}

#[test]
fn extract_trims_unicode_whitespace() {
    let text = "-----BEGIN C2PA MANIFEST-----\u{00A0}é:x\u{3000}-----END C2PA MANIFEST-----";
    let result = extract_manifest(text).unwrap();
    assert_eq!(result.reference, "é:x");
}

#[test]
fn classify_edge_cases() {
    assert!(matches!(classify_reference(":x"), Err(Error::MalformedReference(_))));
    assert!(matches!(classify_reference("1abc:x"), Err(Error::MalformedReference(_))));
    assert!(matches!(classify_reference("a b:x"), Err(Error::MalformedReference(_))));
    assert_eq!(
        classify_reference("urn:isbn:1").unwrap(),
        Reference::Url("urn:isbn:1".to_string())
    );
    assert_eq!(
        classify_reference("svn+ssh.x-y:z").unwrap(),
        Reference::Url("svn+ssh.x-y:z".to_string())
    );
    assert!(matches!(
        classify_reference("data:application/c2pa;base64,Zm9"),
        Err(Error::ManifestDecode(DecodeError::InvalidLength))
    ));
    assert_eq!(
        classify_reference("data:application/c2pa;base64,").unwrap(),
        Reference::Embedded(Vec::new())
    );
}
