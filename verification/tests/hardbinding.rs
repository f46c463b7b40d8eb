use c2pa_structured_text::hardbinding::{
    apply_exclusions, compute_data_hash, hashed_bytes, manifest_exclusion, verify_data_hash,
    Algorithm, DataHash, Exclusion, DATA_HASH_LABEL,
};
use c2pa_structured_text::{embed_front_matter, embed_manifest, embed_manifest_at_end, Error, ManifestRef};

const URL: &str = "https://example.com/m.c2pa";

#[test]
fn exclusion_at_beginning() {
    let embedded = embed_manifest("print('hi')\n", ManifestRef::Url(URL), "#", None);
    let ex = manifest_exclusion(&embedded).unwrap();
    assert_eq!(ex.start, 0);
    // Removing the exclusion recovers the source content exactly.
    assert_eq!(hashed_bytes(&embedded).unwrap(), b"print('hi')\n");
}

#[test]
fn exclusion_at_end_excludes_preceding_newline() {
    let embedded = embed_manifest_at_end("print('hi')\n", ManifestRef::Url(URL), "#", None);
    let ex = manifest_exclusion(&embedded).unwrap();
    // The block sits at EOF; the newline before it is part of the range.
    assert_eq!(ex.start + ex.length, embedded.len());
    assert_eq!(hashed_bytes(&embedded).unwrap(), b"print('hi')");
}

#[test]
fn exclusion_elsewhere_after_header() {
    // A reserved first line (shebang) with the block on line two, content after.
    let text = "#!/bin/sh\n# -----BEGIN C2PA MANIFEST----- u -----END C2PA MANIFEST-----\necho hi\n";
    let ex = manifest_exclusion(text).unwrap();
    assert_eq!(ex.start, "#!/bin/sh\n".len());
    assert_eq!(hashed_bytes(text).unwrap(), b"#!/bin/sh\necho hi\n");
}

#[test]
fn exclusion_front_matter_keeps_fences() {
    let embedded = embed_front_matter("title: doc\n", ManifestRef::Url(URL), "---");
    // The `---` fences are preserved; only BEGIN..END lines are excluded.
    let covered = String::from_utf8(hashed_bytes(&embedded).unwrap()).unwrap();
    assert!(covered.starts_with("---\n"));
    assert!(covered.contains("title: doc"));
    assert!(!covered.contains("BEGIN C2PA MANIFEST"));
}

#[test]
fn exclusion_whole_file_is_block() {
    let text = "# -----BEGIN C2PA MANIFEST----- u -----END C2PA MANIFEST-----\n";
    let ex = manifest_exclusion(text).unwrap();
    assert_eq!(ex.start, 0);
    assert_eq!(ex.length, text.len());
    assert_eq!(hashed_bytes(text).unwrap(), b"");
}

#[test]
fn crlf_is_supported() {
    let text = "# -----BEGIN C2PA MANIFEST----- u -----END C2PA MANIFEST-----\r\nprint()\r\n";
    assert_eq!(hashed_bytes(text).unwrap(), b"print()\r\n");
}

#[test]
fn bare_cr_is_rejected() {
    let text = "# -----BEGIN C2PA MANIFEST----- u -----END C2PA MANIFEST-----\rprint()";
    assert!(matches!(manifest_exclusion(text), Err(Error::BareCarriageReturn)));
}

#[test]
fn apply_exclusions_rejects_out_of_order() {
    let bytes = b"0123456789";
    let ranges = [Exclusion { start: 5, length: 2 }, Exclusion { start: 1, length: 2 }];
    assert!(matches!(apply_exclusions(bytes, &ranges), Err(Error::MalformedExclusion)));
}

#[test]
fn apply_exclusions_rejects_beyond_end() {
    let bytes = b"0123456789";
    let ranges = [Exclusion { start: 8, length: 5 }];
    assert!(matches!(apply_exclusions(bytes, &ranges), Err(Error::HashMismatch)));
}

#[test]
fn apply_exclusions_several_ranges() {
    let bytes = b"0123456789";
    let ranges = [Exclusion { start: 1, length: 2 }, Exclusion { start: 3, length: 0 }, Exclusion {
        start: 5,
        length: 5,
    }];
    assert_eq!(apply_exclusions(bytes, &ranges).unwrap(), b"034");
    assert_eq!(apply_exclusions(bytes, &[]).unwrap(), b"0123456789");
    let overflow = [Exclusion { start: usize::MAX, length: 1 }];
    assert!(matches!(apply_exclusions(bytes, &overflow), Err(Error::MalformedExclusion)));
}

#[test]
fn exclusion_at_end_after_crlf_excludes_the_crlf() {
    let embedded = embed_manifest_at_end("a\r\n", ManifestRef::Url(URL), "#", None);
    let ex = manifest_exclusion(&embedded).unwrap();
    assert_eq!(ex.start, 1);
    assert_eq!(hashed_bytes(&embedded).unwrap(), b"a");
}

#[test]
fn exclusion_errors_come_from_locating() {
    assert!(matches!(manifest_exclusion("plain text\n"), Err(Error::NotFound)));
    assert!(matches!(hashed_bytes("plain text\n"), Err(Error::NotFound)));
    assert!(matches!(manifest_exclusion("a\rb"), Err(Error::BareCarriageReturn)));
}

#[test]
fn algorithm_ids_round_trip() {
    for alg in [Algorithm::Sha256, Algorithm::Sha384, Algorithm::Sha512] {
        assert_eq!(Algorithm::from_id(alg.id()).unwrap(), alg);
    }
    assert_eq!(Algorithm::Sha384.id(), "sha384");
    assert!(matches!(
        Algorithm::from_id("sha1"),
        Err(Error::UnsupportedAlgorithm(a)) if a == "sha1"
    ));
    assert!(matches!(Algorithm::from_id("SHA256"), Err(Error::UnsupportedAlgorithm(_))));
}

#[test]
fn compute_sha256_known_digest() {
    // The covered bytes are "abc"; SHA-256("abc") is a published test vector.
    let embedded = embed_manifest("abc", ManifestRef::Url(URL), "#", None);
    let dh = compute_data_hash(&embedded, Algorithm::Sha256).unwrap();
    let expected: Vec<u8> = vec![
        0xba, 0x78, 0x16, 0xbf, 0x8f, 0x01, 0xcf, 0xea, 0x41, 0x41, 0x40, 0xde, 0x5d, 0xae, 0x22,
        0x23, 0xb0, 0x03, 0x61, 0xa3, 0x96, 0x17, 0x7a, 0x9c, 0xb4, 0x10, 0xff, 0x61, 0xf2, 0x00,
        0x15, 0xad,
    ];
    assert_eq!(dh.hash, expected);
    assert_eq!(dh.alg, "sha256");
    assert_eq!(dh.name, None);
    assert_eq!(dh.label(), "c2pa.hash.data");
    assert_eq!(DATA_HASH_LABEL, "c2pa.hash.data");
    assert_eq!(compute_data_hash(&embedded, Algorithm::Sha384).unwrap().hash.len(), 48);
    assert_eq!(compute_data_hash(&embedded, Algorithm::Sha512).unwrap().hash.len(), 64);
}

#[test]
fn verify_detects_each_failure() {
    let embedded = embed_manifest("SELECT 1;\n", ManifestRef::Url(URL), "--", None);
    let dh = compute_data_hash(&embedded, Algorithm::Sha256).unwrap();
    verify_data_hash(&embedded, &dh).unwrap();

    let tampered = embedded.replace("SELECT 1", "SELECT 2");
    assert!(matches!(verify_data_hash(&tampered, &dh), Err(Error::HashMismatch)));

    let mut bad_alg = dh.clone();
    bad_alg.alg = "md5".to_string();
    assert!(matches!(verify_data_hash(&embedded, &bad_alg), Err(Error::UnsupportedAlgorithm(_))));

    let mut no_ranges = dh.clone();
    no_ranges.exclusions.clear();
    assert!(matches!(verify_data_hash(&embedded, &no_ranges), Err(Error::MalformedExclusion)));

    let mut past_end = dh.clone();
    past_end.exclusions = vec![Exclusion { start: 0, length: embedded.len() + 1 }];
    assert!(matches!(verify_data_hash(&embedded, &past_end), Err(Error::HashMismatch)));

    assert!(matches!(verify_data_hash("a\rb", &dh), Err(Error::BareCarriageReturn)));
}

#[test]
fn to_json_shape() {
    let dh = DataHash {
        exclusions: vec![Exclusion { start: 0, length: 75 }, Exclusion { start: 1000, length: 7 }],
        alg: "sha256".to_string(),
        hash: b"foobar".to_vec(),
        name: None,
    };
    assert_eq!(
        dh.to_json(),
        "{\"exclusions\":[{\"start\":0,\"length\":75},{\"start\":1000,\"length\":7}],\"alg\":\"sha256\",\"hash\":\"Zm9vYmFy\"}"
    );
    let named = DataHash { name: Some("structured text".to_string()), exclusions: vec![], ..dh };
    assert_eq!(
        named.to_json(),
        "{\"exclusions\":[],\"alg\":\"sha256\",\"hash\":\"Zm9vYmFy\",\"name\":\"structured text\"}"
    );
}
