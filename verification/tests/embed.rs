use c2pa_structured_text::{embed_front_matter, embed_manifest, embed_manifest_at_end, ManifestRef};

#[test]
fn embed_url_python() {
    let text = "print('hello')\n";
    let result = embed_manifest(text, ManifestRef::Url("https://example.com/m.c2pa"), "#", None);
    assert!(result.starts_with("# -----BEGIN C2PA MANIFEST-----"));
    assert!(result.contains("https://example.com/m.c2pa"));
    assert!(result.contains("-----END C2PA MANIFEST-----"));
    assert!(result.ends_with("print('hello')\n"));
}

#[test]
fn embed_url_css() {
    let result = embed_manifest(
        "body {}",
        ManifestRef::Url("https://example.com/m.c2pa"),
        "/*",
        Some("*/"),
    );
    assert!(result.starts_with("/* -----BEGIN C2PA MANIFEST-----"));
    assert!(result.contains("-----END C2PA MANIFEST----- */"));
}

#[test]
fn embed_data_uri() {
    let bytes = b"test manifest";
    let result = embed_manifest("content", ManifestRef::Embedded(bytes), "#", None);
    assert!(result.contains("data:application/c2pa;base64,"));
}

#[test]
fn embed_at_end_after_shebang() {
    let text = "#!/usr/bin/env python3\nprint('hi')\n";
    let result =
        embed_manifest_at_end(text, ManifestRef::Url("https://example.com/m.c2pa"), "#", None);
    assert!(result.starts_with("#!/usr/bin/env python3"));
    assert!(result.ends_with("-----END C2PA MANIFEST-----"));
}

#[test]
fn embed_at_end_adds_newline_separator() {
    let result = embed_manifest_at_end("no trailing newline", ManifestRef::Url("u"), "//", None);
    assert_eq!(
        result,
        "no trailing newline\n// -----BEGIN C2PA MANIFEST----- u -----END C2PA MANIFEST-----"
    );
}

#[test]
fn embed_front_matter_into_existing() {
    let text = "---\ntitle: doc\n---\nbody\n";
    let result = embed_front_matter(text, ManifestRef::Url("https://example.com/m.c2pa"), "---");
    assert!(result.starts_with("---\n-----BEGIN C2PA MANIFEST-----\n"));
    assert!(result.contains("\ntitle: doc\n"));
}

#[test]
fn embed_front_matter_creates_section() {
    let result = embed_front_matter("# Heading\n", ManifestRef::Url("u"), "---");
    assert!(result.starts_with(
        "---\n-----BEGIN C2PA MANIFEST-----\nu\n-----END C2PA MANIFEST-----\n---\n"
    ));
}

#[test]
fn embed_exact_first_line() {
    let result = embed_manifest("x = 1\n", ManifestRef::Url("https://a.b/m"), "--", None);
    assert_eq!(
        result,
        "-- -----BEGIN C2PA MANIFEST----- https://a.b/m -----END C2PA MANIFEST-----\nx = 1\n"
    );
}

#[test]
fn embed_suffix_trailing_whitespace_is_trimmed() {
    let result = embed_manifest("", ManifestRef::Url("u"), "<!--", Some("-->  \t"));
    assert_eq!(
        result,
        "<!-- -----BEGIN C2PA MANIFEST----- u -----END C2PA MANIFEST----- -->\n"
    );
    let blank = embed_manifest("", ManifestRef::Url("u"), "#", Some("   "));
    assert_eq!(blank, "# -----BEGIN C2PA MANIFEST----- u -----END C2PA MANIFEST-----\n");
}

#[test]
fn embed_embedded_renders_base64() {
    let result = embed_manifest("", ManifestRef::Embedded(b"foobar"), "#", None);
    assert_eq!(
        result,
        "# -----BEGIN C2PA MANIFEST----- data:application/c2pa;base64,Zm9vYmFy -----END C2PA MANIFEST-----\n"
    );
}

#[test]
fn embed_at_end_of_empty_text_is_the_line_alone() {
    let result = embed_manifest_at_end("", ManifestRef::Url("u"), "#", None);
    assert_eq!(result, "# -----BEGIN C2PA MANIFEST----- u -----END C2PA MANIFEST-----");
}

#[test]
fn embed_at_end_keeps_existing_newline() {
    let result = embed_manifest_at_end("a\n", ManifestRef::Url("u"), "#", None);
    assert_eq!(result, "a\n# -----BEGIN C2PA MANIFEST----- u -----END C2PA MANIFEST-----");
}

#[test]
fn embed_front_matter_exact_forms() {
    let existing = embed_front_matter("+++\ntitle = 1\n+++\n", ManifestRef::Url("u"), "+++");
    assert_eq!(
        existing,
        "+++\n-----BEGIN C2PA MANIFEST-----\nu\n-----END C2PA MANIFEST-----\ntitle = 1\n+++\n"
    );
    // A fence that is not alone on the first line does not count as opening.
    let new = embed_front_matter("---x\n", ManifestRef::Url("u"), "---");
    assert_eq!(
        new,
        "---\n-----BEGIN C2PA MANIFEST-----\nu\n-----END C2PA MANIFEST-----\n---\n---x\n"
    );
}
