//! Validation bridge to `c2pa-rs`.
//!
//! This crate locates and extracts the manifest block and defines the
//! structured-text hard binding. COSE signature verification, certificate
//! trust and assertion validation are delegated to `c2pa-rs`: the bridge
//! resolves the reference to a manifest store and hands the store together
//! with the raw bytes of the text to [`c2pa::Reader`].
//!
//! URL references are not fetched here; [`validate`] answers them with
//! [`BridgeError::RemoteNotEnabled`] so that the caller can fetch the store
//! and call [`validate_with_manifest`].

use vstd::prelude::*;
use vstd::string::StringSliceAdditionalSpecFns;
use vstd::utf8::encode_utf8;
use std::io::Cursor;
use c2pa::{Context, Reader};
use c2pa::Error as C2paError;
use crate::codec::spec_decode;
use crate::error::{error_message, Error};
use crate::text::push_str;
use crate::extract::{
    classify_reference, data_uri_bytes, extract_manifest, occurs_at, spec_locate,
    spec_looks_like_uri, Reference,
};

verus! {

/// The `c2pa-rs` manifest store reader, which carries the validation results.
#[verifier::external_type_specification]
#[verifier::external_body]
pub struct ExReader(Reader);

/// The error type of `c2pa-rs`.
#[verifier::external_type_specification]
#[verifier::external_body]
pub struct ExC2paError(C2paError);

/// The default media type used when handing a text stream to `c2pa-rs`.
pub const DEFAULT_FORMAT: &'static str = "text/plain";

/// An error from the validation bridge.
#[derive(Debug)]
pub enum BridgeError {
    /// Locating, extracting, or classifying the reference failed.
    Extract(Error),
    /// The reference is a URL, which this bridge does not fetch. Fetch it and
    /// call [`validate_with_manifest`].
    RemoteNotEnabled(String),
    /// Resolving a remote manifest over the network failed.
    Fetch(String),
    /// `c2pa-rs` rejected the manifest data or errored during validation.
    C2pa(C2paError),
}

/// The message of a bridge error, up to the text of an error of `c2pa-rs`,
/// which follows the returned prefix.
pub open spec fn bridge_message(e: BridgeError) -> Seq<char> {
    match e {
        BridgeError::Extract(x) => "manifest extraction failed: "@ + error_message(x),
        BridgeError::RemoteNotEnabled(url) => "reference is a URL ("@ + url@
            + "); enable the `remote` feature to resolve it"@,
        BridgeError::Fetch(msg) => "remote manifest fetch failed: "@ + msg@,
        BridgeError::C2pa(_) => "c2pa validation error: "@,
    }
}

/// Trusted: formats an error of `c2pa-rs` with its `Display`
/// implementation (`ToString::to_string`). Nothing is claimed of the text.
#[verifier::external_body]
fn c2pa_error_text(e: &C2paError) -> String {
    e.to_string()
}

impl BridgeError {
    /// A human-readable description of the error. For an error of `c2pa-rs`
    /// its own text follows the prefix.
    pub fn message(&self) -> (r: String)
        ensures
            self is C2pa ==> r@.len() >= bridge_message(*self).len() && r@.take(
                bridge_message(*self).len() as int,
            ) == bridge_message(*self),
            !(self is C2pa) ==> r@ == bridge_message(*self),
    {
        match self {
            BridgeError::Extract(e) => {
                let mut m = "manifest extraction failed: ".to_owned();
                let inner = e.message();
                push_str(&mut m, inner.as_str());
                m
            },
            BridgeError::RemoteNotEnabled(url) => {
                let mut m = "reference is a URL (".to_owned();
                push_str(&mut m, url.as_str());
                push_str(&mut m, "); enable the `remote` feature to resolve it");
                m
            },
            BridgeError::Fetch(msg) => {
                let mut m = "remote manifest fetch failed: ".to_owned();
                push_str(&mut m, msg.as_str());
                m
            },
            BridgeError::C2pa(e) => {
                let mut m = "c2pa validation error: ".to_owned();
                let inner = c2pa_error_text(e);
                let ghost head = m@;
                push_str(&mut m, inner.as_str());
                proof {
                    assert(m@.take(head.len() as int) =~= head);
                }
                m
            },
        }
    }
}

/// Trusted: calls `c2pa::Reader::from_context` with `Context::default()`
/// and then `Reader::with_manifest_data_and_stream` with the manifest store,
/// the media type and a cursor over the bytes of `text`. The outcome depends
/// on the store's signature, the trust configuration and the time of
/// validation, so nothing is claimed of it.
#[verifier::external_body]
fn read_with_manifest(text: &str, c2pa_data: &[u8], format: &str) -> Result<Reader, C2paError> {
    Reader::from_context(Context::default()).with_manifest_data_and_stream(
        c2pa_data,
        format,
        Cursor::new(text.as_bytes()),
    )
}

/// Validate structured `text` against a C2PA Manifest Store the caller has
/// already resolved (from a `data:` URI or its own fetch).
///
/// Returns the [`c2pa::Reader`], which holds the verdict on the signature,
/// the trust chain and the `c2pa.hash.data` binding over the raw bytes of
/// `text`; an error of `c2pa-rs` comes back as [`BridgeError::C2pa`].
pub fn validate_with_manifest(text: &str, c2pa_data: &[u8], format: &str) -> (r: Result<
    Reader,
    BridgeError,
>)
    ensures
        r matches Err(e) ==> e is C2pa,
{
    match read_with_manifest(text, c2pa_data, format) {
        Ok(reader) => Ok(reader),
        Err(e) => Err(BridgeError::C2pa(e)),
    }
}

/// The manifest store that `text` carries inline, or why there is none to
/// validate with: an extraction or classification error, or a URL reference
/// that must be fetched.
pub fn manifest_data(text: &str) -> (r: Result<Vec<u8>, BridgeError>)
    ensures
        match spec_locate(text.spec_bytes()) {
            Err(e) => r matches Err(BridgeError::Extract(x)) && x == e,
            Ok((rf, _, _)) => {
                let rb = encode_utf8(rf);
                if occurs_at(rb, data_uri_bytes(), 0) {
                    match spec_decode(rb.skip(29)) {
                        Ok(b) => r matches Ok(v) && v@ == b,
                        Err(d) => r matches Err(BridgeError::Extract(Error::ManifestDecode(x))) && x
                            == d,
                    }
                } else if spec_looks_like_uri(rb) {
                    r matches Err(BridgeError::RemoteNotEnabled(u)) && u@ == rf
                } else {
                    r matches Err(BridgeError::Extract(Error::MalformedReference(m))) && m@ == rf
                }
            },
        },
{
    let extracted = match extract_manifest(text) {
        Ok(x) => x,
        Err(e) => {
            return Err(BridgeError::Extract(e));
        },
    };
    match classify_reference(extracted.reference.as_str()) {
        Ok(Reference::Embedded(bytes)) => Ok(bytes),
        Ok(Reference::Url(url)) => Err(BridgeError::RemoteNotEnabled(url)),
        Err(e) => Err(BridgeError::Extract(e)),
    }
}

/// Extract the reference from `text`, resolve it, and validate.
///
/// A `data:application/c2pa;base64,` reference is decoded inline and the
/// text is validated against it. A URL reference is answered with
/// [`BridgeError::RemoteNotEnabled`]; the caller fetches the bytes and uses
/// [`validate_with_manifest`].
pub fn validate(text: &str, format: &str) -> (r: Result<Reader, BridgeError>)
    ensures
        match spec_locate(text.spec_bytes()) {
            Err(e) => r matches Err(BridgeError::Extract(x)) && x == e,
            Ok((rf, _, _)) => {
                let rb = encode_utf8(rf);
                if occurs_at(rb, data_uri_bytes(), 0) {
                    match spec_decode(rb.skip(29)) {
                        Ok(b) => r is Ok || (r matches Err(e) && e is C2pa),
                        Err(d) => r matches Err(BridgeError::Extract(Error::ManifestDecode(x))) && x
                            == d,
                    }
                } else if spec_looks_like_uri(rb) {
                    r matches Err(BridgeError::RemoteNotEnabled(u)) && u@ == rf
                } else {
                    r matches Err(BridgeError::Extract(Error::MalformedReference(m))) && m@ == rf
                }
            },
        },
{
    let bytes = manifest_data(text)?;
    validate_with_manifest(text, bytes.as_slice(), format)
}

} // verus!
