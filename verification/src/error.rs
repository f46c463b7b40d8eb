//! The errors of locating, resolving and binding a manifest block.

use vstd::prelude::*;
use crate::codec::{decode_error_message, DecodeError};
use crate::text::push_str;

verus! {

/// Why a manifest block could not be located, resolved or bound.
#[derive(Debug)]
pub enum Error {
    /// No `-----BEGIN/END C2PA MANIFEST-----` block was located.
    NotFound,
    /// More than one manifest block was found. The asset is then treated as if
    /// no manifest were located.
    MultipleBlocks,
    /// The block is present but the reference between the delimiters is empty.
    EmptyReference,
    /// The reference is neither a resolvable URI nor a `data:` URI.
    MalformedReference(String),
    /// The text uses bare CR (0x0D) line endings, which make line boundaries
    /// ambiguous.
    BareCarriageReturn,
    /// A `data:application/c2pa;base64,` reference could not be Base64-decoded.
    ManifestDecode(DecodeError),
    /// The exclusion ranges of a data hash are negative, out of order,
    /// overlapping, or overflow (`assertion.dataHash.malformed`).
    MalformedExclusion,
    /// The recomputed data hash did not match (`assertion.dataHash.mismatch`).
    HashMismatch,
    /// A hash algorithm outside the allowed list (`algorithm.unsupported`).
    UnsupportedAlgorithm(String),
}

/// The registered C2PA validation status code of an error, if it has one.
pub open spec fn status_code(e: Error) -> Option<Seq<char>> {
    match e {
        Error::MalformedExclusion => Some("assertion.dataHash.malformed"@),
        Error::HashMismatch => Some("assertion.dataHash.mismatch"@),
        Error::UnsupportedAlgorithm(_) => Some("algorithm.unsupported"@),
        _ => None,
    }
}

/// The message of an error.
pub open spec fn error_message(e: Error) -> Seq<char> {
    match e {
        Error::NotFound => "no manifest block found"@,
        Error::MultipleBlocks => "multiple manifest blocks found"@,
        Error::EmptyReference => "empty manifest reference"@,
        Error::MalformedReference(s) => "malformed manifest reference: "@ + s@,
        Error::BareCarriageReturn => "bare CR line endings are not supported; convert to LF or CRLF"@,
        Error::ManifestDecode(d) => "manifest data URI is not valid base64: "@ + decode_error_message(d),
        Error::MalformedExclusion => "data hash exclusion range is malformed"@,
        Error::HashMismatch => "data hash does not match the asset content"@,
        Error::UnsupportedAlgorithm(a) => "unsupported hash algorithm: "@ + a@,
    }
}

/// Whether an error means that the asset carries no provenance at all.
pub open spec fn no_manifest_located(e: Error) -> bool {
    e is NotFound || e is MultipleBlocks
}

impl Error {
    /// The registered C2PA validation status code for this error, or `None`
    /// when the condition carries no status code. Only the data-hash
    /// conditions map to codes; the locating outcomes of structured text
    /// have none.
    pub fn code(&self) -> (r: Option<&'static str>)
        ensures
            match r {
                Some(c) => status_code(*self) == Some(c@),
                None => status_code(*self) is None,
            },
    {
        match self {
            Error::MalformedExclusion => Some("assertion.dataHash.malformed"),
            Error::HashMismatch => Some("assertion.dataHash.mismatch"),
            Error::UnsupportedAlgorithm(_) => Some("algorithm.unsupported"),
            Error::NotFound
            | Error::MultipleBlocks
            | Error::EmptyReference
            | Error::MalformedReference(_)
            | Error::BareCarriageReturn
            | Error::ManifestDecode(_) => None,
        }
    }

    /// A human-readable description of the error.
    pub fn message(&self) -> (r: String)
        ensures
            r@ == error_message(*self),
    {
        match self {
            Error::NotFound => "no manifest block found".to_owned(),
            Error::MultipleBlocks => "multiple manifest blocks found".to_owned(),
            Error::EmptyReference => "empty manifest reference".to_owned(),
            Error::MalformedReference(s) => {
                let mut m = "malformed manifest reference: ".to_owned();
                push_str(&mut m, s.as_str());
                m
            },
            Error::BareCarriageReturn => "bare CR line endings are not supported; convert to LF or CRLF".to_owned(),
            Error::ManifestDecode(d) => {
                let mut m = "manifest data URI is not valid base64: ".to_owned();
                let inner = d.message();
                push_str(&mut m, inner.as_str());
                m
            },
            Error::MalformedExclusion => "data hash exclusion range is malformed".to_owned(),
            Error::HashMismatch => "data hash does not match the asset content".to_owned(),
            Error::UnsupportedAlgorithm(a) => {
                let mut m = "unsupported hash algorithm: ".to_owned();
                push_str(&mut m, a.as_str());
                m
            },
        }
    }

    /// Whether this error means the asset carries no provenance at all, as
    /// opposed to provenance that was found and rejected. More than one
    /// manifest block counts as none.
    pub fn is_no_manifest_located(&self) -> (r: bool)
        ensures
            r == no_manifest_located(*self),
    {
        match self {
            Error::NotFound | Error::MultipleBlocks => true,
            _ => false,
        }
    }
}

/// An error that means "no manifest located" never carries a status code,
/// and every data-hash failure carries one and is not "no manifest located".
pub proof fn lemma_codes_and_locating(e: Error)
    ensures
        no_manifest_located(e) ==> status_code(e) is None,
        (e is MalformedExclusion || e is HashMismatch || e is UnsupportedAlgorithm) ==> (
        status_code(e) is Some && !no_manifest_located(e)),
{
}

} // verus!
