//! Embedding, locating and hard-binding C2PA manifest blocks in structured
//! text: source code, configuration files and markup that carry the block in
//! a comment or in front matter.

pub mod codec;
pub mod text;
pub mod digest;
pub mod error;
pub mod extract;
pub mod embed;
pub mod hardbinding;
pub mod roundtrip;
pub mod bridge;

pub use codec::{decode, encode, DecodeError};
pub use error::Error;
pub use extract::{classify_reference, extract_manifest, ExtractionResult, Reference};
pub use embed::{embed_front_matter, embed_manifest, embed_manifest_at_end, ManifestRef};
