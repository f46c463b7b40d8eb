//! Embedding a C2PA manifest block into structured text.
//!
//! The block is placed either at the beginning of the file (recommended), at
//! the end (when the first line is reserved by the host format, e.g. a shebang
//! or an XML declaration), or inside a front matter section. Placement
//! determines the hard-binding exclusion range; see [`crate::hardbinding`].

use vstd::prelude::*;
use vstd::string::StringSliceAdditionalSpecFns;
use vstd::string::StrSliceExecFns;
use vstd::utf8::*;
use crate::codec::{encode, spec_encode};
use crate::extract::{BEGIN, DATA_URI_PREFIX, END, occurs_at};
use crate::text::{lemma_ascii_boundary, lemma_encode_utf8_add, push_char, push_str, str_trim_end, trim_end};

verus! {

/// A manifest reference to embed: either a URI to an external C2PA Manifest
/// Store (preferred) or the store itself, which is encoded as a
/// `data:application/c2pa;base64,` URI.
pub enum ManifestRef<'a> {
    Url(&'a str),
    Embedded(&'a [u8]),
}

/// The reference text that a manifest reference is written as.
pub open spec fn rendered(m: ManifestRef) -> Seq<char> {
    match m {
        ManifestRef::Url(u) => u@,
        ManifestRef::Embedded(b) => DATA_URI_PREFIX@ + spec_encode(b@),
    }
}

/// The single-line block: the comment prefix, the delimiters around the
/// reference, and the comment suffix, each separated by a space, with the
/// trailing white space removed.
pub open spec fn spec_single_line(reference: Seq<char>, prefix: Seq<char>, suffix: Seq<char>) -> Seq<char> {
    trim_end(
        prefix + seq![' '] + BEGIN@ + seq![' '] + reference + seq![' '] + END@ + seq![' ']
            + suffix,
    )
}

/// The comment suffix, the empty string when there is none.
pub open spec fn suffix_chars(s: Option<&str>) -> Seq<char> {
    match s {
        Some(x) => x@,
        None => Seq::empty(),
    }
}

/// The multi-line block of front matter: the delimiters on lines of their
/// own around the reference.
pub open spec fn spec_front_matter_block(reference: Seq<char>) -> Seq<char> {
    BEGIN@ + seq!['\n'] + reference + seq!['\n'] + END@
}

impl<'a> ManifestRef<'a> {
    /// The reference text: the URI itself, or the Base64 data URI of an
    /// embedded store.
    pub fn render(&self) -> (r: String)
        ensures
            r@ == rendered(*self),
    {
        match self {
            ManifestRef::Url(url) => (*url).to_owned(),
            ManifestRef::Embedded(bytes) => {
                let mut s = String::new();
                push_str(&mut s, DATA_URI_PREFIX);
                let b64 = encode(bytes);
                push_str(&mut s, b64.as_str());
                s
            },
        }
    }
}

/// The single-line block for a reference and a comment syntax.
pub fn single_line(reference: &str, comment_prefix: &str, comment_suffix: Option<&str>) -> (r: String)
    ensures
        r@ == spec_single_line(reference@, comment_prefix@, suffix_chars(comment_suffix)),
{
    let mut line = String::new();
    push_str(&mut line, comment_prefix);
    push_char(&mut line, ' ');
    push_str(&mut line, BEGIN);
    push_char(&mut line, ' ');
    push_str(&mut line, reference);
    push_char(&mut line, ' ');
    push_str(&mut line, END);
    push_char(&mut line, ' ');
    match comment_suffix {
        Some(s) => push_str(&mut line, s),
        None => {},
    }
    let trimmed = str_trim_end(line.as_str());
    proof {
        assert(line@ =~= comment_prefix@ + seq![' '] + BEGIN@ + seq![' '] + reference@ + seq![' '] + END@
            + seq![' '] + suffix_chars(comment_suffix));
    }
    trimmed.to_owned()
}

/// Embed a manifest block as the first line of the file using single-line
/// comment syntax. This is the recommended placement.
pub fn embed_manifest(
    text: &str,
    manifest: ManifestRef<'_>,
    comment_prefix: &str,
    comment_suffix: Option<&str>,
) -> (r: String)
    ensures
        r@ == spec_single_line(rendered(manifest), comment_prefix@, suffix_chars(comment_suffix))
            + seq!['\n'] + text@,
{
    let reference = manifest.render();
    let mut out = single_line(reference.as_str(), comment_prefix, comment_suffix);
    push_char(&mut out, '\n');
    push_str(&mut out, text);
    out
}

/// What `embed_manifest_at_end` produces: the line alone for an empty text,
/// and otherwise the text, a line feed unless the text already ends in one,
/// and the line.
pub open spec fn spec_embed_at_end(text: Seq<char>, line: Seq<char>) -> Seq<char> {
    if text.len() == 0 {
        line
    } else if text.last() == '\n' {
        text + line
    } else {
        text + seq!['\n'] + line
    }
}

/// Embed a manifest block as the last line of the file. Use this when the first
/// line is reserved by the host format (a shebang `#!/...` or an XML
/// declaration `<?xml ...?>`), so the closing delimiter appears on the final
/// line.
///
/// The block is separated from preceding content by a single newline; if the
/// text does not already end in a line terminator one is added first.
pub fn embed_manifest_at_end(
    text: &str,
    manifest: ManifestRef<'_>,
    comment_prefix: &str,
    comment_suffix: Option<&str>,
) -> (r: String)
    ensures
        r@ == spec_embed_at_end(
            text@,
            spec_single_line(rendered(manifest), comment_prefix@, suffix_chars(comment_suffix)),
        ),
{
    let reference = manifest.render();
    let line = single_line(reference.as_str(), comment_prefix, comment_suffix);
    if text.is_empty() {
        return line;
    }
    let n = text.unicode_len();
    let last = text.get_char(n - 1);
    let mut out = String::new();
    push_str(&mut out, text);
    if last != '\n' {
        push_char(&mut out, '\n');
    }
    push_str(&mut out, line.as_str());
    out
}

/// `text` starts with the characters `p`.
pub open spec fn has_prefix(text: Seq<char>, p: Seq<char>) -> bool {
    p.len() <= text.len() && text.take(p.len() as int) == p
}

/// What `embed_front_matter` produces: the block inserted at the top of the
/// existing front matter when the text opens with the fence on its first
/// line, and otherwise a new front matter section holding only the block,
/// followed by the text.
pub open spec fn spec_embed_front_matter(text: Seq<char>, block: Seq<char>, fence: Seq<char>) -> Seq<char> {
    let opening = fence + seq!['\n'];
    if has_prefix(text, opening) {
        opening + block + seq!['\n'] + text.skip(opening.len() as int)
    } else {
        opening + block + seq!['\n'] + fence + seq!['\n'] + text
    }
}

/// A byte prefix of UTF-8 text that ends in an ASCII byte is the encoding of
/// a character prefix, and the other way round.
proof fn lemma_utf8_prefix(t: Seq<char>, p: Seq<char>)
    requires
        encode_utf8(p).len() > 0,
        encode_utf8(p).last() < 0x80,
    ensures
        has_prefix(t, p) <==> occurs_at(encode_utf8(t), encode_utf8(p), 0),
{
    let tb = encode_utf8(t);
    let pb = encode_utf8(p);
    if has_prefix(t, p) {
        assert(t =~= p + t.skip(p.len() as int));
        lemma_encode_utf8_add(p, t.skip(p.len() as int));
        assert(tb.subrange(0, pb.len() as int) =~= pb);
    }
    if occurs_at(tb, pb, 0) {
        let k = pb.len() as int;
        encode_utf8_valid_utf8(t);
        assert(tb[k - 1] == pb[k - 1]);
        lemma_ascii_boundary(tb, k);
        valid_utf8_split(tb, k);
        decode_utf8_split(tb, k);
        encode_utf8_decode_utf8(t);
        encode_utf8_decode_utf8(p);
        assert(tb.subrange(0, k) == pb);
        assert(decode_utf8(tb.subrange(0, k)) == p);
        assert(t == p + decode_utf8(tb.subrange(k, tb.len() as int)));
        assert(t.take(p.len() as int) =~= p);
    }
}

/// Embed a manifest block in multi-line front matter form. `fm_delim` is the
/// host format's front matter fence (`---` for YAML, `+++` for TOML).
///
/// If `text` already opens with `fm_delim` on its first line the C2PA block is
/// inserted at the top of that existing front matter; otherwise a new front
/// matter section containing only the block is prepended.
pub fn embed_front_matter(text: &str, manifest: ManifestRef<'_>, fm_delim: &str) -> (r: String)
    ensures
        r@ == spec_embed_front_matter(
            text@,
            spec_front_matter_block(rendered(manifest)),
            fm_delim@,
        ),
{
    let reference = manifest.render();
    let mut opening = String::new();
    push_str(&mut opening, fm_delim);
    push_char(&mut opening, '\n');
    let mut out = String::new();
    push_str(&mut out, opening.as_str());
    push_str(&mut out, BEGIN);
    push_char(&mut out, '\n');
    push_str(&mut out, reference.as_str());
    push_char(&mut out, '\n');
    push_str(&mut out, END);
    push_char(&mut out, '\n');
    let tb = text.as_bytes();
    let ob = opening.as_str().as_bytes();
    proof {
        let o = opening@;
        assert(o =~= fm_delim@ + seq!['\n']);
        lemma_encode_utf8_add(fm_delim@, seq!['\n']);
        assert(encode_utf8(seq!['\n']) =~= seq![10u8]) by {
            assert(is_ascii_chars(seq!['\n']));
            is_ascii_chars_encode_utf8(seq!['\n']);
        }
        lemma_utf8_prefix(text@, o);
    }
    if ob.len() <= tb.len() && crate::extract::matches_at(tb, ob, 0) {
        let ghost k = ob@.len() as int;
        proof {
            encode_utf8_valid_utf8(text@);
            assert(tb@.subrange(0, k)[k - 1] == tb@[k - 1]);
            lemma_ascii_boundary(tb@, k);
        }
        let (head, rest) = text.split_at(ob.len());
        proof {
            assert(has_prefix(text@, opening@));
            assert(text@ =~= opening@ + text@.skip(opening@.len() as int));
            lemma_encode_utf8_add(opening@, text@.skip(opening@.len() as int));
            assert(rest.spec_bytes() =~= encode_utf8(text@.skip(opening@.len() as int)));
            encode_utf8_decode_utf8(rest@);
            encode_utf8_decode_utf8(text@.skip(opening@.len() as int));
        }
        push_str(&mut out, rest);
        out
    } else {
        push_str(&mut out, fm_delim);
        push_char(&mut out, '\n');
        push_str(&mut out, text);
        out
    }
}

} // verus!
