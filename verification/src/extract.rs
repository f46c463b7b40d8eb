//! Locating and extracting the manifest block, and classifying its reference.
//!
//! All positions are byte offsets into the UTF-8 encoding of the text.

use vstd::prelude::*;
use vstd::string::StringSliceAdditionalSpecFns;
use vstd::utf8::*;
use crate::codec::{decode, spec_decode};
use crate::error::Error;
use crate::text::{lemma_ascii_boundary, str_trim, trim};

verus! {

/// The opening delimiter of a manifest block.
pub const BEGIN: &'static str = "-----BEGIN C2PA MANIFEST-----";

/// The closing delimiter of a manifest block.
pub const END: &'static str = "-----END C2PA MANIFEST-----";

/// The prefix of a reference that carries the manifest store inline.
pub const DATA_URI_PREFIX: &'static str = "data:application/c2pa;base64,";

/// The bytes of the opening delimiter.
pub open spec fn begin_bytes() -> Seq<u8> {
    BEGIN.spec_bytes()
}

/// The bytes of the closing delimiter.
pub open spec fn end_bytes() -> Seq<u8> {
    END.spec_bytes()
}

/// The bytes of the inline-manifest prefix.
pub open spec fn data_uri_bytes() -> Seq<u8> {
    DATA_URI_PREFIX.spec_bytes()
}

/// The colon byte, alone.
pub open spec fn colon() -> Seq<u8> {
    seq![58u8]
}

/// The line feed byte, alone.
pub open spec fn lf() -> Seq<u8> {
    seq![10u8]
}

/// `n` stands in `h` at position `i`.
pub open spec fn occurs_at(h: Seq<u8>, n: Seq<u8>, i: int) -> bool {
    0 <= i && i + n.len() <= h.len() && h.subrange(i, i + n.len()) == n
}

/// The first position at or after `i` where `n` stands in `h`.
pub open spec fn find_from(h: Seq<u8>, n: Seq<u8>, i: int) -> Option<int>
    decreases h.len() - i,
{
    if i < 0 || i + n.len() > h.len() {
        None
    } else if n.len() == 0 || occurs_at(h, n, i) {
        Some(i)
    } else {
        find_from(h, n, i + 1)
    }
}

/// What `find_from` returns is an occurrence at or after the start, and no
/// occurrence lies between the start and it.
pub proof fn lemma_find_from(h: Seq<u8>, n: Seq<u8>, i: int)
    requires
        n.len() > 0,
        i >= 0,
    ensures
        match find_from(h, n, i) {
            Some(p) => i <= p && occurs_at(h, n, p) && forall|j: int|
                i <= j < p ==> !occurs_at(h, n, j),
            None => forall|j: int| i <= j ==> !occurs_at(h, n, j),
        },
    decreases h.len() - i,
{
    if i + n.len() > h.len() {
    } else if occurs_at(h, n, i) {
    } else {
        lemma_find_from(h, n, i + 1);
    }
}

/// The last position before `j` that holds the byte `c`.
pub open spec fn last_before(h: Seq<u8>, c: u8, j: int) -> Option<int>
    decreases j,
{
    if j <= 0 {
        None
    } else if h[j - 1] == c {
        Some(j - 1)
    } else {
        last_before(h, c, j - 1)
    }
}

/// The first byte of the line that holds position `b`.
pub open spec fn line_start(t: Seq<u8>, b: int) -> int {
    match last_before(t, 10, b) {
        Some(p) => p + 1,
        None => 0,
    }
}

/// One past the line terminator of the line that holds position `a`, or the
/// end of the text when that line has none.
pub open spec fn line_end(t: Seq<u8>, a: int) -> int {
    match find_from(t, lf(), a) {
        Some(p) => p + 1,
        None => t.len() as int,
    }
}

/// The single manifest block of the text `t`: the trimmed reference between
/// the first opening delimiter and the first closing delimiter after it, and
/// the byte span of the lines that carry them. It is refused when a second
/// opening delimiter follows, or when the reference is empty.
pub open spec fn spec_locate(t: Seq<u8>) -> Result<(Seq<char>, int, int), Error> {
    match find_from(t, begin_bytes(), 0) {
        None => Err(Error::NotFound),
        Some(b) => {
            let ab = b + begin_bytes().len();
            match find_from(t, end_bytes(), ab) {
                None => Err(Error::NotFound),
                Some(e) => {
                    let ae = e + end_bytes().len();
                    if find_from(t, begin_bytes(), ae) is Some {
                        Err(Error::MultipleBlocks)
                    } else {
                        let r = trim(decode_utf8(t.subrange(ab, e)));
                        if r.len() == 0 {
                            Err(Error::EmptyReference)
                        } else {
                            Ok((r, line_start(t, b), line_end(t, ae)))
                        }
                    }
                }
            }
        }
    }
}

/// The bytes of the delimiters and of the inline prefix are ASCII, with the
/// values that the constants spell.
pub proof fn lemma_delimiters()
    ensures
        begin_bytes().len() == 29,
        end_bytes().len() == 27,
        data_uri_bytes().len() == 29,
        begin_bytes() == BEGIN@.map_values(|c: char| c as u8),
        end_bytes() == END@.map_values(|c: char| c as u8),
        data_uri_bytes() == DATA_URI_PREFIX@.map_values(|c: char| c as u8),
        forall|i: int| 0 <= i < 29 ==> #[trigger] begin_bytes()[i] < 0x80,
        forall|i: int| 0 <= i < 27 ==> #[trigger] end_bytes()[i] < 0x80,
        forall|i: int| 0 <= i < 29 ==> #[trigger] data_uri_bytes()[i] < 0x80,
        begin_bytes()[0] == 45 && begin_bytes()[28] == 45,
        end_bytes()[0] == 45 && end_bytes()[26] == 45,
        data_uri_bytes()[28] == 44,
        begin_bytes() == seq![45u8, 45, 45, 45, 45, 66, 69, 71, 73, 78, 32, 67, 50, 80, 65, 32, 77, 65, 78, 73, 70, 69, 83, 84, 45, 45, 45, 45, 45],
        end_bytes() == seq![45u8, 45, 45, 45, 45, 69, 78, 68, 32, 67, 50, 80, 65, 32, 77, 65, 78, 73, 70, 69, 83, 84, 45, 45, 45, 45, 45],
        data_uri_bytes() == seq![100u8, 97, 116, 97, 58, 97, 112, 112, 108, 105, 99, 97, 116, 105, 111, 110, 47, 99, 50, 112, 97, 59, 98, 97, 115, 101, 54, 52, 44],
{
    reveal_strlit("-----BEGIN C2PA MANIFEST-----");
    reveal_strlit("-----END C2PA MANIFEST-----");
    reveal_strlit("data:application/c2pa;base64,");
    is_ascii_chars_encode_utf8(BEGIN@);
    is_ascii_chars_encode_utf8(END@);
    is_ascii_chars_encode_utf8(DATA_URI_PREFIX@);
    assert(begin_bytes() =~= BEGIN@.map_values(|c: char| c as u8));
    assert(end_bytes() =~= END@.map_values(|c: char| c as u8));
    assert(data_uri_bytes() =~= DATA_URI_PREFIX@.map_values(|c: char| c as u8));
    assert(begin_bytes() =~= seq![45u8, 45, 45, 45, 45, 66, 69, 71, 73, 78, 32, 67, 50, 80, 65, 32, 77, 65, 78, 73, 70, 69, 83, 84, 45, 45, 45, 45, 45]);
    assert(end_bytes() =~= seq![45u8, 45, 45, 45, 45, 69, 78, 68, 32, 67, 50, 80, 65, 32, 77, 65, 78, 73, 70, 69, 83, 84, 45, 45, 45, 45, 45]);
    assert(data_uri_bytes() =~= seq![100u8, 97, 116, 97, 58, 97, 112, 112, 108, 105, 99, 97, 116, 105, 111, 110, 47, 99, 50, 112, 97, 59, 98, 97, 115, 101, 54, 52, 44]);
}

pub(crate) fn matches_at(h: &[u8], n: &[u8], i: usize) -> (r: bool)
    requires
        i + n@.len() <= h.len(),
    ensures
        r == occurs_at(h@, n@, i as int),
{
    let mut k: usize = 0;
    while k < n.len()
        invariant
            k <= n@.len(),
            i + n@.len() <= h.len(),
            forall|j: int| 0 <= j < k ==> h@[i + j] == n@[j],
        decreases n@.len() - k,
    {
        if h[i + k] != n[k] {
            assert(h@.subrange(i as int, i + n@.len())[k as int] != n@[k as int]);
            return false;
        }
        k = k + 1;
    }
    assert(h@.subrange(i as int, i + n@.len()) =~= n@);
    true
}

/// The first position at or after `from` where `n` stands in `h`.
pub fn find_delimiter(h: &[u8], n: &[u8], from: usize) -> (r: Option<usize>)
    requires
        n@.len() > 0,
    ensures
        match find_from(h@, n@, from as int) {
            Some(i) => r == Some(i as usize) && from <= i && i + n@.len() <= h.len(),
            None => r is None,
        },
{
    proof {
        lemma_find_from(h@, n@, from as int);
    }
    if from > h.len() || n.len() > h.len() - from {
        return None;
    }
    let mut i = from;
    while n.len() <= h.len() - i
        invariant
            from <= i <= h.len(),
            n@.len() > 0,
            find_from(h@, n@, from as int) == find_from(h@, n@, i as int),
        decreases h@.len() - i,
    {
        if matches_at(h, n, i) {
            return Some(i);
        }
        i = i + 1;
    }
    None
}

/// The last position before `j` that holds the byte `c`.
fn rfind_byte(h: &[u8], c: u8, j: usize) -> (r: Option<usize>)
    requires
        j <= h@.len(),
    ensures
        match last_before(h@, c, j as int) {
            Some(p) => r == Some(p as usize) && 0 <= p < j,
            None => r is None,
        },
{
    let mut k = j;
    while k > 0
        invariant
            k <= j <= h@.len(),
            last_before(h@, c, j as int) == last_before(h@, c, k as int),
        decreases k,
    {
        if h[k - 1] == c {
            return Some(k - 1);
        }
        k = k - 1;
    }
    None
}

/// The located manifest block: the reference between the delimiters and the
/// byte span of the block's line(s) within the text. `line_start` is the
/// first byte of the line carrying the opening delimiter, `line_end` one past
/// the terminator of the line carrying the closing one (or the end of the
/// text).
pub(crate) struct Block {
    pub reference: String,
    pub line_start: usize,
    pub line_end: usize,
}

/// Locate the single manifest block of `text`.
pub(crate) fn locate_block(text: &str) -> (r: Result<Block, Error>)
    ensures
        match spec_locate(text.spec_bytes()) {
            Ok((rf, s, e)) => r matches Ok(b) && b.reference@ == rf && b.line_start == s
                && b.line_end == e,
            Err(x) => r matches Err(y) && y == x,
        },
{
    proof {
        lemma_delimiters();
    }
    let bytes = text.as_bytes();
    let begin = BEGIN.as_bytes();
    let end = END.as_bytes();
    let ghost t = bytes@;
    let begin_pos = match find_delimiter(bytes, begin, 0) {
        Some(p) => p,
        None => {
            return Err(Error::NotFound);
        },
    };
    proof {
        lemma_find_from(t, begin@, 0);
        assert(t.len() == bytes.len());
    }
    let after_begin = begin_pos + begin.len();
    let end_pos = match find_delimiter(bytes, end, after_begin) {
        Some(p) => p,
        None => {
            return Err(Error::NotFound);
        },
    };
    proof {
        lemma_find_from(t, end@, after_begin as int);
    }
    let after_end = end_pos + end.len();
    if find_delimiter(bytes, begin, after_end).is_some() {
        return Err(Error::MultipleBlocks);
    }
    proof {
        encode_utf8_valid_utf8(text@);
        assert(t.subrange(begin_pos as int, after_begin as int)[28] == t[after_begin - 1]);
        assert(t.subrange(end_pos as int, after_end as int)[0] == t[end_pos as int]);
        lemma_ascii_boundary(t, end_pos as int);
        assert(after_begin <= end_pos);
        assert(t.subrange(0, end_pos as int)[after_begin - 1] == t[after_begin - 1]);
        valid_utf8_split(t, end_pos as int);
        lemma_ascii_boundary(t.subrange(0, end_pos as int), after_begin as int);
    }
    let (head, _) = text.split_at(end_pos);
    let (_, middle) = head.split_at(after_begin);
    proof {
        assert(middle.spec_bytes() =~= t.subrange(after_begin as int, end_pos as int));
        encode_utf8_decode_utf8(middle@);
    }
    let trimmed = str_trim(middle);
    if trimmed.is_empty() {
        return Err(Error::EmptyReference);
    }
    let reference = trimmed.to_owned();
    let line_start = match rfind_byte(bytes, 10, begin_pos) {
        Some(p) => p + 1,
        None => 0,
    };
    let newline: &[u8] = &[10u8];
    proof {
        assert(newline@ =~= lf());
        lemma_find_from(t, lf(), after_end as int);
    }
    let line_end = match find_delimiter(bytes, newline, after_end) {
        Some(p) => p + 1,
        None => bytes.len(),
    };
    Ok(Block { reference, line_start, line_end })
}

/// The result of extracting a manifest block: the reference plus the byte
/// offset and length of the block's line(s) in the source text.
#[derive(Debug)]
pub struct ExtractionResult {
    pub reference: String,
    pub offset: usize,
    pub length: usize,
}

/// Locate and extract the single manifest block from structured text.
///
/// Returns [`Error::NotFound`] if no block is present, [`Error::MultipleBlocks`]
/// if more than one is present, and [`Error::EmptyReference`] if the reference
/// between the delimiters is empty.
pub fn extract_manifest(text: &str) -> (r: Result<ExtractionResult, Error>)
    ensures
        match spec_locate(text.spec_bytes()) {
            Ok((rf, s, e)) => r matches Ok(x) && x.reference@ == rf && x.offset == s
                && x.length == e - s,
            Err(y) => r matches Err(z) && z == y,
        },
{
    let block = locate_block(text)?;
    proof {
        lemma_locate_bounds(text.spec_bytes());
    }
    Ok(
        ExtractionResult {
            reference: block.reference,
            offset: block.line_start,
            length: block.line_end - block.line_start,
        },
    )
}

/// The span of a located block is ordered and lies inside the text.
pub proof fn lemma_locate_bounds(t: Seq<u8>)
    ensures
        spec_locate(t) matches Ok((rf, s, e)) ==> 0 <= s <= e <= t.len(),
{
    lemma_delimiters();
    lemma_find_from(t, begin_bytes(), 0);
    if let Some(b) = find_from(t, begin_bytes(), 0) {
        let ab = b + 29;
        lemma_find_from(t, end_bytes(), ab);
        if let Some(e) = find_from(t, end_bytes(), ab) {
            let ae = e + 27;
            lemma_last_before(t, 10, b);
            lemma_find_from(t, lf(), ae);
        }
    }
}

/// What `last_before` returns lies before the bound and holds the byte.
pub proof fn lemma_last_before(h: Seq<u8>, c: u8, j: int)
    requires
        j <= h.len(),
    ensures
        match last_before(h, c, j) {
            Some(p) => 0 <= p < j && h[p] == c && forall|k: int| p < k < j ==> h[k] != c,
            None => forall|k: int| 0 <= k < j ==> h[k] != c,
        },
    decreases j,
{
    if j > 0 && h[j - 1] != c {
        lemma_last_before(h, c, j - 1);
    }
}

/// A classified manifest reference: an external URI or an embedded C2PA
/// Manifest Store decoded from a `data:application/c2pa;base64,` URI.
#[derive(Debug, Clone, PartialEq, Eq)]
pub enum Reference {
    Url(String),
    Embedded(Vec<u8>),
}

/// An ASCII letter.
pub open spec fn is_alpha(c: u8) -> bool {
    (65 <= c <= 90) || (97 <= c <= 122)
}

/// A byte that may stand in a URI scheme: `ALPHA / DIGIT / "+" / "-" / "."`.
pub open spec fn is_scheme_byte(c: u8) -> bool {
    is_alpha(c) || (48 <= c <= 57) || c == 43 || c == 45 || c == 46
}

/// The text starts with `scheme:`, the scheme being a letter followed by
/// letters, digits, `+`, `-` or `.` (RFC 3986).
pub open spec fn spec_looks_like_uri(rb: Seq<u8>) -> bool {
    match find_from(rb, colon(), 0) {
        None => false,
        Some(c) => c > 0 && is_alpha(rb[0]) && forall|i: int| 0 <= i < c ==> is_scheme_byte(#[trigger] rb[i]),
    }
}

fn looks_like_uri(reference: &str) -> (r: bool)
    ensures
        r == spec_looks_like_uri(reference.spec_bytes()),
{
    let rb = reference.as_bytes();
    let colon_byte: &[u8] = &[58u8];
    proof {
        assert(colon_byte@ =~= colon());
        lemma_find_from(rb@, colon(), 0);
    }
    match find_delimiter(rb, colon_byte, 0) {
        None => false,
        Some(pos) => {
            if pos == 0 {
                return false;
            }
            let first = rb[0];
            if !((65 <= first && first <= 90) || (97 <= first && first <= 122)) {
                return false;
            }
            let mut i: usize = 0;
            while i < pos
                invariant
                    i <= pos < rb@.len(),
                    rb@ == reference.spec_bytes(),
                    find_from(rb@, colon(), 0) == Some(pos as int),
                    forall|k: int| 0 <= k < i ==> is_scheme_byte(#[trigger] rb@[k]),
                decreases pos - i,
            {
                let c = rb[i];
                if !((65 <= c && c <= 90) || (97 <= c && c <= 122) || (48 <= c && c <= 57) || c == 43
                    || c == 45 || c == 46) {
                    assert(!is_scheme_byte(rb@[i as int]));
                    return false;
                }
                i = i + 1;
            }
            true
        },
    }
}

/// Classify and resolve a reference string as extracted from a manifest block.
///
/// A `data:application/c2pa;base64,` URI is decoded to the manifest bytes. Any
/// other value that starts with a URI scheme is returned verbatim as an
/// external URI; anything else is refused.
pub fn classify_reference(reference: &str) -> (r: Result<Reference, Error>)
    ensures
        ({
            let rb = reference.spec_bytes();
            if occurs_at(rb, data_uri_bytes(), 0) {
                match spec_decode(rb.skip(29)) {
                    Ok(b) => r matches Ok(Reference::Embedded(v)) && v@ == b,
                    Err(e) => r matches Err(Error::ManifestDecode(x)) && x == e,
                }
            } else if spec_looks_like_uri(rb) {
                r matches Ok(Reference::Url(u)) && u@ == reference@
            } else {
                r matches Err(Error::MalformedReference(m)) && m@ == reference@
            }
        }),
{
    proof {
        lemma_delimiters();
    }
    let rb = reference.as_bytes();
    let prefix = DATA_URI_PREFIX.as_bytes();
    if prefix.len() <= rb.len() && matches_at(rb, prefix, 0) {
        proof {
            encode_utf8_valid_utf8(reference@);
            assert(rb@.subrange(0, 29)[28] == rb@[28]);
            lemma_ascii_boundary(rb@, 29);
        }
        let (_, b64) = reference.split_at(prefix.len());
        proof {
            assert(b64.spec_bytes() =~= rb@.skip(29));
        }
        match decode(b64) {
            Ok(bytes) => Ok(Reference::Embedded(bytes)),
            Err(e) => Err(Error::ManifestDecode(e)),
        }
    } else if looks_like_uri(reference) {
        Ok(Reference::Url(reference.to_owned()))
    } else {
        Err(Error::MalformedReference(reference.to_owned()))
    }
}

/// A reference looks like a URI exactly when it starts with an RFC 3986
/// scheme and a colon: an ASCII letter, then any number of ASCII letters,
/// digits, `+`, `-` and `.`, then `:`.
pub proof fn lemma_uri_scheme(rb: Seq<u8>)
    ensures
        spec_looks_like_uri(rb) <==> exists|c: int|
            0 < c < rb.len() && #[trigger] rb[c] == 58 && ((65 <= rb[0] <= 90) || (97 <= rb[0] <= 122))
                && forall|i: int| 0 <= i < c ==> ((65 <= #[trigger] rb[i] <= 90) || (97 <= rb[i] <= 122)
                    || (48 <= rb[i] <= 57) || rb[i] == 43 || rb[i] == 45 || rb[i] == 46),
{
    lemma_find_from(rb, colon(), 0);
    if spec_looks_like_uri(rb) {
        let c = find_from(rb, colon(), 0)->0;
        assert(rb.subrange(c, c + 1)[0] == rb[c]);
        assert(forall|i: int| 0 <= i < c ==> is_scheme_byte(#[trigger] rb[i]));
    }
    if exists|c: int|
        0 < c < rb.len() && #[trigger] rb[c] == 58 && ((65 <= rb[0] <= 90) || (97 <= rb[0] <= 122))
            && forall|i: int| 0 <= i < c ==> ((65 <= #[trigger] rb[i] <= 90) || (97 <= rb[i] <= 122)
                || (48 <= rb[i] <= 57) || rb[i] == 43 || rb[i] == 45 || rb[i] == 46) {
        let c = choose|c: int|
            0 < c < rb.len() && #[trigger] rb[c] == 58 && ((65 <= rb[0] <= 90) || (97 <= rb[0] <= 122))
                && forall|i: int| 0 <= i < c ==> ((65 <= #[trigger] rb[i] <= 90) || (97 <= rb[i] <= 122)
                    || (48 <= rb[i] <= 57) || rb[i] == 43 || rb[i] == 45 || rb[i] == 46);
        assert(rb.subrange(c, c + 1) =~= colon());
        assert(occurs_at(rb, colon(), c));
        match find_from(rb, colon(), 0) {
            Some(p) => {
                if p < c {
                    assert(rb.subrange(p, p + 1)[0] == rb[p]);
                }
                assert(p == c);
                assert(forall|i: int| 0 <= i < c ==> is_scheme_byte(#[trigger] rb[i]));
            },
            None => {},
        }
    }
}

} // verus!
