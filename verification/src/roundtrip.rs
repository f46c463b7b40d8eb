//! How the embedding functions and the locating, extracting and hard-binding
//! functions fit together: what is embedded is found again, and the hard
//! binding of embedded text covers exactly the content it was given.

use vstd::prelude::*;
use vstd::utf8::*;
use crate::error::Error;
use crate::extract::{
    begin_bytes, end_bytes, find_from, lemma_delimiters, lemma_find_from, lemma_last_before,
    line_end, line_start, lf, occurs_at, spec_locate, last_before,
};
use crate::text::{
    is_white_space, lemma_encode_utf8_add, lemma_trim_end_add, lemma_trim_end_prefix,
    lemma_trim_surrounded, trim, trim_end,
};
use crate::embed::{
    has_prefix, rendered, ManifestRef, spec_embed_at_end, spec_embed_front_matter, spec_front_matter_block, spec_single_line,
};
use crate::hardbinding::{bare_cr_at, covered, has_bare_cr, spec_manifest_exclusion};
use crate::extract::{BEGIN, DATA_URI_PREFIX, END, data_uri_bytes};
use crate::codec::{is_plain_char, lemma_decode_encode, lemma_encode_plain, spec_decode, spec_encode, DecodeError};

verus! {

/// `n` stands somewhere in `h`.
pub open spec fn contains_bytes(h: Seq<u8>, n: Seq<u8>) -> bool {
    exists|j: int| occurs_at(h, n, j)
}

proof fn lemma_find_is(t: Seq<u8>, n: Seq<u8>, i: int, p: int)
    requires
        n.len() > 0,
        0 <= i <= p,
        occurs_at(t, n, p),
        forall|j: int| i <= j < p ==> !occurs_at(t, n, j),
    ensures
        find_from(t, n, i) == Some(p),
{
    lemma_find_from(t, n, i);
}

proof fn lemma_find_none(t: Seq<u8>, n: Seq<u8>, i: int)
    requires
        n.len() > 0,
        0 <= i,
        forall|j: int| i <= j ==> !occurs_at(t, n, j),
    ensures
        find_from(t, n, i) is None,
{
    lemma_find_from(t, n, i);
}

/// Inside the opening delimiter, a space or a line feed is never followed by
/// a dash, and the delimiter holds neither a line feed nor a carriage return.
proof fn lemma_begin_shape()
    ensures
        forall|k: int|
            0 <= k < 28 && (#[trigger] begin_bytes()[k] == 32 || begin_bytes()[k] == 10) ==> begin_bytes()[k + 1]
                != 45,
        forall|k: int| 0 <= k < 29 ==> #[trigger] begin_bytes()[k] != 10 && begin_bytes()[k] != 13 && begin_bytes()[k] != 32 || k == 10 || k == 15,
{
    lemma_delimiters();
    assert forall|k: int| 0 <= k < 29 implies begin_bytes()[k] != 10 && begin_bytes()[k] != 13 && begin_bytes()[k] != 32 || k == 10 || k == 15 by {
        if k == 0 {
        } else if k == 1 {
        } else if k == 2 {
        } else if k == 3 {
        } else if k == 4 {
        } else if k == 5 {
        } else if k == 6 {
        } else if k == 7 {
        } else if k == 8 {
        } else if k == 9 {
        } else if k == 10 {
        } else if k == 11 {
        } else if k == 12 {
        } else if k == 13 {
        } else if k == 14 {
        } else if k == 15 {
        } else if k == 16 {
        } else if k == 17 {
        } else if k == 18 {
        } else if k == 19 {
        } else if k == 20 {
        } else if k == 21 {
        } else if k == 22 {
        } else if k == 23 {
        } else if k == 24 {
        } else if k == 25 {
        } else if k == 26 {
        } else if k == 27 {
        } else if k == 28 {
        }
    }
}

/// Inside the closing delimiter, a space or a line feed is never followed by
/// a dash, and the delimiter holds neither a line feed nor a carriage return.
proof fn lemma_end_shape()
    ensures
        forall|k: int|
            0 <= k < 26 && (#[trigger] end_bytes()[k] == 32 || end_bytes()[k] == 10) ==> end_bytes()[k + 1]
                != 45,
        forall|k: int| 0 <= k < 27 ==> #[trigger] end_bytes()[k] != 10 && end_bytes()[k] != 13 && end_bytes()[k] != 32 || k == 8 || k == 13,
{
    lemma_delimiters();
    assert forall|k: int| 0 <= k < 27 implies end_bytes()[k] != 10 && end_bytes()[k] != 13 && end_bytes()[k] != 32 || k == 8 || k == 13 by {
        if k == 0 {
        } else if k == 1 {
        } else if k == 2 {
        } else if k == 3 {
        } else if k == 4 {
        } else if k == 5 {
        } else if k == 6 {
        } else if k == 7 {
        } else if k == 8 {
        } else if k == 9 {
        } else if k == 10 {
        } else if k == 11 {
        } else if k == 12 {
        } else if k == 13 {
        } else if k == 14 {
        } else if k == 15 {
        } else if k == 16 {
        } else if k == 17 {
        } else if k == 18 {
        } else if k == 19 {
        } else if k == 20 {
        } else if k == 21 {
        } else if k == 22 {
        } else if k == 23 {
        } else if k == 24 {
        } else if k == 25 {
        } else if k == 26 {
        }
    }
}

/// An occurrence of `n` that starts in `x` and ends past it is impossible when
/// `x` ends in a space or a line feed, `w` starts with the first byte of `n`,
/// and no space or line feed inside `n` is followed by that byte.
proof fn lemma_no_straddle(x: Seq<u8>, w: Seq<u8>, n: Seq<u8>, j: int)
    requires
        0 <= j < x.len() < j + n.len(),
        x.last() == 32 || x.last() == 10,
        w.len() > 0,
        w[0] == n[0],
        forall|k: int| 0 <= k < n.len() - 1 && (#[trigger] n[k] == 32 || n[k] == 10) ==> n[k + 1] != n[0],
    ensures
        !occurs_at(x + w, n, j),
{
    if occurs_at(x + w, n, j) {
        let t = x + w;
        let k = x.len() - j;
        assert(t.subrange(j, j + n.len())[k - 1] == n[k - 1]);
        assert(t.subrange(j, j + n.len())[k] == n[k]);
        assert(t[x.len() - 1] == x.last());
        assert(t[x.len() as int] == w[0]);
    }
}

/// An occurrence inside a part of a concatenation is an occurrence in that
/// part.
proof fn lemma_occurs_in_part(a: Seq<u8>, b: Seq<u8>, n: Seq<u8>, j: int)
    ensures
        occurs_at(a + b, n, j) && j + n.len() <= a.len() ==> occurs_at(a, n, j),
        occurs_at(a + b, n, j) && j >= a.len() ==> occurs_at(b, n, j - a.len()),
{
    if occurs_at(a + b, n, j) && j + n.len() <= a.len() {
        assert((a + b).subrange(j, j + n.len()) =~= a.subrange(j, j + n.len()));
    }
    if occurs_at(a + b, n, j) && j >= a.len() {
        assert((a + b).subrange(j, j + n.len()) =~= b.subrange(j - a.len(), j - a.len() + n.len()));
    }
}

/// The layout of a text that holds one block: `x`, the opening delimiter,
/// the encoded reference region `yc`, the closing delimiter, then `z`. When
/// `x` holds no opening delimiter and ends in a space or line feed, the
/// reference region holds no closing delimiter and ends in a space or line
/// feed, and `z` holds no opening delimiter, the block is located there and
/// its reference is the trimmed region.
pub proof fn lemma_locate_layout(x: Seq<u8>, yc: Seq<char>, z: Seq<u8>)
    requires
        x.len() > 0,
        x.last() == 32 || x.last() == 10,
        !contains_bytes(x, begin_bytes()),
        encode_utf8(yc).len() > 0,
        encode_utf8(yc).last() == 32 || encode_utf8(yc).last() == 10,
        !contains_bytes(encode_utf8(yc), end_bytes()),
        !contains_bytes(z, begin_bytes()),
        trim(yc).len() > 0,
    ensures
        ({
            let y = encode_utf8(yc);
            let t = x + begin_bytes() + y + end_bytes() + z;
            spec_locate(t) == Ok::<(Seq<char>, int, int), Error>(
                (
                    trim(yc),
                    line_start(t, x.len() as int),
                    line_end(t, (x.len() + 29 + y.len() + 27) as int),
                ),
            )
        }),
{
    lemma_delimiters();
    lemma_begin_shape();
    lemma_end_shape();
    let b = begin_bytes();
    let e = end_bytes();
    let y = encode_utf8(yc);
    let t = x + b + y + e + z;
    let ab: int = x.len() as int + 29;
    let ep: int = ab + y.len();
    let ae: int = ep + 27;
    // The opening delimiter is first found right after `x`.
    assert(t.subrange(x.len() as int, ab) =~= b);
    let w1 = b + y + e + z;
    assert(t =~= x + w1);
    assert forall|j: int| 0 <= j < x.len() implies !occurs_at(t, b, j) by {
        if j + 29 <= x.len() {
            lemma_occurs_in_part(x, w1, b, j);
        } else {
            lemma_no_straddle(x, w1, b, j);
        }
    }
    lemma_find_is(t, b, 0, x.len() as int);
    // The closing delimiter is first found right after the reference region.
    let xy = x + b + y;
    let w2 = e + z;
    assert(t =~= xy + w2);
    assert(t.subrange(ep, ae) =~= e);
    assert(xy.last() == y.last());
    assert forall|j: int| ab <= j < ep implies !occurs_at(t, e, j) by {
        if j + 27 <= ep {
            if occurs_at(t, e, j) {
                assert(t.subrange(j, j + 27) =~= y.subrange(j - ab, j - ab + 27));
                assert(occurs_at(y, e, j - ab));
            }
        } else {
            lemma_no_straddle(xy, w2, e, j);
        }
    }
    lemma_find_is(t, e, ab, ep);
    // No opening delimiter follows the closing one.
    let xe = x + b + y + e;
    assert(t =~= xe + z);
    assert forall|j: int| ae <= j implies !occurs_at(t, b, j) by {
        lemma_occurs_in_part(xe, z, b, j);
    }
    lemma_find_none(t, b, ae);
    // The reference region decodes to `yc`.
    assert(t.subrange(ab, ep) =~= y);
    encode_utf8_decode_utf8(yc);
}

proof fn lemma_noc_push(a: Seq<u8>, c: u8, n: Seq<u8>)
    requires
        n.len() > 0,
        !contains_bytes(a, n),
        n.last() != c,
    ensures
        !contains_bytes(a + seq![c], n),
{
    assert forall|j: int| !occurs_at(a + seq![c], n, j) by {
        if occurs_at(a + seq![c], n, j) {
            if j + n.len() <= a.len() {
                lemma_occurs_in_part(a, seq![c], n, j);
            } else {
                assert((a + seq![c]).subrange(j, j + n.len())[n.len() - 1] == n.last());
            }
        }
    }
}

proof fn lemma_noc_prepend(c: u8, b: Seq<u8>, n: Seq<u8>)
    requires
        n.len() > 0,
        !contains_bytes(b, n),
        n[0] != c,
    ensures
        !contains_bytes(seq![c] + b, n),
{
    assert forall|j: int| !occurs_at(seq![c] + b, n, j) by {
        if occurs_at(seq![c] + b, n, j) {
            if j >= 1 {
                lemma_occurs_in_part(seq![c], b, n, j);
            } else {
                assert((seq![c] + b).subrange(j, j + n.len())[0] == n[0]);
            }
        }
    }
}

proof fn lemma_noc_join(a: Seq<u8>, c: u8, b: Seq<u8>, n: Seq<u8>)
    requires
        n.len() > 0,
        !contains_bytes(a, n),
        !contains_bytes(b, n),
        forall|k: int| 0 <= k < n.len() ==> #[trigger] n[k] != c,
    ensures
        !contains_bytes(a + seq![c] + b, n),
{
    let ac = a + seq![c];
    assert forall|j: int| !occurs_at(ac + b, n, j) by {
        if occurs_at(ac + b, n, j) {
            if j + n.len() <= a.len() {
                lemma_occurs_in_part(ac, b, n, j);
                lemma_occurs_in_part(a, seq![c], n, j);
            } else if j >= ac.len() {
                lemma_occurs_in_part(ac, b, n, j);
            } else {
                let k = a.len() - j;
                assert((ac + b).subrange(j, j + n.len())[k] == n[k]);
                assert((ac + b)[a.len() as int] == c);
            }
        }
    }
}

proof fn lemma_noc_prefix(h: Seq<u8>, k: int, n: Seq<u8>)
    requires
        0 <= k <= h.len(),
        !contains_bytes(h, n),
    ensures
        !contains_bytes(h.take(k), n),
{
    assert(h =~= h.take(k) + h.skip(k));
    assert forall|j: int| !occurs_at(h.take(k), n, j) by {
        if occurs_at(h.take(k), n, j) {
            assert(h.subrange(j, j + n.len()) =~= h.take(k).subrange(j, j + n.len()));
            assert(occurs_at(h, n, j));
        }
    }
}

proof fn lemma_noc_empty(n: Seq<u8>)
    requires
        n.len() > 0,
    ensures
        !contains_bytes(Seq::<u8>::empty(), n),
{
}

/// The encodings of a space and of a line feed.
proof fn lemma_ascii_char_bytes()
    ensures
        encode_utf8(seq![' ']) == seq![32u8],
        encode_utf8(seq!['\n']) == seq![10u8],
{
    assert(is_ascii_chars(seq![' ']));
    is_ascii_chars_encode_utf8(seq![' ']);
    assert(encode_utf8(seq![' ']) =~= seq![32u8]);
    assert(is_ascii_chars(seq!['\n']));
    is_ascii_chars_encode_utf8(seq!['\n']);
    assert(encode_utf8(seq!['\n']) =~= seq![10u8]);
}

proof fn lemma_enc5(a: Seq<char>, b: Seq<char>, c: Seq<char>, d: Seq<char>, e: Seq<char>)
    ensures
        encode_utf8(a + b + c + d + e) == encode_utf8(a) + encode_utf8(b) + encode_utf8(c)
            + encode_utf8(d) + encode_utf8(e),
{
    lemma_encode_utf8_add(a + b + c + d, e);
    lemma_encode_utf8_add(a + b + c, d);
    lemma_encode_utf8_add(a + b, c);
    lemma_encode_utf8_add(a, b);
}

proof fn lemma_enc3(a: Seq<char>, b: Seq<char>, c: Seq<char>)
    ensures
        encode_utf8(a + b + c) == encode_utf8(a) + encode_utf8(b) + encode_utf8(c),
{
    lemma_encode_utf8_add(a + b, c);
    lemma_encode_utf8_add(a, b);
}

/// What follows the closing delimiter on a single line: a space and the
/// suffix without its trailing white space, or nothing when the suffix is all
/// white space.
pub open spec fn line_tail(s: Seq<char>) -> Seq<char> {
    trim_end(seq![' '] + s)
}

/// The single line is the prefix, a space, the opening delimiter, the
/// reference between spaces, the closing delimiter and the line tail.
proof fn lemma_single_line_layout(r: Seq<char>, p: Seq<char>, s: Seq<char>)
    ensures
        spec_single_line(r, p, s) == (p + seq![' ']) + BEGIN@ + (seq![' '] + r + seq![' ']) + END@
            + line_tail(s),
        trim_end(s).len() > 0 ==> line_tail(s) == seq![' '] + trim_end(s),
        trim_end(s).len() == 0 ==> line_tail(s).len() == 0,
{
    reveal_strlit("-----END C2PA MANIFEST-----");
    let q = (p + seq![' ']) + BEGIN@ + (seq![' '] + r + seq![' ']) + END@;
    assert(p + seq![' '] + BEGIN@ + seq![' '] + r + seq![' '] + END@ + seq![' '] + s =~= q + (seq![' '] + s));
    assert(q.last() == '-');
    assert(!is_white_space('-'));
    lemma_trim_end_add(q, seq![' '] + s);
    assert(trim_end(q) == q);
    lemma_trim_end_add(seq![' '], s);
    assert(trim_end(seq![' ']) =~= Seq::<char>::empty()) by {
        assert(seq![' '].drop_last() =~= Seq::<char>::empty());
        assert(trim_end(Seq::<char>::empty()) == Seq::<char>::empty());
    }
    if line_tail(s).len() == 0 {
        assert(q + line_tail(s) =~= q);
    }
}

/// The bytes of the line tail hold no opening delimiter when the suffix
/// holds none, and no line feed when the trimmed suffix holds none.
proof fn lemma_line_tail_bytes(s: Seq<char>)
    ensures
        !contains_bytes(encode_utf8(s), begin_bytes()) ==> !contains_bytes(
            encode_utf8(line_tail(s)),
            begin_bytes(),
        ),
        !contains_bytes(encode_utf8(trim_end(s)), lf()) ==> !contains_bytes(
            encode_utf8(line_tail(s)),
            lf(),
        ),
{
    lemma_delimiters();
    lemma_ascii_char_bytes();
    lemma_single_line_layout(Seq::empty(), Seq::empty(), s);
    let ts = trim_end(s);
    if ts.len() > 0 {
        lemma_encode_utf8_add(seq![' '], ts);
        lemma_trim_end_prefix(s);
        assert(s =~= ts + s.skip(ts.len() as int));
        lemma_encode_utf8_add(ts, s.skip(ts.len() as int));
        assert(encode_utf8(s).take(encode_utf8(ts).len() as int) =~= encode_utf8(ts));
        if !contains_bytes(encode_utf8(s), begin_bytes()) {
            lemma_noc_prefix(encode_utf8(s), encode_utf8(ts).len() as int, begin_bytes());
            lemma_noc_prepend(32, encode_utf8(ts), begin_bytes());
        }
        if !contains_bytes(encode_utf8(ts), lf()) {
            lemma_noc_prepend(32, encode_utf8(ts), lf());
        }
    } else {
        assert(encode_utf8(line_tail(s)) =~= Seq::<u8>::empty());
    }
}

/// Extracting what `embed_manifest` wrote at the beginning of a text gives
/// back the reference (without surrounding white space). The block is found
/// at offset 0 when the comment prefix holds no line feed, and spans the
/// first line and its terminator when the trimmed suffix holds none.
///
/// The block is found as long as the comment prefix, the suffix and the text
/// hold no opening delimiter, the reference holds no closing delimiter, and
/// the reference is not all white space.
pub proof fn lemma_extract_after_embed(text: Seq<char>, r: Seq<char>, p: Seq<char>, s: Seq<char>)
    requires
        !contains_bytes(encode_utf8(p), begin_bytes()),
        !contains_bytes(encode_utf8(r), end_bytes()),
        !contains_bytes(encode_utf8(s), begin_bytes()),
        !contains_bytes(encode_utf8(text), begin_bytes()),
        trim(r).len() > 0,
    ensures
        ({
            let line = spec_single_line(r, p, s);
            let t = encode_utf8(line + seq!['\n'] + text);
            &&& spec_locate(t) is Ok
            &&& spec_locate(t)->Ok_0.0 == trim(r)
            &&& !contains_bytes(encode_utf8(p), lf()) ==> spec_locate(t)->Ok_0.1 == 0
            &&& !contains_bytes(encode_utf8(trim_end(s)), lf()) ==> spec_locate(t)->Ok_0.2
                == encode_utf8(line).len() + 1
        }),
{
    lemma_delimiters();
    lemma_begin_shape();
    lemma_end_shape();
    lemma_ascii_char_bytes();
    lemma_single_line_layout(r, p, s);
    lemma_line_tail_bytes(s);
    let line = spec_single_line(r, p, s);
    let xc = p + seq![' '];
    let yc = seq![' '] + r + seq![' '];
    let tail = line_tail(s);
    let zc = tail + seq!['\n'] + text;
    assert(line + seq!['\n'] + text =~= xc + BEGIN@ + yc + END@ + zc);
    lemma_enc5(xc, BEGIN@, yc, END@, zc);
    lemma_encode_utf8_add(p, seq![' ']);
    lemma_enc3(seq![' '], r, seq![' ']);
    lemma_enc3(tail, seq!['\n'], text);
    lemma_enc5(xc, BEGIN@, yc, END@, tail);
    let x = encode_utf8(xc);
    let y = encode_utf8(yc);
    let tb = encode_utf8(tail);
    let z = encode_utf8(zc);
    let t = encode_utf8(line + seq!['\n'] + text);
    assert(t == x + begin_bytes() + y + end_bytes() + z);
    // The parts avoid the delimiters.
    lemma_noc_push(encode_utf8(p), 32, begin_bytes());
    lemma_noc_prepend(32, encode_utf8(r), end_bytes());
    lemma_noc_push(seq![32u8] + encode_utf8(r), 32, end_bytes());
    assert(y == seq![32u8] + encode_utf8(r) + seq![32u8]);
    lemma_noc_join(tb, 10, encode_utf8(text), begin_bytes());
    lemma_trim_surrounded(' ', r, ' ');
    lemma_locate_layout(x, yc, z);
    let ae = (x.len() + 29 + y.len() + 27) as int;
    // Where the line starts.
    if !contains_bytes(encode_utf8(p), lf()) {
        lemma_last_before(t, 10, x.len() as int);
        if let Some(q) = last_before(t, 10, x.len() as int) {
            assert(t[q] == x[q]);
            if q < encode_utf8(p).len() {
                assert(encode_utf8(p).subrange(q, q + 1) =~= lf());
                assert(occurs_at(encode_utf8(p), lf(), q));
            }
        }
    }
    // Where the line ends.
    if !contains_bytes(encode_utf8(trim_end(s)), lf()) {
        let q = ae + tb.len();
        assert(t.subrange(q, q + 1) =~= lf());
        assert forall|j: int| ae <= j < q implies !occurs_at(t, lf(), j) by {
            if occurs_at(t, lf(), j) {
                assert(t[j] == tb[j - ae]);
                assert(tb.subrange(j - ae, j - ae + 1) =~= lf());
                assert(occurs_at(tb, lf(), j - ae));
            }
        }
        lemma_find_is(t, lf(), ae, q);
        assert(encode_utf8(line) == x + begin_bytes() + y + end_bytes() + tb);
    }
}

/// Joining two texts without bare CR by a line feed leaves no bare CR.
proof fn lemma_no_bare_cr_join(a: Seq<u8>, b: Seq<u8>)
    requires
        !has_bare_cr(a),
        !has_bare_cr(b),
    ensures
        !has_bare_cr(a + seq![10u8] + b),
{
    let t = a + seq![10u8] + b;
    assert forall|i: int| !bare_cr_at(t, i) by {
        if bare_cr_at(t, i) {
            if i < a.len() - 1 {
                assert(t[i] == a[i] && t[i + 1] == a[i + 1]);
                assert(bare_cr_at(a, i));
            } else if i == a.len() - 1 {
                assert(t[i + 1] == 10);
            } else if i == a.len() {
                assert(t[i] == 10);
            } else {
                let k = i - a.len() - 1;
                assert(t[i] == b[k]);
                if i + 1 < t.len() {
                    assert(t[i + 1] == b[k + 1]);
                }
                assert(bare_cr_at(b, k));
            }
        }
    }
}

/// The hard binding of what `embed_manifest` wrote covers exactly the
/// text it was given: removing the exclusion range recovers its bytes.
///
/// This holds when the block is found (see `lemma_extract_after_embed`), sits
/// alone on the first line (no line feed in the comment prefix nor in the
/// trimmed suffix), and neither the line nor the text has a bare CR.
pub proof fn lemma_hashed_after_embed(text: Seq<char>, r: Seq<char>, p: Seq<char>, s: Seq<char>)
    requires
        !contains_bytes(encode_utf8(p), begin_bytes()),
        !contains_bytes(encode_utf8(r), end_bytes()),
        !contains_bytes(encode_utf8(s), begin_bytes()),
        !contains_bytes(encode_utf8(text), begin_bytes()),
        trim(r).len() > 0,
        !contains_bytes(encode_utf8(p), lf()),
        !contains_bytes(encode_utf8(trim_end(s)), lf()),
        !has_bare_cr(encode_utf8(spec_single_line(r, p, s))),
        !has_bare_cr(encode_utf8(text)),
    ensures
        ({
            let t = encode_utf8(spec_single_line(r, p, s) + seq!['\n'] + text);
            &&& spec_manifest_exclusion(t) is Ok
            &&& spec_manifest_exclusion(t)->Ok_0.0 == 0
            &&& covered(t, 0, spec_manifest_exclusion(t)->Ok_0.1) == encode_utf8(text)
        }),
{
    lemma_extract_after_embed(text, r, p, s);
    lemma_ascii_char_bytes();
    let line = spec_single_line(r, p, s);
    let lb = encode_utf8(line);
    let tx = encode_utf8(text);
    lemma_enc3(line, seq!['\n'], text);
    let t = encode_utf8(line + seq!['\n'] + text);
    assert(t == lb + seq![10u8] + tx);
    lemma_no_bare_cr_join(lb, tx);
    let be = lb.len() + 1;
    if be == t.len() {
        assert(tx.len() == 0);
        assert(covered(t, 0, t.len() as int) =~= tx);
    } else {
        assert(covered(t, 0, be as int) =~= tx);
    }
}

/// The text before the final line that `embed_manifest_at_end` writes: the
/// text without its trailing line feed, if it has one.
pub open spec fn body_before_last_line(text: Seq<char>) -> Seq<char> {
    if text.len() > 0 && text.last() == '\n' {
        text.drop_last()
    } else {
        text
    }
}

/// Bytes without a trailing CR, if they end in one.
pub open spec fn without_trailing_cr(b: Seq<u8>) -> Seq<u8> {
    if b.len() > 0 && b.last() == 13 {
        b.drop_last()
    } else {
        b
    }
}

proof fn lemma_noc_suffix(h: Seq<u8>, k: int, n: Seq<u8>)
    requires
        0 <= k <= h.len(),
        !contains_bytes(h, n),
    ensures
        !contains_bytes(h.skip(k), n),
{
    assert forall|j: int| !occurs_at(h.skip(k), n, j) by {
        if occurs_at(h.skip(k), n, j) {
            assert(h.subrange(j + k, j + k + n.len()) =~= h.skip(k).subrange(j, j + n.len()));
            assert(occurs_at(h, n, j + k));
        }
    }
}

/// Bytes that hold no line feed.
proof fn lemma_no_lf(h: Seq<u8>)
    requires
        !contains_bytes(h, lf()),
    ensures
        forall|k: int| 0 <= k < h.len() ==> #[trigger] h[k] != 10,
{
    assert forall|k: int| 0 <= k < h.len() implies #[trigger] h[k] != 10 by {
        if h[k] == 10 {
            assert(h.subrange(k, k + 1) =~= lf());
            assert(occurs_at(h, lf(), k));
        }
    }
}

/// The line that holds position `b` starts at `a` when `a` starts the text
/// or follows a line feed, and no line feed lies between.
proof fn lemma_line_start_at(t: Seq<u8>, a: int, b: int)
    requires
        0 <= a <= b <= t.len(),
        a == 0 || t[a - 1] == 10,
        forall|j: int| a <= j < b ==> t[j] != 10,
    ensures
        line_start(t, b) == a,
    decreases b - a,
{
    if b > a {
        lemma_line_start_at(t, a, b - 1);
    }
}

/// The bytes of what `embed_manifest_at_end` writes: the body with its line
/// feed, the prefix and a space, the delimiters around the spaced reference,
/// and the line tail.
proof fn lemma_at_end_bytes(text: Seq<char>, r: Seq<char>, p: Seq<char>, s: Seq<char>)
    ensures
        ({
            let body = body_before_last_line(text);
            let pre = if text.len() == 0 { Seq::<char>::empty() } else { body + seq!['\n'] };
            let xc = pre + p + seq![' '];
            let yc = seq![' '] + r + seq![' '];
            let o = spec_embed_at_end(text, spec_single_line(r, p, s));
            &&& encode_utf8(o) == encode_utf8(xc) + begin_bytes() + encode_utf8(yc) + end_bytes()
                + encode_utf8(line_tail(s))
            &&& encode_utf8(xc) == encode_utf8(pre) + encode_utf8(p) + seq![32u8]
            &&& encode_utf8(yc) == seq![32u8] + encode_utf8(r) + seq![32u8]
            &&& text.len() == 0 ==> encode_utf8(pre).len() == 0
            &&& text.len() > 0 ==> encode_utf8(pre) == encode_utf8(body) + seq![10u8]
            &&& text.len() > 0 && text.last() == '\n' ==> encode_utf8(text) == encode_utf8(body) + seq![10u8]
        }),
{
    lemma_ascii_char_bytes();
    lemma_single_line_layout(r, p, s);
    let line = spec_single_line(r, p, s);
    let body = body_before_last_line(text);
    let pre = if text.len() == 0 { Seq::<char>::empty() } else { body + seq!['\n'] };
    if text.len() > 0 && text.last() == '\n' {
        assert(text =~= body + seq!['\n']);
    }
    lemma_encode_utf8_add(body, seq!['\n']);
    let o = spec_embed_at_end(text, line);
    assert(o =~= pre + line);
    let xc = pre + p + seq![' '];
    let yc = seq![' '] + r + seq![' '];
    assert(o =~= xc + BEGIN@ + yc + END@ + line_tail(s));
    lemma_enc5(xc, BEGIN@, yc, END@, line_tail(s));
    lemma_enc3(pre, p, seq![' ']);
    lemma_enc3(seq![' '], r, seq![' ']);
    if text.len() == 0 {
        assert(encode_utf8(pre) =~= Seq::<u8>::empty());
    }
}

/// What `embed_manifest_at_end` wrote is found again, and its hard binding
/// covers the text it was given up to the line terminator that precedes the
/// block: the text without its trailing line feed (and a CR before it), the
/// added line feed excluded with the block.
///
/// The block is found when the comment prefix, the suffix and the text hold
/// no opening delimiter, and the reference holds no closing delimiter and is
/// not all white space. The binding is as described when, further, neither
/// the prefix nor the trimmed suffix holds a line feed and the result has no
/// bare CR.
pub proof fn lemma_embed_at_end(text: Seq<char>, r: Seq<char>, p: Seq<char>, s: Seq<char>)
    requires
        !contains_bytes(encode_utf8(p), begin_bytes()),
        !contains_bytes(encode_utf8(r), end_bytes()),
        !contains_bytes(encode_utf8(s), begin_bytes()),
        !contains_bytes(encode_utf8(text), begin_bytes()),
        trim(r).len() > 0,
    ensures
        ({
            let t = encode_utf8(spec_embed_at_end(text, spec_single_line(r, p, s)));
            &&& spec_locate(t) is Ok
            &&& spec_locate(t)->Ok_0.0 == trim(r)
            &&& !contains_bytes(encode_utf8(p), lf()) && !contains_bytes(
                encode_utf8(trim_end(s)),
                lf(),
            ) && !has_bare_cr(t) ==> spec_manifest_exclusion(t) is Ok && covered(
                t,
                spec_manifest_exclusion(t)->Ok_0.0,
                spec_manifest_exclusion(t)->Ok_0.1,
            ) == without_trailing_cr(encode_utf8(body_before_last_line(text)))
        }),
{
    lemma_delimiters();
    lemma_begin_shape();
    lemma_end_shape();
    lemma_line_tail_bytes(s);
    lemma_at_end_bytes(text, r, p, s);
    let body = body_before_last_line(text);
    let eb = encode_utf8(body);
    let ep = encode_utf8(p);
    let pre = if text.len() == 0 { Seq::<char>::empty() } else { body + seq!['\n'] };
    let xc = pre + p + seq![' '];
    let yc = seq![' '] + r + seq![' '];
    let x = encode_utf8(xc);
    let y = encode_utf8(yc);
    let z = encode_utf8(line_tail(s));
    let t = encode_utf8(spec_embed_at_end(text, spec_single_line(r, p, s)));
    // The body holds no opening delimiter.
    if text.len() > 0 && text.last() == '\n' {
        assert(encode_utf8(text).take(eb.len() as int) =~= eb);
        lemma_noc_prefix(encode_utf8(text), eb.len() as int, begin_bytes());
    }
    // `x` holds no opening delimiter.
    if text.len() == 0 {
        assert(x =~= ep + seq![32u8]);
        lemma_noc_push(ep, 32, begin_bytes());
    } else {
        assert(x =~= eb + seq![10u8] + ep + seq![32u8]);
        lemma_noc_join(eb, 10, ep, begin_bytes());
        lemma_noc_push(eb + seq![10u8] + ep, 32, begin_bytes());
    }
    lemma_noc_prepend(32, encode_utf8(r), end_bytes());
    lemma_noc_push(seq![32u8] + encode_utf8(r), 32, end_bytes());
    lemma_trim_surrounded(' ', r, ' ');
    lemma_locate_layout(x, yc, z);
    if !contains_bytes(ep, lf()) && !contains_bytes(encode_utf8(trim_end(s)), lf()) {
        let ae = (x.len() + 29 + y.len() + 27) as int;
        // The line runs to the end of the text.
        assert forall|j: int| ae <= j implies !occurs_at(t, lf(), j) by {
            if occurs_at(t, lf(), j) {
                lemma_occurs_in_part(x + begin_bytes() + y + end_bytes(), z, lf(), j);
            }
        }
        lemma_find_none(t, lf(), ae);
        // The line starts right after the body's line feed, or at 0.
        let bs: int = if text.len() == 0 { 0 } else { eb.len() as int + 1 };
        lemma_no_lf(ep);
        assert(x.len() == bs + ep.len() + 1);
        assert forall|j: int| bs <= j < x.len() implies t[j] != 10 by {
            assert(t[j] == x[j]);
            if j < bs + ep.len() {
                assert(x[j] == ep[j - bs]);
            }
        }
        if text.len() > 0 {
            assert(t[bs - 1] == x[bs - 1]);
        }
        lemma_line_start_at(t, bs, x.len() as int);
        assert(spec_locate(t)->Ok_0.1 == bs);
        assert(spec_locate(t)->Ok_0.2 == t.len());
        if !has_bare_cr(t) {
            if text.len() == 0 {
                assert(covered(t, 0, t.len() as int) =~= Seq::<u8>::empty());
            } else {
                let s0 = eb.len() as int;
                if s0 > 0 {
                    assert(t[s0 - 1] == eb.last());
                }
                if s0 > 0 && t[s0 - 1] == 13 {
                    assert(covered(t, s0 - 1, t.len() - (s0 - 1)) =~= eb.drop_last());
                } else {
                    assert(covered(t, s0, t.len() - s0) =~= eb);
                }
            }
        }
    }
}

/// What follows the block in front matter: the rest of the existing front
/// matter, or the closing fence and the text of a new section.
pub open spec fn front_matter_rest(text: Seq<char>, fence: Seq<char>) -> Seq<char> {
    let opening = fence + seq!['\n'];
    if has_prefix(text, opening) {
        text.skip(opening.len() as int)
    } else {
        fence + seq!['\n'] + text
    }
}

/// The bytes of what `embed_front_matter` writes: the opening fence line, the
/// delimiters around the reference on a line of its own, a line feed, and the
/// rest.
proof fn lemma_front_matter_bytes(text: Seq<char>, r: Seq<char>, fence: Seq<char>)
    ensures
        ({
            let opening = fence + seq!['\n'];
            let rest = front_matter_rest(text, fence);
            let o = spec_embed_front_matter(text, spec_front_matter_block(r), fence);
            &&& encode_utf8(o) == encode_utf8(opening) + begin_bytes() + encode_utf8(
                seq!['\n'] + r + seq!['\n'],
            ) + end_bytes() + encode_utf8(seq!['\n'] + rest)
            &&& encode_utf8(opening) == encode_utf8(fence) + seq![10u8]
            &&& encode_utf8(seq!['\n'] + r + seq!['\n']) == seq![10u8] + encode_utf8(r) + seq![10u8]
            &&& encode_utf8(seq!['\n'] + rest) == seq![10u8] + encode_utf8(rest)
            &&& has_prefix(text, opening) ==> encode_utf8(text) == encode_utf8(opening) + encode_utf8(rest)
            &&& !has_prefix(text, opening) ==> encode_utf8(rest) == encode_utf8(fence) + seq![10u8]
                + encode_utf8(text)
        }),
{
    lemma_ascii_char_bytes();
    let opening = fence + seq!['\n'];
    let rest = front_matter_rest(text, fence);
    let o = spec_embed_front_matter(text, spec_front_matter_block(r), fence);
    let yc = seq!['\n'] + r + seq!['\n'];
    assert(o =~= opening + BEGIN@ + yc + END@ + (seq!['\n'] + rest));
    lemma_enc5(opening, BEGIN@, yc, END@, seq!['\n'] + rest);
    lemma_encode_utf8_add(fence, seq!['\n']);
    lemma_enc3(seq!['\n'], r, seq!['\n']);
    lemma_encode_utf8_add(seq!['\n'], rest);
    if has_prefix(text, opening) {
        assert(text =~= opening + rest);
        lemma_encode_utf8_add(opening, rest);
    } else {
        lemma_enc3(fence, seq!['\n'], text);
    }
}

/// What `embed_front_matter` wrote is found again, and its hard binding keeps
/// the fences: it covers the opening fence line and what follows the block,
/// only the delimiter lines being excluded.
///
/// This holds when the fence and the text hold no opening delimiter, the
/// reference holds no closing delimiter and is not all white space, and (for
/// the binding) something follows the block and the result has no bare CR.
pub proof fn lemma_embed_front_matter(text: Seq<char>, r: Seq<char>, fence: Seq<char>)
    requires
        !contains_bytes(encode_utf8(fence), begin_bytes()),
        !contains_bytes(encode_utf8(r), end_bytes()),
        !contains_bytes(encode_utf8(text), begin_bytes()),
        trim(r).len() > 0,
    ensures
        ({
            let t = encode_utf8(spec_embed_front_matter(text, spec_front_matter_block(r), fence));
            let rest = front_matter_rest(text, fence);
            &&& spec_locate(t) is Ok
            &&& spec_locate(t)->Ok_0.0 == trim(r)
            &&& rest.len() > 0 && !has_bare_cr(t) ==> spec_manifest_exclusion(t) is Ok && covered(
                t,
                spec_manifest_exclusion(t)->Ok_0.0,
                spec_manifest_exclusion(t)->Ok_0.1,
            ) == encode_utf8(fence + seq!['\n']) + encode_utf8(rest)
                && spec_manifest_exclusion(t)->Ok_0.0 == spec_locate(t)->Ok_0.1
        }),
{
    lemma_delimiters();
    lemma_begin_shape();
    lemma_end_shape();
    lemma_front_matter_bytes(text, r, fence);
    let opening = fence + seq!['\n'];
    let rest = front_matter_rest(text, fence);
    let yc = seq!['\n'] + r + seq!['\n'];
    let x = encode_utf8(opening);
    let y = encode_utf8(yc);
    let er = encode_utf8(rest);
    let z = encode_utf8(seq!['\n'] + rest);
    let t = encode_utf8(spec_embed_front_matter(text, spec_front_matter_block(r), fence));
    lemma_noc_push(encode_utf8(fence), 10, begin_bytes());
    lemma_noc_prepend(10, encode_utf8(r), end_bytes());
    lemma_noc_push(seq![10u8] + encode_utf8(r), 10, end_bytes());
    if has_prefix(text, opening) {
        lemma_noc_suffix(encode_utf8(text), x.len() as int, begin_bytes());
        assert(encode_utf8(text).skip(x.len() as int) =~= er);
    } else {
        lemma_noc_join(encode_utf8(fence), 10, encode_utf8(text), begin_bytes());
    }
    lemma_noc_prepend(10, er, begin_bytes());
    lemma_trim_surrounded('\n', r, '\n');
    assert(is_white_space('\n'));
    lemma_locate_layout(x, yc, z);
    let ae = (x.len() + 29 + y.len() + 27) as int;
    assert(t[x.len() - 1] == 10);
    lemma_line_start_at(t, x.len() as int, x.len() as int);
    assert(t.subrange(ae, ae + 1) =~= lf());
    lemma_find_is(t, lf(), ae, ae);
    if rest.len() > 0 && !has_bare_cr(t) {
        assert(er.len() > 0) by {
            encode_utf8_decode_utf8(rest);
        }
        let bs = x.len() as int;
        let be = ae + 1;
        assert(covered(t, bs, be - bs) =~= x + er);
    }
}

/// The inline prefix consists of plain characters.
proof fn lemma_data_uri_plain()
    ensures
        forall|k: int| 0 <= k < DATA_URI_PREFIX@.len() ==> is_plain_char(#[trigger] DATA_URI_PREFIX@[k]),
        DATA_URI_PREFIX@.len() == 29,
{
    reveal_strlit("data:application/c2pa;base64,");
    assert forall|k: int| 0 <= k < DATA_URI_PREFIX@.len() implies is_plain_char(#[trigger] DATA_URI_PREFIX@[k]) by {
        if k == 0 {
        } else if k == 1 {
        } else if k == 2 {
        } else if k == 3 {
        } else if k == 4 {
        } else if k == 5 {
        } else if k == 6 {
        } else if k == 7 {
        } else if k == 8 {
        } else if k == 9 {
        } else if k == 10 {
        } else if k == 11 {
        } else if k == 12 {
        } else if k == 13 {
        } else if k == 14 {
        } else if k == 15 {
        } else if k == 16 {
        } else if k == 17 {
        } else if k == 18 {
        } else if k == 19 {
        } else if k == 20 {
        } else if k == 21 {
        } else if k == 22 {
        } else if k == 23 {
        } else if k == 24 {
        } else if k == 25 {
        } else if k == 26 {
        } else if k == 27 {
        } else if k == 28 {
        }
    }
}

proof fn lemma_plain_ascii(c: char)
    requires
        is_plain_char(c),
    ensures
        '\0' <= c <= '\u{7f}',
{
}

/// Text that starts and ends with a character that is not white space is
/// unchanged by trimming.
proof fn lemma_trim_unchanged(x: Seq<char>)
    requires
        x.len() > 0,
        !is_white_space(x[0]),
        !is_white_space(x.last()),
    ensures
        trim(x) == x,
{
}

/// An inline manifest store survives embedding and extraction: the reference
/// that is found again in the text is the data URI, and decoding its Base64
/// part gives back the store's bytes, which is what `classify_reference`
/// returns as `Reference::Embedded`.
pub proof fn lemma_embedded_round_trip(text: Seq<char>, data: Seq<u8>, p: Seq<char>, s: Seq<char>)
    requires
        !contains_bytes(encode_utf8(p), begin_bytes()),
        !contains_bytes(encode_utf8(s), begin_bytes()),
        !contains_bytes(encode_utf8(text), begin_bytes()),
    ensures
        ({
            let r = DATA_URI_PREFIX@ + spec_encode(data);
            let t = encode_utf8(spec_single_line(r, p, s) + seq!['\n'] + text);
            &&& spec_locate(t) is Ok
            &&& spec_locate(t)->Ok_0.0 == r
            &&& occurs_at(encode_utf8(r), data_uri_bytes(), 0)
            &&& spec_decode(encode_utf8(r).skip(29)) == Ok::<Seq<u8>, DecodeError>(data)
        }),
{
    lemma_delimiters();
    lemma_data_uri_plain();
    lemma_encode_plain(data);
    let e = spec_encode(data);
    let r = DATA_URI_PREFIX@ + e;
    assert forall|k: int| 0 <= k < r.len() implies is_plain_char(#[trigger] r[k]) by {
        if k < 29 {
            assert(r[k] == DATA_URI_PREFIX@[k]);
        } else {
            assert(r[k] == e[k - 29]);
        }
    }
    assert forall|k: int| 0 <= k < r.len() implies '\0' <= #[trigger] r[k] <= '\u{7f}' by {
        lemma_plain_ascii(r[k]);
    }
    assert(is_ascii_chars(r));
    is_ascii_chars_encode_utf8(r);
    let rb = encode_utf8(r);
    assert forall|j: int| !occurs_at(rb, end_bytes(), j) by {
        if occurs_at(rb, end_bytes(), j) {
            assert(rb.subrange(j, j + 27)[0] == rb[j]);
            assert(rb[j] == r[j] as u8);
            assert(is_plain_char(r[j]));
        }
    }
    assert(is_plain_char(r[0]));
    assert(is_plain_char(r.last()));
    lemma_trim_unchanged(r);
    lemma_extract_after_embed(text, r, p, s);
    lemma_encode_utf8_add(DATA_URI_PREFIX@, e);
    assert(rb.subrange(0, 29) =~= data_uri_bytes());
    assert(rb.skip(29) =~= encode_utf8(e));
    lemma_decode_encode(data);
}

/// A URL reference is written verbatim: embedding `ManifestRef::Url(u)` at
/// the beginning of a text and extracting the block gives back `u` itself
/// (without surrounding white space), whatever its letters' case.
pub proof fn lemma_url_round_trip(text: Seq<char>, u: &str, p: Seq<char>, s: Seq<char>)
    requires
        !contains_bytes(encode_utf8(p), begin_bytes()),
        !contains_bytes(encode_utf8(u@), end_bytes()),
        !contains_bytes(encode_utf8(s), begin_bytes()),
        !contains_bytes(encode_utf8(text), begin_bytes()),
        trim(u@).len() > 0,
    ensures
        rendered(ManifestRef::Url(u)) == u@,
        ({
            let t = encode_utf8(spec_single_line(rendered(ManifestRef::Url(u)), p, s) + seq!['\n'] + text);
            &&& spec_locate(t) is Ok
            &&& spec_locate(t)->Ok_0.0 == trim(u@)
        }),
{
    lemma_extract_after_embed(text, u@, p, s);
}

/// An embedded store is written as the data URI of its Base64 encoding:
/// embedding `ManifestRef::Embedded(b)` at the beginning of a text and
/// extracting the block gives back that data URI, whose Base64 part decodes
/// to the bytes of `b`.
pub proof fn lemma_embedded_render_round_trip(text: Seq<char>, b: &[u8], p: Seq<char>, s: Seq<char>)
    requires
        !contains_bytes(encode_utf8(p), begin_bytes()),
        !contains_bytes(encode_utf8(s), begin_bytes()),
        !contains_bytes(encode_utf8(text), begin_bytes()),
    ensures
        rendered(ManifestRef::Embedded(b)) == DATA_URI_PREFIX@ + spec_encode(b@),
        ({
            let r = rendered(ManifestRef::Embedded(b));
            let t = encode_utf8(spec_single_line(r, p, s) + seq!['\n'] + text);
            &&& spec_locate(t) is Ok
            &&& spec_locate(t)->Ok_0.0 == r
            &&& occurs_at(encode_utf8(r), data_uri_bytes(), 0)
            &&& spec_decode(encode_utf8(r).skip(29)) == Ok::<Seq<u8>, DecodeError>(b@)
        }),
{
    lemma_embedded_round_trip(text, b@, p, s);
}

} // verus!
