//! Character and byte helpers shared by the embedding, extraction and
//! hard-binding code: string building, whitespace trimming, and facts about
//! the UTF-8 encoding of a `str`.

use vstd::prelude::*;
use vstd::utf8::*;
use vstd::string::StringSliceAdditionalSpecFns;

verus! {

/// Appends one character to a string.
///
/// Trusted: calls `String::push`, which the std documentation describes as
/// appending the given `char` to the end of the `String`.
#[verifier::external_body]
pub(crate) fn push_char(s: &mut String, c: char)
    ensures
        final(s)@ == old(s)@.push(c),
{
    s.push(c);
}

/// Appends a string slice to a string.
///
/// Trusted: calls `String::push_str`, which the std documentation describes
/// as appending the given slice onto the end of the `String`.
#[verifier::external_body]
pub(crate) fn push_str(s: &mut String, t: &str)
    ensures
        final(s)@ == old(s)@ + t@,
{
    s.push_str(t);
}

/// The Unicode `White_Space` property, which `char::is_whitespace` and the
/// trimming methods of `str` test.
pub open spec fn is_white_space(c: char) -> bool {
    let u = c as u32;
    ||| 0x09 <= u <= 0x0D
    ||| u == 0x20
    ||| u == 0x85
    ||| u == 0xA0
    ||| u == 0x1680
    ||| 0x2000 <= u <= 0x200A
    ||| u == 0x2028
    ||| u == 0x2029
    ||| u == 0x202F
    ||| u == 0x205F
    ||| u == 0x3000
}

/// `s` without its trailing white space.
pub open spec fn trim_end(s: Seq<char>) -> Seq<char>
    decreases s.len(),
{
    if s.len() > 0 && is_white_space(s.last()) {
        trim_end(s.drop_last())
    } else {
        s
    }
}

/// `s` without its leading white space.
pub open spec fn trim_start(s: Seq<char>) -> Seq<char>
    decreases s.len(),
{
    if s.len() > 0 && is_white_space(s[0]) {
        trim_start(s.drop_first())
    } else {
        s
    }
}

/// `s` without its leading and trailing white space.
pub open spec fn trim(s: Seq<char>) -> Seq<char> {
    trim_end(trim_start(s))
}

/// Removes leading and trailing white space.
///
/// Trusted: calls `str::trim`, which the std documentation describes as
/// returning the slice with leading and trailing whitespace removed, where
/// whitespace is the Unicode `White_Space` property.
#[verifier::external_body]
pub(crate) fn str_trim(s: &str) -> (r: &str)
    ensures
        r@ == trim(s@),
{
    s.trim()
}

/// Removes trailing white space.
///
/// Trusted: calls `str::trim_end`, which the std documentation describes as
/// returning the slice with trailing whitespace removed, where whitespace is
/// the Unicode `White_Space` property.
#[verifier::external_body]
pub(crate) fn str_trim_end(s: &str) -> (r: &str)
    ensures
        r@ == trim_end(s@),
{
    s.trim_end()
}

/// The UTF-8 encoding of a concatenation is the concatenation of the
/// encodings.
pub proof fn lemma_encode_utf8_add(a: Seq<char>, b: Seq<char>)
    ensures
        encode_utf8(a + b) == encode_utf8(a) + encode_utf8(b),
    decreases a.len(),
{
    if a.len() == 0 {
        assert(a + b =~= b);
        assert(encode_utf8(a) =~= Seq::<u8>::empty());
        assert(encode_utf8(a) + encode_utf8(b) =~= encode_utf8(b));
    } else {
        lemma_encode_utf8_add(a.drop_first(), b);
        assert((a + b).drop_first() =~= a.drop_first() + b);
        assert((a + b)[0] == a[0]);
        assert(encode_utf8(a + b) =~= encode_scalar(a[0] as u32) + encode_utf8(a.drop_first() + b));
    }
}

/// In valid UTF-8, the byte after an ASCII byte starts a character.
proof fn lemma_after_ascii(b: Seq<u8>, i: int)
    requires
        valid_utf8(b),
        0 < i < b.len(),
        b[i - 1] < 0x80,
    ensures
        !is_continuation_byte(b[i]),
    decreases b.len(),
{
    let k = length_of_first_scalar(b);
    let pop = pop_first_scalar(b);
    assert(1 <= k <= 4);
    assert(k <= b.len());
    if i - 1 >= k {
        assert(pop.len() == b.len() - k);
        assert(pop[i - k - 1] == b[i - 1]);
        assert(pop[i - k] == b[i]);
        lemma_after_ascii(pop, i - k);
    } else {
        assert(i - 1 == 0);
        assert(k == 1);
        assert(pop.len() > 0);
        assert(pop[0] == b[1]);
        assert(valid_utf8(pop));
        assert(valid_first_scalar(pop));
    }
}

/// A position next to an ASCII byte, or at the end, is a character boundary
/// of valid UTF-8.
pub proof fn lemma_ascii_boundary(b: Seq<u8>, i: int)
    requires
        valid_utf8(b),
        0 <= i <= b.len(),
        i == b.len() || b[i] < 0x80 || (0 < i && b[i - 1] < 0x80),
    ensures
        is_char_boundary(b, i),
{
    if i == b.len() {
        is_char_boundary_start_end_of_seq(b);
    } else {
        if !(b[i] < 0x80) {
            lemma_after_ascii(b, i);
        }
        is_char_boundary_iff_not_is_continuation_byte(b, i);
    }
}

/// Whether two byte slices hold the same bytes.
pub(crate) fn bytes_eq(a: &[u8], b: &[u8]) -> (r: bool)
    ensures
        r == (a@ == b@),
{
    if a.len() != b.len() {
        return false;
    }
    let mut i: usize = 0;
    while i < a.len()
        invariant
            i <= a@.len(),
            a@.len() == b@.len(),
            forall|k: int| 0 <= k < i ==> a@[k] == b@[k],
        decreases a@.len() - i,
    {
        if a[i] != b[i] {
            return false;
        }
        i = i + 1;
    }
    assert(a@ =~= b@);
    true
}

/// Whether two string slices hold the same characters.
pub(crate) fn str_eq(a: &str, b: &str) -> (r: bool)
    ensures
        r == (a@ == b@),
{
    let r = bytes_eq(a.as_bytes(), b.as_bytes());
    proof {
        encode_utf8_decode_utf8(a@);
        encode_utf8_decode_utf8(b@);
    }
    r
}

/// Trailing white space of a concatenation lies in its second part when that
/// part is not all white space.
pub proof fn lemma_trim_end_add(a: Seq<char>, b: Seq<char>)
    ensures
        trim_end(b).len() > 0 ==> trim_end(a + b) == a + trim_end(b),
        trim_end(b).len() == 0 ==> trim_end(a + b) == trim_end(a),
    decreases b.len(),
{
    if b.len() == 0 {
        assert(a + b =~= a);
    } else {
        assert((a + b).drop_last() =~= a + b.drop_last());
        assert((a + b).last() == b.last());
        lemma_trim_end_add(a, b.drop_last());
    }
}

/// Leading white space of a concatenation lies in its first part when that
/// part is not all white space.
pub proof fn lemma_trim_start_add(a: Seq<char>, b: Seq<char>)
    ensures
        trim_start(a).len() > 0 ==> trim_start(a + b) == trim_start(a) + b,
        trim_start(a).len() == 0 ==> trim_start(a + b) == trim_start(b),
    decreases a.len(),
{
    if a.len() == 0 {
        assert(a + b =~= b);
    } else {
        assert((a + b).drop_first() =~= a.drop_first() + b);
        assert((a + b)[0] == a[0]);
        lemma_trim_start_add(a.drop_first(), b);
        if !is_white_space(a[0]) {
            assert(trim_start(a) == a);
        }
    }
}

/// What trimming the end keeps is a prefix.
pub proof fn lemma_trim_end_prefix(s: Seq<char>)
    ensures
        trim_end(s).len() <= s.len(),
        trim_end(s) == s.take(trim_end(s).len() as int),
    decreases s.len(),
{
    if s.len() > 0 && is_white_space(s.last()) {
        lemma_trim_end_prefix(s.drop_last());
        assert(s.drop_last().take(trim_end(s).len() as int) =~= s.take(trim_end(s).len() as int));
    } else {
        assert(s.take(s.len() as int) =~= s);
    }
}

/// Surrounding a text with white space does not change what trimming it
/// gives.
pub proof fn lemma_trim_surrounded(c: char, r: Seq<char>, d: char)
    requires
        is_white_space(c),
        is_white_space(d),
    ensures
        trim(seq![c] + r + seq![d]) == trim(r),
{
    let cr = seq![c] + r;
    assert(trim_start(seq![c]) =~= Seq::<char>::empty()) by {
        assert(seq![c].drop_first() =~= Seq::<char>::empty());
        assert(trim_start(Seq::<char>::empty()) == Seq::<char>::empty());
        assert(seq![c][0] == c);
    }
    lemma_trim_start_add(seq![c], r + seq![d]);
    assert(seq![c] + r + seq![d] =~= seq![c] + (r + seq![d]));
    lemma_trim_start_add(r, seq![d]);
    assert(trim_end(seq![d]) =~= Seq::<char>::empty()) by {
        assert(seq![d].drop_last() =~= Seq::<char>::empty());
        assert(trim_end(Seq::<char>::empty()) == Seq::<char>::empty());
        assert(seq![d].last() == d);
    }
    if trim_start(r).len() > 0 {
        lemma_trim_end_add(trim_start(r), seq![d]);
    } else {
        lemma_trim_start_add(seq![d], Seq::<char>::empty());
        assert(seq![d] + Seq::<char>::empty() =~= seq![d]);
        assert(trim_start(seq![d]) =~= Seq::<char>::empty()) by {
            assert(seq![d].drop_first() =~= Seq::<char>::empty());
            assert(trim_start(Seq::<char>::empty()) == Seq::<char>::empty());
            assert(seq![d][0] == d);
        }
    }
}

} // verus!
