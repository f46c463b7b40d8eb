//! Standard (RFC 4648) Base64 with padding.
//!
//! Used to carry an embedded manifest store in a
//! `data:application/c2pa;base64,` reference and to serialise the hash of a
//! data-hash assertion.

use vstd::prelude::*;
use crate::text::push_char;
use vstd::string::StringSliceAdditionalSpecFns;
use vstd::utf8::*;

verus! {

/// The Base64 symbol for a 6-bit value.
pub open spec fn b64_symbol(v: int) -> char {
    if v < 26 {
        (65 + v) as char
    } else if v < 52 {
        (97 + (v - 26)) as char
    } else if v < 62 {
        (48 + (v - 52)) as char
    } else if v == 62 {
        '+'
    } else {
        '/'
    }
}

/// The encoding of one group of three bytes, or of the final one or two.
pub open spec fn encode_group(s: Seq<u8>) -> Seq<char>
    recommends
        1 <= s.len(),
{
    let b0 = s[0] as int;
    let b1 = s[1] as int;
    let b2 = s[2] as int;
    if s.len() == 1 {
        seq![b64_symbol(b0 / 4), b64_symbol((b0 % 4) * 16), '=', '=']
    } else if s.len() == 2 {
        seq![b64_symbol(b0 / 4), b64_symbol((b0 % 4) * 16 + b1 / 16), b64_symbol((b1 % 16) * 4), '=']
    } else {
        seq![
            b64_symbol(b0 / 4),
            b64_symbol((b0 % 4) * 16 + b1 / 16),
            b64_symbol((b1 % 16) * 4 + b2 / 64),
            b64_symbol(b2 % 64),
        ]
    }
}

/// Standard Base64 encoding with `=` padding.
pub open spec fn spec_encode(s: Seq<u8>) -> Seq<char>
    decreases s.len(),
{
    if s.len() == 0 {
        seq![]
    } else if s.len() <= 3 {
        encode_group(s)
    } else {
        encode_group(s.take(3)) + spec_encode(s.skip(3))
    }
}

fn symbol(v: u8) -> (c: char)
    requires
        v < 64,
    ensures
        c == b64_symbol(v as int),
{
    if v < 26 {
        (65 + v) as char
    } else if v < 52 {
        (97 + (v - 26)) as char
    } else if v < 62 {
        (48 + (v - 52)) as char
    } else if v == 62 {
        '+'
    } else {
        '/'
    }
}

/// Encode `input` as standard Base64 with padding.
pub fn encode(input: &[u8]) -> (out: String)
    ensures
        out@ == spec_encode(input@),
{
    let mut out = String::new();
    let n = input.len();
    let mut i: usize = 0;
    assert(input@.skip(0) =~= input@);
    while i < n
        invariant
            n == input@.len(),
            i <= n,
            spec_encode(input@) == out@ + spec_encode(input@.skip(i as int)),
        decreases n - i,
    {
        let rest = Ghost(input@.skip(i as int));
        let b0 = input[i];
        push_char(&mut out, symbol(b0 / 4));
        if n - i == 1 {
            push_char(&mut out, symbol((b0 % 4) * 16));
            push_char(&mut out, '=');
            push_char(&mut out, '=');
            i = n;
        } else {
            let b1 = input[i + 1];
            push_char(&mut out, symbol((b0 % 4) * 16 + b1 / 16));
            if n - i == 2 {
                push_char(&mut out, symbol((b1 % 16) * 4));
                push_char(&mut out, '=');
                i = n;
            } else {
                let b2 = input[i + 2];
                push_char(&mut out, symbol((b1 % 16) * 4 + b2 / 64));
                push_char(&mut out, symbol(b2 % 64));
                i = i + 3;
            }
        }
        assert(rest@.skip(3) =~= input@.skip(i as int) || i == n);
        assert(input@.skip(n as int) =~= Seq::<u8>::empty());
    }
    out
}

/// Why a Base64 input was refused.
#[derive(Debug, Clone, Copy, PartialEq, Eq, Structural)]
pub enum DecodeError {
    /// The input length is not a multiple of four.
    InvalidLength,
    /// A `=` stands where padding is not allowed, or a symbol follows it.
    InvalidPadding,
    /// A byte outside the standard alphabet and `=`.
    InvalidCharacter(u8),
}

/// The 6-bit value of a symbol of the standard alphabet.
pub open spec fn b64_value(c: u8) -> Option<int> {
    if 65 <= c <= 90 {
        Some(c - 65)
    } else if 97 <= c <= 122 {
        Some(c - 71)
    } else if 48 <= c <= 57 {
        Some(c + 4)
    } else if c == 43 {
        Some(62)
    } else if c == 47 {
        Some(63)
    } else {
        None
    }
}

/// The error that position `i` of a four-byte group raises, given that no
/// earlier position raised one. `last` tells whether it is the final group.
pub open spec fn position_error(q: Seq<u8>, last: bool, i: int) -> Option<DecodeError> {
    let c = q[i];
    if c == 61 {
        if !last || i < 2 {
            Some(DecodeError::InvalidPadding)
        } else {
            None
        }
    } else if b64_value(c) is None {
        Some(DecodeError::InvalidCharacter(c))
    } else if exists|j: int| 0 <= j < i && q[j] == 61 {
        Some(DecodeError::InvalidPadding)
    } else {
        None
    }
}

/// The first error of a four-byte group, scanning left to right.
pub open spec fn group_error(q: Seq<u8>, last: bool) -> Option<DecodeError> {
    if position_error(q, last, 0) is Some {
        position_error(q, last, 0)
    } else if position_error(q, last, 1) is Some {
        position_error(q, last, 1)
    } else if position_error(q, last, 2) is Some {
        position_error(q, last, 2)
    } else {
        position_error(q, last, 3)
    }
}

/// The value of a symbol, with `=` counting as zero.
pub open spec fn sextet(c: u8) -> int {
    match b64_value(c) {
        Some(v) => v,
        None => 0,
    }
}

/// The bytes that a well-formed four-byte group stands for.
pub open spec fn group_bytes(q: Seq<u8>) -> Seq<u8> {
    let v0 = sextet(q[0]);
    let v1 = sextet(q[1]);
    let v2 = sextet(q[2]);
    let v3 = sextet(q[3]);
    let first = seq![(v0 * 4 + v1 / 16) as u8];
    let second = seq![((v1 % 16) * 16 + v2 / 4) as u8];
    let third = seq![((v2 % 4) * 64 + v3) as u8];
    if q[2] == 61 {
        first
    } else if q[3] == 61 {
        first + second
    } else {
        first + second + third
    }
}

/// Decoding of a sequence of four-byte groups, the first error winning.
pub open spec fn decode_groups(s: Seq<u8>) -> Result<Seq<u8>, DecodeError>
    decreases s.len(),
{
    if s.len() < 4 {
        Ok(seq![])
    } else {
        let last = s.len() == 4;
        match group_error(s.take(4), last) {
            Some(e) => Err(e),
            None => match decode_groups(s.skip(4)) {
                Ok(rest) => Ok(group_bytes(s.take(4)) + rest),
                Err(e) => Err(e),
            },
        }
    }
}

/// Standard Base64 decoding of the bytes of the input, refusing any byte
/// outside the alphabet and any misplaced padding.
pub open spec fn spec_decode(s: Seq<u8>) -> Result<Seq<u8>, DecodeError> {
    if s.len() % 4 != 0 {
        Err(DecodeError::InvalidLength)
    } else {
        decode_groups(s)
    }
}

fn value_of(c: u8) -> (r: Option<u8>)
    ensures
        match b64_value(c) {
            Some(v) => r == Some(v as u8) && v < 64,
            None => r is None,
        },
{
    if 65 <= c && c <= 90 {
        Some(c - 65)
    } else if 97 <= c && c <= 122 {
        Some(c - 71)
    } else if 48 <= c && c <= 57 {
        Some(c + 4)
    } else if c == 43 {
        Some(62)
    } else if c == 47 {
        Some(63)
    } else {
        None
    }
}

/// Decodes one four-byte group onto the end of `out`.
fn decode_group(q: &[u8], start: usize, last: bool, out: &mut Vec<u8>) -> (r: Result<(), DecodeError>)
    requires
        start + 4 <= q@.len(),
    ensures
        ({
            let g = q@.subrange(start as int, start + 4);
            match group_error(g, last) {
                Some(e) => r == Err::<(), DecodeError>(e),
                None => r is Ok && final(out)@ == old(out)@ + group_bytes(g),
            }
        }),
{
    let ghost g = q@.subrange(start as int, start + 4);
    let mut vals: [u8; 4] = [0, 0, 0, 0];
    let mut pad: usize = 0;
    let mut i: usize = 0;
    while i < 4
        invariant
            i <= 4,
            start + 4 <= q.len(),
            g == q@.subrange(start as int, start + 4),
            pad <= i,
            forall|k: int| 0 <= k < i ==> position_error(g, last, k) is None,
            forall|k: int| 0 <= k < i ==> (vals@[k] as int) == sextet(g[k]) && vals@[k] < 64,
            pad == 0 <==> (forall|k: int| 0 <= k < i ==> g[k] != 61),
            pad == 1 ==> i >= 3 && g[2] == 61 && (i == 4 ==> g[3] != 61) || i == 4 && g[3] == 61 && g[2] != 61,
            pad == 2 ==> i == 4 && g[2] == 61 && g[3] == 61,
            pad <= 2,
            vals@.len() == 4,
        decreases 4 - i,
    {
        let c = q[start + i];
        assert(c == g[i as int]);
        if c == 61 {
            if !last || i < 2 {
                return Err(DecodeError::InvalidPadding);
            }
            pad = pad + 1;
            vals[i] = 0;
        } else {
            match value_of(c) {
                None => {
                    return Err(DecodeError::InvalidCharacter(c));
                },
                Some(v) => {
                    if pad != 0 {
                        return Err(DecodeError::InvalidPadding);
                    }
                    vals[i] = v;
                },
            }
        }
        i = i + 1;
    }
    let v0 = vals[0];
    let v1 = vals[1];
    let v2 = vals[2];
    let v3 = vals[3];
    out.push(v0 * 4 + v1 / 16);
    if pad < 2 {
        out.push((v1 % 16) * 16 + v2 / 4);
    }
    if pad < 1 {
        out.push((v2 % 4) * 64 + v3);
    }
    Ok(())
}

/// Decode standard Base64. Any byte outside the alphabet (the URL-safe `-`
/// and `_` included), whitespace, and misplaced padding are refused.
pub fn decode(input: &str) -> (r: Result<Vec<u8>, DecodeError>)
    ensures
        match spec_decode(input.spec_bytes()) {
            Ok(b) => r is Ok && r->Ok_0@ == b,
            Err(e) => r == Err::<Vec<u8>, DecodeError>(e),
        },
{
    let bytes = input.as_bytes();
    let n = bytes.len();
    if n % 4 != 0 {
        return Err(DecodeError::InvalidLength);
    }
    let mut out: Vec<u8> = Vec::new();
    let mut i: usize = 0;
    assert(bytes@.skip(0) =~= bytes@);
    while i < n
        invariant
            n == bytes@.len(),
            n % 4 == 0,
            i % 4 == 0,
            i <= n,
            bytes@ == input.spec_bytes(),
            match decode_groups(bytes@) {
                Ok(b) => match decode_groups(bytes@.skip(i as int)) {
                    Ok(rest) => b == out@ + rest,
                    Err(_) => false,
                },
                Err(e) => decode_groups(bytes@.skip(i as int)) == Err::<Seq<u8>, DecodeError>(e),
            },
        decreases n - i,
    {
        let ghost rest = bytes@.skip(i as int);
        assert(rest.take(4) =~= bytes@.subrange(i as int, i + 4));
        assert(rest.skip(4) =~= bytes@.skip(i + 4));
        let last = i + 4 == n;
        match decode_group(bytes, i, last, &mut out) {
            Err(e) => {
                return Err(e);
            },
            Ok(()) => {},
        }
        i = i + 4;
    }
    assert(bytes@.skip(n as int).len() == 0);
    Ok(out)
}

/// The bytes of a sequence of ASCII characters.
pub open spec fn ascii_bytes(cs: Seq<char>) -> Seq<u8> {
    Seq::new(cs.len(), |i: int| cs[i] as u8)
}

/// A printable ASCII character other than the space and the dash.
pub open spec fn is_plain_char(c: char) -> bool {
    32 < (c as u32) < 127 && c != '-'
}

proof fn lemma_symbol(v: int)
    requires
        0 <= v < 64,
    ensures
        '\0' <= b64_symbol(v) <= '\u{7f}',
        is_plain_char(b64_symbol(v)),
        b64_symbol(v) != '=',
        b64_value(b64_symbol(v) as u8) == Some(v),
{
}

proof fn lemma_encode_ascii(s: Seq<u8>)
    ensures
        is_ascii_chars(spec_encode(s)),
        spec_encode(s).len() % 4 == 0,
        s.len() > 0 ==> spec_encode(s).len() > 0,
    decreases s.len(),
{
    if s.len() > 0 {
        let g = if s.len() <= 3 { s } else { s.take(3) };
        let b0 = g[0] as int;
        let b1 = g[1] as int;
        let b2 = g[2] as int;
        lemma_symbol(b0 / 4);
        lemma_symbol((b0 % 4) * 16);
        lemma_symbol((b0 % 4) * 16 + b1 / 16);
        lemma_symbol((b1 % 16) * 4);
        lemma_symbol((b1 % 16) * 4 + b2 / 64);
        lemma_symbol(b2 % 64);
        if s.len() > 3 {
            lemma_encode_ascii(s.skip(3));
            let a = encode_group(s.take(3));
            let b = spec_encode(s.skip(3));
            assert forall|i: int| 0 <= i < (a + b).len() implies '\0' <= #[trigger] (a + b)[i] <= '\u{7f}' by {
                if i < a.len() {
                    assert((a + b)[i] == a[i]);
                } else {
                    assert((a + b)[i] == b[i - a.len()]);
                }
            }
        }
    }
}

proof fn lemma_decode_group(g: Seq<u8>, last: bool)
    requires
        1 <= g.len() <= 3,
        g.len() < 3 ==> last,
    ensures
        group_error(ascii_bytes(encode_group(g)), last) is None,
        group_bytes(ascii_bytes(encode_group(g))) == g,
{
    let b0 = g[0] as int;
    let b1 = g[1] as int;
    let b2 = g[2] as int;
    lemma_symbol(b0 / 4);
    lemma_symbol((b0 % 4) * 16);
    lemma_symbol((b0 % 4) * 16 + b1 / 16);
    lemma_symbol((b1 % 16) * 4);
    lemma_symbol((b1 % 16) * 4 + b2 / 64);
    lemma_symbol(b2 % 64);
    let q = ascii_bytes(encode_group(g));
    assert(q.len() == 4);
    assert((b0 / 4) * 4 + ((b0 % 4) * 16 + b1 / 16) / 16 == b0);
    assert((((b0 % 4) * 16 + b1 / 16) % 16) * 16 + ((b1 % 16) * 4 + b2 / 64) / 4 == b1);
    assert((((b1 % 16) * 4 + b2 / 64) % 4) * 64 + b2 % 64 == b2);
    assert(((b0 % 4) * 16) / 16 == b0 % 4);
    assert((((b1 % 16) * 4) / 4) == b1 % 16);
    assert((((b0 % 4) * 16 + b1 / 16) % 16) * 16 + ((b1 % 16) * 4) / 4 == b1);
    if g.len() == 1 {
        assert(group_bytes(q) =~= g);
    } else if g.len() == 2 {
        assert(group_bytes(q) =~= g);
    } else {
        assert(group_bytes(q) =~= g);
    }
}

/// Decoding what `encode` produces gives back the encoded bytes: Base64 is
/// a faithful carrier for an embedded manifest store.
pub proof fn lemma_decode_encode(data: Seq<u8>)
    ensures
        spec_decode(encode_utf8(spec_encode(data))) == Ok::<Seq<u8>, DecodeError>(data),
    decreases data.len(),
{
    lemma_encode_ascii(data);
    is_ascii_chars_encode_utf8(spec_encode(data));
    assert(encode_utf8(spec_encode(data)) =~= ascii_bytes(spec_encode(data)));
    lemma_decode_groups_encode(data);
}

proof fn lemma_ascii_bytes_add(a: Seq<char>, b: Seq<char>)
    ensures
        ascii_bytes(a + b) =~= ascii_bytes(a) + ascii_bytes(b),
{
}

proof fn lemma_decode_groups_step(e: Seq<u8>, q: Seq<u8>, r: Seq<u8>, g: Seq<u8>, tail: Seq<u8>)
    requires
        e == q + r,
        q.len() == 4,
        group_error(q, r.len() == 0) is None,
        group_bytes(q) == g,
        decode_groups(r) == Ok::<Seq<u8>, DecodeError>(tail),
    ensures
        decode_groups(e) == Ok::<Seq<u8>, DecodeError>(g + tail),
{
    assert(e.take(4) =~= q);
    assert(e.skip(4) =~= r);
}

proof fn lemma_decode_groups_encode(data: Seq<u8>)
    ensures
        decode_groups(ascii_bytes(spec_encode(data))) == Ok::<Seq<u8>, DecodeError>(data),
    decreases data.len(),
{
    if data.len() == 0 {
        assert(ascii_bytes(spec_encode(data)) =~= Seq::<u8>::empty());
        assert(data =~= Seq::<u8>::empty());
    } else if data.len() <= 3 {
        lemma_decode_group(data, true);
        let q = ascii_bytes(encode_group(data));
        assert(spec_encode(data) == encode_group(data));
        assert(decode_groups(Seq::<u8>::empty()) == Ok::<Seq<u8>, DecodeError>(seq![]));
        assert(q + Seq::<u8>::empty() =~= q);
        lemma_decode_groups_step(q, q, Seq::<u8>::empty(), data, seq![]);
        assert(data + seq![] =~= data);
    } else {
        let g = encode_group(data.take(3));
        let rest = spec_encode(data.skip(3));
        lemma_encode_ascii(data.skip(3));
        lemma_decode_group(data.take(3), false);
        assert(spec_encode(data) == g + rest);
        lemma_ascii_bytes_add(g, rest);
        assert(ascii_bytes(rest).len() > 0);
        lemma_decode_groups_encode(data.skip(3));
        lemma_decode_groups_step(
            ascii_bytes(g + rest),
            ascii_bytes(g),
            ascii_bytes(rest),
            data.take(3),
            data.skip(3),
        );
        assert(data.take(3) + data.skip(3) =~= data);
    }
}

/// Every character of a Base64 encoding is printable ASCII other than the
/// space and the dash.
pub proof fn lemma_encode_plain(s: Seq<u8>)
    ensures
        forall|i: int| 0 <= i < spec_encode(s).len() ==> is_plain_char(#[trigger] spec_encode(s)[i]),
    decreases s.len(),
{
    if s.len() > 0 {
        let g = if s.len() <= 3 { s } else { s.take(3) };
        let b0 = g[0] as int;
        let b1 = g[1] as int;
        let b2 = g[2] as int;
        lemma_symbol(b0 / 4);
        lemma_symbol((b0 % 4) * 16);
        lemma_symbol((b0 % 4) * 16 + b1 / 16);
        lemma_symbol((b1 % 16) * 4);
        lemma_symbol((b1 % 16) * 4 + b2 / 64);
        lemma_symbol(b2 % 64);
        assert(is_plain_char('='));
        if s.len() > 3 {
            lemma_encode_plain(s.skip(3));
            let a = encode_group(s.take(3));
            let b = spec_encode(s.skip(3));
            assert forall|i: int| 0 <= i < (a + b).len() implies is_plain_char(#[trigger] (a + b)[i]) by {
                if i < a.len() {
                    assert((a + b)[i] == a[i]);
                } else {
                    assert((a + b)[i] == b[i - a.len()]);
                }
            }
        }
    }
}

/// A lowercase hexadecimal digit.
pub open spec fn hex_digit(d: int) -> char {
    if d < 10 {
        (48 + d) as char
    } else {
        (87 + d) as char
    }
}

/// A byte as `0x` and two lowercase hexadecimal digits.
pub open spec fn hex_byte(b: u8) -> Seq<char> {
    seq!['0', 'x', hex_digit(b as int / 16), hex_digit(b as int % 16)]
}

/// The message of a decoding error.
pub open spec fn decode_error_message(e: DecodeError) -> Seq<char> {
    match e {
        DecodeError::InvalidLength => "base64 input length is not a multiple of 4"@,
        DecodeError::InvalidPadding => "base64 input has malformed padding"@,
        DecodeError::InvalidCharacter(c) => "base64 input has invalid character "@ + hex_byte(c),
    }
}

fn hex_char(d: u8) -> (c: char)
    requires
        d < 16,
    ensures
        c == hex_digit(d as int),
{
    if d < 10 {
        (48 + d) as char
    } else {
        (87 + d) as char
    }
}

impl DecodeError {
    /// A human-readable description of the error.
    pub fn message(&self) -> (r: String)
        ensures
            r@ == decode_error_message(*self),
    {
        match self {
            DecodeError::InvalidLength => "base64 input length is not a multiple of 4".to_owned(),
            DecodeError::InvalidPadding => "base64 input has malformed padding".to_owned(),
            DecodeError::InvalidCharacter(c) => {
                let mut s = "base64 input has invalid character ".to_owned();
                push_char(&mut s, '0');
                push_char(&mut s, 'x');
                push_char(&mut s, hex_char(*c / 16));
                push_char(&mut s, hex_char(*c % 16));
                proof {
                    assert(s@ =~= decode_error_message(*self));
                }
                s
            },
        }
    }
}

proof fn lemma_value_symbol(c: u8)
    ensures
        b64_value(c) matches Some(v) ==> 0 <= v < 64 && b64_symbol(v) as u8 == c,
{
}

/// The symbols are the RFC 4648 standard alphabet, in its order: the symbol
/// for the value `v` is the `v`-th character of
/// `ABCDEFGHIJKLMNOPQRSTUVWXYZabcdefghijklmnopqrstuvwxyz0123456789+/`, that
/// character decodes to `v`, and no other byte decodes to a value.
pub proof fn lemma_rfc4648_alphabet()
    ensures
        forall|v: int| 0 <= v < 64 ==> #[trigger] b64_symbol(v) == "ABCDEFGHIJKLMNOPQRSTUVWXYZabcdefghijklmnopqrstuvwxyz0123456789+/"@[v],
        forall|v: int| 0 <= v < 64 ==> b64_value(#[trigger] "ABCDEFGHIJKLMNOPQRSTUVWXYZabcdefghijklmnopqrstuvwxyz0123456789+/"@[v] as u8) == Some(v),
        forall|c: u8| #[trigger] b64_value(c) is Some ==> 0 <= b64_value(c)->Some_0 < 64
            && "ABCDEFGHIJKLMNOPQRSTUVWXYZabcdefghijklmnopqrstuvwxyz0123456789+/"@[b64_value(c)->Some_0] as u8 == c,
{
    reveal_strlit("ABCDEFGHIJKLMNOPQRSTUVWXYZabcdefghijklmnopqrstuvwxyz0123456789+/");
    assert forall|v: int| 0 <= v < 64 implies #[trigger] b64_symbol(v) == "ABCDEFGHIJKLMNOPQRSTUVWXYZabcdefghijklmnopqrstuvwxyz0123456789+/"@[v] by {
        if v == 0 {
        } else if v == 1 {
        } else if v == 2 {
        } else if v == 3 {
        } else if v == 4 {
        } else if v == 5 {
        } else if v == 6 {
        } else if v == 7 {
        } else if v == 8 {
        } else if v == 9 {
        } else if v == 10 {
        } else if v == 11 {
        } else if v == 12 {
        } else if v == 13 {
        } else if v == 14 {
        } else if v == 15 {
        } else if v == 16 {
        } else if v == 17 {
        } else if v == 18 {
        } else if v == 19 {
        } else if v == 20 {
        } else if v == 21 {
        } else if v == 22 {
        } else if v == 23 {
        } else if v == 24 {
        } else if v == 25 {
        } else if v == 26 {
        } else if v == 27 {
        } else if v == 28 {
        } else if v == 29 {
        } else if v == 30 {
        } else if v == 31 {
        } else if v == 32 {
        } else if v == 33 {
        } else if v == 34 {
        } else if v == 35 {
        } else if v == 36 {
        } else if v == 37 {
        } else if v == 38 {
        } else if v == 39 {
        } else if v == 40 {
        } else if v == 41 {
        } else if v == 42 {
        } else if v == 43 {
        } else if v == 44 {
        } else if v == 45 {
        } else if v == 46 {
        } else if v == 47 {
        } else if v == 48 {
        } else if v == 49 {
        } else if v == 50 {
        } else if v == 51 {
        } else if v == 52 {
        } else if v == 53 {
        } else if v == 54 {
        } else if v == 55 {
        } else if v == 56 {
        } else if v == 57 {
        } else if v == 58 {
        } else if v == 59 {
        } else if v == 60 {
        } else if v == 61 {
        } else if v == 62 {
        } else if v == 63 {
        }
    }
    assert forall|v: int| 0 <= v < 64 implies b64_value(#[trigger] "ABCDEFGHIJKLMNOPQRSTUVWXYZabcdefghijklmnopqrstuvwxyz0123456789+/"@[v] as u8) == Some(v) by {
        lemma_symbol(v);
        assert(b64_symbol(v) == "ABCDEFGHIJKLMNOPQRSTUVWXYZabcdefghijklmnopqrstuvwxyz0123456789+/"@[v]);
    }
    assert forall|c: u8| #[trigger] b64_value(c) is Some implies 0 <= b64_value(c)->Some_0 < 64
        && "ABCDEFGHIJKLMNOPQRSTUVWXYZabcdefghijklmnopqrstuvwxyz0123456789+/"@[b64_value(c)->Some_0] as u8 == c by {
        lemma_value_symbol(c);
        let v = b64_value(c)->Some_0;
        assert(b64_symbol(v) == "ABCDEFGHIJKLMNOPQRSTUVWXYZabcdefghijklmnopqrstuvwxyz0123456789+/"@[v]);
    }
}

} // verus!
