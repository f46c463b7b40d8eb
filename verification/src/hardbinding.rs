//! The hard binding for structured text.
//!
//! A claim generator that embeds a manifest block in a structured text file
//! includes a `c2pa.hash.data` assertion with a single exclusion range
//! covering the entire manifest block. The hash is computed over the raw
//! bytes of the file with that range removed; no Unicode normalization is
//! applied. Bare CR (0x0D) line endings are refused.
//!
//! The binding is byte-exact: any change to the covered bytes breaks it.

use vstd::prelude::*;
use vstd::string::StringSliceAdditionalSpecFns;
use crate::codec::{encode, spec_encode};
use crate::digest::{sha256, sha256_of, sha384, sha384_of, sha512, sha512_of};
use crate::error::Error;
use crate::extract::{locate_block, spec_locate, lemma_locate_bounds};
use crate::text::{push_char, push_str, str_eq};

verus! {

/// A byte range excluded from the data hash (`start`, `length`).
#[derive(Debug, Clone, Copy, PartialEq, Eq, Structural)]
pub struct Exclusion {
    pub start: usize,
    pub length: usize,
}

/// The assertion label for the structured-text hard binding.
pub const DATA_HASH_LABEL: &'static str = "c2pa.hash.data";

/// Position `i` of `t` holds a CR byte that no LF byte follows.
pub open spec fn bare_cr_at(t: Seq<u8>, i: int) -> bool {
    0 <= i < t.len() && t[i] == 13 && !(i + 1 < t.len() && t[i + 1] == 10)
}

/// Some CR byte of `t` is not followed by an LF byte.
pub open spec fn has_bare_cr(t: Seq<u8>) -> bool {
    exists|i: int| #[trigger] bare_cr_at(t, i)
}

/// The exclusion range for a block whose lines span `bs..be` of `t`:
/// the whole file when the block is the whole file; from the start through
/// the block's terminator at the beginning; from the line terminator that
/// precedes the block to the end at the end; the block's lines elsewhere.
pub open spec fn spec_exclusion(t: Seq<u8>, bs: int, be: int) -> (int, int) {
    let len = t.len() as int;
    if bs == 0 && be == len {
        (0, len)
    } else if bs == 0 {
        (0, be)
    } else if be == len {
        let s0 = bs - 1;
        let s = if s0 > 0 && t[s0 - 1] == 13 {
            s0 - 1
        } else {
            s0
        };
        (s, len - s)
    } else {
        (bs, be - bs)
    }
}

/// The exclusion range of the manifest block of `t`, or why there is none.
pub open spec fn spec_manifest_exclusion(t: Seq<u8>) -> Result<(int, int), Error> {
    if has_bare_cr(t) {
        Err(Error::BareCarriageReturn)
    } else {
        match spec_locate(t) {
            Ok((_, bs, be)) => Ok(spec_exclusion(t, bs, be)),
            Err(e) => Err(e),
        }
    }
}

/// `t` with the range of `length` bytes at `start` removed.
pub open spec fn covered(t: Seq<u8>, start: int, length: int) -> Seq<u8> {
    t.subrange(0, start) + t.subrange(start + length, t.len() as int)
}

/// Removing a list of exclusion ranges, the rest starting at `cursor`. A range
/// whose end overflows or that starts before the end of the previous one is
/// malformed; one that ends past the asset is a mismatch.
pub open spec fn spec_apply(b: Seq<u8>, ex: Seq<Exclusion>, cursor: int) -> Result<Seq<u8>, Error>
    decreases ex.len(),
{
    if ex.len() == 0 {
        Ok(b.subrange(cursor, b.len() as int))
    } else {
        let e = ex[0];
        let end = e.start + e.length;
        if end > usize::MAX {
            Err(Error::MalformedExclusion)
        } else if e.start < cursor {
            Err(Error::MalformedExclusion)
        } else if end > b.len() {
            Err(Error::HashMismatch)
        } else {
            match spec_apply(b, ex.drop_first(), end) {
                Ok(rest) => Ok(b.subrange(cursor, e.start as int) + rest),
                Err(x) => Err(x),
            }
        }
    }
}

/// Refuse bare CR line endings.
pub fn reject_bare_cr(bytes: &[u8]) -> (r: Result<(), Error>)
    ensures
        if has_bare_cr(bytes@) {
            r matches Err(e) && e is BareCarriageReturn
        } else {
            r is Ok
        },
{
    let n = bytes.len();
    let mut i: usize = 0;
    while i < n
        invariant
            n == bytes@.len(),
            i <= n,
            forall|k: int| 0 <= k < i ==> !#[trigger] bare_cr_at(bytes@, k),
        decreases n - i,
    {
        if bytes[i] == 13 && !(i + 1 < n && bytes[i + 1] == 10) {
            assert(bare_cr_at(bytes@, i as int));
            return Err(Error::BareCarriageReturn);
        }
        i = i + 1;
    }
    Ok(())
}

/// Compute the single exclusion range covering the manifest block, per the
/// placement rules for structured text: at the beginning from 0 through the
/// block's terminator; at the end from the line terminator preceding the block
/// to the end of the file; elsewhere (after a reserved header or inside front
/// matter) the block's lines with their terminator; the whole file when it is
/// only the block.
pub fn manifest_exclusion(text: &str) -> (r: Result<Exclusion, Error>)
    ensures
        match spec_manifest_exclusion(text.spec_bytes()) {
            Ok((s, l)) => r matches Ok(ex) && ex.start == s && ex.length == l,
            Err(e) => r matches Err(x) && x == e,
        },
{
    let bytes = text.as_bytes();
    reject_bare_cr(bytes)?;
    let block = locate_block(text)?;
    proof {
        lemma_locate_bounds(bytes@);
        crate::extract::lemma_last_before(bytes@, 10, 0);
        lemma_line_start_newline(bytes@);
    }
    let len = bytes.len();
    let bs = block.line_start;
    let be = block.line_end;
    let exclusion = if bs == 0 && be == len {
        Exclusion { start: 0, length: len }
    } else if bs == 0 {
        Exclusion { start: 0, length: be }
    } else if be == len {
        let mut start = bs - 1;
        if start > 0 && bytes[start - 1] == 13 {
            start = start - 1;
        }
        Exclusion { start, length: len - start }
    } else {
        Exclusion { start: bs, length: be - bs }
    };
    Ok(exclusion)
}

/// A located block that does not start the text starts after a line feed.
pub proof fn lemma_line_start_newline(t: Seq<u8>)
    ensures
        spec_locate(t) matches Ok((rf, s, e)) ==> (s > 0 ==> t[s - 1] == 10),
{
    crate::extract::lemma_delimiters();
    if let Some(b) = crate::extract::find_from(t, crate::extract::begin_bytes(), 0) {
        crate::extract::lemma_find_from(t, crate::extract::begin_bytes(), 0);
        crate::extract::lemma_last_before(t, 10, b);
    }
}

/// Remove `exclusions` from `bytes`, checking that they are ordered,
/// non-overlapping and within bounds as a validator must.
pub fn apply_exclusions(bytes: &[u8], exclusions: &[Exclusion]) -> (r: Result<Vec<u8>, Error>)
    ensures
        match spec_apply(bytes@, exclusions@, 0) {
            Ok(v) => r matches Ok(out) && out@ == v,
            Err(e) => r matches Err(x) && x == e,
        },
{
    let mut cursor: usize = 0;
    let mut out: Vec<u8> = Vec::new();
    let mut i: usize = 0;
    proof {
        assert(exclusions@.skip(0) =~= exclusions@);
        if let Ok(v) = spec_apply(bytes@, exclusions@, 0) {
            assert(out@ + v =~= v);
        }
    }
    while i < exclusions.len()
        invariant
            i <= exclusions@.len(),
            cursor <= bytes@.len(),
            match spec_apply(bytes@, exclusions@, 0) {
                Ok(v) => match spec_apply(bytes@, exclusions@.skip(i as int), cursor as int) {
                    Ok(rest) => v == out@ + rest,
                    Err(_) => false,
                },
                Err(e) => spec_apply(bytes@, exclusions@.skip(i as int), cursor as int) == Err::<
                    Seq<u8>,
                    Error,
                >(e),
            },
        decreases exclusions@.len() - i,
    {
        let ghost rest = exclusions@.skip(i as int);
        proof {
            assert(rest.drop_first() =~= exclusions@.skip(i + 1));
            assert(rest[0] == exclusions@[i as int]);
        }
        let ex = exclusions[i];
        let end = match ex.start.checked_add(ex.length) {
            Some(e) => e,
            None => {
                return Err(Error::MalformedExclusion);
            },
        };
        if ex.start < cursor {
            return Err(Error::MalformedExclusion);
        }
        if end > bytes.len() {
            return Err(Error::HashMismatch);
        }
        let mut k = cursor;
        let ghost before = out@;
        while k < ex.start
            invariant
                cursor <= k <= ex.start <= bytes@.len(),
                out@ == before + bytes@.subrange(cursor as int, k as int),
            decreases ex.start - k,
        {
            out.push(bytes[k]);
            proof {
                assert(bytes@.subrange(cursor as int, k + 1) =~= bytes@.subrange(cursor as int, k as int).push(bytes@[k as int]));
            }
            k = k + 1;
        }
        proof {
            let tail = spec_apply(bytes@, exclusions@.skip(i + 1), end as int);
            if let Ok(t) = tail {
                assert(before + (bytes@.subrange(cursor as int, ex.start as int) + t) =~= out@ + t);
            }
        }
        cursor = end;
        i = i + 1;
    }
    let ghost before = out@;
    let mut k = cursor;
    while k < bytes.len()
        invariant
            cursor <= k <= bytes@.len(),
            out@ == before + bytes@.subrange(cursor as int, k as int),
        decreases bytes@.len() - k,
    {
        out.push(bytes[k]);
        proof {
            assert(bytes@.subrange(cursor as int, k + 1) =~= bytes@.subrange(cursor as int, k as int).push(bytes@[k as int]));
        }
        k = k + 1;
    }
    proof {
        assert(exclusions@.skip(i as int).len() == 0);
    }
    Ok(out)
}

/// Return the exact byte sequence that the data hash covers: the file with the
/// manifest block excluded.
pub fn hashed_bytes(text: &str) -> (r: Result<Vec<u8>, Error>)
    ensures
        match spec_manifest_exclusion(text.spec_bytes()) {
            Ok((s, l)) => r matches Ok(v) && v@ == covered(text.spec_bytes(), s, l),
            Err(e) => r matches Err(x) && x == e,
        },
{
    let exclusion = manifest_exclusion(text)?;
    let bytes = text.as_bytes();
    let exclusions = [exclusion];
    proof {
        assert(bytes@.len() == bytes.len());
        lemma_exclusion_bounds(bytes@);
        lemma_apply_single(bytes@, exclusion);
        assert(exclusions@ =~= seq![exclusion]);
    }
    apply_exclusions(bytes, &exclusions)
}

/// The exclusion range of a located block lies inside the text.
pub proof fn lemma_exclusion_bounds(t: Seq<u8>)
    ensures
        spec_manifest_exclusion(t) matches Ok((s, l)) ==> 0 <= s && 0 <= l && s + l <= t.len(),
{
    lemma_locate_bounds(t);
    lemma_line_start_newline(t);
}

/// Removing a single in-bounds range gives the covered bytes.
pub proof fn lemma_apply_single(t: Seq<u8>, ex: Exclusion)
    requires
        ex.start + ex.length <= t.len() <= usize::MAX,
    ensures
        spec_apply(t, seq![ex], 0) == Ok::<Seq<u8>, Error>(
            covered(t, ex.start as int, ex.length as int),
        ),
{
    let ex_seq = seq![ex];
    let end = ex.start + ex.length;
    assert(ex_seq.drop_first() =~= Seq::<Exclusion>::empty());
    assert(ex_seq[0] == ex);
    assert(spec_apply(t, ex_seq.drop_first(), end) == Ok::<Seq<u8>, Error>(
        t.subrange(end, t.len() as int),
    ));
}

/// A C2PA-allowed hash algorithm for the data hash (SHA2-256/384/512).
#[derive(Debug, Clone, Copy, PartialEq, Eq, Structural)]
pub enum Algorithm {
    Sha256,
    Sha384,
    Sha512,
}

/// The C2PA identifier of an algorithm.
pub open spec fn spec_id(a: Algorithm) -> Seq<char> {
    match a {
        Algorithm::Sha256 => "sha256"@,
        Algorithm::Sha384 => "sha384"@,
        Algorithm::Sha512 => "sha512"@,
    }
}

/// The algorithm that an identifier names, if it is an allowed one.
pub open spec fn spec_from_id(id: Seq<char>) -> Option<Algorithm> {
    if id == "sha256"@ {
        Some(Algorithm::Sha256)
    } else if id == "sha384"@ {
        Some(Algorithm::Sha384)
    } else if id == "sha512"@ {
        Some(Algorithm::Sha512)
    } else {
        None
    }
}

/// The digest of `data` under an algorithm.
pub open spec fn spec_hash(a: Algorithm, data: Seq<u8>) -> Seq<u8> {
    match a {
        Algorithm::Sha256 => sha256_of(data),
        Algorithm::Sha384 => sha384_of(data),
        Algorithm::Sha512 => sha512_of(data),
    }
}

impl Algorithm {
    /// The C2PA algorithm identifier string used in the `alg` field.
    pub fn id(self) -> (r: &'static str)
        ensures
            r@ == spec_id(self),
    {
        match self {
            Algorithm::Sha256 => "sha256",
            Algorithm::Sha384 => "sha384",
            Algorithm::Sha512 => "sha512",
        }
    }

    /// The algorithm named by a C2PA identifier; any other identifier is
    /// refused as unsupported.
    pub fn from_id(id: &str) -> (r: Result<Self, Error>)
        ensures
            match spec_from_id(id@) {
                Some(a) => r == Ok::<Algorithm, Error>(a),
                None => r matches Err(Error::UnsupportedAlgorithm(s)) && s@ == id@,
            },
    {
        if str_eq(id, "sha256") {
            Ok(Algorithm::Sha256)
        } else if str_eq(id, "sha384") {
            Ok(Algorithm::Sha384)
        } else if str_eq(id, "sha512") {
            Ok(Algorithm::Sha512)
        } else {
            Err(Error::UnsupportedAlgorithm(id.to_owned()))
        }
    }

    fn hash(self, data: &[u8]) -> (r: Vec<u8>)
        ensures
            r@ == spec_hash(self, data@),
    {
        match self {
            Algorithm::Sha256 => sha256(data),
            Algorithm::Sha384 => sha384(data),
            Algorithm::Sha512 => sha512(data),
        }
    }
}

/// A computed `c2pa.hash.data` assertion for a structured text asset.
#[derive(Debug, Clone, PartialEq, Eq)]
pub struct DataHash {
    pub exclusions: Vec<Exclusion>,
    pub alg: String,
    pub hash: Vec<u8>,
    pub name: Option<String>,
}

/// The decimal digit for a value below ten.
pub open spec fn digit(d: int) -> char {
    (48 + d) as char
}

/// The decimal notation of a number, without leading zeros.
pub open spec fn decimal(n: nat) -> Seq<char>
    decreases n,
{
    if n < 10 {
        seq![digit(n as int)]
    } else {
        decimal(n / 10) + seq![digit((n % 10) as int)]
    }
}

/// The JSON object of one exclusion range.
pub open spec fn range_json(e: Exclusion) -> Seq<char> {
    "{\"start\":"@ + decimal(e.start as nat) + ",\"length\":"@ + decimal(e.length as nat) + "}"@
}

/// The JSON objects of the exclusion ranges, separated by commas.
pub open spec fn ranges_json(ex: Seq<Exclusion>) -> Seq<char>
    decreases ex.len(),
{
    if ex.len() == 0 {
        Seq::empty()
    } else if ex.len() == 1 {
        range_json(ex[0])
    } else {
        ranges_json(ex.drop_last()) + ","@ + range_json(ex.last())
    }
}

/// The JSON shape of a data hash: the ranges, the algorithm, the hash in
/// standard Base64, and the name when there is one. Neither the algorithm nor
/// the name is escaped.
pub open spec fn spec_json(exclusions: Seq<Exclusion>, alg: Seq<char>, hash: Seq<u8>, name: Option<Seq<char>>) -> Seq<char> {
    "{\"exclusions\":["@ + ranges_json(exclusions) + "],\"alg\":\""@ + alg + "\",\"hash\":\""@
        + spec_encode(hash) + "\""@ + match name {
        Some(n) => ",\"name\":\""@ + n + "\""@,
        None => Seq::empty(),
    } + "}"@
}

/// The name of a data hash as characters.
pub open spec fn name_chars(name: Option<String>) -> Option<Seq<char>> {
    match name {
        Some(n) => Some(n@),
        None => None,
    }
}

fn push_decimal(s: &mut String, n: usize)
    ensures
        final(s)@ == old(s)@ + decimal(n as nat),
    decreases n,
{
    if n >= 10 {
        push_decimal(s, n / 10);
    }
    let d = (n % 10) as u8;
    push_char(s, (48 + d) as char);
}

impl DataHash {
    /// The assertion label, `c2pa.hash.data`.
    pub fn label(&self) -> (r: &'static str)
        ensures
            r@ == DATA_HASH_LABEL@,
    {
        DATA_HASH_LABEL
    }

    /// Serialise to the JSON shape consumed by `c2pa-rs` when building a
    /// manifest, with the hash as standard Base64.
    pub fn to_json(&self) -> (r: String)
        ensures
            r@ == spec_json(self.exclusions@, self.alg@, self.hash@, name_chars(self.name)),
    {
        let mut json = String::new();
        push_str(&mut json, "{\"exclusions\":[");
        let ghost head = json@;
        let mut i: usize = 0;
        while i < self.exclusions.len()
            invariant
                i <= self.exclusions@.len(),
                json@ == head + ranges_json(self.exclusions@.take(i as int)),
            decreases self.exclusions@.len() - i,
        {
            let e = self.exclusions[i];
            if i > 0 {
                push_str(&mut json, ",");
            }
            push_str(&mut json, "{\"start\":");
            push_decimal(&mut json, e.start);
            push_str(&mut json, ",\"length\":");
            push_decimal(&mut json, e.length);
            push_str(&mut json, "}");
            proof {
                let t = self.exclusions@.take(i + 1);
                assert(t.drop_last() =~= self.exclusions@.take(i as int));
                assert(t.last() == e);
                if i == 0 {
                    assert(ranges_json(self.exclusions@.take(0)) =~= Seq::<char>::empty());
                }
            }
            i = i + 1;
        }
        proof {
            assert(self.exclusions@.take(i as int) =~= self.exclusions@);
        }
        push_str(&mut json, "],\"alg\":\"");
        push_str(&mut json, self.alg.as_str());
        push_str(&mut json, "\",\"hash\":\"");
        let b64 = encode(self.hash.as_slice());
        push_str(&mut json, b64.as_str());
        push_str(&mut json, "\"");
        let ghost before_name = json@;
        match &self.name {
            Some(name) => {
                push_str(&mut json, ",\"name\":\"");
                push_str(&mut json, name.as_str());
                push_str(&mut json, "\"");
            },
            None => {},
        }
        push_str(&mut json, "}");
        proof {
            assert(json@ =~= spec_json(self.exclusions@, self.alg@, self.hash@, name_chars(self.name)));
        }
        json
    }
}

/// Compute the structured-text hard binding for `text`: locate the manifest
/// block, exclude it, and hash the remaining raw bytes with `alg`.
pub fn compute_data_hash(text: &str, alg: Algorithm) -> (r: Result<DataHash, Error>)
    ensures
        match spec_manifest_exclusion(text.spec_bytes()) {
            Ok((s, l)) => r matches Ok(dh) && dh.exclusions@ == seq![
                Exclusion { start: s as usize, length: l as usize },
            ] && dh.alg@ == spec_id(alg) && dh.hash@ == spec_hash(
                alg,
                covered(text.spec_bytes(), s, l),
            ) && dh.name is None,
            Err(e) => r matches Err(x) && x == e,
        },
{
    let exclusion = manifest_exclusion(text)?;
    let bytes = text.as_bytes();
    let single = [exclusion];
    proof {
        assert(bytes@.len() == bytes.len());
        lemma_exclusion_bounds(bytes@);
        lemma_apply_single(bytes@, exclusion);
        assert(single@ =~= seq![exclusion]);
    }
    let covered_bytes = apply_exclusions(bytes, &single)?;
    let mut exclusions: Vec<Exclusion> = Vec::new();
    exclusions.push(exclusion);
    proof {
        assert(exclusions@ =~= seq![exclusion]);
    }
    Ok(
        DataHash {
            exclusions,
            alg: alg.id().to_owned(),
            hash: alg.hash(covered_bytes.as_slice()),
            name: None,
        },
    )
}

/// A data hash with these ranges, algorithm identifier and hash verifies
/// against the bytes `t`.
pub open spec fn verifies(t: Seq<u8>, exclusions: Seq<Exclusion>, alg: Seq<char>, hash: Seq<u8>) -> bool {
    &&& !has_bare_cr(t)
    &&& spec_from_id(alg) is Some
    &&& exclusions.len() > 0
    &&& spec_apply(t, exclusions, 0) matches Ok(c) && spec_hash(spec_from_id(alg)->0, c) == hash
}

/// Verify a `c2pa.hash.data` binding against `text`, following the validator
/// procedure: apply the assertion's own exclusion ranges to the raw bytes,
/// recompute the hash, and compare.
///
/// Refuses bare CR line endings, an unsupported algorithm, an empty or
/// malformed list of ranges, and a hash that does not match.
pub fn verify_data_hash(text: &str, data_hash: &DataHash) -> (r: Result<(), Error>)
    ensures
        r is Ok <==> verifies(text.spec_bytes(), data_hash.exclusions@, data_hash.alg@, data_hash.hash@),
        ({
            let t = text.spec_bytes();
            if has_bare_cr(t) {
                r matches Err(e) && e is BareCarriageReturn
            } else if spec_from_id(data_hash.alg@) is None {
                r matches Err(Error::UnsupportedAlgorithm(s)) && s@ == data_hash.alg@
            } else if data_hash.exclusions@.len() == 0 {
                r matches Err(e) && e is MalformedExclusion
            } else {
                match spec_apply(t, data_hash.exclusions@, 0) {
                    Err(e) => r matches Err(x) && x == e,
                    Ok(c) => if spec_hash(spec_from_id(data_hash.alg@)->0, c) == data_hash.hash@ {
                        r is Ok
                    } else {
                        r matches Err(e) && e is HashMismatch
                    },
                }
            }
        }),
{
    let bytes = text.as_bytes();
    reject_bare_cr(bytes)?;
    let alg = Algorithm::from_id(data_hash.alg.as_str())?;
    if data_hash.exclusions.len() == 0 {
        return Err(Error::MalformedExclusion);
    }
    let covered_bytes = apply_exclusions(bytes, data_hash.exclusions.as_slice())?;
    let digest = alg.hash(covered_bytes.as_slice());
    if crate::text::bytes_eq(digest.as_slice(), data_hash.hash.as_slice()) {
        Ok(())
    } else {
        Err(Error::HashMismatch)
    }
}

/// A binding computed for a text verifies against that same text, whatever
/// the algorithm: the data hash that `compute_data_hash` returns is accepted
/// by `verify_data_hash`.
pub proof fn lemma_verify_after_compute(t: Seq<u8>, alg: Algorithm)
    requires
        t.len() <= usize::MAX,
        spec_manifest_exclusion(t) is Ok,
    ensures
        ({
            let (s, l) = spec_manifest_exclusion(t)->Ok_0;
            verifies(
                t,
                seq![Exclusion { start: s as usize, length: l as usize }],
                spec_id(alg),
                spec_hash(alg, covered(t, s, l)),
            )
        }),
{
    let (s, l) = spec_manifest_exclusion(t)->Ok_0;
    lemma_exclusion_bounds(t);
    let ex = Exclusion { start: s as usize, length: l as usize };
    lemma_apply_single(t, ex);
    reveal_strlit("sha256");
    reveal_strlit("sha384");
    reveal_strlit("sha512");
    assert("sha384"@[3] != "sha256"@[3]);
    assert("sha512"@[3] != "sha256"@[3]);
    assert("sha512"@[3] != "sha384"@[3]);
    assert(spec_from_id(spec_id(alg)) == Some(alg));
}

/// Each algorithm records the digest of its own name: SHA-256, SHA-384 and
/// SHA-512 of the covered bytes, as the `sha2` crate computes them.
pub proof fn lemma_algorithm_digests(data: Seq<u8>)
    ensures
        spec_hash(Algorithm::Sha256, data) == sha256_of(data),
        spec_hash(Algorithm::Sha384, data) == sha384_of(data),
        spec_hash(Algorithm::Sha512, data) == sha512_of(data),
{
}

/// The identifiers are the C2PA strings `sha256`, `sha384` and `sha512`:
/// each algorithm is written as its string, each string reads back as its
/// algorithm, and no other string names an algorithm.
pub proof fn lemma_algorithm_identifiers(id: Seq<char>)
    ensures
        spec_id(Algorithm::Sha256) == "sha256"@,
        spec_id(Algorithm::Sha384) == "sha384"@,
        spec_id(Algorithm::Sha512) == "sha512"@,
        spec_from_id("sha256"@) == Some(Algorithm::Sha256),
        spec_from_id("sha384"@) == Some(Algorithm::Sha384),
        spec_from_id("sha512"@) == Some(Algorithm::Sha512),
        spec_from_id(id) is Some <==> (id == "sha256"@ || id == "sha384"@ || id == "sha512"@),
        spec_from_id(id) matches Some(a) ==> spec_id(a) == id,
{
    reveal_strlit("sha256");
    reveal_strlit("sha384");
    reveal_strlit("sha512");
    assert("sha384"@[3] != "sha256"@[3]);
    assert("sha512"@[3] != "sha256"@[3]);
    assert("sha512"@[3] != "sha384"@[3]);
}

/// A single-range binding over the manifest block verifies when its `alg` is
/// `sha256`, `sha384` or `sha512` and its hash is the SHA-256, SHA-384 or
/// SHA-512 digest, respectively, of the bytes outside the range.
pub proof fn lemma_sha2_bindings_verify(t: Seq<u8>)
    requires
        t.len() <= usize::MAX,
        spec_manifest_exclusion(t) is Ok,
    ensures
        ({
            let (s, l) = spec_manifest_exclusion(t)->Ok_0;
            let ex = seq![Exclusion { start: s as usize, length: l as usize }];
            &&& verifies(t, ex, "sha256"@, sha256_of(covered(t, s, l)))
            &&& verifies(t, ex, "sha384"@, sha384_of(covered(t, s, l)))
            &&& verifies(t, ex, "sha512"@, sha512_of(covered(t, s, l)))
        }),
{
    let (s, l) = spec_manifest_exclusion(t)->Ok_0;
    lemma_exclusion_bounds(t);
    let ex = Exclusion { start: s as usize, length: l as usize };
    lemma_apply_single(t, ex);
    lemma_algorithm_identifiers("sha256"@);
}

} // verus!
