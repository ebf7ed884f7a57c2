//! Subresource integrity checksums of package tarballs, parsed by `ssri`.

use vstd::prelude::*;

verus! {

/// Hash algorithms of integrity strings, strongest first.
#[derive(Debug, Clone, Copy, PartialEq, Eq, Structural)]
pub enum HashAlgorithm {
    Sha512,
    Sha384,
    Sha256,
    Sha1,
    Xxh3,
}

/// Position of an algorithm in the strongest-first order.
pub open spec fn algorithm_rank(a: HashAlgorithm) -> int {
    match a {
        HashAlgorithm::Sha512 => 0,
        HashAlgorithm::Sha384 => 1,
        HashAlgorithm::Sha256 => 2,
        HashAlgorithm::Sha1 => 3,
        HashAlgorithm::Xxh3 => 4,
    }
}

/// One algorithm/digest pair of an integrity string.
#[derive(Debug, Clone, PartialEq, Eq)]
pub struct IntegrityHash {
    pub algorithm: HashAlgorithm,
    pub digest: String,
}

/// A parsed integrity string: its hashes, strongest algorithm first.
#[derive(Debug, Clone, PartialEq, Eq)]
pub struct Integrity {
    pub hashes: Vec<IntegrityHash>,
}

impl View for Integrity {
    type V = Seq<(HashAlgorithm, Seq<char>)>;

    open spec fn view(&self) -> Seq<(HashAlgorithm, Seq<char>)> {
        self.hashes@.map_values(|h: IntegrityHash| (h.algorithm, h.digest@))
    }
}

/// The hashes are ordered by the strength of their algorithm.
pub open spec fn sorted_by_strength(h: Seq<(HashAlgorithm, Seq<char>)>) -> bool {
    forall|i: int, j: int|
        0 <= i < j < h.len() ==> algorithm_rank(#[trigger] h[i].0) <= algorithm_rank(
            #[trigger] h[j].0,
        )
}

/// The hashes that `ssri` reads from an integrity string, or `None` when it refuses it.
pub uninterp spec fn sri_hashes(s: Seq<char>) -> Option<Seq<(HashAlgorithm, Seq<char>)>>;

/// A hash as `ssri` holds it.
#[verifier::external_type_specification]
#[verifier::external_body]
pub struct ExSsriHash(ssri::Hash);

/// Copies hashes of `ssri`, algorithm by algorithm.
#[verifier::external_body]
fn from_ssri(hashes: Vec<ssri::Hash>) -> Integrity {
    let hashes = hashes.into_iter().map(|h| IntegrityHash {
        algorithm: match h.algorithm {
            ssri::Algorithm::Sha512 => HashAlgorithm::Sha512,
            ssri::Algorithm::Sha384 => HashAlgorithm::Sha384,
            ssri::Algorithm::Sha256 => HashAlgorithm::Sha256,
            ssri::Algorithm::Sha1 => HashAlgorithm::Sha1,
            _ => HashAlgorithm::Xxh3,
        },
        digest: h.digest,
    });
    Integrity { hashes: hashes.collect() }
}

/// Copies hashes into hashes of `ssri`, algorithm by algorithm.
#[verifier::external_body]
fn to_ssri(i: &Integrity) -> Vec<ssri::Hash> {
    let hashes = i.hashes.iter().map(|h| ssri::Hash {
        algorithm: match h.algorithm {
            HashAlgorithm::Sha512 => ssri::Algorithm::Sha512,
            HashAlgorithm::Sha384 => ssri::Algorithm::Sha384,
            HashAlgorithm::Sha256 => ssri::Algorithm::Sha256,
            HashAlgorithm::Sha1 => ssri::Algorithm::Sha1,
            HashAlgorithm::Xxh3 => ssri::Algorithm::Xxh3,
        },
        digest: h.digest.clone(),
    });
    hashes.collect()
}

/// Parses an integrity string with `<ssri::Integrity as FromStr>::from_str`.
/// Trusted: the result is [`sri_hashes`] of the input, and it is sorted by algorithm
/// strength, since `ssri` sorts the hashes after parsing them. A refusal is reported
/// as `ssri`'s error message.
#[verifier::external_body]
pub fn parse_integrity(s: &str) -> (r: Result<Integrity, String>)
    ensures
        r is Ok <==> sri_hashes(s@) is Some,
        r matches Ok(i) ==> i@ == sri_hashes(s@)->0 && sorted_by_strength(i@),
{
    let parsed: ssri::Integrity = s.parse().map_err(|e: ssri::Error| e.to_string())?;
    Ok(from_ssri(parsed.hashes))
}

/// An even number of ASCII hexadecimal digits: text that hex-decodes to bytes.
pub open spec fn is_hex_text(s: Seq<char>) -> bool {
    s.len() % 2 == 0 && forall|i: int|
        0 <= i < s.len() ==> ('0' <= #[trigger] s[i] <= '9' || 'a' <= s[i] <= 'f' || 'A' <= s[i]
            <= 'F')
}

/// The base64 digest that `ssri` writes for the bytes that hex text stands for.
pub uninterp spec fn hex_digest(s: Seq<char>) -> Seq<char>;

/// Builds a SHA-512 integrity from a hex digest with `ssri::Integrity::from_hex`.
/// Trusted: it succeeds exactly on an even number of hex digits (what `hex::decode`
/// accepts), and then holds one SHA-512 hash whose digest is [`hex_digest`] of the
/// text; a refusal is reported as `ssri`'s error message.
#[verifier::external_body]
pub fn integrity_from_hex_sha512(hex: &str) -> (r: Result<Integrity, String>)
    ensures
        r is Ok <==> is_hex_text(hex@),
        r matches Ok(i) ==> i@ == seq![(HashAlgorithm::Sha512, hex_digest(hex@))],
{
    let parsed = ssri::Integrity::from_hex(hex, ssri::Algorithm::Sha512).map_err(|e| e.to_string())?;
    Ok(from_ssri(parsed.hashes))
}

/// Builds a SHA-1 integrity from a hex digest with `ssri::Integrity::from_hex`.
/// Trusted: it succeeds exactly on an even number of hex digits (what `hex::decode`
/// accepts), and then holds one SHA-1 hash whose digest is [`hex_digest`] of the
/// text; a refusal is reported as `ssri`'s error message.
#[verifier::external_body]
pub fn integrity_from_hex_sha1(hex: &str) -> (r: Result<Integrity, String>)
    ensures
        r is Ok <==> is_hex_text(hex@),
        r matches Ok(i) ==> i@ == seq![(HashAlgorithm::Sha1, hex_digest(hex@))],
{
    let parsed = ssri::Integrity::from_hex(hex, ssri::Algorithm::Sha1).map_err(|e| e.to_string())?;
    Ok(from_ssri(parsed.hashes))
}

/// Builds a SHA-256 integrity from a hex digest with `ssri::Integrity::from_hex`.
/// Trusted: it succeeds exactly on an even number of hex digits (what `hex::decode`
/// accepts), and then holds one SHA-256 hash whose digest is [`hex_digest`] of the
/// text; a refusal is reported as `ssri`'s error message.
#[verifier::external_body]
pub fn integrity_from_hex_sha256(hex: &str) -> (r: Result<Integrity, String>)
    ensures
        r is Ok <==> is_hex_text(hex@),
        r matches Ok(i) ==> i@ == seq![(HashAlgorithm::Sha256, hex_digest(hex@))],
{
    let parsed = ssri::Integrity::from_hex(hex, ssri::Algorithm::Sha256).map_err(|e| e.to_string())?;
    Ok(from_ssri(parsed.hashes))
}

/// The hashes of one algorithm, in order.
pub open spec fn with_rank(s: Seq<(HashAlgorithm, Seq<char>)>, r: int) -> Seq<(HashAlgorithm, Seq<char>)> {
    s.filter(|h: (HashAlgorithm, Seq<char>)| algorithm_rank(h.0) == r)
}

/// The hashes stably sorted by algorithm, strongest first.
pub open spec fn sorted_by_algorithm(s: Seq<(HashAlgorithm, Seq<char>)>) -> Seq<(HashAlgorithm, Seq<char>)> {
    with_rank(s, 0) + with_rank(s, 1) + with_rank(s, 2) + with_rank(s, 3) + with_rank(s, 4)
}

/// The hashes with each run of equal neighbours kept once.
pub open spec fn dedup_hashes(s: Seq<(HashAlgorithm, Seq<char>)>) -> Seq<(HashAlgorithm, Seq<char>)>
    decreases s.len(),
{
    if s.len() <= 1 {
        s
    } else if s.last() == s[s.len() - 2] {
        dedup_hashes(s.drop_last())
    } else {
        dedup_hashes(s.drop_last()).push(s.last())
    }
}

/// The hashes that `ssri::Integrity::concat` gives for two integrities: both lists
/// one after the other, stably sorted by algorithm, then with equal neighbours kept
/// once.
pub open spec fn sri_concat(
    a: Seq<(HashAlgorithm, Seq<char>)>,
    b: Seq<(HashAlgorithm, Seq<char>)>,
) -> Seq<(HashAlgorithm, Seq<char>)> {
    dedup_hashes(sorted_by_algorithm(a + b))
}

/// Joins two integrities with `ssri::Integrity::concat`. Trusted: the hashes are
/// [`sri_concat`] of the two: `concat` appends, sorts with the stable `sort` by the
/// algorithm alone (the order of `Hash`), and removes equal neighbours.
#[verifier::external_body]
pub fn integrity_concat(a: &Integrity, b: &Integrity) -> (r: Integrity)
    ensures
        r@ == sri_concat(a@, b@),
{
    let a = ssri::Integrity { hashes: to_ssri(a) };
    from_ssri(a.concat(ssri::Integrity { hashes: to_ssri(b) }).hashes)
}

impl Integrity {
    /// Whether there are no hashes at all.
    pub fn is_empty(&self) -> (b: bool)
        ensures
            b == (self@.len() == 0),
    {
        self.hashes.len() == 0
    }

    /// The most secure algorithm present: that of the first hash.
    pub fn pick_algorithm(&self) -> (a: HashAlgorithm)
        requires
            self@.len() > 0,
        ensures
            a == self@[0].0,
    {
        self.hashes[0].algorithm
    }
}

/// Checksums of a package.
#[derive(Debug, Clone, PartialEq, Eq)]
pub enum Checksums {
    /// Of the tarball as fetched.
    Tarball(Integrity),
    /// Of a zip archive that the package manager repacked the package into.
    RepackZip(Integrity),
}

impl Checksums {
    pub open spec fn spec_integrity(self) -> Integrity {
        match self {
            Checksums::Tarball(i) => i,
            Checksums::RepackZip(i) => i,
        }
    }

    pub fn integrity(&self) -> (r: &Integrity)
        ensures
            *r == self.spec_integrity(),
    {
        match self {
            Checksums::Tarball(i) => i,
            Checksums::RepackZip(i) => i,
        }
    }
}

} // verus!
