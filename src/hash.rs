//! The 32-byte content digest, its order and its text form.
use vstd::prelude::*;
use crate::canonical::{lex_lt, lex_cmp, enc, encode, reports, Value, CanonicalError};

verus! {

/// A 256-bit BLAKE3 digest, ordered by its raw bytes.
#[derive(Clone, Copy, PartialEq, Eq, PartialOrd, Ord, Hash, Debug)]
pub struct Hash(pub [u8; 32]);

/// The BLAKE3 digest of a byte string.
pub uninterp spec fn blake3_digest(b: Seq<u8>) -> Seq<u8>;

/// Relies on `blake3::hash`: the BLAKE3 digest of the input, 32 bytes.
#[verifier::external_body]
fn blake3_hash(b: &[u8]) -> (r: Hash)
    ensures
        r.0@ == blake3_digest(b@),
{
    Hash(*blake3::hash(b).as_bytes())
}

/// The text of one hex digit, lowercase.
pub open spec fn hex_digit(n: u8) -> char {
    if n < 10 {
        (('0' as u8) + n) as char
    } else {
        (('a' as u8) + n - 10) as char
    }
}

/// Two lowercase hex digits per byte, high nibble first.
pub open spec fn hex_text(b: Seq<u8>) -> Seq<char>
    decreases b.len(),
{
    if b.len() == 0 {
        Seq::empty()
    } else {
        hex_text(b.drop_last()) + seq![hex_digit(b.last() / 16), hex_digit(b.last() % 16)]
    }
}

/// Relies on `hex::encode`: two lowercase hex digits per byte, high nibble first.
#[verifier::external_body]
fn hex_encode(b: &[u8]) -> (r: String)
    ensures
        r@ == hex_text(b@),
{
    hex::encode(b)
}

/// Strict order of digests: lexicographic on the raw bytes.
pub open spec fn hash_lt(a: Hash, b: Hash) -> bool {
    lex_lt(a.0@, b.0@)
}

/// The digest of a value's canonical encoding.
pub open spec fn content_hash(v: Value) -> Seq<u8> {
    blake3_digest(enc(v)->Ok_0)
}

impl Hash {
    /// Lowercase hex text of the digest, without prefix.
    pub fn to_hex(&self) -> (r: String)
        ensures
            r@ == hex_text(self.0@),
    {
        hex_encode(self.0.as_slice())
    }

    /// Three-way comparison by raw bytes.
    pub fn compare(&self, other: &Hash) -> (r: i8)
        ensures
            r < 0 <==> hash_lt(*self, *other),
            r == 0 <==> *self == *other,
            r > 0 <==> hash_lt(*other, *self),
    {
        let r = lex_cmp(self.0.as_slice(), other.0.as_slice());
        proof {
            if self.0@ == other.0@ {
                assert(self.0 == other.0);
            }
        }
        r
    }

    /// The digest of a byte string.
    pub fn digest(b: &[u8]) -> (r: Hash)
        ensures
            r.0@ == blake3_digest(b@),
    {
        blake3_hash(b)
    }
}

/// Hashes a value: the BLAKE3 digest of its canonical encoding.
pub fn hash_canonical(v: &Value) -> (r: Result<Hash, CanonicalError>)
    ensures
        match enc(*v) {
            Ok(b) => r matches Ok(h) && h.0@ == blake3_digest(b),
            Err(f) => r matches Err(e) && reports(e, f),
        },
{
    match encode(v) {
        Ok(bytes) => Ok(blake3_hash(bytes.as_slice())),
        Err(e) => Err(e),
    }
}

} // verus!
