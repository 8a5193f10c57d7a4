//! The hashing primitive and the byte-level helpers built on it.
//!
//! Leaf and node digests are both SHA-256 outputs: a leaf is the hash of its
//! value's bytes, an internal node is the hash of its two children's raw
//! digest bytes concatenated left first. The digest of empty input fills
//! unused leaf slots.

use vstd::prelude::*;
use sha2::Digest;

verus! {

/// The digest that SHA-256 assigns to a byte sequence. The algorithm itself
/// is not restated here; all that matters to the tree is that the digest is
/// a function of the input bytes alone.
pub uninterp spec fn sha256_of(bytes: Seq<u8>) -> Seq<u8>;

/// The digest of one leaf value: the hash of its bytes.
pub open spec fn leaf_digest(value: Seq<u8>) -> Seq<u8> {
    sha256_of(value)
}

/// The digest of an internal node: the hash of the two children's raw digest
/// bytes, left child first.
pub open spec fn node_digest(left: Seq<u8>, right: Seq<u8>) -> Seq<u8> {
    sha256_of(left + right)
}

/// The digest that fills unused leaf slots: the hash of empty input.
pub open spec fn padding_digest() -> Seq<u8> {
    sha256_of(Seq::empty())
}

/// Relies on sha2::Sha256 through the Digest trait: a 32-byte digest that is
/// a function of the input bytes alone.
#[verifier::external_body]
pub(crate) fn sha256(data: &[u8]) -> (digest: Vec<u8>)
    ensures
        digest@ == sha256_of(data@),
        digest@.len() == 32,
{
    sha2::Sha256::digest(data).to_vec()
}

/// The lowercase hexadecimal digit for a value below sixteen.
pub open spec fn hex_digit(n: u8) -> char
    recommends
        n < 16,
{
    if n < 10 {
        (n + 48) as char
    } else {
        (n + 87) as char
    }
}

/// The lowercase hexadecimal rendering of a byte sequence: two digits per
/// byte, most significant nibble first.
pub open spec fn hex_of(bytes: Seq<u8>) -> Seq<char>
    decreases bytes.len(),
{
    if bytes.len() == 0 {
        Seq::empty()
    } else {
        seq![hex_digit(bytes[0] / 16), hex_digit(bytes[0] % 16)] + hex_of(bytes.drop_first())
    }
}

/// Relies on hex::encode: two lowercase digits per byte, most significant
/// nibble first.
#[verifier::external_body]
pub(crate) fn encode_hex(bytes: &Vec<u8>) -> (text: String)
    ensures
        text@ == hex_of(bytes@),
{
    hex::encode(bytes.as_slice())
}

/// The concatenation of two byte vectors.
pub(crate) fn concat_bytes(a: &Vec<u8>, b: &Vec<u8>) -> (joined: Vec<u8>)
    ensures
        joined@ == a@ + b@,
{
    let mut joined: Vec<u8> = Vec::new();
    let mut i: usize = 0;
    assert(joined@ =~= a@.subrange(0, 0));
    while i < a.len()
        invariant
            i <= a@.len(),
            joined@ == a@.subrange(0, i as int),
        decreases a@.len() - i,
    {
        joined.push(a[i]);
        assert(joined@ =~= a@.subrange(0, i + 1));
        i += 1;
    }
    assert(joined@ =~= a@ + b@.subrange(0, 0));
    let mut j: usize = 0;
    while j < b.len()
        invariant
            j <= b@.len(),
            joined@ == a@ + b@.subrange(0, j as int),
        decreases b@.len() - j,
    {
        joined.push(b[j]);
        assert(joined@ =~= a@ + b@.subrange(0, j + 1));
        j += 1;
    }
    assert(joined@ =~= a@ + b@);
    joined
}

/// A copy of a byte vector.
pub(crate) fn copy_bytes(a: &Vec<u8>) -> (copied: Vec<u8>)
    ensures
        copied@ == a@,
{
    let mut copied: Vec<u8> = Vec::new();
    let mut i: usize = 0;
    while i < a.len()
        invariant
            i <= a@.len(),
            copied@ == a@.subrange(0, i as int),
        decreases a@.len() - i,
    {
        copied.push(a[i]);
        assert(copied@ =~= a@.subrange(0, i + 1));
        i += 1;
    }
    assert(copied@ =~= a@);
    copied
}

/// Whether two byte vectors hold the same bytes.
pub(crate) fn bytes_eq(a: &Vec<u8>, b: &Vec<u8>) -> (eq: bool)
    ensures
        eq == (a@ == b@),
{
    if a.len() != b.len() {
        return false;
    }
    let mut i: usize = 0;
    while i < a.len()
        invariant
            i <= a@.len(),
            a@.len() == b@.len(),
            forall|k: int| 0 <= k < i ==> a@[k] == b@[k],
        decreases a@.len() - i,
    {
        if a[i] != b[i] {
            return false;
        }
        i += 1;
    }
    proof {
        assert(a@ =~= b@);
    }
    true
}

} // verus!
