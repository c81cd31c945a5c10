//! SHA-256 content digests and the short content addresses built from them.

use vstd::prelude::*;
use vstd::utf8::encode_utf8;
use crate::text::{hex_lower, to_hex};

verus! {

/// The SHA-256 digest of `data`, as computed by the `sha2` crate.
pub uninterp spec fn sha256_spec(data: Seq<u8>) -> Seq<u8>;

/// `sha2::Sha256::digest`. Claimed: the result is the digest of exactly `data`,
/// a function of the bytes alone, and is 32 bytes long (SHA-256's output size).
#[verifier::external_body]
pub(crate) fn sha256(data: &[u8]) -> (d: Vec<u8>)
    ensures
        d@ == sha256_spec(data@),
        d@.len() == 32,
{
    <sha2::Sha256 as sha2::Digest>::digest(data).to_vec()
}

/// Appends the UTF-8 bytes of `s` to `v`.
pub fn push_utf8(v: &mut Vec<u8>, s: &str)
    ensures
        final(v)@ == old(v)@ + encode_utf8(s@),
{
    let b = s.as_bytes();
    let mut i: usize = 0;
    while i < b.len()
        invariant
            i <= b@.len(),
            b@ == encode_utf8(s@),
            v@ == old(v)@ + b@.subrange(0, i as int),
        decreases b.len() - i,
    {
        assert(b@.subrange(0, i + 1) =~= b@.subrange(0, i as int).push(b@[i as int]));
        v.push(b[i]);
        i = i + 1;
    }
    assert(b@.subrange(0, b@.len() as int) =~= b@);
}

/// The lowercase hex digest of `data`.
pub open spec fn hex_digest(data: Seq<u8>) -> Seq<char> {
    hex_lower(sha256_spec(data))
}

/// The lowercase hexadecimal SHA-256 digest of `data`.
pub fn hex_sha256(data: &[u8]) -> (s: String)
    ensures
        s@ == hex_digest(data@),
        s@.len() == 64,
{
    let d = sha256(data);
    proof {
        lemma_hex_len(d@);
    }
    to_hex(d.as_slice())
}

pub proof fn lemma_hex_len(b: Seq<u8>)
    ensures
        hex_lower(b).len() == 2 * b.len(),
    decreases b.len(),
{
    if b.len() > 0 {
        lemma_hex_len(b.drop_last());
    }
}

} // verus!
