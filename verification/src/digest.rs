//! Digests of bytes, computed by the `md-5` and `sha2` crates.

use crate::text::{hex_bytes, hex_string};
use sha2::Digest;
use vstd::prelude::*;

verus! {

/// The MD5 digest of some bytes.
pub uninterp spec fn md5_of(data: Seq<u8>) -> [u8; 16];

/// The SHA-256 digest of some bytes.
pub uninterp spec fn sha256_of(data: Seq<u8>) -> [u8; 32];

/// `md5::Md5::digest`: the digest of the bytes, sixteen bytes long.
#[verifier::external_body]
fn md5_digest(data: &[u8]) -> (r: Vec<u8>)
    ensures
        r@ == md5_of(data@)@,
{
    md5::Md5::digest(data).to_vec()
}

/// A running SHA-256 digest: a `sha2::Sha256`, whose contents are the bytes
/// it has taken in.
#[verifier::external_body]
pub struct Hasher {
    inner: sha2::Sha256,
}

/// The bytes that a running digest has taken in.
pub uninterp spec fn absorbed(h: Hasher) -> Seq<u8>;

/// `sha2::Sha256::new`: a running digest of no bytes.
#[verifier::external_body]
fn sha256_new() -> (r: Hasher)
    ensures
        absorbed(r) == Seq::<u8>::empty(),
{
    Hasher { inner: sha2::Sha256::new() }
}

/// `sha2::Sha256::update`: takes in more bytes.
#[verifier::external_body]
fn sha256_update(h: &mut Hasher, data: &[u8])
    ensures
        absorbed(*final(h)) == absorbed(*old(h)) + data@,
{
    h.inner.update(data)
}

/// `sha2::Sha256::finalize`: the digest of the bytes taken in, thirty-two
/// bytes long.
#[verifier::external_body]
fn sha256_finish(h: Hasher) -> (r: Vec<u8>)
    ensures
        r@ == sha256_of(absorbed(h))@,
{
    h.inner.finalize().to_vec()
}

/// The MD5 digest in hexadecimal.
pub fn md5_hex(data: &[u8]) -> (r: String)
    ensures
        r@ == hex_bytes(md5_of(data@)@),
        r@.len() == 32,
{
    let d = md5_digest(data);
    proof {
        lemma_hex_len(d@);
    }
    hex_string(d.as_slice())
}

/// Two digits for each byte.
pub proof fn lemma_hex_len(b: Seq<u8>)
    ensures
        hex_bytes(b).len() == 2 * b.len(),
    decreases b.len(),
{
    if b.len() > 0 {
        lemma_hex_len(b.drop_last());
    }
}

impl Hasher {
    /// The bytes taken in so far.
    pub open spec fn view(&self) -> Seq<u8> {
        absorbed(*self)
    }

    pub fn new() -> (r: Self)
        ensures
            r@ == Seq::<u8>::empty(),
    {
        sha256_new()
    }

    /// Takes in more bytes.
    pub fn update(&mut self, data: &[u8])
        ensures
            final(self)@ == old(self)@ + data@,
    {
        sha256_update(self, data);
    }

    /// The digest in hexadecimal.
    pub fn finish(self) -> (r: String)
        ensures
            r@ == hex_bytes(sha256_of(self@)@),
            r@.len() == 64,
    {
        let d = sha256_finish(self);
        proof {
            lemma_hex_len(d@);
        }
        hex_string(d.as_slice())
    }
}

} // verus!
