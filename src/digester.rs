use md5;
use sha1::Sha1;
use sha2::{Digest, Sha256};
use vstd::prelude::*;

verus! {

/// The SHA-256 digest of `data`.
pub uninterp spec fn sha256_of(data: Seq<u8>) -> Seq<u8>;

/// The SHA-1 digest of `data`.
pub uninterp spec fn sha1_of(data: Seq<u8>) -> Seq<u8>;

/// The MD5 digest of `data`.
pub uninterp spec fn md5_of(data: Seq<u8>) -> Seq<u8>;

/// Relies on sha2's `Sha256` (through `Digest::digest`): the SHA-256 digest of `data`,
/// which is 32 bytes long.
#[verifier::external_body]
fn sha256_digest(data: &Vec<u8>) -> (r: Vec<u8>)
    ensures
        r@ == sha256_of(data@),
        r@.len() == 32,
{
    Sha256::digest(data).to_vec()
}

/// Relies on sha1's `Sha1` (through `Digest::digest`): the SHA-1 digest of `data`,
/// which is 20 bytes long.
#[verifier::external_body]
fn sha1_digest(data: &Vec<u8>) -> (r: Vec<u8>)
    ensures
        r@ == sha1_of(data@),
        r@.len() == 20,
{
    Sha1::digest(data).to_vec()
}

/// Relies on `md5::compute`: the MD5 digest of `data`, which is 16 bytes long.
#[verifier::external_body]
fn md5_digest(data: &Vec<u8>) -> (r: Vec<u8>)
    ensures
        r@ == md5_of(data@),
        r@.len() == 16,
{
    md5::compute(data).to_vec()
}

/// Collects the bytes of one chunk and hands out their digest; reusable from one chunk to
/// the next.
pub trait Hasher: Sized {
    /// The bytes pushed since construction or since the last `finalize`.
    spec fn pending(&self) -> Seq<u8>;

    /// The digest this hasher computes of `data`.
    spec fn digest_of(data: Seq<u8>) -> Seq<u8>;

    /// How many bytes a digest holds.
    spec fn digest_len() -> nat;

    /// Buffers one byte.
    fn push(&mut self, byte: u8)
        ensures
            final(self).pending() == old(self).pending().push(byte),
    ;

    /// The digest of the pending bytes; the hasher is then empty again.
    fn finalize(&mut self) -> (r: Vec<u8>)
        ensures
            r@ == Self::digest_of(old(self).pending()),
            r@.len() == Self::digest_len(),
            final(self).pending() == Seq::<u8>::empty(),
    ;
}

/// Chunk digests by SHA-256.
pub struct Sha256Hasher {
    buffer: Vec<u8>,
}

impl Sha256Hasher {
    /// An empty hasher with room for `max_chunk_size` bytes.
    pub fn new(max_chunk_size: usize) -> (r: Self)
        ensures
            r.pending() == Seq::<u8>::empty(),
    {
        Sha256Hasher { buffer: Vec::with_capacity(max_chunk_size) }
    }
}

impl Hasher for Sha256Hasher {
    closed spec fn pending(&self) -> Seq<u8> {
        self.buffer@
    }

    open spec fn digest_of(data: Seq<u8>) -> Seq<u8> {
        sha256_of(data)
    }

    open spec fn digest_len() -> nat {
        32
    }

    fn push(&mut self, byte: u8) {
        self.buffer.push(byte);
    }

    fn finalize(&mut self) -> (r: Vec<u8>) {
        let hash = sha256_digest(&self.buffer);
        self.buffer.clear();
        hash
    }
}

/// Chunk digests by SHA-1, which is no longer collision resistant against an attacker but
/// serves to compare versions of a file.
pub struct Sha1Hasher {
    buffer: Vec<u8>,
}

impl Sha1Hasher {
    /// An empty hasher with room for `max_chunk_size` bytes.
    pub fn new(max_chunk_size: usize) -> (r: Self)
        ensures
            r.pending() == Seq::<u8>::empty(),
    {
        Sha1Hasher { buffer: Vec::with_capacity(max_chunk_size) }
    }
}

impl Hasher for Sha1Hasher {
    closed spec fn pending(&self) -> Seq<u8> {
        self.buffer@
    }

    open spec fn digest_of(data: Seq<u8>) -> Seq<u8> {
        sha1_of(data)
    }

    open spec fn digest_len() -> nat {
        20
    }

    fn push(&mut self, byte: u8) {
        self.buffer.push(byte);
    }

    fn finalize(&mut self) -> (r: Vec<u8>) {
        let hash = sha1_digest(&self.buffer);
        self.buffer.clear();
        hash
    }
}

/// Chunk digests by MD5, which is no longer collision resistant against an attacker but
/// serves to compare versions of a file.
pub struct Md5Hasher {
    buffer: Vec<u8>,
}

impl Md5Hasher {
    /// An empty hasher with room for `max_chunk_size` bytes.
    pub fn new(max_chunk_size: usize) -> (r: Self)
        ensures
            r.pending() == Seq::<u8>::empty(),
    {
        Md5Hasher { buffer: Vec::with_capacity(max_chunk_size) }
    }
}

impl Hasher for Md5Hasher {
    closed spec fn pending(&self) -> Seq<u8> {
        self.buffer@
    }

    open spec fn digest_of(data: Seq<u8>) -> Seq<u8> {
        md5_of(data)
    }

    open spec fn digest_len() -> nat {
        16
    }

    fn push(&mut self, byte: u8) {
        self.buffer.push(byte);
    }

    fn finalize(&mut self) -> (r: Vec<u8>) {
        let hash = md5_digest(&self.buffer);
        self.buffer.clear();
        hash
    }
}

} // verus!
