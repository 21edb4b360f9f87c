//! The engine's crypto provider: seal and open blocks, compute content
//! hashes.
//!
//! The provider is deliberately lightweight — a keyed byte stream for
//! confidentiality and a keyed tag for authentication — and the rest of the
//! engine depends only on its interface: `seal(plaintext)` yields a
//! ciphertext and tag, `open(ciphertext, tag)` yields the plaintext or an
//! authentication failure, and `content_hash` is a deterministic keyed hash
//! of the plaintext.

use crate::hash::{hash_bytes, keyed_hash, lemma_hash_one_byte_diff};
use crate::Error;
use vstd::prelude::*;

verus! {

/// Odd multiplier of the keystream position mix.
pub const KS_MULT: u64 = 0x9e3779b97f4a7c15;

/// Tweak that separates the authentication-tag hash from the content hash.
pub const TAG_TWEAK: u64 = 0x5deece66d;

/// `2^64` as an exec-usable constant.
const M64_128: u128 = 0x10000000000000000;

/// The keystream byte at position `i` under `key`.
pub open spec fn ks_byte(key: u64, i: int) -> u8 {
    (((i * KS_MULT + key) % 0x10000000000000000) % 256) as u8
}

/// XOR a byte sequence against the keystream; its own inverse.
pub open spec fn xor_stream(key: u64, s: Seq<u8>) -> Seq<u8> {
    Seq::new(s.len(), |i: int| s[i] ^ ks_byte(key, i))
}

/// The ciphertext that sealing `p` under `key` produces.
pub open spec fn seal_ct(key: u64, p: Seq<u8>) -> Seq<u8> {
    xor_stream(key, p)
}

/// The authentication tag that sealing `p` under `key` produces.
pub open spec fn seal_tag(key: u64, p: Seq<u8>) -> u64 {
    keyed_hash(key ^ TAG_TWEAK, xor_stream(key, p))
}

/// Whether `tag` authenticates `ct` under `key`.
pub open spec fn tag_matches(key: u64, ct: Seq<u8>, tag: u64) -> bool {
    keyed_hash(key ^ TAG_TWEAK, ct) == tag
}

/// What `open` yields: the decrypted plaintext, or nothing when the tag does
/// not authenticate the ciphertext.
pub open spec fn open_spec(key: u64, ct: Seq<u8>, tag: u64) -> Option<Seq<u8>> {
    if tag_matches(key, ct, tag) {
        Some(xor_stream(key, ct))
    } else {
        None
    }
}

/// The content hash of a plaintext: deterministic, so identical plaintext
/// always yields the identical hash (content addressing).
pub open spec fn content_hash(key: u64, p: Seq<u8>) -> u64 {
    keyed_hash(key, p)
}

fn ks_byte_exec(key: u64, i: usize) -> (b: u8)
    ensures
        b == ks_byte(key, i as int),
{
    proof {
        vstd::arithmetic::mul::lemma_mul_upper_bound(
            i as int,
            u64::MAX as int,
            KS_MULT as int,
            KS_MULT as int,
        );
    }
    (((i as u128 * KS_MULT as u128 + key as u128) % M64_128) % 256) as u8
}

/// XOR `data` against the keystream of `key`.
pub fn xor_bytes(key: u64, data: &Vec<u8>) -> (r: Vec<u8>)
    ensures
        r@ == xor_stream(key, data@),
{
    let n: usize = data.len();
    let mut out: Vec<u8> = Vec::new();
    let mut i: usize = 0;
    while i < n
        invariant
            n == data@.len(),
            i <= n,
            out@ == xor_stream(key, data@).subrange(0, i as int),
        decreases n - i,
    {
        let b = data[i] ^ ks_byte_exec(key, i);
        out.push(b);
        proof {
            assert(out@ =~= xor_stream(key, data@).subrange(0, i + 1));
        }
        i += 1;
    }
    proof {
        assert(xor_stream(key, data@).subrange(0, n as int) =~= xor_stream(key, data@));
    }
    out
}

/// Compute the content hash of a plaintext.
pub fn content_hash_exec(key: u64, p: &Vec<u8>) -> (h: u64)
    ensures
        h == content_hash(key, p@),
{
    hash_bytes(key, p)
}

/// Seal a plaintext: encrypt it and compute its authentication tag.
pub fn seal(key: u64, p: &Vec<u8>) -> (r: (Vec<u8>, u64))
    ensures
        r.0@ == seal_ct(key, p@),
        r.1 == seal_tag(key, p@),
{
    let ct = xor_bytes(key, p);
    let tag = hash_bytes(key ^ TAG_TWEAK, &ct);
    (ct, tag)
}

/// Open a sealed block: authenticate the ciphertext against its tag, then
/// decrypt. Fails with `IntegrityError` exactly when the tag does not match.
pub fn open_block(key: u64, ct: &Vec<u8>, tag: u64) -> (r: Result<Vec<u8>, Error>)
    ensures
        match r {
            Ok(p) => open_spec(key, ct@, tag) == Some(p@),
            Err(e) => e == Error::IntegrityError && open_spec(key, ct@, tag) is None,
        },
{
    let computed = hash_bytes(key ^ TAG_TWEAK, ct);
    if computed != tag {
        Err(Error::IntegrityError)
    } else {
        Ok(xor_bytes(key, ct))
    }
}

/// XOR against the keystream is an involution.
pub proof fn lemma_xor_stream_involutive(key: u64, s: Seq<u8>)
    ensures
        xor_stream(key, xor_stream(key, s)) == s,
{
    let once = xor_stream(key, s);
    let twice = xor_stream(key, once);
    assert forall|i: int| 0 <= i < s.len() implies twice[i] == s[i] by {
        let k = ks_byte(key, i);
        let b = s[i];
        assert((b ^ k) ^ k == b) by (bit_vector);
    }
    assert(twice =~= s);
}

/// Round trip: opening a sealed block yields the sealed plaintext again.
pub proof fn lemma_seal_open_roundtrip(key: u64, p: Seq<u8>)
    ensures
        open_spec(key, seal_ct(key, p), seal_tag(key, p)) == Some(p),
{
    lemma_xor_stream_involutive(key, p);
}

/// Soundness of `open`: any plaintext it accepts re-seals to exactly the
/// bytes and tag that were opened. `open` never yields a plaintext other
/// than the unique preimage of what is stored.
pub proof fn lemma_open_sound(key: u64, ct: Seq<u8>, tag: u64, p: Seq<u8>)
    requires
        open_spec(key, ct, tag) == Some(p),
    ensures
        seal_ct(key, p) == ct,
        seal_tag(key, p) == tag,
{
    lemma_xor_stream_involutive(key, ct);
}

/// Tampering a single ciphertext byte is always detected: the tag the block
/// was sealed with no longer authenticates the changed bytes.
pub proof fn lemma_open_tamper(key: u64, ct: Seq<u8>, tag: u64, ct2: Seq<u8>, j: int)
    requires
        tag_matches(key, ct, tag),
        ct2.len() == ct.len(),
        0 <= j < ct.len(),
        ct2[j] != ct[j],
        forall|i: int| 0 <= i < ct.len() && i != j ==> ct2[i] == ct[i],
    ensures
        open_spec(key, ct2, tag) is None,
{
    lemma_hash_one_byte_diff(key ^ TAG_TWEAK, ct, ct2, j);
}

} // verus!
