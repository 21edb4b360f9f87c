//! The content store: maps a content hash to an encrypted block and
//! deduplicates identical plaintext.
//!
//! A block is never rewritten once stored (content addressing implies
//! write-once). The store itself never checks reference counts; deletion is
//! driven by the garbage collector through its owner.

use crate::crypto::{
    content_hash, content_hash_exec, lemma_xor_stream_involutive, open_block, seal, tag_matches,
    xor_stream, TAG_TWEAK,
};
use crate::hash::lemma_hash_one_byte_diff;
use crate::Error;
use vstd::prelude::*;

verus! {

/// One immutable, content-addressed block: the unit of encrypted storage.
pub struct StoredBlock {
    /// Keyed hash of the plaintext content.
    pub hash: u64,
    /// The sealed bytes.
    pub ciphertext: Vec<u8>,
    /// Authentication tag over the ciphertext.
    pub tag: u64,
    /// Length of the plaintext the block was sealed from.
    pub plaintext_len: u64,
}

/// The content store: a block region keyed by content hash.
pub struct ContentStore {
    pub blocks: Vec<StoredBlock>,
}

/// A block is well formed under `key` when its recorded length, hash and tag
/// are exactly what sealing its plaintext produces.
pub open spec fn block_wf(key: u64, b: StoredBlock) -> bool {
    &&& b.plaintext_len == b.ciphertext@.len()
    &&& b.hash == content_hash(key, xor_stream(key, b.ciphertext@))
    &&& tag_matches(key, b.ciphertext@, b.tag)
}

impl ContentStore {
    /// Whether a block with content hash `h` is stored.
    pub open spec fn has(self, h: u64) -> bool {
        exists|i: int| 0 <= i < self.blocks@.len() && self.blocks@[i].hash == h
    }

    /// The position of the block with hash `h` (unique when keys are
    /// distinct).
    pub open spec fn idx(self, h: u64) -> int {
        choose|i: int| 0 <= i < self.blocks@.len() && self.blocks@[i].hash == h
    }

    /// The stored block with hash `h`.
    pub open spec fn block_of(self, h: u64) -> StoredBlock {
        self.blocks@[self.idx(h)]
    }

    /// The stored ciphertext of hash `h`.
    pub open spec fn ct(self, h: u64) -> Seq<u8> {
        self.block_of(h).ciphertext@
    }

    /// The stored tag of hash `h`.
    pub open spec fn tag(self, h: u64) -> u64 {
        self.block_of(h).tag
    }

    /// The plaintext that decrypting the stored ciphertext of `h` yields.
    pub open spec fn plain(self, key: u64, h: u64) -> Seq<u8> {
        xor_stream(key, self.ct(h))
    }

    /// Whether the stored tag of `h` still authenticates its ciphertext.
    pub open spec fn tag_ok(self, key: u64, h: u64) -> bool {
        tag_matches(key, self.ct(h), self.tag(h))
    }

    /// Number of stored blocks.
    pub open spec fn num_blocks(self) -> nat {
        self.blocks@.len()
    }

    /// Content addressing: at most one block per hash.
    pub open spec fn keys_distinct(self) -> bool {
        forall|i: int, j: int|
            0 <= i < j < self.blocks@.len() ==> self.blocks@[i].hash != self.blocks@[j].hash
    }

    /// The store invariant: distinct hashes, every block sealed consistently.
    pub open spec fn wf(self, key: u64) -> bool {
        &&& self.keys_distinct()
        &&& forall|i: int| 0 <= i < self.blocks@.len() ==> block_wf(key, #[trigger] self.blocks@[i])
    }

    /// With distinct keys, any position holding `h` is the position `idx`
    /// picks.
    pub proof fn lemma_idx_unique(self, h: u64, i: int)
        requires
            self.keys_distinct(),
            0 <= i < self.blocks@.len(),
            self.blocks@[i].hash == h,
        ensures
            self.has(h),
            self.idx(h) == i,
    {
        assert(self.has(h));
        let j = self.idx(h);
        assert(0 <= j < self.blocks@.len() && self.blocks@[j].hash == h);
        if j < i {
            assert(false);
        } else if i < j {
            assert(false);
        }
    }

    /// An empty store.
    pub fn new() -> (s: ContentStore)
        ensures
            s.blocks@.len() == 0,
            s.wf(0) && forall|k: u64| s.wf(k),
            forall|h: u64| !s.has(h),
    {
        ContentStore { blocks: Vec::new() }
    }

    /// Number of stored blocks.
    pub fn len(&self) -> (n: usize)
        ensures
            n == self.num_blocks(),
    {
        self.blocks.len()
    }

    /// Whether a block with hash `h` is stored.
    #[verifier::loop_isolation(false)]
    pub fn contains(&self, h: u64) -> (r: bool)
        ensures
            r == self.has(h),
    {
        let n = self.blocks.len();
        let mut i: usize = 0;
        while i < n
            invariant
                n == self.blocks@.len(),
                i <= n,
                forall|k: int| 0 <= k < i ==> self.blocks@[k].hash != h,
            decreases n - i,
        {
            if self.blocks[i].hash == h {
                return true;
            }
            i += 1;
        }
        false
    }

    /// Seal `p` and store it under its content hash; a no-op when a block
    /// with that hash is already present (deduplication). Returns the hash;
    /// the caller still owes a reference-count increment either way.
    #[verifier::loop_isolation(false)]
    pub fn put(&mut self, key: u64, p: &Vec<u8>) -> (h: u64)
        requires
            old(self).wf(key),
        ensures
            final(self).wf(key),
            h == content_hash(key, p@),
            final(self).has(h),
            old(self).has(h) ==> final(self).blocks@ == old(self).blocks@,
            !old(self).has(h) ==> {
                &&& final(self).num_blocks() == old(self).num_blocks() + 1
                &&& final(self).plain(key, h) == p@
                &&& forall|h2: u64| h2 != h ==> (final(self).has(h2) <==> old(self).has(h2))
                &&& forall|h2: u64|
                    h2 != h && old(self).has(h2) ==> final(self).block_of(h2) == old(self).block_of(h2)
            },
            forall|h2: u64| old(self).has(h2) ==> final(self).has(h2),
            forall|h2: u64| final(self).has(h2) ==> h2 == h || old(self).has(h2),
            put_post(*old(self), *final(self), key, p@, h),
    {
        let h = content_hash_exec(key, p);
        let n = self.blocks.len();
        let mut i: usize = 0;
        while i < n
            invariant
                n == self.blocks@.len(),
                i <= n,
                self.blocks@ == old(self).blocks@,
                forall|k: int| 0 <= k < i ==> self.blocks@[k].hash != h,
            decreases n - i,
        {
            if self.blocks[i].hash == h {
                proof {
                    self.lemma_idx_unique(h, i as int);
                }
                return h;
            }
            i += 1;
        }
        let (ct, tag) = seal(key, p);
        let blk = StoredBlock { hash: h, ciphertext: ct, tag, plaintext_len: p.len() as u64 };
        self.blocks.push(blk);
        proof {
            let s0 = old(self).blocks@;
            let s1 = self.blocks@;
            let ni = s0.len() as int;
            assert(s1[ni].hash == h);
            assert(forall|k: int| 0 <= k < ni ==> s1[k] == s0[k]);
            assert(self.keys_distinct());
            self.lemma_idx_unique(h, ni);
            lemma_xor_stream_involutive(key, p@);
            assert(block_wf(key, s1[ni]));
            assert(self.wf(key));
            assert(self.plain(key, h) =~= p@);
            assert forall|h2: u64| h2 != h && old(self).has(h2) implies self.block_of(h2)
                == old(self).block_of(h2) by {
                let i0 = old(self).idx(h2);
                assert(0 <= i0 < ni && s0[i0].hash == h2);
                self.lemma_idx_unique(h2, i0);
            }
            assert forall|h2: u64| h2 != h && self.has(h2) implies old(self).has(h2) by {
                let i1 = self.idx(h2);
                assert(0 <= i1 < s1.len() && s1[i1].hash == h2);
                assert(i1 != ni);
                assert(s0[i1].hash == h2);
            }
        }
        h
    }

    /// Open the stored block with hash `h`. Fails with `NotFound` when the
    /// hash is unknown and with `IntegrityError` exactly when the stored
    /// bytes no longer match their tag (tampered or corrupted storage); a
    /// tampered block is never returned as plaintext.
    #[verifier::loop_isolation(false)]
    pub fn get(&self, key: u64, h: u64) -> (r: Result<Vec<u8>, Error>)
        requires
            self.keys_distinct(),
        ensures
            match r {
                Ok(p) => self.has(h) && self.tag_ok(key, h) && p@ == self.plain(key, h),
                Err(e) => match e {
                    Error::NotFound => !self.has(h),
                    Error::IntegrityError => self.has(h) && !self.tag_ok(key, h),
                    _ => false,
                },
            },
    {
        let n = self.blocks.len();
        let mut i: usize = 0;
        while i < n
            invariant
                n == self.blocks@.len(),
                i <= n,
                forall|k: int| 0 <= k < i ==> self.blocks@[k].hash != h,
            decreases n - i,
        {
            if self.blocks[i].hash == h {
                proof {
                    self.lemma_idx_unique(h, i as int);
                }
                let r = open_block(key, &self.blocks[i].ciphertext, self.blocks[i].tag);
                match r {
                    Ok(p) => {
                        return Ok(p);
                    },
                    Err(_) => {
                        return Err(Error::IntegrityError);
                    },
                }
            }
            i += 1;
        }
        Err(Error::NotFound)
    }

    /// Physically remove the block with hash `h`. Only ever invoked by the
    /// garbage collector, and only once the reference counter confirms zero
    /// live references; the store itself does not check counts.
    #[verifier::loop_isolation(false)]
    pub fn delete(&mut self, h: u64) -> (r: Result<(), Error>)
        requires
            old(self).keys_distinct(),
        ensures
            final(self).keys_distinct(),
            !final(self).has(h),
            r is Ok <==> old(self).has(h),
            !old(self).has(h) ==> final(self).blocks@ == old(self).blocks@ && r == Err::<
                (),
                Error,
            >(Error::NotFound),
            old(self).has(h) ==> final(self).num_blocks() + 1 == old(self).num_blocks(),
            forall|h2: u64| h2 != h ==> (final(self).has(h2) <==> old(self).has(h2)),
            forall|h2: u64|
                h2 != h && old(self).has(h2) ==> final(self).block_of(h2) == old(self).block_of(
                    h2,
                ),
            forall|k: u64| old(self).wf(k) ==> final(self).wf(k),
    {
        let n = self.blocks.len();
        let mut i: usize = 0;
        while i < n
            invariant
                n == self.blocks@.len(),
                i <= n,
                self.blocks@ == old(self).blocks@,
                forall|k: int| 0 <= k < i ==> self.blocks@[k].hash != h,
            decreases n - i,
        {
            if self.blocks[i].hash == h {
                proof {
                    self.lemma_idx_unique(h, i as int);
                }
                self.blocks.remove(i);
                proof {
                    let s0 = old(self).blocks@;
                    let s1 = self.blocks@;
                    assert(s1 == s0.remove(i as int));
                    assert(forall|k: int| 0 <= k < i ==> s1[k] == s0[k]);
                    assert(forall|k: int| i <= k < s1.len() ==> s1[k] == s0[k + 1]);
                    assert forall|h2: u64| h2 != h && old(self).has(h2) implies self.has(h2)
                        && self.block_of(h2) == old(self).block_of(h2) by {
                        let j = old(self).idx(h2);
                        assert(0 <= j < s0.len() && s0[j].hash == h2);
                        if j < i {
                            self.lemma_idx_unique(h2, j);
                        } else {
                            assert(j > i);
                            assert(s1[j - 1] == s0[j]);
                            self.lemma_idx_unique(h2, j - 1);
                        }
                    }
                    assert forall|h2: u64| h2 != h && self.has(h2) implies old(self).has(h2) by {
                        let k = self.idx(h2);
                        if k < i {
                            assert(s0[k].hash == h2);
                        } else {
                            assert(s0[k + 1].hash == h2);
                        }
                    }
                    assert forall|kk: u64| old(self).wf(kk) implies self.wf(kk) by {
                        assert forall|t: int| 0 <= t < s1.len() implies block_wf(
                            kk,
                            #[trigger] s1[t],
                        ) by {
                            if t < i {
                                assert(s1[t] == s0[t]);
                            } else {
                                assert(s1[t] == s0[t + 1]);
                            }
                        }
                    }
                    assert forall|h2: u64| self.has(h2) implies h2 != h by {
                        let k = self.idx(h2);
                        if k < i {
                        } else {
                            assert(s0[k + 1].hash == h2);
                        }
                    }
                }
                return Ok(());
            }
            i += 1;
        }
        Err(Error::NotFound)
    }

    /// Overwrite one byte of a stored ciphertext in place. This models the
    /// untrusted backing medium corrupting a block; the engine itself never
    /// rewrites stored bytes.
    #[verifier::loop_isolation(false)]
    pub fn corrupt_byte(&mut self, h: u64, i: usize, b: u8)
        requires
            old(self).keys_distinct(),
            old(self).has(h),
            i < old(self).ct(h).len(),
            b != old(self).ct(h)[i as int],
        ensures
            final(self).keys_distinct(),
            final(self).num_blocks() == old(self).num_blocks(),
            forall|h2: u64| final(self).has(h2) <==> old(self).has(h2),
            final(self).ct(h) == old(self).ct(h).update(i as int, b),
            final(self).tag(h) == old(self).tag(h),
            forall|h2: u64|
                h2 != h && old(self).has(h2) ==> final(self).block_of(h2) == old(self).block_of(
                    h2,
                ),
    {
        let n = self.blocks.len();
        let mut k: usize = 0;
        while k < n
            invariant
                n == self.blocks@.len(),
                k <= n,
                self.blocks@ == old(self).blocks@,
                forall|j: int| 0 <= j < k ==> self.blocks@[j].hash != h,
            decreases n - k,
        {
            if self.blocks[k].hash == h {
                proof {
                    old(self).lemma_idx_unique(h, k as int);
                }
                let mut blk = self.blocks.remove(k);
                blk.ciphertext.set(i, b);
                self.blocks.insert(k, blk);
                proof {
                    let s0 = old(self).blocks@;
                    let s1 = self.blocks@;
                    assert(s1 =~= s0.update(k as int, s1[k as int]));
                    assert(s1[k as int].hash == h);
                    assert(forall|j: int| 0 <= j < s1.len() && j != k ==> s1[j] == s0[j]);
                    assert(self.keys_distinct());
                    self.lemma_idx_unique(h, k as int);
                    assert(self.ct(h) =~= old(self).ct(h).update(i as int, b));
                    assert forall|h2: u64| self.has(h2) implies old(self).has(h2) by {
                        let j = self.idx(h2);
                        assert(s0[j].hash == h2);
                    }
                    assert forall|h2: u64| old(self).has(h2) implies self.has(h2) by {
                        let j = old(self).idx(h2);
                        assert(s1[j].hash == h2);
                    }
                    assert forall|h2: u64| h2 != h && old(self).has(h2) implies self.block_of(h2)
                        == old(self).block_of(h2) by {
                        let j = old(self).idx(h2);
                        assert(0 <= j < s0.len() && s0[j].hash == h2);
                        assert(j != k);
                        self.lemma_idx_unique(h2, j);
                    }
                }
                return ;
            }
            k += 1;
        }
        proof {
            assert(false);
        }
    }
}

/// Round trip through the store: a well-formed stored block opens to exactly
/// the plaintext it was sealed from, and its content hash matches that
/// plaintext. Together with `put` and `get`, for any plaintext `p`:
/// `get(put(p))` yields `p` again.
pub proof fn lemma_wf_store_roundtrip(s: ContentStore, key: u64, h: u64)
    requires
        s.wf(key),
        s.has(h),
    ensures
        s.tag_ok(key, h),
        h == content_hash(key, s.plain(key, h)),
        crate::crypto::open_spec(key, s.ct(h), s.tag(h)) == Some(s.plain(key, h)),
{
    let i = s.idx(h);
    assert(block_wf(key, s.blocks@[i]));
}

/// The transition `put` makes, as stated in its contract.
pub open spec fn put_post(pre: ContentStore, post: ContentStore, key: u64, p: Seq<u8>, h: u64) -> bool {
    &&& h == content_hash(key, p)
    &&& post.has(h)
    &&& (pre.has(h) ==> post.blocks@ == pre.blocks@)
    &&& (!pre.has(h) ==> post.num_blocks() == pre.num_blocks() + 1 && post.plain(key, h) == p)
}

/// Round trip across `put`: when no previously stored block collides with
/// `p`'s content hash, the block stored for `p` decrypts to `p` again, so a
/// subsequent `get` on the returned hash yields `p`.
pub proof fn lemma_put_get_roundtrip(
    pre: ContentStore,
    post: ContentStore,
    key: u64,
    p: Seq<u8>,
    h: u64,
)
    requires
        pre.wf(key),
        post.wf(key),
        put_post(pre, post, key, p, h),
        pre.has(h) ==> pre.plain(key, h) == p,
    ensures
        post.plain(key, h) == p,
        post.tag_ok(key, h),
        crate::crypto::open_spec(key, post.ct(h), post.tag(h)) == Some(p),
{
    lemma_wf_store_roundtrip(post, key, h);
}

/// Deduplication does not grow the store: a second `put` of content already
/// present stores nothing new, so a retried transaction re-staging the same
/// plaintext costs no storage.
pub proof fn lemma_put_dedup(pre: ContentStore, post: ContentStore, key: u64, p: Seq<u8>, h: u64)
    requires
        put_post(pre, post, key, p, h),
        pre.has(content_hash(key, p)),
    ensures
        post.blocks@ == pre.blocks@,
        post.num_blocks() == pre.num_blocks(),
{
}

/// Tampering one byte of a stored ciphertext is always detected: the tag no
/// longer authenticates the block, so `get` fails with `IntegrityError` and
/// never returns a wrong plaintext.
pub proof fn lemma_tamper_detected(
    pre: ContentStore,
    post: ContentStore,
    key: u64,
    h: u64,
    i: int,
    b: u8,
)
    requires
        pre.wf(key),
        pre.has(h),
        0 <= i < pre.ct(h).len(),
        b != pre.ct(h)[i],
        post.has(h),
        post.ct(h) == pre.ct(h).update(i, b),
        post.tag(h) == pre.tag(h),
    ensures
        !post.tag_ok(key, h),
{
    let i0 = pre.idx(h);
    assert(block_wf(key, pre.blocks@[i0]));
    assert(tag_matches(key, pre.ct(h), pre.tag(h)));
    let ct1 = pre.ct(h);
    let ct2 = post.ct(h);
    assert(ct2[i] != ct1[i]);
    assert(forall|k: int| 0 <= k < ct1.len() && k != i ==> ct2[k] == ct1[k]);
    lemma_hash_one_byte_diff(key ^ TAG_TWEAK, ct1, ct2, i);
}

} // verus!
