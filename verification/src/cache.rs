//! The block cache: a bounded in-memory cache of decrypted block contents,
//! keyed by content hash.
//!
//! The cache holds plaintext, never ciphertext, so repeated reads avoid
//! repeated decrypt-and-authenticate cost. It is transient and
//! reconstructible — never the source of truth. Entries are kept in recency
//! order, least recently used first; inserting beyond capacity evicts the
//! least recently used entry.

use vstd::prelude::*;

verus! {

/// One cached decrypted block.
pub struct CacheEntry {
    pub hash: u64,
    pub plaintext: Vec<u8>,
}

/// The bounded LRU cache. `entries` is ordered least recently used first.
pub struct BlockCache {
    pub capacity: usize,
    pub entries: Vec<CacheEntry>,
}

/// What one insertion does to the recency order `s` of a cache with capacity
/// `cap`: an already-present hash moves to the most recent end, a fresh one
/// is appended, and the least recently used entry is evicted when the cache
/// would exceed its capacity.
pub open spec fn cache_insert_model(s: Seq<u64>, h: u64, cap: nat) -> Seq<u64> {
    let base = if s.contains(h) {
        s.remove(s.index_of(h))
    } else {
        s
    };
    let pushed = base.push(h);
    if pushed.len() > cap {
        pushed.subrange(1, pushed.len() as int)
    } else {
        pushed
    }
}

/// The recency order after inserting each hash of `hs` in turn.
pub open spec fn cache_fill(s: Seq<u64>, hs: Seq<u64>, cap: nat) -> Seq<u64>
    decreases hs.len(),
{
    if hs.len() == 0 {
        s
    } else {
        cache_insert_model(cache_fill(s, hs.drop_last(), cap), hs.last(), cap)
    }
}

impl BlockCache {
    /// The cached hashes in recency order, least recently used first.
    pub open spec fn hashes(self) -> Seq<u64> {
        Seq::new(self.entries@.len(), |i: int| self.entries@[i].hash)
    }

    /// Whether `h` is cached.
    pub open spec fn has(self, h: u64) -> bool {
        exists|i: int| 0 <= i < self.entries@.len() && self.entries@[i].hash == h
    }

    /// The position of the entry for `h` (unique under the invariant).
    pub open spec fn idx(self, h: u64) -> int {
        choose|i: int| 0 <= i < self.entries@.len() && self.entries@[i].hash == h
    }

    /// The cached plaintext for `h`.
    pub open spec fn plain_of(self, h: u64) -> Seq<u8> {
        self.entries@[self.idx(h)].plaintext@
    }

    /// The cache invariant: distinct hashes, never more entries than the
    /// capacity allows.
    pub open spec fn wf(self) -> bool {
        &&& forall|i: int, j: int|
            0 <= i < j < self.entries@.len() ==> self.entries@[i].hash != self.entries@[j].hash
        &&& self.entries@.len() <= self.capacity
    }

    /// With distinct keys, any position holding `h` is the position `idx`
    /// picks.
    pub proof fn lemma_idx_unique(self, h: u64, i: int)
        requires
            self.wf(),
            0 <= i < self.entries@.len(),
            self.entries@[i].hash == h,
        ensures
            self.has(h),
            self.idx(h) == i,
    {
        assert(self.has(h));
        let j = self.idx(h);
        assert(0 <= j < self.entries@.len() && self.entries@[j].hash == h);
        if j < i {
            assert(false);
        } else if i < j {
            assert(false);
        }
    }

    /// An empty cache that will hold at most `capacity` entries.
    pub fn new(capacity: usize) -> (c: BlockCache)
        ensures
            c.wf(),
            c.capacity == capacity,
            c.entries@.len() == 0,
            forall|h: u64| !c.has(h),
    {
        BlockCache { capacity, entries: Vec::new() }
    }

    /// Number of cached entries.
    pub fn len(&self) -> (n: usize)
        ensures
            n == self.entries@.len(),
    {
        self.entries.len()
    }

    /// Whether `h` is cached, without refreshing recency.
    #[verifier::loop_isolation(false)]
    pub fn contains(&self, h: u64) -> (r: bool)
        ensures
            r == self.has(h),
    {
        let n = self.entries.len();
        let mut i: usize = 0;
        while i < n
            invariant
                n == self.entries@.len(),
                i <= n,
                forall|k: int| 0 <= k < i ==> self.entries@[k].hash != h,
            decreases n - i,
        {
            if self.entries[i].hash == h {
                return true;
            }
            i += 1;
        }
        false
    }

    /// Look `h` up; a hit refreshes its recency and returns a copy of the
    /// cached plaintext.
    #[verifier::loop_isolation(false)]
    pub fn lookup(&mut self, h: u64) -> (r: Option<Vec<u8>>)
        requires
            old(self).wf(),
        ensures
            final(self).wf(),
            final(self).capacity == old(self).capacity,
            r is Some <==> old(self).has(h),
            r is None ==> final(self).entries@ == old(self).entries@,
            r matches Some(p) ==> {
                &&& p@ == old(self).plain_of(h)
                &&& final(self).hashes() == cache_insert_model(
                    old(self).hashes(),
                    h,
                    old(self).capacity as nat,
                )
                &&& forall|h2: u64| final(self).has(h2) <==> old(self).has(h2)
                &&& forall|h2: u64|
                    final(self).has(h2) ==> final(self).plain_of(h2) == old(self).plain_of(h2)
            },
    {
        let n = self.entries.len();
        let mut i: usize = 0;
        while i < n
            invariant
                n == self.entries@.len(),
                i <= n,
                self.capacity == old(self).capacity,
                self.entries@ == old(self).entries@,
                forall|k: int| 0 <= k < i ==> self.entries@[k].hash != h,
            decreases n - i,
        {
            if self.entries[i].hash == h {
                proof {
                    old(self).lemma_idx_unique(h, i as int);
                }
                let e = self.entries.remove(i);
                let p = copy_bytes(&e.plaintext);
                self.entries.push(e);
                proof {
                    let s0 = old(self).entries@;
                    let s1 = self.entries@;
                    let ni = s1.len() - 1;
                    assert(s1 =~= s0.remove(i as int).push(s0[i as int]));
                    assert(forall|k: int| 0 <= k < i ==> s1[k] == s0[k]);
                    assert(forall|k: int| i <= k < ni ==> s1[k] == s0[k + 1]);
                    assert(s1[ni] == s0[i as int]);
                    assert(self.wf());
                    let hs0 = old(self).hashes();
                    assert(hs0.contains(h)) by {
                        assert(hs0[i as int] == h);
                    }
                    let im = hs0.index_of(h);
                    assert(0 <= im < hs0.len() && hs0[im] == h);
                    assert(im == i);
                    assert(self.hashes() =~= cache_insert_model(
                        hs0,
                        h,
                        old(self).capacity as nat,
                    ));
                    assert forall|h2: u64| self.has(h2) implies old(self).has(h2) by {
                        let k = self.idx(h2);
                        if k < i {
                            assert(s0[k].hash == h2);
                        } else if k < ni {
                            assert(s0[k + 1].hash == h2);
                        } else {
                            assert(s0[i as int].hash == h2);
                        }
                    }
                    assert forall|h2: u64| old(self).has(h2) implies self.has(h2)
                        && self.plain_of(h2) == old(self).plain_of(h2) by {
                        let k = old(self).idx(h2);
                        assert(s0[k].hash == h2);
                        if k < i {
                            self.lemma_idx_unique(h2, k);
                        } else if k == i {
                            self.lemma_idx_unique(h2, ni);
                        } else {
                            assert(s1[k - 1] == s0[k]);
                            self.lemma_idx_unique(h2, k - 1);
                        }
                    }
                }
                return Some(p);
            }
            i += 1;
        }
        None
    }

    /// Cache the plaintext `p` for `h`, evicting the least recently used
    /// entry when the capacity would be exceeded.
    #[verifier::loop_isolation(false)]
    pub fn insert(&mut self, h: u64, p: Vec<u8>)
        requires
            old(self).wf(),
        ensures
            final(self).wf(),
            final(self).capacity == old(self).capacity,
            final(self).hashes() == cache_insert_model(
                old(self).hashes(),
                h,
                old(self).capacity as nat,
            ),
            old(self).capacity > 0 ==> final(self).has(h) && final(self).plain_of(h) == p@,
            forall|h2: u64|
                h2 != h && final(self).has(h2) ==> old(self).has(h2) && final(self).plain_of(h2)
                    == old(self).plain_of(h2),
    {
        let ghost hs0 = old(self).hashes();
        let ghost cap = old(self).capacity as nat;
        let n = self.entries.len();
        let mut i: usize = 0;
        let mut found: bool = false;
        while !found && i < n
            invariant
                n == old(self).entries@.len(),
                i <= n,
                self.capacity == old(self).capacity,
                forall|k: int| 0 <= k < i ==> old(self).entries@[k].hash != h,
                !found ==> self.entries@ == old(self).entries@,
                found ==> i < n && old(self).entries@[i as int].hash == h && self.entries@
                    == old(self).entries@.remove(i as int),
            decreases n - i + (if found {
                0int
            } else {
                1int
            }),
        {
            if self.entries[i].hash == h {
                self.entries.remove(i);
                found = true;
            } else {
                i += 1;
            }
        }
        proof {
            if found {
                old(self).lemma_idx_unique(h, i as int);
                let im = hs0.index_of(h);
                assert(hs0[i as int] == h);
                assert(hs0.contains(h));
                assert(0 <= im < hs0.len() && hs0[im] == h);
                assert(old(self).entries@[im].hash == h);
                old(self).lemma_idx_unique(h, im);
                assert(im == i);
            } else {
                assert(!old(self).has(h));
                assert(!hs0.contains(h)) by {
                    if hs0.contains(h) {
                        let k = choose|k: int| 0 <= k < hs0.len() && hs0[k] == h;
                        assert(old(self).entries@[k].hash == h);
                    }
                }
            }
        }
        let ghost smid = self.entries@;
        self.entries.push(CacheEntry { hash: h, plaintext: p });
        if self.entries.len() > self.capacity {
            self.entries.remove(0);
            proof {
                assert(self.entries@ =~= smid.push(CacheEntry { hash: h, plaintext: p }).subrange(
                    1,
                    smid.len() as int + 1,
                ));
            }
        }
        proof {
            let s1 = self.entries@;
            let base = if hs0.contains(h) {
                hs0.remove(hs0.index_of(h))
            } else {
                hs0
            };
            assert(Seq::new(smid.len(), |k: int| smid[k].hash) =~= base);
            let pushed = base.push(h);
            if pushed.len() > cap {
                assert(self.hashes() =~= pushed.subrange(1, pushed.len() as int));
            } else {
                assert(self.hashes() =~= pushed);
            }
            assert(self.wf());
            if self.capacity > 0 {
                let ni = s1.len() - 1;
                assert(s1[ni].hash == h);
                self.lemma_idx_unique(h, ni);
            }
            assert forall|h2: u64| h2 != h && self.has(h2) implies old(self).has(h2)
                && self.plain_of(h2) == old(self).plain_of(h2) by {
                let k = self.idx(h2);
                assert(s1[k].hash == h2);
                let drop: int = if smid.len() + 1 > cap {
                    1
                } else {
                    0
                };
                assert(s1[k] == smid[k + drop]);
                let korig: int = if found && k + drop >= i {
                    k + drop + 1
                } else {
                    k + drop
                };
                assert(old(self).entries@[korig] == smid[k + drop]);
                old(self).lemma_idx_unique(h2, korig);
            }
        }
    }

    /// Drop `h` from the cache; called whenever a block is physically
    /// deleted, so the cache never serves content that no longer exists.
    #[verifier::loop_isolation(false)]
    pub fn invalidate(&mut self, h: u64)
        requires
            old(self).wf(),
        ensures
            final(self).wf(),
            final(self).capacity == old(self).capacity,
            !final(self).has(h),
            forall|h2: u64| h2 != h ==> (final(self).has(h2) <==> old(self).has(h2)),
            forall|h2: u64|
                h2 != h && final(self).has(h2) ==> final(self).plain_of(h2) == old(self).plain_of(
                    h2,
                ),
    {
        let n = self.entries.len();
        let mut i: usize = 0;
        while i < n
            invariant
                n == self.entries@.len(),
                i <= n,
                self.capacity == old(self).capacity,
                self.entries@ == old(self).entries@,
                forall|k: int| 0 <= k < i ==> self.entries@[k].hash != h,
            decreases n - i,
        {
            if self.entries[i].hash == h {
                proof {
                    old(self).lemma_idx_unique(h, i as int);
                }
                self.entries.remove(i);
                proof {
                    let s0 = old(self).entries@;
                    let s1 = self.entries@;
                    assert(s1 =~= s0.remove(i as int));
                    assert(forall|k: int| 0 <= k < i ==> s1[k] == s0[k]);
                    assert(forall|k: int| i <= k < s1.len() ==> s1[k] == s0[k + 1]);
                    assert(self.wf());
                    assert forall|h2: u64| self.has(h2) implies h2 != h && old(self).has(h2) by {
                        let k = self.idx(h2);
                        if k < i {
                            assert(s0[k].hash == h2);
                        } else {
                            assert(s0[k + 1].hash == h2);
                        }
                    }
                    assert forall|h2: u64| h2 != h && old(self).has(h2) implies self.has(h2)
                        && self.plain_of(h2) == old(self).plain_of(h2) by {
                        let k = old(self).idx(h2);
                        assert(s0[k].hash == h2);
                        if k < i {
                            self.lemma_idx_unique(h2, k);
                        } else {
                            assert(k > i);
                            assert(s1[k - 1] == s0[k]);
                            self.lemma_idx_unique(h2, k - 1);
                        }
                    }
                }
                return ;
            }
            i += 1;
        }
    }
}

/// Copy a byte vector.
pub fn copy_bytes(v: &Vec<u8>) -> (r: Vec<u8>)
    ensures
        r@ == v@,
{
    let n = v.len();
    let mut r: Vec<u8> = Vec::new();
    let mut i: usize = 0;
    while i < n
        invariant
            n == v@.len(),
            i <= n,
            r@ == v@.subrange(0, i as int),
        decreases n - i,
    {
        r.push(v[i]);
        proof {
            assert(r@ =~= v@.subrange(0, i + 1));
        }
        i += 1;
    }
    proof {
        assert(v@.subrange(0, n as int) =~= v@);
    }
    r
}

/// The exact shape a cache filled with fresh, distinct hashes takes: the
/// most recent `cap` of them, in order.
proof fn lemma_fill_shape(hs: Seq<u64>, cap: nat)
    requires
        hs.no_duplicates(),
    ensures
        cache_fill(Seq::empty(), hs, cap) == hs.subrange(
            if hs.len() <= cap {
                0
            } else {
                hs.len() - cap
            },
            hs.len() as int,
        ),
    decreases hs.len(),
{
    let m = hs.len() as int;
    if m == 0 {
        assert(cache_fill(Seq::empty(), hs, cap) =~= hs.subrange(0, 0));
    } else {
        let pre = hs.drop_last();
        assert(pre.no_duplicates());
        lemma_fill_shape(pre, cap);
        let a: int = if pre.len() <= cap {
            0
        } else {
            pre.len() - cap
        };
        let prev = cache_fill(Seq::empty(), pre, cap);
        assert(prev =~= hs.subrange(a, m - 1));
        assert(!prev.contains(hs.last())) by {
            if prev.contains(hs.last()) {
                let k = choose|k: int| 0 <= k < prev.len() && prev[k] == hs.last();
                assert(hs[a + k] == hs[m - 1]);
                assert(false);
            }
        }
        let pushed = prev.push(hs.last());
        assert(pushed =~= hs.subrange(a, m));
        if pushed.len() > cap {
            assert(cache_fill(Seq::empty(), hs, cap) =~= hs.subrange(a + 1, m));
            assert(a + 1 == m - cap);
        } else {
            assert(cache_fill(Seq::empty(), hs, cap) =~= hs.subrange(a, m));
            assert(a == if m <= cap {
                0
            } else {
                m - cap
            });
        }
    }
}

/// LRU eviction: filling a cache of capacity `cap` with `cap + 1` distinct
/// fresh hashes evicts exactly the first-accessed one; every later hash is
/// still cached. Re-accessing the evicted hash therefore misses and goes
/// back to the loader.
pub proof fn lemma_lru_eviction(hs: Seq<u64>, cap: nat)
    requires
        hs.no_duplicates(),
        hs.len() == cap + 1,
    ensures
        !cache_fill(Seq::empty(), hs, cap).contains(hs[0]),
        forall|i: int| 1 <= i < hs.len() ==> cache_fill(Seq::empty(), hs, cap).contains(hs[i]),
{
    lemma_fill_shape(hs, cap);
    let fill = cache_fill(Seq::empty(), hs, cap);
    assert(fill == hs.subrange(1, hs.len() as int));
    assert(!fill.contains(hs[0])) by {
        if fill.contains(hs[0]) {
            let k = choose|k: int| 0 <= k < fill.len() && fill[k] == hs[0];
            assert(hs[1 + k] == hs[0]);
            assert(false);
        }
    }
    assert forall|i: int| 1 <= i < hs.len() implies fill.contains(hs[i]) by {
        assert(fill[i - 1] == hs[i]);
    }
}

} // verus!
