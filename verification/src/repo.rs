//! The repository: the transaction manager and the engine's surface.
//!
//! A caller begins a transaction against a base version, stages writes
//! (which flow through the crypto provider into the content store while the
//! reference-count deltas stay buffered in the transaction), and commits:
//! the commit validates everything, prepares the next published state —
//! reference counts with the deltas applied, the chain with the new version
//! appended — and installs it with a single swap, the analogue of
//! write-new-then-atomically-publish. A crash or rollback before that swap
//! leaves the previous published state intact; blocks already written stay
//! behind as unreferenced garbage for the collector.

use crate::cache::{copy_bytes, BlockCache};
use crate::crypto::content_hash;
use crate::refcnt::RefCounter;
use crate::store::ContentStore;
use crate::version::{copy_u64s, referenced_by, VersionManager, VersionView};
use crate::Error;
use vstd::prelude::*;

verus! {

/// How often `h` occurs in a staged sequence: the buffered reference delta.
pub open spec fn occ(s: Seq<u64>, h: u64) -> nat
    decreases s.len(),
{
    if s.len() == 0 {
        0
    } else {
        occ(s.drop_last(), h) + if s.last() == h {
            1nat
        } else {
            0nat
        }
    }
}

/// The total number of references the retained versions hold on `h`.
pub open spec fn total_mult(vs: Seq<VersionView>, h: u64) -> nat
    decreases vs.len(),
{
    if vs.len() == 0 {
        0
    } else {
        total_mult(vs.drop_last(), h) + occ(vs.last().blocks, h)
    }
}

/// Stepping a prefix of `s` one element further adds that element's
/// occurrence.
pub proof fn lemma_occ_step(s: Seq<u64>, i: int, h: u64)
    requires
        0 <= i < s.len(),
    ensures
        occ(s.subrange(0, i + 1), h) == occ(s.subrange(0, i), h) + if s[i] == h {
            1nat
        } else {
            0nat
        },
{
    assert(s.subrange(0, i + 1).drop_last() =~= s.subrange(0, i));
    assert(s.subrange(0, i + 1).last() == s[i]);
}

/// Occurrence counts grow along prefixes.
pub proof fn lemma_occ_mono(s: Seq<u64>, i: int, j: int, h: u64)
    requires
        0 <= i <= j <= s.len(),
    ensures
        occ(s.subrange(0, i), h) <= occ(s.subrange(0, j), h),
    decreases j - i,
{
    if i < j {
        lemma_occ_mono(s, i, j - 1, h);
        lemma_occ_step(s, j - 1, h);
    }
}

/// The whole sequence is its own full prefix.
pub proof fn lemma_occ_full(s: Seq<u64>, h: u64)
    ensures
        occ(s.subrange(0, s.len() as int), h) == occ(s, h),
{
    assert(s.subrange(0, s.len() as int) =~= s);
}

/// A sequence contains `h` exactly when it occurs at least once.
pub proof fn lemma_occ_contains(s: Seq<u64>, h: u64)
    ensures
        s.contains(h) <==> occ(s, h) >= 1,
    decreases s.len(),
{
    if s.len() > 0 {
        lemma_occ_contains(s.drop_last(), h);
        if s.contains(h) {
            let k = choose|k: int| 0 <= k < s.len() && s[k] == h;
            if k < s.len() - 1 {
                assert(s.drop_last()[k] == h);
                assert(s.drop_last().contains(h));
            }
        }
        if s.drop_last().contains(h) {
            let k = choose|k: int| 0 <= k < s.drop_last().len() && s.drop_last()[k] == h;
            assert(s[k] == h);
        }
    }
}

/// Appending a version adds its references.
pub proof fn lemma_total_push(vs: Seq<VersionView>, v: VersionView, h: u64)
    ensures
        total_mult(vs.push(v), h) == total_mult(vs, h) + occ(v.blocks, h),
{
    assert(vs.push(v).drop_last() =~= vs);
    assert(vs.push(v).last() == v);
}

/// Removing a version takes exactly its references away.
pub proof fn lemma_total_remove(vs: Seq<VersionView>, i: int, h: u64)
    requires
        0 <= i < vs.len(),
    ensures
        total_mult(vs, h) == total_mult(vs.remove(i), h) + occ(vs[i].blocks, h),
    decreases vs.len(),
{
    if i == vs.len() - 1 {
        assert(vs.remove(i) =~= vs.drop_last());
    } else {
        assert(vs.remove(i).drop_last() =~= vs.drop_last().remove(i));
        assert(vs.remove(i).last() == vs.last());
        lemma_total_remove(vs.drop_last(), i, h);
    }
}

/// A version's references never exceed the total.
pub proof fn lemma_total_ge_member(vs: Seq<VersionView>, i: int, h: u64)
    requires
        0 <= i < vs.len(),
    ensures
        total_mult(vs, h) >= occ(vs[i].blocks, h),
{
    lemma_total_remove(vs, i, h);
}

/// The lifecycle of a transaction: `Active` until commit or rollback,
/// `Committing` while a commit prepares and installs the next published
/// state, then terminally `Committed` or `RolledBack`.
#[derive(Clone, Copy, Debug, PartialEq, Eq, Structural)]
pub enum TxState {
    Active,
    Committing,
    Committed,
    RolledBack,
}

/// One transaction: a batch of staged writes and buffered reference deltas,
/// anchored to a base version. Destroyed (terminal state) on commit or
/// rollback.
#[derive(Debug)]
pub struct Transaction {
    pub id: u64,
    pub base_version: u64,
    pub state: TxState,
    /// Content hashes staged so far, in order and with multiplicity: each
    /// occurrence buffers one `+1` reference delta.
    pub staged: Vec<u64>,
}

/// The durable state that `commit` republishes atomically: the reference
/// table and the version chain with its head.
pub struct Published {
    pub refs: RefCounter,
    pub vers: VersionManager,
}

/// The backing medium's contents: the block region plus the last published
/// state. Blocks are durable as soon as they are written; `published` only
/// ever changes as one atomic swap.
pub struct Device {
    pub store: ContentStore,
    pub published: Published,
}

/// The durable-state invariant: a consistent sealed store, a consistent
/// reference table, and a version chain whose trees are fully resolvable and
/// fully counted.
pub open spec fn durable_wf(store: ContentStore, p: Published, key: u64) -> bool {
    &&& store.wf(key)
    &&& p.refs.wf()
    &&& p.vers.wf()
    &&& forall|h: u64| #[trigger] p.refs.count_of(h) >= total_mult(p.vers.model(), h)
    &&& forall|i: int, k: int|
        0 <= i < p.vers.model().len() && 0 <= k < p.vers.model()[i].blocks.len() ==> store.has(
            #[trigger] p.vers.model()[i].blocks[k],
        )
    &&& forall|i: int|
        0 <= i < p.vers.model().len() ==> (#[trigger] p.vers.model()[i]).blocks.contains(
            p.vers.model()[i].root,
        )
}

impl Device {
    /// Whether the medium's contents are consistent under `key`.
    pub open spec fn wf(self, key: u64) -> bool {
        durable_wf(self.store, self.published, key)
    }
}

/// The repository: the engine's in-process face over a backing device.
pub struct Repo {
    /// The credential every block is sealed under.
    pub key: u64,
    /// The content-addressed block region.
    pub store: ContentStore,
    /// The last atomically published state.
    pub published: Published,
    /// Transient cache of decrypted blocks; never the source of truth.
    pub cache: BlockCache,
    /// The next transaction identifier.
    pub next_tx: u64,
}

impl Repo {
    /// The repository invariant: consistent durable state and a cache that
    /// only mirrors it.
    pub open spec fn wf(self) -> bool {
        &&& durable_wf(self.store, self.published, self.key)
        &&& self.cache.wf()
        &&& forall|h: u64|
            #[trigger] self.cache.has(h) ==> self.store.has(h) && self.cache.plain_of(h)
                == self.store.plain(self.key, h)
    }

    /// The identifier of the currently published head version; zero while
    /// no version has been committed.
    pub open spec fn head_id(self) -> u64 {
        self.published.vers.head_id()
    }

    /// A fresh, empty repository sealed under `key`, caching at most
    /// `cache_capacity` decrypted blocks.
    pub fn new(key: u64, cache_capacity: usize) -> (r: Repo)
        ensures
            r.wf(),
            r.key == key,
            r.head_id() == 0,
            r.store.num_blocks() == 0,
            r.published.vers.model().len() == 0,
            forall|h: u64| r.published.refs.count_of(h) == 0,
            r.cache.capacity == cache_capacity,
    {
        let r = Repo {
            key,
            store: ContentStore::new(),
            published: Published { refs: RefCounter::new(), vers: VersionManager::new() },
            cache: BlockCache::new(cache_capacity),
            next_tx: 1,
        };
        proof {
            assert forall|h: u64| r.published.refs.count_of(h) >= total_mult(
                r.published.vers.model(),
                h,
            ) by {
                assert(total_mult(r.published.vers.model(), h) == 0);
            }
        }
        r
    }

    /// Open a repository over the contents of a backing device, using `key`
    /// as the credentials. Recovery is trivial by construction: only fully
    /// published states ever reach the device, so reopening always yields
    /// the last published head.
    pub fn open(device: Device, key: u64, cache_capacity: usize) -> (r: Repo)
        requires
            device.wf(key),
        ensures
            r.wf(),
            r.key == key,
            r.store == device.store,
            r.published == device.published,
            r.head_id() == device.published.vers.head_id(),
            r.cache.capacity == cache_capacity,
            r.cache.entries@.len() == 0,
    {
        Repo {
            key,
            store: device.store,
            published: device.published,
            cache: BlockCache::new(cache_capacity),
            next_tx: 1,
        }
    }

    /// Tear the repository down to the durable state a device would hold:
    /// everything except the transient cache and transaction bookkeeping.
    pub fn into_device(self) -> (d: Device)
        requires
            self.wf(),
        ensures
            d.store == self.store,
            d.published == self.published,
            d.wf(self.key),
    {
        Device { store: self.store, published: self.published }
    }

    /// The identifier of the current head version; zero while none exists.
    pub fn head_version(&self) -> (r: u64)
        ensures
            r == self.head_id(),
    {
        self.published.vers.head()
    }

    /// The live-reference count of `h`.
    pub fn ref_count(&self, h: u64) -> (c: u64)
        requires
            self.wf(),
        ensures
            c as nat == self.published.refs.count_of(h),
    {
        self.published.refs.count(h)
    }

    /// Number of blocks physically stored.
    pub fn num_blocks(&self) -> (n: usize)
        ensures
            n == self.store.num_blocks(),
    {
        self.store.len()
    }

    /// All retained version identifiers, oldest first.
    pub fn list_versions(&self) -> (r: Vec<u64>)
        ensures
            r@.len() == self.published.vers.model().len(),
            forall|i: int|
                0 <= i < r@.len() ==> r@[i] == self.published.vers.model()[i].version_id,
    {
        self.published.vers.list()
    }

    /// Open a transaction anchored to the snapshot `base_version`; reads
    /// issued through it see that snapshot plus its own uncommitted writes.
    /// `base_version` must name a retained version, or be zero while the
    /// repository has none.
    pub fn begin_transaction(&mut self, base_version: u64) -> (r: Result<Transaction, Error>)
        requires
            old(self).wf(),
        ensures
            final(self).wf(),
            final(self).key == old(self).key,
            final(self).store == old(self).store,
            final(self).published == old(self).published,
            final(self).cache == old(self).cache,
            r is Ok <==> (base_version == 0 && old(self).published.vers.model().len() == 0 || old(
                self,
            ).published.vers.has_version(base_version)) && old(self).next_tx < u64::MAX,
            r matches Ok(tx) ==> {
                &&& tx.id == old(self).next_tx
                &&& tx.base_version == base_version
                &&& tx.state == TxState::Active
                &&& tx.staged@ == Seq::<u64>::empty()
            },
            r matches Err(e) ==> (e == Error::NotFound || e == Error::LimitExceeded),
    {
        if self.next_tx == u64::MAX {
            return Err(Error::LimitExceeded);
        }
        let ok: bool = if base_version == 0 {
            self.published.vers.list().len() == 0
        } else {
            match self.published.vers.read(base_version) {
                Ok(_) => true,
                Err(_) => false,
            }
        };
        if !ok {
            return Err(Error::NotFound);
        }
        let id = self.next_tx;
        self.next_tx = id + 1;
        Ok(
            Transaction {
                id,
                base_version,
                state: TxState::Active,
                staged: Vec::new(),
            },
        )
    }

    /// Stage one logical write: seal the plaintext into the content store
    /// (deduplicated: identical plaintext lands in the identical block) and
    /// buffer a `+1` reference delta for its hash. Staging the same content
    /// twice buffers `+2`. The delta stays invisible to the published counts
    /// until commit.
    pub fn stage_write(&mut self, tx: &mut Transaction, p: &Vec<u8>) -> (h: u64)
        requires
            old(self).wf(),
            old(tx).state == TxState::Active,
        ensures
            final(self).wf(),
            h == content_hash(old(self).key, p@),
            final(self).key == old(self).key,
            final(self).published == old(self).published,
            final(self).cache == old(self).cache,
            final(self).next_tx == old(self).next_tx,
            final(tx).id == old(tx).id,
            final(tx).base_version == old(tx).base_version,
            final(tx).state == TxState::Active,
            final(tx).staged@ == old(tx).staged@.push(h),
            final(self).store.has(h),
            old(self).store.has(h) ==> final(self).store.blocks@ == old(self).store.blocks@,
            !old(self).store.has(h) ==> {
                &&& final(self).store.num_blocks() == old(self).store.num_blocks() + 1
                &&& final(self).store.plain(old(self).key, h) == p@
                &&& forall|h2: u64|
                    h2 != h ==> (final(self).store.has(h2) <==> old(self).store.has(h2))
            },
    {
        let h = self.store.put(self.key, p);
        tx.staged.push(h);
        proof {
            let key = self.key;
            assert forall|h2: u64| #[trigger] self.cache.has(h2) implies self.store.has(h2)
                && self.cache.plain_of(h2) == self.store.plain(key, h2) by {
                assert(old(self).store.has(h2));
                if !old(self).store.has(h) {
                    if h2 != h {
                        assert(self.store.block_of(h2) == old(self).store.block_of(h2));
                    }
                }
            }
            assert forall|i: int, k: int|
                0 <= i < self.published.vers.model().len() && 0 <= k < self.published.vers.model()[i].blocks.len() implies self.store.has(
                #[trigger] self.published.vers.model()[i].blocks[k],
            ) by {
                assert(old(self).store.has(old(self).published.vers.model()[i].blocks[k]));
            }
        }
        h
    }

    /// Discard a transaction: staged writes and buffered deltas are dropped
    /// and the published state is untouched. Blocks already written to the
    /// store stay behind with no live references, left for the garbage
    /// collector; rollback undoes the bookkeeping, not the device writes.
    pub fn rollback(&self, tx: &mut Transaction)
        requires
            old(tx).state == TxState::Active,
        ensures
            final(tx).state == TxState::RolledBack,
            final(tx).staged@ == Seq::<u64>::empty(),
            final(tx).id == old(tx).id,
            final(tx).base_version == old(tx).base_version,
    {
        tx.state = TxState::RolledBack;
        tx.staged = Vec::new();
    }

    /// Read the block `h` through the snapshot `version_id`: the read
    /// succeeds exactly when that retained version's tree references `h`
    /// (snapshot isolation — other versions' blocks are out of scope). The
    /// plaintext is served from the cache when hot, else decrypted from the
    /// store and cached.
    pub fn read_block(&mut self, version_id: u64, h: u64) -> (r: Result<Vec<u8>, Error>)
        requires
            old(self).wf(),
        ensures
            final(self).wf(),
            final(self).key == old(self).key,
            final(self).store == old(self).store,
            final(self).published == old(self).published,
            final(self).next_tx == old(self).next_tx,
            r is Ok <==> old(self).published.vers.has_version(version_id) && old(
                self,
            ).published.vers.version_at(version_id).blocks.contains(h),
            r matches Ok(p) ==> p@ == old(self).store.plain(old(self).key, h),
            r matches Ok(p) ==> old(self).cache.capacity > 0 ==> final(self).cache.has(h),
            r matches Err(e) ==> e == Error::NotFound && final(self).cache == old(self).cache,
    {
        let n = self.published.vers.versions.len();
        let mut i: usize = 0;
        let mut found: bool = false;
        while !found && i < n
            invariant
                n == self.published.vers.versions@.len(),
                i <= n,
                self.key == old(self).key,
                self.store == old(self).store,
                self.published == old(self).published,
                self.cache == old(self).cache,
                self.next_tx == old(self).next_tx,
                forall|k: int|
                    0 <= k < i ==> self.published.vers.model()[k].version_id != version_id,
                found ==> i < n && self.published.vers.model()[i as int].version_id
                    == version_id,
            decreases n - i + (if found {
                0int
            } else {
                1int
            }),
        {
            if self.published.vers.versions[i].version_id == version_id {
                found = true;
            } else {
                i += 1;
            }
        }
        if !found {
            proof {
                if self.published.vers.has_version(version_id) {
                    let k = self.published.vers.vidx(version_id);
                    assert(false);
                }
            }
            return Err(Error::NotFound);
        }
        proof {
            self.published.vers.lemma_vidx_unique(version_id, i as int);
            assert(self.published.vers.version_at(version_id).blocks
                == self.published.vers.versions@[i as int].blocks@);
        }
        if !crate::version::contains_u64(&self.published.vers.versions[i].blocks, h) {
            return Err(Error::NotFound);
        }
        proof {
            assert(self.published.vers.version_at(version_id).blocks.contains(h));
            assert(self.store.has(h)) by {
                let m = self.published.vers.model();
                let bs = m[i as int].blocks;
                let k = choose|k: int| 0 <= k < bs.len() && bs[k] == h;
                assert(self.store.has(m[i as int].blocks[k]));
            }
        }
        let cached = self.cache.lookup(h);
        match cached {
            Some(p) => {
                proof {
                    assert(old(self).cache.has(h));
                    assert(p@ == old(self).store.plain(old(self).key, h));
                    let key = self.key;
                    assert forall|h2: u64| #[trigger] self.cache.has(h2) implies self.store.has(
                        h2,
                    ) && self.cache.plain_of(h2) == self.store.plain(key, h2) by {
                        assert(old(self).cache.has(h2));
                    }
                }
                Ok(p)
            },
            None => {
                let got = self.store.get(self.key, h);
                let p = match got {
                    Ok(p) => p,
                    Err(_) => {
                        proof {
                            let i0 = self.store.idx(h);
                            assert(crate::store::block_wf(self.key, self.store.blocks@[i0]));
                            assert(false);
                        }
                        return Err(Error::NotFound);
                    },
                };
                let pc = copy_bytes(&p);
                self.cache.insert(h, pc);
                proof {
                    let key = self.key;
                    assert forall|h2: u64| #[trigger] self.cache.has(h2) implies self.store.has(
                        h2,
                    ) && self.cache.plain_of(h2) == self.store.plain(key, h2) by {
                        if h2 != h {
                            assert(old(self).cache.has(h2));
                        }
                    }
                }
                Ok(p)
            },
        }
    }
}

/// Relies on `std::time::SystemTime::now`: seconds since the Unix epoch,
/// used only to timestamp a committed version. Nothing is assumed of the
/// value.
#[verifier::external_body]
fn now_secs() -> u64 {
    match std::time::SystemTime::now().duration_since(std::time::UNIX_EPOCH) {
        Ok(d) => d.as_secs(),
        Err(_) => 0,
    }
}

impl Repo {
    /// Commit a transaction. The commit validates the batch (the base must
    /// still be the head, the root must be staged, every staged block must
    /// still be stored), prepares the next published state — the reference
    /// table with all buffered `+1` deltas applied, the chain with the new
    /// version appended — and installs it with one atomic swap. Losing the
    /// head race fails with `Conflict` and persists nothing; the caller
    /// re-bases and retries, and content addressing makes the retry cheap.
    #[verifier::loop_isolation(false)]
    pub fn commit(&mut self, tx: &mut Transaction, root: u64) -> (r: Result<u64, Error>)
        requires
            old(self).wf(),
            old(tx).state == TxState::Active,
        ensures
            final(self).wf(),
            final(self).key == old(self).key,
            final(self).store == old(self).store,
            final(self).cache == old(self).cache,
            final(self).next_tx == old(self).next_tx,
            final(tx).id == old(tx).id,
            final(tx).base_version == old(tx).base_version,
            final(tx).staged@ == old(tx).staged@,
            r is Err ==> final(self).published == old(self).published && final(tx).state
                == TxState::Active,
            old(tx).base_version != old(self).head_id() <==> r == Err::<u64, Error>(
                Error::Conflict,
            ),
            r == Err::<u64, Error>(Error::NotFound) <==> old(tx).base_version == old(
                self,
            ).head_id() && !(old(tx).staged@.contains(root) && (forall|k: int|
                0 <= k < old(tx).staged@.len() ==> old(self).store.has(
                    #[trigger] old(tx).staged@[k],
                ))),
            r is Ok <==> {
                &&& old(tx).base_version == old(self).head_id()
                &&& old(tx).staged@.contains(root)
                &&& forall|k: int|
                    0 <= k < old(tx).staged@.len() ==> old(self).store.has(
                        #[trigger] old(tx).staged@[k],
                    )
                &&& forall|h: u64|
                    #[trigger] old(self).published.refs.count_of(h) + occ(old(tx).staged@, h)
                        <= u64::MAX
                &&& old(self).published.vers.next_id < u64::MAX
            },
            r matches Ok(vid) ==> {
                &&& vid == old(self).published.vers.next_id
                &&& final(self).head_id() == vid
                &&& final(tx).state == TxState::Committed
                &&& final(self).published.vers.model().len() == old(
                    self,
                ).published.vers.model().len() + 1
                &&& final(self).published.vers.model().subrange(
                    0,
                    old(self).published.vers.model().len() as int,
                ) == old(self).published.vers.model()
                &&& final(self).published.vers.model().last().version_id == vid
                &&& final(self).published.vers.model().last().root == root
                &&& final(self).published.vers.model().last().blocks == old(tx).staged@
                &&& final(self).published.vers.model().last().parent == (if old(
                    self,
                ).published.vers.model().len() == 0 {
                    None::<u64>
                } else {
                    Some(old(tx).base_version)
                })
                &&& forall|h: u64|
                    #[trigger] final(self).published.refs.count_of(h) == old(
                        self,
                    ).published.refs.count_of(h) + occ(old(tx).staged@, h)
            },
    {
        let head = self.published.vers.head();
        if tx.base_version != head {
            return Err(Error::Conflict);
        }
        if !crate::version::contains_u64(&tx.staged, root) {
            return Err(Error::NotFound);
        }
        let n = tx.staged.len();
        let mut k: usize = 0;
        while k < n
            invariant
                n == tx.staged@.len(),
                k <= n,
                tx.staged@ == old(tx).staged@,
                tx.state == old(tx).state,
                tx.id == old(tx).id,
                tx.base_version == old(tx).base_version,
                self.key == old(self).key,
                self.store == old(self).store,
                self.published == old(self).published,
                self.cache == old(self).cache,
                self.next_tx == old(self).next_tx,
                forall|t: int| 0 <= t < k ==> self.store.has(#[trigger] tx.staged@[t]),
            decreases n - k,
        {
            if !self.store.contains(tx.staged[k]) {
                return Err(Error::NotFound);
            }
            k += 1;
        }
        tx.state = TxState::Committing;
        let mut new_refs = self.published.refs.duplicate();
        let mut k2: usize = 0;
        while k2 < n
            invariant
                n == tx.staged@.len(),
                k2 <= n,
                tx.staged@ == old(tx).staged@,
                tx.state == TxState::Committing,
                tx.id == old(tx).id,
                tx.base_version == old(tx).base_version,
                self.key == old(self).key,
                self.store == old(self).store,
                self.published == old(self).published,
                self.cache == old(self).cache,
                self.next_tx == old(self).next_tx,
                new_refs.wf(),
                forall|h: u64|
                    #[trigger] new_refs.count_of(h) == old(self).published.refs.count_of(h) + occ(
                        tx.staged@.subrange(0, k2 as int),
                        h,
                    ),
            decreases n - k2,
        {
            let hk = tx.staged[k2];
            let res = new_refs.increment(hk);
            match res {
                Ok(_) => {
                    proof {
                        assert forall|h: u64| #[trigger] new_refs.count_of(h) == old(
                            self,
                        ).published.refs.count_of(h) + occ(
                            tx.staged@.subrange(0, k2 as int + 1),
                            h,
                        ) by {
                            lemma_occ_step(tx.staged@, k2 as int, h);
                        }
                    }
                },
                Err(_) => {
                    proof {
                        // the count for this hash would overflow its word,
                        // so the Ok condition is violated; nothing applied
                        lemma_occ_step(tx.staged@, k2 as int, hk);
                        lemma_occ_mono(tx.staged@, k2 as int + 1, n as int, hk);
                        lemma_occ_full(tx.staged@, hk);
                        assert(old(self).published.refs.count_of(hk) + occ(tx.staged@, hk)
                            > u64::MAX);
                    }
                    tx.state = TxState::Active;
                    return Err(Error::LimitExceeded);
                },
            }
            k2 += 1;
        }
        proof {
            assert forall|h: u64| #[trigger] new_refs.count_of(h) == old(
                self,
            ).published.refs.count_of(h) + occ(old(tx).staged@, h) by {
                lemma_occ_full(tx.staged@, h);
            }
            assert forall|h: u64|
                #[trigger] old(self).published.refs.count_of(h) + occ(old(tx).staged@, h)
                    <= u64::MAX by {
                assert(new_refs.count_of(h) <= u64::MAX);
            }
        }
        let mut new_vers = self.published.vers.duplicate();
        let created_at = now_secs();
        let blocks = copy_u64s(&tx.staged);
        let pres = new_vers.publish(root, tx.base_version, created_at, blocks);
        match pres {
            Ok(vid) => {
                self.published = Published { refs: new_refs, vers: new_vers };
                tx.state = TxState::Committed;
                proof {
                    let m0 = old(self).published.vers.model();
                    let m1 = self.published.vers.model();
                    let nv = m1.last();
                    assert(m1.subrange(0, m0.len() as int) =~= m0);
                    assert(forall|i: int| 0 <= i < m0.len() ==> m1[i] == m0[i]);
                    assert forall|h: u64| #[trigger] self.published.refs.count_of(h)
                        >= total_mult(m1, h) by {
                        lemma_total_push(m0, nv, h);
                        lemma_occ_full(old(tx).staged@, h);
                    }
                    assert forall|i: int, k3: int|
                        0 <= i < m1.len() && 0 <= k3 < m1[i].blocks.len() implies self.store.has(
                        #[trigger] m1[i].blocks[k3],
                    ) by {
                        if i < m0.len() {
                            assert(old(self).store.has(m0[i].blocks[k3]));
                        } else {
                            assert(m1[i] == nv);
                            assert(self.store.has(old(tx).staged@[k3]));
                        }
                    }
                    assert forall|i: int|
                        0 <= i < m1.len() implies (#[trigger] m1[i]).blocks.contains(
                        m1[i].root,
                    ) by {
                        if i < m0.len() {
                            assert(m1[i] == m0[i]);
                        } else {
                            assert(m1[i] == nv);
                        }
                    }
                }
                Ok(vid)
            },
            Err(_) => {
                proof {
                    // the parent was just checked against the head, so the
                    // publish can only have run out of identifiers
                    assert(new_vers.head_id() == old(self).head_id());
                }
                tx.state = TxState::Active;
                Err(Error::LimitExceeded)
            },
        }
    }
}

impl Repo {
    /// Prune a retained, non-head version: remove it from the chain and
    /// decrement the reference counts — by the pruned version's own
    /// multiplicity — of exactly the blocks that no surviving version still
    /// references. A block referenced by a surviving version keeps its
    /// count, so it survives the prune. The prepared state is installed
    /// with one atomic swap.
    #[verifier::loop_isolation(false)]
    #[verifier::rlimit(60)]
    pub fn prune_version(&mut self, version_id: u64) -> (r: Result<(), Error>)
        requires
            old(self).wf(),
        ensures
            final(self).wf(),
            final(self).key == old(self).key,
            final(self).store == old(self).store,
            final(self).cache == old(self).cache,
            final(self).next_tx == old(self).next_tx,
            r is Err ==> final(self).published == old(self).published,
            !old(self).published.vers.has_version(version_id) <==> r == Err::<(), Error>(
                Error::NotFound,
            ),
            old(self).published.vers.has_version(version_id) && version_id == old(
                self,
            ).head_id() <==> r == Err::<(), Error>(Error::Conflict),
            r is Ok <==> old(self).published.vers.has_version(version_id) && version_id != old(
                self,
            ).head_id(),
            r is Ok ==> {
                let m0 = old(self).published.vers.model();
                let vi = old(self).published.vers.vidx(version_id);
                let m1 = final(self).published.vers.model();
                &&& m1 == m0.remove(vi)
                &&& forall|h: u64|
                    referenced_by(m1, h) ==> #[trigger] final(self).published.refs.count_of(h)
                        == old(self).published.refs.count_of(h)
                &&& forall|h: u64|
                    !referenced_by(m1, h) ==> #[trigger] final(self).published.refs.count_of(h)
                        + occ(m0[vi].blocks, h) == old(self).published.refs.count_of(h)
            },
    {
        let n = self.published.vers.versions.len();
        let mut i: usize = 0;
        let mut found: bool = false;
        while !found && i < n
            invariant
                n == self.published.vers.versions@.len(),
                i <= n,
                self.published == old(self).published,
                forall|k: int|
                    0 <= k < i ==> self.published.vers.model()[k].version_id != version_id,
                found ==> i < n && self.published.vers.model()[i as int].version_id
                    == version_id,
            decreases n - i + (if found {
                0int
            } else {
                1int
            }),
        {
            if self.published.vers.versions[i].version_id == version_id {
                found = true;
            } else {
                i += 1;
            }
        }
        if !found {
            proof {
                if self.published.vers.has_version(version_id) {
                    let k = self.published.vers.vidx(version_id);
                    assert(false);
                }
            }
            return Err(Error::NotFound);
        }
        proof {
            self.published.vers.lemma_vidx_unique(version_id, i as int);
        }
        let head = self.published.vers.head();
        if version_id == head {
            return Err(Error::Conflict);
        }
        let ghost m0 = old(self).published.vers.model();
        let ghost vi = i as int;
        let pruned_blocks = copy_u64s(&self.published.vers.versions[i].blocks);
        let mut new_vers = self.published.vers.duplicate();
        new_vers.remove_version(version_id);
        let ghost m1 = new_vers.model();
        proof {
            assert(m1 == m0.remove(vi));
        }
        let mut new_refs = self.published.refs.duplicate();
        let nb = pruned_blocks.len();
        let mut k: usize = 0;
        while k < nb
            invariant
                nb == pruned_blocks@.len(),
                k <= nb,
                pruned_blocks@ == m0[vi].blocks,
                new_vers.model() == m1,
                new_refs.wf(),
                forall|h: u64|
                    referenced_by(m1, h) ==> #[trigger] new_refs.count_of(h) == old(
                        self,
                    ).published.refs.count_of(h),
                forall|h: u64|
                    !referenced_by(m1, h) ==> #[trigger] new_refs.count_of(h) + occ(
                        pruned_blocks@.subrange(0, k as int),
                        h,
                    ) == old(self).published.refs.count_of(h),
            decreases nb - k,
        {
            let hk = pruned_blocks[k];
            let refd = new_vers.references(hk);
            if !refd {
                let res = new_refs.decrement(hk);
                match res {
                    Ok(_) => {
                        proof {
                            assert forall|h: u64| !referenced_by(m1, h) implies #[trigger] new_refs.count_of(
                                h,
                            ) + occ(pruned_blocks@.subrange(0, k as int + 1), h) == old(
                                self,
                            ).published.refs.count_of(h) by {
                                lemma_occ_step(pruned_blocks@, k as int, h);
                            }
                        }
                    },
                    Err(_) => {
                        proof {
                            // cannot happen: the chain still holds enough
                            // references on every block it counts
                            lemma_total_ge_member(m0, vi, hk);
                            lemma_occ_step(pruned_blocks@, k as int, hk);
                            lemma_occ_mono(pruned_blocks@, k as int + 1, nb as int, hk);
                            lemma_occ_full(pruned_blocks@, hk);
                            lemma_total_remove(m0, vi, hk);
                            assert(false);
                        }
                        return Err(Error::RefCountUnderflow);
                    },
                }
            } else {
                proof {
                    assert forall|h: u64| !referenced_by(m1, h) implies #[trigger] new_refs.count_of(
                        h,
                    ) + occ(pruned_blocks@.subrange(0, k as int + 1), h) == old(
                        self,
                    ).published.refs.count_of(h) by {
                        lemma_occ_step(pruned_blocks@, k as int, h);
                        assert(h != hk);
                    }
                }
            }
            k += 1;
        }
        self.published = Published { refs: new_refs, vers: new_vers };
        proof {
            assert forall|h: u64|
                !referenced_by(m1, h) implies #[trigger] self.published.refs.count_of(h) + occ(
                m0[vi].blocks,
                h,
            ) == old(self).published.refs.count_of(h) by {
                lemma_occ_full(pruned_blocks@, h);
            }
            assert forall|h: u64| #[trigger] self.published.refs.count_of(h) >= total_mult(
                m1,
                h,
            ) by {
                lemma_total_remove(m0, vi, h);
                if !referenced_by(m1, h) {
                    lemma_occ_full(pruned_blocks@, h);
                }
            }
            assert forall|i2: int, k2: int|
                0 <= i2 < m1.len() && 0 <= k2 < m1[i2].blocks.len() implies self.store.has(
                #[trigger] m1[i2].blocks[k2],
            ) by {
                if i2 < vi {
                    assert(m1[i2] == m0[i2]);
                    assert(self.store.has(m0[i2].blocks[k2]));
                } else {
                    assert(m1[i2] == m0[i2 + 1]);
                    assert(self.store.has(m0[i2 + 1].blocks[k2]));
                }
            }
            assert forall|i2: int| 0 <= i2 < m1.len() implies (#[trigger] m1[i2]).blocks.contains(
                m1[i2].root,
            ) by {
                if i2 < vi {
                    assert(m1[i2] == m0[i2]);
                } else {
                    assert(m1[i2] == m0[i2 + 1]);
                }
            }
        }
        Ok(())
    }
}

impl Repo {
    /// Garbage collection: delete every stored block with zero live
    /// references — leftovers of rolled-back or crashed transactions, and
    /// blocks whose last referencing version was pruned. Each counted entry
    /// is pinned (`PendingDelete`) before its block is deleted, and the
    /// cache entry is invalidated so the cache never serves deleted
    /// content. Counts, versions and every live block stay untouched.
    /// Returns the number of blocks reclaimed.
    #[verifier::loop_isolation(false)]
    #[verifier::rlimit(100)]
    pub fn run_gc(&mut self) -> (n: usize)
        requires
            old(self).wf(),
        ensures
            final(self).wf(),
            final(self).key == old(self).key,
            final(self).published.vers == old(self).published.vers,
            final(self).next_tx == old(self).next_tx,
            forall|h: u64|
                #[trigger] final(self).published.refs.count_of(h) == old(
                    self,
                ).published.refs.count_of(h),
            forall|h: u64|
                #[trigger] final(self).store.has(h) <==> old(self).store.has(h) && old(
                    self,
                ).published.refs.count_of(h) > 0,
            forall|h: u64|
                final(self).store.has(h) ==> #[trigger] final(self).store.block_of(h) == old(
                    self,
                ).store.block_of(h),
    {
        let ns = self.store.len();
        let mut dead: Vec<u64> = Vec::new();
        let mut i: usize = 0;
        while i < ns
            invariant
                ns == self.store.blocks@.len(),
                i <= ns,
                forall|t: int|
                    0 <= t < dead@.len() ==> self.store.has(#[trigger] dead@[t])
                        && self.published.refs.count_of(dead@[t]) == 0,
                forall|k: int|
                    0 <= k < i && self.published.refs.count_of(
                        #[trigger] self.store.blocks@[k].hash,
                    ) == 0 ==> dead@.contains(self.store.blocks@[k].hash),
            decreases ns - i,
        {
            let hk = self.store.blocks[i].hash;
            let c = self.published.refs.count(hk);
            let ghost pre = dead@;
            if c == 0 {
                proof {
                    assert(self.store.has(hk));
                }
                dead.push(hk);
                proof {
                    assert forall|k: int|
                        0 <= k < i + 1 && self.published.refs.count_of(
                            #[trigger] self.store.blocks@[k].hash,
                        ) == 0 implies dead@.contains(self.store.blocks@[k].hash) by {
                        let x = self.store.blocks@[k].hash;
                        if k < i {
                            let t = choose|t: int| 0 <= t < pre.len() && pre[t] == x;
                            assert(dead@[t] == x);
                        } else {
                            assert(dead@[pre.len() as int] == x);
                        }
                    }
                }
            } else {
                proof {
                    assert forall|k: int|
                        0 <= k < i + 1 && self.published.refs.count_of(
                            #[trigger] self.store.blocks@[k].hash,
                        ) == 0 implies dead@.contains(self.store.blocks@[k].hash) by {
                        let x = self.store.blocks@[k].hash;
                        if k < i {
                            let t = choose|t: int| 0 <= t < pre.len() && pre[t] == x;
                            assert(dead@[t] == x);
                        }
                    }
                }
            }
            i += 1;
        }
        let ghost deadv = dead@;
        let nd = dead.len();
        let mut j: usize = 0;
        while j < nd
            invariant
                nd == deadv.len(),
                dead@ == deadv,
                j <= nd,
                self.key == old(self).key,
                self.published.vers == old(self).published.vers,
                self.next_tx == old(self).next_tx,
                self.published.refs.wf(),
                forall|h: u64|
                    #[trigger] self.published.refs.count_of(h) == old(
                        self,
                    ).published.refs.count_of(h),
                forall|t: int|
                    0 <= t < nd ==> old(self).store.has(#[trigger] deadv[t]) && old(
                        self,
                    ).published.refs.count_of(deadv[t]) == 0,
                forall|h: u64|
                    old(self).store.has(h) && old(self).published.refs.count_of(h) == 0
                        ==> deadv.contains(h),
                self.store.keys_distinct(),
                forall|kk: u64| old(self).store.wf(kk) ==> self.store.wf(kk),
                forall|h: u64|
                    #[trigger] self.store.has(h) <==> old(self).store.has(h)
                        && !deadv.subrange(0, j as int).contains(h),
                forall|h: u64|
                    self.store.has(h) ==> #[trigger] self.store.block_of(h) == old(
                        self,
                    ).store.block_of(h),
                self.cache.wf(),
                forall|h: u64|
                    #[trigger] self.cache.has(h) ==> old(self).cache.has(h)
                        && !deadv.subrange(0, j as int).contains(h) && self.cache.plain_of(h)
                        == old(self).cache.plain_of(h),
            decreases nd - j,
        {
            let d = dead[j];
            proof {
                assert(self.published.refs.count_of(d) == 0);
            }
            self.published.refs.pin(d);
            let _ = self.store.delete(d);
            self.cache.invalidate(d);
            proof {
                let prefix0 = deadv.subrange(0, j as int);
                let prefix1 = deadv.subrange(0, j as int + 1);
                assert(prefix1.drop_last() =~= prefix0);
                assert(prefix1.last() == d);
                assert forall|h: u64| prefix1.contains(h) <==> prefix0.contains(h) || h == d by {
                    if prefix1.contains(h) {
                        let t = choose|t: int| 0 <= t < prefix1.len() && prefix1[t] == h;
                        if t < prefix0.len() {
                            assert(prefix0[t] == h);
                        }
                    }
                    if prefix0.contains(h) {
                        let t = choose|t: int| 0 <= t < prefix0.len() && prefix0[t] == h;
                        assert(prefix1[t] == h);
                    }
                    if h == d {
                        assert(prefix1[j as int] == h);
                    }
                }
            }
            j += 1;
        }
        proof {
            assert(deadv.subrange(0, nd as int) =~= deadv);
            assert forall|h: u64| #[trigger] self.store.has(h) <==> old(self).store.has(h) && old(
                self,
            ).published.refs.count_of(h) > 0 by {
                if old(self).store.has(h) && old(self).published.refs.count_of(h) > 0 {
                    if deadv.contains(h) {
                        let t = choose|t: int| 0 <= t < deadv.len() && deadv[t] == h;
                        assert(old(self).published.refs.count_of(deadv[t]) == 0);
                    }
                }
            }
            // every block a version references is counted, so it survives
            let m = self.published.vers.model();
            assert forall|i2: int, k2: int|
                0 <= i2 < m.len() && 0 <= k2 < m[i2].blocks.len() implies self.store.has(
                #[trigger] m[i2].blocks[k2],
            ) by {
                let h = m[i2].blocks[k2];
                lemma_total_ge_member(m, i2, h);
                lemma_occ_contains(m[i2].blocks, h);
                assert(m[i2].blocks.contains(h)) by {
                    assert(m[i2].blocks[k2] == h);
                }
                assert(old(self).published.refs.count_of(h) >= 1);
                assert(old(self).store.has(h));
            }
            assert forall|h: u64| #[trigger] self.cache.has(h) implies self.store.has(h)
                && self.cache.plain_of(h) == self.store.plain(self.key, h) by {
                assert(old(self).cache.has(h));
                assert(old(self).store.has(h));
                assert(!deadv.contains(h)) by {
                    if deadv.contains(h) {
                        let t = choose|t: int| 0 <= t < deadv.len() && deadv[t] == h;
                        assert(deadv.subrange(0, nd as int)[t] == h);
                    }
                }
                assert(old(self).published.refs.count_of(h) > 0) by {
                    if old(self).published.refs.count_of(h) == 0 {
                        assert(deadv.contains(h));
                    }
                }
                assert(self.store.block_of(h) == old(self).store.block_of(h));
            }
        }
        nd
    }
}

/// Content addressing deduplicates: equal plaintexts hash to the same
/// block, so a transaction that stages the same plaintext twice buffers two
/// deltas for one hash — and `commit`, whose contract adds each hash's
/// staged occurrences to its count, raises that count by exactly two (two
/// on a fresh repository).
pub proof fn lemma_dedup_double_count(key: u64, p1: Seq<u8>, p2: Seq<u8>, staged: Seq<u64>)
    requires
        p1 == p2,
    ensures
        content_hash(key, p1) == content_hash(key, p2),
        occ(
            staged.push(content_hash(key, p1)).push(content_hash(key, p2)),
            content_hash(key, p1),
        ) == occ(staged, content_hash(key, p1)) + 2,
{
    let h = content_hash(key, p1);
    let s1 = staged.push(h);
    let s2 = s1.push(h);
    assert(s1.drop_last() =~= staged);
    assert(s1.last() == h);
    assert(occ(s1, h) == occ(staged, h) + 1);
    assert(s2.drop_last() =~= s1);
    assert(s2.last() == h);
    assert(occ(s2, h) == occ(s1, h) + 1);
}

/// A block referenced by two versions survives pruning of one: the
/// surviving reference keeps its count untouched and positive, and the
/// block stays stored. The hypotheses are exactly what `prune_version`
/// ensures on success.
pub proof fn lemma_shared_block_survives(pre: Repo, post: Repo, version_id: u64, h: u64, s: int)
    requires
        pre.wf(),
        post.wf(),
        pre.published.vers.has_version(version_id),
        post.published.vers.model() == pre.published.vers.model().remove(
            pre.published.vers.vidx(version_id),
        ),
        post.store == pre.store,
        forall|h2: u64|
            referenced_by(post.published.vers.model(), h2)
                ==> #[trigger] post.published.refs.count_of(h2) == pre.published.refs.count_of(
                h2,
            ),
        0 <= s < post.published.vers.model().len(),
        post.published.vers.model()[s].blocks.contains(h),
    ensures
        post.published.refs.count_of(h) == pre.published.refs.count_of(h),
        post.published.refs.count_of(h) >= 1,
        post.store.has(h),
{
    let m1 = post.published.vers.model();
    assert(referenced_by(m1, h));
    lemma_total_ge_member(m1, s, h);
    lemma_occ_contains(m1[s].blocks, h);
    let bs = m1[s].blocks;
    let k = choose|k: int| 0 <= k < bs.len() && bs[k] == h;
    assert(post.store.has(m1[s].blocks[k]));
}

/// Recovery safety: a device holding a published state resolves completely.
/// Every block any retained version references is physically present and
/// holds at least one live reference — a crash between block writes and the
/// atomic publish leaves the previous head intact, with no dangling and no
/// orphaned-but-referenced blocks; unpublished leftovers simply have no
/// count and fall to the garbage collector.
pub proof fn lemma_recovery_resolvable(d: Device, key: u64, i: int, k: int)
    requires
        d.wf(key),
        0 <= i < d.published.vers.model().len(),
        0 <= k < d.published.vers.model()[i].blocks.len(),
    ensures
        d.store.has(d.published.vers.model()[i].blocks[k]),
        d.published.refs.count_of(d.published.vers.model()[i].blocks[k]) >= 1,
{
    let m = d.published.vers.model();
    let h = m[i].blocks[k];
    lemma_total_ge_member(m, i, h);
    lemma_occ_contains(m[i].blocks, h);
    assert(m[i].blocks.contains(h)) by {
        assert(m[i].blocks[k] == h);
    }
}

} // verus!