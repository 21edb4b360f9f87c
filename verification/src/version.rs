//! The version manager: an append-only chain of immutable snapshots.
//!
//! Each version records the root of a tree of content hashes and the set of
//! hashes its tree references. A version is immutable once committed; only
//! the head may be advanced, and only by one publisher at a time (optimistic
//! concurrency: publishing against a stale parent fails).

use crate::Error;
use vstd::prelude::*;

verus! {

/// One immutable snapshot.
pub struct Version {
    /// Monotonically increasing identifier.
    pub version_id: u64,
    /// Root content hash of the snapshot's tree.
    pub root: u64,
    /// Seconds since the epoch when the version was committed.
    pub created_at: u64,
    /// The predecessor version, absent for the first snapshot.
    pub parent: Option<u64>,
    /// Every content hash the snapshot's tree references, with multiplicity.
    pub blocks: Vec<u64>,
}

/// The mathematical image of one version.
pub ghost struct VersionView {
    pub version_id: u64,
    pub root: u64,
    pub created_at: u64,
    pub parent: Option<u64>,
    pub blocks: Seq<u64>,
}

impl View for Version {
    type V = VersionView;

    open spec fn view(&self) -> VersionView {
        VersionView {
            version_id: self.version_id,
            root: self.root,
            created_at: self.created_at,
            parent: self.parent,
            blocks: self.blocks@,
        }
    }
}

/// The version chain and the next identifier to hand out.
pub struct VersionManager {
    pub versions: Vec<Version>,
    pub next_id: u64,
}

impl VersionManager {
    /// The chain as a sequence of version views, oldest first.
    pub open spec fn model(self) -> Seq<VersionView> {
        Seq::new(self.versions@.len(), |i: int| self.versions@[i]@)
    }

    /// Whether a version with identifier `vid` is retained.
    pub open spec fn has_version(self, vid: u64) -> bool {
        exists|i: int| 0 <= i < self.model().len() && self.model()[i].version_id == vid
    }

    /// The position of version `vid` in the chain.
    pub open spec fn vidx(self, vid: u64) -> int {
        choose|i: int| 0 <= i < self.model().len() && self.model()[i].version_id == vid
    }

    /// The view of version `vid`.
    pub open spec fn version_at(self, vid: u64) -> VersionView {
        self.model()[self.vidx(vid)]
    }

    /// The identifier of the current head; zero when no version exists yet.
    pub open spec fn head_id(self) -> u64 {
        if self.model().len() == 0 {
            0
        } else {
            self.model().last().version_id
        }
    }

    /// Identifiers grow strictly along the chain and stay below `next_id`;
    /// zero is never an identifier.
    pub open spec fn wf(self) -> bool {
        &&& self.next_id >= 1
        &&& forall|i: int, j: int|
            0 <= i < j < self.model().len() ==> self.model()[i].version_id
                < self.model()[j].version_id
        &&& forall|i: int|
            0 <= i < self.model().len() ==> 1 <= (#[trigger] self.model()[i]).version_id
                < self.next_id
    }

    /// Any position holding `vid` is the position `vidx` picks.
    pub proof fn lemma_vidx_unique(self, vid: u64, i: int)
        requires
            self.wf(),
            0 <= i < self.model().len(),
            self.model()[i].version_id == vid,
        ensures
            self.has_version(vid),
            self.vidx(vid) == i,
    {
        assert(self.has_version(vid));
        let j = self.vidx(vid);
        assert(0 <= j < self.model().len() && self.model()[j].version_id == vid);
        if j < i {
            assert(false);
        } else if i < j {
            assert(false);
        }
    }

    /// An empty chain.
    pub fn new() -> (r: VersionManager)
        ensures
            r.wf(),
            r.model().len() == 0,
            r.head_id() == 0,
            r.next_id == 1,
    {
        VersionManager { versions: Vec::new(), next_id: 1 }
    }

    /// An exact copy of the chain.
    #[verifier::loop_isolation(false)]
    pub fn duplicate(&self) -> (r: VersionManager)
        ensures
            r.model() == self.model(),
            r.next_id == self.next_id,
    {
        let n = self.versions.len();
        let mut v: Vec<Version> = Vec::new();
        let mut i: usize = 0;
        while i < n
            invariant
                n == self.versions@.len(),
                i <= n,
                v@.len() == i,
                forall|k: int| 0 <= k < i ==> v@[k]@ == self.versions@[k]@,
            decreases n - i,
        {
            let src = &self.versions[i];
            let blocks = copy_u64s(&src.blocks);
            v.push(
                Version {
                    version_id: src.version_id,
                    root: src.root,
                    created_at: src.created_at,
                    parent: src.parent,
                    blocks,
                },
            );
            i += 1;
        }
        let r = VersionManager { versions: v, next_id: self.next_id };
        proof {
            assert(r.model() =~= self.model());
        }
        r
    }

    /// The current head identifier.
    pub fn head(&self) -> (r: u64)
        ensures
            r == self.head_id(),
    {
        let n = self.versions.len();
        if n == 0 {
            0
        } else {
            self.versions[n - 1].version_id
        }
    }

    /// The root hash of a historical version; every past version remains
    /// readable until pruned.
    #[verifier::loop_isolation(false)]
    pub fn read(&self, vid: u64) -> (r: Result<u64, Error>)
        requires
            self.wf(),
        ensures
            match r {
                Ok(root) => self.has_version(vid) && root == self.version_at(vid).root,
                Err(e) => e == Error::NotFound && !self.has_version(vid),
            },
    {
        let n = self.versions.len();
        let mut i: usize = 0;
        while i < n
            invariant
                n == self.versions@.len(),
                i <= n,
                forall|k: int| 0 <= k < i ==> self.model()[k].version_id != vid,
            decreases n - i,
        {
            if self.versions[i].version_id == vid {
                proof {
                    self.lemma_vidx_unique(vid, i as int);
                }
                return Ok(self.versions[i].root);
            }
            i += 1;
        }
        Err(Error::NotFound)
    }

    /// All retained version identifiers, oldest first.
    #[verifier::loop_isolation(false)]
    pub fn list(&self) -> (r: Vec<u64>)
        ensures
            r@.len() == self.model().len(),
            forall|i: int| 0 <= i < r@.len() ==> r@[i] == self.model()[i].version_id,
    {
        let n = self.versions.len();
        let mut r: Vec<u64> = Vec::new();
        let mut i: usize = 0;
        while i < n
            invariant
                n == self.versions@.len(),
                i <= n,
                r@.len() == i,
                forall|k: int| 0 <= k < i ==> r@[k] == self.model()[k].version_id,
            decreases n - i,
        {
            r.push(self.versions[i].version_id);
            i += 1;
        }
        r
    }

    /// Append a new version whose predecessor is `parent`. Fails with
    /// `StaleParent` exactly when `parent` is not the current head, and with
    /// `LimitExceeded` when the identifier space is exhausted.
    pub fn publish(&mut self, root: u64, parent: u64, created_at: u64, blocks: Vec<u64>) -> (r:
        Result<u64, Error>)
        requires
            old(self).wf(),
        ensures
            final(self).wf(),
            r is Ok <==> parent == old(self).head_id() && old(self).next_id < u64::MAX,
            parent != old(self).head_id() ==> r == Err::<u64, Error>(Error::StaleParent),
            r is Err ==> final(self).model() == old(self).model() && final(self).next_id == old(
                self,
            ).next_id && (r == Err::<u64, Error>(Error::StaleParent) || r == Err::<u64, Error>(
                Error::LimitExceeded,
            )),
            r matches Ok(vid) ==> {
                &&& vid == old(self).next_id
                &&& final(self).next_id == old(self).next_id + 1
                &&& final(self).head_id() == vid
                &&& final(self).model() == old(self).model().push(
                    VersionView {
                        version_id: vid,
                        root,
                        created_at,
                        parent: if old(self).model().len() == 0 {
                            None
                        } else {
                            Some(parent)
                        },
                        blocks: blocks@,
                    },
                )
            },
    {
        let head = self.head();
        if parent != head {
            return Err(Error::StaleParent);
        }
        if self.next_id == u64::MAX {
            return Err(Error::LimitExceeded);
        }
        let vid = self.next_id;
        let parent_link: Option<u64> = if self.versions.len() == 0 {
            None
        } else {
            Some(parent)
        };
        self.versions.push(
            Version { version_id: vid, root, created_at, parent: parent_link, blocks },
        );
        self.next_id = vid + 1;
        proof {
            let m0 = old(self).model();
            let m1 = self.model();
            assert(m1 =~= m0.push(
                VersionView {
                    version_id: vid,
                    root,
                    created_at,
                    parent: if m0.len() == 0 {
                        None
                    } else {
                        Some(parent)
                    },
                    blocks: blocks@,
                },
            ));
            assert(forall|k: int| 0 <= k < m0.len() ==> m1[k] == m0[k]);
        }
        Ok(vid)
    }

    /// Remove version `vid` from the chain. Only ever used for pruning a
    /// non-head version; the caller decrements reference counts.
    #[verifier::loop_isolation(false)]
    pub fn remove_version(&mut self, vid: u64)
        requires
            old(self).wf(),
            old(self).has_version(vid),
        ensures
            final(self).wf(),
            final(self).next_id == old(self).next_id,
            final(self).model() == old(self).model().remove(old(self).vidx(vid)),
    {
        let n = self.versions.len();
        let mut i: usize = 0;
        while i < n
            invariant
                n == self.versions@.len(),
                i <= n,
                self.versions@ == old(self).versions@,
                self.next_id == old(self).next_id,
                forall|k: int| 0 <= k < i ==> self.model()[k].version_id != vid,
            decreases n - i,
        {
            if self.versions[i].version_id == vid {
                proof {
                    old(self).lemma_vidx_unique(vid, i as int);
                }
                self.versions.remove(i);
                proof {
                    assert(self.model() =~= old(self).model().remove(i as int));
                }
                return ;
            }
            i += 1;
        }
        proof {
            assert(false);
        }
    }
}

/// Whether any version of the chain references the hash `h`.
pub open spec fn referenced_by(vs: Seq<VersionView>, h: u64) -> bool {
    exists|i: int| 0 <= i < vs.len() && vs[i].blocks.contains(h)
}

impl VersionManager {
    /// Whether any retained version references `h`.
    #[verifier::loop_isolation(false)]
    pub fn references(&self, h: u64) -> (r: bool)
        ensures
            r == referenced_by(self.model(), h),
    {
        let n = self.versions.len();
        let mut i: usize = 0;
        while i < n
            invariant
                n == self.versions@.len(),
                i <= n,
                forall|k: int| 0 <= k < i ==> !self.model()[k].blocks.contains(h),
            decreases n - i,
        {
            if contains_u64(&self.versions[i].blocks, h) {
                proof {
                    assert(self.model()[i as int].blocks.contains(h));
                }
                return true;
            }
            i += 1;
        }
        false
    }
}

/// Whether a vector of hashes holds `h`.
#[verifier::loop_isolation(false)]
pub fn contains_u64(v: &Vec<u64>, h: u64) -> (r: bool)
    ensures
        r == v@.contains(h),
{
    let n = v.len();
    let mut i: usize = 0;
    while i < n
        invariant
            n == v@.len(),
            i <= n,
            forall|k: int| 0 <= k < i ==> v@[k] != h,
        decreases n - i,
    {
        if v[i] == h {
            return true;
        }
        i += 1;
    }
    proof {
        if v@.contains(h) {
            let k = choose|k: int| 0 <= k < v@.len() && v@[k] == h;
            assert(false);
        }
    }
    false
}

/// Copy a vector of hashes.
pub fn copy_u64s(v: &Vec<u64>) -> (r: Vec<u64>)
    ensures
        r@ == v@,
{
    let n = v.len();
    let mut r: Vec<u64> = Vec::new();
    let mut i: usize = 0;
    while i < n
        invariant
            n == v@.len(),
            i <= n,
            r@ == v@.subrange(0, i as int),
        decreases n - i,
    {
        r.push(v[i]);
        proof {
            assert(r@ =~= v@.subrange(0, i + 1));
        }
        i += 1;
    }
    proof {
        assert(v@.subrange(0, n as int) =~= v@);
    }
    r
}

} // verus!
