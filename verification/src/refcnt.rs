//! The reference counter: tracks live-reference counts per content hash and
//! drives garbage collection.
//!
//! An entry is tagged `Live(count)` or `PendingDelete` rather than carrying a
//! boolean flag: the garbage collector pins a zero-count entry as
//! `PendingDelete` before deleting its block, and a transaction that
//! references a pinned hash transitions it back to `Live(1)`, aborting the
//! delete instead of racing it.

use crate::Error;
use vstd::prelude::*;

verus! {

/// The state of one reference-count entry.
#[derive(Clone, Copy)]
pub enum RefState {
    /// The block has this many live references (possibly zero).
    Live(u64),
    /// The garbage collector has pinned the entry for deletion.
    PendingDelete,
}

/// One reference-count entry; at most one per distinct hash.
#[derive(Clone, Copy)]
pub struct RefEntry {
    pub hash: u64,
    pub state: RefState,
}

/// The number of live references an entry state stands for.
pub open spec fn state_count(s: RefState) -> nat {
    match s {
        RefState::Live(c) => c as nat,
        RefState::PendingDelete => 0,
    }
}

/// The reference-counter table.
pub struct RefCounter {
    pub entries: Vec<RefEntry>,
}

impl RefCounter {
    /// Whether an entry for `h` exists.
    pub open spec fn has(self, h: u64) -> bool {
        exists|i: int| 0 <= i < self.entries@.len() && self.entries@[i].hash == h
    }

    /// The position of the entry for `h` (unique when keys are distinct).
    pub open spec fn idx(self, h: u64) -> int {
        choose|i: int| 0 <= i < self.entries@.len() && self.entries@[i].hash == h
    }

    /// The live-reference count of `h`; zero when no entry exists or the
    /// entry is pinned for deletion.
    pub open spec fn count_of(self, h: u64) -> nat {
        if self.has(h) {
            state_count(self.entries@[self.idx(h)].state)
        } else {
            0
        }
    }

    /// Whether `h` is pinned for deletion.
    pub open spec fn is_pending(self, h: u64) -> bool {
        self.has(h) && self.entries@[self.idx(h)].state is PendingDelete
    }

    /// At most one entry per hash.
    pub open spec fn wf(self) -> bool {
        forall|i: int, j: int|
            0 <= i < j < self.entries@.len() ==> self.entries@[i].hash != self.entries@[j].hash
    }

    /// With distinct keys, any position holding `h` is the position `idx`
    /// picks.
    pub proof fn lemma_idx_unique(self, h: u64, i: int)
        requires
            self.wf(),
            0 <= i < self.entries@.len(),
            self.entries@[i].hash == h,
        ensures
            self.has(h),
            self.idx(h) == i,
    {
        assert(self.has(h));
        let j = self.idx(h);
        assert(0 <= j < self.entries@.len() && self.entries@[j].hash == h);
        if j < i {
            assert(false);
        } else if i < j {
            assert(false);
        }
    }

    /// An empty table.
    pub fn new() -> (r: RefCounter)
        ensures
            r.wf(),
            r.entries@.len() == 0,
            forall|h: u64| !r.has(h) && r.count_of(h) == 0,
    {
        RefCounter { entries: Vec::new() }
    }

    /// An exact copy of the table.
    pub fn duplicate(&self) -> (r: RefCounter)
        ensures
            r.entries@ == self.entries@,
    {
        let n = self.entries.len();
        let mut v: Vec<RefEntry> = Vec::new();
        let mut i: usize = 0;
        while i < n
            invariant
                n == self.entries@.len(),
                i <= n,
                v@ == self.entries@.subrange(0, i as int),
            decreases n - i,
        {
            v.push(self.entries[i]);
            proof {
                assert(v@ =~= self.entries@.subrange(0, i + 1));
            }
            i += 1;
        }
        proof {
            assert(self.entries@.subrange(0, n as int) =~= self.entries@);
        }
        RefCounter { entries: v }
    }

    /// The live-reference count of `h`.
    #[verifier::loop_isolation(false)]
    pub fn count(&self, h: u64) -> (c: u64)
        requires
            self.wf(),
        ensures
            c as nat == self.count_of(h),
    {
        let n = self.entries.len();
        let mut i: usize = 0;
        while i < n
            invariant
                n == self.entries@.len(),
                i <= n,
                forall|k: int| 0 <= k < i ==> self.entries@[k].hash != h,
            decreases n - i,
        {
            if self.entries[i].hash == h {
                proof {
                    self.lemma_idx_unique(h, i as int);
                }
                return match self.entries[i].state {
                    RefState::Live(c) => c,
                    RefState::PendingDelete => 0,
                };
            }
            i += 1;
        }
        0
    }

    /// Add one live reference to `h`, creating the entry when the hash was
    /// never counted. Referencing a hash pinned for deletion aborts the
    /// pending delete by reviving the entry as `Live(1)`. Fails with
    /// `LimitExceeded` exactly when the count would overflow its word.
    #[verifier::loop_isolation(false)]
    pub fn increment(&mut self, h: u64) -> (r: Result<(), Error>)
        requires
            old(self).wf(),
        ensures
            final(self).wf(),
            r is Ok <==> old(self).count_of(h) < u64::MAX,
            r is Err ==> r == Err::<(), Error>(Error::LimitExceeded) && final(self).entries@ == old(self).entries@,
            r is Ok ==> {
                &&& final(self).count_of(h) == old(self).count_of(h) + 1
                &&& final(self).has(h)
                &&& !final(self).is_pending(h)
                &&& forall|h2: u64|
                    h2 != h ==> (final(self).has(h2) <==> old(self).has(h2))
                        && final(self).count_of(h2) == old(self).count_of(h2) && (final(self).is_pending(h2) <==> old(self).is_pending(h2))
            },
    {
        let n = self.entries.len();
        let mut i: usize = 0;
        while i < n
            invariant
                n == self.entries@.len(),
                i <= n,
                self.entries@ == old(self).entries@,
                forall|k: int| 0 <= k < i ==> self.entries@[k].hash != h,
            decreases n - i,
        {
            if self.entries[i].hash == h {
                proof {
                    old(self).lemma_idx_unique(h, i as int);
                }
                let c = match self.entries[i].state {
                    RefState::Live(c) => c,
                    RefState::PendingDelete => 0,
                };
                if c == u64::MAX {
                    return Err(Error::LimitExceeded);
                }
                self.entries.set(i, RefEntry { hash: h, state: RefState::Live(c + 1) });
                proof {
                    let s0 = old(self).entries@;
                    let s1 = self.entries@;
                    assert(forall|k: int| 0 <= k < s1.len() && k != i ==> s1[k] == s0[k]);
                    assert(self.wf());
                    self.lemma_idx_unique(h, i as int);
                    assert forall|h2: u64| h2 != h implies (self.has(h2) <==> old(self).has(h2))
                        && self.count_of(h2) == old(self).count_of(h2) && (self.is_pending(h2)
                        <==> old(self).is_pending(h2)) by {
                        if old(self).has(h2) {
                            let j = old(self).idx(h2);
                            assert(s1[j] == s0[j]);
                            self.lemma_idx_unique(h2, j);
                        }
                        if self.has(h2) {
                            let j = self.idx(h2);
                            assert(s0[j] == s1[j]);
                            old(self).lemma_idx_unique(h2, j);
                        }
                    }
                }
                return Ok(());
            }
            i += 1;
        }
        self.entries.push(RefEntry { hash: h, state: RefState::Live(1) });
        proof {
            let s0 = old(self).entries@;
            let s1 = self.entries@;
            let ni = s0.len() as int;
            assert(forall|k: int| 0 <= k < ni ==> s1[k] == s0[k]);
            assert(self.wf());
            self.lemma_idx_unique(h, ni);
            assert(!old(self).has(h));
            assert forall|h2: u64| h2 != h implies (self.has(h2) <==> old(self).has(h2))
                && self.count_of(h2) == old(self).count_of(h2) && (self.is_pending(h2) <==> old(self).is_pending(h2)) by {
                if old(self).has(h2) {
                    let j = old(self).idx(h2);
                    assert(s1[j] == s0[j]);
                    self.lemma_idx_unique(h2, j);
                }
                if self.has(h2) {
                    let j = self.idx(h2);
                    assert(j != ni);
                    assert(s0[j] == s1[j]);
                    old(self).lemma_idx_unique(h2, j);
                }
            }
        }
        Ok(())
    }

    /// Remove one live reference from `h`. Decrementing a count already at
    /// zero is an invariant violation: it fails with `RefCountUnderflow` and
    /// leaves the table untouched.
    #[verifier::loop_isolation(false)]
    pub fn decrement(&mut self, h: u64) -> (r: Result<(), Error>)
        requires
            old(self).wf(),
        ensures
            final(self).wf(),
            r is Ok <==> old(self).count_of(h) > 0,
            r is Err ==> r == Err::<(), Error>(Error::RefCountUnderflow) && final(self).entries@
                == old(self).entries@,
            r is Ok ==> {
                &&& final(self).count_of(h) + 1 == old(self).count_of(h)
                &&& final(self).has(h)
                &&& forall|h2: u64|
                    h2 != h ==> (final(self).has(h2) <==> old(self).has(h2))
                        && final(self).count_of(h2) == old(self).count_of(h2) && (final(self).is_pending(h2) <==> old(self).is_pending(h2))
            },
    {
        let n = self.entries.len();
        let mut i: usize = 0;
        while i < n
            invariant
                n == self.entries@.len(),
                i <= n,
                self.entries@ == old(self).entries@,
                forall|k: int| 0 <= k < i ==> self.entries@[k].hash != h,
            decreases n - i,
        {
            if self.entries[i].hash == h {
                proof {
                    old(self).lemma_idx_unique(h, i as int);
                }
                let c = match self.entries[i].state {
                    RefState::Live(c) => c,
                    RefState::PendingDelete => 0,
                };
                if c == 0 {
                    return Err(Error::RefCountUnderflow);
                }
                self.entries.set(i, RefEntry { hash: h, state: RefState::Live(c - 1) });
                proof {
                    let s0 = old(self).entries@;
                    let s1 = self.entries@;
                    assert(forall|k: int| 0 <= k < s1.len() && k != i ==> s1[k] == s0[k]);
                    assert(self.wf());
                    self.lemma_idx_unique(h, i as int);
                    assert forall|h2: u64| h2 != h implies (self.has(h2) <==> old(self).has(h2))
                        && self.count_of(h2) == old(self).count_of(h2) && (self.is_pending(h2)
                        <==> old(self).is_pending(h2)) by {
                        if old(self).has(h2) {
                            let j = old(self).idx(h2);
                            assert(s1[j] == s0[j]);
                            self.lemma_idx_unique(h2, j);
                        }
                        if self.has(h2) {
                            let j = self.idx(h2);
                            assert(s0[j] == s1[j]);
                            old(self).lemma_idx_unique(h2, j);
                        }
                    }
                }
                return Ok(());
            }
            i += 1;
        }
        Err(Error::RefCountUnderflow)
    }

    /// Pin `h` for deletion: mark its zero-count entry `PendingDelete` so
    /// the garbage collector may delete the block. A hash without an entry
    /// is left as is.
    #[verifier::loop_isolation(false)]
    pub fn pin(&mut self, h: u64)
        requires
            old(self).wf(),
            old(self).count_of(h) == 0,
        ensures
            final(self).wf(),
            final(self).has(h) <==> old(self).has(h),
            old(self).has(h) ==> final(self).is_pending(h),
            final(self).count_of(h) == 0,
            forall|h2: u64|
                h2 != h ==> (final(self).has(h2) <==> old(self).has(h2)) && final(self).count_of(
                    h2,
                ) == old(self).count_of(h2) && (final(self).is_pending(h2) <==> old(self).is_pending(h2)),
    {
        let n = self.entries.len();
        let mut i: usize = 0;
        while i < n
            invariant
                n == self.entries@.len(),
                i <= n,
                self.entries@ == old(self).entries@,
                forall|k: int| 0 <= k < i ==> self.entries@[k].hash != h,
            decreases n - i,
        {
            if self.entries[i].hash == h {
                proof {
                    old(self).lemma_idx_unique(h, i as int);
                }
                self.entries.set(i, RefEntry { hash: h, state: RefState::PendingDelete });
                proof {
                    let s0 = old(self).entries@;
                    let s1 = self.entries@;
                    assert(forall|k: int| 0 <= k < s1.len() && k != i ==> s1[k] == s0[k]);
                    assert(self.wf());
                    self.lemma_idx_unique(h, i as int);
                    assert forall|h2: u64| h2 != h implies (self.has(h2) <==> old(self).has(h2))
                        && self.count_of(h2) == old(self).count_of(h2) && (self.is_pending(h2)
                        <==> old(self).is_pending(h2)) by {
                        if old(self).has(h2) {
                            let j = old(self).idx(h2);
                            assert(s1[j] == s0[j]);
                            self.lemma_idx_unique(h2, j);
                        }
                        if self.has(h2) {
                            let j = self.idx(h2);
                            assert(s0[j] == s1[j]);
                            old(self).lemma_idx_unique(h2, j);
                        }
                    }
                }
                return ;
            }
            i += 1;
        }
    }
}

/// The transition `decrement` makes, as stated in its contract.
pub open spec fn decrement_post(
    pre: RefCounter,
    post: RefCounter,
    h: u64,
    r: Result<(), Error>,
) -> bool {
    &&& (r is Ok <==> pre.count_of(h) > 0)
    &&& (r is Err ==> r == Err::<(), Error>(Error::RefCountUnderflow) && post.entries@
        == pre.entries@)
    &&& (r is Ok ==> post.count_of(h) + 1 == pre.count_of(h))
}

/// A reference count never goes negative: the counter refuses to decrement a
/// hash with no live references, answers `RefCountUnderflow`, and leaves
/// every count exactly as it was.
pub proof fn lemma_no_underflow(pre: RefCounter, post: RefCounter, h: u64, r: Result<(), Error>)
    requires
        pre.count_of(h) == 0,
        decrement_post(pre, post, h, r),
    ensures
        r == Err::<(), Error>(Error::RefCountUnderflow),
        post.entries@ == pre.entries@,
        forall|h2: u64| post.count_of(h2) == pre.count_of(h2),
{
    assert forall|h2: u64| post.count_of(h2) == pre.count_of(h2) by {
        assert(post.entries@ == pre.entries@);
    }
}

} // verus!
