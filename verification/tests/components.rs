use blockvault::{BlockCache, Error, IntoRef, RefCounter, RefEntry, RefState, VersionManager};

#[test]
fn refcount_increment_and_decrement() {
    let mut rc = RefCounter::new();
    assert_eq!(rc.count(5), 0);
    rc.increment(5).unwrap();
    rc.increment(5).unwrap();
    assert_eq!(rc.count(5), 2);
    rc.decrement(5).unwrap();
    assert_eq!(rc.count(5), 1);
    rc.decrement(5).unwrap();
    assert_eq!(rc.count(5), 0);
}

#[test]
fn refcount_never_goes_negative() {
    let mut rc = RefCounter::new();
    rc.increment(7).unwrap();
    rc.decrement(7).unwrap();
    // the count sits at zero: forcing it below is an invariant violation
    assert_eq!(rc.decrement(7), Err(Error::RefCountUnderflow));
    assert_eq!(rc.count(7), 0);
    // a hash never counted cannot be decremented either
    assert_eq!(rc.decrement(999), Err(Error::RefCountUnderflow));
}

#[test]
fn refcount_pin_and_resurrect() {
    let mut rc = RefCounter::new();
    rc.increment(3).unwrap();
    rc.decrement(3).unwrap();
    rc.pin(3);
    assert_eq!(rc.count(3), 0);
    // a transaction referencing a pinned hash aborts the delete: the entry
    // comes back live
    rc.increment(3).unwrap();
    assert_eq!(rc.count(3), 1);
}

#[test]
fn refcount_overflow_is_limit_exceeded() {
    let mut rc = RefCounter::new();
    rc.entries.push(RefEntry { hash: 9, state: RefState::Live(u64::MAX) });
    assert_eq!(rc.increment(9), Err(Error::LimitExceeded));
    assert_eq!(rc.count(9), u64::MAX);
}

#[test]
fn cache_evicts_least_recently_used() {
    let mut cache = BlockCache::new(2);
    cache.insert(1, vec![1]);
    cache.insert(2, vec![2]);
    cache.insert(3, vec![3]);
    // capacity two, three distinct hashes: the first-accessed one is gone
    assert!(!cache.contains(1));
    assert!(cache.contains(2));
    assert!(cache.contains(3));
    assert_eq!(cache.lookup(1), None);
    assert_eq!(cache.lookup(2).unwrap(), vec![2]);
}

#[test]
fn cache_lookup_refreshes_recency() {
    let mut cache = BlockCache::new(2);
    cache.insert(1, vec![1]);
    cache.insert(2, vec![2]);
    assert_eq!(cache.lookup(1).unwrap(), vec![1]);
    cache.insert(3, vec![3]);
    // hash 2 was the least recently used once 1 was touched
    assert!(cache.contains(1));
    assert!(!cache.contains(2));
    assert!(cache.contains(3));
}

#[test]
fn cache_invalidate_drops_the_entry() {
    let mut cache = BlockCache::new(4);
    cache.insert(8, vec![8, 8]);
    assert!(cache.contains(8));
    cache.invalidate(8);
    assert!(!cache.contains(8));
    assert_eq!(cache.lookup(8), None);
    assert_eq!(cache.len(), 0);
}

#[test]
fn cache_capacity_zero_holds_nothing() {
    let mut cache = BlockCache::new(0);
    cache.insert(1, vec![1]);
    assert!(!cache.contains(1));
    assert_eq!(cache.len(), 0);
}

#[test]
fn version_publish_and_read() {
    let mut vm = VersionManager::new();
    assert_eq!(vm.head(), 0);
    let v1 = vm.publish(10, 0, 1000, vec![10, 11]).unwrap();
    assert_eq!(v1, 1);
    let v2 = vm.publish(20, v1, 1001, vec![20]).unwrap();
    assert_eq!(vm.head(), v2);
    assert_eq!(vm.read(v1).unwrap(), 10);
    assert_eq!(vm.read(v2).unwrap(), 20);
    assert_eq!(vm.read(9), Err(Error::NotFound));
    assert_eq!(vm.list(), vec![v1, v2]);
    assert!(vm.references(11));
    assert!(!vm.references(99));
}

#[test]
fn version_publish_stale_parent() {
    let mut vm = VersionManager::new();
    let v1 = vm.publish(10, 0, 1000, vec![10]).unwrap();
    // the chain advanced: publishing against the old parent loses
    assert_eq!(vm.publish(30, 0, 1002, vec![30]), Err(Error::StaleParent));
    assert_eq!(vm.head(), v1);
}

#[test]
fn version_id_exhaustion_is_limit_exceeded() {
    let mut vm = VersionManager::new();
    vm.next_id = u64::MAX;
    assert_eq!(vm.publish(10, 0, 1000, vec![10]), Err(Error::LimitExceeded));
}

#[test]
fn into_ref_wraps_into_a_shared_handle() {
    let rc = RefCounter::new();
    let handle = rc.into_ref();
    assert_eq!(handle.read().unwrap().count(1), 0);
    handle.write().unwrap().increment(1).unwrap();
    assert_eq!(handle.read().unwrap().count(1), 1);
    let cache = BlockCache::new(2);
    let shared = cache.into_ref();
    assert_eq!(shared.read().unwrap().len(), 0);
}
