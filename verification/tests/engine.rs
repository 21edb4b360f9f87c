use blockvault::{Error, Repo};

const KEY: u64 = 0x1234_5678_9abc_def0;

fn bytes(s: &str) -> Vec<u8> {
    s.as_bytes().to_vec()
}

#[test]
fn dedup_two_stage_writes_count_two() {
    let mut repo = Repo::new(KEY, 4);
    let mut tx = repo.begin_transaction(0).unwrap();
    let h1 = repo.stage_write(&mut tx, &bytes("hello world"));
    let h2 = repo.stage_write(&mut tx, &bytes("hello world"));
    assert_eq!(h1, h2);
    assert_eq!(repo.num_blocks(), 1);
    let v1 = repo.commit(&mut tx, h1).unwrap();
    assert_eq!(v1, 1);
    assert_eq!(repo.ref_count(h1), 2);
}

#[test]
fn stage_commit_read_roundtrip() {
    let mut repo = Repo::new(KEY, 4);
    let mut tx = repo.begin_transaction(0).unwrap();
    let p = bytes("some plaintext content");
    let h = repo.stage_write(&mut tx, &p);
    let v1 = repo.commit(&mut tx, h).unwrap();
    assert_eq!(repo.read_block(v1, h).unwrap(), p);
    // a second read is served from the cache and yields the same bytes
    assert_eq!(repo.read_block(v1, h).unwrap(), p);
}

#[test]
fn read_is_scoped_to_the_version() {
    let mut repo = Repo::new(KEY, 4);
    let mut tx = repo.begin_transaction(0).unwrap();
    let ha = repo.stage_write(&mut tx, &bytes("a"));
    let v1 = repo.commit(&mut tx, ha).unwrap();
    let mut tx2 = repo.begin_transaction(v1).unwrap();
    let hb = repo.stage_write(&mut tx2, &bytes("b"));
    let v2 = repo.commit(&mut tx2, hb).unwrap();
    // v1 never referenced hb, so reading hb through v1 fails
    assert_eq!(repo.read_block(v1, hb), Err(Error::NotFound));
    assert!(repo.read_block(v2, hb).is_ok());
    assert_eq!(repo.read_block(99, ha), Err(Error::NotFound));
}

#[test]
fn conflicting_commit_fails_and_retry_does_not_duplicate() {
    let mut repo = Repo::new(KEY, 4);
    let mut tx_a = repo.begin_transaction(0).unwrap();
    let mut tx_b = repo.begin_transaction(0).unwrap();
    let p = bytes("shared content");
    let ha = repo.stage_write(&mut tx_a, &p);
    let hb = repo.stage_write(&mut tx_b, &p);
    assert_eq!(ha, hb);
    assert_eq!(repo.num_blocks(), 1);
    let v1 = repo.commit(&mut tx_a, ha).unwrap();
    // B loses the race for the head
    assert_eq!(repo.commit(&mut tx_b, hb), Err(Error::Conflict));
    repo.rollback(&mut tx_b);
    // B retries against the new head; the content is already stored, so the
    // retry costs bookkeeping, not storage
    let mut tx_b2 = repo.begin_transaction(v1).unwrap();
    let hb2 = repo.stage_write(&mut tx_b2, &p);
    assert_eq!(hb2, ha);
    assert_eq!(repo.num_blocks(), 1);
    let v2 = repo.commit(&mut tx_b2, hb2).unwrap();
    assert_eq!(v2, v1 + 1);
    assert_eq!(repo.ref_count(ha), 2);
}

#[test]
fn prune_decrements_only_unreachable_blocks() {
    let mut repo = Repo::new(KEY, 4);
    let mut tx = repo.begin_transaction(0).unwrap();
    let ha = repo.stage_write(&mut tx, &bytes("kept by both"));
    let hb = repo.stage_write(&mut tx, &bytes("only in v1"));
    let v1 = repo.commit(&mut tx, ha).unwrap();
    let mut tx2 = repo.begin_transaction(v1).unwrap();
    let ha2 = repo.stage_write(&mut tx2, &bytes("kept by both"));
    let hc = repo.stage_write(&mut tx2, &bytes("only in v2"));
    assert_eq!(ha2, ha);
    let v2 = repo.commit(&mut tx2, ha2).unwrap();
    assert_eq!(repo.ref_count(ha), 2);
    assert_eq!(repo.ref_count(hb), 1);
    assert_eq!(repo.ref_count(hc), 1);
    repo.prune_version(v1).unwrap();
    // the shared block keeps its count; the exclusive one loses its only
    // reference
    assert_eq!(repo.ref_count(ha), 2);
    assert_eq!(repo.ref_count(hb), 0);
    assert_eq!(repo.ref_count(hc), 1);
    assert!(repo.read_block(v2, ha).is_ok());
    // garbage collection now reclaims exactly the unreferenced block
    assert_eq!(repo.num_blocks(), 3);
    assert_eq!(repo.run_gc(), 1);
    assert_eq!(repo.num_blocks(), 2);
    assert!(repo.read_block(v2, ha).is_ok());
}

#[test]
fn prune_rejects_head_and_unknown_versions() {
    let mut repo = Repo::new(KEY, 4);
    let mut tx = repo.begin_transaction(0).unwrap();
    let h = repo.stage_write(&mut tx, &bytes("x"));
    let v1 = repo.commit(&mut tx, h).unwrap();
    assert_eq!(repo.prune_version(v1), Err(Error::Conflict));
    assert_eq!(repo.prune_version(77), Err(Error::NotFound));
}

#[test]
fn crash_before_publish_keeps_previous_head() {
    let mut repo = Repo::new(KEY, 4);
    let mut tx = repo.begin_transaction(0).unwrap();
    let ha = repo.stage_write(&mut tx, &bytes("committed"));
    let v1 = repo.commit(&mut tx, ha).unwrap();
    // a second transaction writes its blocks but crashes before commit:
    // the block is durable, the published state is untouched
    let mut tx2 = repo.begin_transaction(v1).unwrap();
    let hd = repo.stage_write(&mut tx2, &bytes("never committed"));
    drop(tx2);
    assert_eq!(repo.num_blocks(), 2);
    let device = repo.into_device();
    let mut reopened = Repo::open(device, KEY, 4);
    // the pre-crash head is intact and fully readable
    assert_eq!(reopened.head_version(), v1);
    assert_eq!(reopened.read_block(v1, ha).unwrap(), bytes("committed"));
    // the orphaned block carries no references and is reclaimed
    assert_eq!(reopened.ref_count(hd), 0);
    assert_eq!(reopened.run_gc(), 1);
    assert_eq!(reopened.num_blocks(), 1);
    assert_eq!(reopened.read_block(v1, ha).unwrap(), bytes("committed"));
}

#[test]
fn rollback_discards_bookkeeping_not_device_writes() {
    let mut repo = Repo::new(KEY, 4);
    let mut tx = repo.begin_transaction(0).unwrap();
    let h = repo.stage_write(&mut tx, &bytes("doomed"));
    repo.rollback(&mut tx);
    assert_eq!(tx.state, blockvault::TxState::RolledBack);
    assert_eq!(repo.head_version(), 0);
    assert_eq!(repo.ref_count(h), 0);
    assert_eq!(repo.num_blocks(), 1);
    assert_eq!(repo.run_gc(), 1);
    assert_eq!(repo.num_blocks(), 0);
}

#[test]
fn cache_misses_go_back_to_the_store() {
    let mut repo = Repo::new(KEY, 2);
    let mut tx = repo.begin_transaction(0).unwrap();
    let ha = repo.stage_write(&mut tx, &bytes("block a"));
    let hb = repo.stage_write(&mut tx, &bytes("block b"));
    let hc = repo.stage_write(&mut tx, &bytes("block c"));
    let v1 = repo.commit(&mut tx, ha).unwrap();
    assert!(repo.read_block(v1, ha).is_ok());
    assert!(repo.read_block(v1, hb).is_ok());
    assert!(repo.read_block(v1, hc).is_ok());
    // capacity two: the first-read block was evicted
    assert!(!repo.cache.contains(ha));
    assert!(repo.cache.contains(hb));
    assert!(repo.cache.contains(hc));
    // re-reading the evicted block decrypts it again and re-caches it
    assert_eq!(repo.read_block(v1, ha).unwrap(), bytes("block a"));
    assert!(repo.cache.contains(ha));
}

#[test]
fn commit_rejects_unstaged_root() {
    let mut repo = Repo::new(KEY, 4);
    let mut tx = repo.begin_transaction(0).unwrap();
    let _ = repo.stage_write(&mut tx, &bytes("y"));
    assert_eq!(repo.commit(&mut tx, 0xdead), Err(Error::NotFound));
}

#[test]
fn gc_between_stage_and_commit_makes_commit_fail() {
    let mut repo = Repo::new(KEY, 4);
    let mut tx = repo.begin_transaction(0).unwrap();
    let h = repo.stage_write(&mut tx, &bytes("raced"));
    // an unfortunate sweep reclaims the still-unreferenced block
    assert_eq!(repo.run_gc(), 1);
    assert_eq!(repo.commit(&mut tx, h), Err(Error::NotFound));
}

#[test]
fn begin_transaction_validates_the_base() {
    let mut repo = Repo::new(KEY, 4);
    assert!(repo.begin_transaction(0).is_ok());
    assert_eq!(repo.begin_transaction(5).unwrap_err(), Error::NotFound);
    let mut tx = repo.begin_transaction(0).unwrap();
    let h = repo.stage_write(&mut tx, &bytes("z"));
    let v1 = repo.commit(&mut tx, h).unwrap();
    // once a version exists, zero is no longer a valid base
    assert_eq!(repo.begin_transaction(0).unwrap_err(), Error::NotFound);
    assert!(repo.begin_transaction(v1).is_ok());
    repo.next_tx = u64::MAX;
    assert_eq!(repo.begin_transaction(v1).unwrap_err(), Error::LimitExceeded);
}

#[test]
fn list_versions_is_append_only() {
    let mut repo = Repo::new(KEY, 4);
    let mut tx = repo.begin_transaction(0).unwrap();
    let h = repo.stage_write(&mut tx, &bytes("one"));
    let v1 = repo.commit(&mut tx, h).unwrap();
    let mut tx2 = repo.begin_transaction(v1).unwrap();
    let h2 = repo.stage_write(&mut tx2, &bytes("two"));
    let v2 = repo.commit(&mut tx2, h2).unwrap();
    assert_eq!(repo.list_versions(), vec![v1, v2]);
    assert_eq!(repo.head_version(), v2);
}
