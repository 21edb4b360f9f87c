use blockvault::crypto::{open_block, seal};
use blockvault::hash::hash_bytes;
use blockvault::{ContentStore, Error};

const KEY: u64 = 42;

#[test]
fn put_get_roundtrip() {
    let mut store = ContentStore::new();
    let p = b"the quick brown fox".to_vec();
    let h = store.put(KEY, &p);
    assert_eq!(store.get(KEY, h).unwrap(), p);
}

#[test]
fn put_deduplicates_identical_plaintext() {
    let mut store = ContentStore::new();
    let p = b"same bytes".to_vec();
    let h1 = store.put(KEY, &p);
    let h2 = store.put(KEY, &p);
    assert_eq!(h1, h2);
    assert_eq!(store.len(), 1);
    let other = store.put(KEY, &b"different bytes".to_vec());
    assert_ne!(other, h1);
    assert_eq!(store.len(), 2);
}

#[test]
fn get_unknown_hash_is_not_found() {
    let store = ContentStore::new();
    assert_eq!(store.get(KEY, 12345), Err(Error::NotFound));
}

#[test]
fn tampering_one_byte_yields_integrity_error() {
    let mut store = ContentStore::new();
    let p = b"precious data".to_vec();
    let h = store.put(KEY, &p);
    let byte_before = store.blocks[0].ciphertext[3];
    store.corrupt_byte(h, 3, byte_before ^ 0x01);
    // the read fails; the tampered bytes are never returned as plaintext
    assert_eq!(store.get(KEY, h), Err(Error::IntegrityError));
}

#[test]
fn every_single_byte_tamper_is_caught() {
    let mut store = ContentStore::new();
    let p = b"abcd".to_vec();
    let h = store.put(KEY, &p);
    for i in 0..p.len() {
        for flip in [0x01u8, 0x80u8] {
            let mut s2 = ContentStore::new();
            let h2 = s2.put(KEY, &p);
            let byte_before = s2.blocks[0].ciphertext[i];
            s2.corrupt_byte(h2, i, byte_before ^ flip);
            assert_eq!(s2.get(KEY, h2), Err(Error::IntegrityError));
            assert_eq!(h, h2);
        }
    }
}

#[test]
fn delete_removes_the_block() {
    let mut store = ContentStore::new();
    let h = store.put(KEY, &b"to be deleted".to_vec());
    assert!(store.contains(h));
    assert_eq!(store.delete(h), Ok(()));
    assert!(!store.contains(h));
    assert_eq!(store.get(KEY, h), Err(Error::NotFound));
    assert_eq!(store.delete(h), Err(Error::NotFound));
}

#[test]
fn seal_open_roundtrip() {
    let p = b"sealed payload".to_vec();
    let (ct, tag) = seal(KEY, &p);
    assert_ne!(ct, p);
    assert_eq!(open_block(KEY, &ct, tag).unwrap(), p);
}

#[test]
fn open_with_wrong_tag_fails() {
    let p = b"payload".to_vec();
    let (ct, tag) = seal(KEY, &p);
    assert_eq!(open_block(KEY, &ct, tag ^ 1), Err(Error::IntegrityError));
}

#[test]
fn open_with_wrong_key_fails() {
    let p = b"payload".to_vec();
    let (ct, tag) = seal(KEY, &p);
    assert_eq!(open_block(KEY + 1, &ct, tag), Err(Error::IntegrityError));
}

#[test]
fn hash_is_deterministic_and_separates() {
    let a = b"input".to_vec();
    let b = b"input".to_vec();
    let c = b"inpuu".to_vec();
    assert_eq!(hash_bytes(KEY, &a), hash_bytes(KEY, &b));
    assert_ne!(hash_bytes(KEY, &a), hash_bytes(KEY, &c));
    assert_ne!(hash_bytes(KEY, &a), hash_bytes(KEY + 1, &a));
}

#[test]
fn hash_exact_values() {
    // the hash folds `key * MULT + len`, then each byte by
    // `acc * MULT + byte`, all modulo 2^64, with MULT = 0x100000001b3
    assert_eq!(hash_bytes(0, &Vec::new()), 0);
    assert_eq!(hash_bytes(0, &vec![1u8]), 0x100000001b3u64.wrapping_add(1));
    let two = 2u128 * 0x100000001b3u128 % (1u128 << 64);
    assert_eq!(
        hash_bytes(0, &vec![0u8, 0u8]),
        (two.wrapping_mul(0x100000001b3) % (1u128 << 64)) as u64
    );
}
