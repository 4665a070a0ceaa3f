use persistent_queue::{
    entry_key, is_entry, seq_of, MemStore, Op, Store, ENTRY_HIGH, ENTRY_LOW, META_KEY,
};

#[test]
fn key_roundtrip() {
    for seq in [0u64, 1, 255, 256, u32::MAX as u64, u64::MAX] {
        let key = entry_key(seq);
        assert!(is_entry(&key));
        assert_eq!(seq_of(&key), seq);
    }
}

#[test]
fn keys_sort_by_seq_after_meta() {
    assert!(META_KEY[..] < ENTRY_LOW[..]);
    assert!(ENTRY_LOW[..] < entry_key(0)[..]);
    assert!(entry_key(1) < entry_key(2));
    assert!(entry_key(255) < entry_key(256));
    assert!(entry_key(u64::MAX)[..] <= ENTRY_HIGH[..]);
}

// Big-endian keys must sort in numeric seq order across byte boundaries, where a
// little-endian or text encoding would not.
#[test]
fn store_orders_keys_by_numeric_seq() {
    let mut store = MemStore::new();
    for &seq in &[300u64, 1, 256, 255, 2, 65_536, 65_535] {
        store
            .commit(&[Op::Put(&entry_key(seq), b"x")], false)
            .unwrap();
    }
    assert_eq!(
        collect_seqs(&store),
        vec![1, 2, 255, 256, 300, 65_535, 65_536]
    );
}

#[test]
fn entry_key_bytes_are_big_endian() {
    assert_eq!(entry_key(0x0102_0304_0506_0708), vec![1, 1, 2, 3, 4, 5, 6, 7, 8]);
    assert_eq!(entry_key(0), vec![1, 0, 0, 0, 0, 0, 0, 0, 0]);
    assert_eq!(entry_key(u64::MAX)[..], ENTRY_HIGH[..]);
    assert_eq!(seq_of(&[1, 0, 0, 0, 0, 0, 0, 1, 0]), 256);
}

#[test]
fn only_nine_byte_prefixed_keys_are_entries() {
    assert!(!is_entry(&META_KEY));
    assert!(!is_entry(&ENTRY_LOW));
    assert!(!is_entry(&[2, 0, 0, 0, 0, 0, 0, 0, 0]));
    assert!(!is_entry(&[1, 0, 0, 0, 0, 0, 0, 0, 0, 0]));
    assert!(is_entry(&ENTRY_HIGH));
}

fn collect_seqs(store: &MemStore) -> Vec<u64> {
    let mut seqs = Vec::new();
    let mut cursor = ENTRY_LOW.to_vec();
    while let Some((key, _)) = store.seek(&cursor).unwrap() {
        if !is_entry(&key) {
            break;
        }
        seqs.push(seq_of(&key));
        cursor = entry_key(seq_of(&key) + 1).to_vec();
    }
    seqs
}
