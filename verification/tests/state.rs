use persistent_queue::{Durability, MemStore, Op, QueueState, Refusal, Store, TryPushError, entry_key};
use persistent_queue::state::check_meta;

fn fresh(capacity: usize, durability: Durability) -> QueueState<MemStore> {
    match QueueState::recover(MemStore::new(), capacity, durability, durability.durable()) {
        Ok(q) => q,
        Err(_) => panic!("a fresh store opens"),
    }
}

#[test]
fn two_pushes_come_out_in_order() {
    let mut q = fresh(8, Durability::Sync);
    q.try_push(b"a").unwrap();
    q.try_push(b"b").unwrap();
    let (s1, v1) = q.reserve().unwrap().unwrap();
    let (s2, v2) = q.reserve().unwrap().unwrap();
    assert_eq!((s1, v1.as_slice()), (0, &b"a"[..]));
    assert_eq!((s2, v2.as_slice()), (1, &b"b"[..]));
    assert!(q.reserve().unwrap().is_none());
}

#[test]
fn returned_item_is_handed_out_again() {
    let mut q = fresh(8, Durability::Sync);
    q.try_push(b"a").unwrap();
    q.try_push(b"b").unwrap();
    let (s, _) = q.reserve().unwrap().unwrap();
    q.release(s);
    let (again, value) = q.reserve().unwrap().unwrap();
    assert_eq!((again, value.as_slice()), (s, &b"a"[..]));
}

#[test]
fn acked_item_is_gone_and_head_jumps_out_of_order_acks() {
    let mut q = fresh(8, Durability::Sync);
    for v in [b"a", b"b", b"c"] {
        q.try_push(v).unwrap();
    }
    let (s0, _) = q.reserve().unwrap().unwrap();
    let (s1, _) = q.reserve().unwrap().unwrap();
    let (s2, _) = q.reserve().unwrap().unwrap();
    q.ack(s1).unwrap();
    q.ack(s0).unwrap();
    assert_eq!(q.len(), 1);
    q.release(s2);
    assert_eq!(q.reserve().unwrap().unwrap().0, 2);
    q.ack(s2).unwrap();
    assert_eq!(q.len(), 0);
    assert!(q.reserve().unwrap().is_none());
}

#[test]
fn full_at_capacity_and_closed_after_close() {
    let mut q = fresh(2, Durability::Sync);
    q.try_push(b"a").unwrap();
    q.try_push(b"b").unwrap();
    assert!(matches!(q.try_push(b"c"), Err(TryPushError::Full)));
    q.close();
    assert!(q.closed());
    assert!(matches!(q.try_push(b"c"), Err(TryPushError::Closed)));
    // The consumer still drains after close.
    let (s, _) = q.reserve().unwrap().unwrap();
    q.ack(s).unwrap();
    assert_eq!(q.len(), 1);
}

#[test]
fn recovery_counts_items_and_continues_numbering() {
    let mut store = MemStore::new();
    store
        .commit(
            &[
                Op::Put(&entry_key(3), b"three"),
                Op::Put(&entry_key(10), b"ten"),
                Op::Put(&entry_key(4), b"four"),
            ],
            true,
        )
        .unwrap();
    let mut q = match QueueState::recover(store, 8, Durability::Sync, true) {
        Ok(q) => q,
        Err(_) => panic!("opens"),
    };
    assert_eq!(q.len(), 3);
    q.try_push(b"eleven").unwrap();
    let seqs: Vec<u64> = (0..4).map(|_| q.reserve().unwrap().unwrap().0).collect();
    assert_eq!(seqs, vec![3, 4, 10, 11]);
}

#[test]
fn batched_pushes_share_one_write() {
    let mut q = fresh(8, Durability::Group);
    assert!(q.grouped());
    let a = q.enqueue(b"a").unwrap();
    let b = q.enqueue(b"b").unwrap();
    assert_eq!((a, b), (0, 1));
    // Nothing is stored until the batch is written.
    assert!(q.reserve().unwrap().is_none());
    // Settling the second writes both; the first then finds its recorded outcome.
    q.settle(b, b"b").unwrap();
    q.settle(a, b"a").unwrap();
    assert_eq!(q.len(), 2);
    assert_eq!(q.reserve().unwrap().unwrap(), (0, b"a".to_vec()));
    assert_eq!(q.reserve().unwrap().unwrap(), (1, b"b".to_vec()));
}

#[test]
fn enqueue_refuses_when_full_or_closed() {
    let mut q = fresh(1, Durability::Group);
    q.enqueue(b"a").unwrap();
    assert!(matches!(q.enqueue(b"b"), Err(Refusal::Full)));
    q.close();
    assert!(matches!(q.enqueue(b"b"), Err(Refusal::Closed)));
}

#[test]
fn settings_follow_the_durability_policy() {
    assert!(Durability::Sync.durable() && !Durability::Sync.group());
    assert!(Durability::Group.durable() && Durability::Group.group());
    assert!(!Durability::NoSync.durable() && !Durability::NoSync.group());
    assert_eq!(Durability::default(), Durability::Sync);
}

#[test]
fn meta_record_check() {
    assert_eq!(check_meta(&None), Ok(true));
    assert_eq!(check_meta(&Some(vec![1])), Ok(false));
    assert_eq!(check_meta(&Some(vec![1, 7])), Ok(false));
    assert_eq!(check_meta(&Some(vec![9])), Err(9));
    assert_eq!(check_meta(&Some(Vec::new())), Err(0));
}

#[test]
fn grouped_pushes_settle_in_order() {
    let mut q = fresh(8, Durability::Group);
    let a = q.enqueue(b"a").unwrap();
    let b = q.enqueue(b"b").unwrap();
    assert!(q.settle(a, b"a").is_ok());
    assert!(q.settle(b, b"b").is_ok());
    let (s1, v1) = q.reserve().unwrap().unwrap();
    let (s2, v2) = q.reserve().unwrap().unwrap();
    assert_eq!((s1, v1.as_slice()), (a, &b"a"[..]));
    assert_eq!((s2, v2.as_slice()), (b, &b"b"[..]));
}

#[test]
fn acking_the_oldest_skips_numbers_that_hold_nothing() {
    let mut store = MemStore::new();
    store
        .commit(&[Op::Put(&entry_key(0), b"zero"), Op::Put(&entry_key(5), b"five")], false)
        .unwrap();
    let mut q = match QueueState::recover(store, 8, Durability::Sync, true) {
        Ok(q) => q,
        Err(_) => panic!("the store opens"),
    };
    assert_eq!(q.oldest_unacked(), 0);
    let (s, _) = q.reserve().unwrap().unwrap();
    assert_eq!(s, 0);
    q.ack(s).unwrap();
    assert_eq!(q.oldest_unacked(), 5);
    let (s, _) = q.reserve().unwrap().unwrap();
    q.ack(s).unwrap();
    assert_eq!(q.oldest_unacked(), 6);
}
