use persistent_queue::{
    Builder, Consumer, Durability, MemStore, Op, OpenError, Producer, PushError, ReserveStep,
    Store, TryPushError, META_KEY, entry_key,
};

fn mem(capacity: usize) -> (Producer<MemStore>, Consumer<MemStore>) {
    Builder::new(MemStore::new())
        .capacity(capacity)
        .open()
        .unwrap()
}

#[test]
fn open_recovers_tail_len_and_skips_gaps() {
    let mut store = MemStore::new();
    store
        .commit(
            &[
                Op::Put(&entry_key(5), b"five"),
                Op::Put(&entry_key(7), b"seven"),
            ],
            false,
        )
        .unwrap();

    let (tx, rx) = Builder::new(store).capacity(8).open().unwrap();
    assert_eq!(tx.len(), 2);

    tx.push(b"eight").unwrap(); // tail recovered as 8
    let a = rx.reserve().unwrap().unwrap();
    assert_eq!((a.seq(), &*a), (5, &b"five"[..]));
    a.ack().unwrap();
    let b = rx.reserve().unwrap().unwrap();
    assert_eq!(b.seq(), 7); // gap at 6 is skipped
    b.ack().unwrap();
    assert_eq!(rx.reserve().unwrap().unwrap().seq(), 8);
}

#[test]
fn unsupported_version_is_rejected() {
    let mut store = MemStore::new();
    store.commit(&[Op::Put(&META_KEY, &[2])], false).unwrap();
    match Builder::new(store).open() {
        Err(OpenError::UnsupportedVersion(v)) => assert_eq!(v, 2),
        _ => panic!("expected UnsupportedVersion"),
    }
}

#[test]
fn try_push_is_full_at_capacity() {
    let (tx, rx) = mem(1);
    tx.push(b"a").unwrap();
    assert!(matches!(tx.try_push(b"b"), Err(TryPushError::Full)));
    rx.reserve().unwrap().unwrap().ack().unwrap();
    tx.try_push(b"b").unwrap();
}

#[test]
fn close_rejects_further_push() {
    let (tx, _rx) = mem(4);
    tx.close();
    assert!(matches!(tx.push(b"a"), Err(PushError::Closed)));
    assert!(matches!(tx.try_push(b"a"), Err(TryPushError::Closed)));
}

#[test]
fn nack_returns_item_for_redelivery() {
    let (tx, rx) = mem(4);
    tx.push(b"a").unwrap();
    rx.reserve().unwrap().unwrap().nack();
    assert_eq!(rx.reserve().unwrap().unwrap().seq(), 0);
}

#[test]
fn drop_returns_item_for_redelivery() {
    let (tx, rx) = mem(4);
    tx.push(b"a").unwrap();
    drop(rx.reserve().unwrap().unwrap());
    assert_eq!(rx.reserve().unwrap().unwrap().seq(), 0);
}

#[test]
fn reserve_is_none_when_empty_or_all_reserved() {
    let (tx, rx) = mem(4);
    assert!(rx.reserve().unwrap().is_none());
    tx.push(b"a").unwrap();
    let _held = rx.reserve().unwrap().unwrap();
    assert!(rx.reserve().unwrap().is_none());
}

#[test]
fn group_durability_delivers_in_order() {
    let (tx, rx) = Builder::new(MemStore::new())
        .capacity(8)
        .durability(Durability::Group)
        .open()
        .unwrap();
    for i in 0..4u8 {
        tx.push(&[i]).unwrap();
    }
    for i in 0..4u8 {
        let item = rx.reserve().unwrap().unwrap();
        assert_eq!(&*item, &[i][..]);
        item.ack().unwrap();
    }
    assert!(rx.reserve().unwrap().is_none());
}

#[test]
fn push_reserve_ack_roundtrip() {
    let (tx, rx) = mem(8);
    tx.push(b"a").unwrap();
    tx.push(b"b").unwrap();
    assert_eq!(tx.len(), 2);

    let a = rx.reserve().unwrap().unwrap();
    assert_eq!(&*a, &b"a"[..]);
    a.ack().unwrap();
    assert_eq!(tx.len(), 1);

    let b = rx.reserve().unwrap().unwrap();
    assert_eq!(&*b, &b"b"[..]);
    b.ack().unwrap();

    assert!(rx.reserve().unwrap().is_none());
    assert!(tx.is_empty());
}

#[test]
fn try_push_waiting_reports_full_as_none() {
    let (tx, rx) = mem(1);
    assert!(matches!(tx.try_push_waiting(b"a"), Some(Ok(()))));
    assert!(tx.try_push_waiting(b"b").is_none());
    let item = rx.reserve().unwrap().unwrap();
    item.ack().unwrap();
    assert!(matches!(tx.try_push_waiting(b"b"), Some(Ok(()))));
    tx.close();
    assert!(matches!(tx.try_push_waiting(b"c"), Some(Err(PushError::Closed))));
}

#[test]
fn reserve_step_waits_then_drains() {
    let (tx, rx) = mem(4);
    assert!(matches!(rx.reserve_step(), Ok(ReserveStep::Wait)));
    tx.push(b"x").unwrap();
    let item = match rx.reserve_step() {
        Ok(ReserveStep::Item(item)) => item,
        _ => panic!("expected an item"),
    };
    assert_eq!(&*item, b"x");
    tx.close();
    assert!(matches!(rx.reserve_step(), Ok(ReserveStep::Wait)));
    item.ack().unwrap();
    assert!(matches!(rx.reserve_step(), Ok(ReserveStep::Drained)));
}

#[test]
fn default_builder_opens_with_capacity_1024() {
    let (tx, _rx) = Builder::new(MemStore::new()).open().unwrap();
    for _ in 0..1024 {
        tx.try_push(b"x").unwrap();
    }
    assert!(matches!(tx.try_push(b"x"), Err(TryPushError::Full)));
}

#[test]
fn keys_outside_the_entry_range_are_left_alone() {
    let mut store = MemStore::new();
    store
        .commit(
            &[
                Op::Put(&[0x00, 0x09], b"below"),
                Op::Put(&entry_key(3), b"three"),
                Op::Put(&[0x02], b"above"),
            ],
            false,
        )
        .unwrap();
    let (tx, rx) = Builder::new(store).capacity(8).open().unwrap();
    assert_eq!(tx.len(), 1);
    tx.push(b"four").unwrap();
    let a = rx.reserve().unwrap().unwrap();
    assert_eq!((a.seq(), &*a), (3, &b"three"[..]));
    a.ack().unwrap();
    let b = rx.reserve().unwrap().unwrap();
    assert_eq!((b.seq(), &*b), (4, &b"four"[..]));
    b.ack().unwrap();
    assert!(rx.reserve().unwrap().is_none());
}

#[test]
fn can_open_scans_the_entry_range() {
    assert!(Builder::new(MemStore::new()).can_open().unwrap());

    let mut fine = MemStore::new();
    fine.commit(
        &[
            Op::Put(&[0x00, 0x09], b"below"),
            Op::Put(&entry_key(1), b"one"),
            Op::Put(&entry_key(2), b"two"),
            Op::Put(&[0x02], b"above"),
        ],
        false,
    )
    .unwrap();
    assert!(Builder::new(fine).can_open().unwrap());

    let mut stray = MemStore::new();
    stray
        .commit(&[Op::Put(&entry_key(1), b"one"), Op::Put(&[0x01, 0x02], b"stray")], false)
        .unwrap();
    assert!(!Builder::new(stray).can_open().unwrap());

    let mut last = MemStore::new();
    last.commit(&[Op::Put(&entry_key(u64::MAX), b"last")], false)
        .unwrap();
    assert!(!Builder::new(last).can_open().unwrap());
}
