use persistent_queue::{MemStore, Op, Store};

// A store reads keys back exactly, keeps them in byte-lexicographic order, and
// applies deletes; seeks find the nearest key in each direction.
fn contract<S: Store>(mut store: S)
where
    S::Error: std::fmt::Debug,
{
    assert!(store.get(b"missing").unwrap().is_none());
    assert!(store.seek(b"a").unwrap().is_none());

    store
        .commit(
            &[
                Op::Put(b"b", b"2"),
                Op::Put(b"a", b"1"),
                Op::Put(b"c", b"3"),
            ],
            true,
        )
        .unwrap();

    assert_eq!(store.get(b"a").unwrap().as_deref(), Some(&b"1"[..]));
    assert_eq!(store.get(b"z").unwrap(), None);

    let (k, v) = store.seek(b"a").unwrap().unwrap();
    assert_eq!((k.as_slice(), v.as_slice()), (&b"a"[..], &b"1"[..]));
    assert_eq!(store.seek(b"aa").unwrap().unwrap().0.as_slice(), b"b");
    assert_eq!(store.seek_back(b"bz").unwrap().unwrap().0.as_slice(), b"b");
    assert_eq!(
        store.seek_back(b"\xff").unwrap().unwrap().0.as_slice(),
        b"c"
    );

    store.commit(&[Op::Delete(b"b")], true).unwrap();
    assert_eq!(store.get(b"b").unwrap(), None);
    assert_eq!(store.seek(b"b").unwrap().unwrap().0.as_slice(), b"c");
}

#[test]
fn mem_store_contract() {
    contract(MemStore::new());
}

// A store defined outside the library implements the trait with plain methods.
struct Empty;

impl Store for Empty {
    type Error = ();
    fn get(&self, _key: &[u8]) -> Result<Option<Vec<u8>>, ()> {
        Ok(None)
    }
    fn seek(&self, _from: &[u8]) -> Result<Option<(Vec<u8>, Vec<u8>)>, ()> {
        Ok(None)
    }
    fn seek_back(&self, _upto: &[u8]) -> Result<Option<(Vec<u8>, Vec<u8>)>, ()> {
        Ok(None)
    }
    fn commit(&mut self, _ops: &[Op<'_>], _durable: bool) -> Result<(), ()> {
        Err(())
    }
}

#[test]
fn outside_store_implements_the_trait() {
    let mut e = Empty;
    assert!(e.commit(&[], true).is_err());
}
