use persistent_queue::{Builder, Codec, CodecError, MemStore, ReserveError, TypedPushError};

// A custom codec proves the typed layer works without the `serde` feature.
#[derive(Clone)]
struct Identity;

impl Codec<Vec<u8>> for Identity {
    fn encode(&self, value: &Vec<u8>) -> Result<Vec<u8>, CodecError> {
        Ok(value.clone())
    }
    fn decode(&self, bytes: &[u8]) -> Result<Vec<u8>, CodecError> {
        Ok(bytes.to_vec())
    }
}

#[derive(Clone)]
struct FailDecode;

impl Codec<u8> for FailDecode {
    fn encode(&self, value: &u8) -> Result<Vec<u8>, CodecError> {
        Ok(vec![*value])
    }
    fn decode(&self, _bytes: &[u8]) -> Result<u8, CodecError> {
        Err(CodecError::new("always fails"))
    }
}

#[derive(Clone)]
struct FailEncode;

impl Codec<u8> for FailEncode {
    fn encode(&self, _value: &u8) -> Result<Vec<u8>, CodecError> {
        Err(CodecError::new("cannot encode"))
    }
    fn decode(&self, bytes: &[u8]) -> Result<u8, CodecError> {
        Ok(bytes[0])
    }
}

#[test]
fn custom_codec_roundtrips() {
    let (tx, rx) = Builder::new(MemStore::new()).open_typed(Identity).unwrap();
    tx.push(&b"hello".to_vec()).unwrap();

    let item = rx.reserve().unwrap().unwrap();
    assert_eq!(*item, b"hello".to_vec());
    item.ack().unwrap();

    assert!(rx.reserve().unwrap().is_none());
}

#[test]
fn reserve_surfaces_decode_errors() {
    let (tx, rx) = Builder::new(MemStore::new())
        .open_typed(FailDecode)
        .unwrap();
    tx.push(&1u8).unwrap();

    match rx.reserve() {
        Err(ReserveError::Decode(_)) => {}
        Err(ReserveError::Store(_)) => panic!("unexpected store error"),
        Ok(_) => panic!("expected a decode error"),
    }
}

#[test]
fn encode_errors_push_nothing() {
    let (tx, _rx) = Builder::new(MemStore::new())
        .open_typed(FailEncode)
        .unwrap();
    match tx.push(&1u8) {
        Err(e @ TypedPushError::Encode(_)) => {
            assert_eq!(e.to_string_with(""), "codec error: cannot encode")
        }
        _ => panic!("expected an encode error"),
    }
    assert!(tx.is_empty());
}

#[test]
fn undecodable_item_stays_for_redelivery() {
    let (tx, rx) = Builder::new(MemStore::new())
        .open_typed(FailDecode)
        .unwrap();
    tx.push(&7u8).unwrap();
    assert!(rx.reserve().is_err());
    assert!(rx.reserve().is_err());
    assert_eq!(tx.len(), 1);
}

#[test]
fn typed_nack_redelivers_same_value_and_seq() {
    let (tx, rx) = Builder::new(MemStore::new()).open_typed(Identity).unwrap();
    tx.push(&b"x".to_vec()).unwrap();
    let first = rx.reserve().unwrap().unwrap();
    let seq = first.seq();
    first.nack();
    let again = rx.reserve().unwrap().unwrap();
    assert_eq!(again.seq(), seq);
    assert_eq!(*again, b"x".to_vec());
    again.ack().unwrap();
}
