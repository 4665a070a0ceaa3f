use persistent_queue::{OpenError, PushError, TryPushError};
use std::io;

fn store_err() -> io::Error {
    io::Error::other("boom")
}

#[test]
fn open_error_display_and_source() {
    assert!(
        OpenError::Store(store_err())
            .to_string_with(&store_err().to_string())
            .contains("store error")
    );
    let bad = OpenError::<io::Error>::UnsupportedVersion(9);
    assert!(bad.to_string_with("").contains("version: 9"));
    assert!(OpenError::Store(store_err()).source().is_some());
    assert!(bad.source().is_none());
}

#[test]
fn push_error_display_and_source() {
    assert!(
        PushError::<io::Error>::Closed
            .to_string_with("")
            .contains("closed")
    );
    assert!(
        PushError::Store(store_err())
            .to_string_with(&store_err().to_string())
            .contains("store error")
    );
    assert!(PushError::Store(store_err()).source().is_some());
    assert!(PushError::<io::Error>::Closed.source().is_none());
}

#[test]
fn try_push_error_display_and_source() {
    assert!(TryPushError::<io::Error>::Full.to_string_with("").contains("full"));
    assert!(
        TryPushError::<io::Error>::Closed
            .to_string_with("")
            .contains("closed")
    );
    assert!(
        TryPushError::Store(store_err())
            .to_string_with(&store_err().to_string())
            .contains("store error")
    );
    assert!(TryPushError::Store(store_err()).source().is_some());
    assert!(TryPushError::<io::Error>::Full.source().is_none());
}

#[test]
fn version_text_is_decimal() {
    assert_eq!(
        OpenError::<()>::UnsupportedVersion(0).to_string_with(""),
        "unsupported on-disk format version: 0"
    );
    assert_eq!(
        OpenError::<()>::UnsupportedVersion(42).to_string_with(""),
        "unsupported on-disk format version: 42"
    );
    assert_eq!(
        OpenError::<()>::UnsupportedVersion(255).to_string_with(""),
        "unsupported on-disk format version: 255"
    );
    assert_eq!(
        OpenError::Store(()).to_string_with("boom"),
        "store error: boom"
    );
}

#[test]
fn store_error_text_carries_the_wrapped_error() {
    let e = store_err();
    assert_eq!(
        PushError::Store(store_err()).to_string_with(&e.to_string()),
        "store error: boom"
    );
    assert_eq!(
        TryPushError::Store(store_err()).to_string_with(&e.to_string()),
        "store error: boom"
    );
    assert_eq!(TryPushError::<io::Error>::Full.to_string_with("boom"), "queue is full");
}
