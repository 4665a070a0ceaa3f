//! The queue's error types, with the text each one reads as.

use vstd::prelude::*;
use vstd::string::*;
use crate::text::{decimal, push_decimal};

verus! {

/// Error from opening a queue over a store.
#[derive(Debug)]
pub enum OpenError<E> {
    /// The backend store failed.
    Store(E),
    /// The store was written by an unsupported on-disk format version.
    UnsupportedVersion(u8),
}

/// Error from a blocking [`Producer::push`](crate::Producer::push).
#[derive(Debug)]
pub enum PushError<E> {
    /// The queue was closed.
    Closed,
    /// The backend store failed.
    Store(E),
}

/// Error from [`Producer::try_push`](crate::Producer::try_push).
#[derive(Debug)]
pub enum TryPushError<E> {
    /// The queue is at capacity.
    Full,
    /// The queue was closed.
    Closed,
    /// The backend store failed.
    Store(E),
}

impl<E> OpenError<E> {
    /// The error's text, given the text of the wrapped store error: "store error: "
    /// followed by it, or the unsupported version in decimal.
    pub fn to_string_with(&self, store_text: &str) -> (s: String)
        ensures
            s@ == match self {
                OpenError::Store(_) => "store error: "@ + store_text@,
                OpenError::UnsupportedVersion(v) => "unsupported on-disk format version: "@ + decimal(
                    *v as nat,
                ),
            },
    {
        match self {
            OpenError::Store(_) => {
                let mut s = String::from_str("store error: ");
                s.append(store_text);
                s
            },
            OpenError::UnsupportedVersion(v) => {
                let mut s = String::from_str("unsupported on-disk format version: ");
                push_decimal(&mut s, *v);
                s
            },
        }
    }

    /// The underlying store error, if that is what this is.
    pub fn source(&self) -> (r: Option<&E>)
        ensures
            r is Some <==> self is Store,
            self matches OpenError::Store(e) ==> r == Some(e),
    {
        match self {
            OpenError::Store(e) => Some(e),
            OpenError::UnsupportedVersion(_) => None,
        }
    }
}

impl<E> PushError<E> {
    /// The error's text, given the text of the wrapped store error (used only for a
    /// store error, after "store error: ").
    pub fn to_string_with(&self, store_text: &str) -> (s: String)
        ensures
            s@ == match self {
                PushError::Closed => "queue is closed"@,
                PushError::Store(_) => "store error: "@ + store_text@,
            },
    {
        match self {
            PushError::Closed => String::from_str("queue is closed"),
            PushError::Store(_) => {
                let mut s = String::from_str("store error: ");
                s.append(store_text);
                s
            },
        }
    }

    /// The underlying store error, if that is what this is.
    pub fn source(&self) -> (r: Option<&E>)
        ensures
            r is Some <==> self is Store,
            self matches PushError::Store(e) ==> r == Some(e),
    {
        match self {
            PushError::Store(e) => Some(e),
            PushError::Closed => None,
        }
    }
}

impl<E> TryPushError<E> {
    /// The error's text, given the text of the wrapped store error (used only for a
    /// store error, after "store error: ").
    pub fn to_string_with(&self, store_text: &str) -> (s: String)
        ensures
            s@ == match self {
                TryPushError::Full => "queue is full"@,
                TryPushError::Closed => "queue is closed"@,
                TryPushError::Store(_) => "store error: "@ + store_text@,
            },
    {
        match self {
            TryPushError::Full => String::from_str("queue is full"),
            TryPushError::Closed => String::from_str("queue is closed"),
            TryPushError::Store(_) => {
                let mut s = String::from_str("store error: ");
                s.append(store_text);
                s
            },
        }
    }

    /// The underlying store error, if that is what this is.
    pub fn source(&self) -> (r: Option<&E>)
        ensures
            r is Some <==> self is Store,
            self matches TryPushError::Store(e) ==> r == Some(e),
    {
        match self {
            TryPushError::Store(e) => Some(e),
            _ => None,
        }
    }
}

/// What a push that waits for room makes of one attempt: `None` (wait and try again)
/// exactly when the queue was full; a closed queue and a store error are reported
/// as they came, and a taken item as `Ok`.
pub fn waiting_outcome<E>(r: Result<(), TryPushError<E>>) -> (w: Option<Result<(), PushError<E>>>)
    ensures
        w is None <==> r matches Err(TryPushError::Full),
        w matches Some(Ok(())) <==> r is Ok,
        w matches Some(Err(PushError::Closed)) <==> r matches Err(TryPushError::Closed),
        r matches Err(TryPushError::Store(e)) ==> w == Some(Err::<(), PushError<E>>(PushError::Store(e))),
        w matches Some(Err(PushError::Store(e))) ==> r == Err::<(), TryPushError<E>>(TryPushError::Store(e)),
{
    match r {
        Ok(()) => Some(Ok(())),
        Err(TryPushError::Full) => None,
        Err(TryPushError::Closed) => Some(Err(PushError::Closed)),
        Err(TryPushError::Store(e)) => Some(Err(PushError::Store(e))),
    }
}

} // verus!
