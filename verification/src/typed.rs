//! The typed queue layer: encode on push, decode on reserve, over any [`Codec`].

use vstd::prelude::*;
use std::marker::PhantomData;
use crate::codec::{Codec, CodecError};
use crate::error::{OpenError, PushError};
use crate::keys::{meta_key, FORMAT_VERSION};
use crate::queue::{Builder, Consumer, Producer, Reserved};
use crate::state::{entries_of, entry_count, recoverable, version_of};
use crate::store::Store;
use vstd::string::*;

verus! {

/// The producer/consumer pair returned by [`Builder::open_typed`].
pub type TypedEnds<S, T, C> = (TypedProducer<S, T, C>, TypedConsumer<S, T, C>);

impl<S: Store> Builder<S> {
    /// Open a typed queue that encodes values with `codec`.
    ///
    /// Returns a typed producer/consumer pair over the same backend as
    /// [`open`](Builder::open); the configured `capacity` and `durability` apply
    /// unchanged.
    pub fn open_typed<T, C: Codec<T> + Clone>(self, codec: C) -> (r: Result<
        TypedEnds<S, T, C>,
        OpenError<S::Error>,
    >)
        requires
            self.capacity_spec() > 0,
            recoverable(self.store_spec().contents()),
            entry_count(entries_of(self.store_spec().contents())) < usize::MAX,
        ensures
            ({
                let m = self.store_spec().contents();
                &&& r matches Err(OpenError::UnsupportedVersion(v)) ==> {
                    &&& m.contains_key(meta_key())
                    &&& v == version_of(m[meta_key()])
                    &&& v != FORMAT_VERSION
                }
                &&& m.contains_key(meta_key()) && version_of(m[meta_key()]) != FORMAT_VERSION
                    ==> r is Err
                &&& r matches Err(OpenError::Store(_)) ==> !self.store_spec().infallible()
                &&& r matches Ok((p, c)) ==> {
                    &&& p.store_infallible() == self.store_spec().infallible()
                    &&& c.store_infallible() == self.store_spec().infallible()
                    &&& p.producer().limit() == self.capacity_spec()
                    &&& p.producer().durable_writes() == self.durability_spec().writes_durably()
                    &&& p.producer().acks_durable() == self.acks_durable_spec()
                    &&& p.producer().batched() == self.durability_spec().batches()
                    &&& c.consumer().limit() == self.capacity_spec()
                    &&& c.consumer().durable_writes() == self.durability_spec().writes_durably()
                    &&& c.consumer().acks_durable() == self.acks_durable_spec()
                    &&& c.consumer().batched() == self.durability_spec().batches()
                    &&& vstd::pervasive::strictly_cloned(codec, p.codec_spec())
                    &&& c.codec_spec() == codec
                }
            }),
    {
        let (producer, consumer) = self.open()?;
        Ok(
            (
                TypedProducer { inner: producer, codec: codec.clone(), _marker: PhantomData },
                TypedConsumer { inner: consumer, codec, _marker: PhantomData },
            ),
        )
    }
}

/// The producer half of a typed queue. Clone it for multiple producers.
pub struct TypedProducer<S: Store, T, C> {
    inner: Producer<S>,
    codec: C,
    _marker: PhantomData<T>,
}

impl<S: Store, T, C: Clone> Clone for TypedProducer<S, T, C> {
    fn clone(&self) -> (p: Self)
        ensures
            p.store_infallible() == self.store_infallible(),
    {
        TypedProducer { inner: self.inner.clone(), codec: self.codec.clone(), _marker: PhantomData }
    }
}

impl<S: Store, T, C> TypedProducer<S, T, C> {
    /// Whether the queue's store never fails.
    pub closed spec fn store_infallible(&self) -> bool {
        self.inner.store_infallible()
    }

    /// The byte producer underneath.
    pub closed spec fn producer(&self) -> Producer<S> {
        self.inner
    }

    /// The codec that encodes what this producer pushes.
    pub closed spec fn codec_spec(&self) -> C {
        self.codec
    }
}

impl<S: Store, T, C: Codec<T>> TypedProducer<S, T, C> {
    /// Encode and push `value`, waiting while the queue is at capacity.
    pub fn push(&self, value: &T) -> (r: Result<(), TypedPushError<S::Error>>)
        ensures
            self.store_infallible() ==> !(r matches Err(TypedPushError::Store(_))),
    {
        let bytes = match self.codec.encode(value) {
            Ok(bytes) => bytes,
            Err(e) => {
                return Err(TypedPushError::Encode(e));
            },
        };
        typed_push_outcome(self.inner.push(bytes.as_slice()))
    }

    /// Close the queue; further pushes fail and the consumer drains what remains.
    pub fn close(&self) {
        self.inner.close();
    }

    /// Number of unacked items currently in the queue.
    pub fn len(&self) -> usize {
        self.inner.len()
    }

    /// Whether the queue holds no unacked items.
    pub fn is_empty(&self) -> bool {
        self.inner.is_empty()
    }
}

/// The consumer half of a typed queue. Single consumer.
pub struct TypedConsumer<S: Store, T, C> {
    inner: Consumer<S>,
    codec: C,
    _marker: PhantomData<T>,
}

impl<S: Store, T, C> TypedConsumer<S, T, C> {
    /// Whether the queue's store never fails.
    pub closed spec fn store_infallible(&self) -> bool {
        self.inner.store_infallible()
    }

    /// The byte consumer underneath.
    pub closed spec fn consumer(&self) -> Consumer<S> {
        self.inner
    }

    /// The codec that decodes what this consumer reserves.
    pub closed spec fn codec_spec(&self) -> C {
        self.codec
    }
}

impl<S: Store, T, C: Codec<T>> TypedConsumer<S, T, C> {
    /// Reserve and decode the oldest item, or `None` if there is nothing to deliver.
    /// An item that does not decode is returned for redelivery and the error is
    /// reported.
    pub fn reserve(&self) -> (r: Result<Option<TypedReserved<S, T>>, ReserveError<S::Error>>)
        ensures
            self.store_infallible() ==> !(r matches Err(ReserveError::Store(_))),
            r matches Ok(Some(item)) ==> item.store_infallible() == self.store_infallible(),
    {
        match self.inner.reserve() {
            Err(e) => Err(ReserveError::Store(e)),
            Ok(None) => Ok(None),
            Ok(Some(reserved)) => {
                let decoded = self.codec.decode(reserved.bytes_slice());
                match decoded {
                    Ok(value) => Ok(Some(TypedReserved { inner: reserved, value })),
                    Err(e) => {
                        reserved.nack();
                        Err(ReserveError::Decode(e))
                    },
                }
            },
        }
    }
}

/// A reserved, decoded item. Derefs to the value; [`ack`](TypedReserved::ack) removes
/// it while [`nack`](TypedReserved::nack) or drop returns it for redelivery.
pub struct TypedReserved<S: Store, T> {
    inner: Reserved<S>,
    value: T,
}

impl<S: Store, T> TypedReserved<S, T> {
    /// The decoded value.
    pub closed spec fn value_spec(&self) -> T {
        self.value
    }

    /// The reserved item underneath.
    pub closed spec fn item(&self) -> Reserved<S> {
        self.inner
    }

    /// The item's sequence number, stable across redeliveries.
    pub fn seq(&self) -> (s: u64)
        ensures
            s == self.item().seq_spec(),
    {
        self.inner.seq()
    }

    /// Whether the queue's store never fails.
    pub closed spec fn store_infallible(&self) -> bool {
        self.inner.store_infallible()
    }

    /// Remove the item from the queue.
    pub fn ack(self) -> (r: Result<(), S::Error>)
        ensures
            self.store_infallible() ==> r is Ok,
    {
        self.inner.ack()
    }

    /// Return the item for redelivery without removing it.
    pub fn nack(self) {
        self.inner.nack();
    }
}

impl<S: Store, T> std::ops::Deref for TypedReserved<S, T> {
    type Target = T;

    fn deref(&self) -> (v: &T)
        ensures
            *v == self.value_spec(),
    {
        &self.value
    }
}

/// Error from [`TypedProducer::push`].
#[derive(Debug)]
pub enum TypedPushError<E> {
    /// Encoding the value failed.
    Encode(CodecError),
    /// The queue was closed.
    Closed,
    /// The backend store failed.
    Store(E),
}

impl<E> TypedPushError<E> {
    /// The error's text, given the text of the wrapped store error (used only for a
    /// store error, after "store error: ").
    pub fn to_string_with(&self, store_text: &str) -> (s: String)
        ensures
            s@ == match self {
                TypedPushError::Encode(e) => "codec error: "@ + e.message(),
                TypedPushError::Closed => "queue is closed"@,
                TypedPushError::Store(_) => "store error: "@ + store_text@,
            },
    {
        match self {
            TypedPushError::Encode(e) => e.to_string(),
            TypedPushError::Closed => String::from_str("queue is closed"),
            TypedPushError::Store(_) => {
                let mut s = String::from_str("store error: ");
                s.append(store_text);
                s
            },
        }
    }
}

/// What a typed push reports of the byte push of its encoded value: `Ok` exactly
/// when the byte push took the item, `Closed` exactly when the queue was closed, and
/// the store's own error otherwise.
pub fn typed_push_outcome<E>(r: Result<(), PushError<E>>) -> (t: Result<(), TypedPushError<E>>)
    ensures
        t is Ok <==> r is Ok,
        t matches Err(TypedPushError::Closed) <==> r matches Err(PushError::Closed),
        !(t matches Err(TypedPushError::Encode(_))),
        r matches Err(PushError::Store(e)) ==> t == Err::<(), TypedPushError<E>>(TypedPushError::Store(e)),
{
    match r {
        Ok(()) => Ok(()),
        Err(PushError::Closed) => Err(TypedPushError::Closed),
        Err(PushError::Store(e)) => Err(TypedPushError::Store(e)),
    }
}

/// Error from [`TypedConsumer::reserve`].
#[derive(Debug)]
pub enum ReserveError<E> {
    /// The backend store failed.
    Store(E),
    /// Decoding the reserved item failed.
    Decode(CodecError),
}

impl<E> ReserveError<E> {
    /// The error's text, given the text of the wrapped store error (used only for a
    /// store error, after "store error: ").
    pub fn to_string_with(&self, store_text: &str) -> (s: String)
        ensures
            s@ == match self {
                ReserveError::Store(_) => "store error: "@ + store_text@,
                ReserveError::Decode(e) => "codec error: "@ + e.message(),
            },
    {
        match self {
            ReserveError::Store(_) => {
                let mut s = String::from_str("store error: ");
                s.append(store_text);
                s
            },
            ReserveError::Decode(e) => e.to_string(),
        }
    }
}

} // verus!
