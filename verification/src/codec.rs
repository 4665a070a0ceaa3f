//! The [`Codec`] trait for the typed queue layer.

use vstd::prelude::*;
use vstd::string::*;

verus! {

/// Encodes a message type to bytes for the store and decodes it back.
///
/// The typed layer ([`TypedProducer`](crate::TypedProducer) /
/// [`TypedConsumer`](crate::TypedConsumer)) is generic over this trait: implement it
/// for a custom format.
pub trait Codec<T> {
    /// Encode `value` to bytes.
    fn encode(&self, value: &T) -> Result<Vec<u8>, CodecError>;

    /// Decode a value from `bytes`.
    fn decode(&self, bytes: &[u8]) -> Result<T, CodecError>;
}

/// An encode or decode failure, carrying the underlying codec's message.
#[derive(Debug)]
pub struct CodecError(String);

impl CodecError {
    /// The message the error carries.
    pub closed spec fn message(&self) -> Seq<char> {
        self.0@
    }

    /// Build a codec error from a message, e.g. the codec's own error text.
    pub fn new(message: &str) -> (e: Self)
        ensures
            e.message() == message@,
    {
        CodecError(message.to_owned())
    }

    /// The error's text: "codec error: " followed by the message.
    pub fn to_string(&self) -> (s: String)
        ensures
            s@ == "codec error: "@ + self.message(),
    {
        let mut s = String::from_str("codec error: ");
        s.append(self.0.as_str());
        s
    }
}

} // verus!
