//! A durable, at-least-once, multi-producer / single-consumer queue over an ordered
//! key/value byte store, with its bookkeeping, recovery and key layout verified.

pub mod lex;
pub mod keys;
pub mod store;
mod mem_store;
mod error;
pub mod state;
mod signal;
mod queue;
mod text;
mod codec;
mod typed;
pub mod laws;

pub use keys::{entry_key, is_entry, seq_of, ENTRY_HIGH, ENTRY_LOW, ENTRY_PREFIX, FORMAT_VERSION, META_KEY};
pub use lex::{lex_le, lex_lt};
pub use store::{KeyValue, Op, Store};
pub use mem_store::MemStore;
pub use error::{OpenError, PushError, TryPushError};
pub use queue::{Builder, Consumer, Ends, Producer, ReserveStep, Reserved};
pub use state::{Durability, QueueState, Refusal};
pub use codec::{Codec, CodecError};
pub use typed::{ReserveError, TypedConsumer, TypedEnds, TypedProducer, TypedPushError, TypedReserved};
