# persistent_queue

A durable, at-least-once, multi-producer / single-consumer queue of byte payloads
over an ordered key/value store. Producers push; the single consumer reserves the
oldest item and holds it in flight until it acks (removes) or nacks (returns) it. A
dropped reservation or a crash puts the item back.

The library under `src/` is written in Verus and proved:

- `lex`, `keys`: the byte-lexicographic order and the key layout (a meta key, then
  one key per item, big-endian sequence numbers), with the laws that the key of a
  number decodes back to it and that keys sort in numeric order.
- `store`: the `Store` trait, with its contents modelled as a map from keys to
  values, what it would hold after a crash as a second map, and the answers a
  read, a seek and a batch commit owe (a durable commit leaves the two maps equal).
  These are proved of the in-memory store; the on-disk stores in `app/` are plain
  Rust, so the proofs say nothing of them.
- `mem_store`: the in-memory store, a sorted vector, proved against that trait.
- `state`: the queue's bookkeeping (cursors, reservations, acks, capacity, group
  commit) as a state over a store, with recovery from what the store holds and an
  exact contract for each operation.
- `queue`, `signal`: the shared handles (`Builder`, `Producer`, `Consumer`,
  `Reserved`) around that state, behind a verified lock whose invariant is the
  state's well-formedness.
- `typed`, `codec`: the typed layer over a user codec.
- `laws`: the properties that hold across operations (FIFO delivery, redelivery of a
  returned item, an acked item is never handed out again, and the like).

`app/` holds what cannot be verified: the on-disk stores (sled, redb), the serde and
rkyv codecs, the zero-copy rkyv reader and the tokio facade.
