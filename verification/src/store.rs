//! The [`Store`] trait: the ordered key/value byte store under the queue.

use vstd::prelude::*;
use crate::lex::lex_le;

verus! {

/// A single write in a [`Store::commit`] batch.
pub enum Op<'a> {
    /// Insert or overwrite `key` with `value`.
    Put(&'a [u8], &'a [u8]),
    /// Remove `key`.
    Delete(&'a [u8]),
}

/// A key/value pair returned by a store seek.
pub type KeyValue = (Vec<u8>, Vec<u8>);

/// The contents after applying one write.
pub open spec fn apply_op(m: Map<Seq<u8>, Seq<u8>>, op: Op) -> Map<Seq<u8>, Seq<u8>> {
    match op {
        Op::Put(k, v) => m.insert(k@, v@),
        Op::Delete(k) => m.remove(k@),
    }
}

/// The contents after applying a batch of writes in order.
pub open spec fn apply_ops(m: Map<Seq<u8>, Seq<u8>>, ops: Seq<Op>) -> Map<Seq<u8>, Seq<u8>>
    decreases ops.len(),
{
    if ops.len() == 0 {
        m
    } else {
        apply_op(apply_ops(m, ops.drop_last()), ops.last())
    }
}

/// The contents after a batch that failed part-way: each key holds either what it
/// held before or what the full batch would have left there.
pub open spec fn partly_applied(
    before: Map<Seq<u8>, Seq<u8>>,
    ops: Seq<Op>,
    after: Map<Seq<u8>, Seq<u8>>,
) -> bool {
    landed_in_part(before, apply_ops(before, ops), after)
}

/// Each key of `after` holds what it held in `before` or what it holds in `full`.
pub open spec fn landed_in_part(
    before: Map<Seq<u8>, Seq<u8>>,
    full: Map<Seq<u8>, Seq<u8>>,
    after: Map<Seq<u8>, Seq<u8>>,
) -> bool {
    forall|k: Seq<u8>|
        #![trigger after.contains_key(k)]
        (after.contains_key(k) == before.contains_key(k) && (after.contains_key(k) ==> after[k]
            == before[k])) || (after.contains_key(k) == full.contains_key(k) && (after.contains_key(k)
            ==> after[k] == full[k]))
}

/// A one-write batch that failed left the contents either as they were or as the
/// write would have made them.
pub proof fn lemma_single_op_partly(
    before: Map<Seq<u8>, Seq<u8>>,
    ops: Seq<Op>,
    after: Map<Seq<u8>, Seq<u8>>,
)
    requires
        ops.len() == 1,
        partly_applied(before, ops, after),
    ensures
        after == before || after == apply_op(before, ops[0]),
{
    assert(ops.drop_last() =~= Seq::<Op>::empty());
    assert(apply_ops(before, ops.drop_last()) == before);
    assert(ops.last() == ops[0]);
    let full = apply_ops(before, ops);
    assert(full == apply_op(before, ops[0]));
    let k = match ops[0] {
        Op::Put(k, v) => k@,
        Op::Delete(k) => k@,
    };
    assert(forall|k2: Seq<u8>| k2 != k ==> (#[trigger] full.contains_key(k2)) == before.contains_key(k2));
    assert(forall|k2: Seq<u8>| k2 != k && before.contains_key(k2) ==> #[trigger] full[k2] == before[k2]);
    if after.contains_key(k) == before.contains_key(k) && (after.contains_key(k) ==> after[k]
        == before[k]) {
        assert(after =~= before);
    } else {
        assert(after =~= full);
    }
}

/// `k` is the least key of `m` at or after `from`.
pub open spec fn least_at_or_after(m: Map<Seq<u8>, Seq<u8>>, from: Seq<u8>, k: Seq<u8>) -> bool {
    &&& m.contains_key(k)
    &&& lex_le(from, k)
    &&& forall|k2: Seq<u8>| #[trigger] m.contains_key(k2) && lex_le(from, k2) ==> lex_le(k, k2)
}

/// `k` is the greatest key of `m` at or before `upto`.
pub open spec fn greatest_at_or_before(m: Map<Seq<u8>, Seq<u8>>, upto: Seq<u8>, k: Seq<u8>) -> bool {
    &&& m.contains_key(k)
    &&& lex_le(k, upto)
    &&& forall|k2: Seq<u8>| #[trigger] m.contains_key(k2) && lex_le(k2, upto) ==> lex_le(k2, k)
}

/// What a forward seek from `from` returns over contents `m`: the least entry at or
/// after `from`, or nothing when there is none.
pub open spec fn seek_answer(m: Map<Seq<u8>, Seq<u8>>, from: Seq<u8>, r: Option<KeyValue>) -> bool {
    match r {
        Some((k, v)) => least_at_or_after(m, from, k@) && v@ == m[k@],
        None => forall|k2: Seq<u8>| #[trigger] m.contains_key(k2) ==> !lex_le(from, k2),
    }
}

/// What a backward seek from `upto` returns over contents `m`: the greatest entry at
/// or before `upto`, or nothing when there is none.
pub open spec fn seek_back_answer(
    m: Map<Seq<u8>, Seq<u8>>,
    upto: Seq<u8>,
    r: Option<KeyValue>,
) -> bool {
    match r {
        Some((k, v)) => greatest_at_or_before(m, upto, k@) && v@ == m[k@],
        None => forall|k2: Seq<u8>| #[trigger] m.contains_key(k2) ==> !lex_le(k2, upto),
    }
}

/// What an exact lookup of `key` returns over contents `m`.
pub open spec fn get_answer(m: Map<Seq<u8>, Seq<u8>>, key: Seq<u8>, r: Option<Vec<u8>>) -> bool {
    match r {
        Some(v) => m.contains_key(key) && v@ == m[key],
        None => !m.contains_key(key),
    }
}

/// An ordered key/value byte store: the durable substrate under the queue.
///
/// Keys sort lexicographically. The queue needs forward and backward seeks and one
/// optionally durable batch write; it never asks the store to know anything about
/// queues. Implement it for any other key/value store; the contract of each method
/// below is what an implementation owes.
pub trait Store: Sized + Send + Sync {
    /// The backend's error type.
    type Error: Send + Sync + 'static;

    /// The key/value contents of the store. A verified implementation defines it,
    /// and proves the contracts below against it. A store written in plain Rust
    /// cannot define it: to Verus its contents are then one fixed map, which no real
    /// store's `commit` keeps to, so what is proved of a queue over such a store
    /// does not carry over to it; the contracts below only say what it should do.
    closed spec fn contents(&self) -> Map<Seq<u8>, Seq<u8>> {
        arbitrary()
    }

    /// What the store would hold after a crash: the part of its contents that it has
    /// made durable. A verified implementation defines it; for a store written in
    /// plain Rust it is, as with `contents`, one fixed map that says nothing of it.
    closed spec fn durable_contents(&self) -> Map<Seq<u8>, Seq<u8>> {
        arbitrary()
    }

    /// Whether the store never fails. A verified implementation whose methods cannot
    /// return an error says so; one written in plain Rust makes no such claim.
    closed spec fn infallible(&self) -> bool {
        false
    }

    /// Value for an exact key.
    fn get(&self, key: &[u8]) -> (r: Result<Option<Vec<u8>>, Self::Error>)
        ensures
            r matches Ok(v) ==> get_answer(self.contents(), key@, v),
            self.infallible() ==> r is Ok,
    ;

    /// Smallest entry whose key is `>= from`.
    fn seek(&self, from: &[u8]) -> (r: Result<Option<KeyValue>, Self::Error>)
        ensures
            r matches Ok(found) ==> seek_answer(self.contents(), from@, found),
            self.infallible() ==> r is Ok,
    ;

    /// Greatest entry whose key is `<= upto`.
    fn seek_back(&self, upto: &[u8]) -> (r: Result<Option<KeyValue>, Self::Error>)
        ensures
            r matches Ok(found) ==> seek_back_answer(self.contents(), upto@, found),
            self.infallible() ==> r is Ok,
    ;

    /// Apply `ops` in order. When `durable`, do not return until they survive a
    /// crash. A failed batch may have landed in part, key by key.
    fn commit(&mut self, ops: &[Op<'_>], durable: bool) -> (r: Result<(), Self::Error>)
        ensures
            r is Ok ==> final(self).contents() == apply_ops(old(self).contents(), ops@),
            r is Err ==> partly_applied(old(self).contents(), ops@, final(self).contents()),
            r is Ok && durable ==> final(self).durable_contents() == final(self).contents(),
            old(self).infallible() ==> r is Ok,
            final(self).infallible() == old(self).infallible(),
    ;
}

} // verus!
