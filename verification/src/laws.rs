//! What holds across the queue's operations, stated over the model that their
//! contracts use.

use vstd::prelude::*;
use crate::state::QueueState;
use crate::store::{apply_op, get_answer, Op, Store};

verus! {

/// FIFO: when nothing is waiting to be delivered, two pushes in a row are handed
/// out in the order they were pushed, each with its own bytes and with the sequence
/// numbers the pushes took.
pub proof fn law_fifo<S: Store>(
    q0: QueueState<S>,
    q1: QueueState<S>,
    q2: QueueState<S>,
    q3: QueueState<S>,
    q4: QueueState<S>,
    a: Seq<u8>,
    b: Seq<u8>,
    s1: u64,
    v1: Seq<u8>,
    s2: u64,
    v2: Seq<u8>,
)
    requires
        q0.wf(),
        forall|t: u64| #[trigger] q0.items().contains_key(t) ==> q0.in_flight().contains(t),
        q0.pushed(a, q1),
        q1.pushed(b, q2),
        q2.handed_out(s1, v1, q3),
        q3.handed_out(s2, v2, q4),
    ensures
        s1 == q0.next_seq(),
        v1 == a,
        s2 == q0.next_seq() + 1,
        v2 == b,
{
    q0.lemma_wf_bounds();
    let n = q0.next_seq();
    assert(!q0.items().contains_key(n));
    assert(q2.items().contains_key(n) && !q2.in_flight().contains(n));
    if s1 != n {
        if q0.items().contains_key(s1) {
            assert(q0.in_flight().contains(s1));
        }
        assert(s1 == n + 1);
    }
    assert(q3.items().contains_key((n + 1) as u64) && !q3.in_flight().contains((n + 1) as u64));
    if q0.items().contains_key(s2) {
        assert(q0.in_flight().contains(s2));
    }
}

/// Items go out oldest first: of two items handed out one after the other, with
/// nothing returned in between, the first has the lower sequence number.
pub proof fn law_handed_out_in_order<S: Store>(
    q0: QueueState<S>,
    q1: QueueState<S>,
    q2: QueueState<S>,
    s1: u64,
    v1: Seq<u8>,
    s2: u64,
    v2: Seq<u8>,
)
    requires
        q0.handed_out(s1, v1, q1),
        q1.handed_out(s2, v2, q2),
    ensures
        s1 < s2,
{
    assert(q1.in_flight().contains(s1));
    assert(q0.items().contains_key(s2) && !q0.in_flight().contains(s2));
}

/// A returned item comes back: handing out the oldest item, returning it, and
/// handing out again gives the same item with the same bytes.
pub proof fn law_returned_item_is_redelivered<S: Store>(
    q0: QueueState<S>,
    q1: QueueState<S>,
    q2: QueueState<S>,
    q3: QueueState<S>,
    s: u64,
    v: Seq<u8>,
    s2: u64,
    v2: Seq<u8>,
)
    requires
        q0.handed_out(s, v, q1),
        q1.returned(s, q2),
        q2.handed_out(s2, v2, q3),
    ensures
        s2 == s,
        v2 == v,
{
    assert(q2.in_flight() =~= q0.in_flight());
    assert(s <= s2);
    assert(s2 <= s);
}

/// An acked item is gone for good: it is no longer stored, and nothing handed out
/// afterwards is that item.
pub proof fn law_acked_item_is_not_redelivered<S: Store>(
    q0: QueueState<S>,
    q1: QueueState<S>,
    q2: QueueState<S>,
    s: u64,
    t: u64,
    v: Seq<u8>,
)
    requires
        q0.acked(s, q1),
        q1.handed_out(t, v, q2),
    ensures
        !q1.items().contains_key(s),
        t != s,
{
}

/// Only an ack removes an item: pushing, handing out and returning keep every
/// stored item with its bytes.
pub proof fn law_items_stay_until_acked<S: Store>(
    q0: QueueState<S>,
    q1: QueueState<S>,
    value: Seq<u8>,
    s: u64,
    v: Seq<u8>,
    t: u64,
)
    requires
        q0.wf(),
        q0.pushed(value, q1) || q0.handed_out(s, v, q1) || q0.returned(s, q1),
        q0.items().contains_key(t),
    ensures
        q1.items().contains_key(t),
        q1.items()[t] == q0.items()[t],
{
    q0.lemma_wf_bounds();
}

/// Numbers are given out in increasing order and never reused: a push takes the next
/// number and moves past it, and no operation moves back.
pub proof fn law_numbers_increase<S: Store>(q0: QueueState<S>, q1: QueueState<S>, value: Seq<u8>)
    requires
        q0.wf(),
        q0.pushed(value, q1),
    ensures
        q1.next_seq() > q0.next_seq(),
        q1.items().contains_key(q0.next_seq()),
        !q0.items().contains_key(q0.next_seq()),
{
    q0.lemma_wf_bounds();
}

/// A store read gives back what a write wrote: after putting `value` under `key`
/// the key reads as `value`, and after deleting it the key reads as absent.
pub proof fn law_store_read_after_write(
    m: Map<Seq<u8>, Seq<u8>>,
    key: &[u8],
    value: &[u8],
    after_put: Option<Vec<u8>>,
    after_delete: Option<Vec<u8>>,
)
    requires
        get_answer(apply_op(m, Op::Put(key, value)), key@, after_put),
        get_answer(apply_op(m, Op::Delete(key)), key@, after_delete),
    ensures
        after_put is Some && after_put->0@ == value@,
        after_delete is None,
{
}

/// A dropped (or returned) reservation is redelivered: after the numbers in `dropped`
/// are given back, none of them is in flight, and each stored one comes out again
/// before any later item: the next hand-out is at or below it, and so is the one
/// after, unless the first was that very item.
pub proof fn law_dropped_items_are_redelivered<S: Store>(
    q0: QueueState<S>,
    q1: QueueState<S>,
    q2: QueueState<S>,
    q3: QueueState<S>,
    dropped: Set<u64>,
    d: u64,
    t1: u64,
    v1: Seq<u8>,
    t2: u64,
    v2: Seq<u8>,
)
    requires
        q0.returned_all(dropped, q1),
        dropped.contains(d),
        q0.items().contains_key(d),
        q1.handed_out(t1, v1, q2),
    ensures
        !q1.in_flight().contains(d),
        t1 <= d,
        t1 != d && q2.handed_out(t2, v2, q3) ==> t2 <= d,
{
    assert(q1.items().contains_key(d) && !q1.in_flight().contains(d));
    if t1 != d {
        assert(!q2.in_flight().contains(d));
        assert(q2.items().contains_key(d));
    }
}

/// An ack makes room for a waiting push: on an open queue that is full (but not past
/// its capacity) and has numbers left, acking an item lets the next push in.
pub proof fn law_ack_makes_room<S: Store>(q0: QueueState<S>, q1: QueueState<S>, s: u64)
    requires
        q0.acked(s, q1),
        !q0.is_closed(),
        q0.next_seq() < u64::MAX,
        0 < q0.unacked() <= q0.limit(),
    ensures
        q1.has_room(),
{
}

/// A reserved item still counts as unacked: pushing and then handing the item out
/// leaves the count one up, and only its ack brings it back down.
pub proof fn law_reserved_items_are_counted<S: Store>(
    q0: QueueState<S>,
    q1: QueueState<S>,
    q2: QueueState<S>,
    q3: QueueState<S>,
    a: Seq<u8>,
    s: u64,
    v: Seq<u8>,
)
    requires
        q0.pushed(a, q1),
        q1.handed_out(s, v, q2),
    ensures
        q2.unacked() == q0.unacked() + 1,
        q2.unacked() > 0,
        q2.acked(s, q3) ==> q3.unacked() == q0.unacked(),
{
}

} // verus!
