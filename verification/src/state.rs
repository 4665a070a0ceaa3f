//! The queue's bookkeeping over its store: recovery on open, claiming sequence
//! numbers, reserving the oldest item, acking and releasing, and group commit.
//! [`QueueState`] is single-owner; the producer and consumer handles share one
//! behind a lock.

use vstd::prelude::*;
use std::collections::BTreeSet;
use crate::error::{OpenError, TryPushError};
use crate::keys::{entry_high, entry_key, entry_low, is_entry, is_entry_key, key_of, lemma_entry_key_is_key_of, lemma_key_order, lemma_key_roundtrip, meta_key, seq_in, seq_of, ENTRY_HIGH, ENTRY_LOW, ENTRY_PREFIX, FORMAT_VERSION, META_KEY};
use crate::lex::{lemma_lex_asymmetric, lemma_lex_irreflexive, lemma_lex_lt_iff_not_le, lemma_lex_successor, lex_le, lex_lt};
use crate::mem_store::copy_bytes;
use crate::store::{apply_op, apply_ops, landed_in_part, lemma_single_op_partly, seek_answer, seek_back_answer, KeyValue, Op, Store};

verus! {

broadcast use vstd::laws_cmp::group_laws_cmp;

/// The queue items held in store contents `m`: sequence number to item bytes.
pub open spec fn entries_of(m: Map<Seq<u8>, Seq<u8>>) -> Map<u64, Seq<u8>> {
    Map::new(|s: u64| m.contains_key(key_of(s)), |s: u64| m[key_of(s)])
}

/// Every key in `m` that starts with the entry prefix has the shape of an entry key.
/// Other keys (the meta record, and any key of someone else's that starts with
/// another byte) sort wholly before or after the entry range.
pub open spec fn entry_range_clean(m: Map<Seq<u8>, Seq<u8>>) -> bool {
    forall|k: Seq<u8>| #[trigger] m.contains_key(k) && k.len() > 0 && k[0] == 1u8 ==> is_entry_key(k)
}

/// Store contents a queue can be opened over: nothing but entry keys in the entry
/// range, and no entry at the last sequence number (the next push would have no
/// number to take).
pub open spec fn recoverable(m: Map<Seq<u8>, Seq<u8>>) -> bool {
    &&& entry_range_clean(m)
    &&& !m.contains_key(key_of(u64::MAX))
}

/// Adding the entry key of `s` adds item `s`.
pub proof fn lemma_entries_insert(m: Map<Seq<u8>, Seq<u8>>, s: u64, v: Seq<u8>)
    ensures
        entries_of(m.insert(key_of(s), v)) == entries_of(m).insert(s, v),
{
    assert forall|t: u64| #[trigger] entries_of(m.insert(key_of(s), v)).contains_key(t) == entries_of(m).insert(s, v).contains_key(t) by {
        lemma_key_roundtrip(s);
        lemma_key_roundtrip(t);
    }
    assert forall|t: u64| #[trigger] entries_of(m.insert(key_of(s), v)).contains_key(t) implies entries_of(m.insert(key_of(s), v))[t] == entries_of(m).insert(s, v)[t] by {
        lemma_key_roundtrip(s);
        lemma_key_roundtrip(t);
    }
    assert(entries_of(m.insert(key_of(s), v)) =~= entries_of(m).insert(s, v));
}

/// Removing the entry key of `s` removes item `s`.
pub proof fn lemma_entries_remove(m: Map<Seq<u8>, Seq<u8>>, s: u64)
    ensures
        entries_of(m.remove(key_of(s))) == entries_of(m).remove(s),
{
    assert forall|t: u64| #[trigger] entries_of(m.remove(key_of(s))).contains_key(t) == entries_of(m).remove(s).contains_key(t) by {
        lemma_key_roundtrip(s);
        lemma_key_roundtrip(t);
    }
    assert forall|t: u64| #[trigger] entries_of(m.remove(key_of(s))).contains_key(t) implies entries_of(m.remove(key_of(s)))[t] == entries_of(m).remove(s)[t] by {
        lemma_key_roundtrip(s);
        lemma_key_roundtrip(t);
    }
    assert(entries_of(m.remove(key_of(s))) =~= entries_of(m).remove(s));
}

/// The contents after writing each batched item under its entry key, in order.
pub open spec fn put_all(m: Map<Seq<u8>, Seq<u8>>, batch: Seq<(u64, Vec<u8>)>) -> Map<Seq<u8>, Seq<u8>>
    decreases batch.len(),
{
    if batch.len() == 0 {
        m
    } else {
        put_all(m, batch.drop_last()).insert(key_of(batch.last().0), batch.last().1@)
    }
}

/// The outcome recorded for each batched item when the batch write succeeded (`ok`)
/// or failed.
pub open spec fn outcomes_for(batch: Seq<(u64, Vec<u8>)>, ok: bool) -> Seq<(u64, bool)> {
    batch.map_values(|p: (u64, Vec<u8>)| (p.0, ok))
}

/// The keys after a batch of puts are the keys before plus the batch's entry keys.
pub proof fn lemma_put_all_keys(m: Map<Seq<u8>, Seq<u8>>, batch: Seq<(u64, Vec<u8>)>, k: Seq<u8>)
    ensures
        put_all(m, batch).contains_key(k) <==> m.contains_key(k) || exists|i: int|
            0 <= i < batch.len() && k == key_of(#[trigger] batch[i].0),
        m.contains_key(k) && (forall|i: int| 0 <= i < batch.len() ==> k != key_of(#[trigger] batch[i].0))
            ==> put_all(m, batch)[k] == m[k],
    decreases batch.len(),
{
    if batch.len() > 0 {
        let b = batch.drop_last();
        lemma_put_all_keys(m, b, k);
        if exists|i: int| 0 <= i < b.len() && k == key_of(#[trigger] b[i].0) {
            let i = choose|i: int| 0 <= i < b.len() && k == key_of(#[trigger] b[i].0);
            assert(batch[i] == b[i]);
        }
        if exists|i: int| 0 <= i < batch.len() && k == key_of(#[trigger] batch[i].0) {
            let i = choose|i: int| 0 <= i < batch.len() && k == key_of(#[trigger] batch[i].0);
            if i < batch.len() - 1 {
                assert(b[i] == batch[i]);
            }
        }
    }
}

/// What the meta record read on open says: `Ok(true)` when there is none (it must
/// be written), `Ok(false)` when it holds this format's version, and `Err` with the
/// version it holds otherwise. An empty record reads as version 0.
pub fn check_meta(meta: &Option<Vec<u8>>) -> (r: Result<bool, u8>)
    ensures
        match meta {
            None => r == Ok::<bool, u8>(true),
            Some(b) => if version_of(b@) == FORMAT_VERSION {
                r == Ok::<bool, u8>(false)
            } else {
                r == Err::<bool, u8>(version_of(b@))
            },
        },
{
    match meta {
        None => Ok(true),
        Some(b) => {
            let version: u8 = if b.len() > 0 {
                b[0]
            } else {
                0
            };
            if version == FORMAT_VERSION {
                Ok(false)
            } else {
                Err(version)
            }
        },
    }
}

/// `i` is the position of the first outcome recorded for `seq` in `rec`.
pub open spec fn first_record(rec: Seq<(u64, bool)>, seq: u64, i: int) -> bool {
    &&& 0 <= i < rec.len()
    &&& rec[i].0 == seq
    &&& forall|j: int| 0 <= j < i ==> #[trigger] rec[j].0 != seq
}

/// The first outcome recorded for `seq` in `rec` says its batch write succeeded.
pub open spec fn written_ok(rec: Seq<(u64, bool)>, seq: u64) -> bool {
    exists|i: int| #[trigger] first_record(rec, seq, i) && rec[i].1
}

/// When every batched entry for `s` holds `v`, and there is one, the batch of puts
/// leaves `v` under the entry key of `s`.
pub proof fn lemma_put_all_value(m: Map<Seq<u8>, Seq<u8>>, batch: Seq<(u64, Vec<u8>)>, s: u64, v: Seq<u8>)
    requires
        exists|i: int| 0 <= i < batch.len() && #[trigger] batch[i].0 == s,
        forall|i: int| 0 <= i < batch.len() && #[trigger] batch[i].0 == s ==> batch[i].1@ == v,
    ensures
        put_all(m, batch).contains_key(key_of(s)),
        put_all(m, batch)[key_of(s)] == v,
    decreases batch.len(),
{
    let n = batch.len() - 1;
    let b = batch.drop_last();
    if batch[n].0 == s {
        assert(batch.last() == batch[n]);
    } else {
        lemma_key_roundtrip(s);
        lemma_key_roundtrip(batch[n].0);
        assert(batch.last() == batch[n]);
        let i = choose|i: int| 0 <= i < batch.len() && #[trigger] batch[i].0 == s;
        assert(b[i] == batch[i]);
        assert forall|j: int| 0 <= j < b.len() && #[trigger] b[j].0 == s implies b[j].1@ == v by {
            assert(b[j] == batch[j]);
        }
        lemma_put_all_value(m, b, s, v);
    }
}

/// How many of the sequence numbers below `n` hold an item.
pub open spec fn count_below(e: Map<u64, Seq<u8>>, n: int) -> nat
    decreases n,
{
    if n <= 0 {
        0
    } else {
        count_below(e, n - 1) + if e.contains_key((n - 1) as u64) {
            1nat
        } else {
            0nat
        }
    }
}

/// How many items `e` holds.
pub open spec fn entry_count(e: Map<u64, Seq<u8>>) -> nat {
    count_below(e, u64::MAX as int)
}

/// The format version a meta record holds: its first byte, or 0 when it is empty.
pub open spec fn version_of(meta: Seq<u8>) -> u8 {
    if meta.len() > 0 {
        meta[0]
    } else {
        0
    }
}

/// Entry keys compare as their sequence numbers (non-strict form).
pub proof fn lemma_key_le(n: u64, t: u64)
    ensures
        lex_le(key_of(n), key_of(t)) <==> n <= t,
{
    lemma_key_order(n, t);
    lemma_key_order(t, n);
    lemma_key_roundtrip(n);
    lemma_key_roundtrip(t);
    lemma_lex_asymmetric(key_of(n), key_of(t));
    lemma_lex_irreflexive(key_of(n));
}

proof fn lemma_meta_before_entries(t: u64)
    ensures
        lex_lt(meta_key(), entry_low()),
        lex_lt(meta_key(), key_of(t)),
        !lex_le(entry_low(), meta_key()),
        !lex_le(key_of(t), meta_key()),
        lex_le(entry_low(), key_of(t)),
        lex_le(key_of(t), entry_high()),
{
    assert(lex_lt(entry_low().drop_first(), key_of(t).drop_first()));
    lemma_lex_asymmetric(meta_key(), entry_low());
    lemma_lex_asymmetric(meta_key(), key_of(t));
    assert(key_of(u64::MAX) =~= entry_high()) by {
        let x = 0xffffffffffffffffu64;
        assert(((x >> 56u64) & 0xffu64) as u8 == 0xffu8) by (bit_vector)
            requires
                x == 0xffffffffffffffffu64;
        assert(((x >> 48u64) & 0xffu64) as u8 == 0xffu8) by (bit_vector)
            requires
                x == 0xffffffffffffffffu64;
        assert(((x >> 40u64) & 0xffu64) as u8 == 0xffu8) by (bit_vector)
            requires
                x == 0xffffffffffffffffu64;
        assert(((x >> 32u64) & 0xffu64) as u8 == 0xffu8) by (bit_vector)
            requires
                x == 0xffffffffffffffffu64;
        assert(((x >> 24u64) & 0xffu64) as u8 == 0xffu8) by (bit_vector)
            requires
                x == 0xffffffffffffffffu64;
        assert(((x >> 16u64) & 0xffu64) as u8 == 0xffu8) by (bit_vector)
            requires
                x == 0xffffffffffffffffu64;
        assert(((x >> 8u64) & 0xffu64) as u8 == 0xffu8) by (bit_vector)
            requires
                x == 0xffffffffffffffffu64;
        assert((x & 0xffu64) as u8 == 0xffu8) by (bit_vector)
            requires
                x == 0xffffffffffffffffu64;
    }
    lemma_key_le(t, u64::MAX);
}

/// What a forward seek from `cursor` (the entry key of `n`, or the entry range's
/// lower bound when `n` is 0) says about the items: the least item at or after `n`,
/// or that there is none.
pub proof fn lemma_seek_entries(m: Map<Seq<u8>, Seq<u8>>, cursor: Seq<u8>, n: u64, r: Option<KeyValue>)
    requires
        entry_range_clean(m),
        seek_answer(m, cursor, r),
        cursor == key_of(n) || (cursor == entry_low() && n == 0),
    ensures
        match r {
            Some((k, v)) => if is_entry_key(k@) {
                &&& k@ == key_of(seq_in(k@))
                &&& entries_of(m).contains_key(seq_in(k@))
                &&& n <= seq_in(k@)
                &&& v@ == entries_of(m)[seq_in(k@)]
                &&& forall|t: u64| n <= t < seq_in(k@) ==> !#[trigger] entries_of(m).contains_key(t)
            } else {
                forall|t: u64| n <= t ==> !#[trigger] entries_of(m).contains_key(t)
            },
            None => forall|t: u64| n <= t ==> !#[trigger] entries_of(m).contains_key(t),
        },
{
    lemma_meta_before_entries(n);
    match r {
        Some((k, v)) if !is_entry_key(k@) => {
            // A key past the cursor that is no entry key starts with a byte above the
            // entry prefix, so it sorts after every entry.
            assert(m.contains_key(k@));
            assert(lex_le(cursor, k@));
            assert(cursor[0] == 1u8);
            if k@ == cursor {
                assert(k@.len() > 0 && k@[0] == 1u8);
            }
            assert(k@.len() > 0 && k@[0] > 1u8);
            assert forall|t: u64| n <= t implies !#[trigger] entries_of(m).contains_key(t) by {
                if entries_of(m).contains_key(t) {
                    assert(m.contains_key(key_of(t)));
                    lemma_meta_before_entries(t);
                    lemma_key_le(n, t);
                    assert(lex_le(cursor, key_of(t)));
                    assert(lex_le(k@, key_of(t)));
                    assert(key_of(t)[0] == 1u8);
                    assert(k@ != key_of(t));
                }
            }
        },
        Some((k, v)) => {
            assert(m.contains_key(k@));
            lemma_entry_key_is_key_of(k@);
            let t0 = seq_in(k@);
            if cursor == key_of(n) {
                lemma_key_le(n, t0);
            }
            assert forall|t: u64| n <= t < t0 implies !#[trigger] entries_of(m).contains_key(t) by {
                if entries_of(m).contains_key(t) {
                    assert(m.contains_key(key_of(t)));
                    lemma_meta_before_entries(t);
                    lemma_key_le(n, t);
                    assert(lex_le(cursor, key_of(t)));
                    lemma_key_le(t0, t);
                }
            }
        },
        None => {
            assert forall|t: u64| n <= t implies !#[trigger] entries_of(m).contains_key(t) by {
                if entries_of(m).contains_key(t) {
                    assert(m.contains_key(key_of(t)));
                    lemma_meta_before_entries(t);
                    lemma_key_le(n, t);
                }
            }
        },
    }
}

/// What a backward seek from the top of the entry range says about the items: the
/// greatest one, or that there is none.
pub proof fn lemma_seek_back_entries(m: Map<Seq<u8>, Seq<u8>>, r: Option<KeyValue>)
    requires
        entry_range_clean(m),
        seek_back_answer(m, entry_high(), r),
    ensures
        match r {
            Some((k, v)) => if is_entry_key(k@) {
                &&& entries_of(m).contains_key(seq_in(k@))
                &&& forall|t: u64| #[trigger] entries_of(m).contains_key(t) ==> t <= seq_in(k@)
            } else {
                forall|t: u64| !#[trigger] entries_of(m).contains_key(t)
            },
            None => forall|t: u64| !#[trigger] entries_of(m).contains_key(t),
        },
{
    match r {
        Some((k, v)) => {
            if is_entry_key(k@) {
                lemma_entry_key_is_key_of(k@);
                assert forall|t: u64| #[trigger] entries_of(m).contains_key(t) implies t <= seq_in(k@) by {
                    assert(m.contains_key(key_of(t)));
                    lemma_meta_before_entries(t);
                    lemma_key_le(t, seq_in(k@));
                }
            } else {
                // A key at or below the range's top that is no entry key starts with
                // a byte below the entry prefix (or is empty): it sorts before every
                // entry.
                assert(m.contains_key(k@));
                assert(lex_le(k@, entry_high()));
                assert(k@ != entry_high());
                assert(k@.len() == 0 || k@[0] < 1u8);
                assert forall|t: u64| !#[trigger] entries_of(m).contains_key(t) by {
                    if entries_of(m).contains_key(t) {
                        assert(m.contains_key(key_of(t)));
                        lemma_meta_before_entries(t);
                        assert(lex_le(key_of(t), k@));
                        assert(key_of(t) != k@);
                    }
                }
            }
        },
        None => {
            assert forall|t: u64| !#[trigger] entries_of(m).contains_key(t) by {
                if entries_of(m).contains_key(t) {
                    assert(m.contains_key(key_of(t)));
                    lemma_meta_before_entries(t);
                }
            }
        },
    }
}

/// No items in `[a, b)` means the count below `b` equals the count below `a`.
pub proof fn lemma_count_gap(e: Map<u64, Seq<u8>>, a: int, b: int)
    requires
        0 <= a <= b <= u64::MAX as int,
        forall|t: u64| a <= t < b ==> !#[trigger] e.contains_key(t),
    ensures
        count_below(e, b) == count_below(e, a),
    decreases b - a,
{
    if b > a {
        lemma_count_gap(e, a, b - 1);
        assert(!e.contains_key((b - 1) as u64));
    }
}

/// Counting below a larger bound never counts fewer items.
pub proof fn lemma_count_monotone(e: Map<u64, Seq<u8>>, a: int, b: int)
    requires
        a <= b,
    ensures
        count_below(e, a) <= count_below(e, b),
    decreases b - a,
{
    if b > a {
        lemma_count_monotone(e, a, b - 1);
    }
}

/// At most `n` of the numbers below `n` hold an item.
pub proof fn lemma_count_bound(e: Map<u64, Seq<u8>>, n: int)
    requires
        0 <= n,
    ensures
        count_below(e, n) <= n,
    decreases n,
{
    if n > 0 {
        lemma_count_bound(e, n - 1);
    }
}

/// Store contents a queue can be opened over, with its items counted in a `usize`.
pub open spec fn openable(m: Map<Seq<u8>, Seq<u8>>) -> bool {
    &&& recoverable(m)
    &&& entry_count(entries_of(m)) < usize::MAX
}

/// Check, by scanning the entry range, whether a queue can be opened over `store`:
/// every key there is an entry key, the last sequence number holds no entry, and
/// the items can be counted.
pub fn check_store<S: Store>(store: &S) -> (r: Result<bool, S::Error>)
    ensures
        r matches Ok(b) ==> (b <==> openable(store.contents())),
        store.infallible() ==> r is Ok,
{
    let ghost m = store.contents();
    let ghost e = entries_of(m);
    proof {
        assert(ENTRY_LOW@ == entry_low());
    }
    let mut cursor: Vec<u8> = copy_bytes(ENTRY_LOW.as_slice());
    let mut count: usize = 0;
    let ghost mut next: int = 0;
    proof {
        assert(cursor@ =~= seq![1u8]);
        assert(cursor@.len() == 1 && cursor@[0] == 1u8);
        assert(cursor@.drop_first() =~= Seq::<u8>::empty());
        assert forall|t: u64| !lex_lt(#[trigger] key_of(t), cursor@) by {
            assert(key_of(t)[0] == cursor@[0]);
            assert(!lex_lt(key_of(t).drop_first(), cursor@.drop_first()));
        }
        assert forall|x: Seq<u8>| #[trigger] m.contains_key(x) && lex_lt(x, cursor@) && x.len() > 0
            && x[0] == 1u8 implies is_entry_key(x) by {
            assert(!lex_lt(x.drop_first(), cursor@.drop_first()));
        }
    }
    loop
        invariant
            m == store.contents(),
            e == entries_of(m),
            0 <= next <= u64::MAX,
            cursor@.len() > 0 && cursor@[0] == 1u8,
            forall|t: u64| lex_lt(#[trigger] key_of(t), cursor@) <==> t < next,
            forall|x: Seq<u8>| #[trigger] m.contains_key(x) && lex_lt(x, cursor@) && x.len() > 0
                && x[0] == 1u8 ==> is_entry_key(x),
            count == count_below(e, next),
            count < usize::MAX,
        decreases u64::MAX - next,
    {
        let found = store.seek(cursor.as_slice())?;
        let k = match found {
            None => {
                proof {
                    lemma_scan_done(m, cursor@, next, None);
                }
                return Ok(true);
            },
            Some((k, _)) => k,
        };
        if k.len() == 0 || k[0] != ENTRY_PREFIX {
            proof {
                lemma_scan_done(m, cursor@, next, found);
            }
            return Ok(true);
        }
        if !is_entry(k.as_slice()) {
            return Ok(false);
        }
        let s = seq_of(k.as_slice());
        proof {
            lemma_entry_key_is_key_of(k@);
            lemma_lex_lt_iff_not_le(k@, cursor@);
        }
        if s == u64::MAX {
            return Ok(false);
        }
        proof {
            assert(s >= next);
            assert forall|t: u64| next <= t < s implies !#[trigger] e.contains_key(t) by {
                if e.contains_key(t) {
                    assert(m.contains_key(key_of(t)));
                    lemma_lex_lt_iff_not_le(key_of(t), cursor@);
                    lemma_key_order(t, s);
                    lemma_lex_asymmetric(key_of(t), k@);
                }
            }
            lemma_count_gap(e, next, s as int);
            assert(e.contains_key(s));
            lemma_count_monotone(e, s as int + 1, u64::MAX as int);
        }
        if count + 1 == usize::MAX {
            return Ok(false);
        }
        count = count + 1;
        let ghost old_cursor = cursor@;
        let mut c = k;
        c.push(0u8);
        cursor = c;
        proof {
            assert forall|t: u64| lex_lt(#[trigger] key_of(t), cursor@) <==> t < s + 1 by {
                lemma_lex_successor(key_of(t), key_of(s));
                lemma_key_le(t, s);
            }
            assert forall|x: Seq<u8>| #[trigger] m.contains_key(x) && lex_lt(x, cursor@) && x.len() > 0
                && x[0] == 1u8 implies is_entry_key(x) by {
                lemma_lex_successor(x, key_of(s));
                if !lex_lt(x, old_cursor) {
                    lemma_lex_lt_iff_not_le(x, old_cursor);
                    if x != key_of(s) {
                        lemma_lex_asymmetric(x, key_of(s));
                    }
                }
            }
            next = s + 1;
        }
    }
}

/// The end of an entry-range scan: nothing, or a key past the range, was found at or
/// after `cursor`, so every entry key of `m` lies before it.
proof fn lemma_scan_done(m: Map<Seq<u8>, Seq<u8>>, cursor: Seq<u8>, next: int, found: Option<KeyValue>)
    requires
        seek_answer(m, cursor, found),
        found matches Some((k, v)) ==> k@.len() == 0 || k@[0] != 1u8,
        0 <= next <= u64::MAX,
        cursor.len() > 0 && cursor[0] == 1u8,
        forall|t: u64| lex_lt(#[trigger] key_of(t), cursor) <==> t < next,
        forall|x: Seq<u8>| #[trigger] m.contains_key(x) && lex_lt(x, cursor) && x.len() > 0 && x[0] == 1u8
            ==> is_entry_key(x),
    ensures
        entry_range_clean(m),
        !m.contains_key(key_of(u64::MAX)),
        entry_count(entries_of(m)) == count_below(entries_of(m), next),
{
    let e = entries_of(m);
    assert forall|x: Seq<u8>| #[trigger] m.contains_key(x) && x.len() > 0 && x[0] == 1u8 implies lex_lt(
        x,
        cursor,
    ) by {
        lemma_lex_lt_iff_not_le(x, cursor);
        if lex_le(cursor, x) {
            match found {
                Some((k, v)) => {
                    assert(lex_le(k@, x));
                    if k@.len() == 0 {
                        assert(lex_lt(k@, cursor));
                        lemma_lex_asymmetric(k@, cursor);
                        lemma_lex_irreflexive(cursor);
                    } else {
                        if k@ == cursor {
                            assert(false);
                        }
                        assert(k@[0] > 1u8);
                        assert(lex_lt(x, k@));
                        lemma_lex_asymmetric(x, k@);
                        lemma_lex_irreflexive(x);
                    }
                },
                None => {},
            }
        }
    }
    assert forall|t: u64| #[trigger] e.contains_key(t) implies t < next by {
        assert(m.contains_key(key_of(t)));
        lemma_key_roundtrip(t);
    }
    lemma_key_roundtrip(u64::MAX);
    lemma_count_gap(e, next, u64::MAX as int);
}

/// How writes are made durable.
#[derive(Clone, Copy, Debug, Default, PartialEq, Eq)]
pub enum Durability {
    /// fsync every push and ack. Strongest, slowest.
    #[default]
    Sync,
    /// Batch concurrent pushes behind a single fsync; acks still fsync each. Same
    /// durability as `Sync` with far less fsync overhead under load.
    Group,
    /// Do not fsync. Fastest, but no durability guarantee: recent items can be lost
    /// on a crash (the backend persists on its own schedule, if at all).
    NoSync,
}

impl Durability {
    /// Whether writes under this policy ask the store to make them durable.
    pub open spec fn writes_durably(self) -> bool {
        match self {
            Durability::NoSync => false,
            _ => true,
        }
    }

    /// Whether pushes under this policy are batched.
    pub open spec fn batches(self) -> bool {
        match self {
            Durability::Group => true,
            _ => false,
        }
    }

    /// Whether writes under this policy ask the store to make them durable.
    pub fn durable(self) -> (b: bool)
        ensures
            b == self.writes_durably(),
    {
        match self {
            Durability::NoSync => false,
            _ => true,
        }
    }

    /// Whether pushes under this policy are batched.
    pub fn group(self) -> (b: bool)
        ensures
            b == self.batches(),
    {
        match self {
            Durability::Group => true,
            _ => false,
        }
    }
}

/// Why a push was refused before anything was written.
#[derive(Debug)]
pub enum Refusal {
    /// The queue was closed.
    Closed,
    /// The queue is at capacity (or has no sequence number left to give).
    Full,
}

/// The queue over a store: the store itself, and the in-memory bookkeeping that
/// recovery rebuilds from it.
pub struct QueueState<S> {
    store: S,
    capacity: usize,
    durable: bool,
    durable_acks: bool,
    group: bool,
    // Next sequence number to give out.
    tail: u64,
    // Lowest un-acked sequence number: where `reserve` starts scanning. Advanced only
    // on ack, never in reserve, so a number claimed but not yet written is never
    // skipped.
    head: u64,
    // Numbers acked out of order, above `head`; acking `head` jumps the whole
    // contiguous run at once.
    acked_above: BTreeSet<u64>,
    // Unacked items counted against capacity.
    len: usize,
    // Items handed out and not yet acked or returned.
    reserved: BTreeSet<u64>,
    closed: bool,
    // Group commit: entries claimed and waiting for the next batch write, and the
    // outcome of batches already written, by sequence number.
    pending: Vec<(u64, Vec<u8>)>,
    outcomes: Vec<(u64, bool)>,
    // The numbers whose items a successful (durable) batch write stored.
    written: Ghost<Set<u64>>,
}

impl<S: Store> QueueState<S> {
    /// The store's contents.
    pub closed spec fn contents(&self) -> Map<Seq<u8>, Seq<u8>> {
        self.store.contents()
    }

    /// The items in the store, by sequence number.
    pub closed spec fn items(&self) -> Map<u64, Seq<u8>> {
        entries_of(self.store.contents())
    }

    /// The sequence numbers handed out and not yet acked or returned.
    pub closed spec fn in_flight(&self) -> Set<u64> {
        self.reserved@
    }

    /// The number of unacked items counted against capacity.
    pub closed spec fn unacked(&self) -> nat {
        self.len as nat
    }

    /// The next sequence number a push will take.
    pub closed spec fn next_seq(&self) -> u64 {
        self.tail
    }

    /// The lowest sequence number not yet acked.
    pub closed spec fn oldest(&self) -> u64 {
        self.head
    }

    /// Whether the queue was closed.
    pub closed spec fn is_closed(&self) -> bool {
        self.closed
    }

    /// The capacity: unacked items allowed before a push waits.
    pub closed spec fn limit(&self) -> nat {
        self.capacity as nat
    }

    /// Whether pushes and acks ask the store for durable writes.
    pub closed spec fn durable_writes(&self) -> bool {
        self.durable
    }

    /// Whether acks ask the store for durable writes.
    pub closed spec fn acks_durable(&self) -> bool {
        self.durable_acks
    }

    /// Whether pushes are batched (group commit).
    pub closed spec fn batched(&self) -> bool {
        self.group
    }

    /// The entries waiting for the next batch write.
    pub closed spec fn batch(&self) -> Seq<(u64, Vec<u8>)> {
        self.pending@
    }

    /// The numbers whose items a successful batch write stored, durably, since the
    /// queue was opened.
    pub closed spec fn batch_written(&self) -> Set<u64> {
        self.written@
    }

    /// The outcomes of batch writes not yet collected, by sequence number.
    pub closed spec fn recorded(&self) -> Seq<(u64, bool)> {
        self.outcomes@
    }

    /// What the store would hold after a crash.
    pub closed spec fn durable_contents(&self) -> Map<Seq<u8>, Seq<u8>> {
        self.store.durable_contents()
    }

    /// Whether the store underneath never fails.
    pub closed spec fn store_infallible(&self) -> bool {
        self.store.infallible()
    }

    /// Whether `seq` was given to a push and is not acked yet.
    pub closed spec fn outstanding(&self, seq: u64) -> bool {
        self.head <= seq < self.tail && !self.acked_above@.contains(seq)
    }

    /// The state's invariant.
    pub closed spec fn wf(&self) -> bool {
        self.wf_with(self.store.contents())
    }

    /// `post` has the same capacity and write policy as `self`.
    pub open spec fn same_settings(&self, post: Self) -> bool {
        &&& post.limit() == self.limit()
        &&& post.durable_writes() == self.durable_writes()
        &&& post.acks_durable() == self.acks_durable()
        &&& post.batched() == self.batched()
        &&& post.store_infallible() == self.store_infallible()
    }

    /// `post` is `self` after `value` was appended as item number `self.next_seq()`.
    pub open spec fn pushed(&self, value: Seq<u8>, post: Self) -> bool {
        &&& post.contents() == self.contents().insert(key_of(self.next_seq()), value)
        &&& post.items() == self.items().insert(self.next_seq(), value)
        &&& post.next_seq() == self.next_seq() + 1
        &&& post.unacked() == self.unacked() + 1
        &&& post.in_flight() == self.in_flight()
        &&& post.oldest() == self.oldest()
        &&& post.is_closed() == self.is_closed()
        &&& post.batch() == self.batch()
        &&& self.same_settings(post)
    }

    /// `post` is `self` after item `seq`, holding `value`, was handed out: the oldest
    /// item not already handed out.
    pub open spec fn handed_out(&self, seq: u64, value: Seq<u8>, post: Self) -> bool {
        &&& self.items().contains_key(seq)
        &&& !self.in_flight().contains(seq)
        &&& value == self.items()[seq]
        &&& forall|t: u64| #[trigger]
            self.items().contains_key(t) && !self.in_flight().contains(t) ==> seq <= t
        &&& post.in_flight() == self.in_flight().insert(seq)
        &&& post.contents() == self.contents()
        &&& post.items() == self.items()
        &&& post.unacked() == self.unacked()
        &&& post.next_seq() == self.next_seq()
        &&& post.oldest() == self.oldest()
        &&& post.is_closed() == self.is_closed()
        &&& post.batch() == self.batch()
        &&& self.same_settings(post)
    }

    /// `post` is `self` after item `seq` was returned for redelivery.
    pub open spec fn returned(&self, seq: u64, post: Self) -> bool {
        &&& post.in_flight() == self.in_flight().remove(seq)
        &&& post.contents() == self.contents()
        &&& post.items() == self.items()
        &&& post.unacked() == self.unacked()
        &&& post.next_seq() == self.next_seq()
        &&& post.oldest() == self.oldest()
        &&& post.is_closed() == self.is_closed()
        &&& post.batch() == self.batch()
        &&& self.same_settings(post)
    }

    /// `post` is `self` after every number in `seqs` was returned for redelivery.
    pub open spec fn returned_all(&self, seqs: Set<u64>, post: Self) -> bool {
        &&& post.in_flight() == self.in_flight().difference(seqs)
        &&& post.contents() == self.contents()
        &&& post.items() == self.items()
        &&& post.unacked() == self.unacked()
        &&& post.next_seq() == self.next_seq()
        &&& post.oldest() == self.oldest()
        &&& post.is_closed() == self.is_closed()
        &&& post.batch() == self.batch()
        &&& self.same_settings(post)
    }

    /// A push would be taken now: the queue is open, below its capacity, and has a
    /// sequence number left to give.
    pub open spec fn has_room(&self) -> bool {
        &&& !self.is_closed()
        &&& self.unacked() < self.limit()
        &&& self.next_seq() < u64::MAX
    }

    /// `post` is `self` after item `seq` was acked: removed from the store.
    pub open spec fn acked(&self, seq: u64, post: Self) -> bool {
        &&& post.contents() == self.contents().remove(key_of(seq))
        &&& post.items() == self.items().remove(seq)
        &&& post.in_flight() == self.in_flight().remove(seq)
        &&& post.unacked() == (if self.unacked() > 0 {
            self.unacked() - 1
        } else {
            0
        })
        &&& post.next_seq() == self.next_seq()
        &&& self.oldest() <= post.oldest()
        &&& post.is_closed() == self.is_closed()
        &&& post.batch() == self.batch()
        &&& self.same_settings(post)
    }

    /// The invariant, with `m` standing for the store's contents.
    closed spec fn wf_with(&self, m: Map<Seq<u8>, Seq<u8>>) -> bool {
        let e = entries_of(m);
        &&& recoverable(m)
        &&& self.capacity > 0
        &&& self.head <= self.tail
        &&& forall|s: u64| #[trigger] e.contains_key(s) ==> self.head <= s < self.tail
        &&& forall|a: u64| #[trigger]
            self.acked_above@.contains(a) ==> self.head < a < self.tail && !e.contains_key(a)
        &&& forall|r: u64| #[trigger] self.reserved@.contains(r) ==> e.contains_key(r)
        &&& forall|i: int|
            0 <= i < self.outcomes@.len() && (#[trigger] self.outcomes@[i]).1 ==> self.written@.contains(
                self.outcomes@[i].0,
            )
        &&& forall|i: int| 0 <= i < self.outcomes@.len() ==> (#[trigger] self.outcomes@[i]).0 < self.tail
        &&& forall|i: int|
            0 <= i < self.pending@.len() ==> {
                let p = #[trigger] self.pending@[i].0;
                &&& self.head <= p < self.tail
                &&& !self.acked_above@.contains(p)
                &&& !e.contains_key(p)
            }
    }

    /// Open a queue over `store`, recovering the items already in it. Writes the
    /// format version when the store has none, and refuses a store written by another
    /// format version. Every recovered item is reservable: anything that was in
    /// flight before is redelivered.
    pub fn recover(store: S, capacity: usize, durability: Durability, durable_acks: bool) -> (r: Result<
        QueueState<S>,
        OpenError<S::Error>,
    >)
        requires
            capacity > 0,
            recoverable(store.contents()),
            entry_count(entries_of(store.contents())) < usize::MAX,
        ensures
            match r {
                Ok(q) => {
                    let e = entries_of(store.contents());
                    &&& q.wf()
                    &&& q.items() == e
                    &&& store.contents().contains_key(meta_key()) ==> version_of(
                        store.contents()[meta_key()],
                    ) == FORMAT_VERSION
                    &&& !store.contents().contains_key(meta_key()) ==> q.contents()
                        == store.contents().insert(meta_key(), seq![FORMAT_VERSION])
                    &&& !store.contents().contains_key(meta_key()) && durability.writes_durably()
                        ==> q.durable_contents() == q.contents()
                    &&& store.contents().contains_key(meta_key()) ==> q.contents() == store.contents()
                        && q.durable_contents() == store.durable_contents()
                    &&& q.in_flight() == Set::<u64>::empty()
                    &&& q.unacked() == entry_count(e)
                    &&& forall|s: u64| #[trigger] e.contains_key(s) ==> s < q.next_seq()
                    &&& q.next_seq() > 0 ==> e.contains_key((q.next_seq() - 1) as u64)
                    &&& (forall|s: u64| !#[trigger] e.contains_key(s)) ==> q.oldest() == q.next_seq()
                    &&& (exists|s: u64| #[trigger] e.contains_key(s)) ==> e.contains_key(q.oldest())
                    &&& forall|s: u64| #[trigger] e.contains_key(s) ==> q.oldest() <= s
                    &&& !q.is_closed()
                    &&& q.limit() == capacity
                    &&& q.durable_writes() == durability.writes_durably()
                    &&& q.acks_durable() == durable_acks
                    &&& q.batched() == durability.batches()
                    &&& q.store_infallible() == store.infallible()
                    &&& q.batch().len() == 0
                    &&& q.recorded().len() == 0
                    &&& q.batch_written() == Set::<u64>::empty()
                },
                Err(OpenError::UnsupportedVersion(v)) => {
                    &&& store.contents().contains_key(meta_key())
                    &&& v == version_of(store.contents()[meta_key()])
                    &&& v != FORMAT_VERSION
                },
                Err(OpenError::Store(_)) => !store.infallible(),
            },
            store.contents().contains_key(meta_key()) && version_of(store.contents()[meta_key()])
                != FORMAT_VERSION ==> r is Err,
    {
        let mut st = store;
        let ghost original = st.contents();
        let durable = durability.durable();
        let group = durability.group();
        proof {
            assert(META_KEY@ == meta_key());
            assert(ENTRY_HIGH@ == entry_high());
            assert(ENTRY_LOW@ == entry_low());
        }
        let found = match st.get(META_KEY.as_slice()) {
            Err(e) => {
                return Err(OpenError::Store(e));
            },
            Ok(found) => found,
        };
        match check_meta(&found) {
            Err(version) => {
                return Err(OpenError::UnsupportedVersion(version));
            },
            Ok(false) => {},
            Ok(true) => {
                let value: [u8; 1] = [FORMAT_VERSION];
                let ops = [Op::Put(META_KEY.as_slice(), value.as_slice())];
                let committed = st.commit(ops.as_slice(), durable);
                proof {
                    assert(ops@.len() == 1);
                    assert(ops@.drop_last() =~= Seq::<Op>::empty());
                    assert(apply_ops(original, ops@.drop_last()) == original);
                    assert(apply_ops(original, ops@) == apply_op(original, ops@[0]));
                }
                match committed {
                    Ok(()) => {},
                    Err(e) => {
                        return Err(OpenError::Store(e));
                    },
                }
            },
        }
        let ghost m = st.contents();
        assert(st.infallible() == store.infallible());
        proof {
            assert(m == original.insert(meta_key(), seq![FORMAT_VERSION]) || m == original);
            assert(entries_of(m) =~= entries_of(original)) by {
                assert forall|s: u64| #[trigger] entries_of(m).contains_key(s) == entries_of(original).contains_key(s) by {
                    lemma_meta_before_entries(s);
                    lemma_lex_irreflexive(meta_key());
                }
            }
            assert(recoverable(m));
        }
        let tail: u64 = match st.seek_back(ENTRY_HIGH.as_slice()) {
            Err(e) => {
                return Err(OpenError::Store(e));
            },
            Ok(found) => {
                proof {
                    lemma_seek_back_entries(m, found);
                }
                match found {
                    Some((key, _)) => {
                        if is_entry(key.as_slice()) {
                            let s = seq_of(key.as_slice());
                            proof {
                                lemma_entry_key_is_key_of(key@);
                            }
                            s + 1
                        } else {
                            0
                        }
                    },
                    None => 0,
                }
            },
        };
        let ghost e = entries_of(m);
        let mut len: usize = 0;
        let mut head: u64 = tail;
        let mut cursor: Vec<u8> = copy_bytes(ENTRY_LOW.as_slice());
        let ghost mut next: u64 = 0;
        loop
            invariant_except_break
                m == st.contents(),
                st.infallible() == store.infallible(),
                e == entries_of(m),
                entry_range_clean(m),
                forall|s: u64| #[trigger] e.contains_key(s) ==> s < tail,
                next <= tail,
                cursor@ == key_of(next) || (cursor@ == entry_low() && next == 0),
                len == count_below(e, next as int),
                entry_count(e) < usize::MAX,
                len == 0 ==> head == tail,
                len == 0 ==> forall|s: u64| s < next ==> !#[trigger] e.contains_key(s),
                len > 0 ==> e.contains_key(head) && forall|s: u64| #[trigger] e.contains_key(s) ==> head <= s,
            ensures
                m == st.contents(),
                st.infallible() == store.infallible(),
                len == count_below(e, next as int),
                next <= tail,
                forall|s: u64| next <= s ==> !#[trigger] e.contains_key(s),
                len == 0 ==> head == tail,
                len == 0 ==> forall|s: u64| s < next ==> !#[trigger] e.contains_key(s),
                len > 0 ==> e.contains_key(head) && forall|s: u64| #[trigger] e.contains_key(s) ==> head <= s,
            decreases tail - next,
        {
            let found = match st.seek(cursor.as_slice()) {
                Err(err) => {
                    return Err(OpenError::Store(err));
                },
                Ok(found) => found,
            };
            proof {
                lemma_seek_entries(m, cursor@, next, found);
            }
            match found {
                None => {
                    break;
                },
                Some((key, _)) => {
                    if !is_entry(key.as_slice()) {
                        break;
                    }
                    let s = seq_of(key.as_slice());
                    proof {
                        lemma_count_gap(e, next as int, s as int);
                        lemma_count_monotone(e, s as int + 1, u64::MAX as int);
                    }
                    if len == 0 {
                        head = s;
                    }
                    len = len + 1;
                    cursor = entry_key(s + 1);
                    proof {
                        next = (s + 1) as u64;
                    }
                },
            }
        }
        proof {
            lemma_count_gap(e, next as int, u64::MAX as int);
        }
        let q = QueueState {
            store: st,
            capacity,
            durable,
            durable_acks,
            group,
            tail,
            head,
            acked_above: BTreeSet::new(),
            len,
            reserved: BTreeSet::new(),
            closed: false,
            pending: Vec::new(),
            outcomes: Vec::new(),
            written: Ghost(Set::empty()),
        };
        Ok(q)
    }

    /// The number of unacked items.
    pub fn len(&self) -> (n: usize)
        ensures
            n == self.unacked(),
    {
        self.len
    }

    /// The lowest sequence number not yet acked.
    pub fn oldest_unacked(&self) -> (n: u64)
        ensures
            n == self.oldest(),
    {
        self.head
    }

    /// Whether the queue was closed.
    pub fn closed(&self) -> (b: bool)
        ensures
            b == self.is_closed(),
    {
        self.closed
    }

    /// Close the queue: further pushes are refused, the consumer can still drain.
    pub fn close(&mut self)
        requires
            old(self).wf(),
        ensures
            final(self).wf(),
            final(self).is_closed(),
            final(self).contents() == old(self).contents(),
            final(self).in_flight() == old(self).in_flight(),
            final(self).unacked() == old(self).unacked(),
            final(self).next_seq() == old(self).next_seq(),
            final(self).oldest() == old(self).oldest(),
            final(self).batch() == old(self).batch(),
            old(self).same_settings(*final(self)),
    {
        self.closed = true;
    }

    /// Claim the next sequence number and a capacity slot, or say why not.
    fn try_claim(&mut self) -> (r: Result<u64, Refusal>)
        requires
            old(self).wf(),
        ensures
            final(self).wf(),
            old(self).closed ==> r is Err && r->Err_0 is Closed,
            !old(self).closed && (old(self).len >= old(self).capacity || old(self).tail == u64::MAX)
                ==> r is Err && r->Err_0 is Full,
            !old(self).closed && old(self).len < old(self).capacity && old(self).tail < u64::MAX
                ==> r is Ok,
            r is Err ==> *final(self) == *old(self),
            r matches Ok(seq) ==> {
                &&& seq == old(self).tail
                &&& *final(self) == QueueState {
                    tail: (old(self).tail + 1) as u64,
                    len: (old(self).len + 1) as usize,
                    ..*old(self)
                }
            },
    {
        if self.closed {
            return Err(Refusal::Closed);
        }
        if self.len >= self.capacity || self.tail == u64::MAX {
            return Err(Refusal::Full);
        }
        let seq = self.tail;
        self.tail = self.tail + 1;
        self.len = self.len + 1;
        Ok(seq)
    }

    /// Append `value` as the next item, unless the queue is closed or full. The slot
    /// of a failed write is given back; its sequence number is not reused.
    pub fn try_push(&mut self, value: &[u8]) -> (r: Result<(), TryPushError<S::Error>>)
        requires
            old(self).wf(),
        ensures
            final(self).wf(),
            r matches Err(TryPushError::Closed) <==> old(self).is_closed(),
            r matches Err(TryPushError::Full) <==> !old(self).is_closed() && (old(self).unacked()
                >= old(self).limit() || old(self).next_seq() == u64::MAX),
            (r matches Err(TryPushError::Closed) || r matches Err(TryPushError::Full)) ==> (*final(self)
                == *old(self)),
            r is Ok ==> {
                &&& final(self).contents() == old(self).contents().insert(
                    key_of(old(self).next_seq()),
                    value@,
                )
                &&& final(self).items() == old(self).items().insert(old(self).next_seq(), value@)
                &&& final(self).unacked() == old(self).unacked() + 1
            },
            r matches Err(TryPushError::Store(_)) ==> {
                &&& !old(self).store_infallible()
                &&& final(self).contents() == old(self).contents() || final(self).contents()
                    == old(self).contents().insert(key_of(old(self).next_seq()), value@)
                &&& final(self).unacked() == old(self).unacked()
            },
            r is Ok ==> old(self).pushed(value@, *final(self)),
            r is Ok && old(self).durable_writes() ==> final(self).durable_contents() == final(self).contents(),
            (r is Ok || r matches Err(TryPushError::Store(_))) <==> old(self).has_room(),
            r is Ok ==> final(self).unacked() <= final(self).limit(),
            (r is Ok || r matches Err(TryPushError::Store(_))) ==> {
                &&& final(self).next_seq() == old(self).next_seq() + 1
                &&& final(self).in_flight() == old(self).in_flight()
                &&& final(self).oldest() == old(self).oldest()
                &&& final(self).is_closed() == old(self).is_closed()
                &&& final(self).batch() == old(self).batch()
                &&& old(self).same_settings(*final(self))
            },
    {
        let seq = match self.try_claim() {
            Err(Refusal::Closed) => {
                return Err(TryPushError::Closed);
            },
            Err(Refusal::Full) => {
                return Err(TryPushError::Full);
            },
            Ok(seq) => seq,
        };
        match self.write_claimed(seq, value, self.durable) {
            Ok(()) => Ok(()),
            Err(e) => Err(TryPushError::Store(e)),
        }
    }

    /// Write the item of a claimed sequence number; on failure give back its slot.
    fn write_claimed(&mut self, seq: u64, value: &[u8], durable: bool) -> (r: Result<(), S::Error>)
        requires
            old(self).wf(),
            old(self).head <= seq < old(self).tail,
            !old(self).acked_above@.contains(seq),
            forall|i: int| 0 <= i < old(self).pending@.len() ==> old(self).pending@[i].0 != seq,
        ensures
            final(self).wf(),
            r is Ok ==> {
                &&& final(self).contents() == old(self).contents().insert(key_of(seq), value@)
                &&& final(self).items() == old(self).items().insert(seq, value@)
                &&& final(self).len == old(self).len
            },
            r is Err ==> {
                &&& final(self).contents() == old(self).contents() || final(self).contents()
                    == old(self).contents().insert(key_of(seq), value@)
                &&& final(self).len == (if old(self).len > 0 { old(self).len - 1 } else { 0 })
            },
            final(self).tail == old(self).tail,
            final(self).head == old(self).head,
            final(self).reserved == old(self).reserved,
            final(self).acked_above == old(self).acked_above,
            final(self).closed == old(self).closed,
            final(self).pending == old(self).pending,
            final(self).outcomes == old(self).outcomes,
            final(self).capacity == old(self).capacity,
            final(self).durable == old(self).durable,
            final(self).durable_acks == old(self).durable_acks,
            final(self).group == old(self).group,
            final(self).store.infallible() == old(self).store.infallible(),
            old(self).store.infallible() ==> r is Ok,
            r is Ok && durable ==> final(self).store.durable_contents() == final(self).store.contents(),
    {
        let ghost before = self.store.contents();
        let key = entry_key(seq);
        let ops = [Op::Put(key.as_slice(), value)];
        let r = self.store.commit(ops.as_slice(), durable);
        proof {
            assert(ops@.len() == 1);
            assert(ops@.drop_last() =~= Seq::<Op>::empty());
            assert(apply_ops(before, ops@.drop_last()) == before);
            assert(apply_op(before, ops@[0]) == before.insert(key_of(seq), value@));
            if r is Err {
                lemma_single_op_partly(before, ops@, self.store.contents());
            }
            lemma_entries_insert(before, seq, value@);
            self.lemma_wf_after_put(before, seq, value@);
        }
        match r {
            Ok(()) => Ok(()),
            Err(e) => {
                if self.len > 0 {
                    self.len = self.len - 1;
                }
                Err(e)
            },
        }
    }

    /// Writing the item of a claimed number (or failing to) keeps the invariant.
    proof fn lemma_wf_after_put(&self, before: Map<Seq<u8>, Seq<u8>>, seq: u64, v: Seq<u8>)
        requires
            self.wf_with(before),
            self.head <= seq < self.tail,
            !self.acked_above@.contains(seq),
            forall|i: int| 0 <= i < self.pending@.len() ==> self.pending@[i].0 != seq,
            self.store.contents() == before || self.store.contents() == before.insert(key_of(seq), v),
        ensures
            self.wf(),
    {
        let m = self.store.contents();
        lemma_entries_insert(before, seq, v);
        lemma_key_roundtrip(seq);
        assert(seq != u64::MAX);
        if m != before {
            assert forall|k: Seq<u8>| #[trigger] m.contains_key(k) && k.len() > 0 && k[0] == 1u8 implies is_entry_key(k) by {
                if k != key_of(seq) {
                    assert(before.contains_key(k));
                }
            }
            assert(!m.contains_key(key_of(u64::MAX))) by {
                lemma_key_order(seq, u64::MAX);
                lemma_lex_irreflexive(key_of(seq));
            }
        }
    }

    /// Hand out the oldest item that is not already handed out, or `None` when every
    /// item is handed out (or there is none).
    pub fn reserve(&mut self) -> (r: Result<Option<(u64, Vec<u8>)>, S::Error>)
        requires
            old(self).wf(),
        ensures
            final(self).wf(),
            final(self).contents() == old(self).contents(),
            final(self).unacked() == old(self).unacked(),
            final(self).next_seq() == old(self).next_seq(),
            final(self).oldest() == old(self).oldest(),
            final(self).is_closed() == old(self).is_closed(),
            final(self).batch() == old(self).batch(),
            old(self).same_settings(*final(self)),
            match r {
                Ok(Some((seq, value))) => {
                    &&& old(self).items().contains_key(seq)
                    &&& !old(self).in_flight().contains(seq)
                    &&& value@ == old(self).items()[seq]
                    &&& forall|t: u64| #[trigger]
                        old(self).items().contains_key(t) && !old(self).in_flight().contains(t)
                            ==> seq <= t
                    &&& final(self).in_flight() == old(self).in_flight().insert(seq)
                    &&& old(self).handed_out(seq, value@, *final(self))
                },
                Ok(None) => {
                    &&& forall|t: u64| #[trigger]
                        old(self).items().contains_key(t) ==> old(self).in_flight().contains(t)
                    &&& final(self).in_flight() == old(self).in_flight()
                },
                Err(_) => final(self).in_flight() == old(self).in_flight(),
            },
            old(self).store_infallible() ==> r is Ok,
    {
        let ghost m = self.store.contents();
        let ghost e = entries_of(m);
        let mut next: u64 = self.head;
        let mut cursor: Vec<u8> = entry_key(next);
        loop
            invariant
                *self == *old(self),
                self.wf(),
                m == self.store.contents(),
                e == entries_of(m),
                self.head <= next <= self.tail,
                cursor@ == key_of(next),
                forall|t: u64| #[trigger] e.contains_key(t) && t < next ==> self.reserved@.contains(t),
            decreases self.tail - next,
        {
            let found = self.store.seek(cursor.as_slice())?;
            proof {
                lemma_seek_entries(m, cursor@, next, found);
            }
            match found {
                Some((key, value)) => {
                    if !is_entry(key.as_slice()) {
                        return Ok(None);
                    }
                    let seq = seq_of(key.as_slice());
                    if self.reserved.contains(&seq) {
                        next = seq + 1;
                        cursor = entry_key(next);
                    } else {
                        self.reserved.insert(seq);
                        return Ok(Some((seq, value)));
                    }
                },
                None => {
                    return Ok(None);
                },
            }
        }
    }

    /// Return a handed-out item for redelivery.
    pub fn release(&mut self, seq: u64)
        requires
            old(self).wf(),
        ensures
            final(self).wf(),
            old(self).returned(seq, *final(self)),
            final(self).in_flight() == old(self).in_flight().remove(seq),
            final(self).contents() == old(self).contents(),
            final(self).unacked() == old(self).unacked(),
            final(self).next_seq() == old(self).next_seq(),
            final(self).oldest() == old(self).oldest(),
            final(self).is_closed() == old(self).is_closed(),
            final(self).batch() == old(self).batch(),
            old(self).same_settings(*final(self)),
    {
        self.reserved.remove(&seq);
    }

    /// Return every number in `seqs` for redelivery.
    pub fn release_all(&mut self, seqs: &Vec<u64>)
        requires
            old(self).wf(),
        ensures
            final(self).wf(),
            old(self).returned_all(seqs@.to_set(), *final(self)),
    {
        let ghost start = *self;
        let mut i: usize = 0;
        assert(start.in_flight().difference(Set::new(|x: u64| exists|j: int| 0 <= j < 0 && seqs@[j] == x))
            =~= start.in_flight());
        while i < seqs.len()
            invariant
                0 <= i <= seqs@.len(),
                self.wf(),
                start.returned_all(Set::new(|x: u64| exists|j: int| 0 <= j < i && seqs@[j] == x), *self),
            decreases seqs@.len() - i,
        {
            let ghost before = *self;
            self.release(seqs[i]);
            proof {
                let now = Set::new(|x: u64| exists|j: int| 0 <= j < i + 1 && seqs@[j] == x);
                let was = Set::new(|x: u64| exists|j: int| 0 <= j < i && seqs@[j] == x);
                assert(now =~= was.insert(seqs@[i as int]));
                assert(self.in_flight() =~= start.in_flight().difference(now));
            }
            i = i + 1;
        }
        proof {
            let all = Set::new(|x: u64| exists|j: int| 0 <= j < seqs@.len() && seqs@[j] == x);
            assert forall|x: u64| all.contains(x) <==> seqs@.to_set().contains(x) by {
                if all.contains(x) {
                    let j = choose|j: int| 0 <= j < seqs@.len() && seqs@[j] == x;
                    assert(seqs@.contains(x));
                }
                if seqs@.to_set().contains(x) {
                    assert(seqs@.contains(x));
                }
            }
            assert(all =~= seqs@.to_set());
        }
    }

    /// Return every number in `dropped` (reservations given up without ack or nack)
    /// for redelivery, then hand out the oldest item that is not handed out.
    pub fn reserve_after_returns(&mut self, dropped: &Vec<u64>) -> (r: Result<Option<(u64, Vec<u8>)>, S::Error>)
        requires
            old(self).wf(),
        ensures
            final(self).wf(),
            final(self).contents() == old(self).contents(),
            final(self).items() == old(self).items(),
            final(self).unacked() == old(self).unacked(),
            final(self).next_seq() == old(self).next_seq(),
            final(self).oldest() == old(self).oldest(),
            final(self).is_closed() == old(self).is_closed(),
            final(self).batch() == old(self).batch(),
            old(self).same_settings(*final(self)),
            old(self).store_infallible() ==> r is Ok,
            ({
                let freed = old(self).in_flight().difference(dropped@.to_set());
                match r {
                    Ok(Some((seq, value))) => {
                        &&& final(self).in_flight() == freed.insert(seq)
                        &&& old(self).items().contains_key(seq)
                        &&& !freed.contains(seq)
                        &&& value@ == old(self).items()[seq]
                        &&& forall|t: u64| #[trigger]
                            old(self).items().contains_key(t) && !freed.contains(t) ==> seq <= t
                    },
                    Ok(None) => {
                        &&& final(self).in_flight() == freed
                        &&& forall|t: u64| #[trigger] old(self).items().contains_key(t) ==> freed.contains(t)
                    },
                    Err(_) => final(self).in_flight() == freed,
                }
            }),
    {
        self.release_all(dropped);
        self.reserve()
    }

    /// Claim a number for `value` and add it to the batch for the next group write,
    /// or refuse: `Closed` exactly when the queue is closed, `Full` exactly when it is
    /// open and at capacity (or out of numbers), as for an unbatched push.
    pub fn try_enqueue(&mut self, value: &[u8]) -> (r: Result<u64, TryPushError<S::Error>>)
        requires
            old(self).wf(),
        ensures
            final(self).wf(),
            r matches Err(TryPushError::Closed) <==> old(self).is_closed(),
            r matches Err(TryPushError::Full) <==> !old(self).is_closed() && (old(self).unacked()
                >= old(self).limit() || old(self).next_seq() == u64::MAX),
            r is Ok <==> old(self).has_room(),
            !(r matches Err(TryPushError::Store(_))),
            r is Err ==> *final(self) == *old(self),
            r matches Ok(seq) ==> {
                &&& seq == old(self).next_seq()
                &&& final(self).next_seq() == old(self).next_seq() + 1
                &&& final(self).unacked() == old(self).unacked() + 1
                &&& final(self).batch().drop_last() == old(self).batch()
                &&& final(self).batch().last().0 == seq
                &&& final(self).batch().last().1@ == value@
                &&& final(self).contents() == old(self).contents()
                &&& final(self).in_flight() == old(self).in_flight()
                &&& final(self).oldest() == old(self).oldest()
                &&& final(self).is_closed() == old(self).is_closed()
                &&& final(self).recorded() == old(self).recorded()
                &&& forall|i: int| 0 <= i < final(self).recorded().len() ==> (#[trigger] final(self).recorded()[i]).0 != seq
                &&& old(self).same_settings(*final(self))
            },
    {
        match self.enqueue(value) {
            Err(Refusal::Closed) => Err(TryPushError::Closed),
            Err(Refusal::Full) => Err(TryPushError::Full),
            Ok(seq) => Ok(seq),
        }
    }

    /// The least number at or after `n` that holds an item, or the next number to be
    /// given out when none does; `n` itself when the store cannot be read.
    fn next_stored(&self, n: u64) -> (t: u64)
        requires
            self.wf(),
            n <= self.tail,
        ensures
            n <= t <= self.tail,
            forall|u: u64| n <= u < t ==> !#[trigger] self.items().contains_key(u),
    {
        let cursor = entry_key(n);
        let found = self.store.seek(cursor.as_slice());
        match found {
            Ok(f) => {
                proof {
                    lemma_seek_entries(self.store.contents(), cursor@, n, f);
                }
                match f {
                    Some((key, _)) => {
                        if is_entry(key.as_slice()) {
                            proof {
                                lemma_entry_key_is_key_of(key@);
                            }
                            seq_of(key.as_slice())
                        } else {
                            self.tail
                        }
                    },
                    None => self.tail,
                }
            },
            Err(_) => n,
        }
    }

    /// The least number above `above` that a push claimed and has not settled (in
    /// the batch, or with a batch outcome not yet collected), or the next number to
    /// be given out when there is none.
    fn next_claimed(&self, above: u64) -> (c: u64)
        requires
            self.wf(),
        ensures
            c <= self.tail,
            forall|i: int| 0 <= i < self.pending@.len() && above < #[trigger] self.pending@[i].0 ==> c
                <= self.pending@[i].0,
            forall|i: int| 0 <= i < self.outcomes@.len() && above < #[trigger] self.outcomes@[i].0 ==> c
                <= self.outcomes@[i].0,
    {
        let mut c: u64 = self.tail;
        let mut i: usize = 0;
        while i < self.pending.len()
            invariant
                0 <= i <= self.pending@.len(),
                c <= self.tail,
                forall|j: int| 0 <= j < i && above < #[trigger] self.pending@[j].0 ==> c <= self.pending@[j].0,
            decreases self.pending@.len() - i,
        {
            if above < self.pending[i].0 && self.pending[i].0 < c {
                c = self.pending[i].0;
            }
            i = i + 1;
        }
        let mut i: usize = 0;
        while i < self.outcomes.len()
            invariant
                0 <= i <= self.outcomes@.len(),
                c <= self.tail,
                forall|j: int| 0 <= j < self.pending@.len() && above < #[trigger] self.pending@[j].0 ==> c
                    <= self.pending@[j].0,
                forall|j: int| 0 <= j < i && above < #[trigger] self.outcomes@[j].0 ==> c <= self.outcomes@[j].0,
            decreases self.outcomes@.len() - i,
        {
            if above < self.outcomes[i].0 && self.outcomes[i].0 < c {
                c = self.outcomes[i].0;
            }
            i = i + 1;
        }
        c
    }

    /// Remove a handed-out item from the store. On failure the item is returned for
    /// redelivery instead.
    pub fn ack(&mut self, seq: u64) -> (r: Result<(), S::Error>)
        requires
            old(self).wf(),
            old(self).in_flight().contains(seq),
        ensures
            final(self).wf(),
            final(self).in_flight() == old(self).in_flight().remove(seq),
            r is Ok ==> old(self).acked(seq, *final(self)),
            r is Ok && old(self).acks_durable() ==> final(self).durable_contents() == final(self).contents(),
            r is Ok ==> {
                &&& final(self).contents() == old(self).contents().remove(key_of(seq))
                &&& final(self).items() == old(self).items().remove(seq)
                &&& final(self).unacked() == (if old(self).unacked() > 0 {
                    old(self).unacked() - 1
                } else {
                    0
                })
            },
            r is Err ==> {
                &&& !old(self).store_infallible()
                &&& final(self).contents() == old(self).contents() || final(self).contents()
                    == old(self).contents().remove(key_of(seq))
                &&& final(self).unacked() == old(self).unacked()
            },
            old(self).oldest() <= final(self).oldest(),
            final(self).next_seq() == old(self).next_seq(),
            final(self).is_closed() == old(self).is_closed(),
            final(self).batch() == old(self).batch(),
            old(self).same_settings(*final(self)),
    {
        let ghost before = self.store.contents();
        let key = entry_key(seq);
        let ops = [Op::Delete(key.as_slice())];
        let r = self.store.commit(ops.as_slice(), self.durable_acks);
        proof {
            assert(ops@.len() == 1);
            assert(ops@.drop_last() =~= Seq::<Op>::empty());
            assert(apply_ops(before, ops@.drop_last()) == before);
            assert(apply_op(before, ops@[0]) == before.remove(key_of(seq)));
            if r is Err {
                lemma_single_op_partly(before, ops@, self.store.contents());
            }
            lemma_entries_remove(before, seq);
        }
        self.reserved.remove(&seq);
        if r.is_err() {
            return r;
        }
        if self.len > 0 {
            self.len = self.len - 1;
        }
        if seq == self.head {
            proof {
                let ee = entries_of(before);
                assert forall|r: u64| #[trigger] self.reserved@.contains(r) implies entries_of(self.store.contents()).contains_key(r) by {
                    assert(old(self).reserved@.contains(r));
                }
                assert forall|i: int| 0 <= i < self.pending@.len() implies ({
                    let p = #[trigger] self.pending@[i].0;
                    &&& self.head <= p < self.tail
                    &&& !self.acked_above@.contains(p)
                    &&& !entries_of(self.store.contents()).contains_key(p)
                }) by {
                    let p = self.pending@[i].0;
                    assert(old(self).pending@[i].0 == p);
                    assert(!ee.contains_key(p));
                }
                assert(self.wf());
            }
            // Move the head past the acked numbers above it, and past the numbers that
            // hold no item and wait for no write (a failed push, a gap left before a
            // reopen), up to the next stored item or still unsettled claim.
            let target = self.next_stored(seq + 1);
            let claimed = self.next_claimed(seq);
            let limit: u64 = if target < claimed {
                target
            } else {
                claimed
            };
            let ghost old_acked = self.acked_above@;
            let ghost e = entries_of(self.store.contents());
            let ghost s0 = *self;
            let mut next: u64 = seq + 1;
            loop
                invariant_except_break
                    *self == (QueueState { acked_above: self.acked_above, ..s0 }),
                    self.head == seq,
                    seq < next <= self.tail,
                    forall|t: u64| seq < t < next ==> t < limit || #[trigger] old_acked.contains(t),
                    forall|a: u64| #[trigger] self.acked_above@.contains(a) <==> old_acked.contains(a)
                        && !(seq < a < next),
                ensures
                    *self == (QueueState { acked_above: self.acked_above, ..s0 }),
                    self.head == seq,
                    seq < next <= self.tail,
                    forall|t: u64| seq < t < next ==> t < limit || #[trigger] old_acked.contains(t),
                    forall|a: u64| #[trigger] self.acked_above@.contains(a) <==> old_acked.contains(a)
                        && !(seq < a < next),
                    next < self.tail ==> next >= limit && !old_acked.contains(next),
                decreases self.tail - next,
            {
                if next == self.tail {
                    break;
                }
                if next >= limit && !self.acked_above.contains(&next) {
                    break;
                }
                self.acked_above.remove(&next);
                next = next + 1;
            }
            self.head = next;
            proof {
                assert forall|t: u64| #[trigger] e.contains_key(t) implies self.head <= t < self.tail by {
                    if t < next {
                        if t < limit {
                            assert(!s0.items().contains_key(t));
                        } else {
                            assert(old_acked.contains(t));
                        }
                    }
                }
                assert forall|a: u64| #[trigger] self.acked_above@.contains(a) implies self.head < a
                    < self.tail && !e.contains_key(a) by {
                    assert(old_acked.contains(a));
                }
                assert forall|i: int| 0 <= i < self.pending@.len() implies ({
                    let p = #[trigger] self.pending@[i].0;
                    &&& self.head <= p < self.tail
                    &&& !self.acked_above@.contains(p)
                    &&& !e.contains_key(p)
                }) by {
                    let p = self.pending@[i].0;
                    assert(s0.pending@[i].0 == p);
                    assert(!old_acked.contains(p));
                    assert(p != seq);
                    if p < next {
                        assert(p < limit);
                    }
                }
                assert forall|r: u64| #[trigger] self.reserved@.contains(r) implies e.contains_key(r) by {
                    assert(s0.reserved@.contains(r));
                }
            }
        } else {
            self.acked_above.insert(seq);
            proof {
                let ee = entries_of(before);
                assert forall|r: u64| #[trigger] self.reserved@.contains(r) implies entries_of(self.store.contents()).contains_key(r) by {
                    assert(old(self).reserved@.contains(r));
                }
                assert forall|i: int| 0 <= i < self.pending@.len() implies ({
                    let p = #[trigger] self.pending@[i].0;
                    &&& self.head <= p < self.tail
                    &&& !self.acked_above@.contains(p)
                    &&& !entries_of(self.store.contents()).contains_key(p)
                }) by {
                    let p = self.pending@[i].0;
                    assert(old(self).pending@[i].0 == p);
                    assert(!ee.contains_key(p));
                }
            }
        }
        Ok(())
    }

    /// Claim a number for `value` and add it to the batch for the next group write,
    /// unless the queue is closed or full.
    pub fn enqueue(&mut self, value: &[u8]) -> (r: Result<u64, Refusal>)
        requires
            old(self).wf(),
        ensures
            final(self).wf(),
            r matches Err(Refusal::Closed) <==> old(self).is_closed(),
            r matches Err(Refusal::Full) <==> !old(self).is_closed() && (old(self).unacked()
                >= old(self).limit() || old(self).next_seq() == u64::MAX),
            r is Err ==> *final(self) == *old(self),
            r matches Ok(seq) ==> {
                &&& seq == old(self).next_seq()
                &&& final(self).next_seq() == old(self).next_seq() + 1
                &&& final(self).unacked() == old(self).unacked() + 1
                &&& final(self).unacked() <= final(self).limit()
                &&& final(self).batch().len() == old(self).batch().len() + 1
                &&& final(self).batch().drop_last() == old(self).batch()
                &&& final(self).batch().last().0 == seq
                &&& final(self).batch().last().1@ == value@
                &&& final(self).contents() == old(self).contents()
                &&& final(self).in_flight() == old(self).in_flight()
                &&& final(self).oldest() == old(self).oldest()
                &&& final(self).is_closed() == old(self).is_closed()
                &&& final(self).recorded() == old(self).recorded()
                &&& forall|i: int| 0 <= i < final(self).recorded().len() ==> (#[trigger] final(self).recorded()[i]).0 != seq
                &&& forall|i: int| 0 <= i < old(self).batch().len() ==> (#[trigger] old(self).batch()[i]).0 != seq
                &&& old(self).same_settings(*final(self))
            },
    {
        let seq = self.try_claim()?;
        let copy = copy_bytes(value);
        self.pending.push((seq, copy));
        proof {
            assert(self.pending@.drop_last() =~= old(self).pending@);
            assert forall|i: int| 0 <= i < self.pending@.len() implies ({
                let p = #[trigger] self.pending@[i].0;
                &&& self.head <= p < self.tail
                &&& !self.acked_above@.contains(p)
                &&& !entries_of(self.store.contents()).contains_key(p)
            }) by {
                if i < old(self).pending@.len() {
                    assert(self.pending@[i] == old(self).pending@[i]);
                }
            }
        }
        Ok(seq)
    }

    /// Write every batched item with one durable store write, and record the outcome
    /// for each.
    pub fn flush_batch(&mut self)
        requires
            old(self).wf(),
        ensures
            final(self).wf(),
            final(self).batch().len() == 0,
            final(self).in_flight() == old(self).in_flight(),
            final(self).unacked() == old(self).unacked(),
            final(self).next_seq() == old(self).next_seq(),
            final(self).oldest() == old(self).oldest(),
            final(self).is_closed() == old(self).is_closed(),
            old(self).same_settings(*final(self)),
            forall|s: u64| #[trigger] final(self).outstanding(s) == old(self).outstanding(s),
            forall|t: u64| #[trigger]
                old(self).items().contains_key(t) ==> final(self).items().contains_key(t)
                    && final(self).items()[t] == old(self).items()[t],
            forall|t: u64| #[trigger]
                final(self).items().contains_key(t) ==> old(self).items().contains_key(t) || exists|i: int|
                    0 <= i < old(self).batch().len() && #[trigger] old(self).batch()[i].0 == t,
            forall|s: u64| #[trigger] old(self).batch_written().contains(s) ==> final(self).batch_written().contains(s),
            old(self).batch().len() == 0 ==> final(self).contents() == old(self).contents()
                && final(self).recorded() == old(self).recorded(),
            old(self).batch().len() > 0 ==> exists|ok: bool|
                {
                    &&& #[trigger] final(self).recorded() == old(self).recorded() + outcomes_for(
                        old(self).batch(),
                        ok,
                    )
                    &&& ok ==> final(self).contents() == put_all(old(self).contents(), old(self).batch())
                    &&& ok ==> final(self).durable_contents() == final(self).contents()
                    &&& old(self).store_infallible() ==> ok
                    &&& !ok ==> landed_in_part(
                        old(self).contents(),
                        put_all(old(self).contents(), old(self).batch()),
                        final(self).contents(),
                    )
                },
    {
        let mut batch: Vec<(u64, Vec<u8>)> = Vec::new();
        std::mem::swap(&mut batch, &mut self.pending);
        if batch.len() == 0 {
            return;
        }
        let ghost before = self.store.contents();
        let mut keys: Vec<Vec<u8>> = Vec::new();
        let mut i: usize = 0;
        while i < batch.len()
            invariant
                0 <= i <= batch@.len(),
                keys@.len() == i,
                forall|j: int| 0 <= j < i ==> #[trigger] keys@[j]@ == key_of(batch@[j].0),
            decreases batch@.len() - i,
        {
            keys.push(entry_key(batch[i].0));
            i = i + 1;
        }
        let mut ops: Vec<Op> = Vec::new();
        let mut i: usize = 0;
        while i < batch.len()
            invariant
                0 <= i <= batch@.len(),
                keys@.len() == batch@.len(),
                forall|j: int| 0 <= j < batch@.len() ==> #[trigger] keys@[j]@ == key_of(batch@[j].0),
                ops@.len() == i,
                apply_ops(before, ops@) == put_all(before, batch@.subrange(0, i as int)),
                before == self.store.contents(),
            decreases batch@.len() - i,
        {
            let ghost prev = ops@;
            ops.push(Op::Put(keys[i].as_slice(), batch[i].1.as_slice()));
            proof {
                assert(ops@.drop_last() == prev);
                let sub = batch@.subrange(0, i + 1);
                assert(sub.drop_last() =~= batch@.subrange(0, i as int));
                assert(sub.last() == batch@[i as int]);
            }
            i = i + 1;
        }
        assert(batch@.subrange(0, batch@.len() as int) =~= batch@);
        let ok = self.store.commit(ops.as_slice(), true).is_ok();
        let ghost after = self.store.contents();
        let ghost full = put_all(before, batch@);
        proof {
            assert(ok ==> after == full);
            assert(!ok ==> landed_in_part(before, full, after));
            assert forall|k: Seq<u8>| #[trigger] after.contains_key(k) implies before.contains_key(k) || exists|i: int|
                0 <= i < batch@.len() && k == key_of(#[trigger] batch@[i].0) by {
                lemma_put_all_keys(before, batch@, k);
            }
            assert forall|k: Seq<u8>| #[trigger] before.contains_key(k) implies after.contains_key(k) by {
                lemma_put_all_keys(before, batch@, k);
            }
            assert(recoverable(after)) by {
                assert forall|k: Seq<u8>| #[trigger] after.contains_key(k) && k.len() > 0 && k[0] == 1u8 implies is_entry_key(k) by {
                    if !before.contains_key(k) {
                        let i = choose|i: int| 0 <= i < batch@.len() && k == key_of(#[trigger] batch@[i].0);
                        lemma_key_roundtrip(batch@[i].0);
                    }
                }
                if after.contains_key(key_of(u64::MAX)) {
                    let i = choose|i: int| 0 <= i < batch@.len() && key_of(u64::MAX) == key_of(#[trigger] batch@[i].0);
                    lemma_key_roundtrip(batch@[i].0);
                    lemma_key_roundtrip(u64::MAX);
                }
            }
            let e = entries_of(after);
            assert forall|t: u64| #[trigger] e.contains_key(t) implies entries_of(before).contains_key(t) || exists|i: int|
                0 <= i < batch@.len() && #[trigger] batch@[i].0 == t by {
                if !before.contains_key(key_of(t)) {
                    let i = choose|i: int| 0 <= i < batch@.len() && key_of(t) == key_of(#[trigger] batch@[i].0);
                    lemma_key_roundtrip(batch@[i].0);
                    lemma_key_roundtrip(t);
                }
            }
            assert forall|t: u64| #[trigger] e.contains_key(t) implies self.head <= t < self.tail && !self.acked_above@.contains(t) by {
                if before.contains_key(key_of(t)) {
                    assert(entries_of(before).contains_key(t));
                } else {
                    let i = choose|i: int| 0 <= i < batch@.len() && key_of(t) == key_of(#[trigger] batch@[i].0);
                    lemma_key_roundtrip(batch@[i].0);
                    lemma_key_roundtrip(t);
                    assert(old(self).pending@[i].0 == batch@[i].0);
                }
            }
            assert forall|r: u64| #[trigger] self.reserved@.contains(r) implies e.contains_key(r) by {
                assert(before.contains_key(key_of(r)));
            }
            assert forall|t: u64| #[trigger] entries_of(before).contains_key(t) implies e.contains_key(t)
                && e[t] == entries_of(before)[t] by {
                let k = key_of(t);
                lemma_put_all_keys(before, batch@, k);
                assert forall|i: int| 0 <= i < batch@.len() implies k != key_of(#[trigger] batch@[i].0) by {
                    assert(old(self).pending@[i].0 == batch@[i].0);
                    lemma_key_roundtrip(t);
                    lemma_key_roundtrip(batch@[i].0);
                }
                assert(full[k] == before[k]);
                if !ok {
                    assert(after.contains_key(k));
                }
            }
            assert(self.wf());
        }
        if ok {
            self.written = Ghost(
                self.written@.union(Set::new(|s: u64| exists|j: int| 0 <= j < batch@.len() && batch@[j].0 == s)),
            );
        }
        let ghost snap = *self;
        let ghost recorded_before = self.outcomes@;
        proof {
            assert forall|j: int| 0 <= j < batch@.len() && ok implies #[trigger] snap.written@.contains(batch@[j].0) by {
                assert(Set::new(|s: u64| exists|j: int| 0 <= j < batch@.len() && batch@[j].0 == s).contains(batch@[j].0));
            }
        }
        let mut i: usize = 0;
        while i < batch.len()
            invariant
                0 <= i <= batch@.len(),
                *self == (QueueState { outcomes: self.outcomes, ..snap }),
                snap.wf_with(snap.store.contents()),
                recorded_before == snap.outcomes@,
                forall|j: int| 0 <= j < batch@.len() && ok ==> #[trigger] snap.written@.contains(batch@[j].0),
                self.outcomes@ == recorded_before + outcomes_for(batch@.subrange(0, i as int), ok),
            decreases batch@.len() - i,
        {
            self.outcomes.push((batch[i].0, ok));
            i = i + 1;
            assert(self.outcomes@ =~= recorded_before + outcomes_for(batch@.subrange(0, i as int), ok));
        }
        proof {
            assert(outcomes_for(batch@.subrange(0, batch@.len() as int), ok) == outcomes_for(batch@, ok));
            assert forall|i: int| 0 <= i < self.outcomes@.len() && (#[trigger] self.outcomes@[i]).1 implies self.written@.contains(
                self.outcomes@[i].0,
            ) by {
                if i < recorded_before.len() {
                    assert(self.outcomes@[i] == recorded_before[i]);
                } else {
                    let k = i - recorded_before.len();
                    assert(self.outcomes@[i] == outcomes_for(batch@, ok)[k]);
                }
            }
            assert(self.wf());
            assert(batch@ == old(self).batch());
            assert forall|t: u64| #[trigger] self.items().contains_key(t) implies old(self).items().contains_key(t)
                || exists|i: int| 0 <= i < old(self).batch().len() && #[trigger] old(self).batch()[i].0 == t by {
                if !old(self).items().contains_key(t) {
                    assert(entries_of(after).contains_key(t));
                    let i = choose|i: int| 0 <= i < batch@.len() && #[trigger] batch@[i].0 == t;
                    assert(old(self).batch()[i].0 == t);
                }
            }
        }
    }

    /// Collect the recorded outcome of the batch write that held `seq`, if any.
    fn take_outcome(&mut self, seq: u64) -> (r: Option<bool>)
        requires
            old(self).wf(),
        ensures
            final(self).wf(),
            *final(self) == (QueueState { outcomes: final(self).outcomes, ..*old(self) }),
            match r {
                Some(ok) => exists|i: int|
                    0 <= i < old(self).outcomes@.len() && #[trigger] old(self).outcomes@[i] == (seq, ok)
                        && final(self).outcomes@ == old(self).outcomes@.remove(i) && forall|j: int|
                        0 <= j < i ==> #[trigger] old(self).outcomes@[j].0 != seq,
                None => {
                    &&& forall|i: int| 0 <= i < old(self).outcomes@.len() ==> #[trigger] old(self).outcomes@[i].0 != seq
                    &&& final(self).outcomes@ == old(self).outcomes@
                },
            },
    {
        let mut i: usize = 0;
        while i < self.outcomes.len()
            invariant
                *self == *old(self),
                self.wf(),
                0 <= i <= self.outcomes@.len(),
                forall|j: int| 0 <= j < i ==> #[trigger] self.outcomes@[j].0 != seq,
            decreases self.outcomes@.len() - i,
        {
            if self.outcomes[i].0 == seq {
                let ghost before = *self;
                let (_, ok) = self.outcomes.remove(i);
                proof {
                    assert(self.store == before.store);
                    assert(self.pending == before.pending);
                    assert(self.reserved == before.reserved);
                    assert(self.acked_above == before.acked_above);
                    assert(self.wf_with(self.store.contents()) == before.wf_with(before.store.contents()));
                    assert(before.wf());
                    assert(self.wf());
                }
                return Some(ok);
            }
            i = i + 1;
        }
        None
    }

    /// Finish a batched push of `value` under `seq`: collect the outcome of the
    /// batch write that held it, writing the pending batch first when nobody has yet.
    /// When that batch write failed, write this item alone; if that fails too, give
    /// back its slot and report the store's error. A number that is no longer
    /// outstanding (its item landed with the failed batch and was acked meanwhile) is
    /// not written again: that would bring an acked item back.
    pub fn settle(&mut self, seq: u64, value: &[u8]) -> (r: Result<(), S::Error>)
        requires
            old(self).wf(),
        ensures
            final(self).wf(),
            final(self).in_flight() == old(self).in_flight(),
            final(self).next_seq() == old(self).next_seq(),
            final(self).oldest() == old(self).oldest(),
            final(self).is_closed() == old(self).is_closed(),
            old(self).same_settings(*final(self)),
            forall|t: u64| #[trigger]
                old(self).items().contains_key(t) ==> final(self).items().contains_key(t),
            r is Ok ==> final(self).unacked() == old(self).unacked(),
            r is Err ==> final(self).unacked() == (if old(self).unacked() > 0 {
                old(self).unacked() - 1
            } else {
                0
            }),
            r is Err ==> old(self).outstanding(seq),
            old(self).store_infallible() ==> r is Ok,
            forall|i: int| #[trigger] first_record(old(self).recorded(), seq, i) && old(
                self,
            ).recorded()[i].1 ==> {
                &&& r is Ok
                &&& final(self).contents() == old(self).contents()
                &&& final(self).batch() == old(self).batch()
                &&& final(self).recorded() == old(self).recorded().remove(i)
                &&& old(self).batch_written().contains(seq)
            },
            !written_ok(old(self).recorded(), seq) && !old(self).outstanding(seq) ==> {
                &&& r is Ok
                &&& !final(self).items().contains_key(seq)
            },
            !written_ok(old(self).recorded(), seq) ==> {
                &&& final(self).batch().len() == 0
                &&& r is Ok ==> final(self).items().contains_key(seq) || !old(self).outstanding(seq)
                &&& r is Ok && old(self).outstanding(seq) ==> {
                    &&& final(self).items().contains_key(seq)
                    &&& final(self).durable_contents() == final(self).contents()
                    &&& (forall|i: int| 0 <= i < old(self).batch().len() && #[trigger] old(self).batch()[i].0
                        == seq ==> old(self).batch()[i].1@ == value@) ==> final(self).items()[seq] == value@
                }
            },
    {
        let ghost rec = self.outcomes@;
        let mut outcome = self.take_outcome(seq);
        proof {
            match outcome {
                Some(ok) => {
                    let i2 = choose|i2: int| 0 <= i2 < rec.len() && #[trigger] rec[i2] == (seq, ok)
                        && self.outcomes@ == rec.remove(i2) && forall|j: int|
                        0 <= j < i2 ==> #[trigger] rec[j].0 != seq;
                    assert(first_record(rec, seq, i2));
                    assert forall|i: int| #[trigger] first_record(rec, seq, i) implies i == i2 by {
                        if i < i2 {
                            assert(rec[i].0 != seq);
                        } else if i2 < i {
                            assert(rec[i2].0 != seq);
                        }
                    }
                },
                None => {
                    assert forall|i: int| #[trigger] first_record(rec, seq, i) implies false by {
                        assert(rec[i].0 != seq);
                    }
                },
            }
        }
        let ghost first = *self;
        assert(first.items() == old(self).items());
        if outcome.is_none() {
            self.flush_batch();
            let ghost flushed = *self;
            assert(flushed.outstanding(seq) == first.outstanding(seq));
            outcome = self.take_outcome(seq);
            proof {
                assert(self.items() == flushed.items());
                if outcome == Some(true) {
                    let rec2 = flushed.outcomes@;
                    let i2 = choose|i2: int| 0 <= i2 < rec2.len() && #[trigger] rec2[i2] == (seq, true)
                        && self.outcomes@ == rec2.remove(i2) && forall|j: int|
                        0 <= j < i2 ==> #[trigger] rec2[j].0 != seq;
                    let batch = first.pending@;
                    if batch.len() == 0 {
                        assert(rec2 == rec);
                        assert(rec[i2].0 != seq);
                    } else {
                        let ok = choose|ok: bool| #[trigger] flushed.recorded() == first.recorded()
                            + outcomes_for(first.batch(), ok) && (ok ==> flushed.contents() == put_all(
                            first.contents(),
                            first.batch(),
                        )) && (ok ==> flushed.durable_contents() == flushed.contents()) && (
                        first.store_infallible() ==> ok) && (!ok ==> landed_in_part(
                            first.contents(),
                            put_all(first.contents(), first.batch()),
                            flushed.contents(),
                        ));
                        if i2 < rec.len() {
                            assert(rec2[i2] == rec[i2]);
                            assert(rec[i2].0 != seq);
                        }
                        let k = i2 - rec.len();
                        assert(rec2[i2] == outcomes_for(batch, ok)[k]);
                        assert(batch[k].0 == seq && ok);
                        lemma_put_all_keys(first.contents(), batch, key_of(seq));
                        assert(self.items().contains_key(seq));
                        assert(batch == old(self).batch());
                        if forall|i: int| 0 <= i < old(self).batch().len() && #[trigger] old(self).batch()[i].0
                            == seq ==> old(self).batch()[i].1@ == value@ {
                            lemma_put_all_value(first.contents(), batch, seq, value@);
                            assert(self.contents() == flushed.contents());
                            assert(self.items()[seq] == value@);
                        }
                        assert(self.durable_contents() == self.contents());
                    }
                }
            }
        }
        let ghost middle = *self;
        assert(middle.outstanding(seq) == old(self).outstanding(seq));
        assert(forall|t: u64| #[trigger] old(self).items().contains_key(t) ==> middle.items().contains_key(t));
        match outcome {
            Some(true) => Ok(()),
            _ => {
                self.flush_batch();
                assert(self.outstanding(seq) == middle.outstanding(seq));
                if seq < self.head || seq >= self.tail || self.acked_above.contains(&seq) {
                    // The number was already acked (its item landed after all), or
                    // never handed out here: there is nothing left to write.
                    return Ok(());
                }
                let ghost flushed = *self;
                let r = self.write_claimed(seq, value, true);
                proof {
                    lemma_entries_insert(flushed.contents(), seq, value@);
                }
                r
            },
        }
    }

    /// Whether pushes are batched (group commit).
    pub fn grouped(&self) -> (b: bool)
        ensures
            b == self.batched(),
    {
        self.group
    }

    /// Whether `seq` is handed out and not yet acked or returned.
    pub fn holds(&self, seq: u64) -> (b: bool)
        ensures
            b == self.in_flight().contains(seq),
    {
        self.reserved.contains(&seq)
    }

    /// What the invariant says of the model: every item lies between the oldest
    /// unacked number and the next number to be given out, and every handed-out
    /// number is a stored item.
    pub proof fn lemma_wf_bounds(&self)
        requires
            self.wf(),
        ensures
            self.items() == entries_of(self.contents()),
            recoverable(self.contents()),
            self.oldest() <= self.next_seq(),
            forall|t: u64| #[trigger]
                self.items().contains_key(t) ==> self.oldest() <= t < self.next_seq(),
            forall|t: u64| #[trigger] self.in_flight().contains(t) ==> self.items().contains_key(t),
            self.limit() > 0,
    {
    }
}

} // verus!
