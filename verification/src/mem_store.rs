//! [`MemStore`]: the in-memory [`Store`], a byte-ordered list of key/value pairs.

use vstd::prelude::*;
use crate::lex::{compare_keys, lemma_lex_irreflexive, lemma_lex_le_transitive, lemma_lex_lt_iff_not_le, lemma_lex_total, lemma_lex_transitive, lex_le, lex_lt, KeyOrder};
use crate::store::{apply_op, apply_ops, KeyValue, Op, Store};

verus! {

/// Copy a byte slice into a fresh vector.
pub fn copy_bytes(bytes: &[u8]) -> (out: Vec<u8>)
    ensures
        out@ == bytes@,
{
    let mut out: Vec<u8> = Vec::with_capacity(bytes.len());
    let mut i: usize = 0;
    while i < bytes.len()
        invariant
            0 <= i <= bytes@.len(),
            out@ == bytes@.subrange(0, i as int),
        decreases bytes@.len() - i,
    {
        out.push(bytes[i]);
        i = i + 1;
        assert(out@ =~= bytes@.subrange(0, i as int));
    }
    assert(out@ =~= bytes@);
    out
}

/// The pairs are in strictly increasing key order (so no key occurs twice).
pub open spec fn sorted(s: Seq<KeyValue>) -> bool {
    forall|i: int, j: int| 0 <= i < j < s.len() ==> lex_lt(#[trigger] s[i].0@, #[trigger] s[j].0@)
}

/// The map that a list of pairs stands for.
pub open spec fn pairs_map(s: Seq<KeyValue>) -> Map<Seq<u8>, Seq<u8>> {
    Map::new(
        |k: Seq<u8>| exists|i: int| 0 <= i < s.len() && #[trigger] s[i].0@ == k,
        |k: Seq<u8>| s[position_of(s, k)].1@,
    )
}

/// A position at which `k` is stored, if it is.
pub open spec fn position_of(s: Seq<KeyValue>, k: Seq<u8>) -> int {
    choose|i: int| 0 <= i < s.len() && #[trigger] s[i].0@ == k
}

proof fn lemma_sorted_distinct(s: Seq<KeyValue>, i: int, j: int)
    requires
        sorted(s),
        0 <= i < s.len(),
        0 <= j < s.len(),
        s[i].0@ == s[j].0@,
    ensures
        i == j,
{
    if i < j {
        assert(lex_lt(s[i].0@, s[j].0@));
        lemma_lex_irreflexive(s[i].0@);
    } else if j < i {
        assert(lex_lt(s[j].0@, s[i].0@));
        lemma_lex_irreflexive(s[i].0@);
    }
}

proof fn lemma_pairs_map_at(s: Seq<KeyValue>, i: int)
    requires
        sorted(s),
        0 <= i < s.len(),
    ensures
        pairs_map(s).contains_key(s[i].0@),
        pairs_map(s)[s[i].0@] == s[i].1@,
{
    let k = s[i].0@;
    assert(exists|j: int| 0 <= j < s.len() && #[trigger] s[j].0@ == k);
    assert(pairs_map(s).dom().contains(k));
    let j = position_of(s, k);
    lemma_sorted_distinct(s, i, j);
    assert(pairs_map(s)[k] == s[j].1@);
}

proof fn lemma_pairs_map_has(s: Seq<KeyValue>, k: Seq<u8>) -> (i: int)
    requires
        sorted(s),
        pairs_map(s).contains_key(k),
    ensures
        0 <= i < s.len(),
        s[i].0@ == k,
{
    let i = choose|i: int| 0 <= i < s.len() && #[trigger] s[i].0@ == k;
    i
}

/// In-memory [`Store`]. Not persistent; `durable` has no effect. Useful as the
/// default, for tests, and as a benchmark baseline.
pub struct MemStore {
    pairs: Vec<KeyValue>,
}

impl MemStore {
    /// The pairs are kept in strictly increasing key order.
    #[verifier::type_invariant]
    closed spec fn well_formed(&self) -> bool {
        sorted(self.pairs@)
    }

    /// Create an empty store.
    pub fn new() -> (s: Self)
        ensures
            s.contents() == Map::<Seq<u8>, Seq<u8>>::empty(),
    {
        let s = MemStore { pairs: Vec::new() };
        assert(pairs_map(s.pairs@) =~= Map::<Seq<u8>, Seq<u8>>::empty());
        s
    }
}

/// Whether `a` sorts at or before `b`.
fn key_le(a: &[u8], b: &[u8]) -> (r: bool)
    ensures
        r == lex_le(a@, b@),
        !r ==> lex_lt(b@, a@),
{
    match compare_keys(a, b) {
        KeyOrder::Greater => {
            proof {
                lemma_lex_lt_iff_not_le(b@, a@);
            }
            false
        },
        _ => true,
    }
}

/// The first position whose key is at or after `key`.
fn lower_bound(pairs: &Vec<KeyValue>, key: &[u8]) -> (p: usize)
        requires
            sorted(pairs@),
        ensures
            p <= pairs@.len(),
            forall|j: int| 0 <= j < p ==> lex_lt(#[trigger] pairs@[j].0@, key@),
            p < pairs@.len() ==> lex_le(key@, pairs@[p as int].0@),
    {
        let mut p: usize = 0;
        while p < pairs.len()
            invariant
                0 <= p <= pairs@.len(),
                forall|j: int| 0 <= j < p ==> lex_lt(#[trigger] pairs@[j].0@, key@),
            decreases pairs@.len() - p,
        {
            match compare_keys(pairs[p].0.as_slice(), key) {
                KeyOrder::Less => {},
                _ => {
                    return p;
                },
            }
            p = p + 1;
        }
        p
    }

proof fn lemma_beyond(pairs: &Vec<KeyValue>, upto: Seq<u8>, p: int, j: int)
        requires
            sorted(pairs@),
            0 <= p <= j < pairs@.len(),
            lex_lt(upto, pairs@[p].0@),
        ensures
            !lex_le(pairs@[j].0@, upto),
    {
        if p < j {
            assert(lex_lt(pairs@[p].0@, pairs@[j].0@));
            lemma_lex_transitive(upto, pairs@[p].0@, pairs@[j].0@);
        }
        lemma_lex_lt_iff_not_le(upto, pairs@[j].0@);
    }

proof fn lemma_after_lower_bound(pairs: &Vec<KeyValue>, key: Seq<u8>, p: int, j: int)
        requires
            sorted(pairs@),
            0 <= p <= j < pairs@.len(),
            lex_le(key, pairs@[p].0@),
        ensures
            lex_le(key, pairs@[j].0@),
            lex_le(pairs@[p].0@, pairs@[j].0@),
    {
        if p < j {
            assert(lex_lt(pairs@[p].0@, pairs@[j].0@));
        }
        lemma_lex_le_transitive(key, pairs@[p].0@, pairs@[j].0@);
    }

/// A key that sorts between the neighbours at `p` is not stored.
proof fn lemma_absent_before(pairs: &Vec<KeyValue>, key: Seq<u8>, p: int)
        requires
            sorted(pairs@),
            0 <= p <= pairs@.len(),
            forall|j: int| 0 <= j < p ==> lex_lt(#[trigger] pairs@[j].0@, key),
            p < pairs@.len() ==> lex_lt(key, pairs@[p].0@),
        ensures
            !pairs_map(pairs@).contains_key(key),
    {
        if pairs_map(pairs@).contains_key(key) {
            let i = lemma_pairs_map_has(pairs@, key);
            if i < p {
                lemma_lex_irreflexive(key);
            } else {
                if i > p {
                    assert(lex_lt(pairs@[p].0@, pairs@[i].0@));
                    lemma_lex_transitive(key, pairs@[p].0@, key);
                }
                lemma_lex_irreflexive(key);
            }
        }
    }

fn put(pairs: &mut Vec<KeyValue>, key: &[u8], value: &[u8])
        requires
            sorted(old(pairs)@),
        ensures
            sorted(final(pairs)@),
            pairs_map(final(pairs)@) == pairs_map(old(pairs)@).insert(key@, value@),
    {
        let p = lower_bound(pairs, key);
        let ghost old_pairs = pairs@;
        let k = copy_bytes(key);
        let v = copy_bytes(value);
        if p < pairs.len() && matches!(compare_keys(pairs[p].0.as_slice(), key), KeyOrder::Equal) {
            pairs.set(p, (k, v));
            proof {
                let s = pairs@;
                assert forall|i: int, j: int| 0 <= i < j < s.len() implies lex_lt(
                    #[trigger] s[i].0@,
                    #[trigger] s[j].0@,
                ) by {
                    assert(lex_lt(old_pairs[i].0@, old_pairs[j].0@));
                }
                assert forall|kk: Seq<u8>|
                    #![auto]
                    pairs_map(s).contains_key(kk) == pairs_map(old_pairs).insert(
                        key@,
                        value@,
                    ).contains_key(kk) by {
                    if pairs_map(s).contains_key(kk) {
                        let i = lemma_pairs_map_has(s, kk);
                        if i != p {
                            lemma_pairs_map_at(old_pairs, i);
                        }
                    }
                    if pairs_map(old_pairs).contains_key(kk) {
                        let i = lemma_pairs_map_has(old_pairs, kk);
                        lemma_pairs_map_at(s, i);
                    }
                    if kk == key@ {
                        lemma_pairs_map_at(s, p as int);
                    }
                }
                assert forall|kk: Seq<u8>| #[trigger]
                    pairs_map(s).contains_key(kk) implies pairs_map(s)[kk] == pairs_map(
                    old_pairs,
                ).insert(key@, value@)[kk] by {
                    let i = lemma_pairs_map_has(s, kk);
                    lemma_pairs_map_at(s, i);
                    if i != p {
                        lemma_pairs_map_at(old_pairs, i);
                    }
                }
                assert(pairs_map(s) =~= pairs_map(old_pairs).insert(key@, value@));
            }
        } else {
            proof {
                if p < old_pairs.len() {
                    lemma_lex_total(key@, old_pairs[p as int].0@);
                }
                lemma_absent_before(pairs, key@, p as int);
            }
            pairs.insert(p, (k, v));
            proof {
                let s = pairs@;
                assert forall|i: int, j: int| 0 <= i < j < s.len() implies lex_lt(
                    #[trigger] s[i].0@,
                    #[trigger] s[j].0@,
                ) by {
                    if j < p {
                        assert(lex_lt(old_pairs[i].0@, old_pairs[j].0@));
                    } else if j == p {
                        assert(lex_lt(old_pairs[i].0@, key@));
                    } else if i == p {
                        if j - 1 > p {
                            assert(lex_lt(old_pairs[p as int].0@, old_pairs[j - 1].0@));
                            lemma_lex_transitive(key@, old_pairs[p as int].0@, old_pairs[j - 1].0@);
                        }
                    } else if i < p {
                        assert(lex_lt(old_pairs[i].0@, key@));
                        if j - 1 > p {
                            assert(lex_lt(old_pairs[p as int].0@, old_pairs[j - 1].0@));
                            lemma_lex_transitive(key@, old_pairs[p as int].0@, old_pairs[j - 1].0@);
                        }
                        lemma_lex_transitive(old_pairs[i].0@, key@, old_pairs[j - 1].0@);
                    } else {
                        assert(lex_lt(old_pairs[i - 1].0@, old_pairs[j - 1].0@));
                    }
                }
                assert forall|kk: Seq<u8>|
                    #![auto]
                    pairs_map(s).contains_key(kk) == pairs_map(old_pairs).insert(
                        key@,
                        value@,
                    ).contains_key(kk) by {
                    if pairs_map(s).contains_key(kk) {
                        let i = lemma_pairs_map_has(s, kk);
                        if i < p {
                            lemma_pairs_map_at(old_pairs, i);
                        } else if i > p {
                            lemma_pairs_map_at(old_pairs, i - 1);
                        }
                    }
                    if pairs_map(old_pairs).contains_key(kk) {
                        let i = lemma_pairs_map_has(old_pairs, kk);
                        if i < p {
                            lemma_pairs_map_at(s, i);
                        } else {
                            lemma_pairs_map_at(s, i + 1);
                        }
                    }
                    if kk == key@ {
                        lemma_pairs_map_at(s, p as int);
                    }
                }
                assert forall|kk: Seq<u8>| #[trigger]
                    pairs_map(s).contains_key(kk) implies pairs_map(s)[kk] == pairs_map(
                    old_pairs,
                ).insert(key@, value@)[kk] by {
                    let i = lemma_pairs_map_has(s, kk);
                    lemma_pairs_map_at(s, i);
                    if i < p {
                        lemma_pairs_map_at(old_pairs, i);
                    } else if i > p {
                        lemma_pairs_map_at(old_pairs, i - 1);
                    }
                }
                assert(pairs_map(s) =~= pairs_map(old_pairs).insert(key@, value@));
            }
        }
    }

fn delete(pairs: &mut Vec<KeyValue>, key: &[u8])
        requires
            sorted(old(pairs)@),
        ensures
            sorted(final(pairs)@),
            pairs_map(final(pairs)@) == pairs_map(old(pairs)@).remove(key@),
    {
        let p = lower_bound(pairs, key);
        let ghost old_pairs = pairs@;
        if p < pairs.len() && matches!(compare_keys(pairs[p].0.as_slice(), key), KeyOrder::Equal) {
            pairs.remove(p);
            proof {
                let s = pairs@;
                assert forall|i: int, j: int| 0 <= i < j < s.len() implies lex_lt(
                    #[trigger] s[i].0@,
                    #[trigger] s[j].0@,
                ) by {
                    if j < p {
                        assert(lex_lt(old_pairs[i].0@, old_pairs[j].0@));
                    } else if i < p {
                        assert(lex_lt(old_pairs[i].0@, old_pairs[j + 1].0@));
                    } else {
                        assert(lex_lt(old_pairs[i + 1].0@, old_pairs[j + 1].0@));
                    }
                }
                assert forall|kk: Seq<u8>|
                    #![auto]
                    pairs_map(s).contains_key(kk) == pairs_map(old_pairs).remove(
                        key@,
                    ).contains_key(kk) by {
                    if pairs_map(s).contains_key(kk) {
                        let i = lemma_pairs_map_has(s, kk);
                        if i < p {
                            lemma_pairs_map_at(old_pairs, i);
                            lemma_sorted_distinct_neq(old_pairs, i, p as int);
                        } else {
                            lemma_pairs_map_at(old_pairs, i + 1);
                            lemma_sorted_distinct_neq(old_pairs, i + 1, p as int);
                        }
                    }
                    if pairs_map(old_pairs).contains_key(kk) && kk != key@ {
                        let i = lemma_pairs_map_has(old_pairs, kk);
                        if i < p {
                            lemma_pairs_map_at(s, i);
                        } else if i > p {
                            lemma_pairs_map_at(s, i - 1);
                        }
                    }
                }
                assert forall|kk: Seq<u8>| #[trigger]
                    pairs_map(s).contains_key(kk) implies pairs_map(s)[kk] == pairs_map(
                    old_pairs,
                ).remove(key@)[kk] by {
                    let i = lemma_pairs_map_has(s, kk);
                    lemma_pairs_map_at(s, i);
                    if i < p {
                        lemma_pairs_map_at(old_pairs, i);
                    } else {
                        lemma_pairs_map_at(old_pairs, i + 1);
                    }
                }
                assert(pairs_map(s) =~= pairs_map(old_pairs).remove(key@));
            }
        } else {
            proof {
                if p < old_pairs.len() {
                    lemma_lex_total(key@, old_pairs[p as int].0@);
                }
                lemma_absent_before(pairs, key@, p as int);
                assert(pairs_map(old_pairs) =~= pairs_map(old_pairs).remove(key@));
            }
        }
    }

impl Store for MemStore {
    type Error = std::convert::Infallible;

    closed spec fn contents(&self) -> Map<Seq<u8>, Seq<u8>> {
        pairs_map(self.pairs@)
    }

    open spec fn infallible(&self) -> bool {
        true
    }

    /// An in-memory store has no crash of its own: it lives exactly as long as the
    /// process, so everything it holds counts as made durable.
    closed spec fn durable_contents(&self) -> Map<Seq<u8>, Seq<u8>> {
        pairs_map(self.pairs@)
    }

    fn get(&self, key: &[u8]) -> (r: Result<Option<Vec<u8>>, Self::Error>)
        ensures
            r is Ok,
    {
        proof {
            use_type_invariant(self);
        }
        let pairs = &self.pairs;
        let p = lower_bound(pairs, key);
        if p < pairs.len() && matches!(compare_keys(pairs[p].0.as_slice(), key), KeyOrder::Equal) {
            proof {
                lemma_pairs_map_at(pairs@, p as int);
            }
            Ok(Some(copy_bytes(pairs[p].1.as_slice())))
        } else {
            proof {
                if p < pairs@.len() {
                    lemma_lex_total(key@, pairs@[p as int].0@);
                }
                lemma_absent_before(pairs, key@, p as int);
            }
            Ok(None)
        }
    }

    fn seek(&self, from: &[u8]) -> (r: Result<Option<KeyValue>, Self::Error>)
        ensures
            r is Ok,
    {
        proof {
            use_type_invariant(self);
        }
        let pairs = &self.pairs;
        let p = lower_bound(pairs, from);
        if p < pairs.len() {
            let ghost s = pairs@;
            proof {
                lemma_pairs_map_at(s, p as int);
                assert forall|k2: Seq<u8>| #[trigger]
                    pairs_map(s).contains_key(k2) && lex_le(from@, k2) implies lex_le(
                    s[p as int].0@,
                    k2,
                ) by {
                    let j = lemma_pairs_map_has(s, k2);
                    if j < p {
                        lemma_lex_lt_iff_not_le(s[j].0@, from@);
                    } else {
                        lemma_after_lower_bound(pairs, from@, p as int, j);
                    }
                }
            }
            let k = copy_bytes(pairs[p].0.as_slice());
            let v = copy_bytes(pairs[p].1.as_slice());
            Ok(Some((k, v)))
        } else {
            proof {
                assert forall|k2: Seq<u8>| #[trigger]
                    pairs_map(pairs@).contains_key(k2) implies !lex_le(from@, k2) by {
                    let j = lemma_pairs_map_has(pairs@, k2);
                    lemma_lex_lt_iff_not_le(pairs@[j].0@, from@);
                }
            }
            Ok(None)
        }
    }

    fn seek_back(&self, upto: &[u8]) -> (r: Result<Option<KeyValue>, Self::Error>)
        ensures
            r is Ok,
    {
        proof {
            use_type_invariant(self);
        }
        let pairs = &self.pairs;
        let ghost s = pairs@;
        let mut p: usize = 0;
        while p < pairs.len() && key_le(pairs[p].0.as_slice(), upto)
            invariant
                0 <= p <= s.len(),
                s == pairs@,
                sorted(s),
                forall|j: int| 0 <= j < p ==> lex_le(#[trigger] s[j].0@, upto@),
            decreases s.len() - p,
        {
            p = p + 1;
        }
        if p == 0 {
            proof {
                assert forall|k2: Seq<u8>| #[trigger]
                    pairs_map(s).contains_key(k2) implies !lex_le(k2, upto@) by {
                    let j = lemma_pairs_map_has(s, k2);
                    lemma_beyond(pairs, upto@, p as int, j);
                }
            }
            Ok(None)
        } else {
            let q = p - 1;
            proof {
                lemma_pairs_map_at(s, q as int);
                assert forall|k2: Seq<u8>| #[trigger]
                    pairs_map(s).contains_key(k2) && lex_le(k2, upto@) implies lex_le(
                    k2,
                    s[q as int].0@,
                ) by {
                    let j = lemma_pairs_map_has(s, k2);
                    if j >= p {
                        lemma_beyond(pairs, upto@, p as int, j);
                    } else if j < q {
                        assert(lex_lt(s[j].0@, s[q as int].0@));
                    }
                }
            }
            let k = copy_bytes(pairs[q].0.as_slice());
            let v = copy_bytes(pairs[q].1.as_slice());
            Ok(Some((k, v)))
        }
    }

    fn commit(&mut self, ops: &[Op<'_>], durable: bool) -> (r: Result<(), Self::Error>)
        ensures
            r is Ok,
    {
        proof {
            use_type_invariant(&*self);
        }
        let mut pairs: Vec<KeyValue> = Vec::new();
        std::mem::swap(&mut pairs, &mut self.pairs);
        let ghost start = pairs_map(pairs@);
        let mut i: usize = 0;
        while i < ops.len()
            invariant
                0 <= i <= ops@.len(),
                sorted(pairs@),
                pairs_map(pairs@) == apply_ops(start, ops@.subrange(0, i as int)),
            decreases ops@.len() - i,
        {
            let ghost before = pairs_map(pairs@);
            match &ops[i] {
                Op::Put(k, v) => {
                    put(&mut pairs, k, v);
                },
                Op::Delete(k) => {
                    delete(&mut pairs, k);
                },
            }
            proof {
                let prefix = ops@.subrange(0, i + 1);
                assert(prefix.drop_last() =~= ops@.subrange(0, i as int));
                assert(prefix.last() == ops@[i as int]);
                assert(pairs_map(pairs@) == apply_op(before, ops@[i as int]));
            }
            i = i + 1;
        }
        assert(ops@.subrange(0, ops@.len() as int) =~= ops@);
        self.pairs = pairs;
        Ok(())
    }
}

proof fn lemma_sorted_distinct_neq(s: Seq<KeyValue>, i: int, j: int)
    requires
        sorted(s),
        0 <= i < s.len(),
        0 <= j < s.len(),
        i != j,
    ensures
        s[i].0@ != s[j].0@,
{
    if s[i].0@ == s[j].0@ {
        lemma_sorted_distinct(s, i, j);
    }
}

} // verus!
