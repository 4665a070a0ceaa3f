//! Byte-lexicographic order on key sequences: the order an ordered store keeps its
//! keys in, and the order `<` gives on byte slices.

use vstd::prelude::*;

verus! {

/// `a` sorts strictly before `b`: at the first position where they differ `a` holds
/// the smaller byte, or `a` is a proper prefix of `b`.
pub open spec fn lex_lt(a: Seq<u8>, b: Seq<u8>) -> bool
    decreases a.len(),
{
    if b.len() == 0 {
        false
    } else if a.len() == 0 {
        true
    } else if a[0] != b[0] {
        a[0] < b[0]
    } else {
        lex_lt(a.drop_first(), b.drop_first())
    }
}

/// `a` sorts before `b` or equals it.
pub open spec fn lex_le(a: Seq<u8>, b: Seq<u8>) -> bool {
    a == b || lex_lt(a, b)
}

/// Two sequences with the same first byte and the same remainder are equal.
pub proof fn lemma_cons_eq(a: Seq<u8>, b: Seq<u8>)
    requires
        a.len() > 0,
        b.len() > 0,
        a[0] == b[0],
        a.drop_first() == b.drop_first(),
    ensures
        a == b,
{
    assert(a.drop_first().len() == a.len() - 1);
    assert(b.drop_first().len() == b.len() - 1);
    assert(a.len() == b.len());
    assert(a =~= b) by {
        assert forall|i: int| 0 <= i < a.len() implies a[i] == b[i] by {
            if i > 0 {
                assert(a[i] == a.drop_first()[i - 1]);
                assert(b[i] == b.drop_first()[i - 1]);
            }
        }
    }
}

/// Nothing sorts strictly before itself.
pub proof fn lemma_lex_irreflexive(a: Seq<u8>)
    ensures
        !lex_lt(a, a),
    decreases a.len(),
{
    if a.len() > 0 {
        lemma_lex_irreflexive(a.drop_first());
    }
}

/// The strict order is asymmetric.
pub proof fn lemma_lex_asymmetric(a: Seq<u8>, b: Seq<u8>)
    ensures
        !(lex_lt(a, b) && lex_lt(b, a)),
    decreases a.len(),
{
    if a.len() > 0 && b.len() > 0 && a[0] == b[0] {
        lemma_lex_asymmetric(a.drop_first(), b.drop_first());
    }
}

/// The strict order is transitive.
pub proof fn lemma_lex_transitive(a: Seq<u8>, b: Seq<u8>, c: Seq<u8>)
    requires
        lex_lt(a, b),
        lex_lt(b, c),
    ensures
        lex_lt(a, c),
    decreases a.len(),
{
    if a.len() > 0 && a[0] == b[0] && b[0] == c[0] {
        lemma_lex_transitive(a.drop_first(), b.drop_first(), c.drop_first());
    }
}

/// Any two distinct sequences are ordered one way or the other.
pub proof fn lemma_lex_total(a: Seq<u8>, b: Seq<u8>)
    ensures
        a == b || lex_lt(a, b) || lex_lt(b, a),
    decreases a.len(),
{
    if a.len() == 0 && b.len() == 0 {
        assert(a =~= b);
    } else if a.len() > 0 && b.len() > 0 && a[0] == b[0] {
        lemma_lex_total(a.drop_first(), b.drop_first());
        if a.drop_first() == b.drop_first() {
            lemma_cons_eq(a, b);
        }
    }
}

/// The non-strict order is transitive.
pub proof fn lemma_lex_le_transitive(a: Seq<u8>, b: Seq<u8>, c: Seq<u8>)
    requires
        lex_le(a, b),
        lex_le(b, c),
    ensures
        lex_le(a, c),
{
    if a != b && b != c {
        lemma_lex_transitive(a, b, c);
    }
}

/// `lex_lt` is exactly "not `lex_le` the other way round".
pub proof fn lemma_lex_lt_iff_not_le(a: Seq<u8>, b: Seq<u8>)
    ensures
        lex_lt(a, b) <==> !lex_le(b, a),
{
    lemma_lex_total(a, b);
    lemma_lex_asymmetric(a, b);
    lemma_lex_irreflexive(a);
}

/// `k` followed by a zero byte is the key right after `k`: what sorts strictly
/// before it is exactly what sorts at or before `k`.
pub proof fn lemma_lex_successor(x: Seq<u8>, k: Seq<u8>)
    ensures
        lex_lt(x, k.push(0u8)) <==> lex_le(x, k),
    decreases k.len(),
{
    let c = k.push(0u8);
    if k.len() == 0 {
        assert(c.len() == 1 && c[0] == 0u8);
        assert(!lex_lt(x, k));
        if x.len() > 0 && x[0] == 0u8 {
            assert(c.drop_first() =~= Seq::<u8>::empty());
            assert(!lex_lt(x.drop_first(), c.drop_first()));
            assert(!lex_lt(x, c));
            assert(x != k);
        } else if x.len() > 0 {
            assert(!lex_lt(x, c));
            assert(x != k);
        } else {
            assert(x =~= k);
            assert(lex_lt(x, c));
        }
    } else if x.len() == 0 {
        assert(lex_lt(x, c));
        assert(lex_lt(x, k));
    } else {
        assert(c[0] == k[0]);
        if x[0] == k[0] {
            assert(c.drop_first() =~= k.drop_first().push(0u8));
            lemma_lex_successor(x.drop_first(), k.drop_first());
            assert(lex_lt(x, c) == lex_lt(x.drop_first(), c.drop_first()));
            assert(lex_lt(x, k) == lex_lt(x.drop_first(), k.drop_first()));
            if x.drop_first() == k.drop_first() {
                lemma_cons_eq(x, k);
            }
        } else {
            assert(lex_lt(x, c) == (x[0] < k[0]));
            assert(lex_lt(x, k) == (x[0] < k[0]));
        }
    }
}

} // verus!

verus! {

/// If `a` and `b` agree on their first `i` bytes, they compare as their remainders do.
pub proof fn lemma_lex_common_prefix(a: Seq<u8>, b: Seq<u8>, i: int)
    requires
        0 <= i <= a.len(),
        i <= b.len(),
        forall|j: int| 0 <= j < i ==> a[j] == b[j],
    ensures
        lex_lt(a, b) == lex_lt(a.skip(i), b.skip(i)),
    decreases i,
{
    if i == 0 {
        assert(a.skip(0) =~= a);
        assert(b.skip(0) =~= b);
    } else {
        lemma_lex_common_prefix(a.drop_first(), b.drop_first(), i - 1);
        assert(a.drop_first().skip(i - 1) =~= a.skip(i));
        assert(b.drop_first().skip(i - 1) =~= b.skip(i));
    }
}

/// The three ways two keys can compare.
pub enum KeyOrder {
    Less,
    Equal,
    Greater,
}

/// Compare two keys byte-lexicographically.
pub fn compare_keys(a: &[u8], b: &[u8]) -> (c: KeyOrder)
    ensures
        c is Less <==> lex_lt(a@, b@),
        c is Equal <==> a@ == b@,
        c is Greater <==> lex_lt(b@, a@),
{
    proof {
        lemma_lex_total(a@, b@);
        lemma_lex_asymmetric(a@, b@);
        lemma_lex_irreflexive(a@);
    }
    let mut i: usize = 0;
    while i < a.len() && i < b.len()
        invariant
            0 <= i <= a@.len(),
            i <= b@.len(),
            forall|j: int| 0 <= j < i ==> a@[j] == b@[j],
        decreases a@.len() - i,
    {
        if a[i] != b[i] {
            proof {
                lemma_lex_common_prefix(a@, b@, i as int);
                lemma_lex_common_prefix(b@, a@, i as int);
                assert(a@.skip(i as int)[0] == a@[i as int]);
                assert(b@.skip(i as int)[0] == b@[i as int]);
            }
            if a[i] < b[i] {
                return KeyOrder::Less;
            } else {
                return KeyOrder::Greater;
            }
        }
        i = i + 1;
    }
    proof {
        lemma_lex_common_prefix(a@, b@, i as int);
        lemma_lex_common_prefix(b@, a@, i as int);
    }
    if a.len() == b.len() {
        assert(a@ =~= b@);
        KeyOrder::Equal
    } else if a.len() < b.len() {
        assert(a@.skip(i as int).len() == 0);
        KeyOrder::Less
    } else {
        assert(b@.skip(i as int).len() == 0);
        KeyOrder::Greater
    }
}

} // verus!
