//! The queue's key layout in the store: one meta record at `[0x00]`, and one entry
//! per item at `[0x01] ++ seq` with `seq` as a big-endian `u64`, so that the store's
//! byte order on keys is the numeric order on sequence numbers.

use vstd::prelude::*;
use crate::lex::lex_lt;

verus! {

/// Key of the meta record, which holds the on-disk format version.
pub const META_KEY: [u8; 1] = [0x00];
/// First byte of every entry key.
pub const ENTRY_PREFIX: u8 = 0x01;
/// Lower bound of the entry key range: every entry key sorts after it.
pub const ENTRY_LOW: [u8; 1] = [0x01];
/// Upper bound of the entry key range: every entry key sorts at or before it.
pub const ENTRY_HIGH: [u8; 9] = [0x01, 0xff, 0xff, 0xff, 0xff, 0xff, 0xff, 0xff, 0xff];
/// The on-disk format version this library writes and reads.
pub const FORMAT_VERSION: u8 = 1;

/// Byte `i` (0 = most significant) of the big-endian encoding of `x`.
pub open spec fn be_byte(x: u64, i: int) -> u8 {
    if i == 0 {
        ((x >> 56u64) & 0xffu64) as u8
    } else if i == 1 {
        ((x >> 48u64) & 0xffu64) as u8
    } else if i == 2 {
        ((x >> 40u64) & 0xffu64) as u8
    } else if i == 3 {
        ((x >> 32u64) & 0xffu64) as u8
    } else if i == 4 {
        ((x >> 24u64) & 0xffu64) as u8
    } else if i == 5 {
        ((x >> 16u64) & 0xffu64) as u8
    } else if i == 6 {
        ((x >> 8u64) & 0xffu64) as u8
    } else {
        (x & 0xffu64) as u8
    }
}

/// The entry key of `seq`: the prefix byte followed by `seq` in big-endian order.
pub open spec fn key_of(seq: u64) -> Seq<u8> {
    seq![
        1u8,
        be_byte(seq, 0),
        be_byte(seq, 1),
        be_byte(seq, 2),
        be_byte(seq, 3),
        be_byte(seq, 4),
        be_byte(seq, 5),
        be_byte(seq, 6),
        be_byte(seq, 7),
    ]
}

/// The sequence number that bytes 1..9 of `key` spell in big-endian order.
pub open spec fn seq_in(key: Seq<u8>) -> u64 {
    (key[1] as u64) << 56u64 | (key[2] as u64) << 48u64 | (key[3] as u64) << 40u64 | (key[4] as u64)
        << 32u64 | (key[5] as u64) << 24u64 | (key[6] as u64) << 16u64 | (key[7] as u64) << 8u64
        | (key[8] as u64)
}

/// `key` has the shape of an entry key.
pub open spec fn is_entry_key(key: Seq<u8>) -> bool {
    key.len() == 9 && key[0] == 1u8
}

/// The meta key as a sequence.
pub open spec fn meta_key() -> Seq<u8> {
    seq![0u8]
}

/// The lower bound of the entry range as a sequence.
pub open spec fn entry_low() -> Seq<u8> {
    seq![1u8]
}

/// The upper bound of the entry range as a sequence.
pub open spec fn entry_high() -> Seq<u8> {
    seq![1u8, 0xffu8, 0xffu8, 0xffu8, 0xffu8, 0xffu8, 0xffu8, 0xffu8, 0xffu8]
}

/// Encode `seq` as its entry key.
pub fn entry_key(seq: u64) -> (key: Vec<u8>)
    ensures
        key@ == key_of(seq),
{
    let mut key: Vec<u8> = Vec::with_capacity(9);
    key.push(ENTRY_PREFIX);
    key.push(((seq >> 56u64) & 0xffu64) as u8);
    key.push(((seq >> 48u64) & 0xffu64) as u8);
    key.push(((seq >> 40u64) & 0xffu64) as u8);
    key.push(((seq >> 32u64) & 0xffu64) as u8);
    key.push(((seq >> 24u64) & 0xffu64) as u8);
    key.push(((seq >> 16u64) & 0xffu64) as u8);
    key.push(((seq >> 8u64) & 0xffu64) as u8);
    key.push((seq & 0xffu64) as u8);
    assert(key@ =~= key_of(seq));
    key
}

/// Decode the sequence number of an entry key (bytes 1..9, big-endian).
pub fn seq_of(key: &[u8]) -> (seq: u64)
    requires
        key@.len() >= 9,
    ensures
        seq == seq_in(key@),
{
    (key[1] as u64) << 56u64 | (key[2] as u64) << 48u64 | (key[3] as u64) << 40u64 | (key[4] as u64)
        << 32u64 | (key[5] as u64) << 24u64 | (key[6] as u64) << 16u64 | (key[7] as u64) << 8u64
        | (key[8] as u64)
}

/// Whether `key` has the shape of an entry key.
pub fn is_entry(key: &[u8]) -> (b: bool)
    ensures
        b == is_entry_key(key@),
{
    key.len() == 9 && key[0] == ENTRY_PREFIX
}

proof fn lemma_bytes_roundtrip(x: u64)
    ensures
        ((((x >> 56u64) & 0xffu64) as u8) as u64) << 56u64 | ((((x >> 48u64) & 0xffu64) as u8) as u64)
            << 48u64 | ((((x >> 40u64) & 0xffu64) as u8) as u64) << 40u64 | ((((x >> 32u64)
            & 0xffu64) as u8) as u64) << 32u64 | ((((x >> 24u64) & 0xffu64) as u8) as u64) << 24u64
            | ((((x >> 16u64) & 0xffu64) as u8) as u64) << 16u64 | ((((x >> 8u64) & 0xffu64) as u8)
            as u64) << 8u64 | (((x & 0xffu64) as u8) as u64) == x,
{
    assert(((((x >> 56u64) & 0xffu64) as u8) as u64) << 56u64 | ((((x >> 48u64) & 0xffu64) as u8)
        as u64) << 48u64 | ((((x >> 40u64) & 0xffu64) as u8) as u64) << 40u64 | ((((x >> 32u64)
        & 0xffu64) as u8) as u64) << 32u64 | ((((x >> 24u64) & 0xffu64) as u8) as u64) << 24u64
        | ((((x >> 16u64) & 0xffu64) as u8) as u64) << 16u64 | ((((x >> 8u64) & 0xffu64) as u8)
        as u64) << 8u64 | (((x & 0xffu64) as u8) as u64) == x) by (bit_vector);
}

/// Decoding an entry key gives back the sequence number it was made from, and the
/// key has the entry shape.
pub proof fn lemma_key_roundtrip(seq: u64)
    ensures
        is_entry_key(key_of(seq)),
        seq_in(key_of(seq)) == seq,
{
    lemma_bytes_roundtrip(seq);
}

proof fn lemma_bytes_of_combined(b1: u8, b2: u8, b3: u8, b4: u8, b5: u8, b6: u8, b7: u8, b8: u8)
    by (bit_vector)
    ensures
        ({
            let x = (b1 as u64) << 56u64 | (b2 as u64) << 48u64 | (b3 as u64) << 40u64 | (b4 as u64)
                << 32u64 | (b5 as u64) << 24u64 | (b6 as u64) << 16u64 | (b7 as u64) << 8u64
                | (b8 as u64);
            &&& ((x >> 56u64) & 0xffu64) as u8 == b1
            &&& ((x >> 48u64) & 0xffu64) as u8 == b2
            &&& ((x >> 40u64) & 0xffu64) as u8 == b3
            &&& ((x >> 32u64) & 0xffu64) as u8 == b4
            &&& ((x >> 24u64) & 0xffu64) as u8 == b5
            &&& ((x >> 16u64) & 0xffu64) as u8 == b6
            &&& ((x >> 8u64) & 0xffu64) as u8 == b7
            &&& (x & 0xffu64) as u8 == b8
        }),
{
}

/// Every key of the entry shape is the entry key of the sequence number it spells.
pub proof fn lemma_entry_key_is_key_of(key: Seq<u8>)
    requires
        is_entry_key(key),
    ensures
        key == key_of(seq_in(key)),
{
    lemma_bytes_of_combined(key[1], key[2], key[3], key[4], key[5], key[6], key[7], key[8]);
    assert(key =~= key_of(seq_in(key)));
}

proof fn lemma_bv_order(a: u64, b: u64)
    by (bit_vector)
    ensures
        a < b <==> (((a >> 56u64) & 0xffu64) as u8) < (((b >> 56u64) & 0xffu64) as u8) || ((((a >> 56u64) & 0xffu64) as u8) == (((b >> 56u64) & 0xffu64) as u8) && (a & 0x00ff_ffff_ffff_ffffu64) < (b & 0x00ff_ffff_ffff_ffffu64)),
        (a & 0x00ff_ffff_ffff_ffffu64) < (b & 0x00ff_ffff_ffff_ffffu64) <==> (((a >> 48u64) & 0xffu64) as u8) < (((b >> 48u64) & 0xffu64) as u8) || ((((a >> 48u64) & 0xffu64) as u8) == (((b >> 48u64) & 0xffu64) as u8) && (a & 0x0000_ffff_ffff_ffffu64) < (b & 0x0000_ffff_ffff_ffffu64)),
        (a & 0x0000_ffff_ffff_ffffu64) < (b & 0x0000_ffff_ffff_ffffu64) <==> (((a >> 40u64) & 0xffu64) as u8) < (((b >> 40u64) & 0xffu64) as u8) || ((((a >> 40u64) & 0xffu64) as u8) == (((b >> 40u64) & 0xffu64) as u8) && (a & 0x0000_00ff_ffff_ffffu64) < (b & 0x0000_00ff_ffff_ffffu64)),
        (a & 0x0000_00ff_ffff_ffffu64) < (b & 0x0000_00ff_ffff_ffffu64) <==> (((a >> 32u64) & 0xffu64) as u8) < (((b >> 32u64) & 0xffu64) as u8) || ((((a >> 32u64) & 0xffu64) as u8) == (((b >> 32u64) & 0xffu64) as u8) && (a & 0x0000_0000_ffff_ffffu64) < (b & 0x0000_0000_ffff_ffffu64)),
        (a & 0x0000_0000_ffff_ffffu64) < (b & 0x0000_0000_ffff_ffffu64) <==> (((a >> 24u64) & 0xffu64) as u8) < (((b >> 24u64) & 0xffu64) as u8) || ((((a >> 24u64) & 0xffu64) as u8) == (((b >> 24u64) & 0xffu64) as u8) && (a & 0x0000_0000_00ff_ffffu64) < (b & 0x0000_0000_00ff_ffffu64)),
        (a & 0x0000_0000_00ff_ffffu64) < (b & 0x0000_0000_00ff_ffffu64) <==> (((a >> 16u64) & 0xffu64) as u8) < (((b >> 16u64) & 0xffu64) as u8) || ((((a >> 16u64) & 0xffu64) as u8) == (((b >> 16u64) & 0xffu64) as u8) && (a & 0x0000_0000_0000_ffffu64) < (b & 0x0000_0000_0000_ffffu64)),
        (a & 0x0000_0000_0000_ffffu64) < (b & 0x0000_0000_0000_ffffu64) <==> (((a >> 8u64) & 0xffu64) as u8) < (((b >> 8u64) & 0xffu64) as u8) || ((((a >> 8u64) & 0xffu64) as u8) == (((b >> 8u64) & 0xffu64) as u8) && (a & 0x0000_0000_0000_00ffu64) < (b & 0x0000_0000_0000_00ffu64)),
        (a & 0x0000_0000_0000_00ffu64) < (b & 0x0000_0000_0000_00ffu64) <==> ((a & 0xffu64) as u8) < ((b & 0xffu64) as u8),
{
}

proof fn lemma_lex_step(a: Seq<u8>, b: Seq<u8>)
    requires
        a.len() > 0,
        b.len() > 0,
    ensures
        lex_lt(a, b) == (a[0] < b[0] || (a[0] == b[0] && lex_lt(a.drop_first(), b.drop_first()))),
{
}

/// Entry keys sort exactly as their sequence numbers do: the big-endian layout makes
/// the store's byte order the numeric order (a little-endian or text layout would not).
pub proof fn lemma_key_order(a: u64, b: u64)
    ensures
        a < b <==> lex_lt(key_of(a), key_of(b)),
{
    lemma_bv_order(a, b);
    let ka0 = key_of(a);
    let kb0 = key_of(b);
    let ka1 = ka0.drop_first();
    let kb1 = kb0.drop_first();
    let ka2 = ka1.drop_first();
    let kb2 = kb1.drop_first();
    let ka3 = ka2.drop_first();
    let kb3 = kb2.drop_first();
    let ka4 = ka3.drop_first();
    let kb4 = kb3.drop_first();
    let ka5 = ka4.drop_first();
    let kb5 = kb4.drop_first();
    let ka6 = ka5.drop_first();
    let kb6 = kb5.drop_first();
    let ka7 = ka6.drop_first();
    let kb7 = kb6.drop_first();
    let ka8 = ka7.drop_first();
    let kb8 = kb7.drop_first();
    let ka9 = ka8.drop_first();
    let kb9 = kb8.drop_first();
    assert(ka8[0] == be_byte(a, 7) && kb8[0] == be_byte(b, 7) && kb9.len() == 0);
    assert(!lex_lt(ka9, kb9));
    lemma_lex_step(ka8, kb8);
    assert(ka7[0] == be_byte(a, 6) && kb7[0] == be_byte(b, 6));
    lemma_lex_step(ka7, kb7);
    assert(ka6[0] == be_byte(a, 5) && kb6[0] == be_byte(b, 5));
    lemma_lex_step(ka6, kb6);
    assert(ka5[0] == be_byte(a, 4) && kb5[0] == be_byte(b, 4));
    lemma_lex_step(ka5, kb5);
    assert(ka4[0] == be_byte(a, 3) && kb4[0] == be_byte(b, 3));
    lemma_lex_step(ka4, kb4);
    assert(ka3[0] == be_byte(a, 2) && kb3[0] == be_byte(b, 2));
    lemma_lex_step(ka3, kb3);
    assert(ka2[0] == be_byte(a, 1) && kb2[0] == be_byte(b, 1));
    lemma_lex_step(ka2, kb2);
    assert(ka1[0] == be_byte(a, 0) && kb1[0] == be_byte(b, 0));
    lemma_lex_step(ka1, kb1);
    lemma_lex_step(ka0, kb0);
}

} // verus!
