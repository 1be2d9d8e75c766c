//! The key and value codec.
//!
//! Keys and WAL records are encoded as byte strings with every multi-byte
//! integer big-endian, so that the lexicographic order of encoded keys equals
//! the tuple order on `(forknum, spcnode, dbnode, relnode, blknum, lsn)`; the
//! ordered store's byte comparator then implements the versioned lookup
//! directly.  The codec is pure and total; feeding it malformed bytes is a
//! programmer error, which the `requires` clauses rule out.

use vstd::prelude::*;

use crate::lsn::Lsn;
use crate::tag::{key_lt, BufferTag, RelTag, RepositoryKey};
use crate::walrecord::{WALRecord, WALRecordView};

verus! {

/// Encoded size of a [`RelTag`].
pub const REL_TAG_LEN: usize = 13;

/// Encoded size of a [`BufferTag`].
pub const BUFFER_TAG_LEN: usize = 17;

/// Encoded size of a [`RepositoryKey`].
pub const KEY_LEN: usize = 25;

/// Encoded size of a [`WALRecord`] header, before the record bytes.
pub const WAL_RECORD_HEADER_LEN: usize = 17;

/// The four bytes of `x`, big-endian.
pub open spec fn be32(x: u32) -> Seq<u8> {
    seq![(x >> 24) as u8, (x >> 16) as u8, (x >> 8) as u8, x as u8]
}

/// The value of four big-endian bytes.
pub open spec fn be32_val(s: Seq<u8>) -> u32 {
    ((s[0] as u32) << 24) | ((s[1] as u32) << 16) | ((s[2] as u32) << 8) | (s[3] as u32)
}

/// The eight bytes of `x`, big-endian.
pub open spec fn be64(x: u64) -> Seq<u8> {
    seq![
        (x >> 56) as u8,
        (x >> 48) as u8,
        (x >> 40) as u8,
        (x >> 32) as u8,
        (x >> 24) as u8,
        (x >> 16) as u8,
        (x >> 8) as u8,
        x as u8,
    ]
}

/// The value of eight big-endian bytes.
pub open spec fn be64_val(s: Seq<u8>) -> u64 {
    ((s[0] as u64) << 56) | ((s[1] as u64) << 48) | ((s[2] as u64) << 40) | ((s[3] as u64) << 32)
        | ((s[4] as u64) << 24) | ((s[5] as u64) << 16) | ((s[6] as u64) << 8) | (s[7] as u64)
}

/// Decoding four big-endian bytes undoes encoding.
pub proof fn lemma_be32_val_of_be32(x: u32)
    ensures
        be32_val(be32(x)) == x,
{
    assert((((x >> 24) as u8 as u32) << 24) | (((x >> 16) as u8 as u32) << 16) | (((x
        >> 8) as u8 as u32) << 8) | ((x as u8) as u32) == x) by (bit_vector);
}

/// Encoding the value of four bytes gives those bytes back.
pub proof fn lemma_be32_of_be32_val(s: Seq<u8>)
    requires
        s.len() == 4,
    ensures
        be32(be32_val(s)) =~= s,
{
    let b0 = s[0];
    let b1 = s[1];
    let b2 = s[2];
    let b3 = s[3];
    let v = be32_val(s);
    assert(v == ((b0 as u32) << 24) | ((b1 as u32) << 16) | ((b2 as u32) << 8) | (b3 as u32));
    assert({
        let v = ((b0 as u32) << 24) | ((b1 as u32) << 16) | ((b2 as u32) << 8) | (b3 as u32);
        (v >> 24) as u8 == b0 && (v >> 16) as u8 == b1 && (v >> 8) as u8 == b2 && v as u8 == b3
    }) by (bit_vector);
}

/// Decoding eight big-endian bytes undoes encoding.
pub proof fn lemma_be64_val_of_be64(x: u64)
    ensures
        be64_val(be64(x)) == x,
{
    assert((((x >> 56) as u8 as u64) << 56) | (((x >> 48) as u8 as u64) << 48) | (((x
        >> 40) as u8 as u64) << 40) | (((x >> 32) as u8 as u64) << 32) | (((x
        >> 24) as u8 as u64) << 24) | (((x >> 16) as u8 as u64) << 16) | (((x
        >> 8) as u8 as u64) << 8) | ((x as u8) as u64) == x) by (bit_vector);
}

/// Encoding the value of eight bytes gives those bytes back.
pub proof fn lemma_be64_of_be64_val(s: Seq<u8>)
    requires
        s.len() == 8,
    ensures
        be64(be64_val(s)) =~= s,
{
    let b0 = s[0];
    let b1 = s[1];
    let b2 = s[2];
    let b3 = s[3];
    let b4 = s[4];
    let b5 = s[5];
    let b6 = s[6];
    let b7 = s[7];
    assert(be64_val(s) == ((b0 as u64) << 56) | ((b1 as u64) << 48) | ((b2 as u64) << 40) | ((
    b3 as u64) << 32) | ((b4 as u64) << 24) | ((b5 as u64) << 16) | ((b6 as u64) << 8) | (
    b7 as u64));
    assert({
        let v = ((b0 as u64) << 56) | ((b1 as u64) << 48) | ((b2 as u64) << 40) | ((b3 as u64)
            << 32) | ((b4 as u64) << 24) | ((b5 as u64) << 16) | ((b6 as u64) << 8) | (b7 as u64);
        (v >> 56) as u8 == b0 && (v >> 48) as u8 == b1 && (v >> 40) as u8 == b2 && (v
            >> 32) as u8 == b3 && (v >> 24) as u8 == b4 && (v >> 16) as u8 == b5 && (v
            >> 8) as u8 == b6 && v as u8 == b7
    }) by (bit_vector);
}

/// The encoding of a [`RelTag`]: fork, tablespace, database, relation,
/// big-endian in that order.
pub open spec fn rel_enc(t: RelTag) -> Seq<u8> {
    seq![t.forknum] + be32(t.spcnode) + be32(t.dbnode) + be32(t.relnode)
}

/// The encoding of a [`BufferTag`]: relation tag, then block number.
pub open spec fn tag_enc(t: BufferTag) -> Seq<u8> {
    rel_enc(t.rel) + be32(t.blknum)
}

/// The encoding of a [`RepositoryKey`]: buffer tag, then LSN.
pub open spec fn key_enc(k: RepositoryKey) -> Seq<u8> {
    tag_enc(k.tag) + be64(k.lsn.0)
}

/// The [`RelTag`] encoded at `off` in `s`.
pub open spec fn rel_dec(s: Seq<u8>, off: int) -> RelTag {
    RelTag {
        forknum: s[off],
        spcnode: be32_val(s.subrange(off + 1, off + 5)),
        dbnode: be32_val(s.subrange(off + 5, off + 9)),
        relnode: be32_val(s.subrange(off + 9, off + 13)),
    }
}

/// The [`BufferTag`] encoded at `off` in `s`.
pub open spec fn tag_dec(s: Seq<u8>, off: int) -> BufferTag {
    BufferTag { rel: rel_dec(s, off), blknum: be32_val(s.subrange(off + 13, off + 17)) }
}

/// The [`RepositoryKey`] encoded at `off` in `s`.
pub open spec fn key_dec(s: Seq<u8>, off: int) -> RepositoryKey {
    RepositoryKey { tag: tag_dec(s, off), lsn: Lsn(be64_val(s.subrange(off + 17, off + 25))) }
}

/// Decoding an encoded key gives the key back.
pub proof fn lemma_key_roundtrip(k: RepositoryKey)
    ensures
        key_dec(key_enc(k), 0) == k,
{
    let s = key_enc(k);
    assert(s.subrange(1, 5) =~= be32(k.tag.rel.spcnode));
    assert(s.subrange(5, 9) =~= be32(k.tag.rel.dbnode));
    assert(s.subrange(9, 13) =~= be32(k.tag.rel.relnode));
    assert(s.subrange(13, 17) =~= be32(k.tag.blknum));
    assert(s.subrange(17, 25) =~= be64(k.lsn.0));
    lemma_be32_val_of_be32(k.tag.rel.spcnode);
    lemma_be32_val_of_be32(k.tag.rel.dbnode);
    lemma_be32_val_of_be32(k.tag.rel.relnode);
    lemma_be32_val_of_be32(k.tag.blknum);
    lemma_be64_val_of_be64(k.lsn.0);
}

/// Encoding a decoded 25-byte string gives the bytes back: together with
/// [`lemma_key_roundtrip`], the key codec is a bijection between keys and
/// 25-byte strings.
pub proof fn lemma_key_enc_of_dec(s: Seq<u8>)
    requires
        s.len() == KEY_LEN,
    ensures
        key_enc(key_dec(s, 0)) =~= s,
{
    lemma_be32_of_be32_val(s.subrange(1, 5));
    lemma_be32_of_be32_val(s.subrange(5, 9));
    lemma_be32_of_be32_val(s.subrange(9, 13));
    lemma_be32_of_be32_val(s.subrange(13, 17));
    lemma_be64_of_be64_val(s.subrange(17, 25));
}

/// The key encoding is injective.
pub proof fn lemma_key_enc_injective(k1: RepositoryKey, k2: RepositoryKey)
    ensures
        key_enc(k1) == key_enc(k2) ==> k1 == k2,
{
    if key_enc(k1) == key_enc(k2) {
        lemma_key_roundtrip(k1);
        lemma_key_roundtrip(k2);
    }
}

/// Lexicographic order on byte strings: the order the ordered store's byte
/// comparator uses.
pub open spec fn lex_lt(a: Seq<u8>, b: Seq<u8>) -> bool
    decreases b.len(),
{
    if b.len() == 0 {
        false
    } else if a.len() == 0 {
        true
    } else if a.first() < b.first() {
        true
    } else if a.first() > b.first() {
        false
    } else {
        lex_lt(a.drop_first(), b.drop_first())
    }
}

/// Lexicographic comparison of concatenations with equal-length heads splits
/// into head comparison, then tail comparison.
pub proof fn lemma_lex_concat(a1: Seq<u8>, a2: Seq<u8>, b1: Seq<u8>, b2: Seq<u8>)
    requires
        a1.len() == b1.len(),
    ensures
        lex_lt(a1 + a2, b1 + b2) <==> (lex_lt(a1, b1) || (a1 == b1 && lex_lt(a2, b2))),
    decreases a1.len(),
{
    if a1.len() == 0 {
        assert(a1 + a2 =~= a2);
        assert(b1 + b2 =~= b2);
        assert(a1 =~= b1);
    } else {
        assert((a1 + a2).first() == a1.first());
        assert((b1 + b2).first() == b1.first());
        if a1.first() == b1.first() {
            assert((a1 + a2).drop_first() =~= a1.drop_first() + a2);
            assert((b1 + b2).drop_first() =~= b1.drop_first() + b2);
            lemma_lex_concat(a1.drop_first(), a2, b1.drop_first(), b2);
            if a1.drop_first() == b1.drop_first() {
                assert forall|i: int| 0 <= i < a1.len() implies a1[i] == b1[i] by {
                    if i == 0 {
                        assert(a1[0] == a1.first());
                        assert(b1[0] == b1.first());
                    } else {
                        assert(a1.drop_first()[i - 1] == a1[i]);
                        assert(b1.drop_first()[i - 1] == b1[i]);
                    }
                }
                assert(a1 =~= b1);
            }
            if a1 == b1 {
                assert(a1.drop_first() =~= b1.drop_first());
            }
        } else {
            assert(a1[0] != b1[0]);
        }
    }
}

/// Lexicographic order on single bytes is byte order.
pub proof fn lemma_lex_single(x: u8, y: u8)
    ensures
        lex_lt(seq![x], seq![y]) <==> x < y,
{
    reveal_with_fuel(lex_lt, 2);
    assert(seq![x].drop_first() =~= Seq::<u8>::empty());
    assert(seq![y].drop_first() =~= Seq::<u8>::empty());
}

/// Lexicographic order on four big-endian bytes is integer order.
pub proof fn lemma_be32_order(x: u32, y: u32)
    ensures
        lex_lt(be32(x), be32(y)) <==> x < y,
{
    reveal_with_fuel(lex_lt, 5);
    let a = be32(x);
    let b = be32(y);
    assert(a.drop_first() =~= seq![(x >> 16) as u8, (x >> 8) as u8, x as u8]);
    assert(b.drop_first() =~= seq![(y >> 16) as u8, (y >> 8) as u8, y as u8]);
    assert(a.drop_first().drop_first() =~= seq![(x >> 8) as u8, x as u8]);
    assert(b.drop_first().drop_first() =~= seq![(y >> 8) as u8, y as u8]);
    assert(a.drop_first().drop_first().drop_first() =~= seq![x as u8]);
    assert(b.drop_first().drop_first().drop_first() =~= seq![y as u8]);
    assert(seq![x as u8].drop_first() =~= Seq::<u8>::empty());
    assert(seq![y as u8].drop_first() =~= Seq::<u8>::empty());
    assert((x < y) == (((x >> 24) as u8) < ((y >> 24) as u8) || ((x >> 24) as u8 == (y >> 24) as u8
        && (((x >> 16) as u8) < ((y >> 16) as u8) || ((x >> 16) as u8 == (y >> 16) as u8 && (((x
        >> 8) as u8) < ((y >> 8) as u8) || ((x >> 8) as u8 == (y >> 8) as u8 && ((x as u8) < (
    y as u8))))))))) by (bit_vector);
}

/// The eight big-endian bytes of `x` are the four of its high half followed
/// by the four of its low half.
pub proof fn lemma_be64_split(x: u64)
    ensures
        be64(x) =~= be32((x >> 32) as u32) + be32(x as u32),
{
    assert({
        let h = (x >> 32) as u32;
        let l = x as u32;
        (h >> 24) as u8 == (x >> 56) as u8 && (h >> 16) as u8 == (x >> 48) as u8 && (h
            >> 8) as u8 == (x >> 40) as u8 && h as u8 == (x >> 32) as u8 && (l >> 24) as u8 == (x
            >> 24) as u8 && (l >> 16) as u8 == (x >> 16) as u8 && (l >> 8) as u8 == (x
            >> 8) as u8 && l as u8 == x as u8
    }) by (bit_vector);
}

/// Lexicographic order on eight big-endian bytes is integer order.
pub proof fn lemma_be64_order(x: u64, y: u64)
    ensures
        lex_lt(be64(x), be64(y)) <==> x < y,
{
    let hx = (x >> 32) as u32;
    let lx = x as u32;
    let hy = (y >> 32) as u32;
    let ly = y as u32;
    lemma_be64_split(x);
    lemma_be64_split(y);
    lemma_lex_concat(be32(hx), be32(lx), be32(hy), be32(ly));
    lemma_be32_order(hx, hy);
    lemma_be32_order(lx, ly);
    lemma_be32_val_of_be32(hx);
    lemma_be32_val_of_be32(hy);
    assert({
        let hx = (x >> 32) as u32;
        let lx = x as u32;
        let hy = (y >> 32) as u32;
        let ly = y as u32;
        (x < y) == (hx < hy || (hx == hy && lx < ly))
    }) by (bit_vector);
}


/// Decoding an encoded relation tag gives the tag back.
pub proof fn lemma_rel_roundtrip(t: RelTag)
    ensures
        rel_dec(rel_enc(t), 0) == t,
{
    let s = rel_enc(t);
    assert(s.subrange(1, 5) =~= be32(t.spcnode));
    assert(s.subrange(5, 9) =~= be32(t.dbnode));
    assert(s.subrange(9, 13) =~= be32(t.relnode));
    lemma_be32_val_of_be32(t.spcnode);
    lemma_be32_val_of_be32(t.dbnode);
    lemma_be32_val_of_be32(t.relnode);
}

/// Decoding an encoded buffer tag gives the tag back.
pub proof fn lemma_tag_roundtrip(t: BufferTag)
    ensures
        tag_dec(tag_enc(t), 0) == t,
{
    let s = tag_enc(t);
    assert(s.subrange(1, 5) =~= be32(t.rel.spcnode));
    assert(s.subrange(5, 9) =~= be32(t.rel.dbnode));
    assert(s.subrange(9, 13) =~= be32(t.rel.relnode));
    assert(s.subrange(13, 17) =~= be32(t.blknum));
    lemma_be32_val_of_be32(t.rel.spcnode);
    lemma_be32_val_of_be32(t.rel.dbnode);
    lemma_be32_val_of_be32(t.rel.relnode);
    lemma_be32_val_of_be32(t.blknum);
}

/// Lexicographic order on encoded relation tags is the tuple order.
pub proof fn lemma_rel_enc_order(a: RelTag, b: RelTag)
    ensures
        lex_lt(rel_enc(a), rel_enc(b)) <==> crate::tag::rel_lt(a, b),
{
    let resta = be32(a.spcnode) + (be32(a.dbnode) + be32(a.relnode));
    let restb = be32(b.spcnode) + (be32(b.dbnode) + be32(b.relnode));
    assert(rel_enc(a) =~= seq![a.forknum] + resta);
    assert(rel_enc(b) =~= seq![b.forknum] + restb);
    lemma_lex_concat(seq![a.forknum], resta, seq![b.forknum], restb);
    lemma_lex_single(a.forknum, b.forknum);
    if a.forknum == b.forknum {
        assert(seq![a.forknum] =~= seq![b.forknum]);
    }
    lemma_lex_concat(
        be32(a.spcnode),
        be32(a.dbnode) + be32(a.relnode),
        be32(b.spcnode),
        be32(b.dbnode) + be32(b.relnode),
    );
    lemma_lex_concat(be32(a.dbnode), be32(a.relnode), be32(b.dbnode), be32(b.relnode));
    lemma_be32_order(a.spcnode, b.spcnode);
    lemma_be32_order(a.dbnode, b.dbnode);
    lemma_be32_order(a.relnode, b.relnode);
    lemma_be32_val_of_be32(a.spcnode);
    lemma_be32_val_of_be32(b.spcnode);
    lemma_be32_val_of_be32(a.dbnode);
    lemma_be32_val_of_be32(b.dbnode);
}

/// Lexicographic order on encoded buffer tags is the tuple order.
pub proof fn lemma_tag_enc_order(a: BufferTag, b: BufferTag)
    ensures
        lex_lt(tag_enc(a), tag_enc(b)) <==> crate::tag::tag_lt(a, b),
{
    lemma_lex_concat(rel_enc(a.rel), be32(a.blknum), rel_enc(b.rel), be32(b.blknum));
    lemma_rel_enc_order(a.rel, b.rel);
    lemma_be32_order(a.blknum, b.blknum);
    if rel_enc(a.rel) == rel_enc(b.rel) {
        lemma_rel_roundtrip(a.rel);
        lemma_rel_roundtrip(b.rel);
    }
}

/// The byte order of encoded keys equals the tuple order on
/// `(forknum, spcnode, dbnode, relnode, blknum, lsn)`: the ordered store's
/// byte comparator sorts keys exactly as the repository's tuple order does.
pub proof fn lemma_key_enc_order(a: RepositoryKey, b: RepositoryKey)
    ensures
        lex_lt(key_enc(a), key_enc(b)) <==> key_lt(a, b),
{
    lemma_lex_concat(tag_enc(a.tag), be64(a.lsn.0), tag_enc(b.tag), be64(b.lsn.0));
    lemma_tag_enc_order(a.tag, b.tag);
    lemma_be64_order(a.lsn.0, b.lsn.0);
    if tag_enc(a.tag) == tag_enc(b.tag) {
        lemma_tag_roundtrip(a.tag);
        lemma_tag_roundtrip(b.tag);
    }
}

/// The encoding of a [`WALRecord`]: end LSN, init flag, main-data offset,
/// record length, record bytes; integers big-endian.
pub open spec fn wal_enc(w: WALRecordView) -> Seq<u8> {
    be64(w.lsn.0) + seq![if w.will_init { 1u8 } else { 0u8 }] + be32(w.main_data_offset) + be32(
        w.rec.len() as u32,
    ) + w.rec
}

/// A record encoding fits in a `Vec`: its length is addressable.
pub open spec fn wal_wf(w: WALRecordView) -> bool {
    w.rec.len() <= u32::MAX
}

/// True when `s` holds a whole record encoding at `off`: the header fits and
/// the record length it declares fits.
pub open spec fn wal_valid_at(s: Seq<u8>, off: int) -> bool {
    &&& 0 <= off
    &&& off + WAL_RECORD_HEADER_LEN <= s.len()
    &&& off + WAL_RECORD_HEADER_LEN + be32_val(s.subrange(off + 13, off + 17)) <= s.len()
}

/// The [`WALRecordView`] encoded at `off` in `s`.
pub open spec fn wal_dec(s: Seq<u8>, off: int) -> WALRecordView {
    WALRecordView {
        lsn: Lsn(be64_val(s.subrange(off, off + 8))),
        will_init: s[off + 8] != 0,
        main_data_offset: be32_val(s.subrange(off + 9, off + 13)),
        rec: s.subrange(off + 17, off + 17 + be32_val(s.subrange(off + 13, off + 17))),
    }
}

/// Decoding an encoded record gives the record back.
pub proof fn lemma_wal_roundtrip(w: WALRecordView)
    requires
        wal_wf(w),
    ensures
        wal_valid_at(wal_enc(w), 0),
        wal_dec(wal_enc(w), 0) == w,
{
    let s = wal_enc(w);
    assert(s.subrange(0, 8) =~= be64(w.lsn.0));
    assert(s.subrange(9, 13) =~= be32(w.main_data_offset));
    assert(s.subrange(13, 17) =~= be32(w.rec.len() as u32));
    lemma_be64_val_of_be64(w.lsn.0);
    lemma_be32_val_of_be32(w.main_data_offset);
    lemma_be32_val_of_be32(w.rec.len() as u32);
    assert(s.subrange(17, 17 + w.rec.len() as int) =~= w.rec);
}

/// Encoding a decoded well-formed record encoding gives the bytes back.
/// "Well-formed" asks the init-flag byte to be 0 or 1 and the bytes to be
/// exactly one record encoding.
pub proof fn lemma_wal_enc_of_dec(s: Seq<u8>)
    requires
        wal_valid_at(s, 0),
        s[8] == 0 || s[8] == 1,
        s.len() == WAL_RECORD_HEADER_LEN + be32_val(s.subrange(13, 17)),
    ensures
        wal_enc(wal_dec(s, 0)) =~= s,
{
    let w = wal_dec(s, 0);
    lemma_be64_of_be64_val(s.subrange(0, 8));
    lemma_be32_of_be32_val(s.subrange(9, 13));
    lemma_be32_of_be32_val(s.subrange(13, 17));
    assert(w.rec.len() == be32_val(s.subrange(13, 17)));
    assert(be32(w.rec.len() as u32) =~= s.subrange(13, 17));
}

/// Appends the four big-endian bytes of `x`.
pub fn put_u32(buf: &mut Vec<u8>, x: u32)
    ensures
        final(buf)@ == old(buf)@ + be32(x),
{
    buf.push(#[verifier::truncate] ((x >> 24) as u8));
    buf.push(#[verifier::truncate] ((x >> 16) as u8));
    buf.push(#[verifier::truncate] ((x >> 8) as u8));
    buf.push(#[verifier::truncate] (x as u8));
    assert(buf@ =~= old(buf)@ + be32(x));
}

/// Appends the eight big-endian bytes of `x`.
pub fn put_u64(buf: &mut Vec<u8>, x: u64)
    ensures
        final(buf)@ == old(buf)@ + be64(x),
{
    buf.push(#[verifier::truncate] ((x >> 56) as u8));
    buf.push(#[verifier::truncate] ((x >> 48) as u8));
    buf.push(#[verifier::truncate] ((x >> 40) as u8));
    buf.push(#[verifier::truncate] ((x >> 32) as u8));
    buf.push(#[verifier::truncate] ((x >> 24) as u8));
    buf.push(#[verifier::truncate] ((x >> 16) as u8));
    buf.push(#[verifier::truncate] ((x >> 8) as u8));
    buf.push(#[verifier::truncate] (x as u8));
    assert(buf@ =~= old(buf)@ + be64(x));
}

/// Reads four big-endian bytes at `off`.
pub fn read_u32(buf: &Vec<u8>, off: usize) -> (r: u32)
    requires
        off + 4 <= buf@.len(),
    ensures
        r == be32_val(buf@.subrange(off as int, off + 4)),
{
    let n = buf.len();
    assert(off + 4 <= n);
    let r = ((buf[off] as u32) << 24) | ((buf[off + 1] as u32) << 16) | ((buf[off + 2] as u32)
        << 8) | (buf[off + 3] as u32);
    proof {
        let s = buf@.subrange(off as int, off + 4);
        assert(s[0] == buf@[off as int] && s[1] == buf@[off + 1] && s[2] == buf@[off + 2] && s[3]
            == buf@[off + 3]);
    }
    r
}

/// Reads eight big-endian bytes at `off`.
pub fn read_u64(buf: &Vec<u8>, off: usize) -> (r: u64)
    requires
        off + 8 <= buf@.len(),
    ensures
        r == be64_val(buf@.subrange(off as int, off + 8)),
{
    let n = buf.len();
    assert(off + 8 <= n);
    let r = ((buf[off] as u64) << 56) | ((buf[off + 1] as u64) << 48) | ((buf[off + 2] as u64)
        << 40) | ((buf[off + 3] as u64) << 32) | ((buf[off + 4] as u64) << 24) | ((buf[off
        + 5] as u64) << 16) | ((buf[off + 6] as u64) << 8) | (buf[off + 7] as u64);
    proof {
        let s = buf@.subrange(off as int, off + 8);
        assert(s[0] == buf@[off as int] && s[1] == buf@[off + 1] && s[2] == buf@[off + 2] && s[3]
            == buf@[off + 3] && s[4] == buf@[off + 4] && s[5] == buf@[off + 5] && s[6] == buf@[off
            + 6] && s[7] == buf@[off + 7]);
    }
    r
}

impl RelTag {
    /// Appends the 13-byte encoding of this tag.
    pub fn pack(&self, buf: &mut Vec<u8>)
        ensures
            final(buf)@ == old(buf)@ + rel_enc(*self),
    {
        buf.push(self.forknum);
        put_u32(buf, self.spcnode);
        put_u32(buf, self.dbnode);
        put_u32(buf, self.relnode);
        assert(buf@ =~= old(buf)@ + rel_enc(*self));
    }

    /// Decodes the tag encoded at `off`.
    pub fn unpack(buf: &Vec<u8>, off: usize) -> (r: RelTag)
        requires
            off + REL_TAG_LEN <= buf@.len(),
        ensures
            r == rel_dec(buf@, off as int),
    {
        let n = buf.len();
        assert(off + REL_TAG_LEN <= n);
        RelTag {
            forknum: buf[off],
            spcnode: read_u32(buf, off + 1),
            dbnode: read_u32(buf, off + 5),
            relnode: read_u32(buf, off + 9),
        }
    }
}

impl BufferTag {
    /// Appends the 17-byte encoding of this tag.
    pub fn pack(&self, buf: &mut Vec<u8>)
        ensures
            final(buf)@ == old(buf)@ + tag_enc(*self),
    {
        self.rel.pack(buf);
        put_u32(buf, self.blknum);
        assert(buf@ =~= old(buf)@ + tag_enc(*self));
    }

    /// Decodes the tag encoded at `off`.
    pub fn unpack(buf: &Vec<u8>, off: usize) -> (r: BufferTag)
        requires
            off + BUFFER_TAG_LEN <= buf@.len(),
        ensures
            r == tag_dec(buf@, off as int),
    {
        let n = buf.len();
        assert(off + BUFFER_TAG_LEN <= n);
        BufferTag { rel: RelTag::unpack(buf, off), blknum: read_u32(buf, off + 13) }
    }
}

impl RepositoryKey {
    /// Appends the 25-byte encoding of this key.
    pub fn pack(&self, buf: &mut Vec<u8>)
        ensures
            final(buf)@ == old(buf)@ + key_enc(*self),
    {
        self.tag.pack(buf);
        put_u64(buf, self.lsn.0);
        assert(buf@ =~= old(buf)@ + key_enc(*self));
    }

    /// Decodes the key encoded at `off`.
    pub fn unpack(buf: &Vec<u8>, off: usize) -> (r: RepositoryKey)
        requires
            off + KEY_LEN <= buf@.len(),
        ensures
            r == key_dec(buf@, off as int),
    {
        let n = buf.len();
        assert(off + KEY_LEN <= n);
        RepositoryKey { tag: BufferTag::unpack(buf, off), lsn: Lsn(read_u64(buf, off + 17)) }
    }

    /// Decodes the key encoded at the front of `buf`.
    pub fn from_slice(buf: &Vec<u8>) -> (r: RepositoryKey)
        requires
            buf@.len() >= KEY_LEN,
        ensures
            r == key_dec(buf@, 0),
    {
        Self::unpack(buf, 0)
    }

    /// The 25-byte encoding of this key.
    pub fn to_bytes(&self) -> (r: Vec<u8>)
        ensures
            r@ == key_enc(*self),
    {
        let mut buf = Vec::new();
        self.pack(&mut buf);
        assert(buf@ =~= key_enc(*self));
        buf
    }
}

impl WALRecord {
    /// Appends the encoding of this record.
    pub fn pack(&self, buf: &mut Vec<u8>)
        requires
            wal_wf(self@),
        ensures
            final(buf)@ == old(buf)@ + wal_enc(self@),
    {
        put_u64(buf, self.lsn.0);
        buf.push(if self.will_init { 1u8 } else { 0u8 });
        put_u32(buf, self.main_data_offset);
        put_u32(buf, #[verifier::truncate] (self.rec.len() as u32));
        let mut i: usize = 0;
        let ghost mid = buf@;
        while i < self.rec.len()
            invariant
                i <= self.rec.len(),
                buf@ == mid + self.rec@.subrange(0, i as int),
            decreases self.rec.len() - i,
        {
            buf.push(self.rec[i]);
            i += 1;
            assert(buf@ =~= mid + self.rec@.subrange(0, i as int));
        }
        assert(self.rec@.subrange(0, self.rec@.len() as int) =~= self.rec@);
        assert(buf@ =~= old(buf)@ + wal_enc(self@));
    }

    /// Decodes the record encoded at `off`; also returns the offset just
    /// after it.
    pub fn unpack(buf: &Vec<u8>, off: usize) -> (r: (WALRecord, usize))
        requires
            wal_valid_at(buf@, off as int),
        ensures
            r.0@ == wal_dec(buf@, off as int),
            r.1 == off + WAL_RECORD_HEADER_LEN + wal_dec(buf@, off as int).rec.len(),
    {
        let n = buf.len();
        assert(off + WAL_RECORD_HEADER_LEN <= n);
        let lsn = Lsn(read_u64(buf, off));
        let will_init = buf[off + 8] != 0;
        let main_data_offset = read_u32(buf, off + 9);
        let len = read_u32(buf, off + 13);
        let mut rec: Vec<u8> = Vec::new();
        let mut i: usize = 0;
        while i < len as usize
            invariant
                i <= len,
                n == buf@.len(),
                off + WAL_RECORD_HEADER_LEN + len <= n,
                rec@ == buf@.subrange(off + 17, off + 17 + i),
            decreases len - i,
        {
            rec.push(buf[off + 17 + i]);
            i += 1;
            assert(rec@ =~= buf@.subrange(off + 17, off + 17 + i));
        }
        (WALRecord { lsn, will_init, rec, main_data_offset }, off + 17 + len as usize)
    }
}

} // verus!
