//! One timeline: a versioned keyspace over the ordered store, with the LSN
//! frontier that orders readers after writers.

use vstd::prelude::*;

use crate::clog::{transaction_id_get_status, tx_status_byteno, tx_status_of};
use crate::errors::RepositoryError;
use crate::lsn::Lsn;
use crate::page_version::{PageVersion, PageVersionView};
use crate::pg_constants::{
    CLOG_XACTS_PER_PAGE, FSM_FORKNUM, INIT_FORKNUM, INVALID_BLOCK_NUMBER, MAIN_FORKNUM,
    PG_FILENODEMAP_FORKNUM, PG_TWOPHASE_FORKNUM, PG_XACT_FORKNUM, RM_DBASE_ID, RM_SMGR_ID,
    SMGR_TRUNCATE_HEAP, TRANSACTION_STATUS_IN_PROGRESS, VISIBILITYMAP_FORKNUM,
    XLOG_DBASE_CREATE, XLOG_SMGR_TRUNCATE, XLR_RMGR_INFO_MASK,
};
use crate::page_version::clone_bytes;
use crate::store::{
    entries_sorted, entry_views, lemma_lookup_at, lemma_lookup_some_iff, lookup, EntryView,
    OrderedStore, StoreEntry,
};
use crate::tag::{key_lt, BufferTag, RelTag, RepositoryKey};
use crate::waldecoder::{
    create_database_at, create_database_parseable, smgr_truncate_at, smgr_truncate_parseable,
    DecodedBkpBlock, DecodedWALRecord, XlCreateDatabase, XlSmgrTruncate,
};
use crate::walrecord::{WALRecord, WALRecordView};
use crate::walredo::{PageReconstructData, WalRedoManager};

verus! {

/// All stored block numbers stay below [`INVALID_BLOCK_NUMBER`], which
/// Postgres reserves; relation sizes (largest block + 1) then fit in a `u32`.
pub open spec fn blocks_bounded(s: Seq<EntryView>) -> bool {
    forall|i: int| 0 <= i < s.len() ==> (#[trigger] s[i]).key.tag.blknum < INVALID_BLOCK_NUMBER
}

/// One write changed exactly one binding of the keyspace: `key` now holds
/// `v`, and every other key is bound as before.
pub open spec fn put_effect(
    pre: Seq<EntryView>,
    post: Seq<EntryView>,
    key: RepositoryKey,
    v: PageVersionView,
) -> bool {
    forall|k2: RepositoryKey|
        #[trigger] lookup(post, k2) == (if k2 == key {
            Some(v)
        } else {
            lookup(pre, k2)
        })
}

/// The buffer tag of block `b` of relation `rel`.
pub open spec fn block_tag(rel: RelTag, b: u32) -> BufferTag {
    BufferTag { rel, blknum: b }
}

/// Block `b` of `rel` exists at `lsn`: it has a version at-or-before `lsn`
/// and the latest such version is not a drop sentinel.
pub open spec fn block_live(s: Seq<EntryView>, rel: RelTag, b: u32, lsn: u64) -> bool {
    match latest_le(s, block_tag(rel, b), lsn) {
        Some(p) => !(p.1 is Dropped),
        None => false,
    }
}

/// What `get_relsize` returns: zero when no block of `rel` exists at `lsn`,
/// else one past the largest existing block.
pub open spec fn relsize_post(s: Seq<EntryView>, rel: RelTag, lsn: u64, n: u32) -> bool {
    if n == 0 {
        forall|b: u32| !(#[trigger] block_live(s, rel, b, lsn))
    } else {
        &&& block_live(s, rel, (n - 1) as u32, lsn)
        &&& forall|b: u32| b >= n ==> !(#[trigger] block_live(s, rel, b, lsn))
    }
}

/// The page image stored at exactly `key`, if the binding there is one.
pub open spec fn stored_image(s: Seq<EntryView>, key: RepositoryKey) -> Option<Seq<u8>> {
    match lookup(s, key) {
        Some(PageVersionView::Image(img)) => Some(img),
        _ => None,
    }
}

/// What `get_range` returns: `(0, 0)` when no block of `rel` exists at
/// `lsn`, else the smallest live block and one past the largest.  A block
/// exists when its latest version at-or-before `lsn` is there and is not a
/// drop sentinel, exactly as `get_relsize` counts; the upper bound is the
/// relation size.
pub open spec fn range_post(s: Seq<EntryView>, rel: RelTag, lsn: u64, r: (u32, u32)) -> bool {
    if r.1 == 0 {
        r.0 == 0 && forall|b: u32| !(#[trigger] block_live(s, rel, b, lsn))
    } else {
        &&& r.0 < r.1
        &&& block_live(s, rel, r.0, lsn)
        &&& block_live(s, rel, (r.1 - 1) as u32, lsn)
        &&& forall|b: u32| b < r.0 ==> !(#[trigger] block_live(s, rel, b, lsn))
        &&& forall|b: u32| b >= r.1 ==> !(#[trigger] block_live(s, rel, b, lsn))
    }
}

/// Block `b` of `rel` has a stored version at any LSN.
pub open spec fn block_has_version(s: Seq<EntryView>, rel: RelTag, b: u32) -> bool {
    exists|i: int| 0 <= i < s.len() && (#[trigger] s[i]).key.tag == block_tag(rel, b)
}

/// What truncating `rel` to `nblocks` blocks at `lsn` does to the keyspace:
/// every block at-or-past `nblocks` that has any stored version gets a drop
/// sentinel at `lsn`; every other binding is untouched.
pub open spec fn truncate_effect(
    pre: Seq<EntryView>,
    post: Seq<EntryView>,
    rel: RelTag,
    lsn: Lsn,
    nblocks: u32,
) -> bool {
    forall|k: RepositoryKey|
        #[trigger] lookup(post, k) == (if k.tag.rel == rel && k.lsn == lsn && k.tag.blknum
            >= nblocks && block_has_version(pre, rel, k.tag.blknum) {
            Some(PageVersionView::Dropped)
        } else {
            lookup(pre, k)
        })
}

/// The latest version of `tag` at-or-before `lsn`: the version with the
/// largest LSN not exceeding `lsn`, with that LSN.
pub open spec fn latest_le(s: Seq<EntryView>, tag: BufferTag, lsn: u64) -> Option<
    (u64, PageVersionView),
>
    decreases s.len(),
{
    if s.len() == 0 {
        None
    } else {
        let rest = latest_le(s.drop_last(), tag, lsn);
        let e = s.last();
        if e.key.tag == tag && e.key.lsn.0 <= lsn {
            match rest {
                None => Some((e.key.lsn.0, e.value)),
                Some(p) => if e.key.lsn.0 >= p.0 {
                    Some((e.key.lsn.0, e.value))
                } else {
                    Some(p)
                },
            }
        } else {
            rest
        }
    }
}

/// What `latest_le` returns: nothing exactly when no version of `tag` sits
/// at-or-before `lsn`; otherwise a stored version of `tag` whose LSN is the
/// largest one not exceeding `lsn`.
pub proof fn lemma_latest_le_props(s: Seq<EntryView>, tag: BufferTag, lsn: u64)
    ensures
        latest_le(s, tag, lsn) is None ==> forall|i: int|
            0 <= i < s.len() ==> !((#[trigger] s[i]).key.tag == tag && s[i].key.lsn.0 <= lsn),
        latest_le(s, tag, lsn) matches Some(p) ==> {
            &&& p.0 <= lsn
            &&& exists|i: int|
                0 <= i < s.len() && (#[trigger] s[i]).key == (RepositoryKey {
                    tag,
                    lsn: Lsn(p.0),
                }) && s[i].value == p.1
            &&& forall|i: int|
                0 <= i < s.len() && (#[trigger] s[i]).key.tag == tag && s[i].key.lsn.0 <= lsn
                    ==> s[i].key.lsn.0 <= p.0
        },
    decreases s.len(),
{
    if s.len() > 0 {
        let s0 = s.drop_last();
        lemma_latest_le_props(s0, tag, lsn);
        let e = s.last();
        assert(e == s[s.len() - 1]);
        match latest_le(s, tag, lsn) {
            None => {
                assert(latest_le(s0, tag, lsn) is None);
                assert(!(e.key.tag == tag && e.key.lsn.0 <= lsn));
                assert forall|i: int| 0 <= i < s.len() implies !((#[trigger] s[i]).key.tag == tag
                    && s[i].key.lsn.0 <= lsn) by {
                    if i < s.len() - 1 {
                        assert(s0[i] == s[i]);
                        assert(!(s0[i].key.tag == tag && s0[i].key.lsn.0 <= lsn));
                    }
                }
            },
            Some(p) => {
                if e.key.tag == tag && e.key.lsn.0 <= lsn {
                    match latest_le(s0, tag, lsn) {
                        None => {
                            assert(p == (e.key.lsn.0, e.value));
                            assert(s[s.len() - 1].key == (RepositoryKey { tag, lsn: Lsn(p.0) })
                                && s[s.len() - 1].value == p.1);
                            assert forall|i: int|
                                0 <= i < s.len() && (#[trigger] s[i]).key.tag == tag
                                    && s[i].key.lsn.0 <= lsn implies s[i].key.lsn.0 <= p.0 by {
                                if i < s.len() - 1 {
                                    assert(s0[i] == s[i]);
                                    assert(!(s0[i].key.tag == tag && s0[i].key.lsn.0 <= lsn));
                                }
                            }
                        },
                        Some(q) => {
                            if e.key.lsn.0 >= q.0 {
                                assert(p == (e.key.lsn.0, e.value));
                                assert(s[s.len() - 1].key == (RepositoryKey { tag, lsn: Lsn(p.0) })
                                    && s[s.len() - 1].value == p.1);
                            } else {
                                assert(p == q);
                                let i0 = choose|i: int|
                                    0 <= i < s0.len() && (#[trigger] s0[i]).key == (RepositoryKey {
                                        tag,
                                        lsn: Lsn(q.0),
                                    }) && s0[i].value == q.1;
                                assert(s[i0] == s0[i0]);
                                assert(s[i0].key == (RepositoryKey { tag, lsn: Lsn(p.0) })
                                    && s[i0].value == p.1);
                            }
                            assert forall|i: int|
                                0 <= i < s.len() && (#[trigger] s[i]).key.tag == tag
                                    && s[i].key.lsn.0 <= lsn implies s[i].key.lsn.0 <= p.0 by {
                                if i < s.len() - 1 {
                                    assert(s0[i] == s[i]);
                                    assert(s0[i].key.lsn.0 <= q.0);
                                }
                            }
                        },
                    }
                } else {
                    assert(latest_le(s0, tag, lsn) == Some(p));
                    let i0 = choose|i: int|
                        0 <= i < s0.len() && (#[trigger] s0[i]).key == (RepositoryKey {
                            tag,
                            lsn: Lsn(p.0),
                        }) && s0[i].value == p.1;
                    assert(s[i0] == s0[i0]);
                    assert(s[i0].key == (RepositoryKey { tag, lsn: Lsn(p.0) }) && s[i0].value
                        == p.1);
                    assert forall|i: int|
                        0 <= i < s.len() && (#[trigger] s[i]).key.tag == tag && s[i].key.lsn.0
                            <= lsn implies s[i].key.lsn.0 <= p.0 by {
                        if i < s.len() - 1 {
                            assert(s0[i] == s[i]);
                            assert(s0[i].key.lsn.0 <= p.0);
                        }
                    }
                }
            },
        }
    }
}

/// When no version of `tag` sits at-or-before `lsn`, `latest_le` is empty.
pub proof fn lemma_latest_le_none(s: Seq<EntryView>, tag: BufferTag, lsn: u64)
    requires
        forall|i: int|
            0 <= i < s.len() ==> !((#[trigger] s[i]).key.tag == tag && s[i].key.lsn.0 <= lsn),
    ensures
        latest_le(s, tag, lsn) is None,
{
    lemma_latest_le_props(s, tag, lsn);
    match latest_le(s, tag, lsn) {
        None => {
        },
        Some(p) => {
            let i = choose|i: int|
                0 <= i < s.len() && (#[trigger] s[i]).key == (RepositoryKey { tag, lsn: Lsn(p.0) })
                    && s[i].value == p.1;
            assert(s[i].key.tag == tag && s[i].key.lsn.0 <= lsn);
        },
    }
}

/// When entry `i` is a version of `tag` at-or-before `lsn` and every entry
/// after it sits beyond the key `(tag, lsn)`, entry `i` is the latest
/// version of `tag` at-or-before `lsn`.
pub proof fn lemma_latest_le_at(s: Seq<EntryView>, tag: BufferTag, lsn: u64, i: int)
    requires
        entries_sorted(s),
        0 <= i < s.len(),
        s[i].key.tag == tag,
        s[i].key.lsn.0 <= lsn,
        forall|j: int|
            i < j < s.len() ==> key_lt(RepositoryKey { tag, lsn: Lsn(lsn) }, (#[trigger] s[j]).key),
    ensures
        latest_le(s, tag, lsn) == Some((s[i].key.lsn.0, s[i].value)),
{
    lemma_latest_le_props(s, tag, lsn);
    match latest_le(s, tag, lsn) {
        None => {
            assert(!(s[i].key.tag == tag && s[i].key.lsn.0 <= lsn));
        },
        Some(p) => {
            let i2 = choose|j: int|
                0 <= j < s.len() && (#[trigger] s[j]).key == (RepositoryKey { tag, lsn: Lsn(p.0) })
                    && s[j].value == p.1;
            assert(s[i].key.lsn.0 <= p.0);
            if i2 < i {
                assert(key_lt(s[i2].key, s[i].key));
            } else if i2 > i {
                assert(key_lt(RepositoryKey { tag, lsn: Lsn(lsn) }, s[i2].key));
            }
            assert(i2 == i);
        },
    }
}

/// The forks CREATE DATABASE copies from the template database.
pub open spec fn fork_in_clone_set(f: u8) -> bool {
    f == MAIN_FORKNUM || f == FSM_FORKNUM || f == VISIBILITYMAP_FORKNUM || f == INIT_FORKNUM || f
        == PG_FILENODEMAP_FORKNUM
}

/// The source tag that the clone key `k` was copied from.
pub open spec fn clone_source_tag(k: RepositoryKey, src_ts: u32, src_db: u32) -> BufferTag {
    BufferTag {
        rel: RelTag {
            forknum: k.tag.rel.forknum,
            spcnode: src_ts,
            dbnode: src_db,
            relnode: k.tag.rel.relnode,
        },
        blknum: k.tag.blknum,
    }
}

/// The clone key a source key is copied to.
pub open spec fn clone_dest_key(k: RepositoryKey, lsn: Lsn, ts: u32, db: u32) -> RepositoryKey {
    RepositoryKey {
        tag: BufferTag {
            rel: RelTag {
                forknum: k.tag.rel.forknum,
                spcnode: ts,
                dbnode: db,
                relnode: k.tag.rel.relnode,
            },
            blknum: k.tag.blknum,
        },
        lsn,
    }
}

/// A key of the template database's subspace, in a copied fork.
pub open spec fn clone_source_pattern(k: RepositoryKey, src_ts: u32, src_db: u32) -> bool {
    k.tag.rel.spcnode == src_ts && k.tag.rel.dbnode == src_db && fork_in_clone_set(
        k.tag.rel.forknum,
    )
}

/// What CREATE DATABASE does to the keyspace: every block with a version in
/// the template database's copied forks appears in the new database at
/// `lsn`, bound to the latest version stored for it; everything else is
/// untouched.
pub open spec fn create_database_effect(
    pre: Seq<EntryView>,
    post: Seq<EntryView>,
    lsn: Lsn,
    db: u32,
    ts: u32,
    src_db: u32,
    src_ts: u32,
) -> bool {
    forall|k: RepositoryKey|
        #[trigger] lookup(post, k) == (if k.lsn == lsn && k.tag.rel.spcnode == ts
            && k.tag.rel.dbnode == db && fork_in_clone_set(k.tag.rel.forknum) && latest_le(
            pre,
            clone_source_tag(k, src_ts, src_db),
            u64::MAX,
        ) is Some {
            Some(latest_le(pre, clone_source_tag(k, src_ts, src_db), u64::MAX).unwrap().1)
        } else {
            lookup(pre, k)
        })
}

/// The key one decoded block's effect lands on.
pub open spec fn block_key(blk: DecodedBkpBlock, lsn: Lsn) -> RepositoryKey {
    RepositoryKey {
        tag: BufferTag {
            rel: RelTag {
                forknum: blk.forknum,
                spcnode: blk.rnode_spcnode,
                dbnode: blk.rnode_dbnode,
                relnode: blk.rnode_relnode,
            },
            blknum: blk.blkno,
        },
        lsn,
    }
}

/// The value one decoded block's effect stores: a drop sentinel, or a copy
/// of the record marked initialising when it needs no earlier base.
pub open spec fn block_value(
    blk: DecodedBkpBlock,
    recdata: Seq<u8>,
    mdo: u32,
    lsn: Lsn,
) -> PageVersionView {
    if blk.will_drop {
        PageVersionView::Dropped
    } else {
        PageVersionView::Record(
            WALRecordView {
                lsn,
                will_init: blk.will_init || blk.apply_image,
                rec: recdata,
                main_data_offset: mdo,
            },
        )
    }
}

/// The last block of the record whose effect lands on `k`, if any: with
/// several blocks on one key, the last one wins.
pub open spec fn last_block_for(
    blocks: Seq<DecodedBkpBlock>,
    k: RepositoryKey,
    lsn: Lsn,
) -> Option<DecodedBkpBlock>
    decreases blocks.len(),
{
    if blocks.len() == 0 {
        None
    } else if block_key(blocks.last(), lsn) == k {
        Some(blocks.last())
    } else {
        last_block_for(blocks.drop_last(), k, lsn)
    }
}

/// What the per-block fan-out of one record does to the keyspace: each
/// affected block gets its effect at `lsn`, everything else is untouched.
pub open spec fn fanout_effect(
    pre: Seq<EntryView>,
    post: Seq<EntryView>,
    blocks: Seq<DecodedBkpBlock>,
    recdata: Seq<u8>,
    mdo: u32,
    lsn: Lsn,
) -> bool {
    forall|k: RepositoryKey|
        #[trigger] lookup(post, k) == (match last_block_for(blocks, k, lsn) {
            Some(blk) => Some(block_value(blk, recdata, mdo, lsn)),
            None => lookup(pre, k),
        })
}

/// The collected template entries are latest versions of distinct blocks of
/// the template's copied forks, in key order.
pub open spec fn clone_coll_sound(
    s0: Seq<EntryView>,
    c: Seq<EntryView>,
    src_ts: u32,
    src_db: u32,
) -> bool {
    &&& forall|a: int|
        0 <= a < c.len() ==> {
            let e = #[trigger] c[a];
            &&& clone_source_pattern(e.key, src_ts, src_db)
            &&& latest_le(s0, e.key.tag, u64::MAX) == Some((e.key.lsn.0, e.value))
            &&& e.key.tag.blknum < INVALID_BLOCK_NUMBER
        }
    &&& forall|a: int, b: int|
        0 <= a < b < c.len() ==> (#[trigger] c[a]).key != (#[trigger] c[b]).key
}

/// Every collected entry is one of the first `upto` stored entries.
pub open spec fn clone_coll_from(
    s0: Seq<EntryView>,
    c: Seq<EntryView>,
    upto: int,
) -> bool {
    forall|a: int|
        0 <= a < c.len() ==> exists|j: int| 0 <= j < upto && (#[trigger] c[a]) == s0[j]
}

/// Every latest template version among the first `upto` entries was
/// collected.
pub open spec fn clone_coll_complete(
    s0: Seq<EntryView>,
    c: Seq<EntryView>,
    src_ts: u32,
    src_db: u32,
    upto: int,
) -> bool {
    forall|j: int|
        0 <= j < upto && clone_source_pattern((#[trigger] s0[j]).key, src_ts, src_db) && (j
            == s0.len() - 1 || s0[j + 1].key.tag != s0[j].key.tag) ==> exists|a: int|
            0 <= a < c.len() && (#[trigger] c[a]) == s0[j]
}

/// Pushing the last version of the next template block keeps the collection
/// sound and complete.
proof fn lemma_clone_collect_push(
    s0: Seq<EntryView>,
    prev: Seq<EntryView>,
    cur: Seq<EntryView>,
    i: int,
    src_ts: u32,
    src_db: u32,
)
    requires
        entries_sorted(s0),
        blocks_bounded(s0),
        0 <= i < s0.len(),
        clone_source_pattern(s0[i].key, src_ts, src_db),
        i == s0.len() - 1 || s0[i + 1].key.tag != s0[i].key.tag,
        cur == prev.push(s0[i]),
        clone_coll_sound(s0, prev, src_ts, src_db),
        clone_coll_from(s0, prev, i),
        clone_coll_complete(s0, prev, src_ts, src_db, i),
    ensures
        clone_coll_sound(s0, cur, src_ts, src_db),
        clone_coll_from(s0, cur, i + 1),
        clone_coll_complete(s0, cur, src_ts, src_db, i + 1),
{
    let tag = s0[i].key.tag;
    assert forall|j: int|
        i < j < s0.len() implies key_lt(
        RepositoryKey { tag, lsn: Lsn(u64::MAX) },
        (#[trigger] s0[j]).key,
    ) by {
        assert(key_lt(s0[i].key, s0[j].key));
        if j == i + 1 {
            assert(s0[j].key.tag != tag);
            assert(crate::tag::tag_lt(tag, s0[j].key.tag));
        } else {
            assert(key_lt(s0[i + 1].key, s0[j].key));
            assert(s0[i + 1].key.tag != tag);
            assert(crate::tag::tag_lt(tag, s0[i + 1].key.tag));
        }
    }
    lemma_latest_le_at(s0, tag, u64::MAX, i);
    assert forall|a: int|
        0 <= a < cur.len() implies {
        let e = #[trigger] cur[a];
        &&& clone_source_pattern(e.key, src_ts, src_db)
        &&& latest_le(s0, e.key.tag, u64::MAX) == Some((e.key.lsn.0, e.value))
        &&& e.key.tag.blknum < INVALID_BLOCK_NUMBER
    } by {
        if a < prev.len() {
            assert(cur[a] == prev[a]);
        } else {
            assert(cur[a] == s0[i]);
        }
    }
    assert forall|a: int|
        0 <= a < cur.len() implies exists|j: int| 0 <= j < i + 1 && (#[trigger] cur[a]) == s0[j] by {
        if a < prev.len() {
            assert(cur[a] == prev[a]);
            let j = choose|j: int| 0 <= j < i && (#[trigger] prev[a]) == s0[j];
            assert(cur[a] == s0[j]);
        } else {
            assert(cur[a] == s0[i]);
        }
    }
    assert forall|a: int, b: int|
        0 <= a < b < cur.len() implies (#[trigger] cur[a]).key != (#[trigger] cur[b]).key by {
        if b < prev.len() {
            assert(cur[a] == prev[a] && cur[b] == prev[b]);
        } else {
            assert(cur[b] == s0[i]);
            assert(cur[a] == prev[a]);
            let j = choose|j: int| 0 <= j < i && (#[trigger] prev[a]) == s0[j];
            assert(key_lt(s0[j].key, s0[i].key));
        }
    }
    assert forall|j: int|
        0 <= j < i + 1 && clone_source_pattern((#[trigger] s0[j]).key, src_ts, src_db) && (j
            == s0.len() - 1 || s0[j + 1].key.tag != s0[j].key.tag) implies exists|a: int|
        0 <= a < cur.len() && (#[trigger] cur[a]) == s0[j] by {
        if j < i {
            let a = choose|a: int| 0 <= a < prev.len() && (#[trigger] prev[a]) == s0[j];
            assert(cur[a] == s0[j]);
        } else {
            assert(cur[cur.len() - 1] == s0[j]);
        }
    }
}

/// Skipping a non-final version of a template block keeps the collection
/// complete: only the last version of each block is owed.
proof fn lemma_clone_collect_skip(
    s0: Seq<EntryView>,
    c: Seq<EntryView>,
    i: int,
    src_ts: u32,
    src_db: u32,
)
    requires
        0 <= i < s0.len(),
        clone_coll_complete(s0, c, src_ts, src_db, i),
        i < s0.len() - 1 && s0[i + 1].key.tag == s0[i].key.tag,
    ensures
        clone_coll_complete(s0, c, src_ts, src_db, i + 1),
{
}

/// The commit-log page tag that holds `xid`'s status bits.
pub open spec fn clog_page_tag(xid: u32) -> BufferTag {
    BufferTag {
        rel: RelTag { forknum: PG_XACT_FORKNUM, spcnode: 0, dbnode: 0, relnode: 0 },
        blknum: xid / CLOG_XACTS_PER_PAGE,
    }
}

/// `xid` is keyed among the first `upto` entries in the two-phase
/// pseudo-fork at-or-before `lsn`.
pub open spec fn twophase_candidate_upto(s: Seq<EntryView>, lsn: u64, xid: u32, upto: int) -> bool {
    exists|j: int|
        0 <= j < upto && j < s.len() && (#[trigger] s[j]).key.tag.rel.forknum
            == PG_TWOPHASE_FORKNUM && s[j].key.lsn.0 <= lsn && s[j].key.tag.blknum == xid
}

/// `xid` is keyed in the two-phase pseudo-fork at-or-before `lsn`.
pub open spec fn twophase_candidate(s: Seq<EntryView>, lsn: u64, xid: u32) -> bool {
    twophase_candidate_upto(s, lsn, xid, s.len() as int)
}

/// The commit log decides `xid` without redo: reading its commit-log page
/// at `lsn` finds a stored image long enough to hold its status bits.
pub open spec fn clog_image_decided(s: Seq<EntryView>, lsn: u64, xid: u32) -> bool {
    &&& reconstruct(s, clog_page_tag(xid), lsn) is Page
    &&& tx_status_byteno(xid) < reconstruct(s, clog_page_tag(xid), lsn)->Page_0.len()
}

/// The status bits that stored image gives `xid`; meaningful under
/// [`clog_image_decided`].
pub open spec fn clog_image_status(s: Seq<EntryView>, lsn: u64, xid: u32) -> u8 {
    tx_status_of(xid, reconstruct(s, clog_page_tag(xid), lsn)->Page_0)
}

/// Whether `v` holds `r`.
fn rels_contain(v: &Vec<RelTag>, r: RelTag) -> (ret: bool)
    ensures
        ret == v@.contains(r),
{
    let n = v.len();
    let mut i: usize = 0;
    while i < n
        invariant
            n == v@.len(),
            i <= n,
            forall|j: int| 0 <= j < i ==> v@[j] != r,
        decreases n - i,
    {
        if v[i] == r {
            return true;
        }
        i += 1;
    }
    false
}

/// The outcome of reading one block at one LSN, before redo.
pub enum ReconstructView {
    /// No version at-or-before the LSN, a drop sentinel in effect, or a
    /// broken chain: the page does not exist there.
    NotFound,
    /// The latest version is a page image: the page itself, no redo needed.
    Page(Seq<u8>),
    /// The page must be redone from an optional base image plus WAL records
    /// in forward LSN order; the base is absent exactly when the first
    /// record initialises the page.
    Redo(Option<Seq<u8>>, Seq<WALRecordView>),
}

/// What reading `tag` at `lsn` finds: walk back from the latest version
/// at-or-before `lsn`, collecting WAL records until an image or an
/// initialising record closes the chain.
pub open spec fn reconstruct(s: Seq<EntryView>, tag: BufferTag, lsn: u64) -> ReconstructView
    decreases lsn,
{
    match latest_le(s, tag, lsn) {
        None => ReconstructView::NotFound,
        Some(p) => match p.1 {
            PageVersionView::Dropped => ReconstructView::NotFound,
            PageVersionView::Image(img) => ReconstructView::Page(img),
            PageVersionView::Record(w) => if w.will_init {
                ReconstructView::Redo(None, seq![w])
            } else if 1 <= p.0 <= lsn {
                match reconstruct(s, tag, (p.0 - 1) as u64) {
                    ReconstructView::NotFound => ReconstructView::NotFound,
                    ReconstructView::Page(img) => ReconstructView::Redo(Some(img), seq![w]),
                    ReconstructView::Redo(b, rs) => ReconstructView::Redo(b, rs.push(w)),
                }
            } else {
                ReconstructView::NotFound
            },
        },
    }
}

/// A chain that needs redo holds at least one record.
pub proof fn lemma_reconstruct_redo_nonempty(s: Seq<EntryView>, tag: BufferTag, lsn: u64)
    ensures
        reconstruct(s, tag, lsn) matches ReconstructView::Redo(b, rs) ==> rs.len() >= 1,
    decreases lsn,
{
    match latest_le(s, tag, lsn) {
        None => {},
        Some(p) => match p.1 {
            PageVersionView::Record(w) => {
                if !w.will_init && 1 <= p.0 <= lsn {
                    lemma_reconstruct_redo_nonempty(s, tag, (p.0 - 1) as u64);
                }
            },
            _ => {},
        },
    }
}

/// A latest version that already sits at-or-before a smaller bound is also
/// the latest version under that smaller bound.
pub proof fn lemma_latest_le_shrink(s: Seq<EntryView>, tag: BufferTag, l1: u64, l2: u64)
    requires
        entries_sorted(s),
        l1 <= l2,
        latest_le(s, tag, l2) matches Some(p) && p.0 <= l1,
    ensures
        latest_le(s, tag, l1) == latest_le(s, tag, l2),
{
    let p = latest_le(s, tag, l2).unwrap();
    lemma_latest_le_props(s, tag, l2);
    lemma_latest_le_props(s, tag, l1);
    let iw = choose|i: int|
        0 <= i < s.len() && (#[trigger] s[i]).key == (RepositoryKey { tag, lsn: Lsn(p.0) })
            && s[i].value == p.1;
    match latest_le(s, tag, l1) {
        None => {
            assert(s[iw].key.tag == tag && s[iw].key.lsn.0 <= l1);
            assert(false);
        },
        Some(q) => {
            assert(q.0 <= p.0);
            assert(p.0 <= q.0);
            let jw = choose|i: int|
                0 <= i < s.len() && (#[trigger] s[i]).key == (RepositoryKey { tag, lsn: Lsn(q.0) })
                    && s[i].value == q.1;
            assert(s[iw].key == s[jw].key);
            if iw < jw {
                assert(key_lt(s[iw].key, s[jw].key));
            } else if jw < iw {
                assert(key_lt(s[jw].key, s[iw].key));
            }
            assert(q.1 == p.1);
        },
    }
}

/// Reads are stable between writes: when no version of `tag` lies in
/// `(l1, l2]`, reading at `l2` finds exactly what reading at `l1` finds.
pub proof fn lemma_read_stability(s: Seq<EntryView>, tag: BufferTag, l1: u64, l2: u64)
    requires
        entries_sorted(s),
        l1 <= l2,
        forall|i: int|
            0 <= i < s.len() && (#[trigger] s[i]).key.tag == tag ==> (s[i].key.lsn.0 <= l1
                || s[i].key.lsn.0 > l2),
    ensures
        reconstruct(s, tag, l2) == reconstruct(s, tag, l1),
{
    lemma_latest_le_props(s, tag, l2);
    match latest_le(s, tag, l2) {
        None => {
            assert forall|i: int|
                0 <= i < s.len() implies !((#[trigger] s[i]).key.tag == tag && s[i].key.lsn.0
                <= l1) by {}
            lemma_latest_le_none(s, tag, l1);
        },
        Some(p) => {
            let iw = choose|i: int|
                0 <= i < s.len() && (#[trigger] s[i]).key == (RepositoryKey { tag, lsn: Lsn(p.0) })
                    && s[i].value == p.1;
            assert(s[iw].key.tag == tag);
            assert(p.0 <= l1);
            lemma_latest_le_shrink(s, tag, l1, l2);
        },
    }
}

/// Reads extend monotonically along the WAL (the redo-chain law): when the
/// reads of `tag` at `l1` and at a later `l2` both need redo, the later
/// chain either starts from the same base and begins with exactly the
/// earlier chain's records, or was closed by a page image or initialising
/// record written after `l1`.
pub proof fn lemma_chain_prefix(s: Seq<EntryView>, tag: BufferTag, l1: u64, l2: u64)
    requires
        entries_sorted(s),
        l1 <= l2,
        reconstruct(s, tag, l1) is Redo,
        reconstruct(s, tag, l2) is Redo,
    ensures
        ({
            let r1 = reconstruct(s, tag, l1);
            let r2 = reconstruct(s, tag, l2);
            ||| {
                &&& r1->Redo_0 == r2->Redo_0
                &&& r1->Redo_1.len() <= r2->Redo_1.len()
                &&& r2->Redo_1.subrange(0, r1->Redo_1.len() as int) == r1->Redo_1
            }
            ||| exists|i: int|
                {
                    &&& 0 <= i < s.len()
                    &&& (#[trigger] s[i]).key.tag == tag
                    &&& l1 < s[i].key.lsn.0 <= l2
                    &&& (s[i].value is Image || (s[i].value matches PageVersionView::Record(w)
                        && w.will_init))
                }
        }),
    decreases l2,
{
    let r1 = reconstruct(s, tag, l1);
    let r2 = reconstruct(s, tag, l2);
    lemma_latest_le_props(s, tag, l2);
    let p = latest_le(s, tag, l2).unwrap();
    let w = p.1->Record_0;
    if p.0 <= l1 {
        lemma_latest_le_shrink(s, tag, l1, l2);
        assert(r1 == r2);
        assert(r2->Redo_1.subrange(0, r1->Redo_1.len() as int) =~= r1->Redo_1);
    } else {
        let iw = choose|i: int|
            0 <= i < s.len() && (#[trigger] s[i]).key == (RepositoryKey { tag, lsn: Lsn(p.0) })
                && s[i].value == p.1;
        if w.will_init {
            assert(s[iw].key.tag == tag && l1 < s[iw].key.lsn.0 <= l2);
            assert(s[iw].value matches PageVersionView::Record(w2) && w2.will_init);
        } else {
            let l2p = (p.0 - 1) as u64;
            match reconstruct(s, tag, l2p) {
                ReconstructView::NotFound => {
                    assert(false);
                },
                ReconstructView::Page(img) => {
                    lemma_latest_le_props(s, tag, l2p);
                    let q = latest_le(s, tag, l2p).unwrap();
                    let jw = choose|i: int|
                        0 <= i < s.len() && (#[trigger] s[i]).key == (RepositoryKey {
                            tag,
                            lsn: Lsn(q.0),
                        }) && s[i].value == q.1;
                    if q.0 <= l1 {
                        lemma_latest_le_shrink(s, tag, l1, l2p);
                        assert(reconstruct(s, tag, l1) is Page);
                        assert(false);
                    }
                    assert(s[jw].key.tag == tag && l1 < s[jw].key.lsn.0 <= l2);
                    assert(s[jw].value is Image);
                },
                ReconstructView::Redo(b, rs) => {
                    lemma_chain_prefix(s, tag, l1, l2p);
                    let rp = reconstruct(s, tag, l2p);
                    if rp->Redo_0 == r1->Redo_0 && r1->Redo_1.len() <= rp->Redo_1.len()
                        && rp->Redo_1.subrange(0, r1->Redo_1.len() as int) == r1->Redo_1 {
                        assert(r2->Redo_1 == rp->Redo_1.push(w));
                        assert(r2->Redo_1.subrange(0, r1->Redo_1.len() as int) =~= rp
                            ->Redo_1.subrange(0, r1->Redo_1.len() as int));
                    } else {
                        let i = choose|i: int|
                            {
                                &&& 0 <= i < s.len()
                                &&& (#[trigger] s[i]).key.tag == tag
                                &&& l1 < s[i].key.lsn.0 <= l2p
                                &&& (s[i].value is Image || (s[i].value
                                    matches PageVersionView::Record(w2) && w2.will_init))
                            };
                        assert(s[i].key.tag == tag && l1 < s[i].key.lsn.0 <= l2);
                    }
                },
            }
        }
    }
}

/// Appending later records onto the outcome of an earlier read: how the
/// backward walk composes.
pub open spec fn extend_chain(r: ReconstructView, rs: Seq<WALRecordView>) -> ReconstructView {
    match r {
        ReconstructView::NotFound => ReconstructView::NotFound,
        ReconstructView::Page(img) => if rs.len() == 0 {
            ReconstructView::Page(img)
        } else {
            ReconstructView::Redo(Some(img), rs)
        },
        ReconstructView::Redo(b, rs0) => ReconstructView::Redo(b, rs0 + rs),
    }
}

/// Two keyspaces that bind the versions of `tag` identically have the same
/// latest version of `tag` at every LSN.
pub proof fn lemma_latest_le_same_bindings(
    s1: Seq<EntryView>,
    s2: Seq<EntryView>,
    tag: BufferTag,
    lsn: u64,
)
    requires
        entries_sorted(s1),
        entries_sorted(s2),
        forall|l: u64|
            #[trigger] lookup(s1, RepositoryKey { tag, lsn: Lsn(l) }) == lookup(
                s2,
                RepositoryKey { tag, lsn: Lsn(l) },
            ),
    ensures
        latest_le(s1, tag, lsn) == latest_le(s2, tag, lsn),
{
    lemma_latest_le_props(s1, tag, lsn);
    lemma_latest_le_props(s2, tag, lsn);
    match latest_le(s1, tag, lsn) {
        None => {
            match latest_le(s2, tag, lsn) {
                None => {},
                Some(p) => {
                    let k = RepositoryKey { tag, lsn: Lsn(p.0) };
                    let i2 = choose|i: int|
                        0 <= i < s2.len() && (#[trigger] s2[i]).key == k && s2[i].value == p.1;
                    lemma_lookup_at(s2, k, i2);
                    assert(lookup(s1, k) == Some(p.1));
                    lemma_lookup_some_iff(s1, k);
                    let i1 = choose|i: int| 0 <= i < s1.len() && (#[trigger] s1[i]).key == k;
                    assert(s1[i1].key.tag == tag && s1[i1].key.lsn.0 <= lsn);
                    assert(false);
                },
            }
        },
        Some(p) => {
            let k1 = RepositoryKey { tag, lsn: Lsn(p.0) };
            let i1 = choose|i: int|
                0 <= i < s1.len() && (#[trigger] s1[i]).key == k1 && s1[i].value == p.1;
            lemma_lookup_at(s1, k1, i1);
            assert(lookup(s2, k1) == Some(p.1));
            lemma_lookup_some_iff(s2, k1);
            let i2 = choose|i: int| 0 <= i < s2.len() && (#[trigger] s2[i]).key == k1;
            assert(s2[i2].key.tag == tag && s2[i2].key.lsn.0 <= lsn);
            match latest_le(s2, tag, lsn) {
                None => {
                    assert(false);
                },
                Some(q) => {
                    assert(q.0 >= p.0);
                    let k2 = RepositoryKey { tag, lsn: Lsn(q.0) };
                    let j2 = choose|i: int|
                        0 <= i < s2.len() && (#[trigger] s2[i]).key == k2 && s2[i].value == q.1;
                    lemma_lookup_at(s2, k2, j2);
                    assert(lookup(s1, k2) == Some(q.1));
                    lemma_lookup_some_iff(s1, k2);
                    let j1 = choose|i: int| 0 <= i < s1.len() && (#[trigger] s1[i]).key == k2;
                    assert(s1[j1].key.tag == tag && s1[j1].key.lsn.0 <= lsn);
                    assert(p.0 >= q.0);
                    assert(k1 == k2);
                    assert(q.1 == p.1);
                },
            }
        },
    }
}

/// After truncating `rel` to `n` blocks at LSN `l`, the relation size at any
/// `l2` at-or-past `l` is `n`, as long as nothing of `rel` was written after
/// `l` (the keyspaces here differ only by the truncation) and block `n - 1`
/// itself existed.  A relation with a gap just below `n` is excluded: there
/// the size falls to the largest remaining live block.
pub proof fn lemma_truncation_fixes_relsize(
    pre: Seq<EntryView>,
    post: Seq<EntryView>,
    rel: RelTag,
    l: u64,
    n: u32,
    l2: u64,
)
    requires
        entries_sorted(pre),
        entries_sorted(post),
        truncate_effect(pre, post, rel, Lsn(l), n),
        l2 >= l,
        forall|i: int|
            0 <= i < pre.len() && (#[trigger] pre[i]).key.tag.rel == rel ==> pre[i].key.lsn.0 <= l,
        n == 0 || block_live(pre, rel, (n - 1) as u32, l2),
    ensures
        relsize_post(post, rel, l2, n),
{
    assert forall|b: u32| b >= n implies !(#[trigger] block_live(post, rel, b, l2)) by {
        let tag = block_tag(rel, b);
        if block_has_version(pre, rel, b) {
            let dk = RepositoryKey { tag, lsn: Lsn(l) };
            assert(lookup(post, dk) == Some(PageVersionView::Dropped));
            lemma_lookup_some_iff(post, dk);
            lemma_latest_le_props(post, tag, l2);
            assert forall|i: int|
                0 <= i < post.len() && (#[trigger] post[i]).key.tag == tag
                    implies post[i].key.lsn.0 <= l by {
                let k = post[i].key;
                lemma_lookup_at(post, k, i);
                if !(k.tag.rel == rel && k.lsn == Lsn(l) && k.tag.blknum >= n
                    && block_has_version(pre, rel, k.tag.blknum)) {
                    assert(lookup(pre, k) is Some);
                    lemma_lookup_some_iff(pre, k);
                    let j = choose|j: int| 0 <= j < pre.len() && (#[trigger] pre[j]).key == k;
                    assert(pre[j].key.tag.rel == rel);
                }
            }
            match latest_le(post, tag, l2) {
                None => {
                    let i = choose|i: int| 0 <= i < post.len() && (#[trigger] post[i]).key == dk;
                    assert(post[i].key.tag == tag && post[i].key.lsn.0 <= l2);
                    assert(false);
                },
                Some(p) => {
                    let i = choose|i: int| 0 <= i < post.len() && (#[trigger] post[i]).key == dk;
                    assert(post[i].key.tag == tag && post[i].key.lsn.0 <= l2);
                    assert(p.0 >= l);
                    let iw = choose|i: int|
                        0 <= i < post.len() && (#[trigger] post[i]).key == (RepositoryKey {
                            tag,
                            lsn: Lsn(p.0),
                        }) && post[i].value == p.1;
                    assert(p.0 <= l);
                    lemma_lookup_at(post, post[iw].key, iw);
                    assert(lookup(post, dk) == Some(p.1));
                },
            }
        } else {
            lemma_latest_le_props(post, tag, l2);
            match latest_le(post, tag, l2) {
                None => {},
                Some(p) => {
                    let iw = choose|i: int|
                        0 <= i < post.len() && (#[trigger] post[i]).key == (RepositoryKey {
                            tag,
                            lsn: Lsn(p.0),
                        }) && post[i].value == p.1;
                    let k = post[iw].key;
                    lemma_lookup_at(post, k, iw);
                    assert(!(k.tag.blknum >= n && block_has_version(pre, rel, k.tag.blknum))
                        || !(k.tag.rel == rel && k.lsn == Lsn(l)));
                    if k.tag.rel == rel && k.lsn == Lsn(l) && k.tag.blknum >= n
                        && block_has_version(pre, rel, k.tag.blknum) {
                        assert(false);
                    } else {
                        assert(lookup(pre, k) is Some);
                        lemma_lookup_some_iff(pre, k);
                        let j = choose|j: int| 0 <= j < pre.len() && (#[trigger] pre[j]).key == k;
                        assert(pre[j].key.tag == tag);
                        assert(block_has_version(pre, rel, b));
                        assert(false);
                    }
                },
            }
        }
    }
    if n >= 1 {
        let b = (n - 1) as u32;
        let tag = block_tag(rel, b);
        assert forall|l3: u64|
            #[trigger] lookup(post, RepositoryKey { tag, lsn: Lsn(l3) }) == lookup(
                pre,
                RepositoryKey { tag, lsn: Lsn(l3) },
            ) by {
            let k = RepositoryKey { tag, lsn: Lsn(l3) };
            assert(k.tag.blknum < n);
        }
        lemma_latest_le_same_bindings(post, pre, tag, l2);
        assert(block_live(post, rel, b, l2));
    }
}

/// When no block of `rel` is under an effective drop sentinel at `lsn`, the
/// relation size equals one past the largest block among keys with prefix
/// `rel` and LSN at-or-before `lsn`, or zero when there is no such key.
///
/// A relation whose largest blocks were dropped is excluded: there the size
/// counts only live blocks, not dropped ones.
pub proof fn lemma_relsize_is_max_block(s: Seq<EntryView>, rel: RelTag, lsn: u64, n: u32)
    requires
        relsize_post(s, rel, lsn, n),
        forall|b: u32|
            !(#[trigger] latest_le(s, block_tag(rel, b), lsn) matches Some(p) && p.1 is Dropped),
    ensures
        (exists|i: int|
            0 <= i < s.len() && (#[trigger] s[i]).key.tag.rel == rel && s[i].key.lsn.0 <= lsn)
            ==> {
            &&& n >= 1
            &&& exists|i: int|
                0 <= i < s.len() && (#[trigger] s[i]).key.tag.rel == rel && s[i].key.lsn.0 <= lsn
                    && s[i].key.tag.blknum == n - 1
            &&& forall|i: int|
                0 <= i < s.len() && (#[trigger] s[i]).key.tag.rel == rel && s[i].key.lsn.0 <= lsn
                    ==> s[i].key.tag.blknum <= n - 1
        },
        !(exists|i: int|
            0 <= i < s.len() && (#[trigger] s[i]).key.tag.rel == rel && s[i].key.lsn.0 <= lsn)
            ==> n == 0,
{
    assert forall|b: u32|
        #[trigger] block_live(s, rel, b, lsn) <==> exists|i: int|
            0 <= i < s.len() && (#[trigger] s[i]).key.tag == block_tag(rel, b) && s[i].key.lsn.0
                <= lsn by {
        lemma_latest_le_props(s, block_tag(rel, b), lsn);
        if block_live(s, rel, b, lsn) {
        } else {
            match latest_le(s, block_tag(rel, b), lsn) {
                None => {},
                Some(p) => {
                    assert(!(p.1 is Dropped));
                },
            }
        }
    }
    if exists|i: int|
        0 <= i < s.len() && (#[trigger] s[i]).key.tag.rel == rel && s[i].key.lsn.0 <= lsn {
        let i0 = choose|i: int|
            0 <= i < s.len() && (#[trigger] s[i]).key.tag.rel == rel && s[i].key.lsn.0 <= lsn;
        let b0 = s[i0].key.tag.blknum;
        assert(s[i0].key.tag == block_tag(rel, b0));
        assert(block_live(s, rel, b0, lsn));
        assert(n >= 1);
        assert(block_live(s, rel, (n - 1) as u32, lsn));
        let iw = choose|i: int|
            0 <= i < s.len() && (#[trigger] s[i]).key.tag == block_tag(rel, (n - 1) as u32)
                && s[i].key.lsn.0 <= lsn;
        assert(s[iw].key.tag.rel == rel && s[iw].key.lsn.0 <= lsn && s[iw].key.tag.blknum == n
            - 1);
        assert forall|i: int|
            0 <= i < s.len() && (#[trigger] s[i]).key.tag.rel == rel && s[i].key.lsn.0 <= lsn
                implies s[i].key.tag.blknum <= n - 1 by {
            let b = s[i].key.tag.blknum;
            assert(s[i].key.tag == block_tag(rel, b));
            assert(block_live(s, rel, b, lsn));
        }
    } else {
        if n >= 1 {
            assert(block_live(s, rel, (n - 1) as u32, lsn));
            let iw = choose|i: int|
                0 <= i < s.len() && (#[trigger] s[i]).key.tag == block_tag(rel, (n - 1) as u32)
                    && s[i].key.lsn.0 <= lsn;
            assert(s[iw].key.tag.rel == rel && s[iw].key.lsn.0 <= lsn);
        }
    }
}

/// A timeline: one version history, held in an ordered keyspace, with the
/// two counters of the LSN frontier.
///
/// `last_valid_lsn` is the reader frontier: reads wait until it reaches
/// their LSN.  `last_record_lsn` is the WAL resume point: it always sits at
/// a record boundary and never exceeds `last_valid_lsn`.
pub struct Timeline {
    store: OrderedStore,
    last_valid_lsn: u64,
    last_record_lsn: u64,
}

impl Timeline {
    /// The keyspace this timeline holds, as a sequence of entries sorted by
    /// key.
    pub closed spec fn entries(self) -> Seq<EntryView> {
        self.store@
    }

    /// The reader frontier.
    pub closed spec fn valid_lsn(self) -> u64 {
        self.last_valid_lsn
    }

    /// The WAL resume point.
    pub closed spec fn record_lsn(self) -> u64 {
        self.last_record_lsn
    }

    /// The timeline's invariant: the keyspace is sorted by key, block
    /// numbers are valid, and the WAL resume point has not overtaken the
    /// reader frontier.
    pub closed spec fn inv(self) -> bool {
        &&& self.store.inv()
        &&& blocks_bounded(self.store@)
        &&& self.last_record_lsn <= self.last_valid_lsn
    }

    /// The keyspace is sorted whenever the invariant holds.
    pub proof fn lemma_inv_sorted(self)
        requires
            self.inv(),
        ensures
            entries_sorted(self.entries()),
            blocks_bounded(self.entries()),
    {
    }

    /// `last_record_lsn <= last_valid_lsn` always: the WAL resume point
    /// never overtakes the reader frontier.  Every operation preserves
    /// `inv`, so this order holds in every reachable state.
    pub proof fn lemma_frontier_ordered(self)
        requires
            self.inv(),
        ensures
            self.record_lsn() <= self.valid_lsn(),
    {
    }

    /// A fresh, empty timeline with both counters at zero.
    pub fn new() -> (r: Timeline)
        ensures
            r.inv(),
            r.entries() =~= Seq::<EntryView>::empty(),
            r.valid_lsn() == 0,
            r.record_lsn() == 0,
    {
        Timeline { store: OrderedStore::new(), last_valid_lsn: 0, last_record_lsn: 0 }
    }

    /// Sets both counters of a freshly created timeline, so that reads up
    /// to `lsn` are answered rather than blocked.
    pub fn init_valid_lsn(&mut self, lsn: Lsn)
        requires
            old(self).inv(),
        ensures
            final(self).inv(),
            final(self).valid_lsn() == lsn.0,
            final(self).record_lsn() == lsn.0,
            final(self).entries() == old(self).entries(),
    {
        self.last_valid_lsn = lsn.0;
        self.last_record_lsn = lsn.0;
    }

    /// Advances the reader frontier: all WAL before `lsn` has been
    /// digested.  Monotonic; an `lsn` at-or-before the current frontier is
    /// a no-op.
    pub fn advance_last_valid_lsn(&mut self, lsn: Lsn)
        requires
            old(self).inv(),
        ensures
            final(self).inv(),
            final(self).valid_lsn() == if lsn.0 >= old(self).valid_lsn() {
                lsn.0
            } else {
                old(self).valid_lsn()
            },
            final(self).record_lsn() == old(self).record_lsn(),
            final(self).entries() == old(self).entries(),
    {
        if lsn.0 >= self.last_valid_lsn {
            self.last_valid_lsn = lsn.0;
        }
    }

    /// Advances the WAL resume point to the end of a digested record.
    /// Monotonic; carries the reader frontier along so that it never falls
    /// behind the resume point.  This pairs the two advances that a
    /// receiver would otherwise order by hand (resume point first, frontier
    /// after): one call keeps `last_record_lsn <= last_valid_lsn` on its
    /// own, and the receiver may still push the frontier further with
    /// `advance_last_valid_lsn`.
    pub fn advance_last_record_lsn(&mut self, lsn: Lsn)
        requires
            old(self).inv(),
        ensures
            final(self).inv(),
            final(self).record_lsn() == if lsn.0 >= old(self).record_lsn() {
                lsn.0
            } else {
                old(self).record_lsn()
            },
            final(self).valid_lsn() == if lsn.0 >= old(self).valid_lsn() {
                lsn.0
            } else {
                old(self).valid_lsn()
            },
            final(self).entries() == old(self).entries(),
    {
        if lsn.0 >= self.last_record_lsn {
            self.last_record_lsn = lsn.0;
        }
        if lsn.0 >= self.last_valid_lsn {
            self.last_valid_lsn = lsn.0;
        }
    }

    /// The reader frontier.
    pub fn get_last_valid_lsn(&self) -> (r: Lsn)
        ensures
            r.0 == self.valid_lsn(),
    {
        Lsn(self.last_valid_lsn)
    }

    /// The WAL resume point.
    pub fn get_last_record_lsn(&self) -> (r: Lsn)
        ensures
            r.0 == self.record_lsn(),
    {
        Lsn(self.last_record_lsn)
    }

    /// Waits until the reader frontier reaches `lsn`, returning the
    /// observed frontier.
    ///
    /// This core is single-threaded, so there is nothing to block on: when
    /// WAL has not been ingested up to `lsn` the wait has already lasted
    /// too long, and the caller gets `WaitedTooLong`.  A hosting process
    /// that ingests WAL concurrently retries or parks the reader instead.
    pub fn wait_lsn(&self, lsn: Lsn) -> (r: Result<Lsn, RepositoryError>)
        ensures
            self.valid_lsn() >= lsn.0 ==> r == Ok::<Lsn, RepositoryError>(Lsn(self.valid_lsn())),
            self.valid_lsn() < lsn.0 ==> r == Err::<Lsn, RepositoryError>(
                RepositoryError::WaitedTooLong,
            ),
    {
        if self.last_valid_lsn >= lsn.0 {
            Ok(Lsn(self.last_valid_lsn))
        } else {
            Err(RepositoryError::WaitedTooLong)
        }
    }

    /// Writes one binding of the keyspace.
    fn store_put(&mut self, key: RepositoryKey, value: PageVersion)
        requires
            old(self).inv(),
            key.tag.blknum < INVALID_BLOCK_NUMBER,
        ensures
            final(self).inv(),
            put_effect(old(self).entries(), final(self).entries(), key, value@),
            final(self).valid_lsn() == old(self).valid_lsn(),
            final(self).record_lsn() == old(self).record_lsn(),
    {
        let ghost s0 = self.store@;
        let ghost v = value@;
        self.store.put(key, value);
        proof {
            assert forall|i: int|
                0 <= i < self.store@.len() implies (#[trigger] self.store@[i]).key.tag.blknum
                < INVALID_BLOCK_NUMBER by {
                if self.store@[i] != (EntryView { key, value: v }) {
                    let j2 = choose|j2: int| 0 <= j2 < s0.len() && s0[j2] == self.store@[i];
                    assert(s0[j2].key.tag.blknum < INVALID_BLOCK_NUMBER);
                }
            }
        }
    }

    /// Stores a self-contained page image as the version of `tag` at `lsn`.
    ///
    /// Equivalent to storing an initialising WAL record with an empty apply
    /// chain: it defines a base that needs no earlier history.
    pub fn put_page_image(&mut self, tag: BufferTag, lsn: Lsn, img: Vec<u8>) -> (r: Result<
        (),
        RepositoryError,
    >)
        requires
            old(self).inv(),
            tag.blknum < INVALID_BLOCK_NUMBER,
        ensures
            final(self).inv(),
            r == Ok::<(), RepositoryError>(()),
            put_effect(
                old(self).entries(),
                final(self).entries(),
                RepositoryKey { tag, lsn },
                PageVersionView::Image(img@),
            ),
            final(self).valid_lsn() == old(self).valid_lsn(),
            final(self).record_lsn() == old(self).record_lsn(),
    {
        self.store_put(RepositoryKey { tag, lsn }, PageVersion::Image(img));
        Ok(())
    }

    /// Stores a WAL record as the version of `tag` at the record's LSN.
    ///
    /// This implicitly extends the relation when the block lies beyond the
    /// current end of file.
    pub fn put_wal_record(&mut self, tag: BufferTag, rec: WALRecord) -> (r: Result<
        (),
        RepositoryError,
    >)
        requires
            old(self).inv(),
            tag.blknum < INVALID_BLOCK_NUMBER,
        ensures
            final(self).inv(),
            r == Ok::<(), RepositoryError>(()),
            put_effect(
                old(self).entries(),
                final(self).entries(),
                RepositoryKey { tag, lsn: rec.lsn },
                PageVersionView::Record(rec@),
            ),
            final(self).valid_lsn() == old(self).valid_lsn(),
            final(self).record_lsn() == old(self).record_lsn(),
    {
        let lsn = rec.lsn;
        self.store_put(RepositoryKey { tag, lsn }, PageVersion::Record(rec));
        Ok(())
    }

    /// Stores a drop sentinel: `tag` does not exist from `lsn` onwards,
    /// until a later version supersedes the sentinel.
    pub fn put_drop(&mut self, tag: BufferTag, lsn: Lsn) -> (r: Result<(), RepositoryError>)
        requires
            old(self).inv(),
            tag.blknum < INVALID_BLOCK_NUMBER,
        ensures
            final(self).inv(),
            r == Ok::<(), RepositoryError>(()),
            put_effect(
                old(self).entries(),
                final(self).entries(),
                RepositoryKey { tag, lsn },
                PageVersionView::Dropped,
            ),
            final(self).valid_lsn() == old(self).valid_lsn(),
            final(self).record_lsn() == old(self).record_lsn(),
    {
        self.store_put(RepositoryKey { tag, lsn }, PageVersion::Dropped);
        Ok(())
    }

    /// Inserts a ready-made value at an explicit key, verbatim.  Used by
    /// the CREATE DATABASE clone path to copy entries.
    pub fn put_raw_data(&mut self, key: RepositoryKey, data: PageVersion) -> (r: Result<
        (),
        RepositoryError,
    >)
        requires
            old(self).inv(),
            key.tag.blknum < INVALID_BLOCK_NUMBER,
        ensures
            final(self).inv(),
            r == Ok::<(), RepositoryError>(()),
            put_effect(old(self).entries(), final(self).entries(), key, data@),
            final(self).valid_lsn() == old(self).valid_lsn(),
            final(self).record_lsn() == old(self).record_lsn(),
    {
        self.store_put(key, data);
        Ok(())
    }

    /// How many entries the keyspace holds.  With the positional accessors
    /// and seeks below this replaces a cursor: a scan walks positions
    /// upwards or downwards while the timeline is not written to.
    pub fn num_entries(&self) -> (r: usize)
        ensures
            r == self.entries().len(),
    {
        self.store.len()
    }

    /// The key at position `i` of the keyspace, in key order.
    pub fn entry_key_at(&self, i: usize) -> (r: RepositoryKey)
        requires
            i < self.entries().len(),
        ensures
            r == self.entries()[i as int].key,
    {
        self.store.key_at(i)
    }

    /// The value at position `i` of the keyspace.
    pub fn entry_value_at(&self, i: usize) -> (r: &PageVersion)
        requires
            i < self.entries().len(),
        ensures
            r@ == self.entries()[i as int].value,
    {
        self.store.value_at(i)
    }

    /// Position of the first entry at-or-after `key`, if any: where a
    /// forward range scan starts.
    pub fn seek_first(&self, key: RepositoryKey) -> (r: Option<usize>)
        requires
            self.inv(),
        ensures
            match r {
                None => forall|j: int|
                    0 <= j < self.entries().len() ==> key_lt((#[trigger] self.entries()[j]).key, key),
                Some(i) => i < self.entries().len() && crate::tag::key_le(
                    key,
                    self.entries()[i as int].key,
                ) && forall|j: int|
                    0 <= j < i ==> key_lt((#[trigger] self.entries()[j]).key, key),
            },
    {
        self.store.seek_first_ge(key)
    }

    /// Position of the last entry at-or-before `key`, if any: where a
    /// backward range scan starts.
    pub fn seek_last(&self, key: RepositoryKey) -> (r: Option<usize>)
        requires
            self.inv(),
        ensures
            match r {
                None => forall|j: int|
                    0 <= j < self.entries().len() ==> key_lt(key, (#[trigger] self.entries()[j]).key),
                Some(i) => i < self.entries().len() && crate::tag::key_le(
                    self.entries()[i as int].key,
                    key,
                ) && forall|j: int|
                    i < j < self.entries().len() ==> key_lt(key, (#[trigger] self.entries()[j]).key),
            },
    {
        self.store.seek_last_le(key)
    }

    /// Position of the latest version of `tag` at-or-before `lsn`, if any.
    fn seek_latest(&self, tag: BufferTag, lsn: Lsn) -> (r: Option<usize>)
        requires
            self.inv(),
        ensures
            match r {
                None => latest_le(self.entries(), tag, lsn.0) is None,
                Some(i) => {
                    &&& i < self.entries().len()
                    &&& self.entries()[i as int].key.tag == tag
                    &&& self.entries()[i as int].key.lsn.0 <= lsn.0
                    &&& latest_le(self.entries(), tag, lsn.0) == Some(
                        (self.entries()[i as int].key.lsn.0, self.entries()[i as int].value),
                    )
                },
            },
    {
        let bound = RepositoryKey { tag, lsn };
        let ghost s = self.store@;
        match self.store.seek_last_le(bound) {
            None => {
                proof {
                    assert forall|i: int|
                        0 <= i < s.len() implies !((#[trigger] s[i]).key.tag == tag
                        && s[i].key.lsn.0 <= lsn.0) by {
                        if s[i].key.tag == tag && s[i].key.lsn.0 <= lsn.0 {
                            assert(key_lt(bound, s[i].key));
                        }
                    }
                    lemma_latest_le_none(s, tag, lsn.0);
                }
                None
            },
            Some(i) => {
                let k = self.store.key_at(i);
                if k.tag == tag {
                    proof {
                        assert(crate::tag::key_le(k, bound));
                        lemma_latest_le_at(s, tag, lsn.0, i as int);
                    }
                    Some(i)
                } else {
                    proof {
                        assert forall|j: int|
                            0 <= j < s.len() implies !((#[trigger] s[j]).key.tag == tag
                            && s[j].key.lsn.0 <= lsn.0) by {
                            if s[j].key.tag == tag && s[j].key.lsn.0 <= lsn.0 {
                                assert(crate::tag::key_le(s[j].key, bound));
                                if j > i {
                                    assert(key_lt(bound, s[j].key));
                                } else if j < i {
                                    assert(key_lt(s[j].key, s[i as int].key));
                                }
                                assert(false);
                            }
                        }
                        lemma_latest_le_none(s, tag, lsn.0);
                    }
                    None
                }
            },
        }
    }

    /// The page image stored at exactly `(tag, lsn)`, if the binding there
    /// is an image; a WAL record or drop sentinel there, or no binding,
    /// gives `None`.
    pub fn get_page_image(&self, tag: BufferTag, lsn: Lsn) -> (r: Result<
        Option<Vec<u8>>,
        RepositoryError,
    >)
        requires
            self.inv(),
        ensures
            match r {
                Ok(Some(v)) => stored_image(self.entries(), RepositoryKey { tag, lsn }) == Some(
                    v@,
                ),
                Ok(None) => stored_image(self.entries(), RepositoryKey { tag, lsn }) is None,
                Err(_) => false,
            },
    {
        let key = RepositoryKey { tag, lsn };
        let ghost s = self.store@;
        match self.store.seek_last_le(key) {
            None => {
                proof {
                    lemma_lookup_some_iff(s, key);
                    assert forall|j: int| 0 <= j < s.len() implies (#[trigger] s[j]).key != key by {
                        assert(key_lt(key, s[j].key));
                    }
                }
                Ok(None)
            },
            Some(i) => {
                let k = self.store.key_at(i);
                if k == key {
                    proof {
                        lemma_lookup_at(s, key, i as int);
                    }
                    match self.store.value_at(i) {
                        PageVersion::Image(img) => Ok(Some(clone_bytes(img))),
                        _ => Ok(None),
                    }
                } else {
                    proof {
                        lemma_lookup_some_iff(s, key);
                        assert forall|j: int|
                            0 <= j < s.len() implies (#[trigger] s[j]).key != key by {
                            if j > i {
                                assert(key_lt(key, s[j].key));
                            } else if j < i {
                                assert(key_lt(s[j].key, s[i as int].key));
                                assert(crate::tag::key_le(s[i as int].key, key));
                            }
                        }
                    }
                    Ok(None)
                }
            },
        }
    }

    /// The size of `rel` at `lsn`: one past its largest live block, or zero
    /// when no block is live.  A relation that was never written, or whose
    /// blocks were all dropped, has size zero.
    pub fn get_relsize(&self, rel: RelTag, lsn: Lsn) -> (r: Result<u32, RepositoryError>)
        requires
            self.inv(),
        ensures
            self.valid_lsn() < lsn.0 ==> r == Err::<u32, RepositoryError>(
                RepositoryError::WaitedTooLong,
            ),
            self.valid_lsn() >= lsn.0 ==> match r {
                Ok(n) => relsize_post(self.entries(), rel, lsn.0, n),
                Err(_) => false,
            },
    {
        let w = self.wait_lsn(lsn);
        if w.is_err() {
            return Err(RepositoryError::WaitedTooLong);
        }
        Ok(self.relsize_nowait(rel, lsn))
    }

    /// The size of `rel` at `lsn`, without waiting for the frontier: walks
    /// blocks downwards from the top, skipping dropped ones, until a live
    /// block gives the size.
    fn relsize_nowait(&self, rel: RelTag, lsn: Lsn) -> (r: u32)
        requires
            self.inv(),
        ensures
            relsize_post(self.entries(), rel, lsn.0, r),
    {
        let ghost s = self.store@;
        let mut bound: u32 = INVALID_BLOCK_NUMBER;
        loop
            invariant
                self.inv(),
                s == self.store@,
                forall|b: u32| b > bound ==> !(#[trigger] block_live(s, rel, b, lsn.0)),
            decreases bound,
        {
            let bkey = RepositoryKey { tag: BufferTag { rel, blknum: bound }, lsn };
            match self.store.seek_last_le(bkey) {
                None => {
                    proof {
                        assert forall|b: u32| !(#[trigger] block_live(s, rel, b, lsn.0)) by {
                            if b <= bound {
                                assert forall|i: int|
                                    0 <= i < s.len() implies !((#[trigger] s[i]).key.tag
                                    == block_tag(rel, b) && s[i].key.lsn.0 <= lsn.0) by {
                                    if s[i].key.tag == block_tag(rel, b) && s[i].key.lsn.0
                                        <= lsn.0 {
                                        assert(key_lt(bkey, s[i].key));
                                    }
                                }
                                lemma_latest_le_none(s, block_tag(rel, b), lsn.0);
                            }
                        }
                    }
                    return 0;
                },
                Some(i) => {
                    let k = self.store.key_at(i);
                    if k.tag.rel != rel {
                        proof {
                            assert(crate::tag::key_le(k, bkey));
                            assert(crate::tag::rel_lt(k.tag.rel, rel));
                            assert forall|b: u32| !(#[trigger] block_live(s, rel, b, lsn.0)) by {
                                if b <= bound {
                                    assert forall|j: int|
                                        0 <= j < s.len() implies !((#[trigger] s[j]).key.tag
                                        == block_tag(rel, b) && s[j].key.lsn.0 <= lsn.0) by {
                                        if s[j].key.tag == block_tag(rel, b) && s[j].key.lsn.0
                                            <= lsn.0 {
                                            assert(key_lt(k, s[j].key));
                                            if j > i {
                                                assert(key_lt(bkey, s[j].key));
                                            } else if j < i {
                                                assert(key_lt(s[j].key, s[i as int].key));
                                            }
                                            assert(false);
                                        }
                                    }
                                    lemma_latest_le_none(s, block_tag(rel, b), lsn.0);
                                }
                            }
                        }
                        return 0;
                    }
                    let b = k.tag.blknum;
                    proof {
                        assert(crate::tag::key_le(k, bkey));
                        assert(b <= bound);
                    }
                    if b == bound {
                        proof {
                            lemma_latest_le_at(s, k.tag, lsn.0, i as int);
                        }
                        if !self.store.value_at(i).is_dropped() {
                            proof {
                                assert(block_live(s, rel, b, lsn.0));
                            }
                            return b + 1;
                        } else {
                            proof {
                                assert(!block_live(s, rel, b, lsn.0));
                            }
                        }
                        if bound == 0 {
                            return 0;
                        }
                        bound = bound - 1;
                    } else {
                        proof {
                            assert forall|b2: u32|
                                b2 > b implies !(#[trigger] block_live(s, rel, b2, lsn.0)) by {
                                if b2 <= bound {
                                    assert forall|j: int|
                                        0 <= j < s.len() implies !((#[trigger] s[j]).key.tag
                                        == block_tag(rel, b2) && s[j].key.lsn.0 <= lsn.0) by {
                                        if s[j].key.tag == block_tag(rel, b2) && s[j].key.lsn.0
                                            <= lsn.0 {
                                            assert(key_lt(k, s[j].key));
                                            if j > i {
                                                assert(key_lt(bkey, s[j].key));
                                            } else if j < i {
                                                assert(key_lt(s[j].key, s[i as int].key));
                                            }
                                            assert(false);
                                        }
                                    }
                                    lemma_latest_le_none(s, block_tag(rel, b2), lsn.0);
                                }
                            }
                        }
                        bound = b;
                    }
                },
            }
        }
    }

    /// Whether any version of `rel` exists at-or-before `lsn`: true exactly
    /// when some key with prefix `rel` has an LSN not exceeding `lsn`.
    pub fn get_relsize_exists(&self, rel: RelTag, lsn: Lsn) -> (r: Result<bool, RepositoryError>)
        requires
            self.inv(),
        ensures
            self.valid_lsn() < lsn.0 ==> r == Err::<bool, RepositoryError>(
                RepositoryError::WaitedTooLong,
            ),
            self.valid_lsn() >= lsn.0 ==> r == Ok::<bool, RepositoryError>(
                exists|i: int|
                    0 <= i < self.entries().len() && (#[trigger] self.entries()[i]).key.tag.rel
                        == rel && self.entries()[i].key.lsn.0 <= lsn.0,
            ),
    {
        let w = self.wait_lsn(lsn);
        if w.is_err() {
            return Err(RepositoryError::WaitedTooLong);
        }
        let ghost s = self.store@;
        let n = self.store.len();
        let mut i: usize = 0;
        while i < n
            invariant
                self.inv(),
                self.valid_lsn() >= lsn.0,
                s == self.store@,
                n == s.len(),
                i <= n,
                forall|j: int|
                    0 <= j < i ==> !((#[trigger] s[j]).key.tag.rel == rel && s[j].key.lsn.0
                        <= lsn.0),
            decreases n - i,
        {
            let k = self.store.key_at(i);
            if k.tag.rel == rel && k.lsn.0 <= lsn.0 {
                return Ok(true);
            }
            i += 1;
        }
        Ok(false)
    }

    /// The range `[first_block, one_past_last_block)` of blocks of `rel`
    /// that exist at `lsn`, counting a block exactly as `get_relsize` does:
    /// its latest version at-or-before `lsn` is there and is not a drop
    /// sentinel.  `(0, 0)` when no block exists.  Used mostly for
    /// pseudo-relations, whose blocks need not start at zero.
    pub fn get_range(&self, rel: RelTag, lsn: Lsn) -> (r: Result<(u32, u32), RepositoryError>)
        requires
            self.inv(),
        ensures
            self.valid_lsn() < lsn.0 ==> r == Err::<(u32, u32), RepositoryError>(
                RepositoryError::WaitedTooLong,
            ),
            self.valid_lsn() >= lsn.0 ==> match r {
                Ok(range) => range_post(self.entries(), rel, lsn.0, range),
                Err(_) => false,
            },
    {
        let w = self.wait_lsn(lsn);
        if w.is_err() {
            return Err(RepositoryError::WaitedTooLong);
        }
        let hi = self.relsize_nowait(rel, lsn);
        if hi == 0 {
            return Ok((0, 0));
        }
        let ghost s = self.store@;
        let mut b: u32 = 0;
        loop
            invariant
                self.inv(),
                self.valid_lsn() >= lsn.0,
                s == self.store@,
                hi >= 1,
                relsize_post(s, rel, lsn.0, hi),
                b <= hi - 1,
                forall|b2: u32| b2 < b ==> !(#[trigger] block_live(s, rel, b2, lsn.0)),
            decreases hi - 1 - b,
        {
            proof {
                // Block hi - 1 is live, so it has a stored version whose key
                // is at-or-past the scan key.
                lemma_latest_le_props(s, block_tag(rel, (hi - 1) as u32), lsn.0);
            }
            let ghost p = latest_le(s, block_tag(rel, (hi - 1) as u32), lsn.0).unwrap();
            let ghost iw = choose|i: int|
                0 <= i < s.len() && (#[trigger] s[i]).key == (RepositoryKey {
                    tag: block_tag(rel, (hi - 1) as u32),
                    lsn: Lsn(p.0),
                }) && s[i].value == p.1;
            let lkey = RepositoryKey { tag: BufferTag { rel, blknum: b }, lsn: Lsn(0) };
            proof {
                assert(crate::tag::key_le(lkey, s[iw].key));
            }
            match self.store.seek_first_ge(lkey) {
                None => {
                    proof {
                        assert(key_lt(s[iw].key, lkey));
                        assert(false);
                    }
                    return Ok((0, 0));
                },
                Some(i) => {
                    let k = self.store.key_at(i);
                    proof {
                        if iw < i {
                            assert(key_lt(s[iw].key, lkey));
                            assert(false);
                        }
                        if iw > i {
                            assert(key_lt(s[i as int].key, s[iw].key));
                        }
                        assert(crate::tag::key_le(k, s[iw].key));
                        assert(crate::tag::key_le(lkey, k));
                    }
                    if k.tag.rel != rel {
                        proof {
                            assert(false);
                        }
                        return Ok((0, 0));
                    }
                    let b2 = k.tag.blknum;
                    proof {
                        assert(b <= b2 <= hi - 1);
                        // No block in [b, b2) has any stored version.
                        assert forall|b3: u32|
                            b <= b3 < b2 implies !(#[trigger] block_live(s, rel, b3, lsn.0)) by {
                            assert forall|j: int|
                                0 <= j < s.len() implies !((#[trigger] s[j]).key.tag == block_tag(
                                rel,
                                b3,
                            ) && s[j].key.lsn.0 <= lsn.0) by {
                                if s[j].key.tag == block_tag(rel, b3) && s[j].key.lsn.0 <= lsn.0 {
                                    assert(crate::tag::key_le(lkey, s[j].key));
                                    if j < i {
                                        assert(key_lt(s[j].key, lkey));
                                    } else if j > i {
                                        assert(key_lt(s[i as int].key, s[j].key));
                                    }
                                    assert(false);
                                }
                            }
                            lemma_latest_le_none(s, block_tag(rel, b3), lsn.0);
                        }
                    }
                    match self.seek_latest(BufferTag { rel, blknum: b2 }, lsn) {
                        None => {
                            proof {
                                assert(!block_live(s, rel, b2, lsn.0));
                                assert(b2 < hi - 1);
                            }
                            b = b2 + 1;
                        },
                        Some(j) => {
                            if !self.store.value_at(j).is_dropped() {
                                proof {
                                    assert(block_live(s, rel, b2, lsn.0));
                                }
                                return Ok((b2, hi));
                            }
                            proof {
                                assert(!block_live(s, rel, b2, lsn.0));
                                assert(b2 < hi - 1);
                            }
                            b = b2 + 1;
                        },
                    }
                },
            }
        }
    }

    /// Truncates `rel` to its first `nblocks` blocks: every block at-or-past
    /// `nblocks` that has any stored version gets a drop sentinel at `lsn`.
    /// Until a later extending write, the relation size at-or-past `lsn` is
    /// then `nblocks`.
    pub fn put_truncation(&mut self, rel: RelTag, lsn: Lsn, nblocks: u32) -> (r: Result<
        (),
        RepositoryError,
    >)
        requires
            old(self).inv(),
        ensures
            final(self).inv(),
            r == Ok::<(), RepositoryError>(()),
            truncate_effect(old(self).entries(), final(self).entries(), rel, lsn, nblocks),
            final(self).valid_lsn() == old(self).valid_lsn(),
            final(self).record_lsn() == old(self).record_lsn(),
    {
        let ghost s0 = self.store@;
        let n = self.store.len();
        let mut blocks: Vec<u32> = Vec::new();
        let mut i: usize = 0;
        while i < n
            invariant
                self.inv(),
                s0 == self.store@,
                n == s0.len(),
                i <= n,
                forall|bi: int|
                    0 <= bi < blocks@.len() ==> (#[trigger] blocks@[bi]) >= nblocks
                        && block_has_version(s0, rel, blocks@[bi]),
                forall|j: int|
                    0 <= j < i && (#[trigger] s0[j]).key.tag.rel == rel && s0[j].key.tag.blknum
                        >= nblocks ==> exists|bi: int|
                        0 <= bi < blocks@.len() && (#[trigger] blocks@[bi]) == s0[j].key.tag.blknum,
            decreases n - i,
        {
            let ghost prev = blocks@;
            let k = self.store.key_at(i);
            if k.tag.rel == rel && k.tag.blknum >= nblocks {
                let b = k.tag.blknum;
                let m2 = blocks.len();
                if m2 == 0 || blocks[m2 - 1] != b {
                    blocks.push(b);
                    proof {
                        assert(blocks@ == prev.push(b));
                        assert forall|bi: int|
                            0 <= bi < blocks@.len() implies (#[trigger] blocks@[bi]) >= nblocks
                            && block_has_version(s0, rel, blocks@[bi]) by {
                            if bi < prev.len() {
                                assert(blocks@[bi] == prev[bi]);
                            } else {
                                assert(blocks@[bi] == b);
                                assert(s0[i as int].key.tag == block_tag(rel, b));
                            }
                        }
                    }
                }
                proof {
                    assert(blocks@[blocks@.len() - 1] == b);
                    assert forall|j: int|
                        0 <= j < i + 1 && (#[trigger] s0[j]).key.tag.rel == rel
                            && s0[j].key.tag.blknum >= nblocks implies exists|bi: int|
                        0 <= bi < blocks@.len() && (#[trigger] blocks@[bi])
                            == s0[j].key.tag.blknum by {
                        if j < i {
                            let bi = choose|bi: int|
                                0 <= bi < prev.len() && (#[trigger] prev[bi])
                                    == s0[j].key.tag.blknum;
                            assert(blocks@[bi] == s0[j].key.tag.blknum);
                        } else {
                            assert(blocks@[blocks@.len() - 1] == s0[j].key.tag.blknum);
                        }
                    }
                }
            }
            i += 1;
        }
        let m = blocks.len();
        let mut t: usize = 0;
        while t < m
            invariant
                self.inv(),
                m == blocks@.len(),
                t <= m,
                forall|bi: int|
                    0 <= bi < blocks@.len() ==> (#[trigger] blocks@[bi]) >= nblocks
                        && block_has_version(s0, rel, blocks@[bi]),
                forall|j: int|
                    0 <= j < s0.len() && (#[trigger] s0[j]).key.tag.rel == rel
                        && s0[j].key.tag.blknum >= nblocks ==> exists|bi: int|
                        0 <= bi < blocks@.len() && (#[trigger] blocks@[bi]) == s0[j].key.tag.blknum,
                forall|k: RepositoryKey|
                    #[trigger] lookup(self.store@, k) == (if k.tag.rel == rel && k.lsn == lsn
                        && (exists|bi: int| 0 <= bi < t && (#[trigger] blocks@[bi]) == k.tag.blknum) {
                        Some(PageVersionView::Dropped)
                    } else {
                        lookup(s0, k)
                    }),
                self.valid_lsn() == old(self).valid_lsn(),
                self.record_lsn() == old(self).record_lsn(),
                blocks_bounded(s0),
            decreases m - t,
        {
            let b = blocks[t];
            proof {
                let iw = choose|i: int|
                    0 <= i < s0.len() && (#[trigger] s0[i]).key.tag == block_tag(rel, b);
                assert(s0[iw].key.tag.blknum == b);
            }
            let ghost before = self.store@;
            let key = RepositoryKey { tag: BufferTag { rel, blknum: b }, lsn };
            self.store_put(key, PageVersion::Dropped);
            proof {
                assert forall|k: RepositoryKey|
                    #[trigger] lookup(self.store@, k) == (if k.tag.rel == rel && k.lsn == lsn
                        && (exists|bi: int|
                        0 <= bi < t + 1 && (#[trigger] blocks@[bi]) == k.tag.blknum) {
                        Some(PageVersionView::Dropped)
                    } else {
                        lookup(s0, k)
                    }) by {
                    if k == key {
                        assert(blocks@[t as int] == k.tag.blknum);
                    } else {
                        assert(lookup(self.store@, k) == lookup(before, k));
                        if k.tag.rel == rel && k.lsn == lsn {
                            if exists|bi: int|
                                0 <= bi < t + 1 && (#[trigger] blocks@[bi]) == k.tag.blknum {
                                let bi = choose|bi: int|
                                    0 <= bi < t + 1 && (#[trigger] blocks@[bi]) == k.tag.blknum;
                                if bi < t {
                                } else {
                                    assert(blocks@[bi] == b);
                                    assert(k.tag.blknum == b);
                                    assert(false);
                                }
                            }
                        }
                    }
                }
            }
            t += 1;
        }
        proof {
            assert forall|k: RepositoryKey|
                #[trigger] lookup(self.store@, k) == (if k.tag.rel == rel && k.lsn == lsn
                    && k.tag.blknum >= nblocks && block_has_version(s0, rel, k.tag.blknum) {
                    Some(PageVersionView::Dropped)
                } else {
                    lookup(s0, k)
                }) by {
                if k.tag.rel == rel && k.lsn == lsn {
                    if exists|bi: int| 0 <= bi < m && (#[trigger] blocks@[bi]) == k.tag.blknum {
                        let bi = choose|bi: int|
                            0 <= bi < m && (#[trigger] blocks@[bi]) == k.tag.blknum;
                        assert(k.tag.blknum >= nblocks && block_has_version(s0, rel, k.tag.blknum));
                    } else {
                        if k.tag.blknum >= nblocks && block_has_version(s0, rel, k.tag.blknum) {
                            let iw = choose|i: int|
                                0 <= i < s0.len() && (#[trigger] s0[i]).key.tag == block_tag(
                                    rel,
                                    k.tag.blknum,
                                );
                            assert(s0[iw].key.tag.rel == rel && s0[iw].key.tag.blknum >= nblocks);
                            assert(false);
                        }
                    }
                }
            }
        }
        Ok(())
    }

    /// Collects what the redo manager needs to produce `tag`'s page at
    /// `lsn`: the latest version at-or-before `lsn`, walked backwards to the
    /// image or initialising record that closes the chain.  Fails with
    /// `PageNotFound` when no version exists there, a drop sentinel is in
    /// effect, or the chain is broken.
    pub fn get_page_reconstruct_data(&self, tag: BufferTag, lsn: Lsn) -> (r: Result<
        PageReconstructData,
        RepositoryError,
    >)
        requires
            self.inv(),
        ensures
            match reconstruct(self.entries(), tag, lsn.0) {
                ReconstructView::NotFound => r == Err::<PageReconstructData, RepositoryError>(
                    RepositoryError::PageNotFound,
                ),
                ReconstructView::Page(img) => r matches Ok(d) && d@.page_img == Some(img)
                    && d@.records.len() == 0,
                ReconstructView::Redo(b, rs) => r matches Ok(d) && d@.page_img == b && d@.records
                    == rs,
            },
    {
        let ghost s = self.store@;
        let mut records: Vec<WALRecord> = Vec::new();
        let i0 = match self.seek_latest(tag, lsn) {
            None => {
                return Err(RepositoryError::PageNotFound);
            },
            Some(i0) => i0,
        };
        let mut i = i0;
        let ghost mut cur: u64 = lsn.0;
        loop
            invariant
                self.inv(),
                s == self.store@,
                i < s.len(),
                s[i as int].key.tag == tag,
                s[i as int].key.lsn.0 <= cur,
                cur <= lsn.0,
                latest_le(s, tag, cur) == Some((s[i as int].key.lsn.0, s[i as int].value)),
                reconstruct(s, tag, lsn.0) == extend_chain(
                    reconstruct(s, tag, cur),
                    records@.map_values(|w: WALRecord| w@),
                ),
            decreases i,
        {
            let ghost cur0 = cur;
            let l_i = self.store.key_at(i).lsn;
            match self.store.value_at(i) {
                PageVersion::Dropped => {
                    return Err(RepositoryError::PageNotFound);
                },
                PageVersion::Image(img) => {
                    let page = clone_bytes(img);
                    let d = PageReconstructData { page_img: Some(page), records };
                    return Ok(d);
                },
                PageVersion::Record(w) => {
                    let ghost prev = records@;
                    let will_init = w.will_init;
                    let wd = w.duplicate();
                    records.insert(0, wd);
                    proof {
                        assert(records@ == prev.insert(0, wd));
                        assert(records@.map_values(|w: WALRecord| w@) =~= seq![
                            s[i as int].value->Record_0,
                        ] + prev.map_values(|w: WALRecord| w@));
                    }
                    if will_init {
                        let d = PageReconstructData { page_img: None, records };
                        return Ok(d);
                    }
                    if l_i.0 == 0 {
                        return Err(RepositoryError::PageNotFound);
                    }
                    proof {
                        cur = (l_i.0 - 1) as u64;
                    }
                    if i == 0 {
                        proof {
                            assert forall|j: int|
                                0 <= j < s.len() implies !((#[trigger] s[j]).key.tag == tag
                                && s[j].key.lsn.0 <= cur) by {
                                if j > 0 {
                                    assert(key_lt(s[0].key, s[j].key));
                                }
                            }
                            lemma_latest_le_none(s, tag, cur);
                        }
                        return Err(RepositoryError::PageNotFound);
                    }
                    let k_prev = self.store.key_at(i - 1);
                    if k_prev.tag != tag {
                        proof {
                            assert forall|j: int|
                                0 <= j < s.len() implies !((#[trigger] s[j]).key.tag == tag
                                && s[j].key.lsn.0 <= cur) by {
                                if s[j].key.tag == tag && s[j].key.lsn.0 <= cur {
                                    assert(key_lt(s[j].key, s[i as int].key));
                                    if j > i - 1 {
                                        assert(j >= i);
                                        assert(key_lt(s[i as int].key, s[j].key) || j == i);
                                        assert(false);
                                    } else if j < i - 1 {
                                        assert(key_lt(s[j].key, s[i - 1].key));
                                        assert(key_lt(s[i - 1].key, s[i as int].key));
                                        assert(false);
                                    } else {
                                        assert(false);
                                    }
                                }
                            }
                            lemma_latest_le_none(s, tag, cur);
                        }
                        return Err(RepositoryError::PageNotFound);
                    }
                    proof {
                        assert(key_lt(s[i - 1].key, s[i as int].key));
                        assert(s[i - 1].key.lsn.0 < l_i.0);
                        assert forall|j: int|
                            i - 1 < j < s.len() implies key_lt(
                            RepositoryKey { tag, lsn: Lsn(cur) },
                            (#[trigger] s[j]).key,
                        ) by {
                            assert(key_lt(RepositoryKey { tag, lsn: Lsn(cur) }, s[i as int].key));
                            if j > i {
                                assert(key_lt(s[i as int].key, s[j].key));
                            }
                        }
                        lemma_latest_le_at(s, tag, cur, i - 1);
                        let wv = s[i as int].value->Record_0;
                        let prevm = prev.map_values(|w: WALRecord| w@);
                        let newm = records@.map_values(|w: WALRecord| w@);
                        assert(newm == seq![wv] + prevm);
                        assert(1 <= l_i.0 <= cur0);
                        assert(reconstruct(s, tag, cur0) == (match reconstruct(s, tag, cur) {
                            ReconstructView::NotFound => ReconstructView::NotFound,
                            ReconstructView::Page(img) => ReconstructView::Redo(
                                Some(img),
                                seq![wv],
                            ),
                            ReconstructView::Redo(b, rs0) => ReconstructView::Redo(
                                b,
                                rs0.push(wv),
                            ),
                        }));
                        match reconstruct(s, tag, cur) {
                            ReconstructView::NotFound => {},
                            ReconstructView::Page(img) => {
                                assert(seq![wv] + prevm =~= newm);
                                assert(newm.len() >= 1);
                            },
                            ReconstructView::Redo(b, rs0) => {
                                assert(rs0.push(wv) + prevm =~= rs0 + newm);
                            },
                        }
                    }
                    i = i - 1;
                },
            }
        }
    }

    /// The page of `tag` as of `lsn`: waits for the frontier, finds the
    /// latest version at-or-before `lsn`, and either returns a stored image
    /// directly or hands the collected chain to `walredo`.
    pub fn get_page_at_lsn<R: WalRedoManager>(&self, walredo: &R, tag: BufferTag, lsn: Lsn) -> (r:
        Result<Vec<u8>, RepositoryError>)
        requires
            self.inv(),
        ensures
            self.valid_lsn() < lsn.0 ==> r == Err::<Vec<u8>, RepositoryError>(
                RepositoryError::WaitedTooLong,
            ),
            self.valid_lsn() >= lsn.0 ==> match reconstruct(self.entries(), tag, lsn.0) {
                ReconstructView::NotFound => r == Err::<Vec<u8>, RepositoryError>(
                    RepositoryError::PageNotFound,
                ),
                ReconstructView::Page(img) => r matches Ok(v) && v@ == img,
                ReconstructView::Redo(_, _) => true,
            },
    {
        let w = self.wait_lsn(lsn);
        if w.is_err() {
            return Err(RepositoryError::WaitedTooLong);
        }
        proof {
            lemma_reconstruct_redo_nonempty(self.store@, tag, lsn.0);
        }
        match self.get_page_reconstruct_data(tag, lsn) {
            Err(e) => Err(e),
            Ok(d) => {
                if d.records.len() == 0 {
                    match d.page_img {
                        Some(img) => Ok(img),
                        None => Err(RepositoryError::PageNotFound),
                    }
                } else {
                    walredo.request_redo(tag, lsn, d.page_img, d.records)
                }
            },
        }
    }

    /// The distinct databases with a filenode map visible at `lsn`, as
    /// relation tags whose tablespace and database fields identify each
    /// database.
    pub fn get_databases(&self, lsn: Lsn) -> (r: Result<Vec<RelTag>, RepositoryError>)
        requires
            self.inv(),
        ensures
            self.valid_lsn() < lsn.0 ==> r == Err::<Vec<RelTag>, RepositoryError>(
                RepositoryError::WaitedTooLong,
            ),
            self.valid_lsn() >= lsn.0 ==> match r {
                Ok(v) => {
                    &&& forall|rt: RelTag|
                        #[trigger] v@.contains(rt) <==> (rt.forknum == PG_FILENODEMAP_FORKNUM
                            && exists|i: int|
                            0 <= i < self.entries().len() && (#[trigger] self.entries()[i]).key.tag.rel
                                == rt && self.entries()[i].key.lsn.0 <= lsn.0)
                    &&& forall|a: int, b: int| 0 <= a < b < v@.len() ==> v@[a] != v@[b]
                },
                Err(_) => false,
            },
    {
        let w = self.wait_lsn(lsn);
        if w.is_err() {
            return Err(RepositoryError::WaitedTooLong);
        }
        let ghost s = self.store@;
        let n = self.store.len();
        let mut dbs: Vec<RelTag> = Vec::new();
        let mut i: usize = 0;
        while i < n
            invariant
                self.inv(),
                self.valid_lsn() >= lsn.0,
                s == self.store@,
                n == s.len(),
                i <= n,
                forall|rt: RelTag|
                    #[trigger] dbs@.contains(rt) <==> (rt.forknum == PG_FILENODEMAP_FORKNUM
                        && exists|j: int|
                        0 <= j < i && (#[trigger] s[j]).key.tag.rel == rt && s[j].key.lsn.0
                            <= lsn.0),
                forall|a: int, b: int| 0 <= a < b < dbs@.len() ==> dbs@[a] != dbs@[b],
            decreases n - i,
        {
            let ghost prev = dbs@;
            let k = self.store.key_at(i);
            if k.tag.rel.forknum == PG_FILENODEMAP_FORKNUM && k.lsn.0 <= lsn.0 {
                if !rels_contain(&dbs, k.tag.rel) {
                    dbs.push(k.tag.rel);
                    proof {
                        assert forall|rt: RelTag|
                            #[trigger] dbs@.contains(rt) <==> (rt.forknum
                                == PG_FILENODEMAP_FORKNUM && exists|j: int|
                                0 <= j < i + 1 && (#[trigger] s[j]).key.tag.rel == rt
                                    && s[j].key.lsn.0 <= lsn.0) by {
                            if dbs@.contains(rt) {
                                let a = choose|a: int| 0 <= a < dbs@.len() && dbs@[a] == rt;
                                if a < prev.len() {
                                    assert(prev[a] == rt);
                                    assert(prev.contains(rt));
                                } else {
                                    assert(rt == k.tag.rel);
                                    assert(s[i as int].key.tag.rel == rt);
                                }
                            }
                            if rt.forknum == PG_FILENODEMAP_FORKNUM && exists|j: int|
                                0 <= j < i + 1 && (#[trigger] s[j]).key.tag.rel == rt
                                    && s[j].key.lsn.0 <= lsn.0 {
                                let j = choose|j: int|
                                    0 <= j < i + 1 && (#[trigger] s[j]).key.tag.rel == rt
                                        && s[j].key.lsn.0 <= lsn.0;
                                if j < i {
                                    assert(prev.contains(rt));
                                    let a = choose|a: int| 0 <= a < prev.len() && prev[a] == rt;
                                    assert(dbs@[a] == rt);
                                } else {
                                    assert(dbs@[dbs@.len() - 1] == rt);
                                }
                            }
                        }
                    }
                } else {
                    proof {
                        assert forall|rt: RelTag|
                            #[trigger] dbs@.contains(rt) <==> (rt.forknum
                                == PG_FILENODEMAP_FORKNUM && exists|j: int|
                                0 <= j < i + 1 && (#[trigger] s[j]).key.tag.rel == rt
                                    && s[j].key.lsn.0 <= lsn.0) by {
                            if rt.forknum == PG_FILENODEMAP_FORKNUM && exists|j: int|
                                0 <= j < i + 1 && (#[trigger] s[j]).key.tag.rel == rt
                                    && s[j].key.lsn.0 <= lsn.0 {
                                let j = choose|j: int|
                                    0 <= j < i + 1 && (#[trigger] s[j]).key.tag.rel == rt
                                        && s[j].key.lsn.0 <= lsn.0;
                                if j == i {
                                    assert(rt == k.tag.rel);
                                    assert(dbs@.contains(rt));
                                }
                            }
                        }
                    }
                }
            } else {
                proof {
                    assert forall|rt: RelTag|
                        #[trigger] dbs@.contains(rt) <==> (rt.forknum == PG_FILENODEMAP_FORKNUM
                            && exists|j: int|
                            0 <= j < i + 1 && (#[trigger] s[j]).key.tag.rel == rt && s[j].key.lsn.0
                                <= lsn.0) by {
                        if rt.forknum == PG_FILENODEMAP_FORKNUM && exists|j: int|
                            0 <= j < i + 1 && (#[trigger] s[j]).key.tag.rel == rt && s[j].key.lsn.0
                                <= lsn.0 {
                            let j = choose|j: int|
                                0 <= j < i + 1 && (#[trigger] s[j]).key.tag.rel == rt
                                    && s[j].key.lsn.0 <= lsn.0;
                            assert(j < i);
                        }
                    }
                }
            }
            i += 1;
        }
        Ok(dbs)
    }

    /// The commit status of `xid` as of `lsn`: the two status bits read
    /// from its commit-log page.  A commit-log page too short to hold the
    /// bits reports corrupt storage.
    pub fn get_tx_status<R: WalRedoManager>(&self, walredo: &R, xid: u32, lsn: Lsn) -> (r: Result<
        u8,
        RepositoryError,
    >)
        requires
            self.inv(),
        ensures
            self.valid_lsn() < lsn.0 ==> r == Err::<u8, RepositoryError>(
                RepositoryError::WaitedTooLong,
            ),
            self.valid_lsn() >= lsn.0 ==> match reconstruct(
                self.entries(),
                clog_page_tag(xid),
                lsn.0,
            ) {
                ReconstructView::NotFound => r == Err::<u8, RepositoryError>(
                    RepositoryError::PageNotFound,
                ),
                ReconstructView::Page(img) => if tx_status_byteno(xid) < img.len() {
                    r == Ok::<u8, RepositoryError>(tx_status_of(xid, img))
                } else {
                    r == Err::<u8, RepositoryError>(RepositoryError::StorageError)
                },
                ReconstructView::Redo(_, _) => true,
            },
    {
        let tag = BufferTag {
            rel: RelTag { forknum: PG_XACT_FORKNUM, spcnode: 0, dbnode: 0, relnode: 0 },
            blknum: xid / CLOG_XACTS_PER_PAGE,
        };
        let page = match self.get_page_at_lsn(walredo, tag, lsn) {
            Ok(page) => page,
            Err(e) => {
                return Err(e);
            },
        };
        let byteno = (xid % CLOG_XACTS_PER_PAGE) / crate::pg_constants::CLOG_XACTS_PER_BYTE;
        if (byteno as usize) < page.len() {
            Ok(transaction_id_get_status(xid, &page))
        } else {
            Err(RepositoryError::StorageError)
        }
    }

    /// The prepared two-phase transactions still in progress at `lsn`: the
    /// xids keyed in the two-phase pseudo-fork at-or-before `lsn` whose
    /// commit-log status says in-progress.
    ///
    /// Where the commit log decides an xid by a stored page image, the
    /// result lists it exactly when those bits say in-progress, and when
    /// every candidate is decided that way the call succeeds.  An xid whose
    /// commit-log page needs redo is filtered by whatever the redo manager
    /// returns; a failure while reading any candidate's status aborts the
    /// scan and propagates.
    pub fn get_twophase<R: WalRedoManager>(&self, walredo: &R, lsn: Lsn) -> (r: Result<
        Vec<u32>,
        RepositoryError,
    >)
        requires
            self.inv(),
        ensures
            self.valid_lsn() < lsn.0 ==> r == Err::<Vec<u32>, RepositoryError>(
                RepositoryError::WaitedTooLong,
            ),
            r matches Ok(v) ==> forall|a: int|
                0 <= a < v@.len() ==> twophase_candidate(self.entries(), lsn.0, #[trigger] v@[a]),
            r matches Ok(v) ==> forall|xid: u32|
                #[trigger] twophase_candidate(self.entries(), lsn.0, xid) && clog_image_decided(
                    self.entries(),
                    lsn.0,
                    xid,
                ) ==> (v@.contains(xid) <==> clog_image_status(self.entries(), lsn.0, xid)
                    == TRANSACTION_STATUS_IN_PROGRESS),
            (self.valid_lsn() >= lsn.0 && forall|xid: u32|
                #[trigger] twophase_candidate(self.entries(), lsn.0, xid) ==> clog_image_decided(
                    self.entries(),
                    lsn.0,
                    xid,
                )) ==> r is Ok,
            (self.valid_lsn() >= lsn.0 && forall|xid: u32|
                !(#[trigger] twophase_candidate(self.entries(), lsn.0, xid))) ==> (r matches Ok(v)
                && v@.len() == 0),
    {
        let w = self.wait_lsn(lsn);
        if w.is_err() {
            return Err(RepositoryError::WaitedTooLong);
        }
        let ghost s = self.store@;
        let n = self.store.len();
        let mut gxacts: Vec<u32> = Vec::new();
        let mut i: usize = 0;
        while i < n
            invariant
                self.inv(),
                self.valid_lsn() >= lsn.0,
                s == self.store@,
                n == s.len(),
                i <= n,
                forall|a: int|
                    0 <= a < gxacts@.len() ==> twophase_candidate(s, lsn.0, #[trigger] gxacts@[a]),
                forall|a: int|
                    0 <= a < gxacts@.len() && clog_image_decided(s, lsn.0, #[trigger] gxacts@[a])
                        ==> clog_image_status(s, lsn.0, gxacts@[a])
                        == TRANSACTION_STATUS_IN_PROGRESS,
                forall|xid: u32|
                    #[trigger] twophase_candidate_upto(s, lsn.0, xid, i as int)
                        && clog_image_decided(s, lsn.0, xid) && clog_image_status(s, lsn.0, xid)
                        == TRANSACTION_STATUS_IN_PROGRESS ==> gxacts@.contains(xid),
            decreases n - i,
        {
            let ghost prev = gxacts@;
            let k = self.store.key_at(i);
            if k.tag.rel.forknum == PG_TWOPHASE_FORKNUM && k.lsn.0 <= lsn.0 {
                let xid = k.tag.blknum;
                proof {
                    assert(s[i as int].key.tag.rel.forknum == PG_TWOPHASE_FORKNUM
                        && s[i as int].key.lsn.0 <= lsn.0 && s[i as int].key.tag.blknum == xid);
                    assert(twophase_candidate(s, lsn.0, xid));
                }
                let st = match self.get_tx_status(walredo, xid, lsn) {
                    Ok(st) => st,
                    Err(e) => {
                        proof {
                            match reconstruct(s, clog_page_tag(xid), lsn.0) {
                                ReconstructView::Page(img) => {
                                    if tx_status_byteno(xid) < img.len() {
                                        assert(false);
                                    }
                                },
                                _ => {},
                            }
                            assert(!clog_image_decided(s, lsn.0, xid));
                        }
                        return Err(e);
                    },
                };
                proof {
                    if clog_image_decided(s, lsn.0, xid) {
                        assert(st == clog_image_status(s, lsn.0, xid));
                    }
                }
                if st == TRANSACTION_STATUS_IN_PROGRESS {
                    gxacts.push(xid);
                    proof {
                        assert forall|a: int|
                            0 <= a < gxacts@.len() implies twophase_candidate(
                            s,
                            lsn.0,
                            #[trigger] gxacts@[a],
                        ) by {
                            if a < prev.len() {
                                assert(gxacts@[a] == prev[a]);
                            } else {
                                assert(gxacts@[a] == xid);
                            }
                        }
                        assert forall|a: int|
                            0 <= a < gxacts@.len() && clog_image_decided(
                            s,
                            lsn.0,
                            #[trigger] gxacts@[a],
                        ) implies clog_image_status(s, lsn.0, gxacts@[a])
                            == TRANSACTION_STATUS_IN_PROGRESS by {
                            if a < prev.len() {
                                assert(gxacts@[a] == prev[a]);
                            } else {
                                assert(gxacts@[a] == xid);
                            }
                        }
                        assert forall|xid2: u32|
                            #[trigger] twophase_candidate_upto(s, lsn.0, xid2, i + 1)
                                && clog_image_decided(s, lsn.0, xid2) && clog_image_status(
                                s,
                                lsn.0,
                                xid2,
                            ) == TRANSACTION_STATUS_IN_PROGRESS implies gxacts@.contains(
                            xid2,
                        ) by {
                            if xid2 == xid {
                                assert(gxacts@[gxacts@.len() - 1] == xid);
                            } else {
                                let j = choose|j: int|
                                    0 <= j < i + 1 && j < s.len() && (#[trigger] s[j]).key.tag.rel.forknum
                                        == PG_TWOPHASE_FORKNUM && s[j].key.lsn.0 <= lsn.0
                                        && s[j].key.tag.blknum == xid2;
                                assert(j < i);
                                assert(twophase_candidate_upto(s, lsn.0, xid2, i as int));
                                let a = choose|a: int|
                                    0 <= a < prev.len() && prev[a] == xid2;
                                assert(gxacts@[a] == xid2);
                            }
                        }
                    }
                } else {
                    proof {
                        assert forall|xid2: u32|
                            #[trigger] twophase_candidate_upto(s, lsn.0, xid2, i + 1)
                                && clog_image_decided(s, lsn.0, xid2) && clog_image_status(
                                s,
                                lsn.0,
                                xid2,
                            ) == TRANSACTION_STATUS_IN_PROGRESS implies gxacts@.contains(
                            xid2,
                        ) by {
                            if xid2 == xid {
                                assert(false);
                            } else {
                                let j = choose|j: int|
                                    0 <= j < i + 1 && j < s.len() && (#[trigger] s[j]).key.tag.rel.forknum
                                        == PG_TWOPHASE_FORKNUM && s[j].key.lsn.0 <= lsn.0
                                        && s[j].key.tag.blknum == xid2;
                                assert(j < i);
                                assert(twophase_candidate_upto(s, lsn.0, xid2, i as int));
                            }
                        }
                    }
                }
            } else {
                proof {
                    assert forall|xid2: u32|
                        #[trigger] twophase_candidate_upto(s, lsn.0, xid2, i + 1)
                            && clog_image_decided(s, lsn.0, xid2) && clog_image_status(
                            s,
                            lsn.0,
                            xid2,
                        ) == TRANSACTION_STATUS_IN_PROGRESS implies gxacts@.contains(xid2) by {
                        let j = choose|j: int|
                            0 <= j < i + 1 && j < s.len() && (#[trigger] s[j]).key.tag.rel.forknum
                                == PG_TWOPHASE_FORKNUM && s[j].key.lsn.0 <= lsn.0
                                && s[j].key.tag.blknum == xid2;
                        assert(j < i);
                        assert(twophase_candidate_upto(s, lsn.0, xid2, i as int));
                    }
                }
            }
            i += 1;
        }
        proof {
            if gxacts@.len() > 0 {
                assert(twophase_candidate(s, lsn.0, gxacts@[0]));
            }
            assert forall|xid: u32|
                #[trigger] twophase_candidate(s, lsn.0, xid) && clog_image_decided(s, lsn.0, xid)
                    implies (gxacts@.contains(xid) <==> clog_image_status(s, lsn.0, xid)
                    == TRANSACTION_STATUS_IN_PROGRESS) by {
                if gxacts@.contains(xid) {
                    let a = choose|a: int| 0 <= a < gxacts@.len() && gxacts@[a] == xid;
                    assert(clog_image_decided(s, lsn.0, gxacts@[a]));
                }
                if clog_image_status(s, lsn.0, xid) == TRANSACTION_STATUS_IN_PROGRESS {
                    assert(twophase_candidate_upto(s, lsn.0, xid, n as int));
                }
            }
        }
        Ok(gxacts)
    }

    /// Creates database `(tablespace_id, db_id)` as a point-in-time copy of
    /// the template database `(src_tablespace_id, src_db_id)`: the latest
    /// stored version of every block in the template's copied forks is
    /// written verbatim under the new database's keys, all at `lsn`, so any
    /// reader at-or-past `lsn` sees a consistent clone.
    #[verifier::rlimit(100)]
    #[verifier::spinoff_prover]
    pub fn put_create_database(
        &mut self,
        lsn: Lsn,
        db_id: u32,
        tablespace_id: u32,
        src_db_id: u32,
        src_tablespace_id: u32,
    ) -> (r: Result<(), RepositoryError>)
        requires
            old(self).inv(),
        ensures
            final(self).inv(),
            r == Ok::<(), RepositoryError>(()),
            create_database_effect(
                old(self).entries(),
                final(self).entries(),
                lsn,
                db_id,
                tablespace_id,
                src_db_id,
                src_tablespace_id,
            ),
            final(self).valid_lsn() == old(self).valid_lsn(),
            final(self).record_lsn() == old(self).record_lsn(),
    {
        let ghost s0 = self.store@;
        let n = self.store.len();
        let mut coll: Vec<StoreEntry> = Vec::new();
        let mut i: usize = 0;
        while i < n
            invariant
                self.inv(),
                s0 == self.store@,
                n == s0.len(),
                i <= n,
                clone_coll_sound(s0, entry_views(coll@), src_tablespace_id, src_db_id),
                clone_coll_from(s0, entry_views(coll@), i as int),
                clone_coll_complete(s0, entry_views(coll@), src_tablespace_id, src_db_id, i as int),
            decreases n - i,
        {
            let ghost prev = entry_views(coll@);
            let k = self.store.key_at(i);
            if k.tag.rel.spcnode == src_tablespace_id && k.tag.rel.dbnode == src_db_id && (
            k.tag.rel.forknum == MAIN_FORKNUM || k.tag.rel.forknum == FSM_FORKNUM
                || k.tag.rel.forknum == VISIBILITYMAP_FORKNUM || k.tag.rel.forknum == INIT_FORKNUM
                || k.tag.rel.forknum == PG_FILENODEMAP_FORKNUM) {
                let is_last = if i + 1 == n {
                    true
                } else {
                    let k2 = self.store.key_at(i + 1);
                    k2.tag != k.tag
                };
                if is_last {
                    let v = self.store.value_at(i).duplicate();
                    let ghost vv = v@;
                    coll.push(StoreEntry { key: k, value: v });
                    proof {
                        assert(entry_views(coll@) =~= prev.push(EntryView { key: k, value: vv }));
                        assert(EntryView { key: k, value: vv } == s0[i as int]);
                        lemma_clone_collect_push(
                            s0,
                            prev,
                            entry_views(coll@),
                            i as int,
                            src_tablespace_id,
                            src_db_id,
                        );
                    }
                } else {
                    proof {
                        lemma_clone_collect_skip(
                            s0,
                            entry_views(coll@),
                            i as int,
                            src_tablespace_id,
                            src_db_id,
                        );
                    }
                }
            } else {
                proof {
                    assert(!clone_source_pattern(s0[i as int].key, src_tablespace_id, src_db_id));
                }
            }
            i += 1;
        }
        let m = coll.len();
        let mut t: usize = 0;
        while t < m
            invariant
                self.inv(),
                m == entry_views(coll@).len(),
                t <= m,
                clone_coll_sound(s0, entry_views(coll@), src_tablespace_id, src_db_id),
                clone_coll_from(s0, entry_views(coll@), s0.len() as int),
                clone_coll_complete(
                    s0,
                    entry_views(coll@),
                    src_tablespace_id,
                    src_db_id,
                    s0.len() as int,
                ),
                forall|k: RepositoryKey|
                    (!exists|a: int|
                        0 <= a < t && clone_dest_key(
                            (#[trigger] entry_views(coll@)[a]).key,
                            lsn,
                            tablespace_id,
                            db_id,
                        ) == k) ==> #[trigger] lookup(self.store@, k) == lookup(s0, k),
                forall|a: int|
                    0 <= a < t ==> #[trigger] lookup(
                        self.store@,
                        clone_dest_key(entry_views(coll@)[a].key, lsn, tablespace_id, db_id),
                    ) == Some(entry_views(coll@)[a].value),
                self.valid_lsn() == old(self).valid_lsn(),
                self.record_lsn() == old(self).record_lsn(),
            decreases m - t,
        {
            let e_key = coll[t].key;
            let dest = RepositoryKey {
                tag: BufferTag {
                    rel: RelTag {
                        forknum: e_key.tag.rel.forknum,
                        spcnode: tablespace_id,
                        dbnode: db_id,
                        relnode: e_key.tag.rel.relnode,
                    },
                    blknum: e_key.tag.blknum,
                },
                lsn,
            };
            let v = coll[t].value.duplicate();
            let ghost before = self.store@;
            proof {
                assert(entry_views(coll@)[t as int].key == coll@[t as int].key);
                assert(entry_views(coll@)[t as int].key.tag.blknum < INVALID_BLOCK_NUMBER);
            }
            let _ = self.put_raw_data(dest, v);
            proof {
                let cv = entry_views(coll@);
                assert(dest == clone_dest_key(cv[t as int].key, lsn, tablespace_id, db_id));
                assert forall|k: RepositoryKey|
                    (!exists|a: int|
                        0 <= a < t + 1 && clone_dest_key(
                            (#[trigger] cv[a]).key,
                            lsn,
                            tablespace_id,
                            db_id,
                        ) == k) implies #[trigger] lookup(self.store@, k) == lookup(s0, k) by {
                    assert(k != dest);
                    assert(lookup(self.store@, k) == lookup(before, k));
                }
                assert forall|a: int|
                    0 <= a < t + 1 implies #[trigger] lookup(
                    self.store@,
                    clone_dest_key(cv[a].key, lsn, tablespace_id, db_id),
                ) == Some(cv[a].value) by {
                    let dk = clone_dest_key(cv[a].key, lsn, tablespace_id, db_id);
                    if a == t {
                        assert(dk == dest);
                    } else {
                        if dk == dest {
                            assert(cv[a].key.tag == cv[t as int].key.tag);
                            assert(latest_le(s0, cv[a].key.tag, u64::MAX) == Some(
                                (cv[a].key.lsn.0, cv[a].value),
                            ));
                            assert(cv[a].key.lsn.0 == cv[t as int].key.lsn.0);
                            assert(cv[a].key == cv[t as int].key);
                            assert(false);
                        }
                        assert(lookup(self.store@, dk) == lookup(before, dk));
                    }
                }
            }
            t += 1;
        }
        proof {
            let cv = entry_views(coll@);
            assert forall|k: RepositoryKey|
                #[trigger] lookup(self.store@, k) == (if k.lsn == lsn && k.tag.rel.spcnode
                    == tablespace_id && k.tag.rel.dbnode == db_id && fork_in_clone_set(
                    k.tag.rel.forknum,
                ) && latest_le(
                    s0,
                    clone_source_tag(k, src_tablespace_id, src_db_id),
                    u64::MAX,
                ) is Some {
                    Some(latest_le(
                        s0,
                        clone_source_tag(k, src_tablespace_id, src_db_id),
                        u64::MAX,
                    ).unwrap().1)
                } else {
                    lookup(s0, k)
                }) by {
                let st = clone_source_tag(k, src_tablespace_id, src_db_id);
                if k.lsn == lsn && k.tag.rel.spcnode == tablespace_id && k.tag.rel.dbnode == db_id
                    && fork_in_clone_set(k.tag.rel.forknum) && latest_le(s0, st, u64::MAX) is Some {
                    lemma_latest_le_props(s0, st, u64::MAX);
                    let p = latest_le(s0, st, u64::MAX).unwrap();
                    let iw = choose|iw: int|
                        0 <= iw < s0.len() && (#[trigger] s0[iw]).key == (RepositoryKey {
                            tag: st,
                            lsn: Lsn(p.0),
                        }) && s0[iw].value == p.1;
                    assert(clone_source_pattern(s0[iw].key, src_tablespace_id, src_db_id));
                    if iw < s0.len() - 1 && s0[iw + 1].key.tag == s0[iw].key.tag {
                        assert(key_lt(s0[iw].key, s0[iw + 1].key));
                        assert(s0[iw + 1].key.lsn.0 > p.0);
                        assert(s0[iw + 1].key.tag == st && s0[iw + 1].key.lsn.0 <= u64::MAX);
                        assert(false);
                    }
                    let a = choose|a: int| 0 <= a < cv.len() && (#[trigger] cv[a]) == s0[iw];
                    assert(clone_dest_key(cv[a].key, lsn, tablespace_id, db_id) == k);
                    assert(lookup(self.store@, k) == Some(cv[a].value));
                } else {
                    assert forall|a: int|
                        0 <= a < cv.len() implies clone_dest_key(
                        (#[trigger] cv[a]).key,
                        lsn,
                        tablespace_id,
                        db_id,
                    ) != k by {
                        let e = cv[a];
                        let dk = clone_dest_key(e.key, lsn, tablespace_id, db_id);
                        if dk == k {
                            assert(clone_source_tag(k, src_tablespace_id, src_db_id) == e.key.tag);
                            assert(latest_le(s0, e.key.tag, u64::MAX) is Some);
                            assert(false);
                        }
                    }
                }
            }
        }
        Ok(())
    }

    /// Digests one decoded WAL record: stores its effect for every block it
    /// touches, then handles the storage-manager truncation and CREATE
    /// DATABASE record types, and finally advances the WAL resume point to
    /// `lsn`.  A special record whose payload cannot be read fails with
    /// `MalformedRecord`; the block effects are already stored then, but the
    /// resume point stays put.
    pub fn save_decoded_record(
        &mut self,
        decoded: &DecodedWALRecord,
        recdata: &Vec<u8>,
        lsn: Lsn,
    ) -> (r: Result<(), RepositoryError>)
        requires
            old(self).inv(),
            forall|bi: int|
                0 <= bi < decoded.blocks@.len() ==> (#[trigger] decoded.blocks@[bi]).blkno
                    < INVALID_BLOCK_NUMBER,
        ensures
            final(self).inv(),
            ({
                let is_trunc = decoded.xl_rmid == RM_SMGR_ID && (decoded.xl_info
                    & XLR_RMGR_INFO_MASK) == XLOG_SMGR_TRUNCATE;
                let is_create = decoded.xl_rmid == RM_DBASE_ID && (decoded.xl_info
                    & XLR_RMGR_INFO_MASK) == XLOG_DBASE_CREATE;
                let mdo = decoded.main_data_offset as int;
                &&& r == (if (is_trunc && !smgr_truncate_parseable(recdata@, mdo)) || (is_create
                    && !create_database_parseable(recdata@, mdo)) {
                    Err::<(), RepositoryError>(RepositoryError::MalformedRecord)
                } else {
                    Ok::<(), RepositoryError>(())
                })
                &&& (r is Err ==> {
                    &&& fanout_effect(
                        old(self).entries(),
                        final(self).entries(),
                        decoded.blocks@,
                        recdata@,
                        decoded.main_data_offset,
                        lsn,
                    )
                    &&& final(self).valid_lsn() == old(self).valid_lsn()
                    &&& final(self).record_lsn() == old(self).record_lsn()
                })
                &&& (r is Ok ==> {
                    &&& final(self).record_lsn() == if lsn.0 >= old(self).record_lsn() {
                        lsn.0
                    } else {
                        old(self).record_lsn()
                    }
                    &&& final(self).valid_lsn() == if lsn.0 >= old(self).valid_lsn() {
                        lsn.0
                    } else {
                        old(self).valid_lsn()
                    }
                })
                &&& (r is Ok && is_trunc && smgr_truncate_at(recdata@, mdo).flags
                    & SMGR_TRUNCATE_HEAP != 0 ==> exists|mid: Seq<EntryView>|
                    {
                        let tr = smgr_truncate_at(recdata@, mdo);
                        &&& #[trigger] fanout_effect(
                            old(self).entries(),
                            mid,
                            decoded.blocks@,
                            recdata@,
                            decoded.main_data_offset,
                            lsn,
                        )
                        &&& truncate_effect(
                            mid,
                            final(self).entries(),
                            RelTag {
                                forknum: MAIN_FORKNUM,
                                spcnode: tr.rnode_spcnode,
                                dbnode: tr.rnode_dbnode,
                                relnode: tr.rnode_relnode,
                            },
                            lsn,
                            tr.blkno,
                        )
                    })
                &&& (r is Ok && is_create ==> exists|mid: Seq<EntryView>|
                    {
                        let cr = create_database_at(recdata@, mdo);
                        &&& #[trigger] fanout_effect(
                            old(self).entries(),
                            mid,
                            decoded.blocks@,
                            recdata@,
                            decoded.main_data_offset,
                            lsn,
                        )
                        &&& create_database_effect(
                            mid,
                            final(self).entries(),
                            lsn,
                            cr.db_id,
                            cr.tablespace_id,
                            cr.src_db_id,
                            cr.src_tablespace_id,
                        )
                    })
                &&& (r is Ok && !is_trunc && !is_create ==> fanout_effect(
                    old(self).entries(),
                    final(self).entries(),
                    decoded.blocks@,
                    recdata@,
                    decoded.main_data_offset,
                    lsn,
                ))
                &&& (r is Ok && is_trunc && smgr_truncate_at(recdata@, mdo).flags
                    & SMGR_TRUNCATE_HEAP == 0 ==> fanout_effect(
                    old(self).entries(),
                    final(self).entries(),
                    decoded.blocks@,
                    recdata@,
                    decoded.main_data_offset,
                    lsn,
                ))
            }),
    {
        let ghost s0 = self.store@;
        let ghost blocks = decoded.blocks@;
        let nb = decoded.blocks.len();
        let mut i: usize = 0;
        while i < nb
            invariant
                self.inv(),
                nb == blocks.len(),
                blocks == decoded.blocks@,
                i <= nb,
                forall|bi: int|
                    0 <= bi < blocks.len() ==> (#[trigger] blocks[bi]).blkno
                        < INVALID_BLOCK_NUMBER,
                forall|k: RepositoryKey|
                    #[trigger] lookup(self.store@, k) == (match last_block_for(
                        blocks.subrange(0, i as int),
                        k,
                        lsn,
                    ) {
                        Some(blk) => Some(
                            block_value(blk, recdata@, decoded.main_data_offset, lsn),
                        ),
                        None => lookup(s0, k),
                    }),
                self.valid_lsn() == old(self).valid_lsn(),
                self.record_lsn() == old(self).record_lsn(),
            decreases nb - i,
        {
            let blk = decoded.blocks[i];
            let tag = BufferTag {
                rel: RelTag {
                    forknum: blk.forknum,
                    spcnode: blk.rnode_spcnode,
                    dbnode: blk.rnode_dbnode,
                    relnode: blk.rnode_relnode,
                },
                blknum: blk.blkno,
            };
            let ghost before = self.store@;
            if blk.will_drop {
                let _ = self.put_drop(tag, lsn);
            } else {
                let rec = WALRecord {
                    lsn,
                    will_init: blk.will_init || blk.apply_image,
                    rec: clone_bytes(recdata),
                    main_data_offset: decoded.main_data_offset,
                };
                let _ = self.put_wal_record(tag, rec);
            }
            proof {
                let key_i = block_key(blocks[i as int], lsn);
                let val_i = block_value(blocks[i as int], recdata@, decoded.main_data_offset, lsn);
                assert(lookup(self.store@, key_i) == Some(val_i));
                assert forall|k: RepositoryKey|
                    #[trigger] lookup(self.store@, k) == (match last_block_for(
                        blocks.subrange(0, i + 1),
                        k,
                        lsn,
                    ) {
                        Some(blk2) => Some(
                            block_value(blk2, recdata@, decoded.main_data_offset, lsn),
                        ),
                        None => lookup(s0, k),
                    }) by {
                    let pfx = blocks.subrange(0, i + 1);
                    assert(pfx.drop_last() =~= blocks.subrange(0, i as int));
                    assert(pfx.last() == blocks[i as int]);
                    if k != key_i {
                        assert(lookup(self.store@, k) == lookup(before, k));
                    }
                }
            }
            i += 1;
        }
        proof {
            assert(blocks.subrange(0, nb as int) =~= blocks);
        }
        let ghost mid = self.store@;
        if decoded.xl_rmid == RM_SMGR_ID && (decoded.xl_info & XLR_RMGR_INFO_MASK)
            == XLOG_SMGR_TRUNCATE {
            let truncate = match XlSmgrTruncate::decode(recdata, decoded.main_data_offset) {
                Some(truncate) => truncate,
                None => {
                    return Err(RepositoryError::MalformedRecord);
                },
            };
            if truncate.flags & SMGR_TRUNCATE_HEAP != 0 {
                let rel = RelTag {
                    forknum: MAIN_FORKNUM,
                    spcnode: truncate.rnode_spcnode,
                    dbnode: truncate.rnode_dbnode,
                    relnode: truncate.rnode_relnode,
                };
                let _ = self.put_truncation(rel, lsn, truncate.blkno);
                proof {
                    assert(fanout_effect(
                        s0,
                        mid,
                        blocks,
                        recdata@,
                        decoded.main_data_offset,
                        lsn,
                    ));
                }
            }
        } else if decoded.xl_rmid == RM_DBASE_ID && (decoded.xl_info & XLR_RMGR_INFO_MASK)
            == XLOG_DBASE_CREATE {
            let createdb = match XlCreateDatabase::decode(recdata, decoded.main_data_offset) {
                Some(createdb) => createdb,
                None => {
                    return Err(RepositoryError::MalformedRecord);
                },
            };
            let _ = self.put_create_database(
                lsn,
                createdb.db_id,
                createdb.tablespace_id,
                createdb.src_db_id,
                createdb.src_tablespace_id,
            );
            proof {
                assert(fanout_effect(s0, mid, blocks, recdata@, decoded.main_data_offset, lsn));
            }
        }
        self.advance_last_record_lsn(lsn);
        Ok(())
    }
}

} // verus!
