//! Tests of the versioned page repository: versioned reads, relation sizes,
//! truncation, the WAL fan-out, and the repository container.

use pageserver::errors::RepositoryError;
use pageserver::remote_storage::{strip_path_prefix, StripPrefixError};
use pageserver::lsn::Lsn;
use pageserver::page_version::PageVersion;
use pageserver::pg_constants;
use pageserver::repository::{Repository, ZTimelineId};
use pageserver::tag::{BufferTag, RelTag, RepositoryKey};
use pageserver::timeline::Timeline;
use pageserver::waldecoder::{DecodedBkpBlock, DecodedWALRecord};
use pageserver::walrecord::WALRecord;
use pageserver::walredo::WalRedoManager;

/// Arbitrary relation tag, for testing.
const TESTREL_A: RelTag = RelTag {
    forknum: 0,
    spcnode: 0,
    dbnode: 111,
    relnode: 1000,
};

/// Convenience function to create a BufferTag for testing.
#[allow(non_snake_case)]
fn TEST_BUF(blknum: u32) -> BufferTag {
    BufferTag {
        rel: TESTREL_A,
        blknum,
    }
}

/// Convenience function to create a page image with given string as the only content.
#[allow(non_snake_case)]
fn TEST_IMG(s: &str) -> Vec<u8> {
    let mut buf = s.as_bytes().to_vec();
    buf.resize(8192, 0);
    buf
}

/// Mock WAL redo manager that formats a description of its input.
struct TestRedoManager {}

impl WalRedoManager for TestRedoManager {
    fn request_redo(
        &self,
        tag: BufferTag,
        lsn: Lsn,
        base_img: Option<Vec<u8>>,
        records: Vec<WALRecord>,
    ) -> Result<Vec<u8>, RepositoryError> {
        let s = format!(
            "redo for rel {}/{}/{} blk {} to get to {}, with {} and {} records",
            tag.rel.spcnode,
            tag.rel.dbnode,
            tag.rel.relnode,
            tag.blknum,
            lsn.0,
            if base_img.is_some() {
                "base image"
            } else {
                "no base image"
            },
            records.len()
        );
        Ok(TEST_IMG(&s))
    }
}

/// A redo manager that always fails.
struct FailRedoManager {}

impl WalRedoManager for FailRedoManager {
    fn request_redo(
        &self,
        _tag: BufferTag,
        _lsn: Lsn,
        _base_img: Option<Vec<u8>>,
        _records: Vec<WALRecord>,
    ) -> Result<Vec<u8>, RepositoryError> {
        Err(RepositoryError::RedoFailed)
    }
}

/// A repository with one empty timeline; the test name mirrors the on-disk
/// directory a real repository would be created under.
fn test_timeline(_test_name: &str) -> (Repository, usize) {
    let mut repo = Repository::new();
    let timelineid = ZTimelineId::from_hex("11223344556677881122334455667788").unwrap();
    let h = repo.create_empty_timeline(timelineid).unwrap();
    (repo, h)
}

/// Test get_relsize() and truncation.
#[test]
fn test_relsize() {
    let (mut repo, h) = test_timeline("test_relsize");
    let tline = repo.timeline_mut(h);
    let walredo = TestRedoManager {};

    tline.init_valid_lsn(Lsn(1));
    tline.put_page_image(TEST_BUF(0), Lsn(2), TEST_IMG("foo blk 0 at 2")).unwrap();
    tline.put_page_image(TEST_BUF(0), Lsn(2), TEST_IMG("foo blk 0 at 2")).unwrap();
    tline.put_page_image(TEST_BUF(0), Lsn(3), TEST_IMG("foo blk 0 at 3")).unwrap();
    tline.put_page_image(TEST_BUF(1), Lsn(4), TEST_IMG("foo blk 1 at 4")).unwrap();
    tline.put_page_image(TEST_BUF(2), Lsn(5), TEST_IMG("foo blk 2 at 5")).unwrap();

    tline.advance_last_valid_lsn(Lsn(5));

    // The relation does not exist before its first write.
    assert_eq!(tline.get_relsize_exists(TESTREL_A, Lsn(1)).unwrap(), false);
    assert_eq!(tline.get_relsize(TESTREL_A, Lsn(1)).unwrap(), 0);

    assert_eq!(tline.get_relsize_exists(TESTREL_A, Lsn(2)).unwrap(), true);
    assert_eq!(tline.get_relsize(TESTREL_A, Lsn(2)).unwrap(), 1);
    assert_eq!(tline.get_relsize(TESTREL_A, Lsn(5)).unwrap(), 3);

    // Check page contents at each LSN
    assert_eq!(
        tline.get_page_at_lsn(&walredo, TEST_BUF(0), Lsn(2)).unwrap(),
        TEST_IMG("foo blk 0 at 2")
    );

    assert_eq!(
        tline.get_page_at_lsn(&walredo, TEST_BUF(0), Lsn(3)).unwrap(),
        TEST_IMG("foo blk 0 at 3")
    );

    assert_eq!(
        tline.get_page_at_lsn(&walredo, TEST_BUF(0), Lsn(4)).unwrap(),
        TEST_IMG("foo blk 0 at 3")
    );
    assert_eq!(
        tline.get_page_at_lsn(&walredo, TEST_BUF(1), Lsn(4)).unwrap(),
        TEST_IMG("foo blk 1 at 4")
    );

    assert_eq!(
        tline.get_page_at_lsn(&walredo, TEST_BUF(0), Lsn(5)).unwrap(),
        TEST_IMG("foo blk 0 at 3")
    );
    assert_eq!(
        tline.get_page_at_lsn(&walredo, TEST_BUF(1), Lsn(5)).unwrap(),
        TEST_IMG("foo blk 1 at 4")
    );
    assert_eq!(
        tline.get_page_at_lsn(&walredo, TEST_BUF(2), Lsn(5)).unwrap(),
        TEST_IMG("foo blk 2 at 5")
    );

    // Truncate last block
    tline.put_truncation(TESTREL_A, Lsn(6), 2).unwrap();
    tline.advance_last_valid_lsn(Lsn(6));

    // Check reported size and contents after truncation
    assert_eq!(tline.get_relsize(TESTREL_A, Lsn(6)).unwrap(), 2);
    assert_eq!(
        tline.get_page_at_lsn(&walredo, TEST_BUF(0), Lsn(6)).unwrap(),
        TEST_IMG("foo blk 0 at 3")
    );
    assert_eq!(
        tline.get_page_at_lsn(&walredo, TEST_BUF(1), Lsn(6)).unwrap(),
        TEST_IMG("foo blk 1 at 4")
    );

    // should still see the truncated block with older LSN
    assert_eq!(tline.get_relsize(TESTREL_A, Lsn(5)).unwrap(), 3);
    assert_eq!(
        tline.get_page_at_lsn(&walredo, TEST_BUF(2), Lsn(5)).unwrap(),
        TEST_IMG("foo blk 2 at 5")
    );
}

/// Test get_relsize() and truncation with a file larger than 1 GB, so that it's
/// split into multiple 1 GB segments in Postgres.
#[test]
fn test_large_rel() {
    let (mut repo, h) = test_timeline("test_large_rel");
    let tline = repo.timeline_mut(h);

    tline.init_valid_lsn(Lsn(1));

    let mut lsn = 0u64;
    for i in 0..pg_constants::RELSEG_SIZE + 1 {
        let img = TEST_IMG(&format!("foo blk {} at {}", i, lsn));
        lsn += 1;
        tline.put_page_image(TEST_BUF(i), Lsn(lsn), img).unwrap();
    }
    tline.advance_last_valid_lsn(Lsn(lsn));

    assert_eq!(
        tline.get_relsize(TESTREL_A, Lsn(lsn)).unwrap(),
        pg_constants::RELSEG_SIZE + 1
    );

    // Truncate one block
    lsn += 1;
    tline.put_truncation(TESTREL_A, Lsn(lsn), pg_constants::RELSEG_SIZE).unwrap();
    tline.advance_last_valid_lsn(Lsn(lsn));
    assert_eq!(
        tline.get_relsize(TESTREL_A, Lsn(lsn)).unwrap(),
        pg_constants::RELSEG_SIZE
    );

    // Truncate another block
    lsn += 1;
    tline.put_truncation(TESTREL_A, Lsn(lsn), pg_constants::RELSEG_SIZE - 1).unwrap();
    tline.advance_last_valid_lsn(Lsn(lsn));
    assert_eq!(
        tline.get_relsize(TESTREL_A, Lsn(lsn)).unwrap(),
        pg_constants::RELSEG_SIZE - 1
    );
}

/// A truncated block is gone at the truncation LSN but stays visible at
/// older LSNs.
#[test]
fn test_truncated_block_not_found() {
    let (mut repo, h) = test_timeline("truncated");
    let tline = repo.timeline_mut(h);
    let walredo = TestRedoManager {};

    tline.init_valid_lsn(Lsn(1));
    tline.put_page_image(TEST_BUF(0), Lsn(2), TEST_IMG("blk 0")).unwrap();
    tline.put_page_image(TEST_BUF(2), Lsn(5), TEST_IMG("blk 2")).unwrap();
    tline.advance_last_valid_lsn(Lsn(5));
    tline.put_truncation(TESTREL_A, Lsn(6), 1).unwrap();
    tline.advance_last_valid_lsn(Lsn(6));

    assert_eq!(
        tline.get_page_at_lsn(&walredo, TEST_BUF(2), Lsn(6)),
        Err(RepositoryError::PageNotFound)
    );
    assert_eq!(
        tline.get_page_at_lsn(&walredo, TEST_BUF(2), Lsn(5)).unwrap(),
        TEST_IMG("blk 2")
    );
    assert_eq!(tline.get_relsize(TESTREL_A, Lsn(6)).unwrap(), 1);
}

/// The key codec round trips, and encoded key order is tuple order.
#[test]
fn test_key_codec() {
    let k = RepositoryKey {
        tag: BufferTag {
            rel: RelTag {
                forknum: 3,
                spcnode: 1,
                dbnode: 0x01020304,
                relnode: 0xA0B0C0D0,
            },
            blknum: 42,
        },
        lsn: Lsn(0x0102030405060708),
    };
    let bytes = k.to_bytes();
    assert_eq!(bytes.len(), 25);

    // The exact wire format: fork, tablespace, database, relation, block,
    // LSN, all big-endian.
    let simple = RepositoryKey {
        tag: BufferTag {
            rel: RelTag {
                forknum: 1,
                spcnode: 2,
                dbnode: 3,
                relnode: 4,
            },
            blknum: 5,
        },
        lsn: Lsn(6),
    };
    assert_eq!(
        simple.to_bytes(),
        vec![
            1, 0, 0, 0, 2, 0, 0, 0, 3, 0, 0, 0, 4, 0, 0, 0, 5, 0, 0, 0, 0, 0, 0, 0, 6
        ]
    );
    let k2 = RepositoryKey::from_slice(&bytes);
    assert_eq!(k2, k);
    let bytes2 = k2.to_bytes();
    assert_eq!(bytes2, bytes);

    // Byte order mirrors tuple order on (fork, spc, db, rel, block, lsn).
    let smaller = RepositoryKey {
        tag: BufferTag {
            rel: RelTag {
                forknum: 3,
                spcnode: 1,
                dbnode: 0x01020304,
                relnode: 0xA0B0C0D0,
            },
            blknum: 41,
        },
        lsn: Lsn(u64::MAX),
    };
    assert!(smaller.to_bytes() < k.to_bytes());
    let bigger_fork = RepositoryKey {
        tag: BufferTag {
            rel: RelTag {
                forknum: 4,
                spcnode: 0,
                dbnode: 0,
                relnode: 0,
            },
            blknum: 0,
        },
        lsn: Lsn(0),
    };
    assert!(k.to_bytes() < bigger_fork.to_bytes());
}

/// The WAL record codec round trips.
#[test]
fn test_walrecord_codec() {
    let rec = WALRecord {
        lsn: Lsn(7),
        will_init: true,
        rec: vec![1, 2, 3, 4, 5],
        main_data_offset: 3,
    };
    let mut buf = Vec::new();
    rec.pack(&mut buf);
    assert_eq!(buf.len(), 17 + 5);
    let (rec2, end) = WALRecord::unpack(&buf, 0);
    assert_eq!(end, buf.len());
    assert_eq!(rec2.lsn, Lsn(7));
    assert_eq!(rec2.will_init, true);
    assert_eq!(rec2.rec, vec![1, 2, 3, 4, 5]);
    assert_eq!(rec2.main_data_offset, 3);
}

/// The WAL resume point never overtakes the reader frontier.
#[test]
fn test_frontier_order() {
    let mut tline = Timeline::new();
    assert_eq!(tline.get_last_valid_lsn(), Lsn(0));
    assert_eq!(tline.get_last_record_lsn(), Lsn(0));
    tline.init_valid_lsn(Lsn(10));
    assert_eq!(tline.get_last_valid_lsn(), Lsn(10));
    assert_eq!(tline.get_last_record_lsn(), Lsn(10));
    // Advancing the resume point carries the frontier along.
    tline.advance_last_record_lsn(Lsn(20));
    assert_eq!(tline.get_last_record_lsn(), Lsn(20));
    assert_eq!(tline.get_last_valid_lsn(), Lsn(20));
    // Advances are monotonic: going back is a no-op.
    tline.advance_last_valid_lsn(Lsn(5));
    tline.advance_last_record_lsn(Lsn(5));
    assert_eq!(tline.get_last_valid_lsn(), Lsn(20));
    assert_eq!(tline.get_last_record_lsn(), Lsn(20));
    assert!(tline.get_last_record_lsn().0 <= tline.get_last_valid_lsn().0);
}

/// wait_lsn answers once the frontier reaches the requested LSN.
#[test]
fn test_wait_lsn() {
    let mut tline = Timeline::new();
    tline.init_valid_lsn(Lsn(50));
    assert_eq!(
        tline.wait_lsn(Lsn(100)),
        Err(RepositoryError::WaitedTooLong)
    );
    assert_eq!(
        tline.get_page_at_lsn(&TestRedoManager {}, TEST_BUF(0), Lsn(100)),
        Err(RepositoryError::WaitedTooLong)
    );
    tline.advance_last_valid_lsn(Lsn(100));
    assert_eq!(tline.wait_lsn(Lsn(100)), Ok(Lsn(100)));
}

/// Relation size is one past the largest block with a version at-or-before
/// the LSN, even with a gap below it.
#[test]
fn test_relsize_is_max_block() {
    let mut tline = Timeline::new();
    tline.init_valid_lsn(Lsn(1));
    tline.put_page_image(TEST_BUF(0), Lsn(2), TEST_IMG("zero")).unwrap();
    tline.put_page_image(TEST_BUF(5), Lsn(3), TEST_IMG("five")).unwrap();
    tline.advance_last_valid_lsn(Lsn(3));
    assert_eq!(tline.get_relsize(TESTREL_A, Lsn(2)).unwrap(), 1);
    assert_eq!(tline.get_relsize(TESTREL_A, Lsn(3)).unwrap(), 6);
}

/// The redo chain handed to the redo manager: base image plus the records
/// after it, in forward LSN order.
#[test]
fn test_redo_chain() {
    let mut tline = Timeline::new();
    tline.init_valid_lsn(Lsn(1));
    tline.put_page_image(TEST_BUF(0), Lsn(10), TEST_IMG("base")).unwrap();
    for lsn in [11u64, 12, 13] {
        let rec = WALRecord {
            lsn: Lsn(lsn),
            will_init: false,
            rec: vec![lsn as u8],
            main_data_offset: 0,
        };
        tline.put_wal_record(TEST_BUF(0), rec).unwrap();
    }
    tline.advance_last_valid_lsn(Lsn(13));

    let data = tline.get_page_reconstruct_data(TEST_BUF(0), Lsn(13)).unwrap();
    assert_eq!(data.page_img, Some(TEST_IMG("base")));
    let lsns: Vec<u64> = data.records.iter().map(|r| r.lsn.0).collect();
    assert_eq!(lsns, vec![11, 12, 13]);
    assert!(!data.records[0].will_init);

    // The redo manager is invoked with that chain.
    let walredo = TestRedoManager {};
    let page = tline.get_page_at_lsn(&walredo, TEST_BUF(0), Lsn(13)).unwrap();
    let expected = format!(
        "redo for rel {}/{}/{} blk {} to get to {}, with {} and {} records",
        TESTREL_A.spcnode, TESTREL_A.dbnode, TESTREL_A.relnode, 0, 13, "base image", 3
    );
    assert_eq!(page, TEST_IMG(&expected));

    // Reads extend monotonically: the chain at LSN 12 is a prefix of the
    // chain at LSN 13, from the same base.
    let earlier = tline.get_page_reconstruct_data(TEST_BUF(0), Lsn(12)).unwrap();
    assert_eq!(earlier.page_img, data.page_img);
    let earlier_lsns: Vec<u64> = earlier.records.iter().map(|r| r.lsn.0).collect();
    assert_eq!(earlier_lsns, vec![11, 12]);
    assert_eq!(earlier_lsns, lsns[..2].to_vec());

    // A chain closed by an initialising record needs no base image.
    let rec = WALRecord {
        lsn: Lsn(14),
        will_init: true,
        rec: vec![14],
        main_data_offset: 0,
    };
    tline.put_wal_record(TEST_BUF(1), rec).unwrap();
    tline.advance_last_valid_lsn(Lsn(14));
    let data = tline.get_page_reconstruct_data(TEST_BUF(1), Lsn(14)).unwrap();
    assert_eq!(data.page_img, None);
    assert_eq!(data.records.len(), 1);
    assert!(data.records[0].will_init);

    // A redo manager failure surfaces verbatim.
    assert_eq!(
        tline.get_page_at_lsn(&FailRedoManager {}, TEST_BUF(0), Lsn(13)),
        Err(RepositoryError::RedoFailed)
    );
}

/// get_page_image peeks at one exact version.
#[test]
fn test_get_page_image() {
    let mut tline = Timeline::new();
    tline.init_valid_lsn(Lsn(1));
    tline.put_page_image(TEST_BUF(0), Lsn(2), TEST_IMG("exact")).unwrap();
    assert_eq!(
        tline.get_page_image(TEST_BUF(0), Lsn(2)).unwrap(),
        Some(TEST_IMG("exact"))
    );
    assert_eq!(tline.get_page_image(TEST_BUF(0), Lsn(3)).unwrap(), None);
    assert_eq!(tline.get_page_image(TEST_BUF(1), Lsn(2)).unwrap(), None);
}

/// get_range reports the bounds of the blocks existing at the query LSN,
/// counting exactly as get_relsize does.
#[test]
fn test_get_range() {
    let mut tline = Timeline::new();
    tline.init_valid_lsn(Lsn(1));
    tline.put_page_image(TEST_BUF(3), Lsn(2), TEST_IMG("three")).unwrap();
    tline.put_page_image(TEST_BUF(7), Lsn(3), TEST_IMG("seven")).unwrap();
    tline.advance_last_valid_lsn(Lsn(3));
    assert_eq!(tline.get_range(TESTREL_A, Lsn(3)).unwrap(), (3, 8));
    // Blocks written after the query LSN do not count.
    assert_eq!(tline.get_range(TESTREL_A, Lsn(2)).unwrap(), (3, 4));
    assert_eq!(tline.get_range(TESTREL_A, Lsn(1)).unwrap(), (0, 0));
    let other = RelTag {
        forknum: 0,
        spcnode: 9,
        dbnode: 9,
        relnode: 9,
    };
    assert_eq!(tline.get_range(other, Lsn(3)).unwrap(), (0, 0));
}

/// get_range over a versioned history: the range tracks the relation size
/// through writes and truncation.
#[test]
fn test_get_range_versions() {
    let mut tline = Timeline::new();
    tline.init_valid_lsn(Lsn(1));
    tline.put_page_image(TEST_BUF(0), Lsn(2), TEST_IMG("blk 0 at 2")).unwrap();
    tline.put_page_image(TEST_BUF(0), Lsn(3), TEST_IMG("blk 0 at 3")).unwrap();
    tline.put_page_image(TEST_BUF(1), Lsn(4), TEST_IMG("blk 1 at 4")).unwrap();
    tline.put_page_image(TEST_BUF(2), Lsn(5), TEST_IMG("blk 2 at 5")).unwrap();
    tline.advance_last_valid_lsn(Lsn(5));
    assert_eq!(tline.get_range(TESTREL_A, Lsn(1)).unwrap(), (0, 0));
    assert_eq!(tline.get_range(TESTREL_A, Lsn(2)).unwrap(), (0, 1));
    assert_eq!(tline.get_range(TESTREL_A, Lsn(5)).unwrap(), (0, 3));
    // Truncation caps the upper bound from its LSN onwards.
    tline.put_truncation(TESTREL_A, Lsn(6), 2).unwrap();
    tline.advance_last_valid_lsn(Lsn(6));
    assert_eq!(tline.get_range(TESTREL_A, Lsn(6)).unwrap(), (0, 2));
    assert_eq!(tline.get_range(TESTREL_A, Lsn(5)).unwrap(), (0, 3));
}

/// get_databases enumerates the distinct databases with a filenode map.
#[test]
fn test_get_databases() {
    let mut tline = Timeline::new();
    tline.init_valid_lsn(Lsn(1));
    let db_rel = |spc: u32, db: u32| RelTag {
        forknum: pg_constants::PG_FILENODEMAP_FORKNUM,
        spcnode: spc,
        dbnode: db,
        relnode: 0,
    };
    for (spc, db, lsn) in [(1, 10, 2u64), (1, 10, 3), (1, 20, 4), (2, 30, 9)] {
        let tag = BufferTag {
            rel: db_rel(spc, db),
            blknum: 0,
        };
        tline.put_page_image(tag, Lsn(lsn), TEST_IMG("map")).unwrap();
    }
    tline.advance_last_valid_lsn(Lsn(9));
    let dbs = tline.get_databases(Lsn(5)).unwrap();
    assert_eq!(dbs, vec![db_rel(1, 10), db_rel(1, 20)]);
    let dbs = tline.get_databases(Lsn(9)).unwrap();
    assert_eq!(dbs.len(), 3);
}

/// Commit-log status bits are read from the right byte of the right page.
#[test]
fn test_tx_status() {
    let mut tline = Timeline::new();
    let walredo = TestRedoManager {};
    tline.init_valid_lsn(Lsn(1));
    // xid 0 committed (01), xid 1 aborted (10), xid 2 in progress (00).
    let mut page = vec![0u8; 8192];
    page[0] = 0b0000_1001;
    let clog_tag = BufferTag {
        rel: RelTag {
            forknum: pg_constants::PG_XACT_FORKNUM,
            spcnode: 0,
            dbnode: 0,
            relnode: 0,
        },
        blknum: 0,
    };
    tline.put_page_image(clog_tag, Lsn(2), page).unwrap();
    tline.advance_last_valid_lsn(Lsn(2));
    assert_eq!(
        tline.get_tx_status(&walredo, 0, Lsn(2)).unwrap(),
        pg_constants::TRANSACTION_STATUS_COMMITTED
    );
    assert_eq!(
        tline.get_tx_status(&walredo, 1, Lsn(2)).unwrap(),
        pg_constants::TRANSACTION_STATUS_ABORTED
    );
    assert_eq!(
        tline.get_tx_status(&walredo, 2, Lsn(2)).unwrap(),
        pg_constants::TRANSACTION_STATUS_IN_PROGRESS
    );
    // A commit-log page too short for the xid reports corrupt storage.
    let short_tag = BufferTag {
        rel: clog_tag.rel,
        blknum: 1,
    };
    tline.put_page_image(short_tag, Lsn(2), vec![0u8; 1]).unwrap();
    assert_eq!(
        tline.get_tx_status(&walredo, pg_constants::CLOG_XACTS_PER_PAGE + 100, Lsn(2)),
        Err(RepositoryError::StorageError)
    );
}

/// Two-phase transactions still in progress are enumerated.
#[test]
fn test_get_twophase() {
    let mut tline = Timeline::new();
    let walredo = TestRedoManager {};
    tline.init_valid_lsn(Lsn(1));
    // With no two-phase entry at all, the scan succeeds with nothing.
    assert_eq!(tline.get_twophase(&walredo, Lsn(1)).unwrap(), Vec::<u32>::new());
    // Statuses: xid 7 in progress (00), xid 8 committed (01).
    let mut page = vec![0u8; 8192];
    page[2] = 0b0000_0001;
    let clog_tag = BufferTag {
        rel: RelTag {
            forknum: pg_constants::PG_XACT_FORKNUM,
            spcnode: 0,
            dbnode: 0,
            relnode: 0,
        },
        blknum: 0,
    };
    tline.put_page_image(clog_tag, Lsn(2), page).unwrap();
    let twophase_tag = |xid: u32| BufferTag {
        rel: RelTag {
            forknum: pg_constants::PG_TWOPHASE_FORKNUM,
            spcnode: 0,
            dbnode: 0,
            relnode: 0,
        },
        blknum: xid,
    };
    tline.put_page_image(twophase_tag(7), Lsn(3), TEST_IMG("state 7")).unwrap();
    tline.put_page_image(twophase_tag(8), Lsn(3), TEST_IMG("state 8")).unwrap();
    tline.advance_last_valid_lsn(Lsn(3));
    assert_eq!(tline.get_twophase(&walredo, Lsn(3)).unwrap(), vec![7]);
}

/// CREATE DATABASE deep-copies the template database at one LSN.
#[test]
fn test_create_database() {
    let mut tline = Timeline::new();
    let walredo = TestRedoManager {};
    tline.init_valid_lsn(Lsn(1));
    let src_rel = RelTag {
        forknum: pg_constants::MAIN_FORKNUM,
        spcnode: 1,
        dbnode: 10,
        relnode: 77,
    };
    let src_map = RelTag {
        forknum: pg_constants::PG_FILENODEMAP_FORKNUM,
        spcnode: 1,
        dbnode: 10,
        relnode: 0,
    };
    tline
        .put_page_image(BufferTag { rel: src_rel, blknum: 0 }, Lsn(2), TEST_IMG("old blk 0"))
        .unwrap();
    tline
        .put_page_image(BufferTag { rel: src_rel, blknum: 0 }, Lsn(3), TEST_IMG("blk 0"))
        .unwrap();
    tline
        .put_page_image(BufferTag { rel: src_rel, blknum: 1 }, Lsn(3), TEST_IMG("blk 1"))
        .unwrap();
    tline
        .put_page_image(BufferTag { rel: src_map, blknum: 0 }, Lsn(2), TEST_IMG("filemap"))
        .unwrap();
    tline.put_create_database(Lsn(42), 20, 1, 10, 1).unwrap();
    tline.advance_last_valid_lsn(Lsn(42));

    // The new database appears in the database listing.
    let dbs = tline.get_databases(Lsn(42)).unwrap();
    let dst_map = RelTag {
        forknum: pg_constants::PG_FILENODEMAP_FORKNUM,
        spcnode: 1,
        dbnode: 20,
        relnode: 0,
    };
    assert!(dbs.contains(&dst_map));

    // Every block of the template is present with identical contents, at
    // its latest version.
    let dst_rel = RelTag {
        forknum: pg_constants::MAIN_FORKNUM,
        spcnode: 1,
        dbnode: 20,
        relnode: 77,
    };
    let page = tline
        .get_page_at_lsn(&walredo, BufferTag { rel: dst_rel, blknum: 0 }, Lsn(42))
        .unwrap();
    assert_eq!(page, TEST_IMG("blk 0"));
    let page = tline
        .get_page_at_lsn(&walredo, BufferTag { rel: dst_rel, blknum: 1 }, Lsn(42))
        .unwrap();
    assert_eq!(page, TEST_IMG("blk 1"));
    assert_eq!(tline.get_relsize(dst_rel, Lsn(42)).unwrap(), 2);
    // The template itself is untouched.
    assert_eq!(tline.get_relsize(src_rel, Lsn(42)).unwrap(), 2);
}

/// The WAL fan-out stores one version per affected block and advances the
/// resume point.
#[test]
fn test_save_decoded_record() {
    let mut tline = Timeline::new();
    tline.init_valid_lsn(Lsn(1));
    tline.put_page_image(TEST_BUF(0), Lsn(2), TEST_IMG("base 0")).unwrap();
    let blk = |blkno: u32, will_drop: bool| DecodedBkpBlock {
        rnode_spcnode: TESTREL_A.spcnode,
        rnode_dbnode: TESTREL_A.dbnode,
        rnode_relnode: TESTREL_A.relnode,
        forknum: TESTREL_A.forknum,
        blkno,
        will_init: false,
        apply_image: false,
        will_drop,
    };
    let decoded = DecodedWALRecord {
        xl_rmid: 0,
        xl_info: 0,
        main_data_offset: 4,
        blocks: vec![blk(0, false), blk(9, true)],
    };
    let recdata = vec![0xAAu8; 32];
    tline.save_decoded_record(&decoded, &recdata, Lsn(5)).unwrap();
    tline.advance_last_valid_lsn(Lsn(5));
    assert_eq!(tline.get_last_record_lsn(), Lsn(5));

    // Block 0 now carries a WAL record on top of its base image.
    let data = tline.get_page_reconstruct_data(TEST_BUF(0), Lsn(5)).unwrap();
    assert_eq!(data.page_img, Some(TEST_IMG("base 0")));
    assert_eq!(data.records.len(), 1);
    assert_eq!(data.records[0].rec, recdata);
    assert_eq!(data.records[0].main_data_offset, 4);
    // Block 9 was dropped.
    assert!(matches!(
        tline.get_page_reconstruct_data(TEST_BUF(9), Lsn(5)),
        Err(RepositoryError::PageNotFound)
    ));
}

/// A storage-manager truncation record truncates the heap fork.
#[test]
fn test_save_decoded_truncate() {
    let mut tline = Timeline::new();
    tline.init_valid_lsn(Lsn(1));
    tline.put_page_image(TEST_BUF(0), Lsn(2), TEST_IMG("blk 0")).unwrap();
    tline.put_page_image(TEST_BUF(1), Lsn(3), TEST_IMG("blk 1")).unwrap();
    tline.advance_last_valid_lsn(Lsn(3));

    // Main data: blkno=1, rnode=(0,111,1000), flags=SMGR_TRUNCATE_HEAP.
    let mut main_data = Vec::new();
    main_data.extend_from_slice(&1u32.to_le_bytes());
    main_data.extend_from_slice(&TESTREL_A.spcnode.to_le_bytes());
    main_data.extend_from_slice(&TESTREL_A.dbnode.to_le_bytes());
    main_data.extend_from_slice(&TESTREL_A.relnode.to_le_bytes());
    main_data.extend_from_slice(&pg_constants::SMGR_TRUNCATE_HEAP.to_le_bytes());
    let decoded = DecodedWALRecord {
        xl_rmid: pg_constants::RM_SMGR_ID,
        xl_info: pg_constants::XLOG_SMGR_TRUNCATE,
        main_data_offset: 0,
        blocks: vec![],
    };
    tline.save_decoded_record(&decoded, &main_data, Lsn(4)).unwrap();
    tline.advance_last_valid_lsn(Lsn(4));
    assert_eq!(tline.get_relsize(TESTREL_A, Lsn(4)).unwrap(), 1);
    assert_eq!(tline.get_relsize(TESTREL_A, Lsn(3)).unwrap(), 2);

    // A truncation record whose payload is cut short is malformed, and the
    // resume point stays put.
    let decoded = DecodedWALRecord {
        xl_rmid: pg_constants::RM_SMGR_ID,
        xl_info: pg_constants::XLOG_SMGR_TRUNCATE,
        main_data_offset: 0,
        blocks: vec![],
    };
    assert_eq!(
        tline.save_decoded_record(&decoded, &vec![0u8; 7], Lsn(9)),
        Err(RepositoryError::MalformedRecord)
    );
    assert_eq!(tline.get_last_record_lsn(), Lsn(4));
}

/// A CREATE DATABASE record clones the template database.
#[test]
fn test_save_decoded_create_database() {
    let mut tline = Timeline::new();
    let walredo = TestRedoManager {};
    tline.init_valid_lsn(Lsn(1));
    let src_rel = RelTag {
        forknum: pg_constants::MAIN_FORKNUM,
        spcnode: 1,
        dbnode: 10,
        relnode: 5,
    };
    tline
        .put_page_image(BufferTag { rel: src_rel, blknum: 0 }, Lsn(2), TEST_IMG("template"))
        .unwrap();
    let mut main_data = Vec::new();
    main_data.extend_from_slice(&20u32.to_le_bytes()); // db_id
    main_data.extend_from_slice(&1u32.to_le_bytes()); // tablespace_id
    main_data.extend_from_slice(&10u32.to_le_bytes()); // src_db_id
    main_data.extend_from_slice(&1u32.to_le_bytes()); // src_tablespace_id
    let decoded = DecodedWALRecord {
        xl_rmid: pg_constants::RM_DBASE_ID,
        xl_info: pg_constants::XLOG_DBASE_CREATE,
        main_data_offset: 0,
        blocks: vec![],
    };
    tline.save_decoded_record(&decoded, &main_data, Lsn(3)).unwrap();
    tline.advance_last_valid_lsn(Lsn(3));
    let dst_rel = RelTag {
        forknum: pg_constants::MAIN_FORKNUM,
        spcnode: 1,
        dbnode: 20,
        relnode: 5,
    };
    let page = tline
        .get_page_at_lsn(&walredo, BufferTag { rel: dst_rel, blknum: 0 }, Lsn(3))
        .unwrap();
    assert_eq!(page, TEST_IMG("template"));
}

/// put_raw_data stores a ready-made value at an explicit key.
#[test]
fn test_put_raw_data() {
    let mut tline = Timeline::new();
    tline.init_valid_lsn(Lsn(1));
    let key = RepositoryKey {
        tag: TEST_BUF(0),
        lsn: Lsn(2),
    };
    tline
        .put_raw_data(key, PageVersion::Image(TEST_IMG("raw")))
        .unwrap();
    tline.advance_last_valid_lsn(Lsn(2));
    assert_eq!(
        tline.get_page_image(TEST_BUF(0), Lsn(2)).unwrap(),
        Some(TEST_IMG("raw"))
    );
}

/// The repository refuses duplicate timelines and unknown lookups.
#[test]
fn test_repository_timelines() {
    let mut repo = Repository::new();
    let id_a = ZTimelineId::from_hex("11223344556677881122334455667788").unwrap();
    let id_b = ZTimelineId::from_hex("aaaaaaaaaaaaaaaaaaaaaaaaaaaaaaaa").unwrap();
    assert_eq!(
        repo.get_timeline(id_a),
        Err(RepositoryError::UnknownTimeline)
    );
    let h = repo.create_empty_timeline(id_a).unwrap();
    assert_eq!(
        repo.create_empty_timeline(id_a),
        Err(RepositoryError::AlreadyExists)
    );
    assert_eq!(repo.get_timeline(id_a), Ok(h));
    let h2 = repo.get_or_restore_timeline(id_b);
    assert_ne!(h, h2);
    assert_eq!(repo.get_or_restore_timeline(id_b), h2);
    assert_eq!(repo.timeline(h).get_last_valid_lsn(), Lsn(0));
}

/// Timeline ids parse from 32 hexadecimal digits and from nothing else.
#[test]
fn test_timeline_id_from_hex() {
    assert_eq!(
        ZTimelineId::from_hex("00000000000000000000000000000001"),
        Some(ZTimelineId(1))
    );
    assert_eq!(
        ZTimelineId::from_hex("000000000000000000000000000000fF"),
        Some(ZTimelineId(255))
    );
    assert_eq!(
        ZTimelineId::from_hex("11223344556677881122334455667788"),
        Some(ZTimelineId(0x11223344556677881122334455667788))
    );
    assert_eq!(ZTimelineId::from_hex("112233"), None);
    assert_eq!(
        ZTimelineId::from_hex("1122334455667788112233445566778g"),
        None
    );
}

/// BufferTag::fork addresses block zero of a pseudo-relation fork.
#[test]
fn test_buffer_tag_fork() {
    let tag = BufferTag::fork(pg_constants::PG_XACT_FORKNUM);
    assert_eq!(tag.rel.forknum, pg_constants::PG_XACT_FORKNUM);
    assert_eq!(tag.rel.spcnode, 0);
    assert_eq!(tag.rel.dbnode, 0);
    assert_eq!(tag.rel.relnode, 0);
    assert_eq!(tag.blknum, 0);
}

/// Stripping a path prefix: proper prefix, equal paths, unrelated paths.
#[test]
fn test_strip_path_prefix() {
    let workdir = vec!["data".to_string(), "timelines".to_string()];
    let path = vec![
        "data".to_string(),
        "timelines".to_string(),
        "11".to_string(),
        "0".to_string(),
    ];
    assert_eq!(
        strip_path_prefix(&workdir, &path),
        Ok(vec!["11".to_string(), "0".to_string()])
    );
    assert_eq!(
        strip_path_prefix(&workdir, &workdir),
        Err(StripPrefixError::EqualPaths)
    );
    let other = vec!["elsewhere".to_string(), "11".to_string()];
    assert_eq!(
        strip_path_prefix(&workdir, &other),
        Err(StripPrefixError::NotAPrefix)
    );
}
