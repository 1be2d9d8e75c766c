//! What the WAL decoder hands the fan-out: a decoded record's per-block
//! effects plus the little-endian main-data payloads of the record types the
//! fan-out special-cases.

use vstd::prelude::*;

verus! {

/// One block a decoded WAL record affects.
#[derive(Clone, Copy, Debug, PartialEq, Eq, Structural)]
pub struct DecodedBkpBlock {
    pub rnode_spcnode: u32,
    pub rnode_dbnode: u32,
    pub rnode_relnode: u32,
    pub forknum: u8,
    pub blkno: u32,
    /// The record initialises the page: no earlier base is needed.
    pub will_init: bool,
    /// The record carries a full page image to apply.
    pub apply_image: bool,
    /// The record drops the block.
    pub will_drop: bool,
}

/// A decoded WAL record, as supplied by the WAL decoder.
pub struct DecodedWALRecord {
    pub xl_rmid: u8,
    pub xl_info: u8,
    /// Offset of the record's main data within the raw record bytes; equals
    /// their length when the record has no main data.
    pub main_data_offset: u32,
    pub blocks: Vec<DecodedBkpBlock>,
}

/// The value of four little-endian bytes.
pub open spec fn le32_val(s: Seq<u8>) -> u32 {
    (s[0] as u32) | ((s[1] as u32) << 8) | ((s[2] as u32) << 16) | ((s[3] as u32) << 24)
}

/// Reads four little-endian bytes at `off`.
fn read_u32_le(buf: &Vec<u8>, off: usize) -> (r: u32)
    requires
        off + 4 <= buf@.len(),
    ensures
        r == le32_val(buf@.subrange(off as int, off + 4)),
{
    let n = buf.len();
    assert(off + 4 <= n);
    let r = (buf[off] as u32) | ((buf[off + 1] as u32) << 8) | ((buf[off + 2] as u32) << 16) | ((
    buf[off + 3] as u32) << 24);
    proof {
        let s = buf@.subrange(off as int, off + 4);
        assert(s[0] == buf@[off as int] && s[1] == buf@[off + 1] && s[2] == buf@[off + 2] && s[3]
            == buf@[off + 3]);
    }
    r
}

/// The main data of a storage-manager truncation record.
#[derive(Clone, Copy, Debug, PartialEq, Eq, Structural)]
pub struct XlSmgrTruncate {
    pub blkno: u32,
    pub rnode_spcnode: u32,
    pub rnode_dbnode: u32,
    pub rnode_relnode: u32,
    pub flags: u32,
}

/// A truncation record's main data fits in `s` at `off`.
pub open spec fn smgr_truncate_parseable(s: Seq<u8>, off: int) -> bool {
    0 <= off && off + 20 <= s.len()
}

/// The truncation payload at `off` in `s`: block count, relation file node,
/// flags, all little-endian.
pub open spec fn smgr_truncate_at(s: Seq<u8>, off: int) -> XlSmgrTruncate {
    XlSmgrTruncate {
        blkno: le32_val(s.subrange(off, off + 4)),
        rnode_spcnode: le32_val(s.subrange(off + 4, off + 8)),
        rnode_dbnode: le32_val(s.subrange(off + 8, off + 12)),
        rnode_relnode: le32_val(s.subrange(off + 12, off + 16)),
        flags: le32_val(s.subrange(off + 16, off + 20)),
    }
}

impl XlSmgrTruncate {
    /// Decodes a truncation record's main data at `off` in `buf`; `None`
    /// when the payload does not fit.
    pub fn decode(buf: &Vec<u8>, off: u32) -> (r: Option<XlSmgrTruncate>)
        ensures
            smgr_truncate_parseable(buf@, off as int) ==> r == Some(
                smgr_truncate_at(buf@, off as int),
            ),
            !smgr_truncate_parseable(buf@, off as int) ==> r is None,
    {
        let n = buf.len();
        if off as usize > n || n - (off as usize) < 20 {
            return None;
        }
        let off = off as usize;
        Some(
            XlSmgrTruncate {
                blkno: read_u32_le(buf, off),
                rnode_spcnode: read_u32_le(buf, off + 4),
                rnode_dbnode: read_u32_le(buf, off + 8),
                rnode_relnode: read_u32_le(buf, off + 12),
                flags: read_u32_le(buf, off + 16),
            },
        )
    }
}

/// The main data of a CREATE DATABASE record.
#[derive(Clone, Copy, Debug, PartialEq, Eq, Structural)]
pub struct XlCreateDatabase {
    pub db_id: u32,
    pub tablespace_id: u32,
    pub src_db_id: u32,
    pub src_tablespace_id: u32,
}

/// A CREATE DATABASE record's main data fits in `s` at `off`.
pub open spec fn create_database_parseable(s: Seq<u8>, off: int) -> bool {
    0 <= off && off + 16 <= s.len()
}

/// The CREATE DATABASE payload at `off` in `s`: destination and template
/// database, little-endian.
pub open spec fn create_database_at(s: Seq<u8>, off: int) -> XlCreateDatabase {
    XlCreateDatabase {
        db_id: le32_val(s.subrange(off, off + 4)),
        tablespace_id: le32_val(s.subrange(off + 4, off + 8)),
        src_db_id: le32_val(s.subrange(off + 8, off + 12)),
        src_tablespace_id: le32_val(s.subrange(off + 12, off + 16)),
    }
}

impl XlCreateDatabase {
    /// Decodes a CREATE DATABASE record's main data at `off` in `buf`;
    /// `None` when the payload does not fit.
    pub fn decode(buf: &Vec<u8>, off: u32) -> (r: Option<XlCreateDatabase>)
        ensures
            create_database_parseable(buf@, off as int) ==> r == Some(
                create_database_at(buf@, off as int),
            ),
            !create_database_parseable(buf@, off as int) ==> r is None,
    {
        let n = buf.len();
        if off as usize > n || n - (off as usize) < 16 {
            return None;
        }
        let off = off as usize;
        Some(
            XlCreateDatabase {
                db_id: read_u32_le(buf, off),
                tablespace_id: read_u32_le(buf, off + 4),
                src_db_id: read_u32_le(buf, off + 8),
                src_tablespace_id: read_u32_le(buf, off + 12),
            },
        )
    }
}

} // verus!
