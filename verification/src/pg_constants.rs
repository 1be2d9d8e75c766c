//! Postgres constants used by the repository: fork numbers (including the
//! pseudo-forks the page server uses for non-relation data), resource-manager
//! ids and record info bits for the WAL records the fan-out special-cases,
//! and commit-log layout.

use vstd::prelude::*;

verus! {

/// Main fork of a relation: the table data itself.
pub const MAIN_FORKNUM: u8 = 0;

/// Free-space-map fork.
pub const FSM_FORKNUM: u8 = 1;

/// Visibility-map fork.
pub const VISIBILITYMAP_FORKNUM: u8 = 2;

/// Init fork (unlogged relations).
pub const INIT_FORKNUM: u8 = 3;

/// Pseudo-fork holding the relation filenode map of each database.
pub const PG_FILENODEMAP_FORKNUM: u8 = 4;

/// Pseudo-fork holding the commit log (one page per `CLOG_XACTS_PER_PAGE`
/// transactions, two status bits per transaction).
pub const PG_XACT_FORKNUM: u8 = 5;

/// Pseudo-fork holding two-phase transaction state files, keyed by xid.
pub const PG_TWOPHASE_FORKNUM: u8 = 6;

/// Resource manager id of storage-manager (smgr) WAL records.
pub const RM_SMGR_ID: u8 = 2;

/// Resource manager id of database-level WAL records.
pub const RM_DBASE_ID: u8 = 4;

/// Mask selecting the resource-manager-specific bits of `xl_info`.
pub const XLR_RMGR_INFO_MASK: u8 = 0xF0;

/// `xl_info` value of a smgr truncation record.
pub const XLOG_SMGR_TRUNCATE: u8 = 0x20;

/// `xl_info` value of a CREATE DATABASE record.
pub const XLOG_DBASE_CREATE: u8 = 0x00;

/// Flag bit in a truncation record: the truncation applies to the heap fork.
pub const SMGR_TRUNCATE_HEAP: u32 = 0x0001;

/// The block number Postgres reserves as invalid; never stored.
pub const INVALID_BLOCK_NUMBER: u32 = 0xFFFF_FFFF;

/// Size of a page, in bytes.
pub const BLCKSZ: u32 = 8192;

/// Blocks per 1 GiB relation segment.
pub const RELSEG_SIZE: u32 = 131072;

/// Commit-log status bits per transaction.
pub const CLOG_BITS_PER_XACT: u32 = 2;

/// Transactions per commit-log byte.
pub const CLOG_XACTS_PER_BYTE: u32 = 4;

/// Transactions per commit-log page.
pub const CLOG_XACTS_PER_PAGE: u32 = 32768;

/// Transaction status: still in progress.
pub const TRANSACTION_STATUS_IN_PROGRESS: u8 = 0x00;

/// Transaction status: committed.
pub const TRANSACTION_STATUS_COMMITTED: u8 = 0x01;

/// Transaction status: aborted.
pub const TRANSACTION_STATUS_ABORTED: u8 = 0x02;

/// Transaction status: sub-committed.
pub const TRANSACTION_STATUS_SUB_COMMITTED: u8 = 0x03;

} // verus!
