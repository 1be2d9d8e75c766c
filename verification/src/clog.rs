//! Commit-log (CLOG) page layout: two status bits per transaction.

use vstd::prelude::*;

use crate::pg_constants::{CLOG_XACTS_PER_BYTE, CLOG_XACTS_PER_PAGE};

verus! {

/// The two status bits of `xid` on its commit-log page.
pub open spec fn tx_status_of(xid: u32, page: Seq<u8>) -> u8 {
    (page[((xid % CLOG_XACTS_PER_PAGE) / CLOG_XACTS_PER_BYTE) as int] >> ((xid
        % CLOG_XACTS_PER_BYTE) * 2)) & 3
}

/// The byte of `xid`'s commit-log page that holds its status bits.
pub open spec fn tx_status_byteno(xid: u32) -> u32 {
    (xid % CLOG_XACTS_PER_PAGE) / CLOG_XACTS_PER_BYTE
}

/// Extracts the two status bits of `xid` from its commit-log page.
pub fn transaction_id_get_status(xid: u32, page: &Vec<u8>) -> (r: u8)
    requires
        tx_status_byteno(xid) < page@.len(),
    ensures
        r == tx_status_of(xid, page@),
{
    let byteno = (xid % CLOG_XACTS_PER_PAGE) / CLOG_XACTS_PER_BYTE;
    let bshift = (xid % CLOG_XACTS_PER_BYTE) * 2;
    (page[byteno as usize] >> bshift) & 3
}

} // verus!
