//! WAL records as stored in the versioned keyspace.

use vstd::prelude::*;

use crate::lsn::Lsn;

verus! {

/// A WAL record affecting one block, stored as one version of that block.
#[derive(Clone, Debug)]
pub struct WALRecord {
    /// LSN at the *end* of the record.
    pub lsn: Lsn,
    /// True when this record alone initialises the page: no earlier base
    /// image is needed to redo it.
    pub will_init: bool,
    /// The raw bytes of the whole WAL record.
    pub rec: Vec<u8>,
    /// Offset of the record's main data within `rec`; equals `rec.len()`
    /// when the record has no main data.
    pub main_data_offset: u32,
}

/// The mathematical value of a [`WALRecord`].
pub struct WALRecordView {
    pub lsn: Lsn,
    pub will_init: bool,
    pub rec: Seq<u8>,
    pub main_data_offset: u32,
}

impl View for WALRecord {
    type V = WALRecordView;

    open spec fn view(&self) -> WALRecordView {
        WALRecordView {
            lsn: self.lsn,
            will_init: self.will_init,
            rec: self.rec@,
            main_data_offset: self.main_data_offset,
        }
    }
}

} // verus!
