//! The values of the versioned keyspace: one stored version of one block.

use vstd::prelude::*;

use crate::walrecord::{WALRecord, WALRecordView};

verus! {

/// One stored version of a block.
pub enum PageVersion {
    /// A full page image, self-contained.
    Image(Vec<u8>),
    /// A WAL record that produces the page from the version before it
    /// (or from nothing, when its `will_init` flag is set).
    Record(WALRecord),
    /// A drop sentinel: the block does not exist from this LSN onwards.
    Dropped,
}

/// The mathematical value of a [`PageVersion`].
pub enum PageVersionView {
    Image(Seq<u8>),
    Record(WALRecordView),
    Dropped,
}

impl View for PageVersion {
    type V = PageVersionView;

    open spec fn view(&self) -> PageVersionView {
        match self {
            PageVersion::Image(img) => PageVersionView::Image(img@),
            PageVersion::Record(rec) => PageVersionView::Record(rec@),
            PageVersion::Dropped => PageVersionView::Dropped,
        }
    }
}

/// Copies a byte vector.
pub fn clone_bytes(v: &Vec<u8>) -> (r: Vec<u8>)
    ensures
        r@ == v@,
{
    let mut r: Vec<u8> = Vec::new();
    let mut i: usize = 0;
    while i < v.len()
        invariant
            i <= v@.len(),
            r@ == v@.subrange(0, i as int),
        decreases v@.len() - i,
    {
        r.push(v[i]);
        i += 1;
        assert(r@ =~= v@.subrange(0, i as int));
    }
    assert(r@ =~= v@);
    r
}

impl WALRecord {
    /// A copy of this record with the same mathematical value.
    pub fn duplicate(&self) -> (r: WALRecord)
        ensures
            r@ == self@,
    {
        WALRecord {
            lsn: self.lsn,
            will_init: self.will_init,
            rec: clone_bytes(&self.rec),
            main_data_offset: self.main_data_offset,
        }
    }
}

impl PageVersion {
    /// A copy of this version with the same mathematical value.
    pub fn duplicate(&self) -> (r: PageVersion)
        ensures
            r@ == self@,
    {
        match self {
            PageVersion::Image(img) => PageVersion::Image(clone_bytes(img)),
            PageVersion::Record(rec) => PageVersion::Record(rec.duplicate()),
            PageVersion::Dropped => PageVersion::Dropped,
        }
    }

    /// True iff this version is the drop sentinel.
    pub fn is_dropped(&self) -> (r: bool)
        ensures
            r == (self@ is Dropped),
    {
        match self {
            PageVersion::Dropped => true,
            _ => false,
        }
    }
}

} // verus!
