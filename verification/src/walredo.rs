//! The redo manager contract: the external collaborator that replays a chain
//! of WAL records on top of a base image to produce a page.

use vstd::prelude::*;

use crate::errors::RepositoryError;
use crate::lsn::Lsn;
use crate::tag::BufferTag;
use crate::walrecord::{WALRecord, WALRecordView};

verus! {

/// Everything the repository needs to hand the redo manager to reconstruct
/// one page: an optional base image and the chain of WAL records to apply,
/// in forward LSN order.  The first record's `will_init` flag is set exactly
/// when `page_img` is absent.
pub struct PageReconstructData {
    /// The base image the chain starts from, if the chain needs one.
    pub page_img: Option<Vec<u8>>,
    /// WAL records to apply on the base, earliest first.
    pub records: Vec<WALRecord>,
}

/// The mathematical value of a [`PageReconstructData`].
pub struct PageReconstructDataView {
    pub page_img: Option<Seq<u8>>,
    pub records: Seq<WALRecordView>,
}

impl View for PageReconstructData {
    type V = PageReconstructDataView;

    open spec fn view(&self) -> PageReconstructDataView {
        PageReconstructDataView {
            page_img: match self.page_img {
                Some(ref v) => Some(v@),
                None => None,
            },
            records: self.records@.map_values(|w: WALRecord| w@),
        }
    }
}

/// Replays WAL on a base image.
///
/// The repository treats implementations as black boxes: nothing is assumed
/// of the returned page.  Implementations live outside the repository (the
/// process's real redo machinery, or a test stand-in).
pub trait WalRedoManager {
    /// Produces the page at `lsn` for `tag` from `base_img` plus `records`
    /// in forward LSN order, or fails with an error of its choosing.
    fn request_redo(
        &self,
        tag: BufferTag,
        lsn: Lsn,
        base_img: Option<Vec<u8>>,
        records: Vec<WALRecord>,
    ) -> Result<Vec<u8>, RepositoryError>;
}

} // verus!
