//! Log sequence numbers: 64-bit positions in the write-ahead log.

use vstd::prelude::*;

verus! {

/// A log sequence number: a monotonically increasing 64-bit position in the
/// write-ahead log.
#[derive(Clone, Copy, Debug, Hash, PartialEq, Eq, Structural)]
pub struct Lsn(pub u64);

impl Lsn {
    /// The smallest LSN; used as the lower bound of range scans.
    pub fn zero() -> (r: Lsn)
        ensures
            r.0 == 0,
    {
        Lsn(0)
    }

    /// `self <= other` in WAL order.
    pub fn le(self, other: Lsn) -> (r: bool)
        ensures
            r == (self.0 <= other.0),
    {
        self.0 <= other.0
    }

    /// `self < other` in WAL order.
    pub fn lt(self, other: Lsn) -> (r: bool)
        ensures
            r == (self.0 < other.0),
    {
        self.0 < other.0
    }

    /// The larger of the two LSNs.
    pub fn max(self, other: Lsn) -> (r: Lsn)
        ensures
            r.0 == if self.0 >= other.0 { self.0 } else { other.0 },
    {
        if self.0 >= other.0 {
            self
        } else {
            other
        }
    }
}

} // verus!
