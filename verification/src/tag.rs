//! Keys of the versioned keyspace: relation tags, buffer tags, and repository
//! keys, with the tuple order that the ordered store sorts by.

use vstd::prelude::*;

use crate::lsn::Lsn;

verus! {

/// Identifies one fork of one relation.
#[derive(Clone, Copy, Debug, Hash, PartialEq, Eq, Structural)]
pub struct RelTag {
    pub forknum: u8,
    pub spcnode: u32,
    pub dbnode: u32,
    pub relnode: u32,
}

/// Identifies one block of one relation fork.
#[derive(Clone, Copy, Debug, PartialEq, Eq, Structural)]
pub struct BufferTag {
    pub rel: RelTag,
    pub blknum: u32,
}

/// A key of the versioned keyspace: one version of one block.
///
/// For a fixed tag, the latest version is the one with the largest LSN.
#[derive(Clone, Copy, Debug, PartialEq, Eq, Structural)]
pub struct RepositoryKey {
    pub tag: BufferTag,
    pub lsn: Lsn,
}

/// Strict tuple order on relation tags:
/// `(forknum, spcnode, dbnode, relnode)`, lexicographically.
pub open spec fn rel_lt(a: RelTag, b: RelTag) -> bool {
    ||| a.forknum < b.forknum
    ||| (a.forknum == b.forknum && a.spcnode < b.spcnode)
    ||| (a.forknum == b.forknum && a.spcnode == b.spcnode && a.dbnode < b.dbnode)
    ||| (a.forknum == b.forknum && a.spcnode == b.spcnode && a.dbnode == b.dbnode
        && a.relnode < b.relnode)
}

/// Strict tuple order on buffer tags: relation tag first, then block.
pub open spec fn tag_lt(a: BufferTag, b: BufferTag) -> bool {
    ||| rel_lt(a.rel, b.rel)
    ||| (a.rel == b.rel && a.blknum < b.blknum)
}

/// Strict tuple order on repository keys:
/// `(forknum, spcnode, dbnode, relnode, blknum, lsn)`, lexicographically.
pub open spec fn key_lt(a: RepositoryKey, b: RepositoryKey) -> bool {
    ||| tag_lt(a.tag, b.tag)
    ||| (a.tag == b.tag && a.lsn.0 < b.lsn.0)
}

/// Non-strict tuple order on repository keys.
pub open spec fn key_le(a: RepositoryKey, b: RepositoryKey) -> bool {
    key_lt(a, b) || a == b
}

impl RelTag {
    /// `self < other` in tuple order.
    pub fn lt(&self, other: &RelTag) -> (r: bool)
        ensures
            r == rel_lt(*self, *other),
    {
        if self.forknum != other.forknum {
            self.forknum < other.forknum
        } else if self.spcnode != other.spcnode {
            self.spcnode < other.spcnode
        } else if self.dbnode != other.dbnode {
            self.dbnode < other.dbnode
        } else {
            self.relnode < other.relnode
        }
    }
}

impl BufferTag {
    /// The buffer tag addressing block 0 of a pseudo-relation fork: the
    /// smallest tag of the fork's subspace, used to start range scans.
    pub fn fork(forknum: u8) -> (r: BufferTag)
        ensures
            r == (BufferTag {
                rel: RelTag { forknum, spcnode: 0, dbnode: 0, relnode: 0 },
                blknum: 0,
            }),
    {
        BufferTag { rel: RelTag { forknum, spcnode: 0, dbnode: 0, relnode: 0 }, blknum: 0 }
    }

    /// `self < other` in tuple order.
    pub fn lt(&self, other: &BufferTag) -> (r: bool)
        ensures
            r == tag_lt(*self, *other),
    {
        if self.rel == other.rel {
            self.blknum < other.blknum
        } else {
            self.rel.lt(&other.rel)
        }
    }
}

impl RepositoryKey {
    /// `self < other` in tuple order.
    pub fn lt(&self, other: &RepositoryKey) -> (r: bool)
        ensures
            r == key_lt(*self, *other),
    {
        if self.tag == other.tag {
            self.lsn.0 < other.lsn.0
        } else {
            self.tag.lt(&other.tag)
        }
    }

    /// `self <= other` in tuple order.
    pub fn le(&self, other: &RepositoryKey) -> (r: bool)
        ensures
            r == key_le(*self, *other),
    {
        !other.lt(self)
    }
}

} // verus!
