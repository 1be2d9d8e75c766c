//! The repository: the owning container of timelines, keyed by timeline id.

use vstd::arithmetic::power2::{lemma2_to64, lemma_pow2_adds, lemma_pow2_strictly_increases, pow2};
use vstd::prelude::*;

use crate::errors::RepositoryError;
use crate::timeline::Timeline;

verus! {

/// A 128-bit timeline id, as printed: 32 hexadecimal digits.
#[derive(Clone, Copy, Debug, Hash, PartialEq, Eq, Structural)]
pub struct ZTimelineId(pub u128);

/// `c` is a hexadecimal digit.
pub open spec fn is_hex_digit(c: char) -> bool {
    ('0' <= c && c <= '9') || ('a' <= c && c <= 'f') || ('A' <= c && c <= 'F')
}

/// The value of the hexadecimal digit `c`.
pub open spec fn hex_digit_val(c: char) -> int {
    if '0' <= c && c <= '9' {
        (c as u128) - ('0' as u128)
    } else if 'a' <= c && c <= 'f' {
        (c as u128) - ('a' as u128) + 10
    } else {
        (c as u128) - ('A' as u128) + 10
    }
}

/// The value of a big-endian string of hexadecimal digits.
pub open spec fn hex_val(s: Seq<char>) -> int
    decreases s.len(),
{
    if s.len() == 0 {
        0
    } else {
        hex_val(s.drop_last()) * 16 + hex_digit_val(s.last())
    }
}

impl ZTimelineId {
    /// Parses a timeline id from its 32-digit hexadecimal form; `None` on
    /// any other input.
    pub fn from_hex(s: &str) -> (r: Option<ZTimelineId>)
        ensures
            (s@.len() == 32 && forall|i: int| 0 <= i < 32 ==> is_hex_digit(#[trigger] s@[i]))
                <==> r is Some,
            r matches Some(id) ==> id.0 == hex_val(s@),
    {
        let n = s.unicode_len();
        if n != 32 {
            return None;
        }
        let mut v: u128 = 0;
        let mut i: usize = 0;
        proof {
            lemma2_to64();
        }
        while i < 32
            invariant
                s@.len() == 32,
                i <= 32,
                forall|j: int| 0 <= j < i ==> is_hex_digit(#[trigger] s@[j]),
                v == hex_val(s@.subrange(0, i as int)),
                v < pow2((4 * i) as nat),
            decreases 32 - i,
        {
            let c = s.get_char(i);
            let d: u128 = if c >= '0' && c <= '9' {
                (c as u128) - ('0' as u128)
            } else if c >= 'a' && c <= 'f' {
                (c as u128) - ('a' as u128) + 10
            } else if c >= 'A' && c <= 'F' {
                (c as u128) - ('A' as u128) + 10
            } else {
                return None;
            };
            proof {
                lemma_pow2_adds((4 * i) as nat, 4);
                lemma2_to64();
                if 4 * i + 4 < 128 {
                    lemma_pow2_strictly_increases((4 * i + 4) as nat, 128);
                }
                lemma_pow2_adds(64, 64);
                assert(pow2(128) == 0x100000000000000000000000000000000);
                assert(v * 16 + d < pow2((4 * i + 4) as nat)) by (nonlinear_arith)
                    requires
                        v < pow2((4 * i) as nat),
                        d < 16,
                        pow2((4 * i + 4) as nat) == pow2((4 * i) as nat) * pow2(4),
                        pow2(4) == 16,
                {
                }
            }
            v = v * 16 + d;
            i += 1;
            proof {
                assert(s@.subrange(0, i as int).drop_last() =~= s@.subrange(0, i - 1));
                assert(s@.subrange(0, i as int).last() == s@[i - 1]);
            }
        }
        proof {
            assert(s@.subrange(0, 32) =~= s@);
        }
        Some(ZTimelineId(v))
    }
}

/// The owning container of timelines: creates them, reopens them, and hands
/// out handles keyed by timeline id.
pub struct Repository {
    ids: Vec<ZTimelineId>,
    timelines: Vec<Timeline>,
}

impl Repository {
    /// The ids of the open timelines, in the order they were opened.
    pub closed spec fn ids(self) -> Seq<ZTimelineId> {
        self.ids@
    }

    /// The open timelines, position-matched with `ids`.
    pub closed spec fn timelines(self) -> Seq<Timeline> {
        self.timelines@
    }

    /// The repository's invariant: one timeline per id, ids distinct.
    pub closed spec fn inv(self) -> bool {
        &&& self.ids@.len() == self.timelines@.len()
        &&& forall|a: int, b: int|
            0 <= a < b < self.ids@.len() ==> (#[trigger] self.ids@[a]) != (#[trigger] self.ids@[b])
    }

    /// An empty repository.
    pub fn new() -> (r: Repository)
        ensures
            r.inv(),
            r.ids() =~= Seq::<ZTimelineId>::empty(),
    {
        Repository { ids: Vec::new(), timelines: Vec::new() }
    }

    /// The position of timeline `id`, if it is open.
    fn find(&self, id: ZTimelineId) -> (r: Option<usize>)
        requires
            self.inv(),
        ensures
            match r {
                Some(i) => i < self.ids().len() && self.ids()[i as int] == id,
                None => forall|j: int| 0 <= j < self.ids().len() ==> (#[trigger] self.ids()[j]) != id,
            },
    {
        let n = self.ids.len();
        let mut i: usize = 0;
        while i < n
            invariant
                self.inv(),
                n == self.ids@.len(),
                i <= n,
                forall|j: int| 0 <= j < i ==> (#[trigger] self.ids@[j]) != id,
            decreases n - i,
        {
            if self.ids[i] == id {
                return Some(i);
            }
            i += 1;
        }
        None
    }

    /// Creates a fresh, empty timeline under `id` and returns its handle;
    /// fails with `AlreadyExists` when `id` is already open.
    pub fn create_empty_timeline(&mut self, id: ZTimelineId) -> (r: Result<usize, RepositoryError>)
        requires
            old(self).inv(),
        ensures
            final(self).inv(),
            (exists|j: int| 0 <= j < old(self).ids().len() && (#[trigger] old(self).ids()[j]) == id)
                ==> r == Err::<usize, RepositoryError>(RepositoryError::AlreadyExists)
                    && *final(self) == *old(self),
            !(exists|j: int|
                0 <= j < old(self).ids().len() && (#[trigger] old(self).ids()[j]) == id) ==> {
                &&& r == Ok::<usize, RepositoryError>(old(self).ids().len() as usize)
                &&& final(self).ids() == old(self).ids().push(id)
                &&& final(self).timelines().len() == old(self).timelines().len() + 1
                &&& final(self).timelines().last().inv()
                &&& final(self).timelines().last().entries().len() == 0
                &&& final(self).timelines().last().valid_lsn() == 0
                &&& final(self).timelines().last().record_lsn() == 0
                &&& forall|j: int|
                    0 <= j < old(self).timelines().len() ==> (#[trigger] final(self).timelines()[j])
                        == old(self).timelines()[j]
            },
    {
        match self.find(id) {
            Some(_) => Err(RepositoryError::AlreadyExists),
            None => {
                let i = self.ids.len();
                self.ids.push(id);
                self.timelines.push(Timeline::new());
                Ok(i)
            },
        }
    }

    /// The handle of the already-open timeline `id`; fails with
    /// `UnknownTimeline` when it was never opened.
    pub fn get_timeline(&self, id: ZTimelineId) -> (r: Result<usize, RepositoryError>)
        requires
            self.inv(),
        ensures
            match r {
                Ok(i) => i < self.ids().len() && self.ids()[i as int] == id,
                Err(e) => e == RepositoryError::UnknownTimeline && forall|j: int|
                    0 <= j < self.ids().len() ==> (#[trigger] self.ids()[j]) != id,
            },
    {
        match self.find(id) {
            Some(i) => Ok(i),
            None => Err(RepositoryError::UnknownTimeline),
        }
    }

    /// The handle of timeline `id`, opening a fresh one when it is not open
    /// yet.
    pub fn get_or_restore_timeline(&mut self, id: ZTimelineId) -> (r: usize)
        requires
            old(self).inv(),
        ensures
            final(self).inv(),
            r < final(self).ids().len(),
            final(self).ids()[r as int] == id,
            (exists|j: int| 0 <= j < old(self).ids().len() && (#[trigger] old(self).ids()[j]) == id)
                ==> *final(self) == *old(self),
    {
        match self.find(id) {
            Some(i) => i,
            None => {
                let i = self.ids.len();
                self.ids.push(id);
                self.timelines.push(Timeline::new());
                i
            },
        }
    }

    /// Read access to the timeline behind a handle.
    pub fn timeline(&self, i: usize) -> (r: &Timeline)
        requires
            self.inv(),
            i < self.timelines().len(),
        ensures
            *r == self.timelines()[i as int],
    {
        &self.timelines[i]
    }

    /// Write access to the timeline behind a handle.
    pub fn timeline_mut(&mut self, i: usize) -> (r: &mut Timeline)
        requires
            old(self).inv(),
            i < old(self).timelines().len(),
        ensures
            *r == old(self).timelines()[i as int],
            final(self).timelines() == old(self).timelines().update(i as int, *final(r)),
            final(self).ids() == old(self).ids(),
            final(self).inv(),
    {
        &mut self.timelines[i]
    }
}

} // verus!
