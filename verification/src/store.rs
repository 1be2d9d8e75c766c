//! The ordered store: an in-memory ordered key-value engine over repository
//! keys, supporting point-put, seek-first-at-or-after, seek-last-at-or-before
//! and positional iteration.
//!
//! Entries are kept in a vector sorted strictly by the key tuple order, so
//! keys are unique and the map semantics of [`lookup`] describes the store's
//! contents.

use vstd::prelude::*;

use crate::page_version::{PageVersion, PageVersionView};
use crate::tag::{key_le, key_lt, RepositoryKey};

verus! {

/// One stored pair.
pub struct StoreEntry {
    pub key: RepositoryKey,
    pub value: PageVersion,
}

/// The mathematical value of a [`StoreEntry`].
pub struct EntryView {
    pub key: RepositoryKey,
    pub value: PageVersionView,
}

impl View for StoreEntry {
    type V = EntryView;

    open spec fn view(&self) -> EntryView {
        EntryView { key: self.key, value: self.value@ }
    }
}

/// The mathematical values of a sequence of stored pairs.
pub open spec fn entry_views(v: Seq<StoreEntry>) -> Seq<EntryView> {
    v.map_values(|e: StoreEntry| e@)
}

/// Entries sorted strictly by key: the store's representation invariant.
pub open spec fn entries_sorted(s: Seq<EntryView>) -> bool {
    forall|i: int, j: int|
        0 <= i < j < s.len() ==> key_lt(#[trigger] s[i].key, #[trigger] s[j].key)
}

/// The value stored under `k`, if any: the map the store represents.
///
/// With duplicate keys the latest entry wins; under [`entries_sorted`] keys
/// are unique, so this is simply the value of the entry with key `k`.
pub open spec fn lookup(s: Seq<EntryView>, k: RepositoryKey) -> Option<PageVersionView>
    decreases s.len(),
{
    if s.len() == 0 {
        None
    } else if s.last().key == k {
        Some(s.last().value)
    } else {
        lookup(s.drop_last(), k)
    }
}

/// `lookup` finds `k` exactly when some entry carries it.
pub proof fn lemma_lookup_some_iff(s: Seq<EntryView>, k: RepositoryKey)
    ensures
        lookup(s, k) is Some <==> exists|j: int| 0 <= j < s.len() && (#[trigger] s[j]).key == k,
    decreases s.len(),
{
    if s.len() > 0 {
        let s0 = s.drop_last();
        lemma_lookup_some_iff(s0, k);
        if s.last().key == k {
            assert(s[s.len() - 1].key == k);
        } else {
            if lookup(s, k) is Some {
                let j = choose|j: int| 0 <= j < s0.len() && (#[trigger] s0[j]).key == k;
                assert(s[j] == s0[j]);
            }
            if exists|j: int| 0 <= j < s.len() && (#[trigger] s[j]).key == k {
                let j = choose|j: int| 0 <= j < s.len() && (#[trigger] s[j]).key == k;
                assert(j < s.len() - 1);
                assert(s0[j] == s[j]);
            }
        }
    }
}

/// Under a sorted sequence, `lookup` returns the value stored beside the key.
pub proof fn lemma_lookup_at(s: Seq<EntryView>, k: RepositoryKey, i: int)
    requires
        entries_sorted(s),
        0 <= i < s.len(),
        s[i].key == k,
    ensures
        lookup(s, k) == Some(s[i].value),
    decreases s.len(),
{
    if i == s.len() - 1 {
    } else {
        let s0 = s.drop_last();
        assert(key_lt(s[i].key, s[s.len() - 1].key));
        assert(entries_sorted(s0)) by {
            assert(forall|a: int, b: int|
                0 <= a < b < s0.len() ==> key_lt((#[trigger] s0[a]).key, (#[trigger] s0[b]).key));
        }
        assert(s0[i] == s[i]);
        lemma_lookup_at(s0, k, i);
    }
}

/// Updating the value beside one key changes only that key's binding.
proof fn lemma_lookup_update(s: Seq<EntryView>, j: int, v: PageVersionView, k: RepositoryKey)
    requires
        entries_sorted(s),
        0 <= j < s.len(),
    ensures
        lookup(s.update(j, EntryView { key: s[j].key, value: v }), k) == (if k == s[j].key {
            Some(v)
        } else {
            lookup(s, k)
        }),
    decreases s.len(),
{
    let e2 = EntryView { key: s[j].key, value: v };
    let s2 = s.update(j, e2);
    if j == s.len() - 1 {
        assert(s2.drop_last() =~= s.drop_last());
        assert(s2.last() == e2);
    } else {
        let s0 = s.drop_last();
        assert(entries_sorted(s0)) by {
            assert(forall|a: int, b: int|
                0 <= a < b < s0.len() ==> key_lt((#[trigger] s0[a]).key, (#[trigger] s0[b]).key));
        }
        assert(s0[j] == s[j]);
        lemma_lookup_update(s0, j, v, k);
        assert(s2.drop_last() =~= s0.update(j, EntryView { key: s0[j].key, value: v }));
        assert(s2.last() == s.last());
        assert(key_lt(s[j].key, s.last().key));
    }
}

/// Inserting a fresh key adds exactly that binding.
proof fn lemma_lookup_insert(s: Seq<EntryView>, i: int, e: EntryView, k: RepositoryKey)
    requires
        0 <= i <= s.len(),
        forall|j: int| 0 <= j < s.len() ==> (#[trigger] s[j]).key != e.key,
    ensures
        lookup(s.insert(i, e), k) == (if k == e.key {
            Some(e.value)
        } else {
            lookup(s, k)
        }),
    decreases s.len(),
{
    let s2 = s.insert(i, e);
    if i == s.len() {
        assert(s2.drop_last() =~= s);
        assert(s2.last() == e);
    } else {
        let s0 = s.drop_last();
        assert(forall|j: int| 0 <= j < s0.len() ==> (#[trigger] s0[j]).key != e.key);
        lemma_lookup_insert(s0, i, e, k);
        assert(s2.drop_last() =~= s0.insert(i, e));
        assert(s2.last() == s.last());
        assert(s[s.len() - 1].key != e.key);
    }
}

/// Everything `put` guarantees when it overwrites the entry at `j`.
proof fn lemma_put_update_post(s0: Seq<EntryView>, s2: Seq<EntryView>, j: int, key: RepositoryKey, v: PageVersionView)
    requires
        entries_sorted(s0),
        0 <= j < s0.len(),
        s0[j].key == key,
        s2 == s0.update(j, EntryView { key, value: v }),
    ensures
        entries_sorted(s2),
        forall|k2: RepositoryKey|
            #[trigger] lookup(s2, k2) == (if k2 == key {
                Some(v)
            } else {
                lookup(s0, k2)
            }),
        forall|jj: int|
            0 <= jj < s2.len() ==> (#[trigger] s2[jj]) == (EntryView { key, value: v })
                || exists|j2: int| 0 <= j2 < s0.len() && s0[j2] == s2[jj],
        forall|j2: int|
            0 <= j2 < s0.len() && (#[trigger] s0[j2]).key != key ==> exists|jj: int|
                0 <= jj < s2.len() && s2[jj] == s0[j2],
{
    assert forall|a: int, b: int| 0 <= a < b < s2.len() implies key_lt(
        (#[trigger] s2[a]).key,
        (#[trigger] s2[b]).key,
    ) by {
        assert(s2[a].key == s0[a].key);
        assert(s2[b].key == s0[b].key);
    }
    assert forall|k2: RepositoryKey|
        #[trigger] lookup(s2, k2) == (if k2 == key {
            Some(v)
        } else {
            lookup(s0, k2)
        }) by {
        lemma_lookup_update(s0, j, v, k2);
    }
    assert forall|jj: int|
        0 <= jj < s2.len() implies (#[trigger] s2[jj]) == (EntryView { key, value: v }) || exists|
            j2: int,
        | 0 <= j2 < s0.len() && s0[j2] == s2[jj] by {
        if jj != j {
            assert(s2[jj] == s0[jj]);
        }
    }
    assert forall|j2: int|
        0 <= j2 < s0.len() && (#[trigger] s0[j2]).key != key implies exists|jj: int|
        0 <= jj < s2.len() && s2[jj] == s0[j2] by {
        assert(s2[j2] == s0[j2]);
    }
}

/// Everything `put` guarantees when it inserts a fresh entry at `i`.
proof fn lemma_put_insert_post(s0: Seq<EntryView>, s2: Seq<EntryView>, i: int, key: RepositoryKey, v: PageVersionView)
    requires
        entries_sorted(s0),
        0 <= i <= s0.len(),
        forall|j: int| 0 <= j < i ==> key_lt((#[trigger] s0[j]).key, key),
        forall|j: int| i <= j < s0.len() ==> key_lt(key, (#[trigger] s0[j]).key),
        s2 == s0.insert(i, EntryView { key, value: v }),
    ensures
        entries_sorted(s2),
        forall|k2: RepositoryKey|
            #[trigger] lookup(s2, k2) == (if k2 == key {
                Some(v)
            } else {
                lookup(s0, k2)
            }),
        forall|jj: int|
            0 <= jj < s2.len() ==> (#[trigger] s2[jj]) == (EntryView { key, value: v })
                || exists|j2: int| 0 <= j2 < s0.len() && s0[j2] == s2[jj],
        forall|j2: int|
            0 <= j2 < s0.len() && (#[trigger] s0[j2]).key != key ==> exists|jj: int|
                0 <= jj < s2.len() && s2[jj] == s0[j2],
{
    let e = EntryView { key, value: v };
    assert forall|a: int, b: int| 0 <= a < b < s2.len() implies key_lt(
        (#[trigger] s2[a]).key,
        (#[trigger] s2[b]).key,
    ) by {
        if a < i && b < i {
            assert(s2[a] == s0[a] && s2[b] == s0[b]);
        } else if a < i && b == i {
            assert(s2[a] == s0[a]);
        } else if a < i && b > i {
            assert(s2[a] == s0[a] && s2[b] == s0[b - 1]);
            assert(key_lt(s0[a].key, key) && key_lt(key, s0[b - 1].key));
        } else if a == i && b > i {
            assert(s2[b] == s0[b - 1]);
        } else {
            assert(s2[a] == s0[a - 1] && s2[b] == s0[b - 1]);
        }
    }
    assert forall|k2: RepositoryKey|
        #[trigger] lookup(s2, k2) == (if k2 == key {
            Some(v)
        } else {
            lookup(s0, k2)
        }) by {
        assert forall|j: int| 0 <= j < s0.len() implies (#[trigger] s0[j]).key != key by {
            if j < i {
                assert(key_lt(s0[j].key, key));
            } else {
                assert(key_lt(key, s0[j].key));
            }
        }
        lemma_lookup_insert(s0, i, e, k2);
    }
    assert forall|jj: int|
        0 <= jj < s2.len() implies (#[trigger] s2[jj]) == e || exists|j2: int|
        0 <= j2 < s0.len() && s0[j2] == s2[jj] by {
        if jj < i {
            assert(s0[jj] == s2[jj]);
        } else if jj > i {
            assert(s0[jj - 1] == s2[jj]);
        }
    }
    assert forall|j2: int|
        0 <= j2 < s0.len() && (#[trigger] s0[j2]).key != key implies exists|jj: int|
        0 <= jj < s2.len() && s2[jj] == s0[j2] by {
        if j2 < i {
            assert(s2[j2] == s0[j2]);
        } else {
            assert(s2[j2 + 1] == s0[j2]);
        }
    }
}

/// The ordered store.
pub struct OrderedStore {
    entries: Vec<StoreEntry>,
}

impl View for OrderedStore {
    type V = Seq<EntryView>;

    closed spec fn view(&self) -> Seq<EntryView> {
        self.entries@.map_values(|e: StoreEntry| e@)
    }
}

impl OrderedStore {
    /// The representation invariant: entries strictly sorted by key.
    pub open spec fn inv(self) -> bool {
        entries_sorted(self@)
    }

    /// An empty store.
    pub fn new() -> (r: OrderedStore)
        ensures
            r@ =~= Seq::<EntryView>::empty(),
            r.inv(),
    {
        OrderedStore { entries: Vec::new() }
    }

    /// How many entries the store holds.
    pub fn len(&self) -> (r: usize)
        ensures
            r == self@.len(),
    {
        self.entries.len()
    }

    /// The key of the entry at position `i`.
    pub fn key_at(&self, i: usize) -> (r: RepositoryKey)
        requires
            i < self@.len(),
        ensures
            r == self@[i as int].key,
    {
        self.entries[i].key
    }

    /// The value of the entry at position `i`.
    pub fn value_at(&self, i: usize) -> (r: &PageVersion)
        requires
            i < self@.len(),
        ensures
            r@ == self@[i as int].value,
    {
        &self.entries[i].value
    }

    /// Stores `value` under `key`, replacing any existing binding.
    pub fn put(&mut self, key: RepositoryKey, value: PageVersion)
        requires
            old(self).inv(),
        ensures
            final(self).inv(),
            forall|k2: RepositoryKey|
                #[trigger] lookup(final(self)@, k2) == (if k2 == key {
                    Some(value@)
                } else {
                    lookup(old(self)@, k2)
                }),
            forall|j: int|
                0 <= j < final(self)@.len() ==> (#[trigger] final(self)@[j]) == (EntryView {
                    key,
                    value: value@,
                }) || exists|j2: int| 0 <= j2 < old(self)@.len() && old(self)@[j2] == final(self)@[j],
            forall|j2: int|
                0 <= j2 < old(self)@.len() && (#[trigger] old(self)@[j2]).key != key
                    ==> exists|j: int| 0 <= j < final(self)@.len() && final(self)@[j] == old(self)@[j2],
    {
        let ghost s0 = self@;
        let mut i: usize = self.entries.len();
        while i > 0 && key.lt(&self.entries[i - 1].key)
            invariant
                i <= self@.len(),
                self@ == s0,
                forall|j: int| i <= j < s0.len() ==> key_lt(key, (#[trigger] s0[j]).key),
            decreases i,
        {
            i = i - 1;
        }
        if i > 0 && self.entries[i - 1].key == key {
            let j = i - 1;
            let e = &mut self.entries[j];
            e.value = value;
            proof {
                assert(self@ =~= s0.update(j as int, EntryView { key, value: value@ }));
                lemma_put_update_post(s0, self@, j as int, key, value@);
            }
        } else {
            proof {
                assert forall|j: int| 0 <= j < i implies key_lt((#[trigger] s0[j]).key, key) by {
                    if i > 0 {
                        assert(key_le(s0[i - 1].key, key));
                        assert(s0[i - 1].key != key);
                        if j < i - 1 {
                            assert(key_lt(s0[j].key, s0[i - 1].key));
                        }
                    }
                }
            }
            self.entries.insert(i, StoreEntry { key, value });
            proof {
                assert(self@ =~= s0.insert(i as int, EntryView { key, value: value@ }));
                lemma_put_insert_post(s0, self@, i as int, key, value@);
            }
        }
    }

    /// Position of the last entry with key at-or-before `key`, if any.
    pub fn seek_last_le(&self, key: RepositoryKey) -> (r: Option<usize>)
        requires
            self.inv(),
        ensures
            match r {
                None => forall|j: int| 0 <= j < self@.len() ==> key_lt(key, (#[trigger] self@[j]).key),
                Some(i) => i < self@.len() && key_le(self@[i as int].key, key) && forall|j: int|
                    i < j < self@.len() ==> key_lt(key, (#[trigger] self@[j]).key),
            },
    {
        let mut i: usize = self.entries.len();
        while i > 0 && key.lt(&self.entries[i - 1].key)
            invariant
                i <= self@.len(),
                forall|j: int| i <= j < self@.len() ==> key_lt(key, (#[trigger] self@[j]).key),
            decreases i,
        {
            i = i - 1;
        }
        if i == 0 {
            None
        } else {
            Some(i - 1)
        }
    }

    /// Position of the first entry with key at-or-after `key`, if any.
    pub fn seek_first_ge(&self, key: RepositoryKey) -> (r: Option<usize>)
        requires
            self.inv(),
        ensures
            match r {
                None => forall|j: int| 0 <= j < self@.len() ==> key_lt((#[trigger] self@[j]).key, key),
                Some(i) => i < self@.len() && key_le(key, self@[i as int].key) && forall|j: int|
                    0 <= j < i ==> key_lt((#[trigger] self@[j]).key, key),
            },
    {
        let mut i: usize = 0;
        while i < self.entries.len() && self.entries[i].key.lt(&key)
            invariant
                i <= self@.len(),
                forall|j: int| 0 <= j < i ==> key_lt((#[trigger] self@[j]).key, key),
            decreases self@.len() - i,
        {
            i = i + 1;
        }
        if i == self.entries.len() {
            None
        } else {
            Some(i)
        }
    }
}

} // verus!
