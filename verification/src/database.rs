//! The store: keys, their values, and the time after which a value is gone.

use crate::bytes::{bytes_eq, copy_bytes};
use crate::clock::now_millis;
use crate::config::Config;
use vstd::prelude::*;

verus! {

/// The mathematical value of an item: what [`Item`] is a view of.
pub struct ItemView {
    pub value: Seq<u8>,
    pub expires: Option<u64>,
    pub created: u64,
}

/// A value of the store, the reading of the clock at which it was made, and
/// the time for which it lives after that, in milliseconds. An item without
/// such a time does not expire.
#[derive(Debug, Clone, PartialEq, Eq)]
pub struct Item {
    pub value: Vec<u8>,
    pub expires: Option<u64>,
    pub created: u64,
}

impl View for Item {
    type V = ItemView;

    open spec fn view(&self) -> ItemView {
        ItemView { value: self.value@, expires: self.expires, created: self.created }
    }
}

/// The milliseconds that have passed on the clock between two readings; none,
/// where the later reading is the smaller.
pub open spec fn elapsed(created: u64, now: u64) -> int {
    if now >= created {
        now - created
    } else {
        0
    }
}

/// The item has outlived its time when the clock reads `now`.
pub open spec fn expired(item: ItemView, now: u64) -> bool {
    match item.expires {
        Some(ttl) => elapsed(item.created, now) >= ttl,
        None => false,
    }
}

impl Item {
    /// An item made at the reading `now` of the clock.
    pub fn new_at(value: Vec<u8>, expires: Option<u64>, now: u64) -> (item: Item)
        ensures
            item@ == (ItemView { value: value@, expires, created: now }),
    {
        Item { value, expires, created: now }
    }

    /// An item made now, by [`now_millis`].
    pub fn new(value: Vec<u8>, expires: Option<u64>) -> (item: Item)
        ensures
            item@.value == value@,
            item@.expires == expires,
    {
        Item::new_at(value, expires, now_millis())
    }

    /// Whether the item has outlived its time when the clock reads `now`.
    pub fn is_expired_at(&self, now: u64) -> (r: bool)
        ensures
            r == expired(self@, now),
    {
        match self.expires {
            Some(ttl) => {
                let passed: u64 = if now >= self.created {
                    now - self.created
                } else {
                    0
                };
                passed >= ttl
            },
            None => false,
        }
    }

    /// Whether the item has outlived its time now, by [`now_millis`].
    pub fn is_expired(&self) -> (r: bool)
        ensures
            exists|now: u64| r == #[trigger] expired(self@, now),
            self@.expires is None ==> !r,
            self@.expires == Some(0u64) ==> r,
    {
        let now = now_millis();
        let r = self.is_expired_at(now);
        assert(r == expired(self@, now));
        r
    }
}

/// A key of the store and the item under it.
pub struct Entry {
    pub key: Seq<u8>,
    pub item: ItemView,
}

/// The entry at index `i` is the one under `key`.
pub open spec fn key_at(entries: Seq<Entry>, key: Seq<u8>, i: int) -> bool {
    0 <= i < entries.len() && entries[i].key == key
}

/// There is an entry under `key`.
pub open spec fn has_key(entries: Seq<Entry>, key: Seq<u8>) -> bool {
    exists|i: int| key_at(entries, key, i)
}

/// The index of the entry under `key`, where there is one.
pub open spec fn position(entries: Seq<Entry>, key: Seq<u8>) -> int {
    choose|i: int| key_at(entries, key, i)
}

/// No two entries have the same key.
pub open spec fn distinct_keys(entries: Seq<Entry>) -> bool {
    forall|i: int, j: int|
        0 <= i < j < entries.len() ==> (#[trigger] entries[i]).key != (#[trigger] entries[j]).key
}

/// The item under `key`, if there is one.
pub open spec fn lookup(entries: Seq<Entry>, key: Seq<u8>) -> Option<ItemView> {
    if has_key(entries, key) {
        Some(entries[position(entries, key)].item)
    } else {
        None
    }
}

/// The entries after `item` is stored under `key`: it takes the place of the
/// item that was there, or comes last where there was none.
pub open spec fn put(entries: Seq<Entry>, key: Seq<u8>, item: ItemView) -> Seq<Entry> {
    if has_key(entries, key) {
        entries.update(position(entries, key), Entry { key, item })
    } else {
        entries.push(Entry { key, item })
    }
}

/// The entries without the one under `key`.
pub open spec fn delete(entries: Seq<Entry>, key: Seq<u8>) -> Seq<Entry> {
    if has_key(entries, key) {
        entries.remove(position(entries, key))
    } else {
        entries
    }
}

/// The keys, in the order of the entries.
pub open spec fn keys_of(entries: Seq<Entry>) -> Seq<Seq<u8>> {
    Seq::new(entries.len(), |i: int| entries[i].key)
}

/// The entries as a map from keys to items.
pub open spec fn as_map(entries: Seq<Entry>) -> Map<Seq<u8>, ItemView> {
    Map::new(|k: Seq<u8>| has_key(entries, k), |k: Seq<u8>| entries[position(entries, k)].item)
}

/// What a read of `key` at the reading `now` of the clock leaves of the
/// entries, and what it returns: the value under the key, unless there is
/// none or it has outlived its time; an item that has is removed.
pub open spec fn fetch(entries: Seq<Entry>, key: Seq<u8>, now: u64) -> (
    Seq<Entry>,
    Option<Seq<u8>>,
) {
    match lookup(entries, key) {
        Some(item) => if expired(item, now) {
            (delete(entries, key), None)
        } else {
            (entries, Some(item.value))
        },
        None => (entries, None),
    }
}

/// Among distinct keys, the entry under a key is the only one.
pub proof fn lemma_position(entries: Seq<Entry>, key: Seq<u8>, i: int)
    requires
        distinct_keys(entries),
        key_at(entries, key, i),
    ensures
        has_key(entries, key),
        position(entries, key) == i,
        lookup(entries, key) == Some(entries[i].item),
{
    let p = position(entries, key);
    assert(key_at(entries, key, p));
    if p < i {
        assert(entries[p].key != entries[i].key);
    }
    if i < p {
        assert(entries[i].key != entries[p].key);
    }
}

/// Storing keeps the keys distinct, puts the item under the key, and leaves
/// every other key as it was.
pub proof fn lemma_put(entries: Seq<Entry>, key: Seq<u8>, item: ItemView)
    requires
        distinct_keys(entries),
    ensures
        distinct_keys(put(entries, key, item)),
        lookup(put(entries, key, item), key) == Some(item),
        forall|other: Seq<u8>|
            other != key ==> #[trigger] lookup(put(entries, key, item), other) == lookup(
                entries,
                other,
            ),
        forall|other: Seq<u8>|
            #[trigger] has_key(put(entries, key, item), other) <==> other == key || has_key(
                entries,
                other,
            ),
        keys_of(put(entries, key, item)) == if has_key(entries, key) {
            keys_of(entries)
        } else {
            keys_of(entries).push(key)
        },
{
    let after = put(entries, key, item);
    let at = if has_key(entries, key) {
        position(entries, key)
    } else {
        entries.len() as int
    };
    if has_key(entries, key) {
        assert(key_at(entries, key, at));
    }
    assert(after.len() > at && after[at] == (Entry { key, item }));
    assert forall|i: int| 0 <= i < after.len() && i != at implies #[trigger] after[i]
        == entries[i] by {}
    assert forall|i: int, j: int| 0 <= i < j < after.len() implies (#[trigger] after[i]).key != (
    #[trigger] after[j]).key by {
        if i == at {
            assert(after[j] == entries[j]);
            if has_key(entries, key) {
                assert(entries[at].key != entries[j].key);
            } else {
                assert(!key_at(entries, key, j));
            }
        } else if j == at {
            assert(after[i] == entries[i]);
            if has_key(entries, key) {
                assert(entries[i].key != entries[at].key);
            } else {
                assert(!key_at(entries, key, i));
            }
        } else {
            assert(entries[i].key != entries[j].key);
        }
    }
    assert(key_at(after, key, at));
    lemma_position(after, key, at);
    assert forall|other: Seq<u8>| other != key implies #[trigger] lookup(after, other) == lookup(
        entries,
        other,
    ) by {
        if has_key(entries, other) {
            let p = position(entries, other);
            assert(key_at(entries, other, p));
            assert(p != at);
            assert(key_at(after, other, p));
            lemma_position(after, other, p);
        } else {
            if has_key(after, other) {
                let q = position(after, other);
                assert(key_at(after, other, q));
                assert(q != at);
                assert(key_at(entries, other, q));
            }
        }
    }
    assert forall|other: Seq<u8>| #[trigger]
        has_key(after, other) <==> other == key || has_key(entries, other) by {
        if other != key {
            assert(lookup(after, other) == lookup(entries, other));
        }
    }
    if has_key(entries, key) {
        assert(keys_of(after) =~= keys_of(entries));
    } else {
        assert(keys_of(after) =~= keys_of(entries).push(key));
    }
}

/// Removing keeps the keys distinct, leaves nothing under the key, and leaves
/// every other key as it was.
pub proof fn lemma_delete(entries: Seq<Entry>, key: Seq<u8>)
    requires
        distinct_keys(entries),
    ensures
        distinct_keys(delete(entries, key)),
        !has_key(delete(entries, key), key),
        forall|other: Seq<u8>|
            other != key ==> #[trigger] lookup(delete(entries, key), other) == lookup(
                entries,
                other,
            ),
        forall|other: Seq<u8>|
            #[trigger] has_key(delete(entries, key), other) <==> other != key && has_key(
                entries,
                other,
            ),
{
    let after = delete(entries, key);
    if has_key(entries, key) {
        let at = position(entries, key);
        assert(key_at(entries, key, at));
        assert forall|i: int| 0 <= i < after.len() implies #[trigger] after[i] == (if i < at {
            entries[i]
        } else {
            entries[i + 1]
        }) by {}
        assert forall|i: int, j: int| 0 <= i < j < after.len() implies (#[trigger] after[i]).key
            != (#[trigger] after[j]).key by {
            let a = if i < at {
                i
            } else {
                i + 1
            };
            let b = if j < at {
                j
            } else {
                j + 1
            };
            assert(entries[a].key != entries[b].key);
        }
        assert forall|i: int| 0 <= i < after.len() implies !key_at(after, key, i) by {
            let a = if i < at {
                i
            } else {
                i + 1
            };
            if a < at {
                assert(entries[a].key != entries[at].key);
            } else {
                assert(entries[at].key != entries[a].key);
            }
        }
        assert forall|other: Seq<u8>| other != key implies #[trigger] lookup(after, other)
            == lookup(entries, other) by {
            if has_key(entries, other) {
                let p = position(entries, other);
                assert(key_at(entries, other, p));
                assert(p != at);
                let q = if p < at {
                    p
                } else {
                    p - 1
                };
                assert(key_at(after, other, q));
                lemma_position(after, other, q);
            } else {
                if has_key(after, other) {
                    let q = position(after, other);
                    assert(key_at(after, other, q));
                    let a = if q < at {
                        q
                    } else {
                        q + 1
                    };
                    assert(key_at(entries, other, a));
                }
            }
        }
        assert forall|other: Seq<u8>| #[trigger]
            has_key(after, other) <==> other != key && has_key(entries, other) by {
            if other != key {
                assert(lookup(after, other) == lookup(entries, other));
            }
        }
    }
}

/// As maps, storing is `insert` and removing is `remove`.
pub proof fn lemma_as_map(entries: Seq<Entry>, key: Seq<u8>, item: ItemView)
    requires
        distinct_keys(entries),
    ensures
        as_map(put(entries, key, item)) == as_map(entries).insert(key, item),
        as_map(delete(entries, key)) == as_map(entries).remove(key),
        as_map(entries).dom() == keys_of(entries).to_set(),
        keys_of(entries).no_duplicates(),
{
    lemma_put(entries, key, item);
    lemma_delete(entries, key);
    let stored = put(entries, key, item);
    let removed = delete(entries, key);
    assert forall|k: Seq<u8>| #[trigger]
        as_map(stored).dom().contains(k) implies as_map(stored)[k] == as_map(entries).insert(
        key,
        item,
    )[k] by {
        if k != key {
            assert(lookup(stored, k) == lookup(entries, k));
        }
    }
    assert(as_map(stored) =~= as_map(entries).insert(key, item));
    assert forall|k: Seq<u8>| #[trigger]
        as_map(removed).dom().contains(k) implies as_map(removed)[k] == as_map(entries).remove(
        key,
    )[k] by {
        if k != key {
            assert(lookup(removed, k) == lookup(entries, k));
        }
    }
    assert(as_map(removed) =~= as_map(entries).remove(key));
    let keys = keys_of(entries);
    assert forall|k: Seq<u8>| as_map(entries).dom().contains(k) <==> keys.to_set().contains(
        k,
    ) by {
        if has_key(entries, k) {
            let p = position(entries, k);
            assert(key_at(entries, k, p));
            assert(keys[p] == k);
        }
        if keys.contains(k) {
            let i = choose|i: int| 0 <= i < keys.len() && keys[i] == k;
            assert(key_at(entries, k, i));
        }
    }
    assert(as_map(entries).dom() =~= keys.to_set());
    assert forall|i: int, j: int|
        0 <= i < keys.len() && 0 <= j < keys.len() && i != j implies keys[i] != keys[j] by {
        if i < j {
            assert(entries[i].key != entries[j].key);
        } else {
            assert(entries[j].key != entries[i].key);
        }
    }
}

/// A key and the item under it, as the store holds them.
#[derive(Debug, Clone, PartialEq, Eq)]
pub struct Slot {
    pub key: Vec<u8>,
    pub item: Item,
}

impl View for Slot {
    type V = Entry;

    open spec fn view(&self) -> Entry {
        Entry { key: self.key@, item: self.item@ }
    }
}

/// The store and the configuration it was made with.
///
/// The store holds at most one item under a key. Its entries keep the order
/// in which their keys first came.
#[derive(Debug)]
pub struct Database {
    storage: Vec<Slot>,
    config: Config,
}

impl View for Database {
    type V = Seq<Entry>;

    closed spec fn view(&self) -> Seq<Entry> {
        Seq::new(self.storage@.len(), |i: int| self.storage@[i]@)
    }
}

impl Database {
    /// No two entries have the same key: this holds of every store.
    #[verifier::type_invariant]
    pub open spec fn wf(self) -> bool {
        distinct_keys(self@)
    }

    /// The store as a map from keys to items.
    pub open spec fn map(&self) -> Map<Seq<u8>, ItemView> {
        as_map(self@)
    }

    /// The configuration that the store was made with.
    pub closed spec fn settings(&self) -> Config {
        self.config
    }

    /// An empty store.
    pub fn new(config: Config) -> (db: Database)
        ensures
            db@ == Seq::<Entry>::empty(),
            db.map() == Map::<Seq<u8>, ItemView>::empty(),
            db.settings() == config,
    {
        let db = Database { storage: Vec::new(), config };
        assert(db@ =~= Seq::<Entry>::empty());
        assert(db.map() =~= Map::<Seq<u8>, ItemView>::empty());
        db
    }

    /// The configuration that the store was made with.
    pub fn config(&self) -> (config: &Config)
        ensures
            *config == self.settings(),
    {
        &self.config
    }

    /// The number of entries.
    pub fn len(&self) -> (n: usize)
        ensures
            n == self@.len(),
    {
        self.storage.len()
    }

    /// The index of the entry under `key`.
    fn find(&self, key: &[u8]) -> (r: Option<usize>)
        ensures
            match r {
                Some(i) => key_at(self@, key@, i as int) && position(self@, key@) == i,
                None => !has_key(self@, key@),
            },
    {
        proof {
            use_type_invariant(self);
        }
        let mut i: usize = 0;
        while i < self.storage.len()
            invariant
                0 <= i <= self.storage.len(),
                distinct_keys(self@),
                forall|j: int| 0 <= j < i ==> !key_at(self@, key@, j),
            decreases self.storage.len() - i,
        {
            if bytes_eq(self.storage[i].key.as_slice(), key) {
                proof {
                    assert(self@[i as int] == self.storage@[i as int]@);
                    lemma_position(self@, key@, i as int);
                }
                return Some(i);
            }
            assert(self@[i as int] == self.storage@[i as int]@);
            i = i + 1;
        }
        None
    }

    /// Stores `item` under `key`, in place of what was there.
    pub fn insert(&mut self, key: Vec<u8>, item: Item)
        ensures
            final(self)@ == put(old(self)@, key@, item@),
            final(self).map() == old(self).map().insert(key@, item@),
            final(self).settings() == old(self).settings(),
    {
        let ghost before = self@;
        proof {
            use_type_invariant(&*self);
            lemma_put(before, key@, item@);
            lemma_as_map(before, key@, item@);
        }
        let found = self.find(key.as_slice());
        // The entries leave the store while they change.
        let mut storage: Vec<Slot> = Vec::new();
        core::mem::swap(&mut self.storage, &mut storage);
        match found {
            Some(i) => {
                storage.set(i, Slot { key, item });
            },
            None => {
                storage.push(Slot { key, item });
            },
        }
        assert(Seq::new(storage@.len(), |i: int| storage@[i]@) =~= put(before, key@, item@));
        core::mem::swap(&mut self.storage, &mut storage);
        assert(self@ =~= put(before, key@, item@));
    }

    /// Reads the value under `key` when the clock reads `now`.
    ///
    /// An item that has outlived its time is removed, and the read finds
    /// nothing.
    pub fn get_at(&mut self, key: &[u8], now: u64) -> (r: Option<Vec<u8>>)
        ensures
            final(self)@ == fetch(old(self)@, key@, now).0,
            match fetch(old(self)@, key@, now).1 {
                Some(value) => r matches Some(v) && v@ == value,
                None => r is None,
            },
            final(self).map() == if r is None {
                old(self).map().remove(key@)
            } else {
                old(self).map()
            },
            final(self).settings() == old(self).settings(),
    {
        let ghost before = self@;
        proof {
            use_type_invariant(&*self);
            lemma_delete(before, key@);
            lemma_as_map(before, key@, arbitrary());
            if !has_key(before, key@) {
                assert(as_map(before).remove(key@) =~= as_map(before));
            }
        }
        match self.find(key) {
            Some(i) => {
                assert(self@[i as int] == self.storage@[i as int]@);
                if self.storage[i].item.is_expired_at(now) {
                    let mut storage: Vec<Slot> = Vec::new();
                    core::mem::swap(&mut self.storage, &mut storage);
                    storage.remove(i);
                    assert(Seq::new(storage@.len(), |i: int| storage@[i]@) =~= delete(
                        before,
                        key@,
                    ));
                    core::mem::swap(&mut self.storage, &mut storage);
                    assert(self@ =~= delete(before, key@));
                    None
                } else {
                    Some(copy_bytes(self.storage[i].item.value.as_slice()))
                }
            },
            None => None,
        }
    }

    /// Reads the value under `key` now, by [`now_millis`]: see [`Self::get_at`].
    pub fn get(&mut self, key: &[u8]) -> (r: Option<Vec<u8>>)
        ensures
            exists|now: u64|
                final(self)@ == (#[trigger] fetch(old(self)@, key@, now)).0 && match fetch(
                    old(self)@,
                    key@,
                    now,
                ).1 {
                    Some(value) => r matches Some(v) && v@ == value,
                    None => r is None,
                },
            final(self).settings() == old(self).settings(),
    {
        let now = now_millis();
        let r = self.get_at(key, now);
        assert(final(self)@ == fetch(old(self)@, key@, now).0);
        r
    }

    /// The keys, in the order of the entries.
    pub fn keys(&self) -> (keys: Vec<Vec<u8>>)
        ensures
            keys@.len() == self@.len(),
            forall|i: int| 0 <= i < keys@.len() ==> (#[trigger] keys@[i])@ == keys_of(self@)[i],
    {
        let mut keys: Vec<Vec<u8>> = Vec::new();
        let mut i: usize = 0;
        while i < self.storage.len()
            invariant
                0 <= i <= self.storage.len(),
                keys@.len() == i,
                forall|j: int| 0 <= j < i ==> (#[trigger] keys@[j])@ == keys_of(self@)[j],
            decreases self.storage.len() - i,
        {
            keys.push(copy_bytes(self.storage[i].key.as_slice()));
            i = i + 1;
        }
        keys
    }
}

} // verus!
