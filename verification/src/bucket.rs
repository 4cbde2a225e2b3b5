//! A sorted-vector map from account ids to values.

use vstd::prelude::*;

verus! {

/// The keys of `entries` grow strictly from each position to every later one.
pub open spec fn strictly_increasing<V>(entries: Seq<(usize, V)>) -> bool {
    forall|i: int, j: int| 0 <= i < j < entries.len() ==> entries[i].0 < entries[j].0
}

/// Some entry of `entries` has the key `key`.
pub open spec fn has_key<V>(entries: Seq<(usize, V)>, key: usize) -> bool {
    exists|i: int| 0 <= i < entries.len() && entries[i].0 == key
}

/// A position at which `entries` holds `key`; meaningful where `has_key` holds.
pub open spec fn index_of<V>(entries: Seq<(usize, V)>, key: usize) -> int {
    choose|i: int| 0 <= i < entries.len() && entries[i].0 == key
}

/// The value stored under `key`, if any.
pub open spec fn lookup<V>(entries: Seq<(usize, V)>, key: usize) -> Option<V> {
    if has_key(entries, key) {
        Some(entries[index_of(entries, key)].1)
    } else {
        None
    }
}

/// `p` is where `key` has to go to keep `entries` sorted: everything before
/// `p` is smaller than `key`, everything from `p` on is greater.
pub open spec fn is_insertion_point<V>(entries: Seq<(usize, V)>, key: usize, p: int) -> bool {
    &&& 0 <= p <= entries.len()
    &&& forall|i: int| 0 <= i < p ==> entries[i].0 < key
    &&& forall|i: int| p <= i < entries.len() ==> key < entries[i].0
}

/// The insertion point of `key`; meaningful where one exists, that is where
/// `entries` is sorted and lacks `key`.
pub open spec fn insertion_point<V>(entries: Seq<(usize, V)>, key: usize) -> int {
    choose|p: int| is_insertion_point(entries, key, p)
}

/// A key has one insertion point at most.
pub proof fn lemma_insertion_point_unique<V>(entries: Seq<(usize, V)>, key: usize, p: int)
    requires
        is_insertion_point(entries, key, p),
    ensures
        insertion_point(entries, key) == p,
{
    let q = insertion_point(entries, key);
    if q < p {
        assert(entries[q].0 < key);
    } else if p < q {
        assert(entries[p].0 < key);
    }
}

/// In a sorted sequence a key stands at one position at most, so `index_of`
/// names the position at which it was found.
pub proof fn lemma_index_of_unique<V>(entries: Seq<(usize, V)>, key: usize, i: int)
    requires
        strictly_increasing(entries),
        0 <= i < entries.len(),
        entries[i].0 == key,
    ensures
        has_key(entries, key),
        index_of(entries, key) == i,
        lookup(entries, key) == Some(entries[i].1),
{
    let j = index_of(entries, key);
    if j < i {
        assert(entries[j].0 < entries[i].0);
    } else if i < j {
        assert(entries[i].0 < entries[j].0);
    }
}

/// `entries` after an insert of `key` with `value`: the pair stands at the
/// insertion point of `key` where `key` is new, and nothing has changed where
/// it is not.
pub open spec fn after_insert<V>(entries: Seq<(usize, V)>, key: usize, value: V) -> Seq<
    (usize, V),
> {
    if has_key(entries, key) {
        entries
    } else {
        entries.insert(insertion_point(entries, key), (key, value))
    }
}

/// `entries` after an update of `key` to `value`: the pair stands where `key`
/// stood, and nothing has changed where `key` is absent.
pub open spec fn after_update<V>(entries: Seq<(usize, V)>, key: usize, value: V) -> Seq<
    (usize, V),
> {
    if has_key(entries, key) {
        entries.update(index_of(entries, key), (key, value))
    } else {
        entries
    }
}

/// In a sorted sequence that lacks `key`, `key` has an insertion point.
pub proof fn lemma_insertion_point_exists<V>(entries: Seq<(usize, V)>, key: usize)
    requires
        strictly_increasing(entries),
        !has_key(entries, key),
    ensures
        is_insertion_point(entries, key, insertion_point(entries, key)),
    decreases entries.len(),
{
    if entries.len() == 0 {
        assert(is_insertion_point(entries, key, 0));
    } else if entries.last().0 < key {
        assert forall|i: int| 0 <= i < entries.len() implies entries[i].0 < key by {
            if i < entries.len() - 1 {
                assert(entries[i].0 < entries[entries.len() - 1].0);
            }
        }
        assert(is_insertion_point(entries, key, entries.len() as int));
    } else {
        let front = entries.drop_last();
        assert(!has_key(front, key)) by {
            if has_key(front, key) {
                let i = index_of(front, key);
                assert(entries[i].0 == key);
            }
        }
        lemma_insertion_point_exists(front, key);
        let p = insertion_point(front, key);
        assert(entries[entries.len() - 1].0 != key);
        assert forall|i: int| p <= i < entries.len() implies key < entries[i].0 by {
            if i < front.len() {
                assert(front[i].0 == entries[i].0);
            }
        }
        assert forall|i: int| 0 <= i < p implies entries[i].0 < key by {
            assert(front[i].0 == entries[i].0);
        }
        assert(is_insertion_point(entries, key, p));
    }
}

/// An insert keeps the order, leaves every other key with its value, and
/// gives a new key the value inserted; a key that was there keeps its own.
pub proof fn lemma_after_insert<V>(entries: Seq<(usize, V)>, key: usize, value: V)
    requires
        strictly_increasing(entries),
    ensures
        strictly_increasing(after_insert(entries, key, value)),
        lookup(after_insert(entries, key, value), key) == if has_key(entries, key) {
            lookup(entries, key)
        } else {
            Some(value)
        },
        forall|other: usize|
            other != key ==> lookup(after_insert(entries, key, value), other) == lookup(
                entries,
                other,
            ),
{
    if !has_key(entries, key) {
        lemma_insertion_point_exists(entries, key);
        let at = insertion_point(entries, key);
        let grown = after_insert(entries, key, value);
        assert forall|i: int, j: int| 0 <= i < j < grown.len() implies grown[i].0
            < grown[j].0 by {
            let a = if i < at { i } else { i - 1 };
            let b = if j < at { j } else { j - 1 };
            if i != at && j != at {
                assert(entries[a].0 < entries[b].0);
            }
        }
        lemma_index_of_unique(grown, key, at);
        assert forall|other: usize| other != key implies lookup(grown, other) == lookup(
            entries,
            other,
        ) by {
            if has_key(entries, other) {
                let j = index_of(entries, other);
                let moved = if j < at { j } else { j + 1 };
                assert(grown[moved] == entries[j]);
                lemma_index_of_unique(grown, other, moved);
            } else if has_key(grown, other) {
                let j = index_of(grown, other);
                let origin = if j < at { j } else { j - 1 };
                assert(entries[origin].0 == other);
            }
        }
    }
}

/// An update keeps the keys where they stand, hence the order, leaves every
/// other key with its value, and gives a key that is there the new value.
pub proof fn lemma_after_update<V>(entries: Seq<(usize, V)>, key: usize, value: V)
    requires
        strictly_increasing(entries),
    ensures
        strictly_increasing(after_update(entries, key, value)),
        after_update(entries, key, value).len() == entries.len(),
        forall|i: int|
            0 <= i < entries.len() ==> (#[trigger] after_update(entries, key, value)[i]).0
                == entries[i].0,
        lookup(after_update(entries, key, value), key) == if has_key(entries, key) {
            Some(value)
        } else {
            None
        },
        forall|other: usize|
            other != key ==> lookup(after_update(entries, key, value), other) == lookup(
                entries,
                other,
            ),
{
    if has_key(entries, key) {
        let at = index_of(entries, key);
        let changed = after_update(entries, key, value);
        assert forall|i: int, j: int| 0 <= i < j < changed.len() implies changed[i].0
            < changed[j].0 by {
            assert(entries[i].0 < entries[j].0);
        }
        lemma_index_of_unique(changed, key, at);
        assert forall|other: usize| other != key implies lookup(changed, other) == lookup(
            entries,
            other,
        ) by {
            if has_key(entries, other) {
                let j = index_of(entries, other);
                assert(changed[j] == entries[j]);
                lemma_index_of_unique(changed, other, j);
            } else if has_key(changed, other) {
                let j = index_of(changed, other);
                assert(entries[j].0 == other);
            }
        }
    }
}

/// One change to a bucket.
pub enum Edit<V> {
    /// An insert of a key with a value.
    Insert(usize, V),
    /// An update of a key to a value.
    Update(usize, V),
}

/// `entries` after `edit`.
pub open spec fn after_edit<V>(entries: Seq<(usize, V)>, edit: Edit<V>) -> Seq<(usize, V)> {
    match edit {
        Edit::Insert(key, value) => after_insert(entries, key, value),
        Edit::Update(key, value) => after_update(entries, key, value),
    }
}

/// `entries` after each of `edits` in turn.
pub open spec fn after_edits<V>(entries: Seq<(usize, V)>, edits: Seq<Edit<V>>) -> Seq<(usize, V)>
    decreases edits.len(),
{
    if edits.len() == 0 {
        entries
    } else {
        after_edits(after_edit(entries, edits[0]), edits.skip(1))
    }
}

/// Whatever inserts and updates are made, and in whatever order, a walk over
/// the entries meets strictly increasing ids.
pub proof fn lemma_edits_keep_order<V>(entries: Seq<(usize, V)>, edits: Seq<Edit<V>>)
    requires
        strictly_increasing(entries),
    ensures
        strictly_increasing(after_edits(entries, edits)),
    decreases edits.len(),
{
    if edits.len() > 0 {
        match edits[0] {
            Edit::Insert(key, value) => lemma_after_insert(entries, key, value),
            Edit::Update(key, value) => lemma_after_update(entries, key, value),
        }
        lemma_edits_keep_order(after_edit(entries, edits[0]), edits.skip(1));
    }
}

/// What a search for a key came to.
enum Slot {
    /// The key stands at this position.
    Found(usize),
    /// The key is absent; this is its insertion point.
    Vacant(usize),
}

/// A map from account ids to values, held as a vector sorted by id.
pub struct Bucket<V> {
    map: Vec<(usize, V)>,
}

impl<V: Copy> Bucket<V> {
    /// The entries in storage order.
    pub closed spec fn view(&self) -> Seq<(usize, V)> {
        self.map@
    }

    /// The bucket's invariant: ids are strictly increasing, hence unique.
    pub open spec fn wf(&self) -> bool {
        strictly_increasing(self@)
    }

    /// An empty bucket.
    pub fn new() -> (bucket: Self)
        ensures
            bucket@ == Seq::<(usize, V)>::empty(),
            bucket.wf(),
    {
        Self { map: Vec::new() }
    }

    /// The number of entries.
    pub fn len(&self) -> (len: usize)
        ensures
            len == self@.len(),
    {
        self.map.len()
    }

    /// The entries in ascending order of their ids, to walk as often as
    /// needed.
    pub fn as_slice(&self) -> (entries: &[(usize, V)])
        ensures
            entries@ == self@,
            self.wf() ==> strictly_increasing(entries@),
    {
        self.map.as_slice()
    }

    /// Binary search for `key`.
    fn search(&self, key: usize) -> (slot: Slot)
        requires
            self.wf(),
        ensures
            match slot {
                Slot::Found(i) => i < self@.len() && self@[i as int].0 == key,
                Slot::Vacant(p) => !has_key(self@, key) && is_insertion_point(self@, key, p as int),
            },
    {
        let mut low: usize = 0;
        let mut high: usize = self.map.len();
        while low < high
            invariant
                self.wf(),
                low <= high <= self@.len(),
                forall|i: int| 0 <= i < low ==> self@[i].0 < key,
                forall|i: int| high <= i < self@.len() ==> key < self@[i].0,
            decreases high - low,
        {
            let mid: usize = low + (high - low) / 2;
            let probe: usize = self.map[mid].0;
            if probe == key {
                return Slot::Found(mid);
            } else if probe < key {
                proof {
                    assert forall|i: int| 0 <= i < mid + 1 implies self@[i].0 < key by {
                        if i < mid {
                            assert(self@[i].0 < self@[mid as int].0);
                        }
                    }
                }
                low = mid + 1;
            } else {
                proof {
                    assert forall|i: int| mid <= i < self@.len() implies key < self@[i].0 by {
                        if mid < i {
                            assert(self@[mid as int].0 < self@[i].0);
                        }
                    }
                }
                high = mid;
            }
        }
        Slot::Vacant(low)
    }

    /// Adds `key` with `value` where `key` is new, and says whether it did.
    /// A key that is already present keeps its value.
    pub fn insert(&mut self, key: usize, value: V) -> (inserted: bool)
        requires
            old(self).wf(),
        ensures
            final(self).wf(),
            inserted == !has_key(old(self)@, key),
            final(self)@ == after_insert(old(self)@, key, value),
    {
        proof {
            lemma_after_insert(self@, key, value);
        }
        match self.search(key) {
            Slot::Found(_) => false,
            Slot::Vacant(index) => {
                proof {
                    lemma_insertion_point_unique(self@, key, index as int);
                }
                self.map.insert(index, (key, value));
                true
            },
        }
    }

    /// Overwrites the value under `key` where `key` is present, and says
    /// whether it did. An absent key is not added.
    pub fn update(&mut self, key: usize, value: V) -> (updated: bool)
        requires
            old(self).wf(),
        ensures
            final(self).wf(),
            updated == has_key(old(self)@, key),
            final(self)@ == after_update(old(self)@, key, value),
    {
        proof {
            lemma_after_update(self@, key, value);
        }
        match self.search(key) {
            Slot::Found(index) => {
                proof {
                    lemma_index_of_unique(self@, key, index as int);
                }
                self.map[index] = (key, value);
                true
            },
            Slot::Vacant(_) => false,
        }
    }

    /// The entry under `key`, if there is one.
    pub fn get(&self, key: usize) -> (entry: Option<&(usize, V)>)
        requires
            self.wf(),
        ensures
            match entry {
                Some(pair) => lookup(self@, key) == Some(pair.1) && pair.0 == key,
                None => lookup(self@, key) is None,
            },
    {
        match self.search(key) {
            Slot::Found(index) => {
                proof {
                    lemma_index_of_unique(self@, key, index as int);
                }
                Some(&self.map[index])
            },
            Slot::Vacant(_) => None,
        }
    }
}

} // verus!
