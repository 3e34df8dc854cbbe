//! Finite maps keyed by integer symbols, kept in ascending key order.
//!
//! A [`SymbolMap`] stores each key once, in ascending order, so that two maps
//! with the same entries are the same value and iterate in the same order.
use vstd::prelude::*;

verus! {

/// Whether the keys of `entries` strictly ascend.
pub open spec fn ascending<V>(entries: Seq<(u64, V)>) -> bool {
    forall|i: int, j: int| 0 <= i < j < entries.len() ==> entries[i].0 < entries[j].0
}

/// The map that `entries` lists, later entries taking precedence.
pub open spec fn map_of<V>(entries: Seq<(u64, V)>) -> Map<u64, V>
    decreases entries.len(),
{
    if entries.len() == 0 {
        Map::empty()
    } else {
        map_of(entries.drop_last()).insert(entries.last().0, entries.last().1)
    }
}

/// The keys of `entries`, in order.
pub open spec fn keys_of<V>(entries: Seq<(u64, V)>) -> Seq<u64> {
    entries.map_values(|entry: (u64, V)| entry.0)
}

/// A key's membership and value in the map of `entries` are those of the
/// entry that carries it, when keys ascend.
pub proof fn lemma_map_of_entries<V>(entries: Seq<(u64, V)>)
    requires
        ascending(entries),
    ensures
        forall|key: u64|
            #![trigger map_of(entries).dom().contains(key)]
            map_of(entries).dom().contains(key) <==> exists|i: int|
                0 <= i < entries.len() && entries[i].0 == key,
        forall|i: int|
            0 <= i < entries.len() ==> #[trigger] map_of(entries)[entries[i].0] == entries[i].1,
        map_of(entries).dom().finite(),
        map_of(entries).dom().len() == entries.len(),
    decreases entries.len(),
{
    if entries.len() > 0 {
        let prefix = entries.drop_last();
        lemma_map_of_entries(prefix);
        let last = entries.last();
        assert(!map_of(prefix).dom().contains(last.0)) by {
            if map_of(prefix).dom().contains(last.0) {
                let i = choose|i: int| 0 <= i < prefix.len() && prefix[i].0 == last.0;
                assert(entries[i].0 < entries[entries.len() - 1].0);
            }
        }
        assert forall|key: u64| #![trigger map_of(entries).dom().contains(key)]
            map_of(entries).dom().contains(key) <==> exists|i: int|
                0 <= i < entries.len() && entries[i].0 == key by {
            if map_of(entries).dom().contains(key) && key != last.0 {
                let i = choose|i: int| 0 <= i < prefix.len() && prefix[i].0 == key;
                assert(entries[i].0 == key);
            }
            if exists|i: int| 0 <= i < entries.len() && entries[i].0 == key {
                let i = choose|i: int| 0 <= i < entries.len() && entries[i].0 == key;
                if i < entries.len() - 1 {
                    assert(prefix[i].0 == key);
                }
            }
        }
        assert forall|i: int| 0 <= i < entries.len() implies #[trigger] map_of(entries)[entries[i].0]
            == entries[i].1 by {
            if i < entries.len() - 1 {
                assert(prefix[i] == entries[i]);
                assert(entries[i].0 != last.0);
            }
        }
    }
}

/// Two ascending entry lists describe the same map exactly when they are
/// the same list.
pub proof fn lemma_ascending_unique<V>(left: Seq<(u64, V)>, right: Seq<(u64, V)>)
    requires
        ascending(left),
        ascending(right),
        map_of(left) == map_of(right),
    ensures
        left == right,
    decreases left.len(),
{
    lemma_map_of_entries(left);
    lemma_map_of_entries(right);
    if left.len() > 0 {
        let last_left = left.last();
        let last_right = right.last();
        assert(map_of(right).dom().contains(last_left.0));
        assert(map_of(left).dom().contains(last_right.0));
        let i = choose|i: int| 0 <= i < right.len() && right[i].0 == last_left.0;
        let j = choose|j: int| 0 <= j < left.len() && left[j].0 == last_right.0;
        if i < right.len() - 1 {
            assert(right[i].0 < last_right.0);
            assert(left[j].0 <= last_left.0);
        }
        assert(last_left.0 == last_right.0);
        assert(map_of(left)[last_left.0] == last_left.1);
        assert(map_of(right)[last_right.0] == last_right.1);
        let left_prefix = left.drop_last();
        let right_prefix = right.drop_last();
        lemma_map_of_entries(left_prefix);
        lemma_map_of_entries(right_prefix);
        assert(map_of(left_prefix) =~= map_of(left).remove(last_left.0)) by {
            assert(!map_of(left_prefix).dom().contains(last_left.0)) by {
                if map_of(left_prefix).dom().contains(last_left.0) {
                    let k = choose|k: int| 0 <= k < left_prefix.len() && left_prefix[k].0 == last_left.0;
                    assert(left[k].0 < left[left.len() - 1].0);
                }
            }
        }
        assert(map_of(right_prefix) =~= map_of(right).remove(last_right.0)) by {
            assert(!map_of(right_prefix).dom().contains(last_right.0)) by {
                if map_of(right_prefix).dom().contains(last_right.0) {
                    let k = choose|k: int|
                        0 <= k < right_prefix.len() && right_prefix[k].0 == last_right.0;
                    assert(right[k].0 < right[right.len() - 1].0);
                }
            }
        }
        lemma_ascending_unique(left_prefix, right_prefix);
        assert(left =~= left_prefix.push(last_left));
        assert(right =~= right_prefix.push(last_right));
    } else {
        assert(map_of(right).dom().len() == 0);
    }
}

/// Inserting an entry whose key is new into an entry list inserts it into
/// the map the list describes.
pub proof fn lemma_map_of_insert<V>(entries: Seq<(u64, V)>, position: int, entry: (u64, V))
    requires
        0 <= position <= entries.len(),
        forall|i: int| 0 <= i < entries.len() ==> entries[i].0 != entry.0,
    ensures
        map_of(entries.insert(position, entry)) == map_of(entries).insert(entry.0, entry.1),
    decreases entries.len(),
{
    let inserted = entries.insert(position, entry);
    if position == entries.len() {
        assert(inserted.drop_last() =~= entries);
    } else {
        let prefix = entries.drop_last();
        lemma_map_of_insert(prefix, position, entry);
        assert(inserted.drop_last() =~= prefix.insert(position, entry));
        assert(inserted.last() == entries.last());
        assert(entries.last().0 != entry.0);
        assert(map_of(inserted) =~= map_of(entries).insert(entry.0, entry.1));
    }
}

/// The map that `entries` describes, or the first key that repeats.
pub open spec fn collect_entries<V>(entries: Seq<(u64, V)>) -> Result<Map<u64, V>, u64>
    decreases entries.len(),
{
    if entries.len() == 0 {
        Ok(Map::empty())
    } else {
        match collect_entries(entries.drop_last()) {
            Err(key) => Err(key),
            Ok(map) => if map.dom().contains(entries.last().0) {
                Err(entries.last().0)
            } else {
                Ok(map.insert(entries.last().0, entries.last().1))
            },
        }
    }
}

/// Once a prefix of `entries` repeats a key, every longer prefix reports
/// that same key.
pub proof fn lemma_collect_entries_error_persists<V>(entries: Seq<(u64, V)>, i: int, j: int)
    requires
        0 <= i <= j <= entries.len(),
        collect_entries(entries.take(i)) is Err,
    ensures
        collect_entries(entries.take(j)) == collect_entries(entries.take(i)),
    decreases j - i,
{
    if i < j {
        lemma_collect_entries_error_persists(entries, i, j - 1);
        assert(entries.take(j).drop_last() == entries.take(j - 1));
    }
}

/// A finite map keyed by integer symbols, stored once per key in ascending
/// key order.
#[derive(Clone, Debug, PartialEq, Eq, Hash)]
pub struct SymbolMap<V> {
    entries: Vec<(u64, V)>,
}

impl<V> View for SymbolMap<V> {
    type V = Map<u64, V>;

    /// The map from keys to values.
    open spec fn view(&self) -> Map<u64, V> {
        map_of(self.entries())
    }
}

impl<V> SymbolMap<V> {
    /// The entries, in ascending key order.
    pub closed spec fn entries(self) -> Seq<(u64, V)> {
        self.entries@
    }

    /// The keys, in ascending order.
    pub open spec fn key_seq(self) -> Seq<u64> {
        keys_of(self.entries())
    }

    /// Keys are stored once each, in ascending order.
    pub closed spec fn well_formed(self) -> bool {
        ascending(self.entries@)
    }

    /// The view of a well-formed map is finite, has one key per entry, and
    /// holds exactly the stored entries.
    pub proof fn lemma_view(self)
        requires
            self.well_formed(),
        ensures
            ascending(self.entries()),
            forall|key: u64|
                #![trigger self@.dom().contains(key)]
                self@.dom().contains(key) <==> exists|i: int|
                    0 <= i < self.entries().len() && self.entries()[i].0 == key,
            forall|i: int|
                0 <= i < self.entries().len() ==> #[trigger] self@[self.entries()[i].0]
                    == self.entries()[i].1,
            self@.dom().finite(),
            self@.dom().len() == self.entries().len(),
    {
        lemma_map_of_entries(self.entries@);
    }

    /// Two well-formed maps with the same view hold the same entries.
    pub proof fn lemma_unique(self, other: Self)
        requires
            self.well_formed(),
            other.well_formed(),
            self@ == other@,
        ensures
            self.entries() == other.entries(),
    {
        lemma_ascending_unique(self.entries@, other.entries@);
    }

    /// The empty map.
    pub fn new() -> (map: Self)
        ensures
            map.well_formed(),
            map.entries() == Seq::<(u64, V)>::empty(),
            map@ == Map::<u64, V>::empty(),
    {
        SymbolMap { entries: Vec::new() }
    }

    /// The map listing `entries`, or the first key that repeats.
    pub fn from_entries(entries: Vec<(u64, V)>) -> (map: Result<Self, u64>)
        ensures
            match collect_entries(entries@) {
                Err(key) => map == Err::<Self, u64>(key),
                Ok(expected) => map matches Ok(built) && built.well_formed() && built@ == expected,
            },
    {
        let ghost all = entries@;
        let mut map: SymbolMap<V> = SymbolMap::new();
        let mut rest = entries;
        let total = rest.len();
        assert(all.len() == total);
        let mut index: usize = 0;
        #[verifier::loop_isolation(false)]
        while rest.len() > 0
            invariant
                index + rest@.len() == all.len(),
                all.len() <= usize::MAX,
                rest@ == all.subrange(index as int, all.len() as int),
                map.well_formed(),
                collect_entries(all.take(index as int)) == Ok::<Map<u64, V>, u64>(map@),
            decreases rest@.len(),
        {
            let entry = rest.remove(0);
            proof {
                assert(all[index as int] == entry);
                assert(all.take(index + 1).drop_last() == all.take(index as int));
                assert(all.take(index + 1).last() == entry);
            }
            if map.contains(entry.0) {
                proof {
                    assert(collect_entries(all.take(index + 1)) == Err::<Map<u64, V>, u64>(entry.0));
                    lemma_collect_entries_error_persists(all, index + 1, all.len() as int);
                    assert(all.take(all.len() as int) == all);
                }
                return Err(entry.0);
            }
            map.insert_new(entry.0, entry.1);
            index = index + 1;
        }
        proof {
            assert(all.take(all.len() as int) == all);
        }
        Ok(map)
    }

    /// The number of keys.
    pub fn len(&self) -> (count: usize)
        ensures
            count == self.entries().len(),
    {
        self.entries.len()
    }

    /// The entry at `index` in ascending key order.
    pub fn entry(&self, index: usize) -> (entry: &(u64, V))
        requires
            index < self.entries().len(),
        ensures
            *entry == self.entries()[index as int],
    {
        &self.entries[index]
    }

    /// The position of `key` among the stored entries, if it is stored.
    pub fn position(&self, key: u64) -> (position: Option<usize>)
        requires
            self.well_formed(),
        ensures
            match position {
                Some(index) => index < self.entries().len() && self.entries()[index as int].0
                    == key,
                None => !self@.dom().contains(key),
            },
    {
        proof {
            self.lemma_view();
        }
        let mut index: usize = 0;
        while index < self.entries.len()
            invariant
                index <= self.entries@.len(),
                forall|i: int| 0 <= i < index ==> self.entries@[i].0 != key,
            decreases self.entries@.len() - index,
        {
            if self.entries[index].0 == key {
                return Some(index);
            }
            index = index + 1;
        }
        None
    }

    /// The value stored for `key`.
    pub fn get(&self, key: u64) -> (value: Option<&V>)
        requires
            self.well_formed(),
        ensures
            match value {
                Some(found) => self@.dom().contains(key) && *found == self@[key],
                None => !self@.dom().contains(key),
            },
    {
        proof {
            self.lemma_view();
        }
        match self.position(key) {
            Some(index) => Some(&self.entries[index].1),
            None => None,
        }
    }

    /// Whether `key` is stored.
    pub fn contains(&self, key: u64) -> (present: bool)
        requires
            self.well_formed(),
        ensures
            present == self@.dom().contains(key),
    {
        proof {
            self.lemma_view();
        }
        self.position(key).is_some()
    }

    /// Stores `value` for a key that is not yet stored.
    pub fn insert_new(&mut self, key: u64, value: V)
        requires
            old(self).well_formed(),
            !old(self)@.dom().contains(key),
        ensures
            final(self).well_formed(),
            final(self)@ == old(self)@.insert(key, value),
            final(self).entries().len() == old(self).entries().len() + 1,
    {
        proof {
            self.lemma_view();
        }
        let ghost before = self.entries@;
        let mut index: usize = 0;
        while index < self.entries.len() && self.entries[index].0 < key
            invariant
                index <= self.entries@.len(),
                self.entries@ == before,
                ascending(before),
                forall|i: int| 0 <= i < index ==> before[i].0 < key,
            decreases self.entries@.len() - index,
        {
            index = index + 1;
        }
        proof {
            assert forall|i: int| 0 <= i < before.len() implies before[i].0 != key by {
                if before[i].0 == key {
                    assert(map_of(before).dom().contains(key));
                }
            }
            assert forall|i: int| index <= i < before.len() implies key < before[i].0 by {
                assert(before[index as int].0 >= key);
                if i > index {
                    assert(before[index as int].0 < before[i].0);
                }
            }
            lemma_map_of_insert(before, index as int, (key, value));
            before.insert_ensures(index as int, (key, value));
        }
        self.entries.insert(index, (key, value));
        proof {
            let after = self.entries@;
            assert forall|i: int, j: int| 0 <= i < j < after.len() implies after[i].0
                < after[j].0 by {
                if j < index {
                } else if j == index {
                } else if i < index {
                    assert(after[j] == before[j - 1]);
                } else if i == index {
                    assert(after[j] == before[j - 1]);
                } else {
                    assert(after[i] == before[i - 1]);
                    assert(after[j] == before[j - 1]);
                }
            }
        }
    }
}

impl<V> SymbolMap<V> {
    /// The keys of this map, as a map to nothing.
    pub fn key_set(&self) -> (keys: SymbolMap<()>)
        requires
            self.well_formed(),
        ensures
            keys.well_formed(),
            keys@.dom() == self@.dom(),
            keys.key_seq() == self.key_seq(),
    {
        let mut entries: Vec<(u64, ())> = Vec::new();
        let mut index: usize = 0;
        while index < self.entries.len()
            invariant
                index <= self.entries@.len(),
                entries@.len() == index,
                forall|i: int| 0 <= i < index ==> (#[trigger] entries@[i]).0 == self.entries@[i].0,
            decreases self.entries@.len() - index,
        {
            entries.push((self.entries[index].0, ()));
            index = index + 1;
        }
        let keys = SymbolMap { entries };
        proof {
            lemma_map_of_entries(self.entries@);
            lemma_map_of_entries(keys.entries@);
            assert(keys@.dom() =~= self@.dom()) by {
                assert forall|key: u64| keys@.dom().contains(key) implies self@.dom().contains(key) by {
                    let i = choose|i: int| 0 <= i < keys.entries@.len() && keys.entries@[i].0 == key;
                    assert(self.entries@[i].0 == key);
                }
                assert forall|key: u64| self@.dom().contains(key) implies keys@.dom().contains(key) by {
                    let i = choose|i: int| 0 <= i < self.entries@.len() && self.entries@[i].0 == key;
                    assert(keys.entries@[i].0 == key);
                }
            }
            assert(keys.key_seq() =~= self.key_seq());
        }
        keys
    }
}

impl<V: Copy> SymbolMap<V> {
    /// A copy of this map holding the same entries.
    pub fn duplicate(&self) -> (copy: Self)
        ensures
            copy.entries() == self.entries(),
            self.well_formed() ==> copy.well_formed(),
    {
        let mut entries: Vec<(u64, V)> = Vec::new();
        let mut index: usize = 0;
        while index < self.entries.len()
            invariant
                index <= self.entries@.len(),
                entries@ == self.entries@.subrange(0, index as int),
            decreases self.entries@.len() - index,
        {
            entries.push(self.entries[index]);
            index = index + 1;
        }
        assert(entries@ == self.entries@);
        SymbolMap { entries }
    }
}

impl SymbolMap<u64> {
    /// Whether the two maps hold the same entries.
    pub fn same_as(&self, other: &Self) -> (same: bool)
        requires
            self.well_formed(),
            other.well_formed(),
        ensures
            same == (self@ == other@),
            same == (self.entries() == other.entries()),
    {
        proof {
            if self@ == other@ {
                self.lemma_unique(*other);
            }
        }
        if self.entries.len() != other.entries.len() {
            return false;
        }
        let mut index: usize = 0;
        while index < self.entries.len()
            invariant
                index <= self.entries@.len(),
                self.entries@.len() == other.entries@.len(),
                forall|i: int| 0 <= i < index ==> self.entries@[i] == other.entries@[i],
                self@ == other@ ==> self.entries() == other.entries(),
            decreases self.entries@.len() - index,
        {
            if self.entries[index].0 != other.entries[index].0 || self.entries[index].1
                != other.entries[index].1 {
                return false;
            }
            index = index + 1;
        }
        assert(self.entries@ =~= other.entries@);
        true
    }
}

/// Two ascending entry lists over the same keys list those keys in the same
/// order.
pub proof fn lemma_same_keys<V, W>(left: Seq<(u64, V)>, right: Seq<(u64, W)>)
    requires
        ascending(left),
        ascending(right),
        map_of(left).dom() == map_of(right).dom(),
    ensures
        keys_of(left) == keys_of(right),
{
    let left_keys = left.map_values(|entry: (u64, V)| (entry.0, ()));
    let right_keys = right.map_values(|entry: (u64, W)| (entry.0, ()));
    lemma_map_of_entries(left);
    lemma_map_of_entries(right);
    lemma_map_of_entries(left_keys);
    lemma_map_of_entries(right_keys);
    assert(map_of(left_keys).dom() =~= map_of(left).dom()) by {
        assert forall|key: u64| map_of(left).dom().contains(key) implies map_of(left_keys).dom().contains(key) by {
            let i = choose|i: int| 0 <= i < left.len() && left[i].0 == key;
            assert(left_keys[i].0 == key);
        }
        assert forall|key: u64| map_of(left_keys).dom().contains(key) implies map_of(left).dom().contains(key) by {
            let i = choose|i: int| 0 <= i < left_keys.len() && left_keys[i].0 == key;
            assert(left[i].0 == key);
        }
    }
    assert(map_of(right_keys).dom() =~= map_of(right).dom()) by {
        assert forall|key: u64| map_of(right).dom().contains(key) implies map_of(right_keys).dom().contains(key) by {
            let i = choose|i: int| 0 <= i < right.len() && right[i].0 == key;
            assert(right_keys[i].0 == key);
        }
        assert forall|key: u64| map_of(right_keys).dom().contains(key) implies map_of(right).dom().contains(key) by {
            let i = choose|i: int| 0 <= i < right_keys.len() && right_keys[i].0 == key;
            assert(right[i].0 == key);
        }
    }
    assert(map_of(left_keys) =~= map_of(right_keys));
    lemma_ascending_unique(left_keys, right_keys);
    assert(keys_of(left) =~= keys_of(right)) by {
        assert(left_keys.len() == right_keys.len());
        assert forall|i: int| 0 <= i < left.len() implies keys_of(left)[i] == keys_of(right)[i] by {
            assert(left_keys[i] == right_keys[i]);
        }
    }
}

/// Whether two well-formed maps have the same keys.
pub fn same_keys<V, W>(left: &SymbolMap<V>, right: &SymbolMap<W>) -> (same: bool)
    requires
        left.well_formed(),
        right.well_formed(),
    ensures
        same == (left@.dom() == right@.dom()),
{
    proof {
        left.lemma_view();
        right.lemma_view();
        if left@.dom() == right@.dom() {
            lemma_same_keys(left.entries(), right.entries());
            assert(keys_of(left.entries()).len() == keys_of(right.entries()).len());
        }
    }
    if left.len() != right.len() {
        return false;
    }
    let mut index: usize = 0;
    while index < left.len()
        invariant
            index <= left.entries().len(),
            left.entries().len() == right.entries().len(),
            forall|i: int| 0 <= i < index ==> left.entries()[i].0 == right.entries()[i].0,
            left@.dom() == right@.dom() ==> keys_of(left.entries()) == keys_of(right.entries()),
        decreases left.entries().len() - index,
    {
        if left.entry(index).0 != right.entry(index).0 {
            proof {
                if left@.dom() == right@.dom() {
                    assert(keys_of(left.entries())[index as int] == keys_of(right.entries())[index as int]);
                }
            }
            return false;
        }
        index = index + 1;
    }
    proof {
        assert forall|key: u64| left@.dom().contains(key) <==> right@.dom().contains(key) by {
            if left@.dom().contains(key) {
                let i = choose|i: int| 0 <= i < left.entries().len() && left.entries()[i].0 == key;
                assert(right.entries()[i].0 == key);
            }
            if right@.dom().contains(key) {
                let i = choose|i: int| 0 <= i < right.entries().len() && right.entries()[i].0 == key;
                assert(left.entries()[i].0 == key);
            }
        }
        assert(left@.dom() =~= right@.dom());
    }
    true
}

} // verus!
