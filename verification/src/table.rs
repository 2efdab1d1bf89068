//! The perfect table, the backup store, and the dispatcher.

use vstd::prelude::*;

verus! {

/// Byte-string equality, the verifying check behind every key comparison.
pub fn bytes_eq(a: &Vec<u8>, b: &Vec<u8>) -> (r: bool)
    ensures
        r == (a@ == b@),
{
    if a.len() != b.len() {
        return false;
    }
    let mut i: usize = 0;
    while i < a.len()
        invariant
            i <= a@.len(),
            a@.len() == b@.len(),
            forall|k: int| 0 <= k < i ==> a@[k] == b@[k],
        decreases a@.len() - i,
    {
        if a[i] != b[i] {
            return false;
        }
        i = i + 1;
    }
    proof {
        assert(a@ =~= b@);
    }
    true
}

/// The map described by an association list, later entries shadowing earlier
/// ones (the store keeps its keys distinct, so nothing is ever shadowed).
pub open spec fn map_of<V>(entries: Seq<(Vec<u8>, V)>) -> Map<Seq<u8>, V>
    decreases entries.len(),
{
    if entries.len() == 0 {
        Map::empty()
    } else {
        map_of(entries.drop_last()).insert(entries.last().0@, entries.last().1)
    }
}

/// Some entry of the list holds key `k`.
pub open spec fn has_key<V>(entries: Seq<(Vec<u8>, V)>, k: Seq<u8>) -> bool {
    exists|i: int| 0 <= i < entries.len() && entries[i].0@ == k
}

/// No two entries of the list hold the same key.
pub open spec fn distinct_keys<V>(entries: Seq<(Vec<u8>, V)>) -> bool {
    forall|i: int, j: int| 0 <= i < j < entries.len() ==> entries[i].0@ != entries[j].0@
}

/// What `map_of` holds: its domain is exactly the listed keys, and under
/// distinct keys each listed entry keeps its own value and the domain's
/// cardinality is the list's length.
pub proof fn lemma_map_of_props<V>(entries: Seq<(Vec<u8>, V)>)
    requires
        distinct_keys(entries),
    ensures
        map_of(entries).dom().finite(),
        map_of(entries).dom().len() == entries.len(),
        forall|k: Seq<u8>| map_of(entries).contains_key(k) <==> #[trigger] has_key(entries, k),
        forall|i: int|
            0 <= i < entries.len() ==> map_of(entries)[#[trigger] entries[i].0@] == entries[i].1,
    decreases entries.len(),
{
    if entries.len() > 0 {
        let prefix = entries.drop_last();
        assert(distinct_keys(prefix));
        lemma_map_of_props(prefix);
        let lastk = entries.last().0@;
        assert(!has_key(prefix, lastk));
        assert(!map_of(prefix).contains_key(lastk));
        assert forall|k: Seq<u8>| map_of(entries).contains_key(k) implies #[trigger] has_key(
            entries,
            k,
        ) by {
            if k == lastk {
                assert(entries[entries.len() - 1].0@ == k);
            } else {
                assert(map_of(prefix).contains_key(k));
                assert(has_key(prefix, k));
                let i = choose|i: int| 0 <= i < prefix.len() && prefix[i].0@ == k;
                assert(prefix[i] == entries[i]);
                assert(entries[i].0@ == k);
            }
        }
        assert forall|k: Seq<u8>| #[trigger] has_key(entries, k) implies map_of(
            entries,
        ).contains_key(k) by {
            let i = choose|i: int| 0 <= i < entries.len() && entries[i].0@ == k;
            if i < entries.len() - 1 {
                assert(prefix[i].0@ == k);
                assert(has_key(prefix, k));
            }
        }
        assert forall|i: int| 0 <= i < entries.len() implies map_of(
            entries,
        )[#[trigger] entries[i].0@] == entries[i].1 by {
            if i < entries.len() - 1 {
                assert(prefix[i] == entries[i]);
                assert(map_of(prefix)[prefix[i].0@] == prefix[i].1);
                assert(entries[i].0@ != lastk);
            }
        }
    }
}

/// Removing one entry from a distinct-keys list removes exactly its key from
/// the described map.
pub proof fn lemma_map_of_remove<V>(entries: Seq<(Vec<u8>, V)>, i: int)
    requires
        distinct_keys(entries),
        0 <= i < entries.len(),
    ensures
        map_of(entries.remove(i)) == map_of(entries).remove(entries[i].0@),
    decreases entries.len(),
{
    lemma_map_of_props(entries);
    let k = entries[i].0@;
    if i == entries.len() - 1 {
        let prefix = entries.drop_last();
        assert(entries.remove(i) =~= prefix);
        assert(distinct_keys(prefix));
        lemma_map_of_props(prefix);
        assert(!has_key(prefix, k));
        assert(map_of(prefix).remove(k) =~= map_of(prefix));
        assert(map_of(entries).remove(k) =~= map_of(prefix));
    } else {
        let prefix = entries.drop_last();
        assert(distinct_keys(prefix));
        assert(entries.remove(i).drop_last() =~= prefix.remove(i));
        assert(entries.remove(i).last() == entries.last());
        lemma_map_of_remove(prefix, i);
        assert(map_of(entries.remove(i)) == map_of(prefix.remove(i)).insert(
            entries.last().0@,
            entries.last().1,
        ));
        assert(map_of(entries).remove(k) =~= map_of(prefix).remove(k).insert(
            entries.last().0@,
            entries.last().1,
        ));
    }
}

/// The backup store: an ordinary dynamic key-to-value table for keys outside
/// the known set, created lazily on first need.
pub struct BackupMap<V> {
    /// The stored pairs; keys are kept distinct.
    pub entries: Vec<(Vec<u8>, V)>,
}

impl<V> BackupMap<V> {
    /// Keys are distinct, so each lookup has one answer.
    pub open spec fn wf(self) -> bool {
        distinct_keys(self.entries@)
    }

    /// The key-to-value map this store holds.
    pub open spec fn view(self) -> Map<Seq<u8>, V> {
        map_of(self.entries@)
    }

    /// An empty store.
    pub fn new() -> (b: BackupMap<V>)
        ensures
            b.wf(),
            b@ == Map::<Seq<u8>, V>::empty(),
    {
        BackupMap { entries: Vec::new() }
    }

    /// The position of `key` in the store, if present.
    fn find_index(&self, key: &Vec<u8>) -> (r: Option<usize>)
        ensures
            match r {
                Some(i) => i < self.entries@.len() && self.entries@[i as int].0@ == key@,
                None => !has_key(self.entries@, key@),
            },
    {
        let mut i: usize = 0;
        while i < self.entries.len()
            invariant
                i <= self.entries@.len(),
                forall|k: int| 0 <= k < i ==> self.entries@[k].0@ != key@,
            decreases self.entries@.len() - i,
        {
            if bytes_eq(&self.entries[i].0, key) {
                return Some(i);
            }
            i = i + 1;
        }
        None
    }

    /// Number of stored pairs.
    pub fn len(&self) -> (r: usize)
        requires
            self.wf(),
        ensures
            r == self@.dom().len(),
    {
        proof {
            lemma_map_of_props(self.entries@);
        }
        self.entries.len()
    }

    /// The value stored under `key`, if any.
    pub fn get(&self, key: &Vec<u8>) -> (r: Option<&V>)
        requires
            self.wf(),
        ensures
            match r {
                Some(v) => self@.contains_key(key@) && *v == self@[key@],
                None => !self@.contains_key(key@),
            },
    {
        proof {
            lemma_map_of_props(self.entries@);
        }
        match self.find_index(key) {
            Some(i) => {
                proof {
                    assert(has_key(self.entries@, key@));
                    assert(self@[self.entries@[i as int].0@] == self.entries@[i as int].1);
                }
                Some(&self.entries[i].1)
            },
            None => None,
        }
    }

    /// Store `value` under `key`, handing back any value previously there.
    pub fn insert(&mut self, key: Vec<u8>, value: V) -> (r: Option<V>)
        requires
            old(self).wf(),
        ensures
            final(self).wf(),
            final(self)@ == old(self)@.insert(key@, value),
            match r {
                Some(v) => old(self)@.contains_key(key@) && v == old(self)@[key@],
                None => !old(self)@.contains_key(key@),
            },
    {
        proof {
            lemma_map_of_props(self.entries@);
        }
        match self.find_index(&key) {
            Some(i) => {
                let ghost before = self.entries@;
                let previous = self.entries.remove(i);
                proof {
                    lemma_map_of_remove(before, i as int);
                    assert(distinct_keys(self.entries@));
                    assert(!has_key(self.entries@, key@)) by {
                        if has_key(self.entries@, key@) {
                            let j = choose|j: int|
                                0 <= j < self.entries@.len() && self.entries@[j].0@ == key@;
                            if j < i {
                                assert(before[j].0@ == key@);
                            } else {
                                assert(before[j + 1].0@ == key@);
                            }
                        }
                    }
                    lemma_map_of_props(self.entries@);
                }
                let ghost removed = self.entries@;
                self.entries.push((key, value));
                proof {
                    assert(self.entries@.drop_last() =~= removed);
                    assert(self@ =~= old(self)@.insert(key@, value));
                    assert forall|a: int, b: int|
                        0 <= a < b < self.entries@.len() implies self.entries@[a].0@
                        != self.entries@[b].0@ by {
                        if b < self.entries@.len() - 1 {
                            assert(removed[a].0@ != removed[b].0@);
                        } else {
                            assert(removed[a] == self.entries@[a]);
                        }
                    }
                }
                Some(previous.1)
            },
            None => {
                let ghost before = self.entries@;
                self.entries.push((key, value));
                proof {
                    assert(self.entries@.drop_last() =~= before);
                    assert(self@ =~= old(self)@.insert(key@, value));
                    assert forall|a: int, b: int|
                        0 <= a < b < self.entries@.len() implies self.entries@[a].0@
                        != self.entries@[b].0@ by {
                        if b < self.entries@.len() - 1 {
                            assert(before[a].0@ != before[b].0@);
                        } else {
                            assert(before[a] == self.entries@[a]);
                        }
                    }
                }
                None
            },
        }
    }

    /// Delete `key`, handing back its value if it was present.
    pub fn remove(&mut self, key: &Vec<u8>) -> (r: Option<V>)
        requires
            old(self).wf(),
        ensures
            final(self).wf(),
            final(self)@ == old(self)@.remove(key@),
            match r {
                Some(v) => old(self)@.contains_key(key@) && v == old(self)@[key@],
                None => !old(self)@.contains_key(key@),
            },
    {
        proof {
            lemma_map_of_props(self.entries@);
        }
        match self.find_index(key) {
            Some(i) => {
                let ghost before = self.entries@;
                proof {
                    assert(has_key(before, key@));
                    assert(old(self)@[before[i as int].0@] == before[i as int].1);
                }
                let previous = self.entries.remove(i);
                proof {
                    lemma_map_of_remove(before, i as int);
                    assert(distinct_keys(self.entries@));
                }
                Some(previous.1)
            },
            None => {
                proof {
                    assert(self@ =~= old(self)@.remove(key@));
                }
                None
            },
        }
    }
}

/// A hashtable with no wasted space and no collisions over its known key set.
/// Each known key owns one slot of `table`, found through the two stored
/// displacement tables and the per-bucket displacement values in `nodes`;
/// every other key lives in the lazily created `backup` store.
pub struct HashMap<V> {
    /// Per-bucket displacement values `g`, one per hash bucket.
    pub nodes: Vec<usize>,
    /// First displacement seed table.
    pub t1: Vec<usize>,
    /// Second displacement seed table.
    pub t2: Vec<usize>,
    /// The perfect slot table: one slot per known key.  A slot holds its
    /// key and, once one was inserted, a value; a cleared slot stays empty
    /// for good.
    pub table: Vec<Option<(Vec<u8>, Option<V>)>>,
    /// The backup store for keys outside the known set.
    pub backup: Option<BackupMap<V>>,
}

impl<V> HashMap<V> {
    /// Number of known keys, and of perfect slots.
    pub open spec fn spec_m(self) -> int {
        self.table@.len() as int
    }

    /// Number of hash buckets.
    pub open spec fn spec_n(self) -> int {
        self.nodes@.len() as int
    }

    /// The slot a key addresses: the displacements of its two buckets,
    /// summed and reduced modulo the slot count.
    pub open spec fn spec_slot(self, k: Seq<u8>) -> int {
        (self.nodes@[crate::hashing::spec_hash(self.t1@, k, self.spec_n())]
            + self.nodes@[crate::hashing::spec_hash(self.t2@, k, self.spec_n())]) % self.spec_m()
    }

    /// Slot `s` holds a key.
    pub open spec fn slot_full(self, s: int) -> bool {
        self.table@[s] is Some
    }

    /// The key held by slot `s`.
    pub open spec fn slot_key(self, s: int) -> Seq<u8> {
        self.table@[s]->Some_0.0@
    }

    /// The value held by slot `s`, if one was inserted.
    pub open spec fn slot_value(self, s: int) -> Option<V> {
        self.table@[s]->Some_0.1
    }

    /// Key `k` is a known key still present in the perfect table: its own
    /// slot holds it.
    pub open spec fn key_resident(self, k: Seq<u8>) -> bool {
        &&& self.spec_m() > 0
        &&& self.slot_full(self.spec_slot(k))
        &&& self.slot_key(self.spec_slot(k)) == k
    }

    /// The key-to-value map held by the perfect table.
    pub open spec fn perfect_view(self) -> Map<Seq<u8>, V> {
        Map::new(
            |k: Seq<u8>| self.key_resident(k) && self.slot_value(self.spec_slot(k)) is Some,
            |k: Seq<u8>| self.slot_value(self.spec_slot(k))->Some_0,
        )
    }

    /// The key-to-value map held by the backup store.
    pub open spec fn backup_view(self) -> Map<Seq<u8>, V> {
        match self.backup {
            Some(b) => b@,
            None => Map::empty(),
        }
    }

    /// The whole table as one key-to-value map.  The two parts never share
    /// a key.
    pub open spec fn view(self) -> Map<Seq<u8>, V> {
        self.backup_view().union_prefer_right(self.perfect_view())
    }

    /// Structural invariant: the bucket count matches the slot count, all
    /// displacements address a slot, every held key sits in its own slot,
    /// and no held key is duplicated into the backup store.
    pub open spec fn wf(self) -> bool {
        &&& self.t1@.len() == self.t2@.len()
        &&& self.spec_n() == spec_bucket_count(self.spec_m())
        &&& (self.spec_m() > 0 ==> self.spec_n() >= 1)
        &&& forall|v: int| 0 <= v < self.spec_n() ==> self.nodes@[v] < self.spec_m()
        &&& forall|s: int|
            0 <= s < self.spec_m() && #[trigger] self.slot_full(s) ==> self.spec_slot(
                self.slot_key(s),
            ) == s
        &&& match self.backup {
            Some(b) => b.wf() && forall|s: int|
                0 <= s < self.spec_m() && #[trigger] self.slot_full(s) ==> !b@.contains_key(
                    self.slot_key(s),
                ),
            None => true,
        }
    }

    /// The slot `key` addresses, computed with the stored tables.
    fn slot_of(&self, key: &Vec<u8>) -> (slot: usize)
        requires
            self.wf(),
            self.spec_m() > 0,
        ensures
            slot == self.spec_slot(key@),
            slot < self.spec_m(),
    {
        let n = self.nodes.len();
        let m = self.table.len();
        let (f1, f2) = crate::hashing::hash_pair(key, &self.t1, &self.t2, n, m);
        (self.nodes[f1] + self.nodes[f2]) % m
    }

    /// The value stored under `key`: the perfect table is probed first, with
    /// a verifying key comparison, and only a miss consults the backup.
    pub fn get(&self, key: &Vec<u8>) -> (r: Option<&V>)
        requires
            self.wf(),
        ensures
            match r {
                Some(v) => self@.contains_key(key@) && *v == self@[key@],
                None => !self@.contains_key(key@),
            },
    {
        if self.table.len() > 0 {
            let slot = self.slot_of(key);
            match &self.table[slot] {
                Some(pair) => {
                    if bytes_eq(&pair.0, key) {
                        // The key is a known key: its slot answers, and the
                        // backup never holds it.
                        match &pair.1 {
                            Some(v) => {
                                return Some(v);
                            },
                            None => {
                                proof {
                                    let s = self.spec_slot(key@);
                                    assert(self.slot_full(s));
                                    if self.backup is Some {
                                        assert(!self.backup->Some_0@.contains_key(
                                            self.slot_key(s),
                                        ));
                                    }
                                }
                                return None;
                            },
                        }
                    }
                },
                None => {},
            }
        }
        match &self.backup {
            Some(b) => b.get(key),
            None => None,
        }
    }

    /// Whether some value is stored under `key`, in either part.
    pub fn contains_key(&self, key: &Vec<u8>) -> (r: bool)
        requires
            self.wf(),
        ensures
            r == self@.contains_key(key@),
    {
        self.get(key).is_some()
    }

    /// Store `value` under `key`.  A known key is updated in place in its
    /// perfect slot; any other key goes to the backup store, which is
    /// created on first need — leaving the perfect part untouched and
    /// acting on the backup exactly as a plain dynamic map would.  Hands
    /// back the value previously stored under the key, if any.
    pub fn insert(&mut self, key: Vec<u8>, value: V) -> (r: Option<V>)
        requires
            old(self).wf(),
        ensures
            final(self).wf(),
            final(self)@ == old(self)@.insert(key@, value),
            match r {
                Some(v) => old(self)@.contains_key(key@) && v == old(self)@[key@],
                None => !old(self)@.contains_key(key@),
            },
            !old(self).key_resident(key@) ==> final(self).table@ == old(self).table@
                && final(self).backup_view() == old(self).backup_view().insert(key@, value),
    {
        if self.table.len() > 0 {
            let slot = self.slot_of(&key);
            let hit = match &self.table[slot] {
                Some(pair) => bytes_eq(&pair.0, &key),
                None => false,
            };
            if hit {
                let ghost old_table = self.table@;
                let entry = self.table.remove(slot);
                match entry {
                    Some(pair) => {
                        let (held_key, previous) = pair;
                        self.table.insert(slot, Some((held_key, Some(value))));
                        proof {
                            assert(self.table@ =~= old_table.update(
                                slot as int,
                                Some((pair.0, Some(value))),
                            ));
                            assert(self.slot_full(slot as int));
                            assert(forall|s: int|
                                0 <= s < self.spec_m() && s != slot ==> self.table@[s]
                                    == old(self).table@[s]);
                            assert(self.perfect_view() =~= old(self).perfect_view().insert(
                                key@,
                                value,
                            ));
                            if old(self).backup is Some {
                                assert(old(self).slot_full(slot as int));
                                assert(!old(self).backup->Some_0@.contains_key(key@));
                            }
                            assert(self@ =~= old(self)@.insert(key@, value));
                            assert forall|s: int|
                                0 <= s < self.spec_m() && #[trigger] self.slot_full(s)
                                implies self.spec_slot(self.slot_key(s)) == s by {
                                assert(old(self).slot_full(s));
                                assert(self.slot_key(s) == old(self).slot_key(s));
                                assert(old(self).spec_slot(old(self).slot_key(s)) == s);
                            }
                            if self.backup is Some {
                                assert forall|s: int|
                                    0 <= s < self.spec_m() && #[trigger] self.slot_full(s)
                                    implies !self.backup->Some_0@.contains_key(
                                    self.slot_key(s),
                                ) by {
                                    assert(old(self).slot_full(s));
                                    assert(self.slot_key(s) == old(self).slot_key(s));
                                    assert(!old(self).backup->Some_0@.contains_key(
                                        old(self).slot_key(s),
                                    ));
                                }
                            }
                        }
                        return previous;
                    },
                    None => {
                        return vstd::pervasive::unreached();
                    },
                }
            }
            proof {
                // The key is not resident: either its slot is empty or it
                // holds a different key, so only the backup can know it.
                assert(!old(self).key_resident(key@));
            }
        }
        let taken = self.backup.take();
        match taken {
            Some(mut b) => {
                let r = b.insert(key, value);
                self.backup = Some(b);
                proof {
                    self.lemma_backup_path_wf(*old(self), key@);
                    assert(self@ =~= old(self)@.insert(key@, value));
                }
                r
            },
            None => {
                let mut b = BackupMap::new();
                let r = b.insert(key, value);
                self.backup = Some(b);
                proof {
                    self.lemma_backup_path_wf(*old(self), key@);
                    assert(self@ =~= old(self)@.insert(key@, value));
                }
                r
            },
        }
    }

    /// After an operation on the backup store alone, no key held by a
    /// perfect slot can have appeared in the backup: a slot's key addresses
    /// its own slot, so it would have been handled there.
    proof fn lemma_backup_path_wf(self, prior: HashMap<V>, touched: Seq<u8>)
        requires
            prior.wf(),
            self.table@ == prior.table@,
            self.nodes@ == prior.nodes@,
            self.t1@ == prior.t1@,
            self.t2@ == prior.t2@,
            !prior.key_resident(touched),
            self.backup is Some,
            self.backup->Some_0@.dom().subset_of(
                prior.backup_view().dom().insert(touched),
            ),
        ensures
            forall|s: int|
                0 <= s < self.spec_m() && #[trigger] self.slot_full(s)
                    ==> !self.backup->Some_0@.contains_key(self.slot_key(s)),
            forall|s: int|
                0 <= s < self.spec_m() && #[trigger] self.slot_full(s) ==> self.spec_slot(
                    self.slot_key(s),
                ) == s,
    {
        assert forall|s: int| 0 <= s < self.spec_m() && #[trigger] self.slot_full(s)
            implies self.spec_slot(self.slot_key(s)) == s by {
            assert(prior.slot_full(s));
            assert(self.slot_key(s) == prior.slot_key(s));
            assert(prior.spec_slot(prior.slot_key(s)) == s);
            assert(self.spec_slot(self.slot_key(s)) == prior.spec_slot(prior.slot_key(s)));
        }
        assert forall|s: int| 0 <= s < self.spec_m() && #[trigger] self.slot_full(s)
            implies !self.backup->Some_0@.contains_key(self.slot_key(s)) by {
            assert(prior.slot_full(s));
            assert(self.slot_key(s) == prior.slot_key(s));
            assert(prior.spec_slot(prior.slot_key(s)) == s);
            if self.slot_key(s) == touched {
                assert(prior.key_resident(touched));
                assert(false);
            }
            if self.backup->Some_0@.contains_key(self.slot_key(s)) {
                assert(prior.backup_view().dom().contains(self.slot_key(s)));
                if prior.backup is Some {
                    assert(!prior.backup->Some_0@.contains_key(prior.slot_key(s)));
                }
                assert(false);
            }
        }
    }

    /// Delete `key`.  A known key's slot is cleared in place and stays
    /// unused from then on; any other key is deleted from the backup store
    /// — leaving the perfect part untouched and acting on the backup
    /// exactly as a plain dynamic map would.  Hands back the value
    /// previously stored under the key, if any.
    pub fn remove(&mut self, key: &Vec<u8>) -> (r: Option<V>)
        requires
            old(self).wf(),
        ensures
            final(self).wf(),
            final(self)@ == old(self)@.remove(key@),
            match r {
                Some(v) => old(self)@.contains_key(key@) && v == old(self)@[key@],
                None => !old(self)@.contains_key(key@),
            },
            !old(self).key_resident(key@) ==> final(self).table@ == old(self).table@
                && final(self).backup_view() == old(self).backup_view().remove(key@),
    {
        if self.table.len() > 0 {
            let slot = self.slot_of(key);
            let hit = match &self.table[slot] {
                Some(pair) => bytes_eq(&pair.0, key),
                None => false,
            };
            if hit {
                let ghost old_table = self.table@;
                let entry = self.table.remove(slot);
                match entry {
                    Some(pair) => {
                        self.table.insert(slot, None);
                        proof {
                            assert(self.table@ =~= old_table.update(slot as int, None));
                            assert(forall|s: int|
                                0 <= s < self.spec_m() && s != slot ==> self.table@[s]
                                    == old(self).table@[s]);
                            assert(self.perfect_view() =~= old(self).perfect_view().remove(key@));
                            if old(self).backup is Some {
                                assert(old(self).slot_full(slot as int));
                                assert(!old(self).backup->Some_0@.contains_key(key@));
                            }
                            assert(self@ =~= old(self)@.remove(key@));
                            assert forall|s: int|
                                0 <= s < self.spec_m() && #[trigger] self.slot_full(s)
                                implies self.spec_slot(self.slot_key(s)) == s by {
                                assert(old(self).slot_full(s));
                                assert(self.slot_key(s) == old(self).slot_key(s));
                                assert(old(self).spec_slot(old(self).slot_key(s)) == s);
                            }
                            if self.backup is Some {
                                assert forall|s: int|
                                    0 <= s < self.spec_m() && #[trigger] self.slot_full(s)
                                    implies !self.backup->Some_0@.contains_key(
                                    self.slot_key(s),
                                ) by {
                                    assert(old(self).slot_full(s));
                                    assert(self.slot_key(s) == old(self).slot_key(s));
                                    assert(!old(self).backup->Some_0@.contains_key(
                                        old(self).slot_key(s),
                                    ));
                                }
                            }
                        }
                        return pair.1;
                    },
                    None => {
                        return vstd::pervasive::unreached();
                    },
                }
            }
            proof {
                assert(!old(self).key_resident(key@));
            }
        }
        let taken = self.backup.take();
        match taken {
            Some(mut b) => {
                let r = b.remove(key);
                self.backup = Some(b);
                proof {
                    self.lemma_backup_path_wf(*old(self), key@);
                    assert(self@ =~= old(self)@.remove(key@));
                }
                r
            },
            None => {
                proof {
                    assert(self@ =~= old(self)@);
                    assert(self@ =~= old(self)@.remove(key@));
                }
                None
            },
        }
    }

    /// Number of values stored: occupied perfect slots plus the backup's
    /// size.  A cleared known key no longer counts, even though its slot
    /// index is never reused.
    pub open spec fn spec_len(self) -> int {
        count_values(self.table@) + self.backup_view().dom().len()
    }

    /// The keys the perfect table holds a value for, restricted to slots
    /// below `s`.
    pub open spec fn valued_keys_below(self, s: int) -> Set<Seq<u8>> {
        Set::new(
            |k: Seq<u8>| self.perfect_view().dom().contains(k) && self.spec_slot(k) < s,
        )
    }

    /// Counting the occupied slots of a slot prefix counts exactly the keys
    /// whose slot lies in that prefix: slots hold distinct keys, one each.
    proof fn lemma_valued_keys_below(self, s: int)
        requires
            self.wf(),
            0 <= s <= self.spec_m(),
        ensures
            self.valued_keys_below(s).finite(),
            self.valued_keys_below(s).len() == count_values(self.table@.take(s)),
        decreases s,
    {
        if s == 0 {
            assert(self.valued_keys_below(0) =~= Set::empty());
            assert(self.table@.take(0) =~= Seq::<Option<(Vec<u8>, Option<V>)>>::empty());
        } else {
            self.lemma_valued_keys_below(s - 1);
            assert(self.table@.take(s).drop_last() =~= self.table@.take(s - 1));
            assert(self.table@.take(s).last() == self.table@[s - 1]);
            if self.slot_full(s - 1) && self.slot_value(s - 1) is Some {
                let k = self.slot_key(s - 1);
                assert(self.spec_slot(k) == s - 1);
                assert(self.key_resident(k));
                assert(self.perfect_view().dom().contains(k));
                assert(self.valued_keys_below(s) =~= self.valued_keys_below(s - 1).insert(k))
                    by {
                    assert forall|k2: Seq<u8>|
                        self.valued_keys_below(s).contains(k2)
                            == self.valued_keys_below(s - 1).insert(k).contains(k2) by {
                        if self.perfect_view().dom().contains(k2) && self.spec_slot(k2) == s
                            - 1 {
                            assert(self.slot_key(self.spec_slot(k2)) == k2);
                            assert(k2 == k);
                        }
                    }
                }
                assert(!self.valued_keys_below(s - 1).contains(k));
            } else {
                assert(self.valued_keys_below(s) =~= self.valued_keys_below(s - 1)) by {
                    assert forall|k2: Seq<u8>|
                        self.valued_keys_below(s).contains(k2)
                            == self.valued_keys_below(s - 1).contains(k2) by {
                        if self.perfect_view().dom().contains(k2) && self.spec_slot(k2) == s
                            - 1 {
                            assert(self.slot_full(s - 1));
                            assert(self.slot_value(s - 1) is Some);
                        }
                    }
                }
            }
        }
    }

    /// The length law: what `len` counts — occupied perfect slots plus the
    /// backup's size — is the cardinality of the one combined map's domain.
    pub proof fn lemma_len_is_dom_len(self)
        requires
            self.wf(),
        ensures
            self@.dom().finite(),
            self.spec_len() == self@.dom().len(),
    {
        self.lemma_valued_keys_below(self.spec_m());
        assert(self.table@.take(self.spec_m()) =~= self.table@);
        assert(self.valued_keys_below(self.spec_m()) =~= self.perfect_view().dom()) by {
            assert forall|k: Seq<u8>| self.perfect_view().dom().contains(k)
                implies self.spec_slot(k) < self.spec_m() by {
                assert(self.key_resident(k));
                vstd::arithmetic::div_mod::lemma_mod_bound(
                    self.nodes@[crate::hashing::spec_hash(self.t1@, k, self.spec_n())] + self.nodes@[
                        crate::hashing::spec_hash(self.t2@, k, self.spec_n())],
                    self.spec_m(),
                );
            }
        }
        if self.backup is Some {
            lemma_map_of_props(self.backup->Some_0.entries@);
        }
        assert(self.backup_view().dom().disjoint(self.perfect_view().dom())) by {
            assert forall|k: Seq<u8>|
                self.perfect_view().dom().contains(k) implies !self.backup_view().dom().contains(
                k,
            ) by {
                assert(self.key_resident(k));
                assert(self.slot_full(self.spec_slot(k)));
            }
        }
        lemma_len_disjoint_union(self.backup_view().dom(), self.perfect_view().dom());
        assert(self@.dom() =~= self.backup_view().dom().union(self.perfect_view().dom()));
    }

    /// Number of values stored: occupied perfect slots plus the backup's
    /// size — which is the cardinality of the one combined map's domain.
    pub fn len(&self) -> (r: usize)
        requires
            self.wf(),
            self.spec_len() <= usize::MAX,
        ensures
            r == self.spec_len(),
            r == self@.dom().len(),
    {
        proof {
            self.lemma_len_is_dom_len();
        }
        let mut count: usize = 0;
        let mut s: usize = 0;
        while s < self.table.len()
            invariant
                s <= self.spec_m(),
                count == count_values(self.table@.take(s as int)),
                count <= s,
            decreases self.spec_m() - s,
        {
            proof {
                assert(self.table@.take(s as int + 1).drop_last() =~= self.table@.take(s as int));
                assert(self.table@.take(s as int + 1).last() == self.table@[s as int]);
            }
            match &self.table[s] {
                Some(pair) => {
                    if pair.1.is_some() {
                        count = count + 1;
                    }
                },
                None => {},
            }
            s = s + 1;
        }
        proof {
            assert(self.table@.take(self.spec_m()) =~= self.table@);
        }
        let backup_len = match &self.backup {
            Some(b) => b.len(),
            None => 0,
        };
        count + backup_len
    }
}

/// The round-trip property, over the model every operation's contract is
/// stated in: after `insert(key, value)` the table holds `value` under
/// `key`, a later insert under the same key overrides it, and after
/// `remove(key)` the table holds nothing under `key` — for known and
/// unknown keys alike, since `insert`, `remove` and `get` speak of the one
/// combined map.
pub proof fn lemma_round_trip<V>(m: Map<Seq<u8>, V>, k: Seq<u8>, v1: V, v2: V)
    ensures
        m.insert(k, v1).contains_key(k),
        m.insert(k, v1)[k] == v1,
        m.insert(k, v1).insert(k, v2)[k] == v2,
        !m.remove(k).contains_key(k),
{
}

/// Unknown-key independence: for a key that is not resident in the perfect
/// table — in particular any key outside the known set, which is never
/// placed there — the table answers exactly as its backup store alone
/// would, whatever the perfect table's size or layout.
pub proof fn lemma_unknown_key_independence<V>(h: HashMap<V>, k: Seq<u8>)
    requires
        h.wf(),
        !h.key_resident(k),
    ensures
        h@.contains_key(k) == h.backup_view().contains_key(k),
        h@.contains_key(k) ==> h@[k] == h.backup_view()[k],
{
    assert(!h.perfect_view().contains_key(k));
}

/// The number of hash buckets for `m` known keys: a constant factor above
/// two, as the acyclicity argument needs.
pub open spec fn spec_bucket_count(m: int) -> int {
    2 * m + m / 12
}

/// The size of a union of two disjoint finite sets is the sum of their
/// sizes.
proof fn lemma_len_disjoint_union<A>(s1: Set<A>, s2: Set<A>)
    requires
        s1.finite(),
        s2.finite(),
        s1.disjoint(s2),
    ensures
        s1.union(s2).finite(),
        s1.union(s2).len() == s1.len() + s2.len(),
    decreases s1.len(),
{
    if s1.is_empty() {
        assert(s1.union(s2) =~= s2);
    } else {
        let a = s1.choose();
        assert(s1.remove(a).disjoint(s2));
        lemma_len_disjoint_union(s1.remove(a), s2);
        let rest = s1.remove(a).union(s2);
        assert(s1.union(s2) =~= rest.insert(a));
        assert(!rest.contains(a));
    }
}

/// How many slots of a perfect table hold a value.
pub open spec fn count_values<V>(t: Seq<Option<(Vec<u8>, Option<V>)>>) -> int
    decreases t.len(),
{
    if t.len() == 0 {
        0
    } else {
        count_values(t.drop_last()) + if t.last() matches Some(pair) && pair.1 is Some {
            1int
        } else {
            0int
        }
    }
}

} // verus!
