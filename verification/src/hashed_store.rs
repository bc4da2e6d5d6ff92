//! Values by 64-bit keys.

use vstd::prelude::*;

verus! {

/// Hash map of the `ahash` crate. What it holds is opaque.
#[verifier::external_type_specification]
#[verifier::external_body]
#[verifier::reject_recursive_types(K)]
#[verifier::reject_recursive_types(V)]
#[verifier::reject_recursive_types(S)]
pub struct ExAHashMap<K, V, S>(ahash::AHashMap<K, V, S>);

/// Hasher of the `ahash` crate. What it holds is opaque.
#[verifier::external_type_specification]
#[verifier::external_body]
pub struct ExRandomState(ahash::RandomState);

/// What a hash map holds.
pub uninterp spec fn places_in(map: ahash::AHashMap<u64, usize>) -> Map<u64, usize>;

/// Nothing.
pub open spec fn no_places() -> Map<u64, usize> {
    Map::empty()
}

/// Calls `ahash::AHashMap::new`: a fresh map is empty.
#[verifier::external_body]
fn new_places() -> (map: ahash::AHashMap<u64, usize>)
    ensures
        places_in(map) == no_places(),
{
    ahash::AHashMap::new()
}

/// Calls `get` of an `ahash::AHashMap`: the value of the key, where it has one.
#[verifier::external_body]
fn find_place(map: &ahash::AHashMap<u64, usize>, key: u64) -> (place: Option<usize>)
    ensures
        place == if places_in(*map).dom().contains(key) {
            Some(places_in(*map)[key])
        } else {
            None
        },
{
    map.get(&key).copied()
}

/// Calls `insert` of an `ahash::AHashMap`: the key has the value, and no other key is touched.
#[verifier::external_body]
fn set_place(map: &mut ahash::AHashMap<u64, usize>, key: u64, place: usize)
    ensures
        places_in(*final(map)) == places_in(*old(map)).insert(key, place),
{
    map.insert(key, place);
}

/// Calls `remove` of an `ahash::AHashMap`: the key has no value, and no other key is touched.
#[verifier::external_body]
fn drop_place(map: &mut ahash::AHashMap<u64, usize>, key: u64)
    ensures
        places_in(*final(map)) == places_in(*old(map)).remove(key),
{
    map.remove(&key);
}

/// Calls `clone` of an `ahash::AHashMap`: the copy holds the same.
#[verifier::external_body]
fn copy_places(map: &ahash::AHashMap<u64, usize>) -> (copy: ahash::AHashMap<u64, usize>)
    ensures
        places_in(copy) == places_in(*map),
{
    map.clone()
}

/// Calls `capacity` of an `ahash::AHashMap`: what the map holds fits into it. How much more does is
/// left open: that is up to the allocator.
#[verifier::external_body]
fn room_for_places(map: &ahash::AHashMap<u64, usize>) -> (n: usize)
    ensures
        places_in(*map).dom().len() <= n,
{
    map.capacity()
}

/// Values that can be kept: they know when they are in order, and a second one can be made of each.
pub trait Twin: View + Sized {
    /// Whether the value is in order.
    spec fn valid(&self) -> bool;

    /// A second value.
    fn twin(&self) -> (twin: Self)
        requires
            self.valid(),
        ensures
            twin@ == self@,
            twin.valid(),
    ;
}

impl Twin for (u32, u32) {
    open spec fn valid(&self) -> bool {
        true
    }

    fn twin(&self) -> (twin: Self) {
        *self
    }
}

/// Values by key. The values stand in a list; a hash map tells where.
pub struct HashedStore<V: Twin> {
    places: ahash::AHashMap<u64, usize>,
    entries: Vec<(u64, V)>,
}

impl<V: Twin> View for HashedStore<V> {
    type V = Map<u64, V::V>;

    closed spec fn view(&self) -> Map<u64, V::V> {
        Map::new(
            |k: u64| places_in(self.places).dom().contains(k),
            |k: u64| self.entries@[places_in(self.places)[k] as int].1@,
        )
    }
}

impl<V: Twin> HashedStore<V> {
    /// The hash map leads each key to its entry, each entry is led to, and all values are in order.
    pub closed spec fn wf(&self) -> bool {
        &&& forall|k: u64| #[trigger]
            places_in(self.places).dom().contains(k) ==> places_in(self.places)[k]
                < self.entries@.len() && self.entries@[places_in(self.places)[k] as int].0 == k
        &&& forall|p: int|
            0 <= p < self.entries@.len() ==> places_in(self.places).dom().contains(
                (#[trigger] self.entries@[p]).0,
            ) && places_in(self.places)[self.entries@[p].0] == p
        &&& forall|p: int| 0 <= p < self.entries@.len() ==> (#[trigger] self.entries@[p]).1.valid()
    }

    /// No values.
    pub fn new() -> (store: Self)
        ensures
            store.wf(),
            store@ == Map::<u64, V::V>::empty(),
    {
        let store = HashedStore { places: new_places(), entries: Vec::new() };
        proof {
            assert(store@ =~= Map::<u64, V::V>::empty());
        }
        store
    }

    /// Keys have finitely many values.
    proof fn lemma_size(&self)
        requires
            self.wf(),
        ensures
            self@.dom().finite(),
            self@.dom().len() == self.entries@.len(),
    {
        let keys = self.entries@.map_values(|e: (u64, V)| e.0);
        assert(keys.no_duplicates()) by {
            assert forall|a: int, b: int|
                0 <= a < keys.len() && 0 <= b < keys.len() && a != b implies keys[a] != keys[b] by {
                assert(self.entries@[a].0 == keys[a]);
                assert(self.entries@[b].0 == keys[b]);
            }
        }
        vstd::seq_lib::seq_to_set_is_finite(keys);
        keys.unique_seq_to_set();
        assert(keys.to_set() =~= self@.dom()) by {
            assert forall|k: u64| self@.dom().contains(k) implies keys.to_set().contains(k) by {
                let p = places_in(self.places)[k] as int;
                assert(places_in(self.places).dom().contains(k));
                assert(keys[p] == k);
            }
            assert forall|k: u64| keys.to_set().contains(k) implies self@.dom().contains(k) by {
                let p = choose|p: int| 0 <= p < keys.len() && keys[p] == k;
                assert(self.entries@[p].0 == k);
            }
        }
    }

    /// How many keys have a value.
    pub fn len(&self) -> (n: usize)
        requires
            self.wf(),
        ensures
            n == self@.dom().len(),
            self@.dom().finite(),
    {
        proof {
            self.lemma_size();
        }
        self.entries.len()
    }

    /// How many keys fit in before the hash map grows: those that are there at least. How many more
    /// is up to the allocator.
    pub fn capacity(&self) -> (n: usize)
        ensures
            self@.dom().len() <= n,
    {
        proof {
            assert(self@.dom() =~= places_in(self.places).dom());
        }
        room_for_places(&self.places)
    }

    /// Value of a key.
    pub fn get(&self, key: u64) -> (value: Option<&V>)
        requires
            self.wf(),
        ensures
            match value {
                Some(v) => self@.dom().contains(key) && v@ == self@[key] && v.valid(),
                None => !self@.dom().contains(key),
            },
    {
        match find_place(&self.places, key) {
            Some(p) => Some(&self.entries[p].1),
            None => None,
        }
    }

    /// Gives a key a value.
    pub fn insert(&mut self, key: u64, value: V)
        requires
            old(self).wf(),
            value.valid(),
        ensures
            final(self).wf(),
            final(self)@ == old(self)@.insert(key, value@),
    {
        let ghost before = *self;
        match find_place(&self.places, key) {
            Some(p) => {
                self.entries.set(p, (key, value));
                proof {
                    assert forall|k: u64| #[trigger]
                        places_in(self.places).dom().contains(k) implies places_in(self.places)[k]
                        < self.entries@.len() && self.entries@[places_in(self.places)[k] as int].0
                        == k by {
                        assert(places_in(before.places).dom().contains(k));
                    }
                    assert forall|q: int| 0 <= q < self.entries@.len() implies places_in(
                        self.places,
                    ).dom().contains((#[trigger] self.entries@[q]).0) && places_in(
                        self.places,
                    )[self.entries@[q].0] == q by {
                        assert(before.entries@[q].0 == self.entries@[q].0);
                    }
                    assert forall|k: u64| self@.dom().contains(k) && k != key implies self@[k]
                        == before@[k] by {
                        assert(places_in(before.places).dom().contains(k));
                        let q = places_in(before.places)[k] as int;
                        assert(before.entries@[q].0 == k);
                        assert(q != p);
                    }
                    assert(self@ =~= before@.insert(key, value@));
                }
            },
            None => {
                let p: usize = self.entries.len();
                self.entries.push((key, value));
                set_place(&mut self.places, key, p);
                proof {
                    assert forall|k: u64| #[trigger]
                        places_in(self.places).dom().contains(k) implies places_in(self.places)[k]
                        < self.entries@.len() && self.entries@[places_in(self.places)[k] as int].0
                        == k by {
                        if k != key {
                            assert(places_in(before.places).dom().contains(k));
                        }
                    }
                    assert forall|q: int| 0 <= q < self.entries@.len() implies places_in(
                        self.places,
                    ).dom().contains((#[trigger] self.entries@[q]).0) && places_in(
                        self.places,
                    )[self.entries@[q].0] == q by {
                        if q < p {
                            assert(before.entries@[q].0 == self.entries@[q].0);
                        }
                    }
                    assert forall|k: u64| self@.dom().contains(k) && k != key implies self@[k]
                        == before@[k] by {
                        assert(places_in(before.places).dom().contains(k));
                    }
                    assert(self@ =~= before@.insert(key, value@));
                }
            },
        }
    }

    /// Takes a key's value away.
    pub fn remove(&mut self, key: u64) -> (value: Option<V>)
        requires
            old(self).wf(),
        ensures
            final(self).wf(),
            final(self)@ == old(self)@.remove(key),
            match value {
                Some(v) => old(self)@.dom().contains(key) && v@ == old(self)@[key] && v.valid(),
                None => !old(self)@.dom().contains(key),
            },
    {
        let ghost before = *self;
        match find_place(&self.places, key) {
            None => {
                proof {
                    assert(self@ =~= before@.remove(key));
                }
                None
            },
            Some(p) => {
                let last: usize = self.entries.len() - 1;
                let moved: u64 = self.entries[last].0;
                let (k0, value) = self.entries.swap_remove(p);
                drop_place(&mut self.places, key);
                if p != last {
                    set_place(&mut self.places, moved, p);
                }
                proof {
                    assert(before.entries@[p as int].0 == key);
                    assert(before.entries@[last as int].0 == moved);
                    if p != last {
                        assert(moved != key);
                    }
                    assert forall|k: u64| #[trigger]
                        places_in(self.places).dom().contains(k) implies places_in(self.places)[k]
                        < self.entries@.len() && self.entries@[places_in(self.places)[k] as int].0
                        == k by {
                        assert(places_in(before.places).dom().contains(k));
                        let q = places_in(before.places)[k] as int;
                        assert(before.entries@[q].0 == k);
                        if k != moved {
                            assert(q != last);
                            assert(q != p);
                        }
                    }
                    assert forall|q: int| 0 <= q < self.entries@.len() implies places_in(
                        self.places,
                    ).dom().contains((#[trigger] self.entries@[q]).0) && places_in(
                        self.places,
                    )[self.entries@[q].0] == q by {
                        if q != p {
                            assert(before.entries@[q] == self.entries@[q]);
                            assert(before.entries@[q].0 != key);
                            assert(before.entries@[q].0 != moved);
                        }
                    }
                    assert forall|k: u64| self@.dom().contains(k) implies self@[k] == before@[k] by {
                        assert(places_in(before.places).dom().contains(k));
                        let q = places_in(before.places)[k] as int;
                        assert(before.entries@[q].0 == k);
                        if k != moved {
                            assert(q != last && q != p);
                        }
                    }
                    assert(self@ =~= before@.remove(key));
                }
                Some(value)
            },
        }
    }
}

impl<V: Twin> HashedStore<V> {
    /// Value of a key, to be changed.
    pub fn get_mut(&mut self, key: u64) -> (value: Option<&mut V>)
        requires
            old(self).wf(),
        ensures
            match value {
                Some(v) => old(self)@.dom().contains(key) && (*v)@ == old(self)@[key] && (
                *v).valid() && final(self)@ == old(self)@.insert(key, (*final(v))@) && ((*final(v)).valid() ==> final(self).wf()),
                None => !old(self)@.dom().contains(key) && final(self)@ == old(self)@
                    && final(self).wf(),
            },
    {
        match find_place(&self.places, key) {
            None => None,
            Some(p) => {
                let e = &mut self.entries[p];
                Some(&mut e.1)
            },
        }
    }
}

impl<V: Twin> HashedStore<V> {
    /// A second store with the same values.
    pub fn duplicate(&self) -> (copy: Self)
        requires
            self.wf(),
        ensures
            copy.wf(),
            copy@ == self@,
    {
        let places = copy_places(&self.places);
        let mut entries: Vec<(u64, V)> = Vec::new();
        let n: usize = self.entries.len();
        let mut i: usize = 0;
        while i < n
            invariant
                i <= n == self.entries@.len(),
                entries@.len() == i,
                forall|p: int|
                    0 <= p < i ==> (#[trigger] entries@[p]).0 == self.entries@[p].0
                        && entries@[p].1@ == self.entries@[p].1@ && entries@[p].1.valid(),
                self.wf(),
            decreases n - i,
        {
            let key: u64 = self.entries[i].0;
            let value = self.entries[i].1.twin();
            entries.push((key, value));
            i += 1;
        }
        let copy = HashedStore { places, entries };
        proof {
            assert forall|p: int| 0 <= p < copy.entries@.len() implies places_in(
                copy.places,
            ).dom().contains((#[trigger] copy.entries@[p]).0) && places_in(
                copy.places,
            )[copy.entries@[p].0] == p by {
                assert(self.entries@[p].0 == copy.entries@[p].0);
            }
            assert forall|k: u64| #[trigger]
                places_in(copy.places).dom().contains(k) implies places_in(copy.places)[k]
                < copy.entries@.len() && copy.entries@[places_in(copy.places)[k] as int].0
                == k && copy@[k] == self@[k] by {
                assert(places_in(self.places).dom().contains(k));
            }
            assert(copy@ =~= self@);
        }
        copy
    }
}

} // verus!
