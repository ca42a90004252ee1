//! A hash map keyed per instance, over hashbrown's table.
//!
//! The map's contents are tracked as a `Map` alongside the table. Its
//! behaviour as a map is stated for keys whose `Eq` and `Hash` agree with
//! equality of values (`obeys_key_model`), under the library's `RandomState`.
use vstd::prelude::*;
use vstd::std_specs::hash::{
    contains_borrowed_key, maps_borrowed_key_to_value, obeys_key_model,
};
use core::borrow::Borrow;
use core::hash::Hash;
use crate::hasher::RandomState;
use crate::seed::{SeedGenerator, draw_value, lcg_iter, start_state};

verus! {

/// The table, which Verus does not look into.
#[verifier::external_body]
#[verifier::reject_recursive_types(K)]
#[verifier::reject_recursive_types(V)]
#[verifier::reject_recursive_types(S)]
struct Table<K, V, S> {
    inner: hashbrown::HashMap<K, V, S>,
}

/// A map from `K` to `V` whose hashing is keyed by the hash builder `S`.
#[verifier::reject_recursive_types(K)]
#[verifier::reject_recursive_types(V)]
#[verifier::reject_recursive_types(S)]
pub struct HashMap<K, V, S = RandomState> {
    table: Table<K, V, S>,
    contents: Ghost<Map<K, V>>,
    builder: Ghost<S>,
}

impl<K, V, S> View for HashMap<K, V, S> {
    type V = Map<K, V>;

    closed spec fn view(&self) -> Map<K, V> {
        self.contents@
    }
}

impl<K, V, S> HashMap<K, V, S> {
    /// The hash builder the map was made with.
    pub closed spec fn hasher_spec(&self) -> S {
        self.builder@
    }

    /// Relies on `hashbrown::HashMap::with_hasher`: an empty map that hashes
    /// with `hash_builder`.
    #[verifier::external_body]
    pub fn with_hasher(hash_builder: S) -> (r: Self)
        ensures
            r.view() == (Map::<K, V>::empty()),
            r.hasher_spec() == hash_builder,
    {
        HashMap {
            table: Table { inner: hashbrown::HashMap::with_hasher(hash_builder) },
            contents: Ghost(Map::empty()),
            builder: Ghost(hash_builder),
        }
    }

    /// Relies on `hashbrown::HashMap::hasher`: the hash builder the map was
    /// made with.
    #[verifier::external_body]
    pub fn hasher(&self) -> (r: &S)
        ensures
            *r == self.hasher_spec(),
    {
        self.table.inner.hasher()
    }

    /// Relies on `hashbrown::HashMap::len`: the number of entries.
    #[verifier::external_body]
    pub fn len(&self) -> (r: usize)
        ensures
            r == self.view().len(),
    {
        self.table.inner.len()
    }

    /// Relies on `hashbrown::HashMap::iter`: every entry once, in an order
    /// that is left open.
    #[verifier::external_body]
    pub fn iter(&self) -> (r: Vec<(&K, &V)>)
        ensures
            r@.len() == self.view().len(),
            forall|i: int| 0 <= i < r@.len() ==> self.view().contains_key(*(#[trigger] r@[i]).0) && self.view()[*r@[i].0] == *r@[i].1,
            forall|i: int, j: int| 0 <= i < j < r@.len() ==> *(#[trigger] r@[i]).0 != *(#[trigger] r@[j]).0,
            forall|k: K| #[trigger] self.view().contains_key(k) ==> exists|i: int| 0 <= i < r@.len() && *(#[trigger] r@[i]).0 == k,
    {
        self.table.inner.iter().collect()
    }

    /// Relies on `hashbrown::HashMap::clear`: every entry goes, the hash
    /// builder stays.
    #[verifier::external_body]
    pub fn clear(&mut self)
        ensures
            final(self).view() == (Map::<K, V>::empty()),
            final(self).hasher_spec() == old(self).hasher_spec(),
    {
        self.table.inner.clear()
    }
}

/// With the library's own `RandomState` every hasher a map builds starts from
/// the map's two keys with nothing written, and its value depends on the keys
/// and the bytes written alone; so lookups need only keys whose `Eq` and
/// `Hash` agree with equality of values.
impl<K: Eq + Hash, V> HashMap<K, V, RandomState> {
    /// Relies on `hashbrown::HashMap::insert`: `k` maps to `v` afterwards, and
    /// the value it mapped to before, if any, is returned.
    #[verifier::external_body]
    pub fn insert(&mut self, k: K, v: V) -> (r: Option<V>)
        requires
            obeys_key_model::<K>(),
        ensures
            final(self).view() == old(self)@.insert(k, v),
            final(self).hasher_spec() == old(self).hasher_spec(),
            r == (if old(self)@.contains_key(k) {
                Some(old(self)@[k])
            } else {
                None
            }),
    {
        self.table.inner.insert(k, v)
    }

    /// Relies on `hashbrown::HashMap::get`: the value that the key which
    /// borrows as `k` maps to.
    #[verifier::external_body]
    pub fn get<Q: ?Sized + Hash + Eq>(&self, k: &Q) -> (r: Option<&V>)
        where
            K: Borrow<Q>,
        requires
            obeys_key_model::<K>(),
        ensures
            r is Some ==> maps_borrowed_key_to_value(self.view(), k, *r.unwrap()),
            r is None ==> !contains_borrowed_key(self.view(), k),
    {
        self.table.inner.get(k)
    }

    /// Relies on `hashbrown::HashMap::get_mut`: a reference to the value that
    /// `k` maps to; what is written through it becomes that value.
    #[verifier::external_body]
    pub fn get_mut(&mut self, k: &K) -> (r: Option<&mut V>)
        requires
            obeys_key_model::<K>(),
        ensures
            r.is_some() == old(self).view().contains_key(*k),
            r.is_some() ==> *r.unwrap() == old(self).view()[*k] && final(self).view() == old(self).view().insert(*k, *final(r.unwrap())),
            r.is_none() ==> final(self).view() == old(self).view(),
            final(self).hasher_spec() == old(self).hasher_spec(),
    {
        self.table.inner.get_mut(k)
    }

    /// Relies on `hashbrown::HashMap::remove`: `k` maps to nothing afterwards,
    /// and the value it mapped to before, if any, is returned.
    #[verifier::external_body]
    pub fn remove(&mut self, k: &K) -> (r: Option<V>)
        requires
            obeys_key_model::<K>(),
        ensures
            final(self).view() == old(self)@.remove(*k),
            final(self).hasher_spec() == old(self).hasher_spec(),
            r == (if old(self)@.contains_key(*k) {
                Some(old(self)@[*k])
            } else {
                None
            }),
    {
        self.table.inner.remove(k)
    }

    /// Whether `k` maps to a value.
    pub fn contains_key(&self, k: &K) -> (r: bool)
        requires
            obeys_key_model::<K>(),
        ensures
            r == self@.contains_key(*k),
    {
        proof {
            broadcast use vstd::std_specs::hash::axiom_contains_deref_key;
            broadcast use vstd::std_specs::hash::axiom_maps_deref_key_to_value;
        }
        self.get(k).is_some()
    }
}

impl<K, V> HashMap<K, V, RandomState> {
    /// An empty map whose two keys are drawn from `rng`. `now_secs` seeds
    /// `rng` if it is not seeded yet.
    pub fn new(rng: &mut SeedGenerator, now_secs: u64) -> (r: Self)
        ensures
            r.view() == (Map::<K, V>::empty()),
            ({
                let s0 = start_state(old(rng).state(), now_secs);
                let s1 = start_state(lcg_iter(s0, 4), now_secs);
                &&& r.hasher_spec().keys() == (draw_value(s0), draw_value(s1))
                &&& final(rng).state() == lcg_iter(s1, 4)
            }),
    {
        HashMap::with_hasher(RandomState::new(rng, now_secs))
    }
}

} // verus!
