#![allow(deprecated)]
use axalloc_hash::hasher::{DefaultHasher, RandomState};
use axalloc_hash::map::HashMap;
use axalloc_hash::seed::{next_state, SeedGenerator};
use core::hash::{BuildHasher, Hasher};

#[test]
fn step_is_park_miller() {
    assert_eq!(next_state(1), 48271);
    assert_eq!(next_state(48271), 182605794);
    assert_eq!(next_state(0), 0);
}

#[test]
fn first_draw_seeds_from_time() {
    let mut g = SeedGenerator::new();
    assert_eq!(g.random(1), 5546498803506368893);
    assert_eq!(g.seed(), 1914720637);
}

#[test]
fn time_is_truncated_to_32_bits() {
    let mut g = SeedGenerator::new();
    let mut h = SeedGenerator::new();
    assert_eq!(g.random((1u64 << 32) + 1000), h.random(1000));
    assert_eq!(h.seed(), 1312707523);
}

#[test]
fn seed_leaves_zero_exactly_once() {
    let mut g = SeedGenerator::new();
    assert_eq!(g.seed(), 0);
    g.random(1);
    let after_first = g.seed();
    assert_ne!(after_first, 0);
    // the time is no longer read
    assert_eq!(g.random(777), 4749813614925443161);
    assert_eq!(g.seed(), 854716505);
}

#[test]
fn random_state_draws_two_keys() {
    let mut g = SeedGenerator::new();
    let s = RandomState::new(&mut g, 1);
    assert_eq!(s.k0(), 5546498803506368893);
    assert_eq!(s.k1(), 4749813614925443161);
    assert_eq!(g.seed(), 854716505);
}

#[test]
fn two_new_maps_get_different_keys() {
    let mut g = SeedGenerator::new();
    let a: HashMap<u32, u32> = HashMap::new(&mut g, 12345);
    let b: HashMap<u32, u32> = HashMap::new(&mut g, 12345);
    assert_ne!(a.hasher(), b.hasher());
}

#[test]
fn hash_bytes_is_keyed_siphash() {
    let s = RandomState::with_keys(1, 2);
    let mut reference = core::hash::SipHasher::new_with_keys(1, 2);
    reference.write(b"hello");
    assert_eq!(s.hash_bytes(b"hello"), reference.finish());
    assert_ne!(s.hash_bytes(b"hello"), RandomState::with_keys(2, 1).hash_bytes(b"hello"));
}

#[test]
fn default_hasher_uses_zero_keys() {
    let mut h = DefaultHasher::new();
    h.write(b"abc");
    let mut reference = core::hash::SipHasher::new_with_keys(0, 0);
    reference.write(b"abc");
    assert_eq!(h.finish(), reference.finish());
}

#[test]
fn build_hasher_matches_hash_bytes() {
    let s = RandomState::with_keys(7, 9);
    let mut h = s.build_hasher();
    h.write(b"key");
    assert_eq!(h.finish(), s.hash_bytes(b"key"));
    assert_eq!(BuildHasher::build_hasher(&s).finish(), s.hash_bytes(b""));
}

#[test]
fn insert_get_remove_clear() {
    let mut m: HashMap<&str, i32> = HashMap::with_hasher(RandomState::with_keys(3, 4));
    assert_eq!(m.insert("a", 1), None);
    assert_eq!(m.get(&"a"), Some(&1));
    assert_eq!(m.remove(&"a"), Some(1));
    assert_eq!(m.get(&"a"), None);
    assert_eq!(m.remove(&"a"), None);
}

#[test]
fn insert_replaces_and_returns_old_value() {
    let mut m: HashMap<u64, u64> = HashMap::with_hasher(RandomState::with_keys(0, 0));
    assert_eq!(m.insert(5, 50), None);
    assert_eq!(m.insert(5, 51), Some(50));
    assert_eq!(m.len(), 1);
    assert!(m.contains_key(&5));
    assert!(!m.contains_key(&6));
}

#[test]
fn clear_keeps_the_keys() {
    let mut m: HashMap<&str, i32> = HashMap::with_hasher(RandomState::with_keys(11, 22));
    m.insert("a", 1);
    m.insert("b", 2);
    let before = m.hasher().hash_bytes(b"probe");
    m.clear();
    assert_eq!(m.len(), 0);
    assert_eq!(m.get(&"a"), None);
    assert_eq!(m.get(&"b"), None);
    assert_eq!(m.hasher().hash_bytes(b"probe"), before);
    assert_eq!(m.hasher().k0(), 11);
    assert_eq!(m.hasher().k1(), 22);
}

#[test]
fn default_hasher_default_is_new() {
    let mut a = DefaultHasher::default();
    let mut b = DefaultHasher::new();
    a.write(b"xyz");
    b.write(b"xyz");
    assert_eq!(a.finish(), b.finish());
}

#[test]
fn get_mut_writes_through() {
    let mut m: HashMap<u32, u32> = HashMap::with_hasher(RandomState::with_keys(5, 6));
    m.insert(1, 10);
    if let Some(v) = m.get_mut(&1) {
        *v = 11;
    }
    assert_eq!(m.get(&1), Some(&11));
    assert!(m.get_mut(&2).is_none());
}

#[test]
fn iter_yields_every_entry_once() {
    let mut m: HashMap<u32, u32> = HashMap::with_hasher(RandomState::with_keys(8, 9));
    m.insert(1, 10);
    m.insert(2, 20);
    m.insert(3, 30);
    let mut entries: Vec<(u32, u32)> = m.iter().into_iter().map(|(k, v)| (*k, *v)).collect();
    entries.sort();
    assert_eq!(entries, vec![(1, 10), (2, 20), (3, 30)]);
}

#[test]
fn get_by_borrowed_key() {
    let mut m: HashMap<String, i32> = HashMap::with_hasher(RandomState::with_keys(1, 1));
    m.insert(String::from("a"), 1);
    assert_eq!(m.get("a"), Some(&1));
    assert_eq!(m.get("b"), None);
}
