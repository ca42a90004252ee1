//! Per-map hash keys and the keyed hasher they build.
#![allow(deprecated)]
use vstd::prelude::*;
use core::hash::SipHasher;
use crate::seed::{
    RAND_MAX, SeedGenerator, draw_value, lcg_iter, lemma_draws_eight_apart_differ, lemma_iter_add,
    lemma_iter_nonzero, start_state,
};

verus! {

#[verifier::external_type_specification]
#[verifier::external_body]
pub struct ExSipHasher(SipHasher);

/// The SipHash-2-4 value of `data` under the key pair `keys`.
pub uninterp spec fn sip_hash(keys: (u64, u64), data: Seq<u8>) -> u64;

/// Relies on `SipHasher::new_with_keys`: a fresh SipHash-2-4 hasher under the
/// given keys.
#[verifier::external_body]
fn sip_with_keys(k0: u64, k1: u64) -> SipHasher {
    SipHasher::new_with_keys(k0, k1)
}

/// A SipHash-2-4 hasher keyed by two 64-bit keys, with the bytes written to it
/// so far.
pub struct DefaultHasher {
    inner: SipHasher,
    keys: Ghost<(u64, u64)>,
    written: Ghost<Seq<u8>>,
}

impl DefaultHasher {
    pub closed spec fn keys(&self) -> (u64, u64) {
        self.keys@
    }

    pub closed spec fn written(&self) -> Seq<u8> {
        self.written@
    }

    /// A hasher under the key pair `(k0, k1)` that has seen no bytes.
    pub fn with_keys(k0: u64, k1: u64) -> (r: Self)
        ensures
            r.keys() == (k0, k1),
            r.written() == Seq::<u8>::empty(),
    {
        DefaultHasher { inner: sip_with_keys(k0, k1), keys: Ghost((k0, k1)), written: Ghost(Seq::empty()) }
    }

    /// A hasher under the key pair `(0, 0)`.
    pub fn new() -> (r: Self)
        ensures
            r.keys() == (0u64, 0u64),
            r.written() == Seq::<u8>::empty(),
    {
        DefaultHasher::with_keys(0, 0)
    }

    /// Relies on `SipHasher::write`: the bytes are appended to what was
    /// written before.
    #[verifier::external_body]
    pub fn write_bytes(&mut self, bytes: &[u8])
        ensures
            final(self).keys() == old(self).keys(),
            final(self).written() == old(self).written() + bytes@,
    {
        core::hash::Hasher::write(&mut self.inner, bytes)
    }

    /// Relies on `SipHasher::finish`: the SipHash-2-4 value of all bytes written,
    /// under this hasher's keys.
    #[verifier::external_body]
    pub fn finish_value(&self) -> (r: u64)
        ensures
            r == sip_hash(self.keys(), self.written()),
    {
        core::hash::Hasher::finish(&self.inner)
    }
}

impl Default for DefaultHasher {
    fn default() -> (r: Self)
        ensures
            r.keys() == (0u64, 0u64),
            r.written() == Seq::<u8>::empty(),
    {
        DefaultHasher::new()
    }
}

impl core::hash::Hasher for DefaultHasher {
    fn finish(&self) -> (r: u64)
        ensures
            r == sip_hash(self.keys(), self.written()),
    {
        self.finish_value()
    }

    fn write(&mut self, bytes: &[u8])
        ensures
            final(self).keys() == old(self).keys(),
            final(self).written() == old(self).written() + bytes@,
    {
        self.write_bytes(bytes)
    }
}

/// The two keys that one map hashes with.
#[derive(Clone, Copy, Debug, PartialEq, Eq, Structural)]
pub struct RandomState {
    k0: u64,
    k1: u64,
}

impl RandomState {
    pub closed spec fn keys(&self) -> (u64, u64) {
        (self.k0, self.k1)
    }

    /// Draws both keys from `rng`, `k0` first. `now_secs` seeds `rng` if it
    /// is not seeded yet.
    pub fn new(rng: &mut SeedGenerator, now_secs: u64) -> (r: Self)
        ensures
            ({
                let s0 = start_state(old(rng).state(), now_secs);
                let s1 = start_state(lcg_iter(s0, 4), now_secs);
                &&& r.keys() == (draw_value(s0), draw_value(s1))
                &&& final(rng).state() == lcg_iter(s1, 4)
            }),
    {
        let k0 = rng.random(now_secs);
        let k1 = rng.random(now_secs);
        RandomState { k0, k1 }
    }

    /// Fixed keys, for maps that must hash the same way on every run.
    pub fn with_keys(k0: u64, k1: u64) -> (r: Self)
        ensures
            r.keys() == (k0, k1),
    {
        RandomState { k0, k1 }
    }

    pub fn k0(&self) -> (r: u64)
        ensures
            r == self.keys().0,
    {
        self.k0
    }

    pub fn k1(&self) -> (r: u64)
        ensures
            r == self.keys().1,
    {
        self.k1
    }

    /// A hasher under this state's keys that has seen no bytes.
    pub fn build_hasher(&self) -> (r: DefaultHasher)
        ensures
            r.keys() == self.keys(),
            r.written() == Seq::<u8>::empty(),
    {
        DefaultHasher::with_keys(self.k0, self.k1)
    }

    /// The hash of `bytes` under this state's keys.
    pub fn hash_bytes(&self, bytes: &[u8]) -> (r: u64)
        ensures
            r == sip_hash(self.keys(), bytes@),
    {
        let mut h = self.build_hasher();
        h.write_bytes(bytes);
        proof {
            assert(h.written() =~= bytes@);
        }
        h.finish_value()
    }
}

impl core::hash::BuildHasher for RandomState {
    type Hasher = DefaultHasher;

    fn build_hasher(&self) -> (r: DefaultHasher)
        ensures
            r.keys() == self.keys(),
            r.written() == Seq::<u8>::empty(),
    {
        DefaultHasher::with_keys(self.k0, self.k1)
    }
}

/// Two key pairs drawn one after the other from one generator differ: the
/// second pair's first key is drawn eight steps after the first pair's. This
/// holds unless the first draw starts from a multiple of the modulus, where
/// the generator stays at zero.
pub proof fn lemma_successive_states_differ(
    g0: SeedGenerator,
    t1: u64,
    r1: RandomState,
    g1: SeedGenerator,
    t2: u64,
    r2: RandomState,
)
    requires
        start_state(g0.state(), t1) as int % RAND_MAX as int != 0,
        ({
            let s0 = start_state(g0.state(), t1);
            let s1 = start_state(lcg_iter(s0, 4), t1);
            &&& r1.keys() == (draw_value(s0), draw_value(s1))
            &&& g1.state() == lcg_iter(s1, 4)
        }),
        r2.keys().0 == draw_value(start_state(g1.state(), t2)),
    ensures
        r1.keys() != r2.keys(),
{
    let s0 = start_state(g0.state(), t1);
    lemma_iter_nonzero(s0, 4);
    lemma_iter_nonzero(s0, 8);
    lemma_iter_add(s0, 4, 4);
    lemma_draws_eight_apart_differ(s0);
}

} // verus!
