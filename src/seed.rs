//! A Park–Miller–Lehmer generator that supplies hash keys.
//!
//! The state is 32 bits. Zero means "not seeded yet": the first draw that sees
//! it seeds the state from the time in whole seconds. Each draw advances the
//! state four times and returns the last two states as one 64-bit value. The
//! output is predictable from the state; it is meant to spread hash keys, not
//! to resist an attacker.
use vstd::prelude::*;

verus! {

/// The modulus of the generator, `2^31 - 1`.
pub const RAND_MAX: u64 = 2147483647;

/// The multiplier of the generator.
pub const MULTIPLIER: u64 = 48271;

/// One step of the generator.
pub open spec fn lcg_next(s: u32) -> u32 {
    ((s as int * MULTIPLIER as int) % RAND_MAX as int) as u32
}

/// The state after `k` steps from `s`.
pub open spec fn lcg_iter(s: u32, k: nat) -> u32
    decreases k,
{
    if k == 0 {
        s
    } else {
        lcg_next(lcg_iter(s, (k - 1) as nat))
    }
}

/// The state that a draw starts from: the time's low 32 bits when the state is
/// still zero, else the state.
pub open spec fn start_state(seed: u32, now_secs: u64) -> u32 {
    if seed == 0 {
        (now_secs % 0x1_0000_0000) as u32
    } else {
        seed
    }
}

/// What a draw from start state `s` returns: the third state in the high
/// half, the fourth in the low half.
pub open spec fn draw_value(s: u32) -> u64 {
    (lcg_iter(s, 3) as int * 0x1_0000_0000 + lcg_iter(s, 4) as int) as u64
}

/// A generator state, owned by whoever draws from it.
pub struct SeedGenerator {
    seed: u32,
}

impl SeedGenerator {
    pub closed spec fn state(&self) -> u32 {
        self.seed
    }

    /// A generator that is not seeded yet.
    pub fn new() -> (r: Self)
        ensures
            r.state() == 0,
    {
        SeedGenerator { seed: 0 }
    }

    /// A generator in state `seed`.
    pub fn with_seed(seed: u32) -> (r: Self)
        ensures
            r.state() == seed,
    {
        SeedGenerator { seed }
    }

    pub fn seed(&self) -> (r: u32)
        ensures
            r == self.state(),
    {
        self.seed
    }

    /// Draws a 64-bit value. `now_secs` is the time in whole seconds; it is
    /// read only when the state is still zero.
    pub fn random(&mut self, now_secs: u64) -> (r: u64)
        ensures
            r == draw_value(start_state(old(self).state(), now_secs)),
            final(self).state() == lcg_iter(start_state(old(self).state(), now_secs), 4),
    {
        if self.seed == 0 {
            self.seed = (now_secs % 0x1_0000_0000) as u32;
        }
        let ghost s0 = self.seed;
        let mut prev: u32 = 0;
        let mut k: usize = 0;
        while k < 4
            invariant
                k <= 4,
                self.seed == lcg_iter(s0, k as nat),
                k > 0 ==> prev == lcg_iter(s0, (k - 1) as nat),
            decreases 4 - k,
        {
            prev = self.seed;
            self.seed = next_state(self.seed);
            k = k + 1;
        }
        (prev as u64) * 0x1_0000_0000 + (self.seed as u64)
    }
}

/// One step of the generator.
pub fn next_state(s: u32) -> (r: u32)
    ensures
        r == lcg_next(s),
        r < RAND_MAX,
{
    ((s as u64 * MULTIPLIER) % RAND_MAX) as u32
}

/// A step maps a state that is not a multiple of the modulus to one that is
/// not zero: the modulus is prime and does not divide the multiplier.
proof fn lemma_step_nonzero(x: u32)
    requires
        x as int % RAND_MAX as int != 0,
    ensures
        lcg_next(x) != 0,
{
    let p = RAND_MAX as int;
    let y = x as int * MULTIPLIER as int;
    if y % p == 0 {
        vstd::arithmetic::div_mod::lemma_mul_mod_noop_left(y, 1899818559, p);
        assert(y * 1899818559 == (x as int * 42704) * p + x as int);
        vstd::arithmetic::div_mod::lemma_mod_multiples_vanish(x as int * 42704, x as int, p);
        assert(false);
    }
}

/// Each step lands below the modulus, so a nonzero state stays nonzero.
pub(crate) proof fn lemma_iter_nonzero(s: u32, k: nat)
    requires
        s as int % RAND_MAX as int != 0,
    ensures
        lcg_iter(s, k) != 0,
    decreases k,
{
    if k == 0 {
    } else {
        lemma_iter_nonzero(s, (k - 1) as nat);
        let t = lcg_iter(s, (k - 1) as nat);
        if k >= 2 {
            assert(t < RAND_MAX);
        }
        assert(t as int % RAND_MAX as int != 0) by {
            if k >= 2 {
                vstd::arithmetic::div_mod::lemma_small_mod(t as nat, RAND_MAX as nat);
            }
        }
        lemma_step_nonzero(t);
    }
}

/// From a generator that is not seeded yet, the first draw seeds it and leaves
/// it nonzero, and the second draw continues from that state whatever the time:
/// the state leaves zero exactly once. This holds unless the first time's low
/// 32 bits are a multiple of the modulus, which would seed a zero cycle.
pub proof fn lemma_seeds_once(g0: SeedGenerator, t1: u64, g1: SeedGenerator, t2: u64, g2: SeedGenerator)
    requires
        g0.state() == 0,
        (t1 % 0x1_0000_0000) as int % RAND_MAX as int != 0,
        g1.state() == lcg_iter(start_state(g0.state(), t1), 4),
        g2.state() == lcg_iter(start_state(g1.state(), t2), 4),
    ensures
        g1.state() != 0,
        g2.state() == lcg_iter(g1.state(), 4),
        g2.state() != 0,
{
    let s = start_state(g0.state(), t1);
    lemma_iter_nonzero(s, 4);
    let s1 = g1.state();
    lemma_iter_nonzero(s, 3);
    assert(s1 < RAND_MAX);
    vstd::arithmetic::div_mod::lemma_small_mod(s1 as nat, RAND_MAX as nat);
    lemma_iter_nonzero(s1, 4);
}

/// A step multiplies by the multiplier modulo `RAND_MAX`: from a state that
/// is `s * c` reduced, the next is `s * c2` reduced, where `c2` is `c` times
/// the multiplier reduced.
proof fn lemma_step_mul(s: u32, k: nat, c: int, c2: int, q: int)
    requires
        c >= 0,
        c2 >= 0,
        c * 48271 == q * 2147483647 + c2,
        lcg_iter(s, k) as int == (s as int * c) % 2147483647,
    ensures
        lcg_iter(s, k + 1) as int == (s as int * c2) % 2147483647,
{
    let p: int = 2147483647;
    let t = (s as int * c) % p;
    vstd::arithmetic::div_mod::lemma_mod_pos_bound(s as int * c, p);
    vstd::arithmetic::div_mod::lemma_mul_mod_noop_left(s as int * c, 48271, p);
    assert(s as int * c * 48271 == (s as int * q) * p + s as int * c2) by (nonlinear_arith)
        requires
            c * 48271 == q * p + c2,
    ;
    vstd::arithmetic::mul::lemma_mul_is_commutative(s as int * q, p);
    vstd::arithmetic::div_mod::lemma_mod_multiples_vanish(s as int * q, s as int * c2, p);
    vstd::arithmetic::mul::lemma_mul_nonnegative(s as int, c2);
    vstd::arithmetic::div_mod::lemma_mod_pos_bound(s as int * c2, p);
    assert(lcg_iter(s, k + 1) == lcg_next(lcg_iter(s, k)));
}

/// Eight steps multiply a state below the modulus by `48271^8`, reduced.
proof fn lemma_iter8(s: u32)
    requires
        s < RAND_MAX,
    ensures
        lcg_iter(s, 8) as int == (s as int * 854716505) % 2147483647,
{
    vstd::arithmetic::div_mod::lemma_small_mod(s as nat, 2147483647);
    assert(lcg_iter(s, 0) as int == (s as int * 1) % 2147483647);
    lemma_step_mul(s, 0, 1, 48271, 0);
    lemma_step_mul(s, 1, 48271, 182605794, 1);
    lemma_step_mul(s, 2, 182605794, 1291394886, 4104);
    lemma_step_mul(s, 3, 1291394886, 1914720637, 29027);
    lemma_step_mul(s, 4, 1914720637, 2078669041, 43038);
    lemma_step_mul(s, 5, 2078669041, 407355683, 46724);
    lemma_step_mul(s, 6, 407355683, 1105902161, 9156);
    lemma_step_mul(s, 7, 1105902161, 854716505, 24858);
}

/// No nonzero state below the modulus comes back after eight steps.
proof fn lemma_no_cycle8(y: u32)
    requires
        0 < y < RAND_MAX,
    ensures
        lcg_iter(y, 8) != y,
{
    let p: int = 2147483647;
    lemma_iter8(y);
    if lcg_iter(y, 8) == y {
        let yi = y as int;
        vstd::arithmetic::div_mod::lemma_fundamental_div_mod(yi * 854716505, p);
        let k = (yi * 854716505) / p;
        assert(yi * 854716504 == p * k);
        assert(yi == p * (k * 1824467663 - yi * 726153433)) by (nonlinear_arith)
            requires
                yi * 854716504 == p * k,
                p == 2147483647,
        ;
        let m = k * 1824467663 - yi * 726153433;
        assert(false) by (nonlinear_arith)
            requires
                yi == p * m,
                0 < yi < p,
        ;
    }
}

/// Steps compose.
pub(crate) proof fn lemma_iter_add(s: u32, a: nat, b: nat)
    ensures
        lcg_iter(lcg_iter(s, a), b) == lcg_iter(s, a + b),
    decreases b,
{
    if b > 0 {
        lemma_iter_add(s, a, (b - 1) as nat);
    }
}

/// After at least one step the state is below the modulus.
proof fn lemma_iter_below(s: u32, k: nat)
    requires
        k > 0,
    ensures
        lcg_iter(s, k) < RAND_MAX,
{
    let prev = lcg_iter(s, (k - 1) as nat);
    vstd::arithmetic::div_mod::lemma_mod_pos_bound(prev as int * 48271, 2147483647);
}

/// Two draws that return the same value ended in the same state.
proof fn lemma_draw_same_end(x: u32, y: u32)
    requires
        draw_value(x) == draw_value(y),
    ensures
        lcg_iter(x, 4) == lcg_iter(y, 4),
{
    lemma_iter_below(x, 3);
    lemma_iter_below(x, 4);
    lemma_iter_below(y, 3);
    lemma_iter_below(y, 4);
    let a = lcg_iter(x, 3) as int;
    let b = lcg_iter(x, 4) as int;
    let c = lcg_iter(y, 3) as int;
    let d = lcg_iter(y, 4) as int;
    assert(0 <= a * 0x1_0000_0000 + b < 0x1_0000_0000_0000_0000) by (nonlinear_arith)
        requires
            0 <= a < 0x1_0000_0000,
            0 <= b < 0x1_0000_0000,
    ;
    assert(0 <= c * 0x1_0000_0000 + d < 0x1_0000_0000_0000_0000) by (nonlinear_arith)
        requires
            0 <= c < 0x1_0000_0000,
            0 <= d < 0x1_0000_0000,
    ;
    assert(b == d) by (nonlinear_arith)
        requires
            a * 0x1_0000_0000 + b == c * 0x1_0000_0000 + d,
            0 <= b < 0x1_0000_0000,
            0 <= d < 0x1_0000_0000,
    ;
}

/// Draws from one generator: the first draw from a state and the third draw
/// after it never agree, unless the state is a multiple of the modulus.
pub proof fn lemma_draws_eight_apart_differ(s: u32)
    requires
        s as int % RAND_MAX as int != 0,
    ensures
        draw_value(s) != draw_value(lcg_iter(s, 8)),
{
    if draw_value(s) == draw_value(lcg_iter(s, 8)) {
        lemma_draw_same_end(s, lcg_iter(s, 8));
        lemma_iter_add(s, 8, 4);
        lemma_iter_add(s, 4, 8);
        let y = lcg_iter(s, 4);
        lemma_iter_nonzero(s, 4);
        lemma_iter_below(s, 4);
        lemma_no_cycle8(y);
    }
}

} // verus!
