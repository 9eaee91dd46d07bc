use vstd::arithmetic::div_mod::*;
use vstd::arithmetic::power::*;
use vstd::prelude::*;

verus! {

/// Multiplier of the generator.
pub const MWC_A: u64 = 0xFFFEB81B;

/// Modulus of the skip-ahead ring: `MWC_A * 2^32 - 1`.
pub const MWC_M: u64 = 0xFFFEB81AFFFFFFFF;

/// Constant mixed into every seed so that small seeds do not give weak states.
pub const SEED_MASK: u64 = 0x8CCC1D021231BBAC;

/// Low half of the state: the `x` word.
pub open spec fn word_x(s: u64) -> nat {
    (s as nat) % 0x1_0000_0000
}

/// High half of the state: the carry `c`.
pub open spec fn word_c(s: u64) -> nat {
    (s as nat) / 0x1_0000_0000
}

/// The state as an element of the ring of integers modulo `MWC_M`: `x * a + c`.
pub open spec fn ring_value(s: u64) -> nat {
    word_x(s) * (MWC_A as nat) + word_c(s)
}

/// The state whose pair is `(y / a, y % a)`.
pub open spec fn state_of_ring(y: nat) -> u64 {
    ((y % (MWC_A as nat)) * 0x1_0000_0000 + y / (MWC_A as nat)) as u64
}

/// The state reached from `s` by jumping `d` draws ahead.
pub open spec fn skip_state(s: u64, d: nat) -> u64 {
    state_of_ring((ring_value(s) * pow(MWC_A as int, d) as nat) % (MWC_M as nat))
}

/// The state after one multiply-with-carry step: `a * x + c`, split as `(low, high)`.
pub open spec fn step_state(s: u64) -> u64 {
    (MWC_A as nat * word_x(s) + word_c(s)) as u64
}

/// A skippable 64-bit multiply-with-carry generator (MWC64X).
pub struct MWC64X {
    pub state: u64,
}

/// `(a + b) % m` for `a, b < m`, without overflow.
fn modular_add64(a: u64, b: u64, m: u64) -> (r: u64)
    requires
        a < m,
        b < m,
    ensures
        r as nat == (a as nat + b as nat) % (m as nat),
{
    if a >= m - b {
        proof {
            lemma_fundamental_div_mod_converse_mod((a + b) as int, m as int, 1, (a + b - m) as int);
        }
        a - (m - b)
    } else {
        proof {
            lemma_small_mod((a + b) as nat, m as nat);
        }
        a + b
    }
}

proof fn lemma_double_and_add_step(res: int, a: int, b: int, m: int)
    requires
        m > 0,
        a >= 0,
    ensures
        ((if a % 2 == 1 { (res + b) % m } else { res }) + (a / 2) * ((b + b) % m)) % m
            == (res + a * b) % m,
{
    let r1 = if a % 2 == 1 { (res + b) % m } else { res };
    let h = a / 2;
    lemma_fundamental_div_mod(a, 2);
    lemma_mul_mod_noop_right(h, b + b, m);
    assert(h * (b + b) == a * b - (a % 2) * b) by (nonlinear_arith)
        requires
            a == 2 * h + a % 2,
    ;
    lemma_add_mod_noop(r1, h * ((b + b) % m), m);
    lemma_add_mod_noop(r1, h * (b + b), m);
    if a % 2 == 1 {
        lemma_add_mod_noop(res + b, h * (b + b), m);
        lemma_mod_twice(res + b, m);
        lemma_add_mod_noop((res + b) % m, h * (b + b), m);
        assert((res + b) % m % m == (res + b) % m);
        assert((res + b) + h * (b + b) == res + a * b);
    } else {
        assert(res + h * (b + b) == res + a * b);
    }
}

/// `(a * b) % m` for `b < m`, by doubling and adding.
fn modular_mul64(a: u64, b: u64, m: u64) -> (r: u64)
    requires
        b < m,
    ensures
        r as nat == (a as nat * b as nat) % (m as nat),
{
    let ghost target = (a as int * b as int) % (m as int);
    let mut a = a;
    let mut b = b;
    let mut res: u64 = 0;
    while a != 0
        invariant
            res < m,
            b < m,
            (res as int + a as int * b as int) % (m as int) == target,
        decreases a,
    {
        let odd = a & 1 != 0;
        assert((a & 1 != 0) == (a % 2 == 1)) by (bit_vector);
        proof {
            lemma_double_and_add_step(res as int, a as int, b as int, m as int);
        }
        if odd {
            res = modular_add64(res, b, m);
        }
        b = modular_add64(b, b, m);
        assert(a >> 1 == a / 2) by (bit_vector);
        a = a >> 1;
    }
    proof {
        lemma_small_mod(res as nat, m as nat);
    }
    res
}

proof fn lemma_square_and_multiply_step(acc: int, sqr: int, e: nat, m: int)
    requires
        m > 0,
    ensures
        ((if e % 2 == 1 { (acc * sqr) % m } else { acc }) * pow((sqr * sqr) % m, e / 2)) % m
            == (acc * pow(sqr, e)) % m,
{
    let s1: int = if e % 2 == 1 { sqr } else { 1 };
    let h: nat = e / 2;
    let a1 = if e % 2 == 1 { (acc * sqr) % m } else { acc };
    let q = pow(sqr * sqr, h);
    // pow(sqr, e) == s1 * pow(sqr * sqr, e / 2)
    lemma_pow_adds(sqr, 2 * h, (e % 2) as nat);
    lemma_pow_multiplies(sqr, 2, h);
    lemma_square_is_pow2(sqr);
    lemma_pow0(sqr);
    lemma_pow1(sqr);
    assert(e == 2 * h + e % 2);
    assert(pow(sqr, e) == pow(sqr, 2 * h) * pow(sqr, (e % 2) as nat));
    assert(pow(sqr, e) == q * s1);
    // reduce the square modulo m
    lemma_pow_mod_noop(sqr * sqr, h, m);
    lemma_mul_mod_noop_right(a1, pow((sqr * sqr) % m, h), m);
    lemma_mul_mod_noop_right(a1, q, m);
    assert((a1 * pow((sqr * sqr) % m, h)) % m == (a1 * q) % m);
    if e % 2 == 1 {
        lemma_mul_mod_noop_left(acc * sqr, q, m);
        assert((acc * sqr) * q == acc * (q * s1)) by (nonlinear_arith)
            requires
                s1 == sqr,
        ;
    } else {
        assert(acc * q == acc * (q * s1)) by (nonlinear_arith)
            requires
                s1 == 1,
        ;
    }
}

/// `a^e % m` for `a < m`, by squaring and multiplying.
fn modular_pow64(a: u64, e: u64, m: u64) -> (r: u64)
    requires
        a < m,
        m > 1,
    ensures
        r as int == pow(a as int, e as nat) % (m as int),
{
    let ghost target = pow(a as int, e as nat) % (m as int);
    let mut e = e;
    let mut sqr = a;
    let mut acc: u64 = 1;
    while e != 0
        invariant
            sqr < m,
            acc < m,
            m > 1,
            (acc as int * pow(sqr as int, e as nat)) % (m as int) == target,
        decreases e,
    {
        assert((e & 1 != 0) == (e % 2 == 1)) by (bit_vector);
        proof {
            lemma_square_and_multiply_step(acc as int, sqr as int, e as nat, m as int);
        }
        if e & 1 != 0 {
            acc = modular_mul64(acc, sqr, m);
        }
        sqr = modular_mul64(sqr, sqr, m);
        assert(e >> 1 == e / 2) by (bit_vector);
        e = e >> 1;
    }
    proof {
        lemma_pow0(sqr as int);
        lemma_small_mod(acc as nat, m as nat);
    }
    acc
}

proof fn lemma_state_halves(s: u64)
    ensures
        s & 0xFFFF_FFFF == word_x(s),
        s >> 32 == word_c(s),
        word_x(s) < 0x1_0000_0000,
        word_c(s) < 0x1_0000_0000,
{
    assert(s & 0xFFFF_FFFF == s % 0x1_0000_0000) by (bit_vector);
    assert(s >> 32 == s / 0x1_0000_0000) by (bit_vector);
}

/// A ring element below the modulus survives the trip through the state unchanged.
proof fn lemma_ring_round_trip(y: nat)
    requires
        y < MWC_M,
    ensures
        ring_value(state_of_ring(y)) == y,
        (y % (MWC_A as nat)) * 0x1_0000_0000 + y / (MWC_A as nat) < 0x1_0000_0000_0000_0000,
{
    let a = MWC_A as nat;
    let q = y / a;
    let r = y % a;
    lemma_fundamental_div_mod(y as int, a as int);
    assert(q < 0x1_0000_0000) by (nonlinear_arith)
        requires
            y == a * q + r,
            0 <= r,
            y < MWC_M,
            a == MWC_A,
    ;
    let s = state_of_ring(y);
    assert(s as nat == r * 0x1_0000_0000 + q);
    lemma_fundamental_div_mod_converse_mod(s as int, 0x1_0000_0000, r as int, q as int);
    lemma_fundamental_div_mod_converse_div(s as int, 0x1_0000_0000, r as int, q as int);
}

impl MWC64X {
    /// Seeds the generator; the seed is mixed with `SEED_MASK`.
    pub fn new(seed: u64) -> (r: MWC64X)
        ensures
            r.state == seed ^ SEED_MASK,
    {
        MWC64X { state: seed ^ SEED_MASK }
    }

    /// The current 64-bit state, as handed to the sampling kernel.
    pub fn state(&self) -> (r: u64)
        ensures
            r == self.state,
    {
        self.state
    }

    /// Jumps `distance` draws ahead in `O(log distance)`.
    pub fn skip(&mut self, distance: u64)
        ensures
            final(self).state == skip_state(old(self).state, distance as nat),
    {
        let m = modular_pow64(MWC_A, distance, MWC_M);
        proof {
            lemma_state_halves(self.state);
        }
        let x = self.state & 0xFFFF_FFFF;
        let c = self.state >> 32;
        assert(x * MWC_A + c < MWC_M + 0x1_0000_0000) by (nonlinear_arith)
            requires
                x < 0x1_0000_0000,
                c < 0x1_0000_0000,
        ;
        let y = x * MWC_A + c;
        let y2 = modular_mul64(y, m, MWC_M);
        proof {
            lemma_ring_round_trip(y2 as nat);
            lemma_pow_positive(MWC_A as int, distance as nat);
            lemma_mul_mod_noop_right(y as int, pow(MWC_A as int, distance as nat), MWC_M as int);
            assert(y as nat == ring_value(self.state));
        }
        self.state = (y2 % MWC_A) * 0x1_0000_0000 + y2 / MWC_A;
    }

    /// One multiply-with-carry step; returns `x ^ c` of the state before the step.
    pub fn next(&mut self) -> (r: u32)
        ensures
            final(self).state == step_state(old(self).state),
            r as nat == (word_x(old(self).state) as u32 ^ word_c(old(self).state) as u32) as nat,
    {
        proof {
            lemma_state_halves(self.state);
        }
        let x = self.state & 0xFFFF_FFFF;
        let c = self.state >> 32;
        let r = (x as u32) ^ (c as u32);
        assert(MWC_A * x + c < 0x1_0000_0000_0000_0000) by (nonlinear_arith)
            requires
                x < 0x1_0000_0000,
                c < 0x1_0000_0000,
        ;
        self.state = MWC_A * x + c;
        r
    }
}

/// Skipping is additive: jumping `d1` then `d2` draws lands where jumping `d1 + d2` does,
/// so the sub-streams handed to successive batches never overlap.
pub proof fn lemma_skip_adds(s: u64, d1: nat, d2: nat)
    ensures
        skip_state(skip_state(s, d1), d2) == skip_state(s, d1 + d2),
{
    let m = MWC_M as int;
    let r = ring_value(s) as int;
    let p1 = pow(MWC_A as int, d1);
    let p2 = pow(MWC_A as int, d2);
    lemma_pow_positive(MWC_A as int, d1);
    lemma_pow_positive(MWC_A as int, d2);
    lemma_pow_adds(MWC_A as int, d1, d2);
    let y1 = (r * p1) % m;
    assert(0 <= r * p1) by (nonlinear_arith)
        requires
            0 <= r,
            0 < p1,
    ;
    lemma_ring_round_trip(y1 as nat);
    lemma_mul_mod_noop_left(r * p1, p2, m);
    assert((r * p1) * p2 == r * (p1 * p2)) by (nonlinear_arith);
}

/// Number of samples drawn by one launch of the sampling kernel.
pub const MEASUREMENTS_BLOCK: usize = 1024;

/// Draws skipped after seeding, before the first batch.
pub const BURN_IN: u64 = 1000;

/// One launch of the sampling kernel: the generator state it starts from, and how many
/// of its samples count.
#[derive(Clone, Copy, Debug, PartialEq, Eq, Structural)]
pub struct Batch {
    pub state: u64,
    pub take: usize,
}

/// The state that batch `b` starts from: after the burn-in, the generator jumps one
/// block ahead before each batch.
pub open spec fn batch_state(seed: u64, b: nat) -> u64 {
    skip_state(seed ^ SEED_MASK, (BURN_IN + MEASUREMENTS_BLOCK * (b + 1)) as nat)
}

/// The number of batches that draw `samples` samples.
pub open spec fn batch_count(samples: nat) -> nat {
    ((samples + MEASUREMENTS_BLOCK - 1) / (MEASUREMENTS_BLOCK as int)) as nat
}

/// How many samples batch `b` of `samples` contributes.
pub open spec fn batch_take(samples: nat, b: nat) -> nat {
    if samples >= MEASUREMENTS_BLOCK * (b + 1) {
        MEASUREMENTS_BLOCK as nat
    } else {
        (samples - MEASUREMENTS_BLOCK * b) as nat
    }
}

/// The batches that draw `samples` samples from the seed `seed`.
pub fn sampling_schedule(seed: u64, samples: usize) -> (r: Vec<Batch>)
    ensures
        r@.len() == batch_count(samples as nat),
        r@.len() * MEASUREMENTS_BLOCK >= samples,
        r@.len() == 0 || (r@.len() - 1) * MEASUREMENTS_BLOCK < samples,
        forall|b: int|
            0 <= b < r@.len() ==> (#[trigger] r@[b]).state == batch_state(seed, b as nat) && r@[b].take
                == batch_take(samples as nat, b as nat),
{
    let mut prng = MWC64X::new(seed);
    prng.skip(BURN_IN);
    let mut r: Vec<Batch> = Vec::new();
    let mut remaining = samples;
    let ghost mut b: nat = 0;
    while remaining != 0
        invariant
            b == r@.len(),
            prng.state == skip_state(seed ^ SEED_MASK, (BURN_IN + MEASUREMENTS_BLOCK * b) as nat),
            remaining > 0 ==> remaining == samples - MEASUREMENTS_BLOCK * b,
            remaining == 0 ==> b * MEASUREMENTS_BLOCK >= samples,
            b == 0 || (b - 1) * MEASUREMENTS_BLOCK < samples,
            remaining <= samples,
            forall|j: int|
                0 <= j < b ==> (#[trigger] r@[j]).state == batch_state(seed, j as nat) && r@[j].take
                    == batch_take(samples as nat, j as nat),
        decreases remaining,
    {
        let measures = if remaining < MEASUREMENTS_BLOCK {
            remaining
        } else {
            MEASUREMENTS_BLOCK
        };
        remaining = remaining - measures;
        let ghost before = prng.state;
        prng.skip(MEASUREMENTS_BLOCK as u64);
        proof {
            lemma_skip_adds(
                seed ^ SEED_MASK,
                (BURN_IN + MEASUREMENTS_BLOCK * b) as nat,
                MEASUREMENTS_BLOCK as nat,
            );
            assert(BURN_IN + MEASUREMENTS_BLOCK * b + MEASUREMENTS_BLOCK == BURN_IN
                + MEASUREMENTS_BLOCK * (b + 1)) by (nonlinear_arith);
        }
        r.push(Batch { state: prng.state(), take: measures });
        proof {
            assert(r@[b as int].take == batch_take(samples as nat, b));
            b = b + 1;
            assert(MEASUREMENTS_BLOCK * b == MEASUREMENTS_BLOCK * (b - 1) + MEASUREMENTS_BLOCK) by (nonlinear_arith);
        }
    }
    proof {
        let n = r@.len() as int;
        let c = batch_count(samples as nat) as int;
        let s1 = samples as int + 1023;
        vstd::arithmetic::div_mod::lemma_fundamental_div_mod(s1, 1024);
        vstd::arithmetic::div_mod::lemma_mod_pos_bound(s1, 1024);
        assert(n == c) by (nonlinear_arith)
            requires
                n * 1024 >= samples,
                n == 0 || (n - 1) * 1024 < samples,
                s1 == 1024 * c + s1 % 1024,
                0 <= s1 % 1024 < 1024,
                s1 == samples + 1023,
                samples >= 0,
                n >= 0,
        ;
    }
    r
}

/// The number of samples that the batches before batch `b` contribute.
pub open spec fn drawn_before(samples: nat, b: nat) -> nat {
    if MEASUREMENTS_BLOCK * b <= samples {
        (MEASUREMENTS_BLOCK * b) as nat
    } else {
        samples
    }
}

pub proof fn lemma_drawn_step(samples: nat, b: nat, len: nat)
    requires
        b < len,
        len == 0 || (len - 1) * MEASUREMENTS_BLOCK < samples,
    ensures
        drawn_before(samples, b) + batch_take(samples, b) == drawn_before(samples, b + 1),
{
    assert(MEASUREMENTS_BLOCK * b < samples) by (nonlinear_arith)
        requires
            b < len,
            (len - 1) * MEASUREMENTS_BLOCK < samples,
    ;
    assert(MEASUREMENTS_BLOCK * (b + 1) == MEASUREMENTS_BLOCK * b + MEASUREMENTS_BLOCK) by (nonlinear_arith);
}

pub proof fn lemma_drawn_all(samples: nat, len: nat)
    requires
        len * MEASUREMENTS_BLOCK >= samples,
    ensures
        drawn_before(samples, len) == samples,
{
    assert(MEASUREMENTS_BLOCK * len == len * MEASUREMENTS_BLOCK) by (nonlinear_arith);
}

} // verus!
