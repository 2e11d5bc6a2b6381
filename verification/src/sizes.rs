//! Deterministic parcel-size sequence.
//!
//! The frontage walk draws each parcel's edge length uniformly from the
//! fixed set {20, 30, 40}, from a generator seeded by the road's endpoint
//! coordinates and the side sign. The generator is a verified SplitMix64
//! sequence, so the whole draw is a mathematical function of the seed: two
//! walks over identical geometry reproduce the same sizes on any machine,
//! which is what makes map snapshots reproducible.

use vstd::prelude::*;

verus! {

/// Increment of the SplitMix64 state.
pub const SEED_INCREMENT: u64 = 0x9E3779B97F4A7C15;

/// First multiplier of the SplitMix64 finalizer.
pub const MIX_MUL_A: u64 = 0xBF58476D1CE4E5B9;

/// Second multiplier of the SplitMix64 finalizer.
pub const MIX_MUL_B: u64 = 0x94D049BB133111EB;

/// 64-bit product, wrapping.
pub open spec fn wmul(a: u64, b: u64) -> u64 {
    ((a * b) % 0x10000000000000000) as u64
}

/// 64-bit sum, wrapping.
pub open spec fn wadd(a: u64, b: u64) -> u64 {
    ((a + b) % 0x10000000000000000) as u64
}

/// The SplitMix64 finalizer.
pub open spec fn mix64(z0: u64) -> u64 {
    let z1 = wmul(z0 ^ (z0 >> 30u64), MIX_MUL_A);
    let z2 = wmul(z1 ^ (z1 >> 27u64), MIX_MUL_B);
    z2 ^ (z2 >> 31u64)
}

/// Generator state after `k` draws from `seed`.
pub open spec fn rng_state(seed: u64, k: nat) -> u64
    decreases k,
{
    if k == 0 {
        seed
    } else {
        wadd(rng_state(seed, (k - 1) as nat), SEED_INCREMENT)
    }
}

/// The `k`-th raw draw from `seed`.
pub open spec fn draw_at(seed: u64, k: nat) -> u64 {
    mix64(wadd(rng_state(seed, k), SEED_INCREMENT))
}

/// The `k`-th parcel size drawn from `seed`: one of 20, 30, 40.
pub open spec fn size_at(seed: u64, k: nat) -> int {
    20 + 10 * ((draw_at(seed, k) % 3) as int)
}

pub proof fn lemma_size_at_choices(seed: u64, k: nat)
    ensures
        size_at(seed, k) == 20 || size_at(seed, k) == 30 || size_at(seed, k) == 40,
{
    assert(0 <= draw_at(seed, k) % 3 < 3);
}

pub fn wmul_ex(a: u64, b: u64) -> (r: u64)
    ensures
        r == wmul(a, b),
{
    proof {
        crate::geometry::lemma_mul_bound(
            a as int,
            b as int,
            0xFFFFFFFFFFFFFFFF,
            0xFFFFFFFFFFFFFFFF,
        );
        crate::geometry::lemma_mul_sign(a as int, b as int);
    }
    (((a as u128) * (b as u128)) % 0x10000000000000000u128) as u64
}

pub fn wadd_ex(a: u64, b: u64) -> (r: u64)
    ensures
        r == wadd(a, b),
{
    (((a as u128) + (b as u128)) % 0x10000000000000000u128) as u64
}

pub fn mix64_ex(z0: u64) -> (r: u64)
    ensures
        r == mix64(z0),
{
    let z1 = wmul_ex(z0 ^ (z0 >> 30), MIX_MUL_A);
    let z2 = wmul_ex(z1 ^ (z1 >> 27), MIX_MUL_B);
    z2 ^ (z2 >> 31)
}

/// The seed a road side draws its sizes from: a pure hash of the sums of
/// the endpoint coordinates and of the signed length, so identical endpoint
/// geometry always reproduces the same sequence.
pub open spec fn frontage_seed(sum_x: int, sum_y: int, side_len: int) -> u64
    recommends
        -0x10000000000 <= sum_x <= 0x10000000000,
        -0x10000000000 <= sum_y <= 0x10000000000,
        -0x10000000000 <= side_len <= 0x10000000000,
{
    let a = (sum_x + 0x10000000000) as u64;
    let b = (sum_y + 0x10000000000) as u64;
    let c = (side_len + 0x10000000000) as u64;
    mix64(mix64(mix64(a) ^ b) ^ c)
}

pub fn frontage_seed_ex(sum_x: i64, sum_y: i64, side_len: i64) -> (r: u64)
    requires
        -0x10000000000 <= sum_x <= 0x10000000000,
        -0x10000000000 <= sum_y <= 0x10000000000,
        -0x10000000000 <= side_len <= 0x10000000000,
    ensures
        r == frontage_seed(sum_x as int, sum_y as int, side_len as int),
{
    let a = (sum_x + 0x10000000000) as u64;
    let b = (sum_y + 0x10000000000) as u64;
    let c = (side_len + 0x10000000000) as u64;
    mix64_ex(mix64_ex(mix64_ex(a) ^ b) ^ c)
}

/// The deterministic size generator: state plus a ghost record of the seed
/// it was built from and how many draws were made.
pub struct SizeRng {
    pub state: u64,
    pub seed: Ghost<u64>,
    pub count: Ghost<nat>,
}

impl SizeRng {
    pub open spec fn inv(self) -> bool {
        self.state == rng_state(self.seed@, self.count@)
    }

    pub fn from_seed(seed: u64) -> (r: SizeRng)
        ensures
            r.inv(),
            r.seed@ == seed,
            r.count@ == 0,
    {
        SizeRng { state: seed, seed: Ghost(seed), count: Ghost(0nat) }
    }

    /// Draw the next parcel size: the `count`-th element of the seed's
    /// size sequence, always one of 20, 30, 40.
    pub fn next_size(&mut self) -> (s: i64)
        requires
            old(self).inv(),
        ensures
            final(self).inv(),
            final(self).seed == old(self).seed,
            final(self).count@ == old(self).count@ + 1,
            s == size_at(old(self).seed@, old(self).count@),
            s == 20 || s == 30 || s == 40,
    {
        let next = wadd_ex(self.state, SEED_INCREMENT);
        let z = mix64_ex(next);
        self.state = next;
        self.count = Ghost((old(self).count@ + 1) as nat);
        proof {
            assert(rng_state(self.seed@, self.count@) == wadd(
                rng_state(self.seed@, old(self).count@),
                SEED_INCREMENT,
            ));
            lemma_size_at_choices(self.seed@, old(self).count@);
        }
        20 + 10 * ((z % 3) as i64)
    }
}

} // verus!
