//! SplitMix64, a small deterministic random number generator.

use vstd::prelude::*;

verus! {

/// The odd step by which the counter advances.
pub const GAMMA: u64 = 0x9E37_79B9_7F4A_7C15;

const MIX_1: u64 = 0xBF58_476D_1CE4_E5B9;

const MIX_2: u64 = 0x94D0_49BB_1331_11EB;

/// The scrambling that turns a counter value into an output.
pub open spec fn mix(z: u64) -> u64 {
    let a = (z ^ (z >> 30u64)).wrapping_mul(0xBF58_476D_1CE4_E5B9u64);
    let b = (a ^ (a >> 27u64)).wrapping_mul(0x94D0_49BB_1331_11EBu64);
    b ^ (b >> 31u64)
}

/// The counter after `n` steps from `seed`.
pub open spec fn counter(seed: u64, n: int) -> u64 {
    ((seed as int + n * GAMMA as int) % 0x1_0000_0000_0000_0000) as u64
}

/// Output number `n` (from zero) of the generator seeded with `seed`.
pub open spec fn output(seed: u64, n: int) -> u64 {
    mix(counter(seed, n + 1))
}

/// The generator: a counter that is scrambled on each draw.
pub struct SplitMix64 {
    pub state: u64,
}

impl SplitMix64 {
    pub fn new(seed: u64) -> (r: SplitMix64)
        ensures
            r.state == seed,
    {
        SplitMix64 { state: seed }
    }

    /// Draw the next number.
    pub fn next(&mut self) -> (r: u64)
        ensures
            final(self).state == counter(old(self).state, 1),
            r == output(old(self).state, 0),
            r == mix(final(self).state),
    {
        self.state = self.state.wrapping_add(GAMMA);
        scramble(self.state)
    }

    /// Draw a number of twenty-four bits: the upper bits of the next number.
    pub fn next_24_bits(&mut self) -> (r: u32)
        ensures
            final(self).state == counter(old(self).state, 1),
            r == output(old(self).state, 0) / 0x100_0000_0000,
            r < 0x100_0000,
    {
        (self.next() / 0x100_0000_0000) as u32
    }

    /// Draw a number below `bound`.
    pub fn below(&mut self, bound: usize) -> (r: usize)
        requires
            bound > 0,
        ensures
            final(self).state == counter(old(self).state, 1),
            r == output(old(self).state, 0) as int % bound as int,
            r < bound,
    {
        (self.next() % (bound as u64)) as usize
    }
}

/// The scrambling that turns a counter value into an output.
#[inline]
pub fn scramble(z: u64) -> (r: u64)
    ensures
        r == mix(z),
{
    let a: u64 = (z ^ (z >> 30u64)).wrapping_mul(MIX_1);
    let b: u64 = (a ^ (a >> 27u64)).wrapping_mul(MIX_2);
    b ^ (b >> 31u64)
}

/// Steps add up.
pub proof fn lemma_counter_step(seed: u64, n: int)
    requires
        0 <= n,
    ensures
        counter(seed, n + 1) == counter(counter(seed, n), 1),
        counter(seed, 0) == seed,
{
    let m = 0x1_0000_0000_0000_0000int;
    let g = GAMMA as int;
    let a = seed as int + n * g;
    assert(seed as int + (n + 1) * g == a + g) by (nonlinear_arith)
        requires
            a == seed as int + n * g,
    ;
    assert(0 * g == 0);
    assert((a + g) % m == (a % m + g) % m) by {
        vstd::arithmetic::div_mod::lemma_add_mod_noop(a, g, m);
        vstd::arithmetic::div_mod::lemma_add_mod_noop(a % m, g, m);
        vstd::arithmetic::div_mod::lemma_mod_twice(a, m);
    }
    assert(seed as int % m == seed as int);
}

/// A number that a factor with an inverse carries to a multiple of the modulus
/// is itself a multiple of the modulus; if it is small, it is zero.
proof fn lemma_cancel(d: int, q: int, c: int, inv: int, k: int, m: int)
    requires
        d * c == q * m,
        c * inv == 1 + k * m,
        -m < d < m,
    ensures
        d == 0,
{
    let t = q * inv - d * k;
    assert((d * c) * inv == d * (c * inv)) by (nonlinear_arith);
    assert((q * m) * inv == m * (q * inv)) by (nonlinear_arith);
    assert(d * (1 + k * m) == d + m * (d * k)) by (nonlinear_arith);
    assert(m * (q * inv) - m * (d * k) == m * t) by (nonlinear_arith)
        requires
            t == q * inv - d * k,
    ;
    assert(d == m * t);
    assert(t == 0) by (nonlinear_arith)
        requires
            d == m * t,
            -m < d < m,
    ;
}

/// Multiplying by a factor that has an inverse loses nothing.
pub proof fn lemma_times_injective(x: u64, y: u64, c: u64, inv: int, k: int)
    requires
        x.wrapping_mul(c) == y.wrapping_mul(c),
        c as int * inv == 1 + k * 0x1_0000_0000_0000_0000,
    ensures
        x == y,
{
    let m = 0x1_0000_0000_0000_0000int;
    let p = x as int * c as int;
    let r = y as int * c as int;
    assert(p == (p / m) * m + p % m && r == (r / m) * m + r % m);
    assert((x as int - y as int) * c as int == p - r) by (nonlinear_arith)
        requires
            p == x as int * c as int,
            r == y as int * c as int,
    ;
    assert((p / m - r / m) * m == p - r);
    lemma_cancel(x as int - y as int, p / m - r / m, c as int, inv, k, m);
}

/// The scrambling loses nothing: different inputs give different outputs.
pub proof fn lemma_mix_injective(x: u64, y: u64)
    requires
        mix(x) == mix(y),
    ensures
        x == y,
{
    let xa = x ^ (x >> 30u64);
    let ya = y ^ (y >> 30u64);
    let xb = xa.wrapping_mul(0xBF58_476D_1CE4_E5B9u64);
    let yb = ya.wrapping_mul(0xBF58_476D_1CE4_E5B9u64);
    let xc = xb ^ (xb >> 27u64);
    let yc = yb ^ (yb >> 27u64);
    let xd = xc.wrapping_mul(0x94D0_49BB_1331_11EBu64);
    let yd = yc.wrapping_mul(0x94D0_49BB_1331_11EBu64);
    assert(xd == yd) by (bit_vector)
        requires
            xd ^ (xd >> 31u64) == yd ^ (yd >> 31u64),
    ;
    lemma_times_injective(
        xc,
        yc,
        0x94D0_49BB_1331_11EB,
        0x3196_42B2_D24D_8EC3,
        0x1CD3_36ED_A85F_1453,
    );
    assert(xb == yb) by (bit_vector)
        requires
            xb ^ (xb >> 27u64) == yb ^ (yb >> 27u64),
    ;
    lemma_times_injective(
        xa,
        ya,
        0xBF58_476D_1CE4_E5B9,
        0x96DE_1B17_3F11_9089,
        0x70C3_BCA7_8F27_F46C,
    );
    assert(x == y) by (bit_vector)
        requires
            x ^ (x >> 30u64) == y ^ (y >> 30u64),
    ;
}

/// Within one period of the counter no two outputs are equal.
pub proof fn law_outputs_are_distinct(seed: u64, i: int, j: int)
    requires
        0 <= i < 0x1_0000_0000_0000_0000,
        0 <= j < 0x1_0000_0000_0000_0000,
        output(seed, i) == output(seed, j),
    ensures
        i == j,
{
    lemma_mix_injective(counter(seed, i + 1), counter(seed, j + 1));
    let m = 0x1_0000_0000_0000_0000int;
    let qi = (seed as int + (i + 1) * 0x9E37_79B9_7F4A_7C15) / m;
    let qj = (seed as int + (j + 1) * 0x9E37_79B9_7F4A_7C15) / m;
    assert((i - j) * 0x9E37_79B9_7F4A_7C15 == (qi - qj) * m);
    lemma_cancel(
        i - j,
        qi - qj,
        0x9E37_79B9_7F4A_7C15,
        0xF1DE_83E1_9937_733D,
        0x957B_BF35_006E_D677,
        m,
    );
}

/// Only the counter value zero is scrambled to zero.
pub proof fn lemma_mix_zero(z: u64)
    requires
        mix(z) == 0,
    ensures
        z == 0,
{
    assert(0u64 ^ (0u64 >> 30u64) == 0 && 0u64 ^ (0u64 >> 27u64) == 0 && 0u64 ^ (0u64 >> 31u64)
        == 0) by (bit_vector);
    assert(mix(0) == 0);
    lemma_mix_injective(z, 0);
}

} // verus!
