use vstd::prelude::*;
use vstd::arithmetic::div_mod::{
    lemma_add_mod_noop, lemma_fundamental_div_mod, lemma_mod_bound, lemma_mod_sub_multiples_vanish,
    lemma_small_mod,
};
use vstd::wrapping::u64_specs::{wrapping_add, wrapping_mul};

verus! {

/// The increment added to the state before each output.
pub const GOLDEN_GAMMA: u64 = 0x9e3779b97f4a7c15;

/// The state after one step of the generator.
pub open spec fn splitmix_advance(state: u64) -> u64 {
    wrapping_add(state, GOLDEN_GAMMA)
}

/// The output mixed from an (already advanced) state.
pub open spec fn splitmix_mix(z: u64) -> u64 {
    let z1 = wrapping_mul(z ^ (z >> 30u64), 0xbf58476d1ce4e5b9u64);
    let z2 = wrapping_mul(z1 ^ (z1 >> 27u64), 0x94d049bb133111ebu64);
    z2 ^ (z2 >> 31u64)
}

/// The state after `n` steps from `seed`.
pub open spec fn splitmix_state(seed: u64, n: nat) -> u64
    decreases n,
{
    if n == 0 {
        seed
    } else {
        splitmix_advance(splitmix_state(seed, (n - 1) as nat))
    }
}

/// The `n`-th output (counted from 0) of the generator seeded with `seed`.
pub open spec fn splitmix_output(seed: u64, n: nat) -> u64 {
    splitmix_mix(splitmix_state(seed, n + 1))
}

/// Simple PRNG, based on
/// splitmix64.c by Sebastiano Vigna
/// <https://xoshiro.di.unimi.it/splitmix64.c>.
#[derive(Copy, Clone, Debug)]
pub struct Splitmix64(u64);

impl View for Splitmix64 {
    /// The state of the generator.
    type V = u64;

    closed spec fn view(&self) -> u64 {
        self.0
    }
}

impl Splitmix64 {
    /// A generator whose state is `value`.
    pub fn with_seed(value: u64) -> (r: Splitmix64)
        ensures
            r@ == value,
    {
        Splitmix64(value)
    }

    /// Advances the generator and returns its next output.
    pub fn next(&mut self) -> (r: u64)
        ensures
            final(self)@ == splitmix_advance(old(self)@),
            r == splitmix_mix(final(self)@),
    {
        self.0 = self.0.wrapping_add(GOLDEN_GAMMA);
        let mut z = self.0;
        z = (z ^ (z >> 30)).wrapping_mul(0xbf58476d1ce4e5b9);
        z = (z ^ (z >> 27)).wrapping_mul(0x94d049bb133111eb);
        z ^ (z >> 31)
    }
}


/// 2 to the 64th: the modulus of `u64` arithmetic.
pub open spec fn word_modulus() -> int {
    0x1_0000_0000_0000_0000int
}

/// A factor with an inverse modulo 2^64 (`c * cinv == 1 + k * 2^64`) turns no number
/// strictly between 0 and 2^64 into a multiple of 2^64.
proof fn lemma_unit_factor(d: int, c: int, cinv: int, k: int, q: int)
    requires
        0 < d < word_modulus(),
        c * cinv == 1 + k * word_modulus(),
    ensures
        d * c != word_modulus() * q,
{
    let m = word_modulus();
    if d * c == m * q {
        assert(d * (c * cinv) == d + (d * k) * m) by (nonlinear_arith)
            requires
                c * cinv == 1 + k * m,
        ;
        assert(d * (c * cinv) == m * (q * cinv)) by (nonlinear_arith)
            requires
                d * c == m * q,
        ;
        let t = q * cinv - d * k;
        assert(d == m * t) by (nonlinear_arith)
            requires
                d * (c * cinv) == d + (d * k) * m,
                d * (c * cinv) == m * (q * cinv),
                t == q * cinv - d * k,
        ;
        if t >= 1 {
            assert(m * t >= m) by (nonlinear_arith)
                requires
                    t >= 1,
                    m > 0,
            ;
        } else {
            assert(m * t <= 0) by (nonlinear_arith)
                requires
                    t <= 0,
                    m > 0,
            ;
        }
    }
}

/// Two numbers with the same remainder modulo 2^64 after multiplying by an invertible
/// factor are equal, as long as they are less than 2^64 apart.
proof fn lemma_unit_mul_injective(a: int, b: int, c: int, cinv: int, k: int)
    requires
        0 <= a < word_modulus(),
        0 <= b < word_modulus(),
        c * cinv == 1 + k * word_modulus(),
        (a * c) % word_modulus() == (b * c) % word_modulus(),
    ensures
        a == b,
{
    let m = word_modulus();
    if a != b {
        let x = if a > b { a } else { b };
        let y = if a > b { b } else { a };
        lemma_fundamental_div_mod(x * c, m);
        lemma_fundamental_div_mod(y * c, m);
        let q = (x * c) / m - (y * c) / m;
        assert((x - y) * c == m * q) by (nonlinear_arith)
            requires
                x * c == m * ((x * c) / m) + (x * c) % m,
                y * c == m * ((y * c) / m) + (y * c) % m,
                (x * c) % m == (y * c) % m,
                q == (x * c) / m - (y * c) / m,
        ;
        lemma_unit_factor(x - y, c, cinv, k, q);
    }
}

/// The state after `n` steps is `seed + n * GOLDEN_GAMMA`, modulo 2^64.
proof fn lemma_state_closed(seed: u64, n: nat)
    ensures
        splitmix_state(seed, n) as int == (seed + n * GOLDEN_GAMMA) % word_modulus(),
    decreases n,
{
    let m = word_modulus();
    if n == 0 {
        lemma_small_mod(seed as nat, m as nat);
    } else {
        lemma_state_closed(seed, (n - 1) as nat);
        let x = splitmix_state(seed, (n - 1) as nat) as int;
        let a = seed + (n - 1) * GOLDEN_GAMMA;
        lemma_small_mod(GOLDEN_GAMMA as nat, m as nat);
        lemma_add_mod_noop(a, GOLDEN_GAMMA as int, m);
        assert(a + GOLDEN_GAMMA == seed + n * GOLDEN_GAMMA);
        if x + GOLDEN_GAMMA >= m {
            lemma_mod_sub_multiples_vanish(x + GOLDEN_GAMMA, m);
            lemma_small_mod((x + GOLDEN_GAMMA - m) as nat, m as nat);
        } else {
            lemma_small_mod((x + GOLDEN_GAMMA) as nat, m as nat);
        }
    }
}

/// Different step counts, less than 2^64 apart, give different states.
proof fn lemma_states_distinct(seed: u64, i: nat, j: nat)
    requires
        i != j,
        i < word_modulus(),
        j < word_modulus(),
    ensures
        splitmix_state(seed, i) != splitmix_state(seed, j),
{
    let m = word_modulus();
    lemma_state_closed(seed, i);
    lemma_state_closed(seed, j);
    if splitmix_state(seed, i) == splitmix_state(seed, j) {
        let g = GOLDEN_GAMMA as int;
        lemma_fundamental_div_mod(seed + i * g, m);
        lemma_fundamental_div_mod(seed + j * g, m);
        lemma_fundamental_div_mod(i * g, m);
        lemma_fundamental_div_mod(j * g, m);
        lemma_add_mod_noop(seed as int, i * g, m);
        lemma_add_mod_noop(seed as int, j * g, m);
        lemma_small_mod(seed as nat, m as nat);
        lemma_mod_bound(i * g, m);
        lemma_mod_bound(j * g, m);
        // seed + (i*g % m) and seed + (j*g % m) agree modulo m, and both lie in [0, 2m)
        let ri = (i * g) % m;
        let rj = (j * g) % m;
        if ri != rj {
            let lo = if ri < rj { ri } else { rj };
            let hi = if ri < rj { rj } else { ri };
            lemma_small_mod((seed + lo) as nat, (2 * m) as nat);
            if seed + hi >= m {
                lemma_mod_sub_multiples_vanish(seed + hi, m);
                lemma_small_mod((seed + hi - m) as nat, m as nat);
            } else {
                lemma_small_mod((seed + hi) as nat, m as nat);
            }
            if seed + lo >= m {
                lemma_mod_sub_multiples_vanish(seed + lo, m);
                lemma_small_mod((seed + lo - m) as nat, m as nat);
            } else {
                lemma_small_mod((seed + lo) as nat, m as nat);
            }
        }
        lemma_unit_mul_injective(i as int, j as int, g, 17428512612931826493int, 10771413168148108919int);
    }
}

/// Each step of the output mix is undone by another: the mix never maps two states to
/// one output.
proof fn lemma_mix_injective(a: u64, b: u64)
    requires
        splitmix_mix(a) == splitmix_mix(b),
    ensures
        a == b,
{
    let m = word_modulus();
    let a1 = a ^ (a >> 30u64);
    let b1 = b ^ (b >> 30u64);
    let a2 = wrapping_mul(a1, 0xbf58476d1ce4e5b9u64);
    let b2 = wrapping_mul(b1, 0xbf58476d1ce4e5b9u64);
    let a3 = a2 ^ (a2 >> 27u64);
    let b3 = b2 ^ (b2 >> 27u64);
    let a4 = wrapping_mul(a3, 0x94d049bb133111ebu64);
    let b4 = wrapping_mul(b3, 0x94d049bb133111ebu64);
    assert(a4 ^ (a4 >> 31u64) == b4 ^ (b4 >> 31u64) ==> a4 == b4) by (bit_vector);
    lemma_mod_bound(a3 * 0x94d049bb133111ebu64, m);
    lemma_mod_bound(b3 * 0x94d049bb133111ebu64, m);
    lemma_unit_mul_injective(
        a3 as int,
        b3 as int,
        0x94d049bb133111ebint,
        3573116690164977347int,
        2077064247507883091int,
    );
    assert(a2 ^ (a2 >> 27u64) == b2 ^ (b2 >> 27u64) ==> a2 == b2) by (bit_vector);
    lemma_mod_bound(a1 * 0xbf58476d1ce4e5b9u64, m);
    lemma_mod_bound(b1 * 0xbf58476d1ce4e5b9u64, m);
    lemma_unit_mul_injective(
        a1 as int,
        b1 as int,
        0xbf58476d1ce4e5b9int,
        10871156337175269513int,
        8125545580553827436int,
    );
    assert(a ^ (a >> 30u64) == b ^ (b >> 30u64) ==> a == b) by (bit_vector);
}

/// The generator never repeats an output within 2^64 - 1 steps: outputs at different
/// steps differ.
pub proof fn lemma_outputs_distinct(seed: u64, i: nat, j: nat)
    requires
        i != j,
        i + 1 < word_modulus(),
        j + 1 < word_modulus(),
    ensures
        splitmix_output(seed, i) != splitmix_output(seed, j),
{
    lemma_states_distinct(seed, i + 1, j + 1);
    if splitmix_output(seed, i) == splitmix_output(seed, j) {
        lemma_mix_injective(splitmix_state(seed, i + 1), splitmix_state(seed, j + 1));
    }
}

} // verus!
