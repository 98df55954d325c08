//! The pseudo-random source behind the noise generator: a 64-bit linear
//! congruential generator whose top 31 bits give each noise value.

use vstd::arithmetic::div_mod::*;
use vstd::prelude::*;

verus! {

/// Multiplier of the generator.
pub const LCG_MULTIPLIER: u64 = 6364136223846793005u64;

/// Increment of the generator.
pub const LCG_INCREMENT: u64 = 1442695040888963407u64;

/// One step of the generator: `state * multiplier + increment` modulo `2^64`.
pub open spec fn lcg_step(state: u64) -> u64 {
    ((state as nat * LCG_MULTIPLIER as nat + LCG_INCREMENT as nat) % 0x1_0000_0000_0000_0000nat) as u64
}

/// The generator's state after `k` steps from `seed`.
pub open spec fn lcg_state(seed: u64, k: nat) -> u64
    decreases k,
{
    if k == 0 {
        seed
    } else {
        lcg_step(lcg_state(seed, (k - 1) as nat))
    }
}

/// The raw noise values drawn from `seed`: value `i` is the top 31 bits of the
/// state after `i + 1` steps.
pub open spec fn raw_noise_spec(n: nat, seed: u64) -> Seq<u32> {
    Seq::new(n, |i: int| (lcg_state(seed, (i + 1) as nat) >> 33u64) as u32)
}

/// Advances the generator by one step.
pub fn lcg_next(state: u64) -> (r: u64)
    ensures
        r == lcg_step(state),
{
    let p = state.wrapping_mul(LCG_MULTIPLIER);
    let r = p.wrapping_add(LCG_INCREMENT);
    proof {
        let m: int = 0x1_0000_0000_0000_0000;
        assert(p == (state as int * LCG_MULTIPLIER as int) % m);
        lemma_add_mod_noop(state as int * LCG_MULTIPLIER as int, LCG_INCREMENT as int, m);
        lemma_small_mod(LCG_INCREMENT as nat, m as nat);
        lemma_mod_twice(state as int * LCG_MULTIPLIER as int, m);
        if p + LCG_INCREMENT >= m {
            lemma_fundamental_div_mod_converse(
                p + LCG_INCREMENT,
                m,
                1,
                p + LCG_INCREMENT - m,
            );
        } else {
            lemma_small_mod((p + LCG_INCREMENT) as nat, m as nat);
        }
    }
    r
}

/// Draws `n` raw noise values from `seed`. Each value `v` is below `2^31`;
/// the noise sample is `v / 2^31` scaled by the amplitude.
pub fn raw_noise(n: usize, seed: u64) -> (r: Vec<u32>)
    ensures
        r@ == raw_noise_spec(n as nat, seed),
        forall|i: int| 0 <= i < r@.len() ==> #[trigger] r@[i] < 0x8000_0000u32,
{
    let mut r: Vec<u32> = Vec::new();
    let mut state = seed;
    let mut i: usize = 0;
    while i < n
        invariant
            i <= n,
            r@.len() == i,
            state == lcg_state(seed, i as nat),
            forall|q: int| 0 <= q < i ==> #[trigger] r@[q] == (lcg_state(seed, (q + 1) as nat) >> 33u64) as u32,
            forall|q: int| 0 <= q < i ==> #[trigger] r@[q] < 0x8000_0000u32,
        decreases n - i,
    {
        state = lcg_next(state);
        let top = state >> 33u64;
        proof {
            assert(top < 0x8000_0000u64) by (bit_vector)
                requires
                    top == state >> 33u64,
            ;
        }
        r.push(top as u32);
        i = i + 1;
    }
    proof {
        assert(r@ =~= raw_noise_spec(n as nat, seed));
    }
    r
}

/// A longer run of noise from the same seed begins with the shorter run:
/// asking for more samples never changes the ones already drawn.
pub proof fn lemma_raw_noise_prefix(n: nat, extra: nat, seed: u64)
    ensures
        raw_noise_spec(n + extra, seed).take(n as int) == raw_noise_spec(n, seed),
{
    assert(raw_noise_spec(n + extra, seed).take(n as int) =~= raw_noise_spec(n, seed));
}

/// Continuing the generator from the state reached after `n` steps yields the
/// next values of the same run.
pub proof fn lemma_raw_noise_continues(n: nat, extra: nat, seed: u64)
    ensures
        raw_noise_spec(n + extra, seed) == raw_noise_spec(n, seed) + raw_noise_spec(
            extra,
            lcg_state(seed, n),
        ),
{
    assert(raw_noise_spec(n + extra, seed) =~= raw_noise_spec(n, seed) + raw_noise_spec(
        extra,
        lcg_state(seed, n),
    )) by {
        assert forall|i: int| n <= i < n + extra implies #[trigger] raw_noise_spec(n + extra, seed)[i]
            == raw_noise_spec(extra, lcg_state(seed, n))[i - n] by {
            lemma_lcg_state_adds(seed, n, (i - n + 1) as nat);
        }
    }
}

/// Stepping `a` times and then `b` times is stepping `a + b` times.
proof fn lemma_lcg_state_adds(seed: u64, a: nat, b: nat)
    ensures
        lcg_state(lcg_state(seed, a), b) == lcg_state(seed, a + b),
    decreases b,
{
    if b > 0 {
        lemma_lcg_state_adds(seed, a, (b - 1) as nat);
    }
}

} // verus!
