//! The linear congruential generator that seeds a predictor's initial weights.
use vstd::prelude::*;

verus! {

/// Seed from which a predictor's weight stream starts.
pub const WEIGHT_SEED: u64 = 0xC0FFEE;

/// Multiplier of the generator.
pub const LCG_MULTIPLIER: u64 = 6364136223846793005;

/// One generator step: `s * LCG_MULTIPLIER + 1` modulo 2^64.
pub open spec fn lcg_step(s: u64) -> u64 {
    ((s * LCG_MULTIPLIER + 1) % 0x1_0000_0000_0000_0000int) as u64
}

/// The generator state after `k` steps from `seed`.
pub open spec fn lcg_state(seed: u64, k: nat) -> u64
    decreases k,
{
    if k == 0 {
        seed
    } else {
        lcg_step(lcg_state(seed, (k - 1) as nat))
    }
}

/// The first `count` draws of the generator started at `seed`: draw `k` is
/// the top 31 bits (the state shifted right by 33) of the state after `k + 1`
/// steps. A predictor maps each draw `d` to the weight `(d / 2^31 - 1) / 100`.
pub fn lcg_draws(seed: u64, count: usize) -> (draws: Vec<u64>)
    ensures
        draws@.len() == count,
        forall|k: int| 0 <= k < count ==> #[trigger] draws@[k] == lcg_state(seed, (k + 1) as nat) >> 33u64,
        forall|k: int| 0 <= k < count ==> #[trigger] draws@[k] < 0x8000_0000,
        exists|states: Seq<u64>|
            #![trigger states.len()]
            {
                &&& states.len() == count + 1
                &&& states[0] == seed
                &&& forall|k: int|
                    0 <= k < count ==> states[k + 1] == ((states[k] * 6364136223846793005int + 1)
                        % 0x1_0000_0000_0000_0000int) as u64 && #[trigger] draws@[k] == states[k + 1]
                        >> 33u64
            },
{
    let mut draws: Vec<u64> = Vec::new();
    let mut state = seed;
    let mut k: usize = 0;
    while k < count
        invariant
            k <= count,
            draws@.len() == k,
            state == lcg_state(seed, k as nat),
            forall|j: int| 0 <= j < k ==> #[trigger] draws@[j] == lcg_state(seed, (j + 1) as nat) >> 33u64,
            forall|j: int| 0 <= j < k ==> #[trigger] draws@[j] < 0x8000_0000,
        decreases count - k,
    {
        let product = state.wrapping_mul(LCG_MULTIPLIER);
        let next = product.wrapping_add(1);
        proof {
            let p = state as int * LCG_MULTIPLIER as int;
            assert(product as int == p % 0x1_0000_0000_0000_0000int);
            vstd::arithmetic::div_mod::lemma_add_mod_noop(p, 1, 0x1_0000_0000_0000_0000int);
            assert(1int % 0x1_0000_0000_0000_0000int == 1);
            assert(next == lcg_step(state));
        }
        state = next;
        let draw = state >> 33u64;
        assert(draw < 0x8000_0000) by (bit_vector)
            requires
                draw == state >> 33u64,
        ;
        draws.push(draw);
        k = k + 1;
    }
    proof {
        let states = Seq::new((count + 1) as nat, |j: int| lcg_state(seed, j as nat));
        assert forall|j: int| 0 <= j < count implies states[j + 1] == ((states[j] * 6364136223846793005int
            + 1) % 0x1_0000_0000_0000_0000int) as u64 && #[trigger] draws@[j] == states[j + 1] >> 33u64 by {
            lemma_lcg_advances(seed, j as nat);
        }
        assert(states[0] == seed);
        assert(states.len() == count + 1);
    }
    draws
}

/// The generator never restarts: each state is the previous one advanced by
/// the affine step `s -> s * 6364136223846793005 + 1` modulo 2^64, and the
/// first state is the seed.
pub proof fn lemma_lcg_advances(seed: u64, k: nat)
    ensures
        lcg_state(seed, 0) == seed,
        lcg_state(seed, k + 1) == ((lcg_state(seed, k) * 6364136223846793005int + 1)
            % 0x1_0000_0000_0000_0000int) as u64,
{
}

} // verus!
