use vstd::prelude::*;

use crate::gpu::GpuAvailability;

verus! {

/// Multiplier of the weight generator (a 64-bit linear congruential
/// generator).
pub const LCG_MULTIPLIER: u64 = 6364136223846793005;

/// One step of the weight generator: `s · LCG_MULTIPLIER + 1` modulo 2⁶⁴.
pub open spec fn lcg_next(s: u64) -> u64 {
    ((s as nat * LCG_MULTIPLIER as nat + 1) % 0x1_0000_0000_0000_0000nat) as u64
}

/// The generator state after `k` steps from `seed`.
pub open spec fn lcg_state(seed: u64, k: nat) -> u64
    decreases k,
{
    if k == 0 {
        seed
    } else {
        lcg_next(lcg_state(seed, (k - 1) as nat))
    }
}

/// Seed of the weight generator for a layer of `seed` weights: the count
/// with its lowest bit set, so that the seed is odd.
pub open spec fn rng_seed(seed: usize) -> u64 {
    (seed as u64) | 1u64
}

/// Seed of the weight generator used when a layer is created.
pub fn simple_rng(seed: usize) -> (r: u64)
    ensures
        r == rng_seed(seed),
{
    seed as u64 | 1
}

/// Wrapping multiply-then-increment is one generator step.
fn lcg_step(s: u64) -> (r: u64)
    ensures
        r == lcg_next(s),
{
    let p = s.wrapping_mul(LCG_MULTIPLIER);
    let r = p.wrapping_add(1);
    proof {
        let m: int = 0x1_0000_0000_0000_0000;
        let x: int = s as int * LCG_MULTIPLIER as int;
        assert(x >= 0) by (nonlinear_arith)
            requires
                x == s as int * LCG_MULTIPLIER as int,
                s >= 0,
        ;
        vstd::arithmetic::div_mod::lemma_fundamental_div_mod(x, m);
        let q = x / m;
        assert(p as int == x % m);
        assert(0 <= x % m < m);
        if p as int + 1 < m {
            vstd::arithmetic::div_mod::lemma_fundamental_div_mod_converse_mod(
                x + 1,
                m,
                q,
                p as int + 1,
            );
        } else {
            vstd::arithmetic::div_mod::lemma_fundamental_div_mod_converse_mod(x + 1, m, q + 1, 0);
        }
    }
    r
}

/// The integer draws behind the initial weights of an
/// `input_dim × output_dim` layer: starting from the seed for
/// `input_dim · output_dim` weights, one generator step per weight, each
/// draw being the top 31 bits of the new state.
pub fn initial_weight_draws(input_dim: usize, output_dim: usize) -> (r: Vec<u64>)
    requires
        input_dim * output_dim <= usize::MAX,
    ensures
        r@.len() == input_dim * output_dim,
        forall|k: int|
            0 <= k < r@.len() ==> #[trigger] r@[k] == lcg_state(
                rng_seed((input_dim * output_dim) as usize),
                (k + 1) as nat,
            ) >> 33u64,
{
    let count = input_dim * output_dim;
    let mut rng = simple_rng(count);
    let ghost seed = rng;
    let mut draws: Vec<u64> = Vec::new();
    let mut k: usize = 0;
    while k < count
        invariant
            k <= count,
            seed == rng_seed(count),
            rng == lcg_state(seed, k as nat),
            draws@.len() == k,
            forall|i: int|
                0 <= i < k ==> #[trigger] draws@[i] == lcg_state(seed, (i + 1) as nat) >> 33u64,
        decreases count - k,
    {
        rng = lcg_step(rng);
        draws.push(rng >> 33);
        k = k + 1;
    }
    draws
}

/// The per-layer estimate summed over the layers of `dims`.
pub open spec fn layer_flops_sum(dims: Seq<(usize, usize)>) -> int
    decreases dims.len(),
{
    if dims.len() == 0 {
        0
    } else {
        layer_flops_sum(dims.drop_last()) + dims.last().0 * dims.last().1 * 2
    }
}

/// Every layer adds `2 · input_dim · output_dim` to the estimate, whatever
/// the number of layers before it; no layers estimate nothing.
pub proof fn law_layer_flops_push(dims: Seq<(usize, usize)>, d: (usize, usize))
    ensures
        layer_flops_sum(dims.push(d)) == layer_flops_sum(dims) + 2 * d.0 * d.1,
        layer_flops_sum(Seq::<(usize, usize)>::empty()) == 0,
{
    assert(dims.push(d).drop_last() =~= dims);
    assert(d.0 * d.1 * 2 == 2 * d.0 * d.1) by (nonlinear_arith);
}

/// Each generator step follows the one before: the state after `k + 1`
/// steps is one step from the state after `k`, for every `k`.
pub proof fn law_lcg_state_step(seed: u64, k: nat)
    ensures
        lcg_state(seed, 0) == seed,
        lcg_state(seed, k + 1) == ((lcg_state(seed, k) as nat * 6364136223846793005nat + 1)
            % 0x1_0000_0000_0000_0000nat) as u64,
{
}

/// Every running sum of the per-layer estimates, and every per-layer
/// product along the way, fits its machine word.
pub open spec fn flops_fit(dims: Seq<(usize, usize)>) -> bool {
    &&& forall|i: int|
        0 <= i < dims.len() ==> (#[trigger] dims[i]).0 * dims[i].1 * 2 <= usize::MAX && dims[i].0
            * dims[i].1 <= usize::MAX
    &&& forall|k: int| 0 <= k <= dims.len() ==> #[trigger] layer_flops_sum(dims.take(k)) <= u64::MAX
}

/// Estimated floating-point operations of a forward pass of `batch_len`
/// inputs through layers of the given (input, output) dimensions.
pub fn estimated_network_flops(dims: &Vec<(usize, usize)>, batch_len: usize) -> (r: u64)
    requires
        flops_fit(dims@),
        layer_flops_sum(dims@) * batch_len <= u64::MAX,
    ensures
        r == layer_flops_sum(dims@) * batch_len,
{
    let mut sum: u64 = 0;
    let mut i: usize = 0;
    assert(dims@.take(0) =~= Seq::<(usize, usize)>::empty());
    while i < dims.len()
        invariant
            i <= dims@.len(),
            flops_fit(dims@),
            sum == layer_flops_sum(dims@.take(i as int)),
        decreases dims@.len() - i,
    {
        let (a, b) = dims[i];
        proof {
            assert(dims@.take(i + 1).drop_last() =~= dims@.take(i as int));
            assert(dims@.take(i + 1).last() == dims@[i as int]);
            assert(layer_flops_sum(dims@.take(i + 1)) <= u64::MAX);
            assert(a * b * 2 <= usize::MAX);
        }
        sum = sum + (a * b * 2) as u64;
        i = i + 1;
    }
    assert(dims@.take(dims@.len() as int) =~= dims@);
    sum * batch_len as u64
}

/// Neural network bridge for batch execution.
pub struct NnBridge {
    gpu_avail: bool,
}

impl NnBridge {
    pub fn new(avail: &GpuAvailability) -> (r: Self)
        ensures
            r.uses_gpu() == avail.gpu_available,
    {
        NnBridge { gpu_avail: avail.gpu_available }
    }

    /// Whether the probe that made this bridge found a GPU.
    pub closed spec fn uses_gpu(&self) -> bool {
        self.gpu_avail
    }
}

} // verus!
