use vstd::prelude::*;
use crate::rng::rng_below;

verus! {

/// The loss variant the engine optimizes: the categorical dimension of
/// the search space.
#[derive(Clone, Copy, PartialEq, Eq, Structural, Debug, Hash)]
pub enum Loss {
    Bpr,
    Hinge,
}

pub const MIN_LATENT_DIM: u64 = 4;

pub const MAX_LATENT_DIM: u64 = 64;

pub const MIN_EPOCHS: u64 = 1;

pub const MAX_EPOCHS: u64 = 50;

/// Smallest learning rate, in millionths: one ten-thousandth.
pub const MIN_RATE_MICROS: u64 = 100;

/// Largest learning rate, in millionths: one tenth.
pub const MAX_RATE_MICROS: u64 = 1_000_000;

/// Smallest regularization weight, in millionths: one millionth.
pub const MIN_L2_MICROS: u64 = 1;

/// Largest regularization weight, in millionths: one hundredth.
pub const MAX_L2_MICROS: u64 = 10_000;

/// One sampled configuration: immutable once drawn, carried verbatim into
/// every persisted trial outcome so any historical trial can be re-run.
/// Continuous dimensions are held in exact millionths.
#[derive(Clone, Copy, PartialEq, Eq, Structural, Debug, Hash)]
pub struct Hyperparameters {
    pub latent_dim: u64,
    pub num_epochs: u64,
    pub rate_micros: u64,
    pub l2_micros: u64,
    pub loss: Loss,
}

impl Hyperparameters {
    /// Every dimension lies in its documented prior's support.
    pub open spec fn well_formed(self) -> bool {
        &&& MIN_LATENT_DIM <= self.latent_dim <= MAX_LATENT_DIM
        &&& MIN_EPOCHS <= self.num_epochs <= MAX_EPOCHS
        &&& MIN_RATE_MICROS <= self.rate_micros < MAX_RATE_MICROS
        &&& MIN_L2_MICROS <= self.l2_micros < MAX_L2_MICROS
    }
}

/// One draw from a decade-wise log prior: first a decade is chosen
/// uniformly among `decades` consecutive decades starting at `lo`
/// millionths, then a value uniformly within that decade.
fn sample_log_decades(rng: &mut rand::rngs::StdRng, lo: u64, decades: u64) -> (v: u64)
    requires
        1 <= lo,
        1 <= decades <= 6,
        lo * 1_000_000 <= u64::MAX,
    ensures
        lo <= v,
        v < lo * pow10(decades as nat),
{
    proof {
        lemma_pow10_bounds(decades as nat);
        assert(pow10(0nat) == 1);
    }
    let e = rng_below(rng, decades);
    let mut d: u64 = lo;
    let mut i: u64 = 0;
    while i < e
        invariant
            i <= e,
            e < decades <= 6,
            1 <= lo,
            lo * 1_000_000 <= u64::MAX,
            d == lo * pow10(i as nat),
        decreases e - i,
    {
        proof {
            lemma_pow10_bounds(decades as nat);
            lemma_pow10_monotone(i as nat + 1, decades as nat);
            assert(lo * pow10(i as nat) * 10 == lo * pow10(i as nat + 1))
                by (nonlinear_arith)
                requires
                    pow10(i as nat + 1) == 10 * pow10(i as nat),
            ;
            assert(lo * pow10(i as nat + 1) <= lo * 1_000_000) by (nonlinear_arith)
                requires
                    pow10(i as nat + 1) <= 1_000_000,
                    1 <= lo,
                    pow10(i as nat + 1) >= 1,
            ;
        }
        d = d * 10;
        i = i + 1;
    }
    proof {
        lemma_pow10_monotone(e as nat + 1, decades as nat);
        assert(9 * d + d == 10 * d);
        assert(lo * pow10(e as nat) * 10 == lo * pow10(e as nat + 1)) by (nonlinear_arith)
            requires
                pow10(e as nat + 1) == 10 * pow10(e as nat),
        ;
        assert(lo * pow10(e as nat + 1) <= lo * pow10(decades as nat)) by (nonlinear_arith)
            requires
                pow10(e as nat + 1) <= pow10(decades as nat),
                1 <= lo,
        ;
        assert(lo * pow10(decades as nat) <= lo * 1_000_000) by (nonlinear_arith)
            requires
                pow10(decades as nat) <= 1_000_000,
                1 <= lo,
        ;
        assert(lo <= lo * pow10(e as nat)) by (nonlinear_arith)
            requires
                1 <= pow10(e as nat),
                1 <= lo,
        ;
    }
    let off = rng_below(rng, 9 * d);
    d + off
}

/// Ten to the `e`.
pub open spec fn pow10(e: nat) -> nat
    decreases e,
{
    if e == 0 {
        1
    } else {
        10 * pow10((e - 1) as nat)
    }
}

proof fn lemma_pow10_bounds(e: nat)
    requires
        e <= 6,
    ensures
        1 <= pow10(e) <= 1_000_000,
{
    lemma_pow10_monotone(e, 6);
    assert(pow10(0nat) == 1);
    assert(pow10(1nat) == 10);
    assert(pow10(2nat) == 100);
    assert(pow10(3nat) == 1_000);
    assert(pow10(4nat) == 10_000);
    assert(pow10(5nat) == 100_000);
    assert(pow10(6nat) == 1_000_000);
}

proof fn lemma_pow10_monotone(a: nat, b: nat)
    requires
        a <= b,
    ensures
        pow10(a) <= pow10(b),
        1 <= pow10(a),
    decreases b,
{
    if a < b {
        lemma_pow10_monotone(a, (b - 1) as nat);
        lemma_pow10_monotone((b - 1) as nat, (b - 1) as nat);
        assert(pow10(b) == 10 * pow10((b - 1) as nat));
    } else if a == b && a > 0 {
        lemma_pow10_monotone((a - 1) as nat, (b - 1) as nat);
        assert(pow10(b) == 10 * pow10((b - 1) as nat));
    }
}

/// Draws one fresh configuration. Every dimension is sampled from its own
/// prior, independently of anything drawn before: the latent dimension
/// and epoch count uniformly over their ranges, the learning rate and the
/// regularization weight from a decade-wise log prior, the loss variant
/// uniformly over the two variants.
pub fn sample(rng: &mut rand::rngs::StdRng) -> (h: Hyperparameters)
    ensures
        h.well_formed(),
{
    let latent_dim = MIN_LATENT_DIM + rng_below(rng, MAX_LATENT_DIM - MIN_LATENT_DIM + 1);
    let num_epochs = MIN_EPOCHS + rng_below(rng, MAX_EPOCHS - MIN_EPOCHS + 1);
    // 100 to 999_999 millionths across four decades
    let rate_micros = sample_log_decades(rng, MIN_RATE_MICROS, 4);
    proof {
        assert(pow10(0nat) == 1);
        assert(pow10(1nat) == 10);
        assert(pow10(2nat) == 100);
        assert(pow10(3nat) == 1_000);
        assert(pow10(4nat) == 10_000);
    }
    // 1 to 9_999 millionths across four decades
    let l2_micros = sample_log_decades(rng, MIN_L2_MICROS, 4);
    let loss = if rng_below(rng, 2) == 0 {
        Loss::Bpr
    } else {
        Loss::Hinge
    };
    Hyperparameters { latent_dim, num_epochs, rate_micros, l2_micros, loss }
}

} // verus!
