use vstd::prelude::*;

use rand::Rng;
use rand::SeedableRng;

use crate::SCALE;

verus! {

#[verifier::external_type_specification]
#[verifier::external_body]
pub struct ExStdRng(rand::rngs::StdRng);

/// Relies on rand::SeedableRng::seed_from_u64: builds a generator from
/// a 64-bit seed. Nothing is assumed of the stream it produces.
#[verifier::external_body]
fn rng_from_seed(seed: u64) -> rand::rngs::StdRng {
    rand::rngs::StdRng::seed_from_u64(seed)
}

/// Relies on rand::SeedableRng::from_entropy: builds a generator from
/// system entropy. Nothing is assumed of the stream it produces. The
/// call aborts when the operating system's entropy source fails — an
/// environmental failure no input can rule out; reproducible runs
/// should seed instead.
#[verifier::external_body]
fn rng_from_entropy() -> rand::rngs::StdRng {
    rand::rngs::StdRng::from_entropy()
}

/// Relies on rand::Rng::gen_range: returns a uniform value in
/// `[0, n)`; it panics only on an empty range, which `n >= 1` rules
/// out. Nothing more is assumed: two calls on equal inputs may differ.
#[verifier::external_body]
fn rng_below_raw(rng: &mut rand::rngs::StdRng, n: u64) -> (r: u64)
    requires
        n >= 1,
    ensures
        r < n,
{
    rng.gen_range(0..n)
}

/// The simulator's source of randomness: a seedable generator behind
/// one uniform draw, so that every decision taken on a draw is
/// ordinary verified code.
pub struct SimRng {
    pub rng: rand::rngs::StdRng,
}

impl SimRng {
    pub fn from_seed(seed: u64) -> SimRng {
        SimRng { rng: rng_from_seed(seed) }
    }

    pub fn from_entropy() -> SimRng {
        SimRng { rng: rng_from_entropy() }
    }

    /// Uniform draw in `[0, n)`.
    pub fn below(&mut self, n: u64) -> (r: u64)
        requires
            n >= 1,
        ensures
            r < n,
    {
        rng_below_raw(&mut self.rng, n)
    }

    /// Uniform index in `[0, n)`.
    pub fn index_below(&mut self, n: usize) -> (r: usize)
        requires
            n >= 1,
        ensures
            r < n,
    {
        self.below(n as u64) as usize
    }

    /// One trial that succeeds with probability `p_ppb / SCALE`
    /// (clamped to one). Impossible events never fire and certain
    /// events always do.
    pub fn bernoulli(&mut self, p_ppb: u64) -> (b: bool)
        ensures
            p_ppb == 0 ==> !b,
            p_ppb >= SCALE ==> b,
    {
        self.below(SCALE) < p_ppb
    }
}

/// Sum of a weight list.
pub open spec fn sum64(ws: Seq<u64>) -> int
    decreases ws.len(),
{
    if ws.len() == 0 {
        0
    } else {
        sum64(ws.drop_last()) + ws.last()
    }
}

pub proof fn lemma_sum64_bound(ws: Seq<u64>, b: int)
    requires
        forall|j: int| 0 <= j < ws.len() ==> ws[j] <= b,
        b >= 0,
    ensures
        0 <= sum64(ws) <= ws.len() * b,
    decreases ws.len(),
{
    if ws.len() > 0 {
        lemma_sum64_bound(ws.drop_last(), b);
        assert(ws.last() == ws[ws.len() - 1]);
        assert((ws.len() - 1) * b + b == ws.len() * b) by (nonlinear_arith);
    }
}

pub proof fn lemma_sum64_zero(ws: Seq<u64>)
    requires
        sum64(ws) == 0,
    ensures
        forall|j: int| 0 <= j < ws.len() ==> ws[j] == 0,
    decreases ws.len(),
{
    if ws.len() > 0 {
        lemma_sum64_bound(ws.drop_last(), u64::MAX as int);
        assert(ws.last() == 0);
        lemma_sum64_zero(ws.drop_last());
        assert(forall|j: int| 0 <= j < ws.len() - 1 ==> ws[j] == ws.drop_last()[j]);
    }
}

impl SimRng {
    /// Categorical draw: returns an index with probability
    /// proportional to its weight; a zero-weight index is never
    /// returned.
    pub fn categorical(&mut self, weights: &Vec<u64>) -> (j: usize)
        requires
            1 <= sum64(weights@) <= u64::MAX,
        ensures
            j < weights@.len(),
            weights@[j as int] > 0,
    {
        let n = weights.len();
        let mut total: u64 = 0;
        let mut i: usize = 0;
        while i < n
            invariant
                i <= n,
                n == weights@.len(),
                total == sum64(weights@.take(i as int)),
                sum64(weights@) <= u64::MAX,
            decreases n - i,
        {
            proof {
                lemma_sum64_prefix(weights@, i as int + 1);
                assert(weights@.take(i as int + 1).drop_last() =~= weights@.take(i as int));
                assert(weights@.take(i as int + 1).last() == weights@[i as int]);
            }
            total = total + weights[i];
            i += 1;
        }
        proof {
            assert(weights@.take(n as int) =~= weights@);
        }
        let draw = self.below(total);
        let mut acc: u64 = 0;
        let mut j: usize = 0;
        while j < n
            invariant
                j <= n,
                n == weights@.len(),
                acc == sum64(weights@.take(j as int)),
                draw >= acc,
                draw < total,
                total == sum64(weights@),
            decreases n - j,
        {
            proof {
                assert(weights@.take(j as int + 1).drop_last() =~= weights@.take(j as int));
                assert(weights@.take(j as int + 1).last() == weights@[j as int]);
                lemma_sum64_prefix(weights@, j as int + 1);
            }
            let w = weights[j];
            if draw < acc + w {
                return j;
            }
            acc = acc + w;
            j += 1;
        }
        proof {
            assert(weights@.take(n as int) =~= weights@);
            assert(false);
        }
        0
    }
}

/// The tail of a weight list never makes a prefix sum exceed the whole.
pub proof fn lemma_sum64_prefix(ws: Seq<u64>, i: int)
    requires
        0 <= i <= ws.len(),
    ensures
        0 <= sum64(ws.take(i)) <= sum64(ws),
    decreases ws.len() - i,
{
    lemma_sum64_bound(ws.take(i), u64::MAX as int);
    if i < ws.len() {
        lemma_sum64_prefix(ws, i + 1);
        assert(ws.take(i + 1).drop_last() =~= ws.take(i));
        assert(ws.take(i + 1).last() == ws[i]);
    } else {
        assert(ws.take(i) =~= ws);
    }
}

} // verus!
