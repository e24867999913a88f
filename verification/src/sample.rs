use vstd::prelude::*;

use crate::rng::{lemma_sum64_bound, lemma_sum64_zero, sum64, SimRng};
use crate::state::State;
use crate::SCALE;

verus! {

/// Fixed-point probability that none of the competing hazards fires:
/// the product of `(SCALE - w) / SCALE` over the weights, rounded down
/// at each step.
pub open spec fn pstay_of(ws: Seq<u64>) -> int
    decreases ws.len(),
{
    if ws.len() == 0 {
        SCALE as int
    } else {
        pstay_of(ws.drop_last()) * (SCALE - ws.last()) / (SCALE as int)
    }
}

/// The reweighted "no transition" weight: pairing `pstay` with the raw
/// hazards while preserving each hazard's marginal share.
pub open spec fn wstay_of(ws: Seq<u64>) -> int {
    if pstay_of(ws) < SCALE {
        pstay_of(ws) * sum64(ws) / (SCALE - pstay_of(ws))
    } else {
        pstay_of(ws)
    }
}

/// Weight actually given to option `j` by the competing-hazards rule:
/// the raw hazards, then the reweighted stay weight for the last
/// option.
pub open spec fn eff_weight(ws: Seq<u64>, j: int) -> int {
    if j < ws.len() {
        ws[j] as int
    } else {
        wstay_of(ws)
    }
}

pub proof fn lemma_pstay_bounds(ws: Seq<u64>)
    requires
        forall|j: int| 0 <= j < ws.len() ==> ws[j] <= SCALE,
    ensures
        0 <= pstay_of(ws) <= SCALE,
    decreases ws.len(),
{
    if ws.len() > 0 {
        lemma_pstay_bounds(ws.drop_last());
        let p = pstay_of(ws.drop_last());
        let f = SCALE - ws.last();
        assert(0 <= f <= SCALE);
        assert(0 <= p * f <= SCALE * SCALE) by (nonlinear_arith)
            requires
                0 <= p <= SCALE,
                0 <= f <= SCALE,
        ;
        assert(p * f / (SCALE as int) <= SCALE) by (nonlinear_arith)
            requires
                p * f <= SCALE * SCALE,
                SCALE > 0,
        ;
        assert(p * f / (SCALE as int) >= 0) by (nonlinear_arith)
            requires
                p * f >= 0,
                SCALE > 0,
        ;
    }
}

/// With every hazard zero the stay probability is certain.
pub proof fn lemma_pstay_all_zero(ws: Seq<u64>)
    requires
        forall|j: int| 0 <= j < ws.len() ==> ws[j] == 0,
    ensures
        pstay_of(ws) == SCALE,
        wstay_of(ws) == SCALE,
    decreases ws.len(),
{
    if ws.len() > 0 {
        assert(forall|j: int| 0 <= j < ws.len() - 1 ==> ws.drop_last()[j] == ws[j]);
        lemma_pstay_all_zero(ws.drop_last());
        assert(ws.last() == ws[ws.len() - 1]);
        assert(pstay_of(ws) == (SCALE as int) * (SCALE as int) / (SCALE as int));
        assert((SCALE as int) * (SCALE as int) / (SCALE as int) == SCALE as int)
            by (nonlinear_arith);
    }
}

/// A certain hazard forbids staying: the stay weight collapses to zero.
pub proof fn lemma_no_stay_when_certain(ws: Seq<u64>, j: int)
    requires
        forall|i: int| 0 <= i < ws.len() ==> ws[i] <= SCALE,
        0 <= j < ws.len(),
        ws[j] == SCALE,
    ensures
        pstay_of(ws) == 0,
        wstay_of(ws) == 0,
    decreases ws.len(),
{
    lemma_sum64_bound(ws, SCALE as int);
    if j == ws.len() - 1 {
        lemma_pstay_bounds(ws.drop_last());
        assert(ws.last() == ws[ws.len() - 1]);
        let p = pstay_of(ws.drop_last());
        assert(pstay_of(ws) == p * 0 / (SCALE as int));
        assert(p * 0 == 0) by (nonlinear_arith);
    } else {
        assert(forall|i: int| 0 <= i < ws.len() - 1 ==> ws.drop_last()[i] == ws[i]);
        lemma_no_stay_when_certain(ws.drop_last(), j);
        let f = SCALE - ws.last();
        assert(pstay_of(ws) == 0 * f / (SCALE as int));
        assert(0 * f == 0) by (nonlinear_arith);
    }
    assert(pstay_of(ws) == 0);
    assert(wstay_of(ws) == 0 * sum64(ws) / (SCALE - 0));
    assert(0 * sum64(ws) == 0) by (nonlinear_arith);
}

/// Competing-hazards sampling: choose among `opts` where the first
/// `k - 1` weights are the raw per-day hazards and the last option is
/// "no transition", weighted so that the raw marginals keep their
/// share. A zero-weight option is never returned; with all hazards
/// zero the stay option is certain, and a certain hazard forbids
/// staying.
pub fn sample_state(rng: &mut SimRng, opts: &Vec<State>, weights: &Vec<u64>) -> (r: State)
    requires
        opts@.len() == weights@.len() + 1,
        // With more hazards the reweighted total could no longer fit
        // the draw's range: the stay weight reaches (SCALE - 1) times
        // the raw sum, so the total is bounded by len * SCALE * SCALE.
        weights@.len() <= 18,
        forall|j: int| 0 <= j < weights@.len() ==> weights@[j] <= SCALE,
    ensures
        exists|j: int|
            0 <= j < opts@.len() && r == #[trigger] opts@[j] && eff_weight(weights@, j) > 0,
{
    let k = weights.len();
    let mut p: u64 = SCALE;
    let mut i: usize = 0;
    while i < k
        invariant
            i <= k,
            k == weights@.len(),
            forall|j: int| 0 <= j < weights@.len() ==> weights@[j] <= SCALE,
            p == pstay_of(weights@.take(i as int)),
            0 <= p <= SCALE,
        decreases k - i,
    {
        let w = weights[i];
        proof {
            assert(p * ((SCALE - w) as u64) <= SCALE * SCALE) by (nonlinear_arith)
                requires
                    0 <= p <= SCALE,
                    0 <= (SCALE - w) as u64 <= SCALE,
            ;
            assert(weights@.take(i as int + 1).drop_last() =~= weights@.take(i as int));
            assert(weights@.take(i as int + 1).last() == weights@[i as int]);
            lemma_pstay_bounds(weights@.take(i as int + 1));
        }
        p = (p * (SCALE - w)) / SCALE;
        i += 1;
    }
    proof {
        assert(weights@.take(k as int) =~= weights@);
    }
    let mut wsum: u64 = 0;
    let mut i2: usize = 0;
    proof {
        lemma_sum64_bound(weights@, SCALE as int);
    }
    while i2 < k
        invariant
            i2 <= k,
            k == weights@.len(),
            forall|j: int| 0 <= j < weights@.len() ==> weights@[j] <= SCALE,
            wsum == sum64(weights@.take(i2 as int)),
            sum64(weights@) <= 18 * SCALE,
        decreases k - i2,
    {
        proof {
            assert(weights@.take(i2 as int + 1).drop_last() =~= weights@.take(i2 as int));
            assert(weights@.take(i2 as int + 1).last() == weights@[i2 as int]);
            crate::rng::lemma_sum64_prefix(weights@, i2 as int + 1);
        }
        wsum = wsum + weights[i2];
        i2 += 1;
    }
    proof {
        assert(weights@.take(k as int) =~= weights@);
    }
    let wstay: u64 = if p < SCALE {
        proof {
            assert(p * wsum <= SCALE * (18 * SCALE)) by (nonlinear_arith)
                requires
                    0 <= p <= SCALE,
                    0 <= wsum <= 18 * SCALE,
            ;
            assert((p * wsum) as int / (SCALE - p) <= p * wsum) by (nonlinear_arith)
                requires
                    p * wsum >= 0,
                    SCALE - p >= 1,
            ;
        }
        (p * wsum) / (SCALE - p)
    } else {
        p
    };
    proof {
        assert(wstay == wstay_of(weights@));
    }
    let mut all: Vec<u64> = Vec::new();
    let mut i3: usize = 0;
    while i3 < k
        invariant
            i3 <= k,
            k == weights@.len(),
            all@ =~= weights@.take(i3 as int),
        decreases k - i3,
    {
        all.push(weights[i3]);
        proof {
            assert(all@ =~= weights@.take(i3 as int + 1));
        }
        i3 += 1;
    }
    proof {
        assert(all@ =~= weights@);
    }
    all.push(wstay);
    proof {
        assert(all@.drop_last() =~= weights@);
        assert(sum64(all@) == sum64(weights@) + wstay);
        if wsum == 0 {
            lemma_sum64_zero(weights@);
            lemma_pstay_all_zero(weights@);
            assert(wstay == SCALE);
        }
        assert(sum64(all@) >= 1);
        assert(sum64(all@) <= 18 * SCALE + SCALE * (18 * SCALE));
    }
    let j = rng.categorical(&all);
    proof {
        assert(all@[j as int] == eff_weight(weights@, j as int));
    }
    opts[j]
}

} // verus!
