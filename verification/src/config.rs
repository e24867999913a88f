use vstd::prelude::*;

use crate::rng::sum64;
use crate::SCALE;

verus! {

/// Simulation configuration. Hazard profiles and coefficients are
/// fixed-point fractions of `SCALE` (an empty profile means "always
/// zero"); contact coefficients may exceed `SCALE`.
pub struct Config {
    pub susceptible_infected_profile: Vec<u64>,
    pub infected_detected_profile: Vec<u64>,
    pub infected_severe_profile: Vec<u64>,
    pub infected_immune_profile: Vec<u64>,
    pub severe_immune_profile: Vec<u64>,
    pub severe_dead_profile: Vec<u64>,
    pub immune_susceptible_profile: Vec<u64>,
    pub initial_outbreak_size: usize,
    pub total_population: usize,
    pub hospital_capacity: usize,
    pub family_sizes: Vec<usize>,
    pub family_size_weights: Vec<u64>,
    pub family_contact_undetected_coef: u64,
    pub family_contact_detected_coef: u64,
    pub average_workplace_size: usize,
    pub workplace_connectivity: u64,
    pub workplace_contact_undetected_coef: u64,
    pub workplace_contact_detected_coef: u64,
    pub average_world_connections: u64,
    pub world_contact_undetected_coef: u64,
    pub world_contact_detected_coef: u64,
}

/// A hazard profile is a sequence of probabilities.
pub open spec fn profile_ok(p: Seq<u64>) -> bool {
    forall|i: int| 0 <= i < p.len() ==> p[i] <= SCALE
}

impl Config {
    /// What construction accepts: a nonempty population, weighted
    /// nonempty family sizes of at least one member each, probability
    /// entries no greater than one.
    pub open spec fn valid(&self) -> bool {
        &&& self.total_population >= 1
        &&& self.average_workplace_size >= 1
        &&& self.family_sizes@.len() >= 1
        &&& self.family_sizes@.len() == self.family_size_weights@.len()
        &&& forall|i: int|
            0 <= i < self.family_sizes@.len() ==> 1 <= #[trigger] self.family_sizes@[i]
                <= usize::MAX - self.total_population
        &&& 1 <= sum64(self.family_size_weights@) <= u64::MAX
        &&& profile_ok(self.susceptible_infected_profile@)
        &&& profile_ok(self.infected_detected_profile@)
        &&& profile_ok(self.infected_severe_profile@)
        &&& profile_ok(self.infected_immune_profile@)
        &&& profile_ok(self.severe_immune_profile@)
        &&& profile_ok(self.severe_dead_profile@)
        &&& profile_ok(self.immune_susceptible_profile@)
        &&& self.workplace_connectivity <= SCALE
    }

    /// Number of workplaces: population spread over the average size,
    /// never fewer than one.
    pub open spec fn nworkplaces_spec(&self) -> int {
        let w = self.total_population as int / self.average_workplace_size as int;
        if w >= 1 {
            w
        } else {
            1
        }
    }

    pub fn nworkplaces(&self) -> (r: usize)
        requires
            self.average_workplace_size >= 1,
        ensures
            r == self.nworkplaces_spec(),
            r >= 1,
    {
        let w = self.total_population / self.average_workplace_size;
        if w >= 1 {
            w
        } else {
            1
        }
    }

    /// The built-in configuration the host starts from.
    pub fn default_config() -> (r: Config)
        ensures
            r.valid(),
            r.initial_outbreak_size == 20,
            r.total_population == 300_000,
            r.hospital_capacity == 2_000,
            r.average_workplace_size == 15,
            r.workplace_connectivity == 800_000_000,
            r.family_contact_undetected_coef == SCALE,
            r.family_contact_detected_coef == 300_000_000,
            r.workplace_contact_undetected_coef == 700_000_000,
            r.workplace_contact_detected_coef == 50_000_000,
            r.average_world_connections == 50,
            r.world_contact_undetected_coef == 150_000_000,
            r.world_contact_detected_coef == 10_000_000,
            r.family_sizes@ == seq![1usize, 2, 3, 4, 5],
            r.family_size_weights@ == seq![255u64, 304, 208, 175, 57],
            r.susceptible_infected_profile@.len() == 18,
            r.susceptible_infected_profile@[0] == 0,
            r.susceptible_infected_profile@[1] == 7_000_000,
            r.susceptible_infected_profile@[17] == 750_000,
            r.infected_detected_profile@.len() == 18,
            r.infected_detected_profile@[10] == 150_000_000,
            r.infected_severe_profile@.len() == 14,
            r.infected_severe_profile@[10] == 50_000_000,
            r.infected_immune_profile@.len() == 15,
            r.infected_immune_profile@[14] == 700_000_000,
            r.severe_immune_profile@.len() == 10,
            r.severe_immune_profile@[9] == 100_000_000,
            r.severe_dead_profile@.len() == 7,
            r.severe_dead_profile@[6] == 50_000_000,
            r.immune_susceptible_profile@.len() == 30,
            r.immune_susceptible_profile@[29] == 1_897_230,
            forall|k: int|
                0 <= k < 29 ==> r.immune_susceptible_profile@[k] == 0,
    {
        let susceptible_infected_profile: Vec<u64> = vec![
            0,
            7_000_000,
            15_000_000,
            35_000_000,
            35_000_000,
            35_000_000,
            50_000_000,
            50_000_000,
            50_000_000,
            35_000_000,
            35_000_000,
            35_000_000,
            35_000_000,
            15_000_000,
            7_500_000,
            3_500_000,
            2_500_000,
            750_000,
        ];
        let infected_detected_profile: Vec<u64> = vec![
            0,
            0,
            0,
            10_000_000,
            20_000_000,
            30_000_000,
            50_000_000,
            70_000_000,
            100_000_000,
            100_000_000,
            150_000_000,
            100_000_000,
            100_000_000,
            100_000_000,
            70_000_000,
            50_000_000,
            20_000_000,
            10_000_000,
        ];
        let infected_severe_profile: Vec<u64> = vec![
            0,
            0,
            0,
            0,
            0,
            0,
            0,
            0,
            10_000_000,
            20_000_000,
            50_000_000,
            30_000_000,
            20_000_000,
            10_000_000,
        ];
        let infected_immune_profile: Vec<u64> = vec![
            0,
            0,
            0,
            0,
            0,
            0,
            0,
            0,
            0,
            50_000_000,
            100_000_000,
            200_000_000,
            300_000_000,
            500_000_000,
            700_000_000,
        ];
        let severe_dead_profile: Vec<u64> = vec![
            0,
            0,
            0,
            10_000_000,
            10_000_000,
            20_000_000,
            50_000_000,
        ];
        let severe_immune_profile: Vec<u64> = vec![
            0,
            0,
            0,
            0,
            0,
            0,
            30_000_000,
            40_000_000,
            70_000_000,
            100_000_000,
        ];
        let mut immune_susceptible_profile: Vec<u64> = Vec::new();
        let mut i: usize = 0;
        while i < 29
            invariant
                i <= 29,
                immune_susceptible_profile@.len() == i,
                forall|k: int| 0 <= k < i ==> immune_susceptible_profile@[k] == 0,
            decreases 29 - i,
        {
            immune_susceptible_profile.push(0);
            i += 1;
        }
        immune_susceptible_profile.push(1_897_230);
        let family_sizes: Vec<usize> = vec![1, 2, 3, 4, 5];
        let family_size_weights: Vec<u64> = vec![255, 304, 208, 175, 57];
        proof {
            reveal_weights(family_size_weights@);
            assert(family_sizes@ =~= seq![1usize, 2, 3, 4, 5]);
            assert(family_size_weights@ =~= seq![255u64, 304, 208, 175, 57]);
        }
        Config {
            susceptible_infected_profile,
            infected_detected_profile,
            infected_severe_profile,
            infected_immune_profile,
            severe_immune_profile,
            severe_dead_profile,
            immune_susceptible_profile,
            initial_outbreak_size: 20,
            total_population: 300_000,
            hospital_capacity: 2_000,
            family_sizes,
            family_size_weights,
            family_contact_undetected_coef: SCALE,
            family_contact_detected_coef: 300_000_000,
            average_workplace_size: 15,
            workplace_connectivity: 800_000_000,
            workplace_contact_undetected_coef: 700_000_000,
            workplace_contact_detected_coef: 50_000_000,
            average_world_connections: 50,
            world_contact_undetected_coef: 150_000_000,
            world_contact_detected_coef: 10_000_000,
        }
    }
}

proof fn reveal_weights(w: Seq<u64>)
    requires
        w.len() == 5,
    ensures
        sum64(w) == w[0] + w[1] + w[2] + w[3] + w[4],
{
    assert(sum64(w) == sum64(w.drop_last()) + w[4]);
    assert(sum64(w.drop_last()) == sum64(w.drop_last().drop_last()) + w[3]);
    assert(w.drop_last()[3] == w[3]);
    assert(sum64(w.drop_last().drop_last()) == sum64(w.drop_last().drop_last().drop_last())
        + w[2]);
    assert(w.drop_last().drop_last()[2] == w[2]);
    assert(sum64(w.drop_last().drop_last().drop_last()) == sum64(
        w.drop_last().drop_last().drop_last().drop_last(),
    ) + w[1]);
    assert(w.drop_last().drop_last().drop_last()[1] == w[1]);
    let w0 = w.drop_last().drop_last().drop_last().drop_last();
    assert(w0.len() == 1);
    assert(sum64(w0) == sum64(w0.drop_last()) + w[0]);
    assert(w0[0] == w[0]);
    assert(w0.drop_last().len() == 0);
}


/// Checks one profile's entries against `SCALE`.
fn check_profile(p: &Vec<u64>) -> (b: bool)
    ensures
        b == profile_ok(p@),
{
    let n = p.len();
    let mut i: usize = 0;
    while i < n
        invariant
            i <= n,
            n == p@.len(),
            forall|k: int| 0 <= k < i ==> p@[k] <= SCALE,
        decreases n - i,
    {
        if p[i] > SCALE {
            return false;
        }
        i += 1;
    }
    true
}

impl Config {
    /// Exactly the conditions construction accepts.
    pub fn check_valid(&self) -> (b: bool)
        ensures
            b == self.valid(),
    {
        if self.total_population < 1 {
            return false;
        }
        if self.average_workplace_size < 1 {
            return false;
        }
        if self.family_sizes.len() < 1 {
            return false;
        }
        if self.family_sizes.len() != self.family_size_weights.len() {
            return false;
        }
        let n = self.family_sizes.len();
        let mut i: usize = 0;
        while i < n
            invariant
                i <= n,
                n == self.family_sizes@.len(),
                self.total_population >= 1,
                forall|k: int|
                    0 <= k < i ==> 1 <= #[trigger] self.family_sizes@[k] <= usize::MAX
                        - self.total_population,
            decreases n - i,
        {
            let fs = self.family_sizes[i];
            if fs < 1 || fs > usize::MAX - self.total_population {
                return false;
            }
            i += 1;
        }
        let wn = self.family_size_weights.len();
        let mut acc: u64 = 0;
        let mut j: usize = 0;
        while j < wn
            invariant
                j <= wn,
                wn == self.family_size_weights@.len(),
                acc == sum64(self.family_size_weights@.take(j as int)),
            decreases wn - j,
        {
            let w = self.family_size_weights[j];
            proof {
                assert(self.family_size_weights@.take(j as int + 1).drop_last()
                    =~= self.family_size_weights@.take(j as int));
                assert(self.family_size_weights@.take(j as int + 1).last()
                    == self.family_size_weights@[j as int]);
            }
            if w > u64::MAX - acc {
                proof {
                    lemma_sum_tail_ge(self.family_size_weights@, j as int + 1);
                }
                return false;
            }
            acc = acc + w;
            j += 1;
        }
        proof {
            assert(self.family_size_weights@.take(wn as int) =~= self.family_size_weights@);
        }
        if acc < 1 {
            return false;
        }
        if !check_profile(&self.susceptible_infected_profile) {
            return false;
        }
        if !check_profile(&self.infected_detected_profile) {
            return false;
        }
        if !check_profile(&self.infected_severe_profile) {
            return false;
        }
        if !check_profile(&self.infected_immune_profile) {
            return false;
        }
        if !check_profile(&self.severe_immune_profile) {
            return false;
        }
        if !check_profile(&self.severe_dead_profile) {
            return false;
        }
        if !check_profile(&self.immune_susceptible_profile) {
            return false;
        }
        if self.workplace_connectivity > SCALE {
            return false;
        }
        true
    }
}

/// Weights never shrink a sum: a prefix bounds the whole from below.
proof fn lemma_sum_tail_ge(ws: Seq<u64>, i: int)
    requires
        0 <= i <= ws.len(),
    ensures
        sum64(ws) >= sum64(ws.take(i)),
    decreases ws.len() - i,
{
    if i < ws.len() {
        lemma_sum_tail_ge(ws, i + 1);
        assert(ws.take(i + 1).drop_last() =~= ws.take(i));
        assert(ws.take(i + 1).last() == ws[i]);
    } else {
        assert(ws.take(i) =~= ws);
    }
}

} // verus!
