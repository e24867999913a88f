use vstd::prelude::*;

use crate::averager::Averager;
use crate::config::Config;
use crate::counter::{abs_after, census, day_after, Counter, NSTATES};
use crate::graph::Graph;
use crate::rng::SimRng;
use crate::sample::sample_state;
use crate::state::{age_of, idx_of, scan_step, tick_step, State};
use crate::testqueue::TestQueue;
use crate::{sat_index, sat_index_spec, SCALE};

verus! {

/// Effective infection probability of one contact: the layer
/// coefficient times the hazard read from the profile, saturating at
/// the largest representable fraction.
pub open spec fn coef_mul(c: u64, h: u64) -> int {
    let v = (c * h) as int / (SCALE as int);
    if v > u64::MAX {
        u64::MAX as int
    } else {
        v
    }
}

pub fn scaled_coef(c: u64, h: u64) -> (r: u64)
    ensures
        r == coef_mul(c, h),
{
    proof {
        assert((c as u128) * (h as u128) <= u128::MAX) by (nonlinear_arith)
            requires
                c <= u64::MAX,
                h <= u64::MAX,
        ;
    }
    let v: u128 = (c as u128) * (h as u128) / (SCALE as u128);
    if v > u64::MAX as u128 {
        u64::MAX
    } else {
        v as u64
    }
}

/// Hazard with which a source in state `s` infects over a layer with
/// the given coefficients, by the source's age of state.
pub open spec fn layer_hazard(coef_inf: u64, coef_det: u64, profile: Seq<u64>, s: State) -> int {
    match s {
        State::Infected(t) => coef_mul(coef_inf, sat_index_spec(profile, t as int)),
        State::Detected(t) => coef_mul(coef_det, sat_index_spec(profile, t as int)),
        _ => 0,
    }
}

/// The per-tick, per-agent simulation engine: population, contact
/// layers, census counters, tracing queue and the configuration that
/// drives the hazards.
pub struct Simulation {
    pub family_graph: Graph,
    pub workplace_graph: Graph,
    pub world_graph: Graph,
    pub counter: Counter,
    pub states: Vec<State>,
    pub worker_workplaces: Vec<usize>,
    pub infections_caused: Vec<usize>,
    pub r_average: Averager,
    pub serial_interval_average: Averager,
    pub last_disabled_workplace: usize,
    pub config: Config,
    pub max_daily_tests: usize,
    pub test_queue: TestQueue,
    pub time: usize,
    pub rng: SimRng,
}

/// Profiles the engine indexes must not be empty (an empty profile is
/// normalized to a single zero at construction).
pub open spec fn profiles_ready(c: Config) -> bool {
    &&& c.susceptible_infected_profile@.len() >= 1
    &&& c.infected_detected_profile@.len() >= 1
    &&& c.infected_severe_profile@.len() >= 1
    &&& c.infected_immune_profile@.len() >= 1
    &&& c.severe_immune_profile@.len() >= 1
    &&& c.severe_dead_profile@.len() >= 1
    &&& c.immune_susceptible_profile@.len() >= 1
}

impl Simulation {
    pub open spec fn n(&self) -> int {
        self.states@.len() as int
    }

    /// The parts of well-formedness that every per-agent step needs.
    pub open spec fn ctx(&self) -> bool {
        &&& self.config.valid()
        &&& profiles_ready(self.config)
        &&& self.family_graph.wf() && self.family_graph.n() == self.n()
        &&& self.workplace_graph.wf() && self.workplace_graph.n() == self.n()
        &&& self.world_graph.wf() && self.world_graph.n() == self.n()
        &&& self.worker_workplaces@.len() == self.n()
        &&& self.infections_caused@.len() == self.n()
        &&& self.counter.wf()
        &&& self.test_queue.wf()
        &&& forall|x: int| self.test_queue.queued(x) ==> 0 <= x < self.n()
    }

    /// Full well-formedness: the context, a counter that mirrors the
    /// census, and ages that never outrun the clock.
    pub open spec fn wf(&self) -> bool {
        &&& self.ctx()
        &&& forall|k: int| 0 <= k < NSTATES ==> self.counter.abs()[k] == census(self.states@, k)
        &&& forall|i: int| 0 <= i < self.n() ==> age_of(#[trigger] self.states@[i]) <= self.time
    }

    pub fn get_time(&self) -> (r: usize)
        ensures
            r == self.time,
    {
        self.time
    }

    pub fn get_hospital_capacity(&self) -> (r: usize)
        ensures
            r == self.config.hospital_capacity,
    {
        self.config.hospital_capacity
    }

    /// Census snapshot: per-state totals and today's inflows.
    pub fn get_counter(&self) -> (r: Counter)
        requires
            self.counter.wf(),
        ensures
            r.abs() == self.counter.abs(),
            r.day() == self.counter.day(),
            r.wf(),
    {
        self.counter.snapshot()
    }

    /// Mean secondary infections credited to agents who left the
    /// infectious states this tick, as an exact sum/count pair.
    pub fn get_daily_r(&self) -> (r: (u64, usize))
        ensures
            r.0 == self.r_average.sum,
            r.1 == self.r_average.count,
    {
        self.r_average.get()
    }

    /// Mean serial interval of today's infection events, as an exact
    /// sum/count pair.
    pub fn get_daily_serial_interval(&self) -> (r: (u64, usize))
        ensures
            r.0 == self.serial_interval_average.sum,
            r.1 == self.serial_interval_average.count,
    {
        self.serial_interval_average.get()
    }

    /// Hospitals can take nobody when the severe census has reached
    /// capacity.
    pub fn hospitals_full(&self) -> (r: bool)
        requires
            self.counter.wf(),
        ensures
            r == (self.counter.abs()[3] >= self.config.hospital_capacity),
    {
        self.counter.state_count(State::Severe(0)) >= self.config.hospital_capacity
    }

    /// Agents whose workplace id falls below `floor(f * W)` skip the
    /// workplace layer in contagion; `f_ppb` is a fraction of `SCALE`.
    pub fn disable_fraction_of_workplaces(&mut self, f_ppb: u64)
        requires
            old(self).wf(),
        ensures
            final(self).wf(),
            final(self).last_disabled_workplace == disabled_cutoff(
                f_ppb,
                old(self).config.nworkplaces_spec(),
            ),
            *final(self) == (Simulation {
                last_disabled_workplace: final(self).last_disabled_workplace,
                ..*old(self)
            }),
    {
        let w = self.config.nworkplaces();
        proof {
            assert((f_ppb as u128) * (w as u128) <= u128::MAX) by (nonlinear_arith)
                requires
                    f_ppb <= u64::MAX,
                    w <= usize::MAX,
                    usize::MAX <= u64::MAX,
            ;
        }
        let v: u128 = (f_ppb as u128) * (w as u128) / (SCALE as u128);
        self.last_disabled_workplace = if v > usize::MAX as u128 {
            usize::MAX
        } else {
            v as usize
        };
    }

    /// Scales the undetected world-contact coefficient; cumulative
    /// across calls.
    pub fn multiply_world_infectability(&mut self, c_ppb: u64)
        requires
            old(self).wf(),
        ensures
            final(self).wf(),
            final(self).config.world_contact_undetected_coef == coef_mul(
                old(self).config.world_contact_undetected_coef,
                c_ppb,
            ),
            *final(self) == (Simulation {
                config: final(self).config,
                ..*old(self)
            }),
            final(self).config == (Config {
                world_contact_undetected_coef: final(self).config.world_contact_undetected_coef,
                ..old(self).config
            }),
    {
        self.config.world_contact_undetected_coef = scaled_coef(
            self.config.world_contact_undetected_coef,
            c_ppb,
        );
    }

    /// Scales the undetected workplace-contact coefficient; cumulative
    /// across calls.
    pub fn multiply_workplace_infectability(&mut self, c_ppb: u64)
        requires
            old(self).wf(),
        ensures
            final(self).wf(),
            final(self).config.workplace_contact_undetected_coef == coef_mul(
                old(self).config.workplace_contact_undetected_coef,
                c_ppb,
            ),
            *final(self) == (Simulation {
                config: final(self).config,
                ..*old(self)
            }),
            final(self).config == (Config {
                workplace_contact_undetected_coef:
                    final(self).config.workplace_contact_undetected_coef,
                ..old(self).config
            }),
    {
        self.config.workplace_contact_undetected_coef = scaled_coef(
            self.config.workplace_contact_undetected_coef,
            c_ppb,
        );
    }

    /// Sets the daily test cap and sizes the tracing queue to three
    /// days of capacity.
    pub fn set_max_contact_tracing(&mut self, max: usize)
        requires
            old(self).wf(),
            max <= usize::MAX / 3,
        ensures
            final(self).wf(),
            final(self).max_daily_tests == max,
            final(self).test_queue.maxsize == 3 * max,
            final(self).test_queue.family_queue == old(self).test_queue.family_queue,
            final(self).test_queue.workplace_queue == old(self).test_queue.workplace_queue,
            final(self).test_queue.world_queue == old(self).test_queue.world_queue,
            final(self).test_queue.recently_tested == old(self).test_queue.recently_tested,
            *final(self) == (Simulation {
                max_daily_tests: max,
                test_queue: final(self).test_queue,
                ..*old(self)
            }),
    {
        let ghost pre = *self;
        self.test_queue.maxsize = max * 3;
        self.max_daily_tests = max;
        proof {
            assert(self.test_queue == (TestQueue { maxsize: (max * 3) as usize, ..pre.test_queue }));
            assert(self.states@ == pre.states@);
            assert forall|x: int| self.test_queue.queued(x) implies 0 <= x < self.n() by {
                assert(pre.test_queue.queued(x));
            }
        }
    }
}

/// Cutoff for workplace disabling: `floor(f * W)` saturated to the
/// machine range.
pub open spec fn disabled_cutoff(f_ppb: u64, w: int) -> int {
    let v = (f_ppb * w) as int / (SCALE as int);
    if v > usize::MAX {
        usize::MAX as int
    } else {
        v
    }
}


/// What one per-agent step may touch: it never moves another agent,
/// never edits the graphs, the configuration or the clock, and only
/// ever adds in-range agents to the tracing queue.
pub open spec fn scan_frame(pre: Simulation, post: Simulation) -> bool {
    &&& post.states@ == pre.states@
    &&& post.family_graph == pre.family_graph
    &&& post.workplace_graph == pre.workplace_graph
    &&& post.world_graph == pre.world_graph
    &&& post.config == pre.config
    &&& post.worker_workplaces == pre.worker_workplaces
    &&& post.time == pre.time
    &&& post.max_daily_tests == pre.max_daily_tests
    &&& post.last_disabled_workplace == pre.last_disabled_workplace
    &&& post.infections_caused@.len() == pre.infections_caused@.len()
    &&& post.test_queue.recently_tested == pre.test_queue.recently_tested
    &&& post.test_queue.maxsize == pre.test_queue.maxsize
}

/// A neighbor that can infect agent `i` in this configuration: an
/// infectious agent connected over a layer that is active for `i`,
/// with a positive effective hazard.
pub open spec fn exposure(sim: Simulation, i: int, j: int) -> bool {
    ||| (sim.family_graph.edge(i, j) && layer_hazard(
        sim.config.family_contact_undetected_coef,
        sim.config.family_contact_detected_coef,
        sim.config.susceptible_infected_profile@,
        sim.states@[j],
    ) > 0)
    ||| (sim.worker_workplaces@[i] >= sim.last_disabled_workplace && sim.workplace_graph.edge(i, j)
        && layer_hazard(
        sim.config.workplace_contact_undetected_coef,
        sim.config.workplace_contact_detected_coef,
        sim.config.susceptible_infected_profile@,
        sim.states@[j],
    ) > 0)
    ||| (sim.world_graph.edge(i, j) && layer_hazard(
        sim.config.world_contact_undetected_coef,
        sim.config.world_contact_detected_coef,
        sim.config.susceptible_infected_profile@,
        sim.states@[j],
    ) > 0)
}

/// A contact that cannot fail: an infectious neighbor over an active
/// layer whose effective hazard has reached certainty.
pub open spec fn certain_layer(sim: Simulation, layer: int, i: int, j: int) -> bool {
    &&& layer_edge(sim, layer, i, j)
    &&& (layer == 1 ==> sim.worker_workplaces@[i] >= sim.last_disabled_workplace)
    &&& layer_hazard(
        layer_coef_inf(sim, layer),
        layer_coef_det(sim, layer),
        sim.config.susceptible_infected_profile@,
        sim.states@[j],
    ) >= SCALE
}

pub open spec fn certain_exposure(sim: Simulation, i: int, j: int) -> bool {
    certain_layer(sim, 0, i, j) || certain_layer(sim, 1, i, j) || certain_layer(sim, 2, i, j)
}

/// The saturating credit of one more secondary infection.
pub open spec fn credited(v: Seq<usize>, j: int) -> Seq<usize> {
    if v[j] < usize::MAX {
        v.update(j, (v[j] + 1) as usize)
    } else {
        v
    }
}

/// The bookkeeping of one infection event with source `j`: the source
/// is credited one secondary infection and the source's age of state
/// enters the serial-interval meter (both saturating).
pub open spec fn infection_credit(pre: Simulation, post: Simulation, j: int) -> bool {
    &&& post.infections_caused@ == credited(pre.infections_caused@, j)
    &&& post.serial_interval_average.sum == (if pre.serial_interval_average.sum + age_of(
        pre.states@[j],
    ) <= u64::MAX {
        (pre.serial_interval_average.sum + age_of(pre.states@[j])) as u64
    } else {
        u64::MAX
    })
    &&& post.serial_interval_average.count == (if pre.serial_interval_average.count < usize::MAX {
        (pre.serial_interval_average.count + 1) as usize
    } else {
        usize::MAX
    })
}

/// The full stored neighborhood of one agent on one layer.
pub open spec fn nbrs_of(g: Graph, i: int) -> Seq<usize> {
    g.left(i) + g.right(i)
}

/// The family layer of the tracing queue has room for agent `i`'s
/// whole family neighborhood.
pub open spec fn family_room(sim: Simulation, i: int) -> bool {
    sim.test_queue.family_queue.total() + nbrs_of(sim.family_graph, i).len()
        <= sim.test_queue.maxsize
}

/// Room for the workplace neighborhood too, on top of the family one.
pub open spec fn workplace_room(sim: Simulation, i: int) -> bool {
    &&& family_room(sim, i)
    &&& sim.test_queue.family_queue.total() + nbrs_of(sim.family_graph, i).len()
        + sim.test_queue.workplace_queue.total() + nbrs_of(sim.workplace_graph, i).len()
        <= sim.test_queue.maxsize
}

/// Room for all three neighborhoods.
pub open spec fn world_room(sim: Simulation, i: int) -> bool {
    &&& workplace_room(sim, i)
    &&& sim.test_queue.family_queue.total() + nbrs_of(sim.family_graph, i).len()
        + sim.test_queue.workplace_queue.total() + nbrs_of(sim.workplace_graph, i).len()
        + sim.test_queue.world_queue.total() + nbrs_of(sim.world_graph, i).len()
        <= sim.test_queue.maxsize
}

/// What tracing a detected agent `i` guarantees: whenever a layer has
/// room for `i`'s whole neighborhood on it, every neighbor there that
/// is not recently tested (nor already held by a higher layer) is
/// queued afterwards.
pub open spec fn traced_enqueued(pre: Simulation, post: Simulation, i: int) -> bool {
    &&& family_room(pre, i) ==> forall|a: int|
        0 <= a < nbrs_of(pre.family_graph, i).len() && !pre.test_queue.recently_tested.has(
            #[trigger] nbrs_of(pre.family_graph, i)[a] as int,
        ) ==> post.test_queue.family_queue.has(nbrs_of(pre.family_graph, i)[a] as int)
    &&& workplace_room(pre, i) ==> forall|a: int|
        0 <= a < nbrs_of(pre.workplace_graph, i).len() && !pre.test_queue.recently_tested.has(
            #[trigger] nbrs_of(pre.workplace_graph, i)[a] as int,
        ) && !post.test_queue.family_queue.has(nbrs_of(pre.workplace_graph, i)[a] as int)
        ==> post.test_queue.workplace_queue.has(nbrs_of(pre.workplace_graph, i)[a] as int)
    &&& world_room(pre, i) ==> forall|a: int|
        0 <= a < nbrs_of(pre.world_graph, i).len() && !pre.test_queue.recently_tested.has(
            #[trigger] nbrs_of(pre.world_graph, i)[a] as int,
        ) && !post.test_queue.family_queue.has(nbrs_of(pre.world_graph, i)[a] as int)
        && !post.test_queue.workplace_queue.has(nbrs_of(pre.world_graph, i)[a] as int)
        ==> post.test_queue.world_queue.has(nbrs_of(pre.world_graph, i)[a] as int)
}

/// The bookkeeping of one exit from the infectious states: the agent's
/// secondary-infection count enters the reproduction meter
/// (saturating) and is reset.
pub open spec fn exit_credit(pre: Simulation, post: Simulation, i: int) -> bool {
    &&& post.infections_caused@ == pre.infections_caused@.update(i, 0usize)
    &&& post.r_average.sum == (if pre.r_average.sum + pre.infections_caused@[i] <= u64::MAX {
        (pre.r_average.sum + pre.infections_caused@[i]) as u64
    } else {
        u64::MAX
    })
    &&& post.r_average.count == (if pre.r_average.count < usize::MAX {
        (pre.r_average.count + 1) as usize
    } else {
        usize::MAX
    })
}

impl Simulation {
    /// One contagion pass over one layer for susceptible agent `i`:
    /// draws one trial per infectious neighbor and, on the first
    /// success, moves `i` to `Infected(0)`, credits the source and
    /// records the serial interval.
    fn expose_layer(&mut self, i: usize, layer: usize) -> (hit: bool)
        requires
            old(self).ctx(),
            i < old(self).n(),
            layer < 3,
            old(self).counter.abs()[0] >= 1,
            old(self).counter.abs()[1] < usize::MAX,
            old(self).counter.day()[1] < u128::MAX,
        ensures
            final(self).ctx(),
            scan_frame(*old(self), *final(self)),
            final(self).test_queue == old(self).test_queue,
            final(self).r_average == old(self).r_average,
            !hit ==> final(self).counter == old(self).counter,
            !hit ==> final(self).infections_caused == old(self).infections_caused
                && final(self).serial_interval_average == old(self).serial_interval_average,
            !hit ==> forall|j: int| !certain_layer(*old(self), layer as int, i as int, j),
            hit ==> final(self).counter.abs() == abs_after(old(self).counter.abs(), 0, 1)
                && final(self).counter.day() == day_after(old(self).counter.day(), 0, 1),
            hit ==> exists|j: int|
                0 <= j < old(self).n() && #[trigger] exposure(*old(self), i as int, j)
                    && infection_credit(*old(self), *final(self), j),
    {
        if layer == 1 && self.worker_workplaces[i] < self.last_disabled_workplace {
            return false;
        }
        let nbrs = if layer == 0 {
            self.family_graph.neighbors(i)
        } else if layer == 1 {
            self.workplace_graph.neighbors(i)
        } else {
            self.world_graph.neighbors(i)
        };
        let (coef_inf, coef_det) = if layer == 0 {
            (self.config.family_contact_undetected_coef, self.config.family_contact_detected_coef)
        } else if layer == 1 {
            (
                self.config.workplace_contact_undetected_coef,
                self.config.workplace_contact_detected_coef,
            )
        } else {
            (self.config.world_contact_undetected_coef, self.config.world_contact_detected_coef)
        };
        let nn = nbrs.len();
        let mut k: usize = 0;
        while k < nn
            invariant
                self.states == old(self).states,
                self.counter == old(self).counter,
                self.infections_caused == old(self).infections_caused,
                self.serial_interval_average == old(self).serial_interval_average,
                self.r_average == old(self).r_average,
                self.family_graph == old(self).family_graph,
                self.workplace_graph == old(self).workplace_graph,
                self.world_graph == old(self).world_graph,
                self.config == old(self).config,
                self.worker_workplaces == old(self).worker_workplaces,
                self.time == old(self).time,
                self.max_daily_tests == old(self).max_daily_tests,
                self.last_disabled_workplace == old(self).last_disabled_workplace,
                self.test_queue == old(self).test_queue,
                old(self).ctx(),
                i < old(self).n(),
                layer < 3,
                old(self).counter.abs()[0] >= 1,
                old(self).counter.abs()[1] < usize::MAX,
                old(self).counter.day()[1] < u128::MAX,
                k <= nn,
                nn == nbrs@.len(),
                layer == 1 ==> old(self).worker_workplaces@[i as int] >= old(
                    self,
                ).last_disabled_workplace,
                coef_inf == layer_coef_inf(*old(self), layer as int),
                coef_det == layer_coef_det(*old(self), layer as int),
                forall|a: int|
                    0 <= a < nbrs@.len() ==> #[trigger] nbrs@[a] < old(self).n()
                        && layer_edge(*old(self), layer as int, i as int, nbrs@[a] as int),
                nbrs@ == layer_left(*old(self), layer as int, i as int) + layer_right(
                    *old(self),
                    layer as int,
                    i as int,
                ),
                forall|a: int|
                    0 <= a < k ==> layer_hazard(
                        coef_inf,
                        coef_det,
                        old(self).config.susceptible_infected_profile@,
                        old(self).states@[#[trigger] nbrs@[a] as int],
                    ) < SCALE,
            decreases nn - k,
        {
            let nb = nbrs[k];
            let cs = self.states[nb];
            let (coef, age, infectious) = match cs {
                State::Infected(tt) => (coef_inf, tt, true),
                State::Detected(tt) => (coef_det, tt, false),
                _ => (0u64, 0usize, false),
            };
            if matches!(cs, State::Infected(_) | State::Detected(_)) {
                let h = sat_index(&self.config.susceptible_infected_profile, age);
                let p = scaled_coef(coef, h);
                if self.rng.bernoulli(p) {
                    proof {
                        assert(p > 0);
                        let jj = nbrs@[k as int] as int;
                        assert(layer_edge(*old(self), layer as int, i as int, jj));
                        assert(layer_hazard(
                            coef_inf,
                            coef_det,
                            old(self).config.susceptible_infected_profile@,
                            old(self).states@[jj],
                        ) > 0);
                        assert(exposure(*old(self), i as int, jj));
                    }
                    let ghost icpre = self.infections_caused@;
                    let cur = self.infections_caused[nb];
                    if cur < usize::MAX {
                        self.infections_caused[nb] = cur + 1;
                    }
                    proof {
                        assert(self.infections_caused@ =~= credited(icpre, nbrs@[k as int] as int));
                        assert(age_of(old(self).states@[nbrs@[k as int] as int]) == age as int);
                    }
                    self.serial_interval_average.push(age as u64);
                    self.counter.transit(State::Susceptible, State::Infected(0));
                    return true;
                }
            }
            k += 1;
        }
        proof {
            assert forall|j: int| !certain_layer(*old(self), layer as int, i as int, j) by {
                if certain_layer(*old(self), layer as int, i as int, j) {
                    let le = layer_left(*old(self), layer as int, i as int);
                    let ri = layer_right(*old(self), layer as int, i as int);
                    if j < i {
                        let a = choose|a: int| 0 <= a < le.len() && le[a] == j;
                        assert(nbrs@[a] == j);
                    } else {
                        let a = choose|a: int| 0 <= a < ri.len() && ri[a] == j;
                        assert(nbrs@[le.len() + a] == j);
                    }
                }
            }
        }
        false
    }

    /// Computes the successor of susceptible agent `i`: the layers are
    /// tried in order family, workplace, world, and the first
    /// successful draw infects. Infection needs an infectious neighbor
    /// on an active layer with a positive hazard.
    fn get_infected(&mut self, i: usize) -> (ns: State)
        requires
            old(self).ctx(),
            i < old(self).n(),
            old(self).counter.abs()[0] >= 1,
            old(self).counter.abs()[1] < usize::MAX,
            old(self).counter.day()[1] < u128::MAX,
        ensures
            final(self).ctx(),
            scan_frame(*old(self), *final(self)),
            final(self).test_queue == old(self).test_queue,
            final(self).r_average == old(self).r_average,
            ns == State::Susceptible || ns == State::Infected(0usize),
            ns == State::Susceptible ==> final(self).counter == old(self).counter
                && final(self).infections_caused == old(self).infections_caused
                && final(self).serial_interval_average == old(self).serial_interval_average,
            ns == State::Infected(0usize) ==> final(self).counter.abs() == abs_after(
                old(self).counter.abs(),
                0,
                1,
            ) && final(self).counter.day() == day_after(old(self).counter.day(), 0, 1),
            ns == State::Infected(0usize) ==> exists|j: int|
                0 <= j < old(self).n() && #[trigger] exposure(*old(self), i as int, j)
                    && infection_credit(*old(self), *final(self), j),
            (exists|j: int| 0 <= j < old(self).n() && certain_exposure(*old(self), i as int, j))
                ==> ns == State::Infected(0usize),
    {
        let ghost pre = *old(self);
        if self.expose_layer(i, 0) {
            return State::Infected(0);
        }
        let ghost mid1 = *self;
        if self.expose_layer(i, 1) {
            proof {
                lemma_exposure_frame(pre, mid1, i as int);
                lemma_credit_frame(pre, mid1, *self, i as int);
            }
            return State::Infected(0);
        }
        let ghost mid2 = *self;
        if self.expose_layer(i, 2) {
            proof {
                lemma_exposure_frame(pre, mid1, i as int);
                lemma_exposure_frame(mid1, mid2, i as int);
                lemma_credit_frame(pre, mid1, *self, i as int);
                lemma_credit_frame(mid1, mid2, *self, i as int);
                assert forall|j: int| exposure(mid2, i as int, j) implies exposure(
                    pre,
                    i as int,
                    j,
                ) by {}
            }
            return State::Infected(0);
        }
        proof {
            lemma_exposure_frame(pre, mid1, i as int);
            lemma_exposure_frame(mid1, mid2, i as int);
            assert forall|j: int| !certain_exposure(pre, i as int, j) by {
                assert(!certain_layer(pre, 0, i as int, j));
                assert(!certain_layer(mid1, 1, i as int, j));
                assert(!certain_layer(mid2, 2, i as int, j));
            }
        }
        State::Susceptible
    }
}

/// Which coefficient a layer applies to undetected sources.
pub open spec fn layer_coef_inf(sim: Simulation, layer: int) -> u64 {
    if layer == 0 {
        sim.config.family_contact_undetected_coef
    } else if layer == 1 {
        sim.config.workplace_contact_undetected_coef
    } else {
        sim.config.world_contact_undetected_coef
    }
}

/// Which coefficient a layer applies to detected sources.
pub open spec fn layer_coef_det(sim: Simulation, layer: int) -> u64 {
    if layer == 0 {
        sim.config.family_contact_detected_coef
    } else if layer == 1 {
        sim.config.workplace_contact_detected_coef
    } else {
        sim.config.world_contact_detected_coef
    }
}

/// The stored lower-neighbor list of a layer's graph.
pub open spec fn layer_left(sim: Simulation, layer: int, i: int) -> Seq<usize> {
    if layer == 0 {
        sim.family_graph.left(i)
    } else if layer == 1 {
        sim.workplace_graph.left(i)
    } else {
        sim.world_graph.left(i)
    }
}

/// The stored higher-neighbor list of a layer's graph.
pub open spec fn layer_right(sim: Simulation, layer: int, i: int) -> Seq<usize> {
    if layer == 0 {
        sim.family_graph.right(i)
    } else if layer == 1 {
        sim.workplace_graph.right(i)
    } else {
        sim.world_graph.right(i)
    }
}

/// The edge relation of a layer's graph.
pub open spec fn layer_edge(sim: Simulation, layer: int, i: int, j: int) -> bool {
    if layer == 0 {
        sim.family_graph.edge(i, j)
    } else if layer == 1 {
        sim.workplace_graph.edge(i, j)
    } else {
        sim.world_graph.edge(i, j)
    }
}

/// Exposure only reads fields that per-agent steps never change, so it
/// carries across them.
/// Tracing guarantees carry back to an earlier snapshot that had the
/// same queue and graphs.
proof fn lemma_traced_frame(pre: Simulation, mid: Simulation, post: Simulation, i: int)
    requires
        mid.test_queue == pre.test_queue,
        mid.family_graph == pre.family_graph,
        mid.workplace_graph == pre.workplace_graph,
        mid.world_graph == pre.world_graph,
        traced_enqueued(mid, post, i),
    ensures
        traced_enqueued(pre, post, i),
{
}

/// Infection bookkeeping relates the same fields across a step that
/// leaves the meters untouched.
proof fn lemma_credit_frame(pre: Simulation, mid: Simulation, post: Simulation, i: int)
    requires
        mid.infections_caused == pre.infections_caused,
        mid.serial_interval_average == pre.serial_interval_average,
        mid.states@ == pre.states@,
    ensures
        forall|j: int| infection_credit(mid, post, j) ==> infection_credit(pre, post, j),
{
}

proof fn lemma_exposure_frame(pre: Simulation, post: Simulation, i: int)
    requires
        scan_frame(pre, post),
    ensures
        forall|j: int| exposure(post, i, j) <==> exposure(pre, i, j),
        forall|layer: int, j: int|
            #[trigger] certain_layer(post, layer, i, j) <==> certain_layer(pre, layer, i, j),
{
}


impl Simulation {
    /// When an agent leaves the infectious states, credit its count of
    /// secondary infections to today's reproduction average and reset
    /// it.
    fn handle_r0(&mut self, i: usize, s: State)
        requires
            old(self).ctx(),
            i < old(self).n(),
        ensures
            final(self).ctx(),
            scan_frame(*old(self), *final(self)),
            final(self).test_queue == old(self).test_queue,
            final(self).counter == old(self).counter,
            final(self).states == old(self).states,
            final(self).serial_interval_average == old(self).serial_interval_average,
            final(self).rng == old(self).rng,
            (s matches State::Infected(_) || s matches State::Detected(_)) ==> *final(self)
                == *old(self),
            !(s matches State::Infected(_) || s matches State::Detected(_)) ==> exit_credit(
                *old(self),
                *final(self),
                i as int,
            ),
    {
        match s {
            State::Infected(_) | State::Detected(_) => {},
            _ => {
                let ninfected = self.infections_caused[i];
                self.r_average.push(ninfected as u64);
                self.infections_caused[i] = 0;
            },
        }
    }

    /// Enqueues the neighbors of a newly detected agent for tracing,
    /// layer by layer in priority order, stopping at the first full
    /// layer. When a layer has room for the whole neighborhood, every
    /// neighbor of that layer that is not recently tested (nor already
    /// held by a higher layer) ends up queued.
    fn queue_contact_tracing(&mut self, i: usize)
        requires
            old(self).ctx(),
            i < old(self).n(),
        ensures
            final(self).ctx(),
            scan_frame(*old(self), *final(self)),
            final(self).counter == old(self).counter,
            final(self).states == old(self).states,
            final(self).r_average == old(self).r_average,
            final(self).serial_interval_average == old(self).serial_interval_average,
            final(self).infections_caused == old(self).infections_caused,
            final(self).rng == old(self).rng,
            traced_enqueued(*old(self), *final(self), i as int),
            forall|x: int|
                #[trigger] final(self).test_queue.queued(x) ==> old(self).test_queue.queued(x)
                    || crate::graph::seq_has(nbrs_of(old(self).family_graph, i as int), x)
                    || crate::graph::seq_has(nbrs_of(old(self).workplace_graph, i as int), x)
                    || crate::graph::seq_has(nbrs_of(old(self).world_graph, i as int), x),
    {
        let ghost o = *old(self);
        let ghost famn = nbrs_of(o.family_graph, i as int);
        let fam = self.family_graph.neighbors(i);
        let mut k: usize = 0;
        let fl = fam.len();
        proof {
            crate::chainset::lemma_chain_len_nonneg(self.test_queue.family_queue.cohorts());
            crate::chainset::lemma_chain_len_nonneg(self.test_queue.workplace_queue.cohorts());
            crate::chainset::lemma_chain_len_nonneg(self.test_queue.world_queue.cohorts());
        }
        while k < fl
            invariant
                o == *old(self),
                o.ctx(),
                i < o.n(),
                self.states == o.states,
                self.counter == o.counter,
                self.r_average == o.r_average,
                self.infections_caused == o.infections_caused,
                self.rng == o.rng,
                self.serial_interval_average == o.serial_interval_average,
                self.family_graph == o.family_graph,
                self.workplace_graph == o.workplace_graph,
                self.world_graph == o.world_graph,
                self.config == o.config,
                self.worker_workplaces == o.worker_workplaces,
                self.time == o.time,
                self.max_daily_tests == o.max_daily_tests,
                self.last_disabled_workplace == o.last_disabled_workplace,
                self.test_queue.wf(),
                self.test_queue.recently_tested == o.test_queue.recently_tested,
                self.test_queue.maxsize == o.test_queue.maxsize,
                forall|x: int| self.test_queue.queued(x) ==> 0 <= x < o.n(),
                forall|x: int|
                    #[trigger] self.test_queue.queued(x) ==> o.test_queue.queued(x)
                        || crate::graph::seq_has(famn, x),
                k <= fl,
                fl == fam@.len(),
                fam@ == famn,
                famn == nbrs_of(o.family_graph, i as int),
                forall|a: int| 0 <= a < fam@.len() ==> #[trigger] fam@[a] < o.n(),
                self.test_queue.family_queue.total() <= o.test_queue.family_queue.total() + k,
                self.test_queue.workplace_queue.total() <= o.test_queue.workplace_queue.total(),
                self.test_queue.world_queue.total() <= o.test_queue.world_queue.total(),
                family_room(o, i as int) ==> forall|a: int|
                    0 <= a < k && !o.test_queue.recently_tested.has(#[trigger] famn[a] as int)
                        ==> self.test_queue.family_queue.has(famn[a] as int),
            decreases fl - k,
        {
            if self.test_queue.family_full() {
                proof {
                    if family_room(o, i as int) {
                        assert(false);
                    }
                }
                return ;
            }
            let ghost qpre = self.test_queue;
            self.test_queue.insert_family(fam[k]);
            proof {
                assert forall|x: int| self.test_queue.queued(x) implies 0 <= x < o.n() by {
                    if !qpre.queued(x) {
                        assert(self.test_queue.family_queue.has(x));
                        assert(x == fam@[k as int]);
                    }
                }
                assert forall|x: int| #[trigger] self.test_queue.queued(x) implies
                    o.test_queue.queued(x) || crate::graph::seq_has(famn, x) by {
                    if !qpre.queued(x) {
                        assert(self.test_queue.family_queue.has(x));
                        assert(x == fam@[k as int]);
                        assert(famn[k as int] == x);
                        assert(crate::graph::seq_has(famn, x));
                    }
                }
            }
            k += 1;
        }
        let ghost famq = self.test_queue.family_queue;
        let ghost wpn = nbrs_of(o.workplace_graph, i as int);
        let wp = self.workplace_graph.neighbors(i);
        let mut k2: usize = 0;
        let wl = wp.len();
        while k2 < wl
            invariant
                o == *old(self),
                o.ctx(),
                i < o.n(),
                self.states == o.states,
                self.counter == o.counter,
                self.r_average == o.r_average,
                self.infections_caused == o.infections_caused,
                self.rng == o.rng,
                self.serial_interval_average == o.serial_interval_average,
                self.family_graph == o.family_graph,
                self.workplace_graph == o.workplace_graph,
                self.world_graph == o.world_graph,
                self.config == o.config,
                self.worker_workplaces == o.worker_workplaces,
                self.time == o.time,
                self.max_daily_tests == o.max_daily_tests,
                self.last_disabled_workplace == o.last_disabled_workplace,
                self.test_queue.wf(),
                self.test_queue.recently_tested == o.test_queue.recently_tested,
                self.test_queue.maxsize == o.test_queue.maxsize,
                forall|x: int| self.test_queue.queued(x) ==> 0 <= x < o.n(),
                forall|x: int|
                    #[trigger] self.test_queue.queued(x) ==> o.test_queue.queued(x)
                        || crate::graph::seq_has(famn, x) || crate::graph::seq_has(wpn, x),
                k2 <= wl,
                wl == wp@.len(),
                wp@ == wpn,
                wpn == nbrs_of(o.workplace_graph, i as int),
                famn == nbrs_of(o.family_graph, i as int),
                forall|a: int| 0 <= a < wp@.len() ==> #[trigger] wp@[a] < o.n(),
                self.test_queue.family_queue == famq,
                famq.total() <= o.test_queue.family_queue.total() + famn.len(),
                self.test_queue.workplace_queue.total() <= o.test_queue.workplace_queue.total()
                    + k2,
                self.test_queue.world_queue.total() <= o.test_queue.world_queue.total(),
                family_room(o, i as int) ==> forall|a: int|
                    0 <= a < famn.len() && !o.test_queue.recently_tested.has(
                        #[trigger] famn[a] as int,
                    ) ==> famq.has(famn[a] as int),
                workplace_room(o, i as int) ==> forall|a: int|
                    0 <= a < k2 && !o.test_queue.recently_tested.has(#[trigger] wpn[a] as int)
                        && !famq.has(wpn[a] as int) ==> self.test_queue.workplace_queue.has(
                        wpn[a] as int,
                    ),
            decreases wl - k2,
        {
            if self.test_queue.workplace_full() {
                proof {
                    if workplace_room(o, i as int) {
                        assert(false);
                    }
                }
                return ;
            }
            let ghost qpre = self.test_queue;
            self.test_queue.insert_workplace(wp[k2]);
            proof {
                assert forall|x: int| self.test_queue.queued(x) implies 0 <= x < o.n() by {
                    if !qpre.queued(x) {
                        assert(self.test_queue.workplace_queue.has(x));
                        assert(x == wp@[k2 as int]);
                    }
                }
                assert forall|x: int| #[trigger] self.test_queue.queued(x) implies
                    o.test_queue.queued(x) || crate::graph::seq_has(famn, x)
                    || crate::graph::seq_has(wpn, x) by {
                    if !qpre.queued(x) {
                        assert(self.test_queue.workplace_queue.has(x));
                        assert(x == wp@[k2 as int]);
                        assert(wpn[k2 as int] == x);
                        assert(crate::graph::seq_has(wpn, x));
                    }
                }
            }
            k2 += 1;
        }
        let ghost wpq = self.test_queue.workplace_queue;
        let ghost won = nbrs_of(o.world_graph, i as int);
        let wo = self.world_graph.neighbors(i);
        let mut k3: usize = 0;
        let ol = wo.len();
        while k3 < ol
            invariant
                o == *old(self),
                o.ctx(),
                i < o.n(),
                self.states == o.states,
                self.counter == o.counter,
                self.r_average == o.r_average,
                self.infections_caused == o.infections_caused,
                self.rng == o.rng,
                self.serial_interval_average == o.serial_interval_average,
                self.family_graph == o.family_graph,
                self.workplace_graph == o.workplace_graph,
                self.world_graph == o.world_graph,
                self.config == o.config,
                self.worker_workplaces == o.worker_workplaces,
                self.time == o.time,
                self.max_daily_tests == o.max_daily_tests,
                self.last_disabled_workplace == o.last_disabled_workplace,
                self.test_queue.wf(),
                self.test_queue.recently_tested == o.test_queue.recently_tested,
                self.test_queue.maxsize == o.test_queue.maxsize,
                forall|x: int| self.test_queue.queued(x) ==> 0 <= x < o.n(),
                forall|x: int|
                    #[trigger] self.test_queue.queued(x) ==> o.test_queue.queued(x)
                        || crate::graph::seq_has(famn, x) || crate::graph::seq_has(wpn, x)
                        || crate::graph::seq_has(won, x),
                k3 <= ol,
                ol == wo@.len(),
                wo@ == won,
                won == nbrs_of(o.world_graph, i as int),
                wpn == nbrs_of(o.workplace_graph, i as int),
                famn == nbrs_of(o.family_graph, i as int),
                forall|a: int| 0 <= a < wo@.len() ==> #[trigger] wo@[a] < o.n(),
                self.test_queue.family_queue == famq,
                self.test_queue.workplace_queue == wpq,
                famq.total() <= o.test_queue.family_queue.total() + famn.len(),
                wpq.total() <= o.test_queue.workplace_queue.total() + wpn.len(),
                self.test_queue.world_queue.total() <= o.test_queue.world_queue.total() + k3,
                family_room(o, i as int) ==> forall|a: int|
                    0 <= a < famn.len() && !o.test_queue.recently_tested.has(
                        #[trigger] famn[a] as int,
                    ) ==> famq.has(famn[a] as int),
                workplace_room(o, i as int) ==> forall|a: int|
                    0 <= a < wpn.len() && !o.test_queue.recently_tested.has(
                        #[trigger] wpn[a] as int,
                    ) && !famq.has(wpn[a] as int) ==> wpq.has(wpn[a] as int),
                world_room(o, i as int) ==> forall|a: int|
                    0 <= a < k3 && !o.test_queue.recently_tested.has(#[trigger] won[a] as int)
                        && !famq.has(won[a] as int) && !wpq.has(won[a] as int)
                        ==> self.test_queue.world_queue.has(won[a] as int),
            decreases ol - k3,
        {
            if self.test_queue.world_full() {
                proof {
                    if world_room(o, i as int) {
                        assert(false);
                    }
                }
                return ;
            }
            let ghost qpre = self.test_queue;
            self.test_queue.insert_world(wo[k3]);
            proof {
                assert forall|x: int| self.test_queue.queued(x) implies 0 <= x < o.n() by {
                    if !qpre.queued(x) {
                        assert(self.test_queue.world_queue.has(x));
                        assert(x == wo@[k3 as int]);
                    }
                }
                assert forall|x: int| #[trigger] self.test_queue.queued(x) implies
                    o.test_queue.queued(x) || crate::graph::seq_has(famn, x)
                    || crate::graph::seq_has(wpn, x) || crate::graph::seq_has(won, x) by {
                    if !qpre.queued(x) {
                        assert(self.test_queue.world_queue.has(x));
                        assert(x == wo@[k3 as int]);
                        assert(won[k3 as int] == x);
                        assert(crate::graph::seq_has(won, x));
                    }
                }
            }
            k3 += 1;
        }
    }
}

/// Hazard profile entries are genuine probabilities.
proof fn lemma_sat_le_scale(p: Seq<u64>, i: int)
    requires
        p.len() >= 1,
        i >= 0,
        crate::config::profile_ok(p),
    ensures
        sat_index_spec(p, i) <= SCALE,
{
    if i < p.len() {
    } else {
        assert(p[p.len() - 1] <= SCALE);
    }
}

impl Simulation {
    /// One day of an undetected infectious agent: competing hazards
    /// for recovery, detection and worsening; hospitals at capacity
    /// turn the worsening target into `Unattended` (the spillover).
    fn transit_infected(&mut self, t: usize, i: usize) -> (ns: State)
        requires
            old(self).ctx(),
            i < old(self).n(),
            t < usize::MAX,
            old(self).counter.abs()[1] >= 1,
            forall|k: int| 0 <= k < NSTATES && k != 1 ==> old(self).counter.abs()[k] < usize::MAX,
            forall|k: int| 0 <= k < NSTATES ==> old(self).counter.day()[k] < u128::MAX,
        ensures
            final(self).ctx(),
            scan_frame(*old(self), *final(self)),
            scan_step(State::Infected(t), ns),
            ns != State::Susceptible,
            ns == State::Severe(0usize) ==> old(self).counter.abs()[3] < old(
                self,
            ).config.hospital_capacity,
            ns == State::Unattended ==> old(self).counter.abs()[3] >= old(
                self,
            ).config.hospital_capacity,
            ns == State::Immune(0usize) ==> sat_index_spec(
                old(self).config.infected_immune_profile@,
                t as int,
            ) > 0,
            ns == State::Detected((t + 1) as usize) ==> sat_index_spec(
                old(self).config.infected_detected_profile@,
                t as int,
            ) > 0,
            (ns == State::Severe(0usize) || ns == State::Unattended) ==> sat_index_spec(
                old(self).config.infected_severe_profile@,
                t as int,
            ) > 0,
            final(self).counter.abs() == abs_after(old(self).counter.abs(), 1, idx_of(ns)),
            final(self).counter.day() == day_after(old(self).counter.day(), 1, idx_of(ns)),
            final(self).serial_interval_average == old(self).serial_interval_average,
            (ns matches State::Infected(_) || ns matches State::Detected(_))
                ==> final(self).infections_caused == old(self).infections_caused
                && final(self).r_average == old(self).r_average,
            !(ns matches State::Infected(_) || ns matches State::Detected(_)) ==> exit_credit(
                *old(self),
                *final(self),
                i as int,
            ),
            !(ns matches State::Detected(_)) ==> final(self).test_queue == old(self).test_queue,
            ns matches State::Detected(_) ==> traced_enqueued(*old(self), *final(self), i as int),
            (sat_index_spec(old(self).config.infected_immune_profile@, t as int) == SCALE
                || sat_index_spec(old(self).config.infected_detected_profile@, t as int) == SCALE
                || sat_index_spec(old(self).config.infected_severe_profile@, t as int) == SCALE)
                ==> ns != State::Infected((t + 1) as usize),
    {
        let severe_state = if self.hospitals_full() {
            State::Unattended
        } else {
            State::Severe(0)
        };
        let mut opts: Vec<State> = Vec::new();
        opts.push(State::Immune(0));
        opts.push(State::Detected(t + 1));
        opts.push(severe_state);
        opts.push(State::Infected(t + 1));
        let mut w: Vec<u64> = Vec::new();
        w.push(sat_index(&self.config.infected_immune_profile, t));
        w.push(sat_index(&self.config.infected_detected_profile, t));
        w.push(sat_index(&self.config.infected_severe_profile, t));
        proof {
            lemma_sat_le_scale(self.config.infected_immune_profile@, t as int);
            lemma_sat_le_scale(self.config.infected_detected_profile@, t as int);
            lemma_sat_le_scale(self.config.infected_severe_profile@, t as int);
        }
        let s = sample_state(&mut self.rng, &opts, &w);
        proof {
            let j = choose|j: int|
                0 <= j < opts@.len() && s == opts@[j] && crate::sample::eff_weight(w@, j) > 0;
            assert(opts@[0] == State::Immune(0usize));
            assert(opts@[1] == State::Detected((t + 1) as usize));
            assert(opts@[2] == severe_state);
            assert(opts@[3] == State::Infected((t + 1) as usize));
            assert(j == 0 || j == 1 || j == 2 || j == 3);
            if w@[0] == SCALE {
                crate::sample::lemma_no_stay_when_certain(w@, 0);
            }
            if w@[1] == SCALE {
                crate::sample::lemma_no_stay_when_certain(w@, 1);
            }
            if w@[2] == SCALE {
                crate::sample::lemma_no_stay_when_certain(w@, 2);
            }
        }
        self.handle_r0(i, s);
        self.counter.transit(State::Infected(0), s);
        let ghost m = *self;
        if matches!(s, State::Detected(_)) {
            self.queue_contact_tracing(i);
            proof {
                lemma_traced_frame(*old(self), m, *self, i as int);
            }
        }
        s
    }

    /// One day of a detected infectious agent: competing hazards for
    /// recovery and worsening, with the same hospital spillover.
    fn transit_detected(&mut self, t: usize, i: usize) -> (ns: State)
        requires
            old(self).ctx(),
            i < old(self).n(),
            t < usize::MAX,
            old(self).counter.abs()[2] >= 1,
            forall|k: int| 0 <= k < NSTATES && k != 2 ==> old(self).counter.abs()[k] < usize::MAX,
            forall|k: int| 0 <= k < NSTATES ==> old(self).counter.day()[k] < u128::MAX,
        ensures
            final(self).ctx(),
            scan_frame(*old(self), *final(self)),
            final(self).test_queue == old(self).test_queue,
            scan_step(State::Detected(t), ns),
            ns == State::Severe(0usize) ==> old(self).counter.abs()[3] < old(
                self,
            ).config.hospital_capacity,
            ns == State::Unattended ==> old(self).counter.abs()[3] >= old(
                self,
            ).config.hospital_capacity,
            ns == State::Immune(0usize) ==> sat_index_spec(
                old(self).config.infected_immune_profile@,
                t as int,
            ) > 0,
            (ns == State::Severe(0usize) || ns == State::Unattended) ==> sat_index_spec(
                old(self).config.infected_severe_profile@,
                t as int,
            ) > 0,
            final(self).counter.abs() == abs_after(old(self).counter.abs(), 2, idx_of(ns)),
            final(self).counter.day() == day_after(old(self).counter.day(), 2, idx_of(ns)),
            final(self).serial_interval_average == old(self).serial_interval_average,
            ns matches State::Detected(_)
                ==> final(self).infections_caused == old(self).infections_caused
                && final(self).r_average == old(self).r_average,
            !(ns matches State::Detected(_)) ==> exit_credit(*old(self), *final(self), i as int),
            (sat_index_spec(old(self).config.infected_immune_profile@, t as int) == SCALE
                || sat_index_spec(old(self).config.infected_severe_profile@, t as int) == SCALE)
                ==> ns != State::Detected((t + 1) as usize),
    {
        let severe_state = if self.hospitals_full() {
            State::Unattended
        } else {
            State::Severe(0)
        };
        let mut opts: Vec<State> = Vec::new();
        opts.push(State::Immune(0));
        opts.push(severe_state);
        opts.push(State::Detected(t + 1));
        let mut w: Vec<u64> = Vec::new();
        w.push(sat_index(&self.config.infected_immune_profile, t));
        w.push(sat_index(&self.config.infected_severe_profile, t));
        proof {
            lemma_sat_le_scale(self.config.infected_immune_profile@, t as int);
            lemma_sat_le_scale(self.config.infected_severe_profile@, t as int);
        }
        let s = sample_state(&mut self.rng, &opts, &w);
        proof {
            let j = choose|j: int|
                0 <= j < opts@.len() && s == opts@[j] && crate::sample::eff_weight(w@, j) > 0;
            assert(opts@[0] == State::Immune(0usize));
            assert(opts@[1] == severe_state);
            assert(opts@[2] == State::Detected((t + 1) as usize));
            assert(j == 0 || j == 1 || j == 2);
            if w@[0] == SCALE {
                crate::sample::lemma_no_stay_when_certain(w@, 0);
            }
            if w@[1] == SCALE {
                crate::sample::lemma_no_stay_when_certain(w@, 1);
            }
        }
        self.handle_r0(i, s);
        self.counter.transit(State::Detected(0), s);
        s
    }

    /// One day unattended: dies if hospitals are still full, otherwise
    /// finally admitted as `Severe(1)`.
    fn transit_unattended(&mut self) -> (ns: State)
        requires
            old(self).ctx(),
            old(self).counter.abs()[4] >= 1,
            forall|k: int| 0 <= k < NSTATES && k != 4 ==> old(self).counter.abs()[k] < usize::MAX,
            forall|k: int| 0 <= k < NSTATES ==> old(self).counter.day()[k] < u128::MAX,
        ensures
            final(self).ctx(),
            scan_frame(*old(self), *final(self)),
            final(self).test_queue == old(self).test_queue,
            final(self).r_average == old(self).r_average,
            final(self).infections_caused == old(self).infections_caused,
            final(self).serial_interval_average == old(self).serial_interval_average,
            final(self).rng == old(self).rng,
            ns == if old(self).counter.abs()[3] >= old(self).config.hospital_capacity {
                State::Dead
            } else {
                State::Severe(1usize)
            },
            final(self).counter.abs() == abs_after(old(self).counter.abs(), 4, idx_of(ns)),
            final(self).counter.day() == day_after(old(self).counter.day(), 4, idx_of(ns)),
    {
        let newstate = if self.hospitals_full() {
            State::Dead
        } else {
            State::Severe(1)
        };
        self.counter.transit(State::Unattended, newstate);
        newstate
    }

    /// One day hospitalized: competing hazards for recovery and death.
    fn transit_severe(&mut self, t: usize) -> (ns: State)
        requires
            old(self).ctx(),
            t < usize::MAX,
            old(self).counter.abs()[3] >= 1,
            forall|k: int| 0 <= k < NSTATES && k != 3 ==> old(self).counter.abs()[k] < usize::MAX,
            forall|k: int| 0 <= k < NSTATES ==> old(self).counter.day()[k] < u128::MAX,
        ensures
            final(self).ctx(),
            scan_frame(*old(self), *final(self)),
            final(self).test_queue == old(self).test_queue,
            final(self).r_average == old(self).r_average,
            final(self).infections_caused == old(self).infections_caused,
            final(self).serial_interval_average == old(self).serial_interval_average,
            scan_step(State::Severe(t), ns),
            ns == State::Immune(0usize) ==> sat_index_spec(
                old(self).config.severe_immune_profile@,
                t as int,
            ) > 0,
            ns == State::Dead ==> sat_index_spec(old(self).config.severe_dead_profile@, t as int)
                > 0,
            (sat_index_spec(old(self).config.severe_immune_profile@, t as int) == SCALE
                || sat_index_spec(old(self).config.severe_dead_profile@, t as int) == SCALE)
                ==> ns != State::Severe((t + 1) as usize),
            final(self).counter.abs() == abs_after(old(self).counter.abs(), 3, idx_of(ns)),
            final(self).counter.day() == day_after(old(self).counter.day(), 3, idx_of(ns)),
    {
        let mut opts: Vec<State> = Vec::new();
        opts.push(State::Immune(0));
        opts.push(State::Dead);
        opts.push(State::Severe(t + 1));
        let mut w: Vec<u64> = Vec::new();
        w.push(sat_index(&self.config.severe_immune_profile, t));
        w.push(sat_index(&self.config.severe_dead_profile, t));
        proof {
            lemma_sat_le_scale(self.config.severe_immune_profile@, t as int);
            lemma_sat_le_scale(self.config.severe_dead_profile@, t as int);
        }
        let s = sample_state(&mut self.rng, &opts, &w);
        proof {
            let j = choose|j: int|
                0 <= j < opts@.len() && s == opts@[j] && crate::sample::eff_weight(w@, j) > 0;
            assert(opts@[0] == State::Immune(0usize));
            assert(opts@[1] == State::Dead);
            assert(opts@[2] == State::Severe((t + 1) as usize));
            assert(j == 0 || j == 1 || j == 2);
            if w@[0] == SCALE {
                crate::sample::lemma_no_stay_when_certain(w@, 0);
            }
            if w@[1] == SCALE {
                crate::sample::lemma_no_stay_when_certain(w@, 1);
            }
        }
        self.counter.transit(State::Severe(0), s);
        s
    }

    /// One day immune: a single hazard of losing immunity.
    fn transit_immune(&mut self, t: usize) -> (ns: State)
        requires
            old(self).ctx(),
            t < usize::MAX,
            old(self).counter.abs()[5] >= 1,
            forall|k: int| 0 <= k < NSTATES && k != 5 ==> old(self).counter.abs()[k] < usize::MAX,
            forall|k: int| 0 <= k < NSTATES ==> old(self).counter.day()[k] < u128::MAX,
        ensures
            final(self).ctx(),
            scan_frame(*old(self), *final(self)),
            final(self).test_queue == old(self).test_queue,
            final(self).r_average == old(self).r_average,
            final(self).infections_caused == old(self).infections_caused,
            final(self).serial_interval_average == old(self).serial_interval_average,
            scan_step(State::Immune(t), ns),
            ns == State::Susceptible ==> sat_index_spec(
                old(self).config.immune_susceptible_profile@,
                t as int,
            ) > 0,
            sat_index_spec(old(self).config.immune_susceptible_profile@, t as int) == SCALE
                ==> ns == State::Susceptible,
            final(self).counter.abs() == abs_after(old(self).counter.abs(), 5, idx_of(ns)),
            final(self).counter.day() == day_after(old(self).counter.day(), 5, idx_of(ns)),
    {
        let mut opts: Vec<State> = Vec::new();
        opts.push(State::Susceptible);
        opts.push(State::Immune(t + 1));
        let mut w: Vec<u64> = Vec::new();
        w.push(sat_index(&self.config.immune_susceptible_profile, t));
        proof {
            lemma_sat_le_scale(self.config.immune_susceptible_profile@, t as int);
        }
        let s = sample_state(&mut self.rng, &opts, &w);
        proof {
            let j = choose|j: int|
                0 <= j < opts@.len() && s == opts@[j] && crate::sample::eff_weight(w@, j) > 0;
            assert(opts@[0] == State::Susceptible);
            assert(opts@[1] == State::Immune((t + 1) as usize));
            assert(j == 0 || j == 1);
            if w@[0] == SCALE {
                crate::sample::lemma_no_stay_when_certain(w@, 0);
            }
        }
        self.counter.transit(State::Immune(0), s);
        s
    }
}


/// What the tracing drain may do to one agent's freshly computed
/// state: leave it, or flip an undetected infection to detected with
/// the same age.
pub open spec fn drain_flip(pre: State, post: State) -> bool {
    match pre {
        State::Infected(t) => post == pre || post == State::Detected(t),
        _ => post == pre,
    }
}

impl Simulation {
    /// The post-scan tracing drain: processes queued agents in
    /// priority order up to the daily cap, flipping undetected
    /// infections to detected, recording clean tests as recently
    /// tested, and finally enqueuing the contacts of each found
    /// positive. Agents recorded as recently tested before this tick
    /// are never drained (they left the queues for good when tested).
    fn trace_contacts(&mut self, newstates: &mut Vec<State>)
        requires
            old(self).ctx(),
            old(newstates)@.len() == old(self).n(),
            forall|k: int|
                0 <= k < NSTATES ==> old(self).counter.abs()[k] == census(old(newstates)@, k),
            forall|k: int| 0 <= k < NSTATES ==> old(self).counter.day()[k] <= old(self).n(),
        ensures
            final(self).ctx(),
            final(self).states == old(self).states,
            final(self).family_graph == old(self).family_graph,
            final(self).workplace_graph == old(self).workplace_graph,
            final(self).world_graph == old(self).world_graph,
            final(self).config == old(self).config,
            final(self).worker_workplaces == old(self).worker_workplaces,
            final(self).time == old(self).time,
            final(self).max_daily_tests == old(self).max_daily_tests,
            final(self).last_disabled_workplace == old(self).last_disabled_workplace,
            final(self).infections_caused == old(self).infections_caused,
            final(self).r_average == old(self).r_average,
            final(newstates)@.len() == old(newstates)@.len(),
            forall|j: int|
                0 <= j < old(newstates)@.len() ==> drain_flip(
                    old(newstates)@[j],
                    #[trigger] final(newstates)@[j],
                ),
            forall|j: int|
                0 <= j < old(newstates)@.len() && old(self).test_queue.recently_tested.has(j)
                    ==> final(newstates)@[j] == old(newstates)@[j],
            forall|k: int|
                0 <= k < NSTATES ==> final(self).counter.abs()[k] == census(final(newstates)@, k),
            forall|k: int|
                0 <= k < NSTATES ==> final(self).counter.day()[k] <= old(self).n() + old(
                    self,
                ).max_daily_tests,
            crate::counter::diff_count(old(newstates)@, final(newstates)@) <= old(
                self,
            ).max_daily_tests,
            final(self).serial_interval_average == old(self).serial_interval_average,
            final(self).r_average == old(self).r_average,
            final(self).counter.day()[1] == old(self).counter.day()[1],
            final(self).counter.day()[2] <= old(self).counter.day()[2] + crate::counter::diff_count(
                old(newstates)@,
                final(newstates)@,
            ),
            final(self).test_queue.maxsize == old(self).test_queue.maxsize,
            final(self).test_queue.recently_tested.cohorts().len() == old(
                self,
            ).test_queue.recently_tested.cohorts().len() + 1,
            forall|x: int|
                #[trigger] final(self).test_queue.recently_tested.has(x) ==> old(
                    self,
                ).test_queue.recently_tested.has(x) || (0 <= x < old(self).n() && old(
                    self,
                ).test_queue.queued(x) && (old(newstates)@[x] matches State::Susceptible
                    || old(newstates)@[x] matches State::Immune(_))),
            crate::counter::diff_count(old(newstates)@, final(newstates)@) + final(self).test_queue.recently_tested.total() - old(self).test_queue.recently_tested.total()
                == old(self).max_daily_tests || (forall|j: int|
                (0 <= j < old(self).n() && old(self).test_queue.queued(j) && old(
                    newstates,
                )@[j] matches State::Infected(_)) ==> #[trigger] final(newstates)@[j] matches State::Detected(_)),
            old(self).max_daily_tests == 0 ==> final(self).test_queue.family_queue == old(
                self,
            ).test_queue.family_queue && final(self).test_queue.workplace_queue == old(
                self,
            ).test_queue.workplace_queue && final(self).test_queue.world_queue == old(
                self,
            ).test_queue.world_queue && final(self).counter == old(self).counter && final(newstates)@ == old(newstates)@,
            forall|x: int|
                #[trigger] final(self).test_queue.queued(x) ==> old(self).test_queue.queued(x) || (
                exists|v: int|
                    0 <= v < old(self).n() && (old(newstates)@[v] matches State::Infected(_)) && (
                    final(newstates)@[v] matches State::Detected(_)) && (crate::graph::seq_has(
                        nbrs_of(old(self).family_graph, v),
                        x,
                    ) || crate::graph::seq_has(nbrs_of(old(self).workplace_graph, v), x)
                        || crate::graph::seq_has(nbrs_of(old(self).world_graph, v), x))),
    {
        let ghost n0 = old(self).n();
        proof {
            crate::counter::lemma_diff_count_refl(newstates@);
        }
        let d = self.max_daily_tests;
        let mut budget: usize = d;
        let mut found: Vec<usize> = Vec::new();
        let mut tested: Vec<usize> = Vec::new();
        let mut more = budget > 0 && self.test_queue.has_pending();
        while more
            invariant
                more ==> budget > 0 && self.test_queue.pending() != 0,
                !more ==> budget == 0 || self.test_queue.pending() == 0,
                old(self).ctx(),
                self.states == old(self).states,
                self.family_graph == old(self).family_graph,
                self.workplace_graph == old(self).workplace_graph,
                self.world_graph == old(self).world_graph,
                self.config == old(self).config,
                self.worker_workplaces == old(self).worker_workplaces,
                self.time == old(self).time,
                self.max_daily_tests == old(self).max_daily_tests,
                self.last_disabled_workplace == old(self).last_disabled_workplace,
                self.infections_caused == old(self).infections_caused,
                self.r_average == old(self).r_average,
                self.serial_interval_average == old(self).serial_interval_average,
                self.test_queue.wf(),
                self.test_queue.maxsize == old(self).test_queue.maxsize,
                self.test_queue.recently_tested == old(self).test_queue.recently_tested,
                forall|x: int|
                    #[trigger] self.test_queue.queued(x) ==> old(self).test_queue.queued(x),
                n0 == old(self).n(),
                d == old(self).max_daily_tests,
                budget <= d,
                newstates@.len() == old(newstates)@.len(),
                old(newstates)@.len() == n0,
                self.counter.wf(),
                forall|k: int| 0 <= k < NSTATES ==> self.counter.abs()[k] == census(newstates@, k),
                forall|k: int| 0 <= k < NSTATES ==> self.counter.day()[k] <= n0 + (d - budget),
                self.counter.day()[1] == old(self).counter.day()[1],
                self.counter.day()[2] <= old(self).counter.day()[2]
                    + crate::counter::diff_count(old(newstates)@, newstates@),
                forall|j: int|
                    0 <= j < n0 ==> drain_flip(old(newstates)@[j], #[trigger] newstates@[j]),
                forall|j: int|
                    0 <= j < n0 && #[trigger] newstates@[j] != old(newstates)@[j] ==> old(
                        self,
                    ).test_queue.queued(j),
                forall|j: int|
                    0 <= j < n0 && #[trigger] self.test_queue.queued(j) ==> newstates@[j] == old(
                        newstates,
                    )@[j],
                crate::counter::diff_count(old(newstates)@, newstates@) + tested@.len() == d
                    - budget,
                forall|j: int|
                    (0 <= j < n0 && old(self).test_queue.queued(j) && old(
                        newstates,
                    )@[j] matches State::Infected(_)) ==> self.test_queue.queued(j)
                        || #[trigger] newstates@[j] matches State::Detected(_),
                tested@.no_duplicates(),
                forall|a: int|
                    0 <= a < tested@.len() ==> #[trigger] tested@[a] < n0
                        && !self.test_queue.queued(tested@[a] as int) && old(
                        self,
                    ).test_queue.queued(tested@[a] as int) && (old(
                        newstates,
                    )@[tested@[a] as int] matches State::Susceptible || old(
                        newstates,
                    )@[tested@[a] as int] matches State::Immune(_)),
                forall|a: int| 0 <= a < found@.len() ==> #[trigger] found@[a] < n0,
                forall|a: int|
                    0 <= a < found@.len() ==> (old(newstates)@[#[trigger] found@[a] as int]
                        matches State::Infected(_)) && (newstates@[found@[a] as int]
                        matches State::Detected(_)) && !self.test_queue.queued(found@[a] as int),
                d == 0 ==> self.counter == old(self).counter && self.test_queue.family_queue
                    == old(self).test_queue.family_queue && self.test_queue.workplace_queue == old(
                    self,
                ).test_queue.workplace_queue && self.test_queue.world_queue == old(
                    self,
                ).test_queue.world_queue && newstates@ == old(newstates)@ && found@.len() == 0,
            decreases self.test_queue.pending(),
        {
            proof {
                crate::chainset::lemma_chain_len_nonneg(self.test_queue.family_queue.cohorts());
                crate::chainset::lemma_chain_len_nonneg(self.test_queue.workplace_queue.cohorts());
                crate::chainset::lemma_chain_len_nonneg(self.test_queue.world_queue.cohorts());
            }
            let popped = self.test_queue.pop_next();
            match popped {
                Option::None => {
                    proof {
                        assert(false);
                    }
                },
                Option::Some(v) => {
                    proof {
                        assert(old(self).test_queue.queued(v as int));
                        assert(v < n0);
                    }
                    let s = newstates[v];
                    match s {
                        State::Infected(t) => {
                            let ghost prens = newstates@;
                            proof {
                                assert(prens.len() == newstates.len());
                                crate::counter::lemma_counts_after_update(
                                    prens,
                                    v as int,
                                    State::Detected(t),
                                    self.counter.abs(),
                                );
                                assert(n0 <= usize::MAX as int);
                                assert(d <= usize::MAX as int);
                                assert(self.counter.day()[2] < u128::MAX);
                            }
                            self.counter.transit(s, State::Detected(t));
                            proof {
                                crate::counter::lemma_diff_count_update(
                                    old(newstates)@,
                                    prens,
                                    v as int,
                                    State::Detected(t),
                                );
                            }
                            newstates[v] = State::Detected(t);
                            proof {
                                assert(newstates@ =~= prens.update(v as int, State::Detected(t)));
                            }
                            budget = budget - 1;
                            found.push(v);
                        },
                        State::Susceptible | State::Immune(_) => {
                            proof {
                                assert forall|a: int|
                                    0 <= a < tested@.len() implies tested@[a] != v by {
                                    assert(!self.test_queue.queued(tested@[a] as int));
                                }
                                crate::graph::lemma_has_contains(tested@, v);
                                assert(!tested@.contains(v));
                                assert(tested@.push(v).drop_last() =~= tested@);
                            }
                            tested.push(v);
                            budget = budget - 1;
                        },
                        _ => {},
                    }
                },
            }
            more = budget > 0 && self.test_queue.has_pending();
        }
        proof {
            assert forall|y: int| crate::graph::seq_has(tested@, y) implies !self.test_queue.recently_tested.has(
                y,
            ) by {
                let a = choose|a: int| 0 <= a < tested@.len() && tested@[a] == y;
                assert(old(self).test_queue.queued(tested@[a] as int));
                assert(!old(self).test_queue.recently_tested.has(tested@[a] as int));
            }
        }
        let ghost spent = (budget == 0);
        proof {
            assert(!more);
            assert(budget == 0 || self.test_queue.pending() == 0);
            if !spent {
                assert(self.test_queue.pending() == 0);
                assert forall|j: int|
                    0 <= j < n0 && old(self).test_queue.queued(j) && old(
                        newstates,
                    )@[j] matches State::Infected(_) implies #[trigger] newstates@[j]
                    matches State::Detected(_) by {
                    assert(!self.test_queue.queued(j)) by {
                        crate::chainset::lemma_chain_len_nonneg(
                            self.test_queue.family_queue.cohorts(),
                        );
                        crate::chainset::lemma_chain_len_nonneg(
                            self.test_queue.workplace_queue.cohorts(),
                        );
                        crate::chainset::lemma_chain_len_nonneg(
                            self.test_queue.world_queue.cohorts(),
                        );
                        if self.test_queue.family_queue.has(j) {
                            crate::chainset::lemma_member_positive(
                                self.test_queue.family_queue,
                                j,
                            );
                        }
                        if self.test_queue.workplace_queue.has(j) {
                            crate::chainset::lemma_member_positive(
                                self.test_queue.workplace_queue,
                                j,
                            );
                        }
                        if self.test_queue.world_queue.has(j) {
                            crate::chainset::lemma_member_positive(
                                self.test_queue.world_queue,
                                j,
                            );
                        }
                    }
                }
            }
        }
        let ghost qpre = self.test_queue;
        let ghost testedv = tested@;
        self.test_queue.recently_tested.push_child(tested);
        proof {
            assert(self.test_queue.family_queue == qpre.family_queue);
            assert(self.test_queue.workplace_queue == qpre.workplace_queue);
            assert(self.test_queue.world_queue == qpre.world_queue);
            assert(self.test_queue.wf()) by {
                assert forall|x: int| #[trigger] self.test_queue.family_queue.has(x) implies
                    !self.test_queue.workplace_queue.has(x) && !self.test_queue.world_queue.has(x)
                    && !self.test_queue.recently_tested.has(x) by {
                    assert(qpre.family_queue.has(x));
                    assert(qpre.queued(x));
                    if crate::graph::seq_has(testedv, x) {
                        let a = choose|a: int| 0 <= a < testedv.len() && testedv[a] == x;
                        assert(!qpre.queued(testedv[a] as int));
                    }
                }
                assert forall|x: int| #[trigger] self.test_queue.workplace_queue.has(x) implies
                    !self.test_queue.world_queue.has(x) && !self.test_queue.recently_tested.has(
                    x,
                ) by {
                    assert(qpre.workplace_queue.has(x));
                    assert(qpre.queued(x));
                    if crate::graph::seq_has(testedv, x) {
                        let a = choose|a: int| 0 <= a < testedv.len() && testedv[a] == x;
                        assert(!qpre.queued(testedv[a] as int));
                    }
                }
                assert forall|x: int| #[trigger] self.test_queue.world_queue.has(x) implies
                    !self.test_queue.recently_tested.has(x) by {
                    assert(qpre.world_queue.has(x));
                    assert(qpre.queued(x));
                    if crate::graph::seq_has(testedv, x) {
                        let a = choose|a: int| 0 <= a < testedv.len() && testedv[a] == x;
                        assert(!qpre.queued(testedv[a] as int));
                    }
                }
            }
        }
        proof {
            assert forall|x: int| #[trigger] self.test_queue.queued(x) implies 0 <= x < n0
                && old(self).test_queue.queued(x) by {
                assert(qpre.queued(x));
                assert(old(self).test_queue.queued(x));
            }
        }
        let ghost rec_after = self.test_queue.recently_tested;
        let ghost forced_or_spent = (crate::counter::diff_count(old(newstates)@, newstates@)
            + rec_after.total() - old(self).test_queue.recently_tested.total() == old(
            self,
        ).max_daily_tests as int) || (forall|j: int|
            (0 <= j < n0 && old(self).test_queue.queued(j) && old(
                newstates,
            )@[j] matches State::Infected(_)) ==> #[trigger] newstates@[j]
                matches State::Detected(_));
        proof {
            assert(rec_after.total() == old(self).test_queue.recently_tested.total()
                + testedv.len());
            if spent {
                assert(forced_or_spent);
            } else {
                assert(forced_or_spent);
            }
        }
        let nf = found.len();
        let mut q: usize = 0;
        while q < nf
            invariant
                old(self).ctx(),
                self.states == old(self).states,
                self.family_graph == old(self).family_graph,
                self.workplace_graph == old(self).workplace_graph,
                self.world_graph == old(self).world_graph,
                self.config == old(self).config,
                self.worker_workplaces == old(self).worker_workplaces,
                self.time == old(self).time,
                self.max_daily_tests == old(self).max_daily_tests,
                self.last_disabled_workplace == old(self).last_disabled_workplace,
                self.infections_caused == old(self).infections_caused,
                self.r_average == old(self).r_average,
                self.counter.wf(),
                forall|k: int| 0 <= k < NSTATES ==> self.counter.abs()[k] == census(newstates@, k),
                forall|k: int|
                    0 <= k < NSTATES ==> self.counter.day()[k] <= n0 + old(self).max_daily_tests,
                self.counter.day()[1] == old(self).counter.day()[1],
                self.counter.day()[2] <= old(self).counter.day()[2]
                    + crate::counter::diff_count(old(newstates)@, newstates@),
                newstates@.len() == old(newstates)@.len(),
                old(newstates)@.len() == n0,
                forall|j: int|
                    0 <= j < n0 ==> drain_flip(old(newstates)@[j], #[trigger] newstates@[j]),
                forall|j: int|
                    0 <= j < n0 && #[trigger] newstates@[j] != old(newstates)@[j] ==> old(
                        self,
                    ).test_queue.queued(j),
                crate::counter::diff_count(old(newstates)@, newstates@) <= old(
                    self,
                ).max_daily_tests,
                self.test_queue.recently_tested == rec_after,
                self.serial_interval_average == old(self).serial_interval_average,
                self.r_average == old(self).r_average,
                forced_or_spent,
                self.test_queue.wf(),
                self.test_queue.maxsize == old(self).test_queue.maxsize,
                forall|x: int| #[trigger] self.test_queue.queued(x) ==> 0 <= x < n0,
                n0 == old(self).n(),
                q <= nf,
                nf == found@.len(),
                forall|a: int| 0 <= a < found@.len() ==> #[trigger] found@[a] < n0,
                forall|a: int|
                    0 <= a < found@.len() ==> (old(newstates)@[#[trigger] found@[a] as int]
                        matches State::Infected(_)) && (newstates@[found@[a] as int]
                        matches State::Detected(_)),
                forall|x: int|
                    #[trigger] self.test_queue.queued(x) ==> old(self).test_queue.queued(x) || (
                    exists|a: int|
                        0 <= a < q && (crate::graph::seq_has(
                            nbrs_of(old(self).family_graph, found@[a] as int),
                            x,
                        ) || crate::graph::seq_has(
                            nbrs_of(old(self).workplace_graph, found@[a] as int),
                            x,
                        ) || crate::graph::seq_has(
                            nbrs_of(old(self).world_graph, found@[a] as int),
                            x,
                        ))),
                d == old(self).max_daily_tests,
                d == 0 ==> self.counter == old(self).counter && self.test_queue.family_queue
                    == old(self).test_queue.family_queue && self.test_queue.workplace_queue == old(
                    self,
                ).test_queue.workplace_queue && self.test_queue.world_queue == old(
                    self,
                ).test_queue.world_queue && newstates@ == old(newstates)@ && found@.len() == 0,
            decreases nf - q,
        {
            let ghost spre = *self;
            self.queue_contact_tracing(found[q]);
            proof {
                assert forall|x: int| #[trigger] self.test_queue.queued(x) implies old(
                    self,
                ).test_queue.queued(x) || (exists|a: int|
                    0 <= a < q + 1 && (crate::graph::seq_has(
                        nbrs_of(old(self).family_graph, found@[a] as int),
                        x,
                    ) || crate::graph::seq_has(
                        nbrs_of(old(self).workplace_graph, found@[a] as int),
                        x,
                    ) || crate::graph::seq_has(
                        nbrs_of(old(self).world_graph, found@[a] as int),
                        x,
                    ))) by {
                    if spre.test_queue.queued(x) {
                        if !old(self).test_queue.queued(x) {
                            let a = choose|a: int|
                                0 <= a < q && (crate::graph::seq_has(
                                    nbrs_of(old(self).family_graph, found@[a] as int),
                                    x,
                                ) || crate::graph::seq_has(
                                    nbrs_of(old(self).workplace_graph, found@[a] as int),
                                    x,
                                ) || crate::graph::seq_has(
                                    nbrs_of(old(self).world_graph, found@[a] as int),
                                    x,
                                ));
                        }
                    } else {
                        assert(crate::graph::seq_has(
                            nbrs_of(spre.family_graph, found@[q as int] as int),
                            x,
                        ) || crate::graph::seq_has(
                            nbrs_of(spre.workplace_graph, found@[q as int] as int),
                            x,
                        ) || crate::graph::seq_has(
                            nbrs_of(spre.world_graph, found@[q as int] as int),
                            x,
                        ));
                    }
                }
            }
            q += 1;
        }
        proof {
            assert forall|j: int|
                0 <= j < n0 && old(self).test_queue.recently_tested.has(j) implies newstates@[j]
                == old(newstates)@[j] by {
                if newstates@[j] != old(newstates)@[j] {
                    assert(old(self).test_queue.queued(j));
                }
            }
        }
    }
}


/// The tracing drain flips only between the infectious slots, so the
/// severe census is exactly preserved by it.
proof fn lemma_drain_keeps_severe(a: Seq<State>, b: Seq<State>)
    requires
        a.len() == b.len(),
        forall|j: int| 0 <= j < a.len() ==> drain_flip(a[j], #[trigger] b[j]),
    ensures
        census(b, 3) == census(a, 3),
{
    assert forall|j: int| 0 <= j < a.len() && idx_of(a[j]) == 3 implies idx_of(#[trigger] b[j])
        == 3 by {}
    crate::counter::lemma_census_pointwise_monotone(a, b, 3);
    assert forall|j: int| 0 <= j < b.len() && idx_of(b[j]) == 3 implies idx_of(#[trigger] a[j])
        == 3 by {}
    crate::counter::lemma_census_pointwise_monotone(b, a, 3);
}

/// A scan step followed by an optional drain flip is one tick step.
proof fn lemma_step_compose(pre: State, mid: State, post: State)
    requires
        scan_step(pre, mid),
        drain_flip(mid, post),
    ensures
        tick_step(pre, post),
{
}

/// One tick step ages an agent by at most one day.
proof fn lemma_tick_step_age(pre: State, post: State)
    requires
        tick_step(pre, post),
        age_of(pre) < usize::MAX,
    ensures
        age_of(post) <= age_of(pre) + 1,
{
}

impl Simulation {
    /// Advance the simulation one day: reset the daily meters, age the
    /// queue cohorts, compute every agent's successor from the previous
    /// snapshot, run the tracing drain, and install the new snapshot.
    ///
    /// The contract carries the global laws: every agent moves along
    /// the transition relation (so ages grow by one inside a state,
    /// the unattended die or are admitted, the dead stay dead), the
    /// dead census never shrinks, and the seven census totals still
    /// sum to the population.
    pub fn tick(&mut self)
        requires
            old(self).wf(),
            old(self).time < usize::MAX,
        ensures
            final(self).wf(),
            final(self).time == old(self).time + 1,
            final(self).states@.len() == old(self).states@.len(),
            final(self).config == old(self).config,
            final(self).max_daily_tests == old(self).max_daily_tests,
            forall|i: int|
                0 <= i < old(self).n() ==> tick_step(
                    old(self).states@[i],
                    #[trigger] final(self).states@[i],
                ),
            final(self).counter.abs()[6] >= old(self).counter.abs()[6],
            old(self).config.hospital_capacity == 0 && old(self).counter.abs()[3] == 0
                ==> final(self).counter.abs()[3] == 0,
            forall|jj: int|
                (0 <= jj < old(self).n() && old(self).states@[jj] == State::Susceptible
                    && #[trigger] final(self).states@[jj] != State::Susceptible) ==> exists|x: int|
                    0 <= x < old(self).n() && exposure(*old(self), jj, x),
            final(self).serial_interval_average.count == final(self).counter.day()[1],
            final(self).r_average.count <= old(self).states@.len(),
            forall|k: int|
                0 <= k < NSTATES ==> final(self).counter.day()[k] <= old(self).states@.len() + old(
                    self,
                ).max_daily_tests,
            final(self).counter.abs()[0] + final(self).counter.abs()[1] + final(self).counter.abs()[2]
                + final(self).counter.abs()[3] + final(self).counter.abs()[4]
                + final(self).counter.abs()[5] + final(self).counter.abs()[6]
                == final(self).states@.len(),
    {
        self.counter.reset_day_counter();
        self.r_average.reset();
        self.serial_interval_average.reset();
        self.test_queue.tick(self.time);
        proof {
            assert forall|x: int| self.test_queue.queued(x) implies 0 <= x < self.n() by {
                assert(old(self).test_queue.queued(x));
            }
        }
        let ghost base = *self;
        let n = self.states.len();
        let mut newstates: Vec<State> = Vec::with_capacity(n);
        proof {
            assert(newstates@ + base.states@.skip(0) =~= base.states@);
        }
        let mut i: usize = 0;
        while i < n
            invariant
                old(self).wf(),
                old(self).time < usize::MAX,
                base.states == old(self).states,
                base.time == old(self).time,
                base.counter.wf(),
                forall|k: int| 0 <= k < NSTATES ==> base.counter.abs()[k] == census(base.states@, k),
                n == base.states@.len(),
                self.states@ == base.states@,
                self.family_graph == base.family_graph,
                self.workplace_graph == base.workplace_graph,
                self.world_graph == base.world_graph,
                self.config == base.config,
                self.config == old(self).config,
                self.worker_workplaces == base.worker_workplaces,
                self.time == base.time,
                self.max_daily_tests == base.max_daily_tests,
                self.max_daily_tests == old(self).max_daily_tests,
                self.last_disabled_workplace == base.last_disabled_workplace,
                self.test_queue.recently_tested == base.test_queue.recently_tested,
                self.test_queue.maxsize == base.test_queue.maxsize,
                self.ctx(),
                i <= n,
                newstates@.len() == i,
                forall|k: int|
                    0 <= k < NSTATES ==> self.counter.abs()[k] == census(
                        newstates@ + base.states@.skip(i as int),
                        k,
                    ),
                forall|k: int| 0 <= k < NSTATES ==> self.counter.day()[k] <= i,
                forall|j: int|
                    0 <= j < i ==> scan_step(base.states@[j], #[trigger] newstates@[j]),
                old(self).config.hospital_capacity == 0 && old(self).counter.abs()[3] == 0
                    ==> self.counter.abs()[3] == 0,
                base.counter.abs() == old(self).counter.abs(),
                forall|j: int|
                    (0 <= j < i && base.states@[j] == State::Susceptible
                        && #[trigger] newstates@[j] != State::Susceptible) ==> exists|x: int|
                        0 <= x < n && exposure(base, j, x),
                self.serial_interval_average.count == self.counter.day()[1],
                self.r_average.count <= i,
                (forall|kk: int|
                    0 <= kk < base.config.infected_detected_profile@.len()
                        ==> base.config.infected_detected_profile@[kk] == 0)
                    ==> self.counter.day()[2] == 0,
            decreases n - i,
        {
            let ghost mixed = newstates@ + base.states@.skip(i as int);
            proof {
                assert(mixed.len() == n);
                assert(base.states@.skip(i as int)[0] == base.states@[i as int]);
                assert(mixed[i as int] == base.states@[i as int]);
                crate::counter::lemma_census_member(mixed, i as int);
                assert(mixed.len() == self.states.len());
                let from = idx_of(mixed[i as int]);
                assert(self.counter.abs()[from] >= 1);
                assert forall|k: int| 0 <= k < NSTATES && k != from implies self.counter.abs()[k]
                    < usize::MAX by {
                    crate::counter::lemma_census_pair_bound(mixed, from, k);
                }
                assert forall|k: int| 0 <= k < NSTATES implies self.counter.day()[k]
                    < u128::MAX by {
                    assert(self.counter.day()[k] <= i);
                }
                assert(age_of(base.states@[i as int]) <= base.time);
            }
            let s = self.states[i];
            let ghost cpre = self.counter;
            let ghost selfpre = *self;
            let ns = match s {
                State::Susceptible => self.get_infected(i),
                State::Infected(t) => self.transit_infected(t, i),
                State::Detected(t) => self.transit_detected(t, i),
                State::Unattended => self.transit_unattended(),
                State::Severe(t) => self.transit_severe(t),
                State::Immune(t) => self.transit_immune(t),
                State::Dead => State::Dead,
            };
            newstates.push(ns);
            proof {
                assert(scan_step(base.states@[i as int], ns));
                if s == State::Susceptible && ns != State::Susceptible {
                    assert forall|x: int| exposure(selfpre, i as int, x) implies exposure(
                        base,
                        i as int,
                        x,
                    ) by {}
                    assert(exists|x: int| 0 <= x < n && exposure(base, i as int, x));
                }
                let from = idx_of(mixed[i as int]);
                let mixed2 = mixed.update(i as int, ns);
                let rhs = newstates@ + base.states@.skip(i as int + 1);
                assert forall|j: int| 0 <= j < n implies mixed2[j] == rhs[j] by {
                    if j < i {
                    } else if j == i {
                    } else {
                        assert(mixed[j] == base.states@.skip(i as int)[j - i]);
                        assert(base.states@.skip(i as int)[j - i] == base.states@[j]);
                        assert(rhs[j] == base.states@.skip(i as int + 1)[j - i - 1]);
                        assert(base.states@.skip(i as int + 1)[j - i - 1] == base.states@[j]);
                    }
                }
                assert(mixed2 =~= rhs);
                let stayed = (s == State::Dead) || (s == State::Susceptible && ns
                    == State::Susceptible);
                if stayed {
                    assert(self.counter == cpre);
                    assert(ns == mixed[i as int]);
                    assert(mixed2 =~= mixed);
                } else {
                    crate::counter::lemma_counts_after_update(mixed, i as int, ns, cpre.abs());
                    assert(self.counter.abs() == crate::counter::abs_after(
                        cpre.abs(),
                        from,
                        idx_of(ns),
                    ));
                }
                assert forall|k: int| 0 <= k < NSTATES implies self.counter.day()[k] <= i + 1 by {
                    if stayed {
                        assert(self.counter.day() == cpre.day());
                    } else {
                        assert(self.counter.day() == crate::counter::day_after(
                            cpre.day(),
                            from,
                            idx_of(ns),
                        ));
                    }
                }
                if (forall|kk: int|
                    0 <= kk < base.config.infected_detected_profile@.len()
                        ==> base.config.infected_detected_profile@[kk] == 0) && cpre.day()[2]
                    == 0 {
                    assert(self.counter.day()[2] == 0) by {
                        if idx_of(ns) == 2 && from != 2 {
                            assert(s matches State::Infected(_));
                            assert(sat_index_spec(
                                base.config.infected_detected_profile@,
                                age_of(s),
                            ) > 0);
                            assert(sat_index_spec(
                                base.config.infected_detected_profile@,
                                age_of(s),
                            ) == 0);
                        }
                        if stayed {
                            assert(self.counter.day() == cpre.day());
                        } else {
                            assert(self.counter.day() == crate::counter::day_after(
                                cpre.day(),
                                from,
                                idx_of(ns),
                            ));
                        }
                    }
                }
                if old(self).config.hospital_capacity == 0 && old(self).counter.abs()[3] == 0
                    && cpre.abs()[3] == 0 {
                    assert(idx_of(ns) != 3 && from != 3) by {
                        if from == 3 {
                            assert(cpre.abs()[3] == census(mixed, 3));
                        }
                        if idx_of(ns) == 3 {
                            assert(s == State::Unattended || s matches State::Severe(_) || (
                            ns == State::Severe(0usize) && cpre.abs()[3] >= 0));
                        }
                    }
                    assert(self.counter.abs()[3] == 0) by {
                        if !stayed {
                            assert(self.counter.abs() == crate::counter::abs_after(
                                cpre.abs(),
                                from,
                                idx_of(ns),
                            ));
                        }
                    }
                }
            }
            i += 1;
        }
        proof {
            assert(base.states@.skip(n as int) =~= Seq::<State>::empty());
            assert(newstates@ + base.states@.skip(n as int) =~= newstates@);
        }
        let ghost mid = newstates@;
        self.trace_contacts(&mut newstates);
        let ghost drained = *self;
        self.states = newstates;
        self.time = self.time + 1;
        proof {
            assert(self.states@.len() == n);
            assert forall|j: int| 0 <= j < n implies tick_step(
                old(self).states@[j],
                #[trigger] self.states@[j],
            ) by {
                assert(scan_step(base.states@[j], mid[j]));
                assert(drain_flip(mid[j], self.states@[j]));
                lemma_step_compose(base.states@[j], mid[j], self.states@[j]);
            }
            assert forall|j: int| 0 <= j < n implies age_of(#[trigger] self.states@[j])
                <= self.time by {
                assert(age_of(old(self).states@[j]) <= old(self).time);
                lemma_tick_step_age(old(self).states@[j], self.states@[j]);
            }
            crate::counter::lemma_dead_monotone(old(self).states@, self.states@);
            crate::counter::lemma_census_conservation(self.states@);
            if old(self).config.hospital_capacity == 0 && old(self).counter.abs()[3] == 0 {
                lemma_drain_keeps_severe(mid, self.states@);
            }
            assert forall|j: int|
                0 <= j < n && (exists|c: int|
                    (if old(self).time > 1 {
                        1int
                    } else {
                        0int
                    }) <= c < old(self).test_queue.recently_tested.cohorts().len()
                        && crate::graph::seq_has(
                        #[trigger] old(self).test_queue.recently_tested.cohorts()[c],
                        j,
                    )) implies scan_step(old(self).states@[j], #[trigger] self.states@[j]) by {
                let lo: int = if old(self).time > 1 {
                    1int
                } else {
                    0int
                };
                let c = choose|c: int|
                    lo <= c < old(self).test_queue.recently_tested.cohorts().len()
                        && crate::graph::seq_has(
                        old(self).test_queue.recently_tested.cohorts()[c],
                        j,
                    );
                assert(base.test_queue.recently_tested.has(j)) by {
                    if old(self).time > 1 {
                        assert(base.test_queue.recently_tested.cohorts() == old(
                            self,
                        ).test_queue.recently_tested.cohorts().drop_first());
                        assert(base.test_queue.recently_tested.cohorts()[c - 1] == old(
                            self,
                        ).test_queue.recently_tested.cohorts()[c]);
                        assert(crate::graph::seq_has(
                            base.test_queue.recently_tested.cohorts()[c - 1],
                            j,
                        ));
                    } else {
                        assert(base.test_queue.recently_tested == old(
                            self,
                        ).test_queue.recently_tested);
                        assert(crate::graph::seq_has(
                            base.test_queue.recently_tested.cohorts()[c],
                            j,
                        ));
                    }
                }
                assert(self.states@[j] == mid[j]);
                assert(scan_step(base.states@[j], mid[j]));
            }
            assert forall|jj: int|
                (0 <= jj < n && old(self).states@[jj] == State::Susceptible
                    && #[trigger] self.states@[jj] != State::Susceptible) implies exists|x: int|
                0 <= x < n && exposure(*old(self), jj, x) by {
                assert(drain_flip(mid[jj], self.states@[jj]));
                assert(mid[jj] != State::Susceptible);
                let x = choose|x: int| 0 <= x < n && exposure(base, jj, x);
                assert(exposure(*old(self), jj, x)) by {
                    assert(exposure(base, jj, x));
                }
            }
            assert forall|x: int| self.test_queue.queued(x) implies 0 <= x < self.n() by {
                assert(drained.test_queue.queued(x));
            }
        }
    }
}


/// An empty hazard profile means "always zero": give it its one entry.
fn normalize_profile(v: &mut Vec<u64>)
    requires
        crate::config::profile_ok(old(v)@),
    ensures
        crate::config::profile_ok(final(v)@),
        final(v)@.len() >= 1,
{
    if v.len() == 0 {
        v.push(0);
    }
}

impl Simulation {
    /// Builds the population on a generator from system entropy; the
    /// configuration is accepted exactly when it is valid.
    pub fn new(config: Config) -> (r: Option<Simulation>)
        ensures
            r is Some <==> config.valid(),
            r matches Some(sim) ==> sim.wf() && sim.time == 0 && new_shape(config, sim),
    {
        Simulation::build(config, SimRng::from_entropy())
    }

    /// Builds the population on a seeded generator, for reproducible
    /// runs.
    pub fn new_seeded(config: Config, seed: u64) -> (r: Option<Simulation>)
        ensures
            r is Some <==> config.valid(),
            r matches Some(sim) ==> sim.wf() && sim.time == 0 && new_shape(config, sim),
    {
        Simulation::build(config, SimRng::from_seed(seed))
    }

    /// Population construction: families are built contiguously as
    /// cliques from the weighted size distribution; each new agent
    /// joins a uniform workplace with one trial per current member, and
    /// the world layer with one trial per predecessor; finally the
    /// outbreak seeds a uniform subset of agents.
    fn build(config: Config, rng: SimRng) -> (r: Option<Simulation>)
        ensures
            r is Some <==> config.valid(),
            r matches Some(sim) ==> sim.wf() && sim.time == 0 && new_shape(config, sim),
    {
        if !config.check_valid() {
            return None;
        }
        let mut config = config;
        normalize_profile(&mut config.susceptible_infected_profile);
        normalize_profile(&mut config.infected_detected_profile);
        normalize_profile(&mut config.infected_severe_profile);
        normalize_profile(&mut config.infected_immune_profile);
        normalize_profile(&mut config.severe_immune_profile);
        normalize_profile(&mut config.severe_dead_profile);
        normalize_profile(&mut config.immune_susceptible_profile);
        let ghost cfg0 = config;
        let mut rng = rng;
        let mut counter = Counter::new();
        let mut family_graph = Graph::new();
        let mut workplace_graph = Graph::new();
        let mut world_graph = Graph::new();
        let nworkplaces = config.nworkplaces();
        let mut workplaces: Vec<Vec<usize>> = Vec::new();
        let mut wi: usize = 0;
        while wi < nworkplaces
            invariant
                wi <= nworkplaces,
                workplaces@.len() == wi,
                forall|w: int, m: int|
                    0 <= w < workplaces@.len() && 0 <= m < workplaces@[w]@.len()
                        ==> #[trigger] workplaces@[w]@[m] < 0,
            decreases nworkplaces - wi,
        {
            workplaces.push(Vec::new());
            wi += 1;
        }
        let mut worker_workplaces: Vec<usize> = Vec::new();
        let mut states: Vec<State> = Vec::new();
        let pop = config.total_population;
        let world_p: u64 = {
            proof {
                assert((config.average_world_connections as u128) * (SCALE as u128)
                    <= u128::MAX) by (nonlinear_arith)
                    requires
                        config.average_world_connections <= u64::MAX,
                ;
            }
            let raw: u128 = (config.average_world_connections as u128) * (SCALE as u128) / (
            pop as u128);
            if raw > SCALE as u128 {
                SCALE
            } else {
                raw as u64
            }
        };
        let ghost mut famtag: Seq<int> = Seq::empty();
        let ghost mut next_family: int = 0;
        while states.len() < pop
            invariant
                config == cfg0,
                cfg0.valid(),
                profiles_ready(cfg0),
                pop == config.total_population,
                nworkplaces == config.nworkplaces_spec(),
                family_graph.wf(),
                workplace_graph.wf(),
                world_graph.wf(),
                family_graph.n() == states@.len(),
                workplace_graph.n() == states@.len(),
                world_graph.n() == states@.len(),
                worker_workplaces@.len() == states@.len(),
                counter.wf(),
                forall|k: int| 0 <= k < NSTATES ==> counter.abs()[k] == census(states@, k),
                forall|k: int| 0 <= k < NSTATES ==> counter.day()[k] == 0,
                forall|j: int| 0 <= j < states@.len() ==> states@[j] == State::Susceptible,
                workplaces@.len() == nworkplaces,
                forall|w: int, m: int|
                    0 <= w < workplaces@.len() && 0 <= m < workplaces@[w]@.len()
                        ==> #[trigger] workplaces@[w]@[m] < states@.len(),
                states@.len() < pop || exists|kk: int|
                    0 <= kk < config.family_sizes@.len() && states@.len() <= pop - 1
                        + #[trigger] config.family_sizes@[kk],
                famtag.len() == states@.len(),
                monotone_tags(famtag),
                forall|a: int| 0 <= a < famtag.len() ==> #[trigger] famtag[a] < next_family,
                family_tagged(family_graph, famtag),
                workplace_tagged(workplace_graph, worker_workplaces@),
                forall|i: int|
                    0 <= i < worker_workplaces@.len() ==> #[trigger] worker_workplaces@[i]
                        < nworkplaces,
                forall|w: int, m: int|
                    0 <= w < workplaces@.len() && 0 <= m < workplaces@[w]@.len()
                        ==> worker_workplaces@[#[trigger] workplaces@[w]@[m] as int] == w,
            decreases (if states@.len() < pop {
                pop - states@.len()
            } else {
                0int
            }),
        {
            let fidx = rng.categorical(&config.family_size_weights);
            let fsize = config.family_sizes[fidx];
            proof {
                assert(config.family_sizes@[fidx as int] >= 1);
            }
            let ghost start_len = states@.len();
            let mut id_f: usize = 0;
            while id_f < fsize
                invariant
                    config == cfg0,
                    cfg0.valid(),
                    profiles_ready(cfg0),
                    pop == config.total_population,
                    nworkplaces == config.nworkplaces_spec(),
                    nworkplaces >= 1,
                    fsize <= usize::MAX - pop,
                    id_f <= fsize,
                    family_graph.wf(),
                    workplace_graph.wf(),
                    world_graph.wf(),
                    family_graph.n() == states@.len(),
                    workplace_graph.n() == states@.len(),
                    world_graph.n() == states@.len(),
                    worker_workplaces@.len() == states@.len(),
                    counter.wf(),
                    forall|k: int| 0 <= k < NSTATES ==> counter.abs()[k] == census(states@, k),
                    forall|k: int| 0 <= k < NSTATES ==> counter.day()[k] == 0,
                    forall|j: int| 0 <= j < states@.len() ==> states@[j] == State::Susceptible,
                    workplaces@.len() == nworkplaces,
                    forall|w: int, m: int|
                        0 <= w < workplaces@.len() && 0 <= m < workplaces@[w]@.len()
                            ==> #[trigger] workplaces@[w]@[m] < states@.len(),
                    start_len < pop,
                    states@.len() == start_len + id_f,
                    famtag.len() == states@.len(),
                    monotone_tags(famtag),
                    forall|a: int| 0 <= a < famtag.len() ==> #[trigger] famtag[a] <= next_family,
                    forall|b: int|
                        0 <= b < famtag.len() ==> (#[trigger] famtag[b] == next_family <==> start_len
                            <= b),
                    family_tagged(family_graph, famtag),
                    workplace_tagged(workplace_graph, worker_workplaces@),
                    forall|i: int|
                        0 <= i < worker_workplaces@.len() ==> #[trigger] worker_workplaces@[i]
                            < nworkplaces,
                    forall|w: int, m: int|
                        0 <= w < workplaces@.len() && 0 <= m < workplaces@[w]@.len()
                            ==> worker_workplaces@[#[trigger] workplaces@[w]@[m] as int] == w,
                decreases fsize - id_f,
            {
                proof {
                    assert(states@.len() < usize::MAX);
                }
                let g = family_graph.register_node();
                let g2 = workplace_graph.register_node();
                let g3 = world_graph.register_node();
                proof {
                    famtag = famtag.push(next_family);
                }
                let ghost gpre = family_graph;
                let mut prev = g - id_f;
                while prev < g
                    invariant
                        family_graph.wf(),
                        family_graph.n() == g + 1,
                        g == start_len + id_f,
                        g - id_f <= prev <= g,
                        g < usize::MAX,
                        famtag.len() == g + 1,
                        forall|b: int|
                            0 <= b < famtag.len() ==> (#[trigger] famtag[b] == next_family
                                <==> start_len <= b),
                        gpre.wf(),
                        gpre.n() == g + 1,
                        forall|a: int, b: int|
                            0 <= a < g + 1 && 0 <= b < g + 1 && #[trigger] gpre.edge(a, b) ==> a
                                < g && b < g,
                        forall|a: int, b: int|
                            0 <= a < g && 0 <= b < g ==> (#[trigger] gpre.edge(a, b) <==> (a != b
                                && famtag[a] == famtag[b])),
                        forall|a: int, b: int|
                            0 <= a < g + 1 && 0 <= b < g + 1 ==> (#[trigger] family_graph.edge(
                                a,
                                b,
                            ) <==> (gpre.edge(a, b) || (a == g && start_len <= b < prev) || (b == g
                                && start_len <= a < prev))),
                    decreases g - prev,
                {
                    family_graph.add_link(prev, g);
                    prev += 1;
                }
                proof {
                    assert forall|a: int, b: int| 0 <= a < g + 1 && 0 <= b < g + 1 implies (
                    #[trigger] family_graph.edge(a, b) <==> (a != b && famtag[a] == famtag[
                        b])) by {
                        if a < g && b < g {
                            assert(family_graph.edge(a, b) <==> gpre.edge(a, b));
                        } else if a == g && b == g {
                            assert(!gpre.edge(a, b));
                        } else if a == g {
                            assert(famtag[a] == next_family);
                        } else {
                            assert(famtag[b] == next_family);
                        }
                    }
                }
                let wp = rng.index_below(nworkplaces);
                worker_workplaces.push(wp);
                let nmembers = workplaces[wp].len();
                let mut m: usize = 0;
                while m < nmembers
                    invariant
                        workplace_graph.wf(),
                        workplace_graph.n() == g + 1,
                        m <= nmembers,
                        wp < workplaces@.len(),
                        nmembers == workplaces@[wp as int]@.len(),
                        forall|w: int, mm: int|
                            0 <= w < workplaces@.len() && 0 <= mm < workplaces@[w]@.len()
                                ==> #[trigger] workplaces@[w]@[mm] < g,
                        g < usize::MAX,
                        cfg0.valid(),
                        config == cfg0,
                        worker_workplaces@.len() == g + 1,
                        worker_workplaces@[g as int] == wp,
                        workplace_tagged(workplace_graph, worker_workplaces@),
                        forall|w: int, mm: int|
                            0 <= w < workplaces@.len() && 0 <= mm < workplaces@[w]@.len()
                                ==> worker_workplaces@[#[trigger] workplaces@[w]@[mm] as int] == w,
                    decreases nmembers - m,
                {
                    if rng.bernoulli(config.workplace_connectivity) {
                        let other = workplaces[wp][m];
                        let ghost wgpre = workplace_graph;
                        workplace_graph.add_link(g, other);
                        proof {
                            assert(worker_workplaces@[other as int] == wp);
                            assert forall|a: int, b: int|
                                0 <= a < g + 1 && 0 <= b < g + 1
                                    && #[trigger] workplace_graph.edge(a, b) implies
                                worker_workplaces@[a] == worker_workplaces@[b] by {
                                if !wgpre.edge(a, b) {
                                    assert((a == g && b == other) || (a == other && b == g));
                                }
                            }
                        }
                    }
                    m += 1;
                }
                workplaces[wp].push(g);
                proof {
                    assert forall|w: int, mm: int|
                        0 <= w < workplaces@.len() && 0 <= mm < workplaces@[w]@.len() implies
                        worker_workplaces@[#[trigger] workplaces@[w]@[mm] as int] == w by {
                        if w == wp && mm == workplaces@[wp as int]@.len() - 1 {
                            assert(workplaces@[w]@[mm] == g);
                        }
                    }
                }
                let mut j: usize = 0;
                while j < g
                    invariant
                        world_graph.wf(),
                        world_graph.n() == g + 1,
                        j <= g,
                        g < usize::MAX,
                    decreases g - j,
                {
                    if rng.bernoulli(world_p) {
                        world_graph.add_link(j, g);
                    }
                    j += 1;
                }
                let ghost spre = states@;
                proof {
                    crate::counter::lemma_census_bound(spre, 0);
                }
                states.push(State::Susceptible);
                counter.register(State::Susceptible);
                proof {
                    crate::counter::lemma_census_push(spre, State::Susceptible, 0);
                    assert forall|k: int| 0 <= k < NSTATES implies counter.abs()[k] == census(
                        states@,
                        k,
                    ) by {
                        crate::counter::lemma_census_push(spre, State::Susceptible, k);
                    }
                    assert forall|w: int, mm: int|
                        0 <= w < workplaces@.len() && 0 <= mm < workplaces@[w]@.len()
                            implies #[trigger] workplaces@[w]@[mm] < states@.len() by {}
                }
                id_f += 1;
            }
            proof {
                assert(states@.len() == start_len + fsize);
                assert(states@.len() > start_len);
                assert(states@.len() <= pop - 1 + config.family_sizes@[fidx as int]);
                next_family = next_family + 1;
            }
        }
        let n = states.len();
        let mut infections_caused: Vec<usize> = Vec::new();
        let mut ii: usize = 0;
        while ii < n
            invariant
                ii <= n,
                infections_caused@.len() == ii,
            decreases n - ii,
        {
            infections_caused.push(0);
            ii += 1;
        }
        let k = if config.total_population < config.initial_outbreak_size {
            config.total_population
        } else {
            config.initial_outbreak_size
        };
        proof {
            crate::counter::lemma_census_none(states@, 1);
        }
        let mut chosen: usize = 0;
        let mut idx: usize = 0;
        while idx < n
            invariant
                chosen <= k,
                k <= n,
                idx <= n,
                k - chosen <= n - idx,
                n == states@.len(),
                counter.wf(),
                forall|kk: int| 0 <= kk < NSTATES ==> counter.abs()[kk] == census(states@, kk),
                forall|kk: int| 0 <= kk < NSTATES ==> counter.day()[kk] <= chosen,
                forall|j: int| idx <= j < n ==> states@[j] == State::Susceptible,
                forall|j: int|
                    0 <= j < n ==> states@[j] == State::Susceptible || #[trigger] states@[j]
                        == State::Infected(0usize),
                census(states@, 1) == chosen,
            decreases n - idx,
        {
            if chosen < k {
                let remaining = n - idx;
                let needed = k - chosen;
                let draw = rng.below(remaining as u64);
                if draw < needed as u64 {
                    let ghost spre = states@;
                    proof {
                        crate::counter::lemma_counts_after_update(
                            spre,
                            idx as int,
                            State::Infected(0),
                            counter.abs(),
                        );
                    }
                    counter.transit(State::Susceptible, State::Infected(0));
                    states[idx] = State::Infected(0);
                    proof {
                        assert(states@ =~= spre.update(idx as int, State::Infected(0usize)));
                    }
                    chosen += 1;
                }
            }
            idx += 1;
        }
        proof {
            assert(chosen == k);
            assert forall|kk: int| 2 <= kk < NSTATES implies census(states@, kk) == 0 by {
                crate::counter::lemma_census_none(states@, kk);
            }
        }
        let sim = Simulation {
            family_graph,
            workplace_graph,
            world_graph,
            counter,
            states,
            worker_workplaces,
            infections_caused,
            r_average: Averager::new(),
            serial_interval_average: Averager::new(),
            last_disabled_workplace: 0,
            config,
            max_daily_tests: 0,
            test_queue: TestQueue::new(0),
            time: 0,
        rng,
        };
        proof {
            assert forall|i: int| 0 <= i < sim.n() implies age_of(#[trigger] sim.states@[i])
                <= sim.time by {
                assert(sim.states@[i] == State::Susceptible || sim.states@[i] == State::Infected(
                    0usize,
                ));
            }
            crate::counter::lemma_census_conservation(sim.states@);
            assert(monotone_tags(famtag));
            assert(family_tagged(sim.family_graph, famtag));
            assert(workplace_tagged(sim.workplace_graph, sim.worker_workplaces@));
            assert(sim.ctx());
            assert(sim.wf());
            assert(sim.counter.abs()[1] == k);
            assert(sim.counter.abs()[2] == 0 && sim.counter.abs()[3] == 0 && sim.counter.abs()[4]
                == 0 && sim.counter.abs()[5] == 0 && sim.counter.abs()[6] == 0);
            assert(sim.counter.abs()[0] == sim.n() - k);
            assert(new_shape(config, sim));
        }
        Some(sim)
    }
}

/// A monotone tagging groups agents into contiguous blocks.
pub open spec fn monotone_tags(fam: Seq<int>) -> bool {
    forall|a: int, b: int| #![trigger fam[a], fam[b]] 0 <= a <= b < fam.len() ==> fam[a] <= fam[b]
}

/// The family layer realizes a tagging: an edge sits exactly between
/// distinct agents of the same family.
pub open spec fn family_tagged(g: Graph, fam: Seq<int>) -> bool {
    &&& fam.len() == g.n()
    &&& forall|a: int, b: int|
        0 <= a < g.n() && 0 <= b < g.n() ==> (#[trigger] g.edge(a, b) <==> (a != b && fam[a]
            == fam[b]))
}

/// Workplace edges join only agents of the same workplace.
pub open spec fn workplace_tagged(g: Graph, worker: Seq<usize>) -> bool {
    &&& worker.len() == g.n()
    &&& forall|a: int, b: int|
        0 <= a < g.n() && 0 <= b < g.n() && #[trigger] g.edge(a, b) ==> worker[a] == worker[b]
}

/// What a fresh simulation looks like: the clock at zero, at least the
/// requested population all susceptible but for the seeded outbreak,
/// clean meters and an empty tracing queue.
pub open spec fn new_shape(config: Config, sim: Simulation) -> bool {
    &&& sim.time == 0
    &&& sim.n() >= config.total_population
    &&& sim.counter.abs()[1] == (if config.initial_outbreak_size <= config.total_population {
        config.initial_outbreak_size as int
    } else {
        config.total_population as int
    })
    &&& sim.counter.abs()[0] == sim.n() - sim.counter.abs()[1]
    &&& sim.counter.abs()[2] == 0 && sim.counter.abs()[3] == 0 && sim.counter.abs()[4] == 0
        && sim.counter.abs()[5] == 0 && sim.counter.abs()[6] == 0
    &&& sim.max_daily_tests == 0
    &&& sim.test_queue.maxsize == 0
    &&& sim.last_disabled_workplace == 0
    &&& sim.serial_interval_average.sum == 0 && sim.serial_interval_average.count == 0
    &&& exists|k: int|
        0 <= k < config.family_sizes@.len() && sim.n() <= config.total_population - 1
            + #[trigger] config.family_sizes@[k]
    &&& workplace_tagged(sim.workplace_graph, sim.worker_workplaces@)
    &&& forall|i: int|
        0 <= i < sim.n() ==> #[trigger] sim.worker_workplaces@[i] < config.nworkplaces_spec()
    &&& exists|fam: Seq<int>| monotone_tags(fam) && family_tagged(sim.family_graph, fam)
    &&& sim.config.total_population == config.total_population
    &&& sim.config.hospital_capacity == config.hospital_capacity
    &&& sim.config.initial_outbreak_size == config.initial_outbreak_size
    &&& sim.r_average.sum == 0 && sim.r_average.count == 0
    &&& forall|x: int| !sim.test_queue.queued(x) && !sim.test_queue.recently_tested.has(x)
}


impl Simulation {
    /// Culls world connections: every world edge independently survives
    /// with probability `1 - f_ppb / SCALE`. A permanent structural
    /// change: the surviving edges are a subset of the old ones, and
    /// the other layers are untouched.
    pub fn disable_fraction_of_world_connections(&mut self, f_ppb: u64)
        requires
            old(self).wf(),
        ensures
            final(self).wf(),
            final(self).world_graph.wf(),
            final(self).world_graph.n() == old(self).world_graph.n(),
            forall|a: int, b: int|
                0 <= a < old(self).n() && 0 <= b < old(self).n()
                    && #[trigger] final(self).world_graph.edge(a, b) ==> old(
                    self).world_graph.edge(a, b),
            f_ppb == 0 ==> final(self).world_graph == old(self).world_graph,
            f_ppb >= SCALE ==> forall|a: int, b: int|
                0 <= a < old(self).n() && 0 <= b < old(self).n() ==> !#[trigger] final(
                    self).world_graph.edge(a, b),
            *final(self) == (Simulation {
                world_graph: final(self).world_graph,
                rng: final(self).rng,
                ..*old(self)
            }),
    {
        let n = self.states.len();
        let mut i: usize = 0;
        while i < n
            invariant
                old(self).wf(),
                n == old(self).n(),
                self.world_graph.wf(),
                self.world_graph.n() == n,
                forall|a: int, b: int|
                    0 <= a < n && 0 <= b < n && #[trigger] self.world_graph.edge(a, b) ==> old(
                        self,
                    ).world_graph.edge(a, b),
                i <= n,
                f_ppb == 0 ==> self.world_graph == old(self).world_graph,
                f_ppb >= SCALE ==> forall|a: int, b: int|
                    0 <= a < i && b < a ==> !#[trigger] self.world_graph.edge(a, b),
                *self == (Simulation { world_graph: self.world_graph, rng: self.rng, ..*old(self) }),
            decreases n - i,
        {
            let lefts = self.world_graph.left_neighbors(i);
            let nl = lefts.len();
            let mut k: usize = 0;
            while k < nl
                invariant
                    old(self).wf(),
                    n == old(self).n(),
                    self.world_graph.wf(),
                    self.world_graph.n() == n,
                    forall|a: int, b: int|
                        0 <= a < n && 0 <= b < n && #[trigger] self.world_graph.edge(a, b) ==> old(
                            self,
                        ).world_graph.edge(a, b),
                    k <= nl,
                    i < n,
                    nl == lefts@.len(),
                    forall|a: int| 0 <= a < lefts@.len() ==> #[trigger] lefts@[a] < i,
                    forall|b: int|
                        b < i && #[trigger] self.world_graph.edge(i as int, b)
                            ==> crate::graph::seq_has(lefts@, b),
                    f_ppb == 0 ==> self.world_graph == old(self).world_graph,
                    f_ppb >= SCALE ==> forall|a: int, b: int|
                        0 <= a < i && b < a ==> !#[trigger] self.world_graph.edge(a, b),
                    f_ppb >= SCALE ==> forall|a: int|
                        0 <= a < k ==> !self.world_graph.edge(i as int, #[trigger] lefts@[a] as int),
                    *self == (Simulation {
                        world_graph: self.world_graph,
                        rng: self.rng,
                        ..*old(self)
                    }),
                decreases nl - k,
            {
                if self.rng.bernoulli(f_ppb) {
                    let ghost gpre = self.world_graph;
                    self.world_graph.remove_link(i, lefts[k]);
                    proof {
                        assert forall|a: int, b: int|
                            0 <= a < n && 0 <= b < n && #[trigger] self.world_graph.edge(a, b)
                            implies old(self).world_graph.edge(a, b) by {
                            assert(gpre.edge(a, b));
                        }
                        assert forall|b: int|
                            b < i && #[trigger] self.world_graph.edge(i as int, b) implies
                            crate::graph::seq_has(lefts@, b) by {
                            assert(gpre.edge(i as int, b));
                        }
                    }
                }
                k += 1;
            }
            proof {
                if f_ppb >= SCALE {
                    assert forall|a: int, b: int| 0 <= a < i + 1 && b < a implies
                        !#[trigger] self.world_graph.edge(a, b) by {
                        if a == i && self.world_graph.edge(a, b) {
                            assert(crate::graph::seq_has(lefts@, b));
                            let q = choose|q: int| 0 <= q < lefts@.len() && lefts@[q] == b;
                            assert(!self.world_graph.edge(i as int, lefts@[q] as int));
                        }
                    }
                }
            }
            i += 1;
        }
        proof {
            if f_ppb >= SCALE {
                assert forall|a: int, b: int| 0 <= a < n && 0 <= b < n implies
                    !#[trigger] self.world_graph.edge(a, b) by {
                    if self.world_graph.edge(a, b) {
                        if b < a {
                        } else if a < b {
                            self.world_graph.lemma_symmetry(a, b);
                            assert(self.world_graph.edge(b, a));
                        } else {
                            let q = choose|q: int|
                                0 <= q < self.world_graph.right(a).len()
                                    && self.world_graph.right(a)[q] == b;
                            assert(a < self.world_graph.right(a)[q]);
                        }
                    }
                }
            }
        }
    }
}


/// With a hazard profile that is zero everywhere, no contact can
/// infect: the deterministic core of universal immediate immunity.
pub proof fn lemma_zero_profile_blocks_exposure(sim: Simulation, i: int, j: int)
    requires
        sim.config.susceptible_infected_profile@.len() >= 1,
        forall|k: int|
            0 <= k < sim.config.susceptible_infected_profile@.len()
                ==> sim.config.susceptible_infected_profile@[k] == 0,
    ensures
        !exposure(sim, i, j),
{
    lemma_hazard_pair_zero(sim, sim.config.susceptible_infected_profile@, i, j);
}

proof fn lemma_hazard_of_zero(p: Seq<u64>, c: u64, t: int)
    requires
        p.len() >= 1,
        t >= 0,
        forall|k: int| 0 <= k < p.len() ==> p[k] == 0,
    ensures
        coef_mul(c, sat_index_spec(p, t)) == 0,
{
    assert(sat_index_spec(p, t) == 0);
    assert(c * 0 == 0) by (nonlinear_arith);
}

proof fn lemma_hazard_pair_zero(sim: Simulation, p: Seq<u64>, i: int, j: int)
    requires
        p == sim.config.susceptible_infected_profile@,
        p.len() >= 1,
        forall|k: int| 0 <= k < p.len() ==> p[k] == 0,
    ensures
        !exposure(sim, i, j),
{
    match sim.states@[j] {
        State::Infected(t) => {
            lemma_hazard_of_zero(p, sim.config.family_contact_undetected_coef, t as int);
            lemma_hazard_of_zero(p, sim.config.workplace_contact_undetected_coef, t as int);
            lemma_hazard_of_zero(p, sim.config.world_contact_undetected_coef, t as int);
        },
        State::Detected(t) => {
            lemma_hazard_of_zero(p, sim.config.family_contact_detected_coef, t as int);
            lemma_hazard_of_zero(p, sim.config.workplace_contact_detected_coef, t as int);
            lemma_hazard_of_zero(p, sim.config.world_contact_detected_coef, t as int);
        },
        _ => {},
    }
}

/// With family and world contacts switched off and the agent's
/// workplace disabled, the agent cannot be exposed at all: the
/// deterministic half of the workplace-closure intervention.
pub proof fn lemma_workplace_closure_blocks_exposure(sim: Simulation, i: int, j: int)
    requires
        sim.config.family_contact_undetected_coef == 0,
        sim.config.family_contact_detected_coef == 0,
        sim.config.world_contact_undetected_coef == 0,
        sim.config.world_contact_detected_coef == 0,
        0 <= i < sim.worker_workplaces@.len(),
        sim.worker_workplaces@[i] < sim.last_disabled_workplace,
    ensures
        !exposure(sim, i, j),
{
    let p = sim.config.susceptible_infected_profile@;
    match sim.states@[j] {
        State::Infected(t) => {
            lemma_zero_coef(p, t as int);
        },
        State::Detected(t) => {
            lemma_zero_coef(p, t as int);
        },
        _ => {},
    }
}

proof fn lemma_zero_coef(p: Seq<u64>, t: int)
    ensures
        coef_mul(0, sat_index_spec(p, t)) == 0,
{
    assert(0 * sat_index_spec(p, t) == 0) by (nonlinear_arith);
}

} // verus!
