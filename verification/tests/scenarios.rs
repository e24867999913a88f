use episim::config::Config;
use episim::sim::Simulation;
use episim::state::State;
use episim::SCALE;

/// A small configuration with every hazard off; scenarios switch on
/// exactly what they test.
fn quiet_config(pop: usize, outbreak: usize) -> Config {
    let mut c = Config::default_config();
    c.total_population = pop;
    c.initial_outbreak_size = outbreak;
    c.hospital_capacity = 10;
    c.average_workplace_size = 5;
    c.average_world_connections = 3;
    c.susceptible_infected_profile = vec![0];
    c.infected_detected_profile = vec![0];
    c.infected_severe_profile = vec![0];
    c.infected_immune_profile = vec![0];
    c.severe_immune_profile = vec![0];
    c.severe_dead_profile = vec![0];
    c.immune_susceptible_profile = vec![0];
    c
}

fn total_of(sim: &Simulation) -> usize {
    let c = sim.get_counter();
    let mut sum = 0usize;
    for s in [
        State::Susceptible,
        State::Infected(0),
        State::Detected(0),
        State::Severe(0),
        State::Unattended,
        State::Immune(0),
        State::Dead,
    ] {
        sum += c.state_count(s);
    }
    sum
}

#[test]
fn invalid_configs_are_rejected() {
    let mut c = quiet_config(0, 0);
    assert!(Simulation::new_seeded(c, 1).is_none());
    c = quiet_config(100, 0);
    c.family_sizes = vec![];
    c.family_size_weights = vec![];
    assert!(Simulation::new_seeded(c, 1).is_none());
    c = quiet_config(100, 0);
    c.susceptible_infected_profile = vec![SCALE + 1];
    assert!(Simulation::new_seeded(c, 1).is_none());
    c = quiet_config(100, 0);
    c.family_size_weights = vec![0, 0, 0, 0, 0];
    assert!(Simulation::new_seeded(c, 1).is_none());
}

#[test]
fn empty_profiles_mean_always_zero() {
    let mut c = quiet_config(40, 3);
    c.susceptible_infected_profile = vec![];
    c.infected_immune_profile = vec![];
    let mut sim = Simulation::new_seeded(c, 5).unwrap();
    for _ in 0..5 {
        sim.tick();
    }
    let counter = sim.get_counter();
    assert_eq!(counter.state_count(State::Infected(0)), 3);
}

#[test]
fn no_outbreak_stays_fully_susceptible() {
    let c = quiet_config(100, 0);
    let mut sim = Simulation::new_seeded(c, 42).unwrap();
    let n = total_of(&sim);
    assert!(n >= 100);
    for _ in 0..100 {
        sim.tick();
    }
    let counter = sim.get_counter();
    assert_eq!(counter.state_count(State::Susceptible), n);
    assert_eq!(counter.state_count(State::Infected(0)), 0);
    assert_eq!(counter.state_count(State::Detected(0)), 0);
    assert_eq!(counter.state_count(State::Severe(0)), 0);
    assert_eq!(counter.state_count(State::Unattended), 0);
    assert_eq!(counter.state_count(State::Immune(0)), 0);
    assert_eq!(counter.state_count(State::Dead), 0);
    assert_eq!(sim.get_time(), 100);
}

#[test]
fn universal_immediate_immunity_clears_the_outbreak() {
    let mut c = quiet_config(60, 7);
    c.susceptible_infected_profile = vec![0];
    c.infected_immune_profile = vec![SCALE];
    let mut sim = Simulation::new_seeded(c, 7).unwrap();
    let n = total_of(&sim);
    for _ in 0..3 {
        sim.tick();
    }
    let counter = sim.get_counter();
    assert_eq!(counter.state_count(State::Infected(0)), 0);
    assert_eq!(counter.state_count(State::Detected(0)), 0);
    assert_eq!(counter.state_count(State::Severe(0)), 0);
    assert_eq!(counter.state_count(State::Immune(0)), 7);
    assert_eq!(counter.day_count(State::Immune(0)), 0);
    assert_eq!(
        counter.state_count(State::Susceptible) + counter.state_count(State::Immune(0))
            + counter.state_count(State::Dead),
        n
    );
}

#[test]
fn hospital_overflow_goes_unattended_then_dead() {
    let mut c = quiet_config(30, 1);
    c.hospital_capacity = 0;
    c.infected_severe_profile = vec![SCALE];
    let mut sim = Simulation::new_seeded(c, 9).unwrap();
    sim.tick();
    let counter = sim.get_counter();
    assert_eq!(counter.state_count(State::Unattended), 1);
    assert_eq!(counter.state_count(State::Severe(0)), 0);
    assert_eq!(counter.day_count(State::Unattended), 1);
    sim.tick();
    let counter = sim.get_counter();
    assert_eq!(counter.state_count(State::Unattended), 0);
    assert_eq!(counter.state_count(State::Dead), 1);
    assert_eq!(counter.day_count(State::Dead), 1);
    assert_eq!(counter.day_count(State::Unattended), 0);
}

#[test]
fn with_capacity_the_severe_are_admitted() {
    let mut c = quiet_config(30, 1);
    c.hospital_capacity = 5;
    c.infected_severe_profile = vec![SCALE];
    let mut sim = Simulation::new_seeded(c, 9).unwrap();
    sim.tick();
    let counter = sim.get_counter();
    assert_eq!(counter.state_count(State::Severe(0)), 1);
    assert_eq!(counter.state_count(State::Unattended), 0);
}

#[test]
fn conservation_and_monotone_dead_hold_over_a_run() {
    let mut c = quiet_config(80, 10);
    c.susceptible_infected_profile = vec![200_000_000];
    c.infected_detected_profile = vec![100_000_000];
    c.infected_severe_profile = vec![100_000_000];
    c.infected_immune_profile = vec![100_000_000];
    c.severe_immune_profile = vec![100_000_000];
    c.severe_dead_profile = vec![300_000_000];
    c.immune_susceptible_profile = vec![50_000_000];
    c.hospital_capacity = 2;
    let mut sim = Simulation::new_seeded(c, 77).unwrap();
    let n = total_of(&sim);
    let mut dead_before = 0usize;
    for _ in 0..40 {
        sim.tick();
        let counter = sim.get_counter();
        assert_eq!(total_of(&sim), n);
        let dead = counter.state_count(State::Dead);
        assert!(dead >= dead_before);
        dead_before = dead;
    }
}

#[test]
fn ages_advance_day_by_day() {
    // One seeded agent held infectious: after k ticks its state is
    // Infected(k), observable through the serial-interval record of a
    // fresh infection drawn from a maximal-hazard contact.
    let mut c = quiet_config(2, 1);
    c.family_sizes = vec![2];
    c.family_size_weights = vec![1];
    c.susceptible_infected_profile = vec![0, 0, 0, SCALE];
    let mut sim = Simulation::new_seeded(c, 3).unwrap();
    // Ticks 1..3 draw hazard 0 (ages 0..2); on the 4th the hazard is 1.
    for _ in 0..4 {
        sim.tick();
    }
    let counter = sim.get_counter();
    assert_eq!(counter.state_count(State::Infected(0)), 2);
    let (serial_sum, serial_count) = sim.get_daily_serial_interval();
    assert_eq!(serial_count, 1);
    assert_eq!(serial_sum, 3);
}

#[test]
fn workplace_closure_never_increases_infections() {
    // Transmission only over the workplace layer; with every workplace
    // disabled no infection can happen at all.
    let mut seeds_total_npi = 0usize;
    let mut seeds_total_free = 0usize;
    for seed in 0..5u64 {
        for npi in [true, false] {
            let mut c = quiet_config(60, 4);
            c.susceptible_infected_profile = vec![SCALE];
            c.family_contact_undetected_coef = 0;
            c.family_contact_detected_coef = 0;
            c.world_contact_undetected_coef = 0;
            c.world_contact_detected_coef = 0;
            c.workplace_contact_undetected_coef = SCALE;
            c.workplace_connectivity = SCALE;
            let mut sim = Simulation::new_seeded(c, seed).unwrap();
            if npi {
                sim.disable_fraction_of_workplaces(SCALE);
            }
            let mut infections = 0usize;
            for _ in 0..10 {
                sim.tick();
                infections += sim.get_counter().day_count(State::Infected(0)) as usize;
            }
            if npi {
                seeds_total_npi += infections;
            } else {
                seeds_total_free += infections;
            }
        }
    }
    assert_eq!(seeds_total_npi, 0);
    assert!(seeds_total_npi <= seeds_total_free);
}

#[test]
fn disabling_all_world_connections_empties_the_layer() {
    let mut c = quiet_config(50, 0);
    c.average_world_connections = 10;
    let mut sim = Simulation::new_seeded(c, 21).unwrap();
    sim.disable_fraction_of_world_connections(SCALE);
    let n = sim.world_graph.node_count();
    for i in 0..n {
        assert!(sim.world_graph.neighbors(i).is_empty());
    }
}

#[test]
fn infectability_multipliers_scale_the_coefficients() {
    let c = quiet_config(10, 0);
    let mut sim = Simulation::new_seeded(c, 1).unwrap();
    let w0 = sim.config.world_contact_undetected_coef;
    sim.multiply_world_infectability(SCALE / 2);
    assert_eq!(sim.config.world_contact_undetected_coef, w0 / 2);
    let p0 = sim.config.workplace_contact_undetected_coef;
    sim.multiply_workplace_infectability(2 * SCALE);
    assert_eq!(sim.config.workplace_contact_undetected_coef, 2 * p0);
}

#[test]
fn tracing_drain_respects_the_daily_cap() {
    let mut c = quiet_config(40, 20);
    let mut sim = Simulation::new_seeded(c, 31).unwrap();
    sim.set_max_contact_tracing(2);
    assert_eq!(sim.get_hospital_capacity(), 10);
    // Queue more infected agents than the cap allows.
    // The queue holds three days of capacity: six entries at a cap of
    // two.
    let mut queued = 0usize;
    let mut id = 0usize;
    while queued < 6 && id < 40 {
        if sim.test_queue.insert_family(id) {
            queued += 1;
        }
        id += 1;
    }
    assert!(queued == 6);
    sim.tick();
    let counter = sim.get_counter();
    // No natural detection hazard: every Detected inflow came from the
    // drain, which charges its budget of two per day.
    assert!(counter.day_count(State::Detected(0)) <= 2);
    c = quiet_config(10, 0);
    assert!(Simulation::new_seeded(c, 1).is_some());
}

#[test]
fn tracing_drain_exhausts_a_short_queue() {
    // More budget than queued agents: every queued undetected
    // infection is flipped this very tick.
    let c = quiet_config(40, 40);
    let mut sim = Simulation::new_seeded(c, 33).unwrap();
    sim.set_max_contact_tracing(10);
    for id in 0..3usize {
        assert!(sim.test_queue.insert_family(id));
    }
    sim.tick();
    let counter = sim.get_counter();
    assert_eq!(counter.day_count(State::Detected(0)), 3);
    assert_eq!(counter.state_count(State::Detected(0)), 3);
}

#[test]
fn recently_tested_agents_are_not_retested() {
    let mut c = quiet_config(30, 15);
    let mut sim = Simulation::new_seeded(c, 41).unwrap();
    sim.set_max_contact_tracing(5);
    // Agent 0 was tested recently: it can no longer be enqueued, so the
    // drain can never flip it.
    sim.test_queue.recently_tested.push_child(vec![0]);
    assert!(!sim.test_queue.insert_family(0));
    assert!(sim.test_queue.insert_family(1) || !sim.test_queue.family_queue.contains(1));
    assert!(!sim.test_queue.family_queue.contains(0));
    c = quiet_config(10, 0);
    assert!(Simulation::new_seeded(c, 2).is_some());
}

#[test]
fn daily_meters_reset_each_tick() {
    let c = quiet_config(20, 0);
    let mut sim = Simulation::new_seeded(c, 51).unwrap();
    sim.tick();
    let (rs, rc) = sim.get_daily_r();
    assert_eq!(rs, 0);
    assert_eq!(rc, 0);
    let counter = sim.get_counter();
    assert_eq!(counter.day_count(State::Infected(0)), 0);
}

#[test]
fn workplace_cutoff_follows_the_fraction() {
    let mut c = quiet_config(100, 0);
    c.average_workplace_size = 5;
    let mut sim = Simulation::new_seeded(c, 61).unwrap();
    // W = 100 / 5 = 20 workplaces; half of them disabled.
    sim.disable_fraction_of_workplaces(SCALE / 2);
    assert_eq!(sim.last_disabled_workplace, 10);
    sim.disable_fraction_of_workplaces(SCALE);
    assert_eq!(sim.last_disabled_workplace, 20);
    sim.disable_fraction_of_workplaces(0);
    assert_eq!(sim.last_disabled_workplace, 0);
}

#[test]
fn construction_layers_are_symmetric() {
    let c = quiet_config(60, 0);
    let sim = Simulation::new_seeded(c, 71).unwrap();
    for g in [&sim.family_graph, &sim.workplace_graph, &sim.world_graph] {
        let n = g.node_count();
        for i in 0..n {
            for j in g.neighbors(i) {
                assert!(g.neighbors(j).contains(&i));
            }
        }
    }
}

#[test]
fn equal_seeds_give_equal_runs() {
    let mut counts_a: Vec<usize> = Vec::new();
    let mut counts_b: Vec<usize> = Vec::new();
    for out in [&mut counts_a, &mut counts_b] {
        let mut c = quiet_config(80, 10);
        c.susceptible_infected_profile = vec![300_000_000];
        c.infected_immune_profile = vec![0, 0, 0, 200_000_000];
        let mut sim = Simulation::new_seeded(c, 123).unwrap();
        for _ in 0..15 {
            sim.tick();
            out.push(sim.get_counter().state_count(State::Infected(0)));
        }
    }
    assert_eq!(counts_a, counts_b);
}

#[test]
fn outbreak_is_capped_by_the_requested_population() {
    // An outbreak larger than the requested population seeds exactly
    // total_population agents, even when the last family overshoots.
    let c = quiet_config(10, 50);
    let sim = Simulation::new_seeded(c, 81).unwrap();
    let counter = sim.get_counter();
    assert_eq!(counter.state_count(State::Infected(0)), 10);
    assert!(total_of(&sim) >= 10);
}

#[test]
fn default_config_is_valid() {
    let c = Config::default_config();
    assert!(c.check_valid());
    assert_eq!(c.total_population, 300_000);
    assert_eq!(c.hospital_capacity, 2_000);
    assert_eq!(c.initial_outbreak_size, 20);
    assert_eq!(c.nworkplaces(), 20_000);
}
