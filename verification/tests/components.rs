use episim::averager::Averager;
use episim::chainset::ChainSet;
use episim::counter::Counter;
use episim::graph::Graph;
use episim::rng::SimRng;
use episim::sample::sample_state;
use episim::sat_index;
use episim::state::State;
use episim::testqueue::TestQueue;
use episim::SCALE;

#[test]
fn sat_index_reads_in_range() {
    let v: Vec<u64> = vec![10, 20, 30];
    assert_eq!(sat_index(&v, 0), 10);
    assert_eq!(sat_index(&v, 2), 30);
}

#[test]
fn sat_index_clamps_to_tail() {
    let v: Vec<u64> = vec![10, 20, 30];
    assert_eq!(sat_index(&v, 3), 30);
    assert_eq!(sat_index(&v, 1000), 30);
}

#[test]
fn counter_transit_moves_census() {
    let mut c = Counter::new();
    c.register(State::Susceptible);
    c.register(State::Susceptible);
    assert_eq!(c.state_count(State::Susceptible), 2);
    c.transit(State::Susceptible, State::Infected(0));
    assert_eq!(c.state_count(State::Susceptible), 1);
    assert_eq!(c.state_count(State::Infected(7)), 1);
    assert_eq!(c.day_count(State::Infected(0)), 1);
}

#[test]
fn counter_day_counts_only_cross_slot_moves() {
    let mut c = Counter::new();
    c.register(State::Infected(0));
    c.transit(State::Infected(0), State::Infected(1));
    assert_eq!(c.day_count(State::Infected(0)), 0);
    c.transit(State::Infected(1), State::Detected(1));
    assert_eq!(c.day_count(State::Detected(0)), 1);
    c.reset_day_counter();
    assert_eq!(c.day_count(State::Detected(0)), 0);
    assert_eq!(c.state_count(State::Detected(0)), 1);
}

#[test]
fn averager_tracks_sum_and_count() {
    let mut a = Averager::new();
    a.push(4);
    a.push(6);
    assert_eq!(a.get(), (10, 2));
    a.reset();
    assert_eq!(a.get(), (0, 0));
}

#[test]
fn averager_saturates_at_max() {
    let mut a = Averager::new();
    a.push(u64::MAX);
    a.push(1);
    assert_eq!(a.get().0, u64::MAX);
    assert_eq!(a.get().1, 2);
}

#[test]
fn graph_links_are_symmetric() {
    let mut g = Graph::new();
    for _ in 0..5 {
        g.register_node();
    }
    g.add_link(1, 3);
    g.add_link(4, 0);
    let n1 = g.neighbors(1);
    let n3 = g.neighbors(3);
    assert!(n1.contains(&3));
    assert!(n3.contains(&1));
    let n0 = g.neighbors(0);
    let n4 = g.neighbors(4);
    assert!(n0.contains(&4));
    assert!(n4.contains(&0));
}

#[test]
fn graph_add_link_deduplicates() {
    let mut g = Graph::new();
    for _ in 0..3 {
        g.register_node();
    }
    g.add_link(0, 2);
    g.add_link(2, 0);
    assert_eq!(g.neighbors(0).len(), 1);
    assert_eq!(g.neighbors(2).len(), 1);
}

#[test]
fn graph_remove_link_removes_both_sides() {
    let mut g = Graph::new();
    for _ in 0..4 {
        g.register_node();
    }
    g.add_link(1, 2);
    g.add_link(1, 3);
    g.remove_link(2, 1);
    assert!(!g.neighbors(1).contains(&2));
    assert!(!g.neighbors(2).contains(&1));
    assert!(g.neighbors(1).contains(&3));
}

#[test]
fn graph_register_node_returns_prior_size() {
    let mut g = Graph::new();
    assert_eq!(g.register_node(), 0);
    assert_eq!(g.register_node(), 1);
    assert_eq!(g.node_count(), 2);
}

#[test]
fn chainset_insert_contains_remove() {
    let mut cs = ChainSet::new();
    assert!(cs.insert(7));
    // A value already present is reported as held, and nothing changes.
    assert!(cs.insert(7));
    assert!(cs.contains(7));
    assert_eq!(cs.len(), 1);
    assert!(cs.remove(7));
    assert!(!cs.contains(7));
    assert!(!cs.remove(7));
    assert_eq!(cs.len(), 0);
}

#[test]
fn chainset_membership_spans_cohorts() {
    let mut cs = ChainSet::new();
    cs.insert(1);
    cs.add_child();
    cs.insert(2);
    assert!(cs.contains(1));
    assert!(cs.contains(2));
    assert!(cs.insert(1));
    assert_eq!(cs.len(), 2);
}

#[test]
fn chainset_pop_child_expires_oldest_cohort() {
    let mut cs = ChainSet::new();
    cs.insert(1);
    cs.add_child();
    cs.insert(2);
    cs.pop_child();
    assert!(!cs.contains(1));
    assert!(cs.contains(2));
}

#[test]
fn chainset_pop_clean_drains_members() {
    let mut cs = ChainSet::new();
    assert_eq!(cs.pop_clean(), None);
    cs.insert(5);
    cs.add_child();
    cs.insert(6);
    let a = cs.pop_clean().unwrap();
    let b = cs.pop_clean().unwrap();
    assert!(a == 5 || a == 6);
    assert!(b == 5 || b == 6);
    assert_ne!(a, b);
    assert_eq!(cs.pop_clean(), None);
}

#[test]
fn test_queue_rejects_recently_tested() {
    let mut tq = TestQueue::new(10);
    tq.recently_tested.push_child(vec![3]);
    assert!(!tq.insert_family(3));
    assert!(!tq.insert_workplace(3));
    assert!(!tq.insert_world(3));
    assert!(!tq.family_queue.contains(3));
    assert!(tq.insert_family(4));
    assert!(tq.family_queue.contains(4));
}

#[test]
fn test_queue_priority_promotes_and_never_displaces_family() {
    let mut tq = TestQueue::new(10);
    assert!(tq.insert_world(9));
    assert!(tq.world_queue.contains(9));
    assert!(tq.insert_family(9));
    assert!(tq.family_queue.contains(9));
    assert!(!tq.world_queue.contains(9));
    // A lower layer never takes a value the family layer holds.
    assert!(!tq.insert_workplace(9));
    assert!(!tq.workplace_queue.contains(9));
}

#[test]
fn test_queue_eviction_prefers_lowest_layer() {
    let mut tq = TestQueue::new(2);
    assert!(tq.insert_world(1));
    assert!(tq.insert_workplace(2));
    // Full: inserting into family evicts from the lowest nonempty
    // layer (world), never from family.
    assert!(tq.insert_family(3));
    assert!(tq.family_queue.contains(3));
    assert!(!tq.world_queue.contains(1));
    assert!(tq.workplace_queue.contains(2));
}

#[test]
fn test_queue_capacity_rejects_when_full() {
    let mut tq = TestQueue::new(1);
    assert!(tq.insert_family(1));
    assert!(!tq.insert_family(2));
    assert!(!tq.insert_workplace(2));
    assert!(!tq.insert_world(2));
}

#[test]
fn test_queue_pop_next_takes_family_first() {
    let mut tq = TestQueue::new(10);
    tq.insert_world(30);
    tq.insert_workplace(20);
    tq.insert_family(10);
    assert_eq!(tq.pop_next(), Some(10));
    assert_eq!(tq.pop_next(), Some(20));
    assert_eq!(tq.pop_next(), Some(30));
    assert_eq!(tq.pop_next(), None);
}

#[test]
fn queue_tick_keeps_members_and_ages_cohorts() {
    let mut tq = TestQueue::new(10);
    tq.insert_family(1);
    tq.tick(0);
    tq.insert_family(2);
    assert!(tq.family_queue.contains(1));
    assert!(tq.family_queue.contains(2));
    // The drain takes the oldest cohort first.
    assert_eq!(tq.pop_next(), Some(1));
    assert_eq!(tq.pop_next(), Some(2));
}

#[test]
fn bernoulli_is_exact_at_the_ends() {
    let mut rng = SimRng::from_seed(11);
    for _ in 0..200 {
        assert!(!rng.bernoulli(0));
        assert!(rng.bernoulli(SCALE));
        assert!(rng.bernoulli(2 * SCALE));
    }
}

#[test]
fn uniform_draw_stays_below_bound() {
    let mut rng = SimRng::from_seed(12);
    for _ in 0..500 {
        assert!(rng.below(7) < 7);
        assert_eq!(rng.below(1), 0);
        assert!(rng.index_below(3) < 3);
    }
}

#[test]
fn categorical_never_picks_zero_weight() {
    let mut rng = SimRng::from_seed(13);
    let w: Vec<u64> = vec![0, 5, 0, 2];
    for _ in 0..500 {
        let j = rng.categorical(&w);
        assert!(j == 1 || j == 3);
    }
    let only: Vec<u64> = vec![0, 0, 9];
    for _ in 0..100 {
        assert_eq!(rng.categorical(&only), 2);
    }
}

#[test]
fn sample_state_stays_with_all_zero_hazards() {
    let mut rng = SimRng::from_seed(14);
    let opts = vec![State::Immune(0), State::Dead, State::Severe(4)];
    let w: Vec<u64> = vec![0, 0];
    for _ in 0..200 {
        assert_eq!(sample_state(&mut rng, &opts, &w), State::Severe(4));
    }
}

#[test]
fn sample_state_certain_hazard_forces_transition() {
    let mut rng = SimRng::from_seed(15);
    let opts = vec![State::Immune(0), State::Dead, State::Severe(4)];
    let w: Vec<u64> = vec![SCALE, 0];
    for _ in 0..200 {
        assert_eq!(sample_state(&mut rng, &opts, &w), State::Immune(0));
    }
}

#[test]
fn sample_state_preserves_marginal_shares() {
    // Raw hazards of 0.1 each: the stay weight pairs
    // pstay = 0.729 with the raw marginals, so each transition has
    // share 0.1 * (1 - 0.729) / 0.3 and staying has share 0.729.
    let mut rng = SimRng::from_seed(16);
    let opts = vec![State::Immune(0), State::Detected(1), State::Severe(0), State::Infected(1)];
    let w: Vec<u64> = vec![100_000_000, 100_000_000, 100_000_000];
    let trials = 200_000u32;
    let mut counts = [0u32; 4];
    for _ in 0..trials {
        let s = sample_state(&mut rng, &opts, &w);
        let k = match s {
            State::Immune(_) => 0,
            State::Detected(_) => 1,
            State::Severe(_) => 2,
            _ => 3,
        };
        counts[k] += 1;
    }
    let total = trials as f64;
    let p_each = 0.0903;
    let p_stay = 0.7289;
    for k in 0..3 {
        let freq = counts[k] as f64 / total;
        assert!((freq - p_each).abs() < 0.01, "marginal {k} was {freq}");
    }
    let freq_stay = counts[3] as f64 / total;
    assert!((freq_stay - p_stay).abs() < 0.01, "stay share was {freq_stay}");
}
