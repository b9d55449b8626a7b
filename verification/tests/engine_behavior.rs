use marlea_engine::compress_series;
use marlea_engine::reaction::Reaction;
use marlea_engine::reaction_network::ReactionNetwork;
use marlea_engine::solution::{Count, Name, Solution};
use marlea_engine::term::Term;
use marlea_engine::trial::{Trial, TrialState};
use marlea_engine::{Builder, MarleaEngine, MarleaEngineError};

fn name(s: &str) -> Name {
    Name(s.to_string())
}

fn unary(reactant: &str, product: &str, rate: u64) -> Reaction {
    Reaction::new(
        vec![Term::new(name(reactant), Count(1))],
        vec![Term::new(name(product), Count(1))],
        rate,
    )
}

fn null_source(product: &str, rate: u64) -> Reaction {
    Reaction::new(vec![], vec![Term::new(name(product), Count(1))], rate)
}

fn drain(reactant: &str, rate: u64) -> Reaction {
    Reaction::new(vec![Term::new(name(reactant), Count(1))], vec![], rate)
}

fn plain(entries: Vec<(Name, Count)>) -> Vec<(String, u64)> {
    entries.into_iter().map(|(n, c)| (n.0, c.0)).collect()
}

#[test]
fn trivial_null_network_stabilizes_in_one_step() {
    let mut solution = Solution::new();
    solution.insert(name("x"), Count(5));
    let network = ReactionNetwork::new(vec![], solution);
    let mut trial = Trial::from(network, 99, 0);
    match trial.step() {
        TrialState::Processing(id, sln) => {
            assert_eq!(id.0, 0);
            assert_eq!(sln.get(&name("x")), Some(5));
        },
        TrialState::Complete(_, _) => panic!("completed before stabilizing"),
    }
    match trial.step() {
        TrialState::Complete(id, sln) => {
            assert_eq!(id.0, 0);
            assert_eq!(sln.get(&name("x")), Some(5));
        },
        TrialState::Processing(_, _) => panic!("still processing after stabilizing"),
    }
}

#[test]
fn trivial_null_network_averages_to_the_initial_composition() {
    let mut solution = Solution::new();
    solution.insert(name("x"), Count(5));
    let network = ReactionNetwork::new(vec![], solution);
    let mut engine = Builder::new(network).no_response().trials(3).build();
    let sums = engine.run(1_000_000).unwrap();
    // each of the 3 trials ends untouched at x = 5, so the average is 5
    assert_eq!(plain(sums), vec![("x".to_string(), 15)]);
}

#[test]
fn deterministic_single_reaction_runs_to_its_terminal_composition() {
    let mut solution = Solution::new();
    solution.insert(name("a"), Count(3));
    solution.insert(name("b"), Count(0));
    let network = ReactionNetwork::new(vec![unary("a", "b", 1)], solution);
    let mut engine = Builder::new(network).no_response().trials(10).build();
    let sums = engine.run(1_000_000).unwrap();
    // every trial ends at a = 0, b = 3; sums over 10 trials, names sorted
    assert_eq!(
        plain(sums),
        vec![("a".to_string(), 0), ("b".to_string(), 30)],
    );
    assert_eq!(engine.get_completed_trials().len(), 10);
    // a finished ensemble yields its sums again without stepping
    let again = engine.run(0).unwrap();
    assert_eq!(
        plain(again),
        vec![("a".to_string(), 0), ("b".to_string(), 30)],
    );
}

#[test]
fn competing_rates_split_by_their_weights() {
    let mut solution = Solution::new();
    solution.insert(name("a"), Count(1000));
    solution.insert(name("b"), Count(0));
    solution.insert(name("c"), Count(0));
    let network = ReactionNetwork::new(
        vec![unary("a", "b", 3), unary("a", "c", 1)],
        solution,
    );
    let trials = 200usize;
    let mut engine = Builder::new(network).no_response().trials(trials).build();
    let sums = engine.run(1_000_000).unwrap();
    let sums = plain(sums);
    assert_eq!(sums[0].0, "a");
    assert_eq!(sums[0].1, 0);
    let b_avg = sums[1].1 as f64 / trials as f64;
    let c_avg = sums[2].1 as f64 / trials as f64;
    assert_eq!(sums[1].1 + sums[2].1, 1000 * trials as u64);
    // expectation 750 and 250; five sigma over 200 trials is about 5
    assert!(b_avg > 740.0 && b_avg < 760.0, "b averaged {}", b_avg);
    assert!(c_avg > 240.0 && c_avg < 260.0, "c averaged {}", c_avg);
}

#[test]
fn tolerance_bound_terminates_a_semi_stable_trial_exactly() {
    let mut solution = Solution::new();
    solution.insert(name("x"), Count(0));
    let network = ReactionNetwork::new(
        vec![null_source("x", 1), drain("x", 1)],
        solution,
    );
    let mut trial = Trial::from(network, 10, 0);
    let mut steps = 0u32;
    loop {
        match trial.step() {
            TrialState::Complete(_, _) => break,
            TrialState::Processing(_, _) => steps += 1,
        }
        assert!(steps < 1000, "trial failed to stabilize");
    }
    // one step to enter the semi-stable state, the tolerance of 10 walking
    // the counter up, and one forced stabilizing step
    assert_eq!(steps, 12);
}

#[test]
fn same_seed_reproduces_the_same_terminal_solution() {
    let mut solution = Solution::new();
    solution.insert(name("a"), Count(500));
    solution.insert(name("b"), Count(0));
    solution.insert(name("c"), Count(0));
    let reactions = vec![unary("a", "b", 3), unary("a", "c", 1)];
    let prime = ReactionNetwork::new(reactions, solution);
    let seed = [9u8; 32];
    let mut first = Trial::from(prime.clone().with_seed(seed), 99, 0);
    let mut second = Trial::from(prime.with_seed(seed), 99, 1);
    let sln_first;
    let sln_second;
    let mut budget = 100_000u32;
    loop {
        if let TrialState::Complete(_, sln) = first.step() {
            sln_first = sln;
            break;
        }
        budget -= 1;
        assert!(budget > 0);
    }
    loop {
        if let TrialState::Complete(_, sln) = second.step() {
            sln_second = sln;
            break;
        }
        budget -= 1;
        assert!(budget > 0);
    }
    assert_eq!(plain(sln_first.to_sorted_entries()), plain(sln_second.to_sorted_entries()));
}

#[test]
fn average_trials_sums_one_solution_to_itself() {
    let mut s = Solution::new();
    s.insert(name("x"), Count(5));
    s.insert(name("y"), Count(7));
    let sums = MarleaEngine::average_trials(&vec![s]);
    assert_eq!(
        plain(sums),
        vec![("x".to_string(), 5), ("y".to_string(), 7)],
    );
}

#[test]
fn average_trials_sums_m_copies_to_m_times_the_solution() {
    let mut s = Solution::new();
    s.insert(name("x"), Count(5));
    s.insert(name("y"), Count(7));
    let copies = vec![s.clone(), s.clone(), s.clone(), s];
    let sums = MarleaEngine::average_trials(&copies);
    assert_eq!(
        plain(sums),
        vec![("x".to_string(), 20), ("y".to_string(), 28)],
    );
}

#[test]
fn run_with_no_rounds_reports_exceeded_runtime() {
    let mut solution = Solution::new();
    solution.insert(name("a"), Count(3));
    solution.insert(name("b"), Count(0));
    let network = ReactionNetwork::new(vec![unary("a", "b", 1)], solution);
    let mut engine = Builder::new(network).no_response().trials(2).build();
    match engine.run(0) {
        Err(MarleaEngineError::ExceededRuntime(_)) => {},
        Err(_) => panic!("unexpected error kind"),
        Ok(_) => panic!("run succeeded without stepping"),
    }
}

#[test]
fn compress_series_keeps_ends_and_slope_changes() {
    let series = vec![0u64, 1, 2, 3, 3, 3, 5];
    let points = compress_series(&series);
    assert_eq!(points, vec![(0usize, 0u64), (3, 3), (5, 3), (6, 5)]);
}

#[test]
fn compress_series_flattens_a_straight_line() {
    let series = vec![4u64, 5, 6, 7, 8];
    let points = compress_series(&series);
    assert_eq!(points, vec![(0usize, 4u64), (4, 8)]);
}

#[test]
fn timeline_replays_a_completed_trial() {
    let mut solution = Solution::new();
    solution.insert(name("a"), Count(3));
    solution.insert(name("b"), Count(0));
    let network = ReactionNetwork::new(vec![unary("a", "b", 1)], solution);
    let mut engine = Builder::new(network).no_response().trials(1).build();
    engine.run(1_000_000).unwrap();
    let id = engine.get_completed_trials()[0].get_id();
    let timeline = engine.get_timeline(&id, 100_000).expect("replay did not stabilize");
    assert!(!timeline.is_empty());
    for point in &timeline {
        assert!(point.0 .0 == "a" || point.0 .0 == "b");
        assert!(point.2 .0 <= 3);
    }
    let missing = marlea_engine::trial::ID(999);
    assert!(engine.get_timeline(&missing, 100_000).is_none());
}
