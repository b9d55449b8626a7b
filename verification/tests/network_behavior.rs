use marlea_engine::reaction::Reaction;
use marlea_engine::reaction_network::ReactionNetwork;
use marlea_engine::solution::{Count, Name, Solution};
use marlea_engine::term::Term;

fn name(s: &str) -> Name {
    Name(s.to_string())
}

fn unary(reactant: &str, product: &str, rate: u64) -> Reaction {
    Reaction::new(
        vec![Term::new(name(reactant), Count(1))],
        vec![Term::new(name(product), Count(1))],
        rate,
    )
}

fn null_source(product: &str, rate: u64) -> Reaction {
    Reaction::new(vec![], vec![Term::new(name(product), Count(1))], rate)
}

#[test]
fn new_collapses_duplicate_reactions() {
    let mut solution = Solution::new();
    solution.insert(name("a"), Count(1));
    solution.insert(name("b"), Count(0));
    let reactions = vec![unary("a", "b", 3), unary("a", "b", 3), unary("a", "b", 3)];
    let network = ReactionNetwork::new(reactions, solution);
    assert_eq!(network.get_possible_reactions().len(), 1);
}

#[test]
fn possible_reactions_are_those_the_solution_covers() {
    let mut solution = Solution::new();
    solution.insert(name("a"), Count(1));
    solution.insert(name("b"), Count(0));
    solution.insert(name("c"), Count(0));
    let reactions = vec![unary("a", "b", 1), unary("b", "c", 1), null_source("c", 1)];
    let network = ReactionNetwork::new(reactions, solution);
    let possible = network.get_possible_reactions();
    // a -> b is covered, b -> c is not (no b yet), the null source always is
    assert_eq!(possible.len(), 2);
    for r in possible.iter() {
        assert!(network.get_solution().validate(r));
    }
}

#[test]
fn null_adjacent_closure_is_one_hop() {
    let mut solution = Solution::new();
    solution.insert(name("x"), Count(0));
    solution.insert(name("y"), Count(0));
    solution.insert(name("z"), Count(0));
    let spring = null_source("x", 1);
    let drain = unary("x", "y", 1);
    let far = unary("y", "z", 1);
    let network = ReactionNetwork::new(
        vec![spring.clone(), drain.clone(), far.clone()],
        solution,
    );
    let null_adjacent = network.get_null_adjacent_reactions();
    // the null source itself and the reaction consuming its product are in;
    // the reaction one hop further is not
    assert_eq!(null_adjacent.len(), 2);
    assert!(null_adjacent.contains(&spring));
    assert!(null_adjacent.contains(&drain));
    assert!(!null_adjacent.contains(&far));
}

#[test]
fn next_reaction_is_always_possible_and_valid() {
    let mut solution = Solution::new();
    solution.insert(name("a"), Count(1_000_000));
    solution.insert(name("b"), Count(0));
    solution.insert(name("c"), Count(0));
    let reactions = vec![unary("a", "b", 3), unary("a", "c", 1)];
    let mut network = ReactionNetwork::new(reactions, solution).with_seed([7u8; 32]);
    for _ in 0..1000 {
        let drawn = network.get_next_reaction();
        assert!(network.get_possible_reactions().contains(&drawn));
        assert!(network.get_solution().validate(&drawn));
    }
}

#[test]
fn weighted_selection_frequencies_follow_the_rates() {
    let mut solution = Solution::new();
    solution.insert(name("a"), Count(1_000_000));
    solution.insert(name("b"), Count(0));
    solution.insert(name("c"), Count(0));
    let reactions = vec![unary("a", "b", 3), unary("a", "c", 1)];
    let mut network = ReactionNetwork::new(reactions, solution).with_seed([21u8; 32]);
    let draws = 100_000u32;
    let mut towards_b = 0u32;
    for _ in 0..draws {
        let drawn = network.get_next_reaction();
        if drawn.get_products()[0].get_species_name().0 == "b" {
            towards_b += 1;
        }
    }
    // rate 3 of 4 total: expect 75%, five sigma is about 0.7 points here
    let share = towards_b as f64 / draws as f64;
    assert!(share > 0.74, "share of the rate-3 reaction was {}", share);
    assert!(share < 0.76, "share of the rate-3 reaction was {}", share);
}

#[test]
fn react_consumes_and_produces() {
    let mut solution = Solution::new();
    solution.insert(name("a"), Count(3));
    solution.insert(name("b"), Count(0));
    let mut network = ReactionNetwork::new(vec![unary("a", "b", 1)], solution);
    network.react();
    assert_eq!(network.get_solution().get(&name("a")), Some(2));
    assert_eq!(network.get_solution().get(&name("b")), Some(1));
    network.react();
    network.react();
    assert_eq!(network.get_solution().get(&name("a")), Some(0));
    assert_eq!(network.get_solution().get(&name("b")), Some(3));
    // nothing is left to do
    assert!(network.get_possible_reactions().is_empty());
}

#[test]
fn react_leaves_the_null_adjacent_set_untouched() {
    let mut solution = Solution::new();
    solution.insert(name("x"), Count(0));
    solution.insert(name("y"), Count(0));
    let mut network = ReactionNetwork::new(
        vec![null_source("x", 1), unary("x", "y", 1)],
        solution,
    );
    let before = network.get_null_adjacent_reactions().clone();
    for _ in 0..5 {
        network.react();
    }
    assert_eq!(network.get_null_adjacent_reactions(), &before);
}

#[test]
fn with_seed_retains_the_seed() {
    let mut solution = Solution::new();
    solution.insert(name("a"), Count(1));
    let network = ReactionNetwork::new(vec![unary("a", "a", 1)], solution);
    let seeded = network.with_seed([42u8; 32]);
    assert_eq!(seeded.get_seed(), [42u8; 32]);
}
