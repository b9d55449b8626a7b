use marlea_engine::reaction::Reaction;
use marlea_engine::solution::{Count, Name, Solution};
use marlea_engine::term::Term;

fn name(s: &str) -> Name {
    Name(s.to_string())
}

fn entries(s: &Solution) -> Vec<(String, u64)> {
    s.to_sorted_entries().into_iter().map(|(n, c)| (n.0, c.0)).collect()
}

#[test]
fn term_accessors_report_what_was_given() {
    let t = Term::new(name("glucose"), Count(2));
    assert_eq!(t.get_species_name().0, "glucose");
    assert_eq!(t.get_coefficient().0, 2);
}

#[test]
fn reaction_accessors_report_what_was_given() {
    let r = Reaction::new(
        vec![Term::new(name("a"), Count(1))],
        vec![Term::new(name("b"), Count(2))],
        7,
    );
    assert_eq!(r.get_reactants().len(), 1);
    assert_eq!(r.get_products().len(), 1);
    assert_eq!(r.get_reactants()[0].get_species_name().0, "a");
    assert_eq!(r.get_products()[0].get_coefficient().0, 2);
    assert_eq!(r.get_reaction_rate(), 7);
}

#[test]
fn insert_and_get_round_trip() {
    let mut s = Solution::new();
    s.insert(name("x"), Count(5));
    s.insert(name("y"), Count(0));
    assert_eq!(s.get(&name("x")), Some(5));
    assert_eq!(s.get(&name("y")), Some(0));
    assert_eq!(s.get(&name("z")), None);
    s.insert(name("x"), Count(9));
    assert_eq!(s.get(&name("x")), Some(9));
    assert_eq!(s.len(), 2);
}

#[test]
fn validate_accepts_covered_reactants() {
    let mut s = Solution::new();
    s.insert(name("a"), Count(3));
    let r = Reaction::new(
        vec![Term::new(name("a"), Count(3))],
        vec![Term::new(name("b"), Count(1))],
        1,
    );
    assert!(s.validate(&r));
}

#[test]
fn validate_rejects_short_counts() {
    let mut s = Solution::new();
    s.insert(name("a"), Count(2));
    let r = Reaction::new(
        vec![Term::new(name("a"), Count(3))],
        vec![],
        1,
    );
    assert!(!s.validate(&r));
}

#[test]
fn validate_treats_absent_reactant_as_satisfied() {
    let mut s = Solution::new();
    s.insert(name("a"), Count(0));
    let r = Reaction::new(
        vec![Term::new(name("ghost_species"), Count(5))],
        vec![],
        1,
    );
    assert!(s.validate(&r));
}

#[test]
fn validate_accepts_null_source_reactions() {
    let s = Solution::new();
    let r = Reaction::new(vec![], vec![Term::new(name("x"), Count(1))], 1);
    assert!(s.validate(&r));
}

#[test]
fn apply_moves_counts_from_reactants_to_products() {
    let mut s = Solution::new();
    s.insert(name("a"), Count(3));
    s.insert(name("b"), Count(1));
    let r = Reaction::new(
        vec![Term::new(name("a"), Count(2))],
        vec![Term::new(name("b"), Count(5))],
        1,
    );
    s.apply(r);
    assert_eq!(s.get(&name("a")), Some(1));
    assert_eq!(s.get(&name("b")), Some(6));
}

#[test]
fn apply_leaves_absent_species_untouched() {
    let mut s = Solution::new();
    s.insert(name("a"), Count(3));
    let r = Reaction::new(
        vec![Term::new(name("a"), Count(1))],
        vec![Term::new(name("unlisted"), Count(4))],
        1,
    );
    s.apply(r);
    assert_eq!(s.get(&name("a")), Some(2));
    assert_eq!(s.get(&name("unlisted")), None);
    assert_eq!(s.len(), 1);
}

#[test]
fn apply_clamps_consumption_at_zero() {
    let mut s = Solution::new();
    s.insert(name("a"), Count(1));
    let r = Reaction::new(
        vec![Term::new(name("a"), Count(5))],
        vec![],
        1,
    );
    // out of contract for the state machine, which only applies validated
    // reactions, but the operation itself clamps instead of underflowing
    s.apply(r);
    assert_eq!(s.get(&name("a")), Some(0));
}

#[test]
fn apply_of_a_null_source_reaction_only_produces() {
    let mut s = Solution::new();
    s.insert(name("x"), Count(2));
    let r = Reaction::new(vec![], vec![Term::new(name("x"), Count(3))], 1);
    s.apply(r);
    assert_eq!(s.get(&name("x")), Some(5));
}

#[test]
fn add_sums_pointwise_over_the_union_of_keys() {
    let mut a = Solution::new();
    a.insert(name("x"), Count(1));
    a.insert(name("y"), Count(2));
    let mut b = Solution::new();
    b.insert(name("y"), Count(10));
    b.insert(name("z"), Count(4));
    let sum = a.add(&b);
    assert_eq!(sum.get(&name("x")), Some(1));
    assert_eq!(sum.get(&name("y")), Some(12));
    assert_eq!(sum.get(&name("z")), Some(4));
    assert_eq!(sum.len(), 3);
}

#[test]
fn add_is_commutative_and_associative_with_empty_identity() {
    let mut a = Solution::new();
    a.insert(name("x"), Count(1));
    a.insert(name("y"), Count(2));
    let mut b = Solution::new();
    b.insert(name("y"), Count(3));
    let mut c = Solution::new();
    c.insert(name("z"), Count(7));
    let empty = Solution::new();

    assert_eq!(entries(&a.add(&b)), entries(&b.add(&a)));
    assert_eq!(
        entries(&a.add(&b).add(&c)),
        entries(&a.add(&b.add(&c))),
    );
    assert_eq!(entries(&a.add(&empty)), entries(&a));
    assert_eq!(entries(&empty.add(&a)), entries(&a));
}

#[test]
fn add_clamps_at_the_largest_count() {
    let mut a = Solution::new();
    a.insert(name("x"), Count(u64::MAX - 1));
    let mut b = Solution::new();
    b.insert(name("x"), Count(5));
    let sum = a.add(&b);
    assert_eq!(sum.get(&name("x")), Some(u64::MAX));
}

#[test]
fn sorted_entries_are_sorted_by_name_ascending() {
    let mut s = Solution::new();
    s.insert(name("delta"), Count(4));
    s.insert(name("alpha"), Count(1));
    s.insert(name("charlie"), Count(3));
    s.insert(name("bravo"), Count(2));
    assert_eq!(
        entries(&s),
        vec![
            ("alpha".to_string(), 1),
            ("bravo".to_string(), 2),
            ("charlie".to_string(), 3),
            ("delta".to_string(), 4),
        ],
    );
}
