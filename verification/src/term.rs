//! A single term of a reaction: a species name with a stoichiometric
//! coefficient.

use vstd::prelude::*;
use crate::solution::{Count, Name};

verus! {

/// Mathematical value of a term: the species it names and its coefficient.
pub ghost struct TermV {
    pub species: Seq<char>,
    pub coefficient: u64,
}

/// Contains the data for a single term within a reaction.
#[derive(Debug, Eq, Hash)]
pub struct Term {
    species_name: Name,
    coefficient: Count,
}

impl View for Term {
    type V = TermV;

    closed spec fn view(&self) -> TermV {
        TermV { species: self.species_name@, coefficient: self.coefficient.0 }
    }
}

impl Term {
    /// A coefficient is always positive; a zero coefficient would name a
    /// species the reaction does not touch.
    pub fn new(species_name: Name, coefficient: Count) -> (t: Term)
        requires
            coefficient.0 > 0,
        ensures
            t@.species == species_name@,
            t@.coefficient == coefficient.0,
    {
        Term { species_name, coefficient }
    }

    /// Returns a Count tuple struct reference
    pub fn get_coefficient(&self) -> (c: &Count)
        ensures
            c.0 == self@.coefficient,
    {
        &self.coefficient
    }

    /// Returns a Name tuple struct reference
    pub fn get_species_name(&self) -> (n: &Name)
        ensures
            n@ == self@.species,
    {
        &self.species_name
    }
}

impl PartialEq for Term {
    fn eq(&self, other: &Term) -> bool {
        self.species_name == other.species_name && self.coefficient.0 == other.coefficient.0
    }
}

impl vstd::std_specs::cmp::PartialEqSpecImpl for Term {
    open spec fn obeys_eq_spec() -> bool {
        true
    }

    open spec fn eq_spec(&self, other: &Term) -> bool {
        self@ == other@
    }
}

impl Clone for Term {
    fn clone(&self) -> (t: Term)
        ensures
            t@ == self@,
    {
        Term { species_name: self.species_name.clone(), coefficient: self.coefficient }
    }
}

} // verus!
