//! A reaction: reactant terms, product terms, and a positive rate that
//! weights how likely the reaction is to be picked next.

use vstd::prelude::*;
use crate::term::{Term, TermV};

verus! {

/// Mathematical value of a reaction.
pub ghost struct ReactionV {
    pub reactants: Seq<TermV>,
    pub products: Seq<TermV>,
    pub rate: u64,
}

impl ReactionV {
    /// A null-source reaction consumes nothing.
    pub open spec fn is_null_source(self) -> bool {
        self.reactants.len() == 0
    }
}

/// Represents a single reaction, containing a list of reactants and products
/// as well as a reaction rate to scale the probability of it occurring.
#[derive(Debug, Eq, Hash)]
pub struct Reaction {
    reactants: Vec<Term>,
    products: Vec<Term>,
    reaction_rate: u64,
}

impl View for Reaction {
    type V = ReactionV;

    closed spec fn view(&self) -> ReactionV {
        ReactionV {
            reactants: self.reactants@.map_values(|t: Term| t@),
            products: self.products@.map_values(|t: Term| t@),
            rate: self.reaction_rate,
        }
    }
}

impl Reaction {
    /// A rate is always positive: a reaction with rate zero could never be
    /// drawn and would only distort the weighted selection.
    pub fn new(reactants: Vec<Term>, products: Vec<Term>, reaction_rate: u64) -> (r: Reaction)
        requires
            reaction_rate > 0,
        ensures
            r@.reactants == reactants@.map_values(|t: Term| t@),
            r@.products == products@.map_values(|t: Term| t@),
            r@.rate == reaction_rate,
    {
        Reaction { reactants, products, reaction_rate }
    }

    /// Returns a reference to the list of reactants for a reaction
    pub fn get_reactants(&self) -> (ts: &Vec<Term>)
        ensures
            ts@.map_values(|t: Term| t@) == self@.reactants,
    {
        &self.reactants
    }

    /// Returns a reference to the list of products for a reaction
    pub fn get_products(&self) -> (ts: &Vec<Term>)
        ensures
            ts@.map_values(|t: Term| t@) == self@.products,
    {
        &self.products
    }

    /// Returns the reaction rate for a reaction
    pub fn get_reaction_rate(&self) -> (rate: u64)
        ensures
            rate == self@.rate,
    {
        self.reaction_rate
    }
}

impl PartialEq for Reaction {
    fn eq(&self, other: &Reaction) -> bool {
        if self.reaction_rate != other.reaction_rate {
            return false;
        }
        if !term_vecs_eq(&self.reactants, &other.reactants) {
            return false;
        }
        term_vecs_eq(&self.products, &other.products)
    }
}

impl vstd::std_specs::cmp::PartialEqSpecImpl for Reaction {
    open spec fn obeys_eq_spec() -> bool {
        true
    }

    open spec fn eq_spec(&self, other: &Reaction) -> bool {
        self@ == other@
    }
}

/// Element-wise comparison of two term lists.
fn term_vecs_eq(a: &Vec<Term>, b: &Vec<Term>) -> (r: bool)
    ensures
        r == (a@.map_values(|t: Term| t@) == b@.map_values(|t: Term| t@)),
{
    let ghost av = a@.map_values(|t: Term| t@);
    let ghost bv = b@.map_values(|t: Term| t@);
    if a.len() != b.len() {
        assert(av.len() != bv.len());
        return false;
    }
    let n = a.len();
    for i in 0..n
        invariant
            n == a@.len() == b@.len(),
            av == a@.map_values(|t: Term| t@),
            bv == b@.map_values(|t: Term| t@),
            forall|j: int| 0 <= j < i ==> av[j] == bv[j],
    {
        if !(a[i] == b[i]) {
            assert(av[i as int] != bv[i as int]);
            return false;
        }
    }
    proof {
        assert(av =~= bv);
    }
    true
}

impl Clone for Reaction {
    fn clone(&self) -> (r: Reaction)
        ensures
            r@ == self@,
    {
        Reaction {
            reactants: clone_terms(&self.reactants),
            products: clone_terms(&self.products),
            reaction_rate: self.reaction_rate,
        }
    }
}

/// Element-wise clone of a term list; the copy has the same view.
fn clone_terms(ts: &Vec<Term>) -> (r: Vec<Term>)
    ensures
        r@.map_values(|t: Term| t@) == ts@.map_values(|t: Term| t@),
{
    let n = ts.len();
    let mut out: Vec<Term> = Vec::new();
    for i in 0..n
        invariant
            n == ts@.len(),
            out@.len() == i,
            forall|j: int| 0 <= j < i ==> out@[j]@ == ts@[j]@,
    {
        out.push(ts[i].clone());
    }
    proof {
        assert(out@.map_values(|t: Term| t@) =~= ts@.map_values(|t: Term| t@));
    }
    out
}

} // verus!
