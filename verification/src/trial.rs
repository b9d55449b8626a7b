//! One trial: a seeded reaction network walked step by step until it
//! stabilizes. The stability classifier charges rounds in which every
//! possible reaction is null-adjacent against a tolerance counter.

use vstd::prelude::*;
use crate::reaction_network::{
    react_rel, reactions_subset, seq_subset, NetworkV, ReactionNetwork,
};
use crate::solution::Solution;

verus! {

/// Index of a simulation step, for graphable points.
#[derive(Debug, Clone, Copy, PartialEq, Eq, Structural)]
pub struct Step(pub usize);

/// Identifier of a trial within the engine's fleet.
#[derive(Debug, Clone, Copy, PartialEq, Eq, Structural, Hash)]
pub struct ID(pub usize);

/// What a step of a trial reports back: the trial keeps processing, or it
/// has completed with the given terminal solution.
pub enum TrialState {
    Processing(ID, Solution),
    Complete(ID, Solution),
}

/// Stability classification of a trial.
/// `SemiStable(k)` counts rounds in which every possible reaction was
/// null-adjacent; past the tolerance the trial is forced to `Stable`.
#[derive(Debug, Clone, Copy, PartialEq, Eq, Structural, Hash)]
pub enum Stability {
    Initial,
    Unstable,
    SemiStable(usize),
    Stable,
}

/// Mathematical value of a trial.
pub ghost struct TrialV {
    pub network: NetworkV,
    pub stability: Stability,
    pub max_semi_stable_steps: usize,
    pub trial_id: usize,
}

/// The runtime environment for a single trial. Once the object has been
/// initialized, `step` must be called on it repeatedly until it reaches a
/// stable state.
pub struct Trial {
    reaction_network: ReactionNetwork,
    stability: Stability,
    max_semi_stable_steps: usize,
    trial_id: ID,
}

impl View for Trial {
    type V = TrialV;

    closed spec fn view(&self) -> TrialV {
        TrialV {
            network: self.reaction_network@,
            stability: self.stability,
            max_semi_stable_steps: self.max_semi_stable_steps,
            trial_id: self.trial_id.0,
        }
    }
}

/// The state reported by a step describes the trial it came from: its id,
/// and a snapshot of its current solution.
pub open spec fn state_matches(state: TrialState, t: TrialV) -> bool {
    match state {
        TrialState::Processing(id, sln) => id.0 == t.trial_id && sln@ == t.network.solution,
        TrialState::Complete(id, sln) => id.0 == t.trial_id && sln@ == t.network.solution,
    }
}

/// What follows the first reaction of a step, which left the network at
/// `mid`: the stability is reclassified from the resulting possible set,
/// and a semi-stable round performs a second reaction while advancing the
/// tolerance counter, forcing `Stable` past the limit.
pub open spec fn step_after_react(pre: TrialV, mid: NetworkV, post: TrialV) -> bool {
    if mid.possible_reactions.len() == 0 {
        post.network == mid && post.stability is Stable
    } else if seq_subset(mid.possible_reactions, mid.null_adjacent_reactions) {
        match pre.stability {
            Stability::SemiStable(k) => exists|after: NetworkV|
                #[trigger] react_rel(mid, after) && post.network == after && post.stability == (
                if k < pre.max_semi_stable_steps {
                    Stability::SemiStable((k + 1) as usize)
                } else {
                    Stability::Stable
                }),
            _ => post.network == mid && post.stability == Stability::SemiStable(0),
        }
    } else {
        post.network == mid && post.stability == Stability::Unstable
    }
}

/// How one `step` call moves a trial: a stable trial is left untouched;
/// otherwise, if no reaction is possible the trial stabilizes at once, and
/// else one reaction happens and the rest follows `step_after_react`.
pub open spec fn step_outcome(pre: TrialV, post: TrialV) -> bool {
    &&& post.max_semi_stable_steps == pre.max_semi_stable_steps
    &&& post.trial_id == pre.trial_id
    &&& if pre.stability is Stable {
        post == pre
    } else if pre.network.possible_reactions.len() == 0 {
        post.network == pre.network && post.stability is Stable
    } else {
        exists|mid: NetworkV|
            #[trigger] react_rel(pre.network, mid) && step_after_react(pre, mid, post)
    }
}

impl Trial {
    /// The network is well-formed.
    pub closed spec fn wf(&self) -> bool {
        self.reaction_network.wf()
    }

    /// The seed of this trial's network.
    pub closed spec fn spec_seed(&self) -> Seq<u8> {
        self.reaction_network.spec_seed()
    }

    pub fn from(
        reaction_network: ReactionNetwork,
        max_semi_stable_steps: usize,
        trial_id: usize,
    ) -> (t: Trial)
        requires
            reaction_network.wf(),
        ensures
            t.wf(),
            t@.network == reaction_network@,
            t@.stability == Stability::Initial,
            t@.max_semi_stable_steps == max_semi_stable_steps,
            t@.trial_id == trial_id,
            t.spec_seed() == reaction_network.spec_seed(),
    {
        Trial {
            reaction_network,
            stability: Stability::Initial,
            max_semi_stable_steps,
            trial_id: ID(trial_id),
        }
    }

    /// Simulates a single time step of the trial and updates its stability
    /// based on the list of possible reactions. A trial that was already
    /// stable is left untouched and reports `Complete`.
    pub fn step(&mut self) -> (state: TrialState)
        requires
            old(self).wf(),
        ensures
            final(self).wf(),
            final(self).spec_seed() == old(self).spec_seed(),
            step_outcome(old(self)@, final(self)@),
            (state is Complete) == (old(self)@.stability is Stable),
            state_matches(state, final(self)@),
    {
        match self.stability {
            Stability::Stable => {
                return TrialState::Complete(
                    self.trial_id,
                    self.reaction_network.get_solution().clone(),
                );
            },
            _ => {},
        }
        if self.reaction_network.get_possible_reactions().is_empty() {
            self.stability = Stability::Stable;
            return TrialState::Processing(
                self.trial_id,
                self.reaction_network.get_solution().clone(),
            );
        }
        self.reaction_network.react();
        let ghost mid = self.reaction_network@;
        proof {
            assert(react_rel(old(self)@.network, mid));
        }
        if self.reaction_network.get_possible_reactions().is_empty() {
            self.stability = Stability::Stable;
        } else if reactions_subset(
            self.reaction_network.get_possible_reactions(),
            self.reaction_network.get_null_adjacent_reactions(),
        ) {
            match self.stability {
                Stability::SemiStable(count) => {
                    self.reaction_network.react();
                    proof {
                        assert(react_rel(mid, self.reaction_network@));
                    }
                    if count < self.max_semi_stable_steps {
                        self.stability = Stability::SemiStable(count + 1);
                    } else {
                        self.stability = Stability::Stable;
                    }
                },
                _ => {
                    self.stability = Stability::SemiStable(0);
                },
            }
        } else {
            self.stability = Stability::Unstable;
        }
        TrialState::Processing(self.trial_id, self.reaction_network.get_solution().clone())
    }

    pub fn get_id(&self) -> (id: ID)
        ensures
            id.0 == self@.trial_id,
    {
        self.trial_id
    }

    pub fn get_solution(&self) -> (s: &Solution)
        ensures
            s@ == self@.network.solution,
    {
        self.reaction_network.get_solution()
    }

    pub fn get_seed(&self) -> (seed: [u8; 32])
        ensures
            seed@ == self.spec_seed(),
    {
        self.reaction_network.get_seed()
    }
}

impl Clone for Trial {
    fn clone(&self) -> (t: Trial)
        ensures
            t@ == self@,
            t.wf() == self.wf(),
            t.spec_seed() == self.spec_seed(),
    {
        Trial {
            reaction_network: self.reaction_network.clone(),
            stability: self.stability,
            max_semi_stable_steps: self.max_semi_stable_steps,
            trial_id: self.trial_id,
        }
    }
}

} // verus!
