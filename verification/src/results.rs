//! Data a trial may send back while it runs or once it has stabilized.

use vstd::prelude::*;
use crate::solution::Solution;

verus! {

type ID = usize;

type StepCounter = usize;

/// The different types of data which may be sent back from a trial.
pub enum TrialResult {
    StableSolution(Solution, ID, StepCounter),
    IntermediateStep(Solution, ID, StepCounter),
}

impl Clone for TrialResult {
    fn clone(&self) -> (r: TrialResult)
        ensures
            match (self, r) {
                (TrialResult::StableSolution(s, i, c), TrialResult::StableSolution(s2, i2, c2)) => s2@
                    == s@ && i2 == i && c2 == c,
                (
                    TrialResult::IntermediateStep(s, i, c),
                    TrialResult::IntermediateStep(s2, i2, c2),
                ) => s2@ == s@ && i2 == i && c2 == c,
                _ => false,
            },
    {
        match self {
            TrialResult::StableSolution(s, i, c) => TrialResult::StableSolution(s.clone(), *i, *c),
            TrialResult::IntermediateStep(s, i, c) => TrialResult::IntermediateStep(
                s.clone(),
                *i,
                *c,
            ),
        }
    }
}

} // verus!
