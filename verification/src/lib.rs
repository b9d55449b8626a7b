//! Ensemble stochastic simulation of chemical reaction networks.
//!
//! A `ReactionNetwork` owns a set of reactions and a solution of species
//! counts; a `Trial` walks one seeded network to a stable state; the engine
//! steps a fleet of independently seeded trials round by round and sums
//! their terminal solutions, the exact numerators of the species averages.

pub mod laws;
pub mod reaction;
pub mod reaction_network;
pub mod results;
mod rng;
pub mod solution;
pub mod term;
pub mod trial;

use vstd::prelude::*;
use crate::reaction_network::ReactionNetwork;
use crate::rng::random_seed;
use crate::solution::{
    entries_unique, map_of, sorted_strict, sum_maps, zero_or, Count, Name, Solution,
};
use crate::trial::{state_matches, step_outcome, Stability, Step, Trial, TrialState, ID};

verus! {

/// Marlea error types.
#[derive(Debug)]
pub enum MarleaEngineError {
    Unknown(String),
    ExceededRuntime(&'static str),
}

/// A simple struct providing a representation of a graphable datapoint.
pub struct Point(pub Name, pub Step, pub Count);

/// The behaviors the engine may use to report data back; the channel that
/// carries the reports lives with the caller that consumes them.
#[derive(Debug, Clone, Copy, PartialEq, Eq, Structural)]
pub enum MarleaReturn {
    Full,
    Minimal,
    Silent,
}

/// Pointwise sum of a collection of solutions, taken left to right.
pub open spec fn sum_of(solutions: Seq<Map<Seq<char>, u64>>) -> Map<Seq<char>, u64>
    decreases solutions.len(),
{
    if solutions.len() == 0 {
        Map::empty()
    } else {
        sum_maps(sum_of(solutions.drop_last()), solutions.last())
    }
}

/// The solutions a list of trials currently holds.
pub open spec fn trial_solutions(trials: Seq<Trial>) -> Seq<Map<Seq<char>, u64>> {
    trials.map_values(|t: Trial| t@.network.solution)
}

/// The trials of a finished round that emitted `Complete`: those that were
/// already stable when the round began.
pub open spec fn completed_of(pres: Seq<Trial>, posts: Seq<Trial>) -> Seq<Trial>
    decreases pres.len(),
{
    if pres.len() == 0 {
        Seq::empty()
    } else {
        let rest = completed_of(pres.drop_last(), posts.drop_last());
        if pres.last()@.stability is Stable {
            rest.push(posts.last())
        } else {
            rest
        }
    }
}

/// The trials of a finished round that keep processing.
pub open spec fn processing_of(pres: Seq<Trial>, posts: Seq<Trial>) -> Seq<Trial>
    decreases pres.len(),
{
    if pres.len() == 0 {
        Seq::empty()
    } else {
        let rest = processing_of(pres.drop_last(), posts.drop_last());
        if pres.last()@.stability is Stable {
            rest
        } else {
            rest.push(posts.last())
        }
    }
}

/// A round moves every trial and keeps it, either among the completed ones
/// or among those still processing.
pub proof fn lemma_round_partition(pres: Seq<Trial>, posts: Seq<Trial>)
    requires
        pres.len() == posts.len(),
    ensures
        completed_of(pres, posts).len() + processing_of(pres, posts).len() == pres.len(),
    decreases pres.len(),
{
    if pres.len() > 0 {
        lemma_round_partition(pres.drop_last(), posts.drop_last());
    }
}

/// One round of stepping: every trial of `pres` was stepped once into the
/// corresponding trial of `stepped`, reporting the corresponding state, and
/// a trial reported `Complete` exactly when it was already stable.
pub open spec fn round_rel(pres: Seq<Trial>, stepped: Seq<Trial>, states: Seq<TrialState>) -> bool {
    &&& stepped.len() == pres.len()
    &&& states.len() == pres.len()
    &&& forall|j: int| 0 <= j < pres.len() ==> step_outcome((#[trigger] pres[j])@, stepped[j]@)
    &&& forall|j: int| 0 <= j < pres.len() ==> state_matches(#[trigger] states[j], stepped[j]@)
    &&& forall|j: int|
        0 <= j < pres.len() ==> (((#[trigger] states[j]) is Complete) <==> pres[j]@.stability
            is Stable)
}

/// The counts one species takes along a replayed walk, one entry per
/// recorded step: its count in the solution after each step.
pub open spec fn count_series(chain: Seq<Trial>, name: Seq<char>) -> Seq<u64> {
    Seq::new((chain.len() - 1) as nat, |r: int| zero_or(chain[r + 1]@.network.solution, name))
}

/// The graphable points of a replayed walk over a species list: for each
/// species in order, the significant points of its count series, each
/// tagged with the species name.
pub open spec fn timeline_of(species: Seq<(Name, Count)>, chain: Seq<Trial>) -> Seq<
    (Seq<char>, int, u64),
>
    decreases species.len(),
{
    if species.len() == 0 {
        Seq::empty()
    } else {
        let name = species.last().0@;
        timeline_of(species.drop_last(), chain) + marks_of(count_series(chain, name)).map_values(
            |m: (int, u64)| (name, m.0, m.1),
        )
    }
}

/// One round moves the whole engine: its configuration is untouched, and
/// for some stepping of the processing fleet the completed list grows by
/// exactly the trials that reported `Complete` while the rest keep
/// processing.
pub open spec fn engine_round(pre: MarleaEngine, post: MarleaEngine) -> bool {
    &&& post.spec_num_trials() == pre.spec_num_trials()
    &&& post.spec_max_runtime() == pre.spec_max_runtime()
    &&& post.spec_return() == pre.spec_return()
    &&& post.spec_tolerance() == pre.spec_tolerance()
    &&& post.spec_prime() == pre.spec_prime()
    &&& exists|stepped: Seq<Trial>, states: Seq<TrialState>|
        {
            &&& #[trigger] round_rel(pre.spec_processing(), stepped, states)
            &&& post.spec_completed() == pre.spec_completed() + completed_of(
                pre.spec_processing(),
                stepped,
            )
            &&& post.spec_processing() == processing_of(pre.spec_processing(), stepped)
        }
}

/// A walk of the engine: every consecutive pair of states is one round.
pub open spec fn engine_chain(trace: Seq<MarleaEngine>) -> bool {
    forall|i: int| 1 <= i < trace.len() ==> engine_round(trace[i - 1], #[trigger] trace[i])
}

/// This is a builder object containing defaults and methods for
/// constructing a `MarleaEngine` object.
pub struct Builder {
    // set externally
    num_trials: usize,
    max_runtime: Option<u64>,
    max_semi_stable_steps: usize,
    // constructed internally
    prime_network: ReactionNetwork,
    runtime_return: MarleaReturn,
}

impl Builder {
    pub closed spec fn spec_num_trials(&self) -> usize {
        self.num_trials
    }

    pub closed spec fn spec_max_runtime(&self) -> Option<u64> {
        self.max_runtime
    }

    pub closed spec fn spec_tolerance(&self) -> usize {
        self.max_semi_stable_steps
    }

    pub closed spec fn spec_return(&self) -> MarleaReturn {
        self.runtime_return
    }

    pub closed spec fn spec_prime(&self) -> ReactionNetwork {
        self.prime_network
    }

    pub open spec fn wf(&self) -> bool {
        self.spec_prime().wf()
    }

    /// Builds a new engine configuration from the given network with
    /// default values: 100 trials, unlimited runtime, a tolerance of 99
    /// semi-stable steps, and minimal reporting.
    pub fn new(prime_network: ReactionNetwork) -> (builder: Builder)
        requires
            prime_network.wf(),
        ensures
            builder.wf(),
            builder.spec_num_trials() == 100,
            builder.spec_max_runtime() is None,
            builder.spec_tolerance() == 99,
            builder.spec_return() == MarleaReturn::Minimal,
            builder.spec_prime() == prime_network,
    {
        Builder {
            num_trials: 100,
            max_runtime: None,
            max_semi_stable_steps: 99,
            prime_network,
            runtime_return: MarleaReturn::Minimal,
        }
    }

    /// Sets the number of trials to simulate before averaging.
    pub fn trials(self, count: usize) -> (builder: Builder)
        ensures
            builder.spec_num_trials() == count,
            builder.spec_max_runtime() == self.spec_max_runtime(),
            builder.spec_tolerance() == self.spec_tolerance(),
            builder.spec_return() == self.spec_return(),
            builder.spec_prime() == self.spec_prime(),
    {
        Builder { num_trials: count, ..self }
    }

    /// Sets the maximum runtime, in whole seconds, before the simulation is
    /// forced to quit.
    pub fn runtime(self, time: u64) -> (builder: Builder)
        ensures
            builder.spec_max_runtime() == Some(time),
            builder.spec_num_trials() == self.spec_num_trials(),
            builder.spec_tolerance() == self.spec_tolerance(),
            builder.spec_return() == self.spec_return(),
            builder.spec_prime() == self.spec_prime(),
    {
        Builder { max_runtime: Some(time), ..self }
    }

    /// Sets the tolerance of semi-stable steps to a manual value. This
    /// should only be used when a network exits prematurely; better network
    /// design usually avoids it.
    pub fn tolerance(self, steps: usize) -> (builder: Builder)
        ensures
            builder.spec_tolerance() == steps,
            builder.spec_num_trials() == self.spec_num_trials(),
            builder.spec_max_runtime() == self.spec_max_runtime(),
            builder.spec_return() == self.spec_return(),
            builder.spec_prime() == self.spec_prime(),
    {
        Builder { max_semi_stable_steps: steps, ..self }
    }

    /// Toggles reporting between minimal and full; silent stays silent.
    pub fn verbose(self) -> (builder: Builder)
        ensures
            builder.spec_return() == (match self.spec_return() {
                MarleaReturn::Minimal => MarleaReturn::Full,
                MarleaReturn::Full => MarleaReturn::Minimal,
                MarleaReturn::Silent => MarleaReturn::Silent,
            }),
            builder.spec_num_trials() == self.spec_num_trials(),
            builder.spec_max_runtime() == self.spec_max_runtime(),
            builder.spec_tolerance() == self.spec_tolerance(),
            builder.spec_prime() == self.spec_prime(),
    {
        let runtime_return = match self.runtime_return {
            MarleaReturn::Minimal => MarleaReturn::Full,
            MarleaReturn::Full => MarleaReturn::Minimal,
            MarleaReturn::Silent => MarleaReturn::Silent,
        };
        Builder { runtime_return, ..self }
    }

    /// Sets the engine to offer no data back apart from the return value of
    /// the run itself.
    pub fn no_response(self) -> (builder: Builder)
        ensures
            builder.spec_return() == MarleaReturn::Silent,
            builder.spec_num_trials() == self.spec_num_trials(),
            builder.spec_max_runtime() == self.spec_max_runtime(),
            builder.spec_tolerance() == self.spec_tolerance(),
            builder.spec_prime() == self.spec_prime(),
    {
        Builder { runtime_return: MarleaReturn::Silent, ..self }
    }

    /// Consumes the builder and outputs an engine whose fleet holds one
    /// freshly seeded clone of the prime network per trial.
    pub fn build(self) -> (engine: MarleaEngine)
        requires
            self.wf(),
        ensures
            engine.wf(),
            engine.spec_num_trials() == self.spec_num_trials(),
            engine.spec_max_runtime() == self.spec_max_runtime(),
            engine.spec_return() == self.spec_return(),
            engine.spec_completed().len() == 0,
            engine.spec_processing().len() == self.spec_num_trials(),
            forall|i: int|
                0 <= i < self.spec_num_trials() ==> {
                    let t = #[trigger] engine.spec_processing()[i];
                    &&& t@.network == self.spec_prime()@
                    &&& t@.stability == Stability::Initial
                    &&& t@.max_semi_stable_steps == self.spec_tolerance()
                    &&& t@.trial_id == i
                },
    {
        let mut processing_trials: Vec<Trial> = Vec::new();
        let n = self.num_trials;
        for index in 0..n
            invariant
                processing_trials@.len() == index,
                self.prime_network.wf(),
                forall|i: int|
                    0 <= i < index ==> {
                        let t = #[trigger] processing_trials@[i];
                        &&& t.wf()
                        &&& t@.network == self.prime_network@
                        &&& t@.stability == Stability::Initial
                        &&& t@.max_semi_stable_steps == self.max_semi_stable_steps
                        &&& t@.trial_id == i
                    },
        {
            let network = self.prime_network.clone().with_seed(random_seed());
            let t = Trial::from(network, self.max_semi_stable_steps, index);
            processing_trials.push(t);
        }
        MarleaEngine {
            num_trials: self.num_trials,
            max_runtime: self.max_runtime,
            max_semi_stable_steps: self.max_semi_stable_steps,
            processing_trials,
            completed_trials: Vec::new(),
            prime_network: self.prime_network,
            runtime_return: self.runtime_return,
            step_counter: 0,
        }
    }
}

/// Main backend runtime object for the simulation.
pub struct MarleaEngine {
    // set externally
    num_trials: usize,
    max_runtime: Option<u64>,
    max_semi_stable_steps: usize,
    // constructed internally
    processing_trials: Vec<Trial>,
    completed_trials: Vec<Trial>,
    prime_network: ReactionNetwork,
    runtime_return: MarleaReturn,
    step_counter: u64,
}

impl MarleaEngine {
    pub closed spec fn spec_processing(&self) -> Seq<Trial> {
        self.processing_trials@
    }

    pub closed spec fn spec_completed(&self) -> Seq<Trial> {
        self.completed_trials@
    }

    pub closed spec fn spec_num_trials(&self) -> usize {
        self.num_trials
    }

    pub closed spec fn spec_max_runtime(&self) -> Option<u64> {
        self.max_runtime
    }

    pub closed spec fn spec_tolerance(&self) -> usize {
        self.max_semi_stable_steps
    }

    pub closed spec fn spec_return(&self) -> MarleaReturn {
        self.runtime_return
    }

    pub closed spec fn spec_prime(&self) -> ReactionNetwork {
        self.prime_network
    }

    /// Every held trial is well-formed, completed trials are stable, the
    /// prime network is well-formed, and the fleet always holds exactly the
    /// configured number of trials.
    pub open spec fn wf(&self) -> bool {
        &&& self.spec_prime().wf()
        &&& forall|i: int|
            0 <= i < self.spec_processing().len() ==> (#[trigger] self.spec_processing()[i]).wf()
        &&& forall|i: int|
            0 <= i < self.spec_completed().len() ==> (#[trigger] self.spec_completed()[i]).wf()
        &&& forall|i: int|
            0 <= i < self.spec_completed().len() ==> (#[trigger] self.spec_completed()[i])@.stability
                is Stable
        &&& self.spec_processing().len() + self.spec_completed().len() == self.spec_num_trials()
    }

    /// Steps every processing trial once, keeps the fleet partitioned into
    /// processing and completed trials, and reports this round's states.
    pub fn step_round(&mut self) -> (states: Vec<TrialState>)
        requires
            old(self).wf(),
        ensures
            final(self).wf(),
            final(self).spec_num_trials() == old(self).spec_num_trials(),
            final(self).spec_max_runtime() == old(self).spec_max_runtime(),
            final(self).spec_return() == old(self).spec_return(),
            final(self).spec_tolerance() == old(self).spec_tolerance(),
            final(self).spec_prime() == old(self).spec_prime(),
            engine_round(*old(self), *final(self)),
            exists|stepped: Seq<Trial>|
                {
                    &&& #[trigger] round_rel(old(self).spec_processing(), stepped, states@)
                    &&& final(self).spec_completed() == old(self).spec_completed()
                        + completed_of(old(self).spec_processing(), stepped)
                    &&& final(self).spec_processing() == processing_of(
                        old(self).spec_processing(),
                        stepped,
                    )
                },
    {
        let mut olds: Vec<Trial> = Vec::new();
        core::mem::swap(&mut olds, &mut self.processing_trials);
        let ghost pres = olds@;
        let mut states: Vec<TrialState> = Vec::new();
        let ghost mut stepped: Seq<Trial> = Seq::empty();
        proof {
            assert(completed_of(pres.take(0), stepped) =~= Seq::<Trial>::empty());
            assert(processing_of(pres.take(0), stepped) =~= Seq::<Trial>::empty());
            assert(self.completed_trials@ =~= old(self).spec_completed() + completed_of(
                pres.take(0),
                stepped,
            ));
            assert(self.processing_trials@ =~= processing_of(pres.take(0), stepped));
        }
        let n = olds.len();
        for i in 0..n
            invariant
                n == pres.len(),
                olds@ =~= pres.skip(i as int),
                stepped.len() == i,
                states@.len() == i,
                forall|j: int| 0 <= j < pres.len() ==> (#[trigger] pres[j]).wf(),
                forall|j: int|
                    0 <= j < i ==> step_outcome((#[trigger] pres[j])@, stepped[j]@),
                forall|j: int| 0 <= j < i ==> state_matches(#[trigger] states@[j], stepped[j]@),
                forall|j: int|
                    0 <= j < i ==> (((#[trigger] states@[j]) is Complete) <==> pres[j]@.stability
                        is Stable),
                self.completed_trials@ == old(self).spec_completed() + completed_of(
                    pres.take(i as int),
                    stepped,
                ),
                self.processing_trials@ == processing_of(pres.take(i as int), stepped),
                forall|j: int|
                    0 <= j < self.completed_trials@.len() ==> (
                    #[trigger] self.completed_trials@[j]).wf(),
                forall|j: int|
                    0 <= j < self.completed_trials@.len() ==> (
                    #[trigger] self.completed_trials@[j])@.stability is Stable,
                forall|j: int|
                    0 <= j < self.processing_trials@.len() ==> (
                    #[trigger] self.processing_trials@[j]).wf(),
                old(self).wf(),
                self.num_trials == old(self).spec_num_trials(),
                self.max_runtime == old(self).spec_max_runtime(),
                self.runtime_return == old(self).spec_return(),
                self.max_semi_stable_steps == old(self).spec_tolerance(),
                self.prime_network == old(self).spec_prime(),
        {
            let mut t = olds.remove(0);
            proof {
                assert(pres.skip(i as int)[0] == pres[i as int]);
                assert(pres.skip(i as int).drop_first() =~= pres.skip(i + 1));
            }
            let ghost pre_stepped = stepped;
            let st = t.step();
            proof {
                stepped = stepped.push(t);
                assert(pres.take(i + 1).drop_last() =~= pres.take(i as int));
                assert(pres.take(i + 1).last() == pres[i as int]);
                assert(stepped.drop_last() =~= pre_stepped);
                assert(stepped.last() == t);
            }
            match &st {
                TrialState::Complete(_, _) => {
                    proof {
                        assert(pres[i as int]@.stability is Stable);
                        assert(t@.stability is Stable);
                    }
                    self.completed_trials.push(t);
                },
                TrialState::Processing(_, _) => {
                    self.processing_trials.push(t);
                },
            }
            states.push(st);
        }
        proof {
            assert(pres.take(n as int) =~= pres);
            lemma_round_partition(pres, stepped);
            assert(round_rel(old(self).spec_processing(), stepped, states@));
        }
        self.step_counter = self.step_counter.wrapping_add(1);
        proof {
            let stepped_w = stepped;
            assert(round_rel(old(self).spec_processing(), stepped_w, states@));
            assert(self.spec_completed() == old(self).spec_completed() + completed_of(
                old(self).spec_processing(),
                stepped_w,
            ));
            assert(self.spec_processing() == processing_of(
                old(self).spec_processing(),
                stepped_w,
            ));
            assert(engine_round(*old(self), *self));
        }
        states
    }

    /// Runs rounds until every trial has completed, or the round budget is
    /// exhausted; a run that completes returns the sorted pointwise sums of
    /// the terminal solutions, whose denominator is the number of trials.
    /// The final engine is what some chain of at most `max_rounds` rounds
    /// makes of the entry engine, and the budget error comes only after the
    /// full budget of rounds was stepped without reaching completion.
    pub fn run(&mut self, max_rounds: u64) -> (result: Result<
        Vec<(Name, Count)>,
        MarleaEngineError,
    >)
        requires
            old(self).wf(),
        ensures
            final(self).wf(),
            final(self).spec_num_trials() == old(self).spec_num_trials(),
            old(self).spec_completed().len() == old(self).spec_num_trials() ==> result is Ok,
            exists|trace: Seq<MarleaEngine>|
                {
                    &&& #[trigger] engine_chain(trace)
                    &&& 1 <= trace.len() <= max_rounds + 1
                    &&& trace.first() == *old(self)
                    &&& trace.last() == *final(self)
                    &&& (result is Err ==> trace.len() == max_rounds + 1)
                },
            match result {
                Ok(sums) => {
                    &&& final(self).spec_completed().len() == final(self).spec_num_trials()
                    &&& map_of(sums@) == sum_of(trial_solutions(final(self).spec_completed()))
                    &&& entries_unique(sums@)
                    &&& sorted_strict(sums@)
                },
                Err(e) => {
                    &&& e is ExceededRuntime
                    &&& final(self).spec_completed().len() < final(self).spec_num_trials()
                },
            },
    {
        let mut rounds: u64 = 0;
        let ghost mut trace: Seq<MarleaEngine> = seq![*self];
        proof {
            assert(engine_chain(trace));
        }
        while rounds < max_rounds && self.completed_trials.len() < self.num_trials
            invariant
                self.wf(),
                rounds <= max_rounds,
                self.num_trials == old(self).spec_num_trials(),
                engine_chain(trace),
                trace.len() == rounds + 1,
                trace.first() == *old(self),
                trace.last() == *self,
                old(self).spec_completed().len() == old(self).spec_num_trials()
                    ==> self.spec_completed().len() == self.spec_num_trials(),
            decreases max_rounds - rounds,
        {
            let ghost previous = *self;
            self.step_round();
            proof {
                assert(engine_round(previous, *self));
                let extended = trace.push(*self);
                assert forall|i: int| 1 <= i < extended.len() implies engine_round(
                    extended[i - 1],
                    #[trigger] extended[i],
                ) by {
                    if i < extended.len() - 1 {
                        assert(extended[i] == trace[i]);
                        assert(extended[i - 1] == trace[i - 1]);
                        assert(engine_round(trace[i - 1], trace[i]));
                    } else {
                        assert(extended[i - 1] == previous);
                        assert(extended[i] == *self);
                    }
                }
                trace = extended;
            }
            rounds = rounds + 1;
        }
        if self.completed_trials.len() == self.num_trials {
            let mut solutions: Vec<Solution> = Vec::new();
            let m = self.completed_trials.len();
            for i in 0..m
                invariant
                    m == self.completed_trials@.len(),
                    self.wf(),
                    solutions@.len() == i,
                    forall|j: int|
                        0 <= j < i ==> (#[trigger] solutions@[j])@
                            == self.completed_trials@[j]@.network.solution,
            {
                let sln = self.completed_trials[i].get_solution().clone();
                solutions.push(sln);
            }
            proof {
                let lhs = solutions@.map_values(|s: Solution| s@);
                let rhs = trial_solutions(self.spec_completed());
                assert forall|j: int| 0 <= j < m implies lhs[j] == rhs[j] by {
                    assert(lhs[j] == solutions@[j]@);
                    assert(rhs[j] == self.spec_completed()[j]@.network.solution);
                }
                assert(lhs =~= rhs);
                assert(engine_chain(trace) && trace.last() == *self);
            }
            Ok(Self::average_trials(&solutions))
        } else {
            proof {
                assert(self.spec_completed().len() < self.spec_num_trials());
                assert(rounds == max_rounds);
                assert(engine_chain(trace) && trace.last() == *self && trace.len()
                    == max_rounds + 1);
            }
            Err(MarleaEngineError::ExceededRuntime("Max runtime reached Force quitting"))
        }
    }

    /// Whether every trial has completed.
    pub fn is_done(&self) -> (done: bool)
        requires
            self.wf(),
        ensures
            done == (self.spec_completed().len() == self.spec_num_trials()),
    {
        self.completed_trials.len() == self.num_trials
    }

    pub fn get_completed_trials(&self) -> (trials: &Vec<Trial>)
        ensures
            trials@ == self.spec_completed(),
    {
        &self.completed_trials
    }

    /// A replayed walk for `id`: it starts at a fresh trial of the prime
    /// network, reseeded with the retained seed of a completed trial
    /// carrying `id`, and every link of the walk is one step.
    pub open spec fn spec_walk(&self, id: ID, chain: Seq<Trial>) -> bool {
        &&& chain.len() >= 1
        &&& chain[0]@.network == self.spec_prime()@
        &&& chain[0]@.stability == Stability::Initial
        &&& chain[0]@.max_semi_stable_steps == self.spec_tolerance()
        &&& chain[0]@.trial_id == id.0
        &&& exists|i: int|
            {
                &&& 0 <= i < self.spec_completed().len()
                &&& (#[trigger] self.spec_completed()[i])@.trial_id == id.0
                &&& chain[0].spec_seed() == self.spec_completed()[i].spec_seed()
            }
        &&& forall|r: int|
            1 <= r < chain.len() ==> step_outcome(chain[r - 1]@, (#[trigger] chain[r])@)
        &&& forall|r: int|
            0 <= r < chain.len() - 1 ==> !((#[trigger] chain[r])@.stability is Stable)
    }

    /// A faithful finished replay for `id`: a walk whose last recorded
    /// state is the first stable one.
    pub open spec fn spec_replay(&self, id: ID, chain: Seq<Trial>) -> bool {
        &&& self.spec_walk(id, chain)
        &&& chain.last()@.stability is Stable
    }

    /// Re-simulates a single completed trial from its retained seed,
    /// providing back a sparse series of significant points which may be
    /// graphed: for each species, the first and last recorded count and
    /// every point where the slope of its count changes. Returns nothing
    /// when no completed trial carries the id, or when the replay does not
    /// stabilize within `max_steps` rounds.
    pub fn get_timeline(&self, id: &ID, max_steps: u32) -> (timeline: Option<Vec<Point>>)
        requires
            self.wf(),
        ensures
            (forall|i: int|
                0 <= i < self.spec_completed().len() ==> (
                #[trigger] self.spec_completed()[i])@.trial_id != id.0) ==> timeline is None,
            timeline is None ==> (forall|i: int|
                0 <= i < self.spec_completed().len() ==> (
                #[trigger] self.spec_completed()[i])@.trial_id != id.0) || exists|
                chain: Seq<Trial>,
            |
                #[trigger] self.spec_walk(*id, chain) && chain.len() == max_steps + 1,
            match timeline {
                Some(points) => exists|chain: Seq<Trial>, species: Seq<(Name, Count)>|
                    #![trigger self.spec_replay(*id, chain), map_of(species)]
                    {
                        &&& self.spec_replay(*id, chain)
                        &&& map_of(species) == self.spec_prime()@.solution
                        &&& sorted_strict(species)
                        &&& entries_unique(species)
                        &&& points@.len() == timeline_of(species, chain).len()
                        &&& forall|p: int|
                            0 <= p < points@.len() ==> {
                                let expected = timeline_of(species, chain)[p];
                                &&& (#[trigger] points@[p]).0@ == expected.0
                                &&& points@[p].1.0 == expected.1
                                &&& points@[p].2.0 == expected.2
                            }
                    },
                None => true,
            },
    {
        let mut seed: Option<[u8; 32]> = None;
        let n = self.completed_trials.len();
        for i in 0..n
            invariant
                n == self.completed_trials@.len(),
                match seed {
                    Some(s) => exists|j: int|
                        {
                            &&& 0 <= j < self.spec_completed().len()
                            &&& (#[trigger] self.spec_completed()[j])@.trial_id == id.0
                            &&& s@ == self.spec_completed()[j].spec_seed()
                        },
                    None => forall|j: int|
                        0 <= j < i ==> (#[trigger] self.spec_completed()[j])@.trial_id != id.0,
                },
        {
            if self.completed_trials[i].get_id().0 == id.0 {
                seed = Some(self.completed_trials[i].get_seed());
                proof {
                    assert(self.spec_completed()[i as int]@.trial_id == id.0);
                }
            }
        }
        let seed = match seed {
            Some(seed) => seed,
            None => {
                return None;
            },
        };
        let network = self.prime_network.clone().with_seed(seed);
        let mut re_trial = Trial::from(network, self.max_semi_stable_steps, id.0);
        let species = self.prime_network.get_solution().to_sorted_entries();
        let width = species.len();
        let mut snapshots: Vec<Vec<u64>> = Vec::new();
        let ghost mut chain: Seq<Trial> = seq![re_trial];
        let mut complete = false;
        let mut steps: u32 = 0;
        while steps < max_steps && !complete
            invariant
                re_trial.wf(),
                width == species@.len(),
                steps <= max_steps,
                !complete ==> snapshots@.len() == steps,
                chain.len() == snapshots@.len() + 1,
                chain[0]@.network == self.spec_prime()@,
                chain[0]@.stability == Stability::Initial,
                chain[0]@.max_semi_stable_steps == self.spec_tolerance(),
                chain[0]@.trial_id == id.0,
                exists|j: int|
                    {
                        &&& 0 <= j < self.spec_completed().len()
                        &&& (#[trigger] self.spec_completed()[j])@.trial_id == id.0
                        &&& chain[0].spec_seed() == self.spec_completed()[j].spec_seed()
                    },
                chain.last()@ == re_trial@,
                forall|r: int|
                    1 <= r < chain.len() ==> step_outcome(chain[r - 1]@, (#[trigger] chain[r])@),
                forall|r: int|
                    0 <= r < chain.len() - 1 ==> !((#[trigger] chain[r])@.stability is Stable),
                complete ==> chain.last()@.stability is Stable,
                forall|r: int|
                    0 <= r < snapshots@.len() ==> (#[trigger] snapshots@[r])@.len() == width,
                forall|r: int, jj: int|
                    0 <= r < snapshots@.len() && 0 <= jj < width ==> #[trigger] snapshots@[r]@[jj]
                        == zero_or(chain[r + 1]@.network.solution, species@[jj].0@),
            decreases max_steps - steps,
        {
            let ghost pre_view = re_trial@;
            let ghost chain_before = chain;
            let state = re_trial.step();
            match state {
                TrialState::Complete(_, _) => {
                    proof {
                        assert(pre_view.stability is Stable);
                        assert(re_trial@ == pre_view);
                    }
                    complete = true;
                },
                TrialState::Processing(_, sln) => {
                    proof {
                        assert(!(pre_view.stability is Stable));
                        assert(sln@ == re_trial@.network.solution);
                    }
                    let mut row: Vec<u64> = Vec::new();
                    for j in 0..width
                        invariant
                            width == species@.len(),
                            row@.len() == j,
                            forall|jj: int|
                                0 <= jj < j ==> #[trigger] row@[jj] == zero_or(
                                    sln@,
                                    species@[jj].0@,
                                ),
                    {
                        let count = match sln.get(&species[j].0) {
                            Some(count) => count,
                            None => 0,
                        };
                        proof {
                            assert(count == zero_or(sln@, species@[j as int].0@));
                        }
                        row.push(count);
                    }
                    snapshots.push(row);
                    proof {
                        chain = chain.push(re_trial);
                        assert(chain.drop_last() =~= chain_before);
                        assert(chain.last() == re_trial);
                        assert(chain[0] == chain_before[0]);
                        assert(step_outcome(
                            chain[chain.len() - 2]@,
                            chain[chain.len() - 1]@,
                        ));
                    }
                },
            }
            steps = steps + 1;
        }
        if !complete {
            proof {
                assert(steps == max_steps);
                assert(chain.len() == max_steps + 1);
                assert(self.spec_walk(*id, chain));
            }
            return None;
        }
        let mut timeline: Vec<Point> = Vec::new();
        let rows = snapshots.len();
        proof {
            assert(timeline_of(species@.take(0), chain) =~= Seq::<(Seq<char>, int, u64)>::empty());
        }
        for j in 0..width
            invariant
                width == species@.len(),
                rows == snapshots@.len(),
                rows + 1 == chain.len(),
                forall|r: int|
                    0 <= r < snapshots@.len() ==> (#[trigger] snapshots@[r])@.len() == width,
                forall|r: int, jj: int|
                    0 <= r < snapshots@.len() && 0 <= jj < width ==> #[trigger] snapshots@[r]@[jj]
                        == zero_or(chain[r + 1]@.network.solution, species@[jj].0@),
                timeline@.len() == timeline_of(species@.take(j as int), chain).len(),
                forall|p: int|
                    0 <= p < timeline@.len() ==> {
                        let expected = timeline_of(species@.take(j as int), chain)[p];
                        &&& (#[trigger] timeline@[p]).0@ == expected.0
                        &&& timeline@[p].1.0 == expected.1
                        &&& timeline@[p].2.0 == expected.2
                    },
        {
            let ghost name_v = species@[j as int].0@;
            let mut series: Vec<u64> = Vec::new();
            for r in 0..rows
                invariant
                    rows == snapshots@.len(),
                    rows + 1 == chain.len(),
                    j < width,
                    width == species@.len(),
                    series@.len() == r,
                    name_v == species@[j as int].0@,
                    forall|r0: int|
                        0 <= r0 < snapshots@.len() ==> (#[trigger] snapshots@[r0])@.len()
                            == width,
                    forall|r0: int, jj: int|
                        0 <= r0 < snapshots@.len() && 0 <= jj < width ==> #[trigger] snapshots@[r0]@[jj]
                            == zero_or(chain[r0 + 1]@.network.solution, species@[jj].0@),
                    forall|rr: int|
                        0 <= rr < r ==> #[trigger] series@[rr] == zero_or(
                            chain[rr + 1]@.network.solution,
                            name_v,
                        ),
            {
                series.push(snapshots[r][j]);
            }
            proof {
                assert(series@ =~= count_series(chain, name_v));
            }
            let marks = compress_series(&series);
            let m = marks.len();
            let ghost base = timeline@.len();
            let ghost previous_timeline = timeline@;
            for p in 0..m
                invariant
                    m == marks@.len(),
                    j < width,
                    width == species@.len(),
                    name_v == species@[j as int].0@,
                    marks@.map_values(|mm: (usize, u64)| (mm.0 as int, mm.1)) == marks_of(
                        count_series(chain, name_v),
                    ),
                    base == previous_timeline.len(),
                    timeline@.len() == base + p,
                    forall|p0: int| 0 <= p0 < base ==> #[trigger] timeline@[p0] == previous_timeline[p0],
                    forall|q: int|
                        0 <= q < p ==> {
                            &&& (#[trigger] timeline@[base + q]).0@ == name_v
                            &&& timeline@[base + q].1.0 == marks@[q].0
                            &&& timeline@[base + q].2.0 == marks@[q].1
                        },
            {
                timeline.push(
                    Point(species[j].0.clone(), Step(marks[p].0), Count(marks[p].1)),
                );
            }
            proof {
                assert(species@.take(j + 1).drop_last() =~= species@.take(j as int));
                assert(species@.take(j + 1).last() == species@[j as int]);
                let prev_tl = timeline_of(species@.take(j as int), chain);
                let cur_tl = timeline_of(species@.take(j + 1), chain);
                let mapped = marks_of(count_series(chain, name_v)).map_values(
                    |mm: (int, u64)| (name_v, mm.0, mm.1),
                );
                assert(cur_tl == prev_tl + mapped);
                assert(timeline@.len() == cur_tl.len());
                assert forall|p0: int| 0 <= p0 < timeline@.len() implies {
                    let expected = cur_tl[p0];
                    &&& (#[trigger] timeline@[p0]).0@ == expected.0
                    &&& timeline@[p0].1.0 == expected.1
                    &&& timeline@[p0].2.0 == expected.2
                } by {
                    if p0 < base {
                        assert(cur_tl[p0] == prev_tl[p0]);
                        assert(timeline@[p0] == previous_timeline[p0]);
                    } else {
                        let q = p0 - base;
                        assert(cur_tl[p0] == mapped[q]);
                        assert(mapped[q] == (
                            name_v,
                            marks_of(count_series(chain, name_v))[q].0,
                            marks_of(count_series(chain, name_v))[q].1,
                        ));
                        assert(marks_of(count_series(chain, name_v))[q] == (
                            marks@[q].0 as int,
                            marks@[q].1,
                        ));
                        assert(timeline@[base + q].0@ == name_v);
                    }
                }
            }
        }
        proof {
            assert(species@.take(width as int) =~= species@);
            assert(self.spec_replay(*id, chain));
            assert(map_of(species@) == self.spec_prime()@.solution);
        }
        Some(timeline)
    }

    /// Averages the counts from a collection of solutions: the result holds,
    /// sorted by name ascending, the exact pointwise sum of every species
    /// count; dividing each by the number of solutions gives the average.
    pub fn average_trials(sim_states: &Vec<Solution>) -> (sums: Vec<(Name, Count)>)
        ensures
            map_of(sums@) == sum_of(sim_states@.map_values(|s: Solution| s@)),
            entries_unique(sums@),
            sorted_strict(sums@),
    {
        let ghost views = sim_states@.map_values(|s: Solution| s@);
        let mut total = Solution::new();
        let n = sim_states.len();
        proof {
            assert(total@ =~= sum_of(views.take(0)));
        }
        for i in 0..n
            invariant
                n == sim_states@.len(),
                views == sim_states@.map_values(|s: Solution| s@),
                total@ == sum_of(views.take(i as int)),
        {
            proof {
                assert(views.take(i + 1).drop_last() =~= views.take(i as int));
                assert(views.take(i + 1).last() == views[i as int]);
            }
            total = total.add(&sim_states[i]);
        }
        proof {
            assert(views.take(n as int) =~= views);
        }
        total.to_sorted_entries()
    }
}

/// Whether a graph of the series needs the point at `i`: the first and the
/// last point, and every point where the slope changes.
pub open spec fn significant(series: Seq<u64>, i: int) -> bool {
    0 <= i < series.len() && (i == 0 || i == series.len() - 1 || series[i] - series[i - 1]
        != series[i + 1] - series[i])
}

/// The significant points among the first `n` of a series, in order.
pub open spec fn marks_upto(series: Seq<u64>, n: int) -> Seq<(int, u64)>
    decreases n,
{
    if n <= 0 {
        Seq::empty()
    } else {
        let prev = marks_upto(series, n - 1);
        if significant(series, n - 1) {
            prev.push((n - 1, series[n - 1]))
        } else {
            prev
        }
    }
}

/// The graphable compression of a series: its significant points, in order.
pub open spec fn marks_of(series: Seq<u64>) -> Seq<(int, u64)> {
    marks_upto(series, series.len() as int)
}

/// Keeps exactly the significant points of a series, in order, each as its
/// index and value.
pub fn compress_series(series: &Vec<u64>) -> (points: Vec<(usize, u64)>)
    ensures
        points@.map_values(|m: (usize, u64)| (m.0 as int, m.1)) == marks_of(series@),
        forall|p: int|
            0 <= p < points@.len() ==> significant(series@, (#[trigger] points@[p]).0 as int)
                && points@[p].1 == series@[points@[p].0 as int],
        forall|i: int|
            significant(series@, i) ==> exists|p: int|
                0 <= p < points@.len() && (#[trigger] points@[p]).0 == i,
        forall|p: int, q: int| 0 <= p < q < points@.len() ==> points@[p].0 < points@[q].0,
{
    let n = series.len();
    let mut points: Vec<(usize, u64)> = Vec::new();
    proof {
        assert(points@.map_values(|m: (usize, u64)| (m.0 as int, m.1)) =~= marks_upto(
            series@,
            0,
        ));
    }
    for i in 0..n
        invariant
            n == series@.len(),
            points@.map_values(|m: (usize, u64)| (m.0 as int, m.1)) == marks_upto(
                series@,
                i as int,
            ),
            forall|p: int|
                0 <= p < points@.len() ==> significant(series@, (#[trigger] points@[p]).0 as int)
                    && points@[p].1 == series@[points@[p].0 as int] && points@[p].0 < i,
            forall|k: int|
                0 <= k < i && significant(series@, k) ==> exists|p: int|
                    0 <= p < points@.len() && (#[trigger] points@[p]).0 == k,
            forall|p: int, q: int| 0 <= p < q < points@.len() ==> points@[p].0 < points@[q].0,
    {
        let keep = if i == 0 || i == n - 1 {
            true
        } else {
            let before = series[i - 1] as i128;
            let here = series[i] as i128;
            let after = series[i + 1] as i128;
            here - before != after - here
        };
        if keep {
            let ghost old_points = points@;
            points.push((i, series[i]));
            proof {
                assert(significant(series@, i as int));
                assert(points@[old_points.len() as int].0 == i);
                assert(points@.map_values(|m: (usize, u64)| (m.0 as int, m.1)) =~= marks_upto(
                    series@,
                    i + 1,
                ));
                assert forall|k: int|
                    0 <= k < i + 1 && significant(series@, k) implies exists|p: int|
                    0 <= p < points@.len() && (#[trigger] points@[p]).0 == k by {
                    if k < i {
                        let p = choose|p: int|
                            0 <= p < old_points.len() && (#[trigger] old_points[p]).0 == k;
                        assert(points@[p].0 == k);
                    } else {
                        assert(points@[old_points.len() as int].0 == k);
                    }
                }
            }
        } else {
            proof {
                assert(!significant(series@, i as int));
                assert(points@.map_values(|m: (usize, u64)| (m.0 as int, m.1)) == marks_upto(
                    series@,
                    i + 1,
                ));
            }
        }
    }
    points
}

} // verus!
