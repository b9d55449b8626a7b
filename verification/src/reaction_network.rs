//! The reaction network: the immutable reaction set, the mutable solution,
//! the cached possible and null-adjacent subsets, and the seeded generator
//! that picks each next reaction by rate-weighted selection.

use vstd::prelude::*;
use vstd::pervasive::unreached;
use crate::reaction::{Reaction, ReactionV};
use crate::rng::{random_seed, rng_clone, rng_draw, rng_from_seed};
use crate::solution::{apply_spec, validate_spec, Solution};
use crate::term::Term;

verus! {

/// Mathematical value of a network; the generator state stays outside it.
pub ghost struct NetworkV {
    pub reactions: Seq<ReactionV>,
    pub possible_reactions: Seq<ReactionV>,
    pub null_adjacent_reactions: Seq<ReactionV>,
    pub solution: Map<Seq<char>, u64>,
}

/// The subsequence of `rs` whose elements satisfy `pred`, in order.
pub open spec fn keep(rs: Seq<ReactionV>, pred: spec_fn(ReactionV) -> bool) -> Seq<ReactionV>
    decreases rs.len(),
{
    if rs.len() == 0 {
        Seq::empty()
    } else {
        let prev = keep(rs.drop_last(), pred);
        if pred(rs.last()) {
            prev.push(rs.last())
        } else {
            prev
        }
    }
}

pub proof fn lemma_keep_membership(
    rs: Seq<ReactionV>,
    pred: spec_fn(ReactionV) -> bool,
    x: ReactionV,
)
    ensures
        keep(rs, pred).contains(x) <==> rs.contains(x) && pred(x),
    decreases rs.len(),
{
    if rs.len() > 0 {
        lemma_keep_membership(rs.drop_last(), pred, x);
        let prev = keep(rs.drop_last(), pred);
        if rs.drop_last().contains(x) {
            let i = choose|i: int| 0 <= i < rs.drop_last().len() && rs.drop_last()[i] == x;
            assert(rs[i] == x);
        }
        if pred(rs.last()) {
            let cur = prev.push(rs.last());
            if cur.contains(x) {
                let i = choose|i: int| 0 <= i < cur.len() && cur[i] == x;
                if i < prev.len() {
                    assert(prev[i] == x);
                } else {
                    assert(x == rs.last());
                    assert(rs[rs.len() - 1] == x);
                }
            }
            if rs.contains(x) && pred(x) {
                if x == rs.last() {
                    assert(cur[prev.len() as int] == x);
                } else {
                    let i = choose|i: int| 0 <= i < rs.len() && rs[i] == x;
                    assert(rs.drop_last()[i] == x);
                    assert(rs.drop_last().contains(x));
                    let j = choose|j: int| 0 <= j < prev.len() && prev[j] == x;
                    assert(cur[j] == x);
                }
            }
            if x == rs.last() {
                assert(rs[rs.len() - 1] == x);
            }
        } else {
            if rs.contains(x) && pred(x) {
                let i = choose|i: int| 0 <= i < rs.len() && rs[i] == x;
                assert(i < rs.len() - 1);
                assert(rs.drop_last()[i] == x);
            }
        }
    }
}

/// Every element of `keep` satisfies the predicate and came from `rs`.
pub proof fn lemma_keep_elements(rs: Seq<ReactionV>, pred: spec_fn(ReactionV) -> bool, i: int)
    requires
        0 <= i < keep(rs, pred).len(),
    ensures
        pred(keep(rs, pred)[i]),
        rs.contains(keep(rs, pred)[i]),
{
    assert(keep(rs, pred).contains(keep(rs, pred)[i]));
    lemma_keep_membership(rs, pred, keep(rs, pred)[i]);
}

/// Every reaction of `a` also occurs in `b`.
pub open spec fn seq_subset(a: Seq<ReactionV>, b: Seq<ReactionV>) -> bool {
    forall|i: int| 0 <= i < a.len() ==> b.contains(#[trigger] a[i])
}

/// The input order with duplicates dropped: each reaction keeps its first
/// position.
pub open spec fn dedup_views(rs: Seq<ReactionV>) -> Seq<ReactionV>
    decreases rs.len(),
{
    if rs.len() == 0 {
        Seq::empty()
    } else {
        let prev = dedup_views(rs.drop_last());
        if prev.contains(rs.last()) {
            prev
        } else {
            prev.push(rs.last())
        }
    }
}

/// No reaction occurs twice.
pub open spec fn views_distinct(rs: Seq<ReactionV>) -> bool {
    forall|i: int, j: int| 0 <= i < j < rs.len() ==> rs[i] != rs[j]
}

/// Every rate is positive.
pub open spec fn rates_positive(rs: Seq<ReactionV>) -> bool {
    forall|i: int| 0 <= i < rs.len() ==> (#[trigger] rs[i]).rate > 0
}

/// The reactions of `rs` that the solution `m` lets happen, in order.
pub open spec fn possible_of(rs: Seq<ReactionV>, m: Map<Seq<char>, u64>) -> Seq<ReactionV> {
    keep(rs, |r: ReactionV| validate_spec(m, r))
}

/// A reaction is null-adjacent when it consumes nothing, or consumes a
/// species that some null-source reaction of the network produces.
pub open spec fn null_adjacent_pred(rs: Seq<ReactionV>, r: ReactionV) -> bool {
    r.is_null_source() || exists|i: int, j: int, k: int|
        #![trigger rs[i].products[j], r.reactants[k]]
        {
            &&& 0 <= i < rs.len()
            &&& rs[i].is_null_source()
            &&& 0 <= j < rs[i].products.len()
            &&& 0 <= k < r.reactants.len()
            &&& rs[i].products[j].species == r.reactants[k].species
        }
}

/// The null-adjacent subset of the network, in order.
pub open spec fn null_adjacent_of(rs: Seq<ReactionV>) -> Seq<ReactionV> {
    keep(rs, |r: ReactionV| null_adjacent_pred(rs, r))
}

/// Sum of the rates of a reaction list.
pub open spec fn total_rate(rs: Seq<ReactionV>) -> int
    decreases rs.len(),
{
    if rs.len() == 0 {
        0
    } else {
        total_rate(rs.drop_last()) + rs.last().rate
    }
}

/// The index of the reaction a draw of `x` selects: walking the list in
/// order, the first reaction whose running rate sum exceeds `x`.
pub open spec fn select_index(rs: Seq<ReactionV>, x: int) -> int
    decreases rs.len(),
{
    if rs.len() == 0 {
        0
    } else if x < rs.first().rate {
        0
    } else {
        1 + select_index(rs.drop_first(), x - rs.first().rate)
    }
}

pub proof fn lemma_total_rate_nonneg(rs: Seq<ReactionV>)
    ensures
        total_rate(rs) >= 0,
    decreases rs.len(),
{
    if rs.len() > 0 {
        lemma_total_rate_nonneg(rs.drop_last());
    }
}

pub proof fn lemma_total_rate_positive(rs: Seq<ReactionV>)
    requires
        rates_positive(rs),
        rs.len() > 0,
    ensures
        total_rate(rs) > 0,
{
    lemma_total_rate_nonneg(rs.drop_last());
    assert(rs.last() == rs[rs.len() - 1]);
}

/// A draw below the total rate selects an index inside the list.
pub proof fn lemma_select_index_in_range(rs: Seq<ReactionV>, x: int)
    requires
        0 <= x < total_rate(rs),
    ensures
        0 <= select_index(rs, x) < rs.len(),
    decreases rs.len(),
{
    lemma_total_rate_first(rs);
    if rs.len() > 0 && x >= rs.first().rate {
        lemma_select_index_in_range(rs.drop_first(), x - rs.first().rate);
    }
}

/// The total rate peeled from the front instead of the back.
pub proof fn lemma_total_rate_first(rs: Seq<ReactionV>)
    requires
        rs.len() > 0,
    ensures
        total_rate(rs) == rs.first().rate + total_rate(rs.drop_first()),
    decreases rs.len(),
{
    if rs.len() == 1 {
        assert(rs.drop_first() =~= Seq::empty());
        assert(rs.drop_last() =~= Seq::empty());
    } else {
        lemma_total_rate_first(rs.drop_last());
        assert(rs.drop_last().drop_first() =~= rs.drop_first().drop_last());
        assert(rs.drop_last().first() == rs.first());
        assert(rs.drop_first().last() == rs.last());
    }
}

/// One reaction has happened: a rate-weighted draw picked a possible
/// reaction, the solution took its effect, and the possible set was
/// recomputed. The reaction set and the null-adjacent set are untouched.
pub open spec fn react_rel(pre: NetworkV, post: NetworkV) -> bool {
    &&& post.reactions == pre.reactions
    &&& post.null_adjacent_reactions == pre.null_adjacent_reactions
    &&& exists|x: int|
        0 <= x < total_rate(pre.possible_reactions) && post.solution == apply_spec(
            pre.solution,
            pre.possible_reactions[select_index(pre.possible_reactions, x)],
        )
    &&& post.possible_reactions == possible_of(post.reactions, post.solution)
}

/// Data structure representing a chemical reaction network.
/// - reactions: the set of reactions in the network
/// - possible_reactions: the reactions which may happen next
/// - null_adjacent_reactions: the reactions which will always happen or
///   consume the products of reactions which always happen; when the
///   possible reactions are a subset of these the network may have stalled
///   out to a stable state
pub struct ReactionNetwork {
    reactions: Vec<Reaction>,
    possible_reactions: Vec<Reaction>,
    null_adjacent_reactions: Vec<Reaction>,
    solution: Solution,
    prng: rand::rngs::StdRng,
    seed: [u8; 32],
}

impl View for ReactionNetwork {
    type V = NetworkV;

    closed spec fn view(&self) -> NetworkV {
        NetworkV {
            reactions: self.reactions@.map_values(|r: Reaction| r@),
            possible_reactions: self.possible_reactions@.map_values(|r: Reaction| r@),
            null_adjacent_reactions: self.null_adjacent_reactions@.map_values(|r: Reaction| r@),
            solution: self.solution@,
        }
    }
}

impl ReactionNetwork {
    /// The seed the generator was last seeded with, kept for replay.
    pub closed spec fn spec_seed(&self) -> Seq<u8> {
        self.seed@
    }

    /// The cached subsets are in step with the reaction set and solution,
    /// the reaction set is duplicate-free, and every rate is positive.
    pub open spec fn wf(&self) -> bool {
        &&& views_distinct(self@.reactions)
        &&& rates_positive(self@.reactions)
        &&& self@.possible_reactions == possible_of(self@.reactions, self@.solution)
        &&& self@.null_adjacent_reactions == null_adjacent_of(self@.reactions)
    }

    pub fn new(reactions: Vec<Reaction>, solution: Solution) -> (network: ReactionNetwork)
        requires
            rates_positive(reactions@.map_values(|r: Reaction| r@)),
        ensures
            network.wf(),
            network@.reactions == dedup_views(reactions@.map_values(|r: Reaction| r@)),
            network@.solution == solution@,
    {
        let seed = random_seed();
        let prng = rng_from_seed(seed);
        let deduped = dedup_reactions(&reactions);
        let null_adjacent_reactions = find_null_adjacent(&deduped);
        let possible_reactions = find_possible(&deduped, &solution);
        ReactionNetwork {
            reactions: deduped,
            possible_reactions,
            null_adjacent_reactions,
            solution,
            prng,
            seed,
        }
    }

    /// Reseeds the generator and retains the seed.
    pub fn with_seed(self, seed: [u8; 32]) -> (network: ReactionNetwork)
        ensures
            network@ == self@,
            network.wf() == self.wf(),
            network.spec_seed() == seed@,
    {
        ReactionNetwork { prng: rng_from_seed(seed), seed, ..self }
    }

    /// Returns the current seed value.
    pub fn get_seed(&self) -> (seed: [u8; 32])
        ensures
            seed@ == self.spec_seed(),
    {
        self.seed
    }

    /// Returns a reference to the set of null adjacent reactions.
    pub fn get_null_adjacent_reactions(&self) -> (rs: &Vec<Reaction>)
        ensures
            rs@.map_values(|r: Reaction| r@) == self@.null_adjacent_reactions,
    {
        &self.null_adjacent_reactions
    }

    /// Returns the cached set of possible reactions.
    pub fn get_possible_reactions(&self) -> (rs: &Vec<Reaction>)
        ensures
            rs@.map_values(|r: Reaction| r@) == self@.possible_reactions,
    {
        &self.possible_reactions
    }

    /// Returns a reference to the current solution.
    pub fn get_solution(&self) -> (s: &Solution)
        ensures
            s@ == self@.solution,
    {
        &self.solution
    }

    /// Sums the rates of the currently possible reactions.
    fn sum_possible_reaction_rates(&self) -> (sum: u128)
        ensures
            sum == total_rate(self@.possible_reactions),
    {
        let ghost views = self@.possible_reactions;
        let n = self.possible_reactions.len();
        let mut sum: u128 = 0;
        proof {
            assert(views.take(0) =~= Seq::empty());
        }
        for i in 0..n
            invariant
                n == self.possible_reactions@.len(),
                views == self@.possible_reactions,
                sum == total_rate(views.take(i as int)),
                sum <= i * (u64::MAX as int),
        {
            proof {
                assert(views.take(i + 1).drop_last() =~= views.take(i as int));
                assert(views.take(i + 1).last() == views[i as int]);
                assert(i * (u64::MAX as int) + (u64::MAX as int) == (i + 1) * (
                u64::MAX as int)) by (nonlinear_arith);
                assert((i + 1) * (u64::MAX as int) < u128::MAX) by (nonlinear_arith)
                    requires
                        0 <= i < usize::MAX,
                ;
            }
            sum = sum + self.possible_reactions[i].get_reaction_rate() as u128;
        }
        proof {
            assert(views.take(n as int) =~= views);
        }
        sum
    }

    /// Randomly selects a reaction from the possible reactions, weighted by
    /// each reaction's rate. The chosen reaction is always a possible one,
    /// and it validates against the current solution.
    pub fn get_next_reaction(&mut self) -> (next: Reaction)
        requires
            old(self).wf(),
            old(self)@.possible_reactions.len() > 0,
        ensures
            final(self).wf(),
            final(self)@ == old(self)@,
            final(self).spec_seed() == old(self).spec_seed(),
            exists|x: int|
                0 <= x < total_rate(old(self)@.possible_reactions) && next@ == old(
                    self,
                )@.possible_reactions[select_index(old(self)@.possible_reactions, x)],
            old(self)@.possible_reactions.contains(next@),
            validate_spec(old(self)@.solution, next@),
    {
        let ghost views = self@.possible_reactions;
        let max_index = self.sum_possible_reaction_rates();
        proof {
            assert forall|i: int| 0 <= i < views.len() implies (#[trigger] views[i]).rate > 0 by {
                lemma_keep_elements(
                    self@.reactions,
                    |r: ReactionV| validate_spec(self@.solution, r),
                    i,
                );
                let j = choose|j: int|
                    0 <= j < self@.reactions.len() && self@.reactions[j] == views[i];
            }
            lemma_total_rate_positive(views);
        }
        let draw = rng_draw(&mut self.prng, max_index);
        let ghost x0 = draw as int;
        let mut index = draw;
        let n = self.possible_reactions.len();
        proof {
            assert(views.skip(0) =~= views);
        }
        for i in 0..n
            invariant
                n == self.possible_reactions@.len(),
                views == self@.possible_reactions,
                self@ == old(self)@,
                self.wf(),
                self.spec_seed() == old(self).spec_seed(),
                rates_positive(views),
                0 <= index as int,
                index as int == x0 - total_rate(views.take(i as int)),
                x0 < total_rate(views),
                select_index(views, x0) == i + select_index(views.skip(i as int), index as int),
        {
            let rate = self.possible_reactions[i].get_reaction_rate() as u128;
            proof {
                assert(views.skip(i as int).first() == views[i as int]);
                assert(views.skip(i as int).drop_first() =~= views.skip(i + 1));
                assert(views.take(i + 1).drop_last() =~= views.take(i as int));
                assert(views.take(i + 1).last() == views[i as int]);
            }
            if rate > index {
                proof {
                    assert(select_index(views.skip(i as int), index as int) == 0);
                    lemma_select_index_in_range(views, x0);
                }
                let next = clone_reaction_at(&self.possible_reactions, i);
                proof {
                    assert(next@ == views[select_index(views, x0)]);
                    assert(views.contains(next@));
                    lemma_keep_membership(
                        self@.reactions,
                        |r: ReactionV| validate_spec(self@.solution, r),
                        next@,
                    );
                }
                return next;
            } else {
                index = index - rate;
            }
        }
        proof {
            assert(views.take(n as int) =~= views);
            assert(false);
        }
        unreached()
    }

    /// Selects a reaction to happen next, applies it to the solution, and
    /// re-generates the set of possible reactions so it stays up to date.
    pub fn react(&mut self)
        requires
            old(self).wf(),
            old(self)@.possible_reactions.len() > 0,
        ensures
            final(self).wf(),
            react_rel(old(self)@, final(self)@),
            final(self).spec_seed() == old(self).spec_seed(),
    {
        let next_reaction = self.get_next_reaction();
        let ghost mid = self@;
        let ghost picked = next_reaction@;
        self.apply_to_solution(next_reaction);
        self.find_possible_reactions();
        proof {
            let x = choose|x: int|
                0 <= x < total_rate(mid.possible_reactions) && picked
                    == mid.possible_reactions[select_index(mid.possible_reactions, x)];
            assert(0 <= x < total_rate(old(self)@.possible_reactions) && self@.solution
                == apply_spec(
                old(self)@.solution,
                old(self)@.possible_reactions[select_index(old(self)@.possible_reactions, x)],
            ));
        }
    }

    /// Applies one reaction to the held solution.
    fn apply_to_solution(&mut self, reaction: Reaction)
        ensures
            final(self)@.reactions == old(self)@.reactions,
            final(self)@.null_adjacent_reactions == old(self)@.null_adjacent_reactions,
            final(self)@.possible_reactions == old(self)@.possible_reactions,
            final(self)@.solution == apply_spec(old(self)@.solution, reaction@),
            final(self).spec_seed() == old(self).spec_seed(),
    {
        self.solution.apply(reaction);
    }

    /// Re-generates the list of possible reactions.
    fn find_possible_reactions(&mut self)
        ensures
            final(self)@.reactions == old(self)@.reactions,
            final(self)@.null_adjacent_reactions == old(self)@.null_adjacent_reactions,
            final(self)@.solution == old(self)@.solution,
            final(self)@.possible_reactions == possible_of(
                final(self)@.reactions,
                final(self)@.solution,
            ),
            final(self).spec_seed() == old(self).spec_seed(),
    {
        let possible = find_possible(&self.reactions, &self.solution);
        self.possible_reactions = possible;
    }
}

/// Clones the reaction at `i`.
fn clone_reaction_at(rs: &Vec<Reaction>, i: usize) -> (r: Reaction)
    requires
        i < rs@.len(),
    ensures
        r@ == rs@.map_values(|r: Reaction| r@)[i as int],
{
    rs[i].clone()
}

/// Drops duplicate reactions, keeping the first occurrence of each.
fn dedup_reactions(reactions: &Vec<Reaction>) -> (out: Vec<Reaction>)
    ensures
        out@.map_values(|r: Reaction| r@) == dedup_views(
            reactions@.map_values(|r: Reaction| r@),
        ),
        views_distinct(out@.map_values(|r: Reaction| r@)),
        rates_positive(reactions@.map_values(|r: Reaction| r@)) ==> rates_positive(
            out@.map_values(|r: Reaction| r@),
        ),
{
    let ghost views = reactions@.map_values(|r: Reaction| r@);
    let n = reactions.len();
    let mut out: Vec<Reaction> = Vec::new();
    proof {
        assert(views.take(0) =~= Seq::empty());
        assert(out@.map_values(|r: Reaction| r@) =~= dedup_views(views.take(0)));
    }
    for i in 0..n
        invariant
            n == reactions@.len(),
            views == reactions@.map_values(|r: Reaction| r@),
            out@.map_values(|r: Reaction| r@) == dedup_views(views.take(i as int)),
            views_distinct(out@.map_values(|r: Reaction| r@)),
            forall|j: int| 0 <= j < out@.len() ==> views.contains((#[trigger] out@[j])@),
    {
        let ghost outv = out@.map_values(|r: Reaction| r@);
        proof {
            assert(views.take(i + 1).drop_last() =~= views.take(i as int));
            assert(views.take(i + 1).last() == views[i as int]);
        }
        if !contains_reaction(&out, &reactions[i]) {
            out.push(reactions[i].clone());
            proof {
                assert(out@.map_values(|r: Reaction| r@) =~= outv.push(views[i as int]));
            }
        }
    }
    proof {
        assert(views.take(n as int) =~= views);
        if rates_positive(views) {
            let outv = out@.map_values(|r: Reaction| r@);
            assert forall|j: int| 0 <= j < outv.len() implies (#[trigger] outv[j]).rate > 0 by {
                assert(views.contains(outv[j]));
                let k = choose|k: int| 0 <= k < views.len() && views[k] == outv[j];
            }
        }
    }
    out
}

/// Every reaction of `a` also occurs in `b`.
pub fn reactions_subset(a: &Vec<Reaction>, b: &Vec<Reaction>) -> (subset: bool)
    ensures
        subset == seq_subset(
            a@.map_values(|r: Reaction| r@),
            b@.map_values(|r: Reaction| r@),
        ),
{
    let ghost av = a@.map_values(|r: Reaction| r@);
    let n = a.len();
    for i in 0..n
        invariant
            n == a@.len(),
            av == a@.map_values(|r: Reaction| r@),
            forall|j: int|
                0 <= j < i ==> b@.map_values(|r: Reaction| r@).contains(#[trigger] av[j]),
    {
        if !contains_reaction(b, &a[i]) {
            assert(!b@.map_values(|r: Reaction| r@).contains(av[i as int]));
            return false;
        }
    }
    true
}

/// True when some reaction of `rs` has the same view as `r`.
fn contains_reaction(rs: &Vec<Reaction>, r: &Reaction) -> (found: bool)
    ensures
        found == rs@.map_values(|r0: Reaction| r0@).contains(r@),
{
    let ghost views = rs@.map_values(|r0: Reaction| r0@);
    let n = rs.len();
    for i in 0..n
        invariant
            n == rs@.len(),
            views == rs@.map_values(|r0: Reaction| r0@),
            forall|j: int| 0 <= j < i ==> views[j] != r@,
    {
        if rs[i] == *r {
            assert(views[i as int] == r@);
            return true;
        }
    }
    false
}

/// The reactions the solution lets happen, in network order.
fn find_possible(reactions: &Vec<Reaction>, solution: &Solution) -> (out: Vec<Reaction>)
    ensures
        out@.map_values(|r: Reaction| r@) == possible_of(
            reactions@.map_values(|r: Reaction| r@),
            solution@,
        ),
{
    let ghost views = reactions@.map_values(|r: Reaction| r@);
    let ghost pred = |r: ReactionV| validate_spec(solution@, r);
    let n = reactions.len();
    let mut out: Vec<Reaction> = Vec::new();
    proof {
        assert(views.take(0) =~= Seq::empty());
        assert(out@.map_values(|r: Reaction| r@) =~= keep(views.take(0), pred));
    }
    for i in 0..n
        invariant
            n == reactions@.len(),
            views == reactions@.map_values(|r: Reaction| r@),
            out@.map_values(|r: Reaction| r@) == keep(views.take(i as int), pred),
            pred == (|r: ReactionV| validate_spec(solution@, r)),
    {
        let ghost outv = out@.map_values(|r: Reaction| r@);
        proof {
            assert(views.take(i + 1).drop_last() =~= views.take(i as int));
            assert(views.take(i + 1).last() == views[i as int]);
        }
        if solution.validate(&reactions[i]) {
            out.push(reactions[i].clone());
            proof {
                assert(out@.map_values(|r: Reaction| r@) =~= outv.push(views[i as int]));
            }
        }
    }
    proof {
        assert(views.take(n as int) =~= views);
    }
    out
}

/// Whether `candidate` is null-adjacent within `reactions`.
fn is_null_adjacent(reactions: &Vec<Reaction>, candidate: &Reaction) -> (found: bool)
    ensures
        found == null_adjacent_pred(reactions@.map_values(|r: Reaction| r@), candidate@),
{
    let ghost views = reactions@.map_values(|r: Reaction| r@);
    if candidate.get_reactants().is_empty() {
        return true;
    }
    let n = reactions.len();
    for i in 0..n
        invariant
            n == reactions@.len(),
            views == reactions@.map_values(|r: Reaction| r@),
            candidate@.reactants.len() > 0,
            forall|i0: int, j0: int, k0: int|
                #![trigger views[i0].products[j0], candidate@.reactants[k0]]
                0 <= i0 < i && views[i0].is_null_source() && 0 <= j0 < views[i0].products.len()
                    && 0 <= k0 < candidate@.reactants.len() ==> views[i0].products[j0].species
                    != candidate@.reactants[k0].species,
    {
        let source = &reactions[i];
        proof {
            assert(views[i as int] == source@);
        }
        if source.get_reactants().is_empty() {
            let products = source.get_products();
            let pn = products.len();
            for j in 0..pn
                invariant
                    pn == products@.len(),
                    views == reactions@.map_values(|r: Reaction| r@),
                    i < views.len(),
                    views[i as int].is_null_source(),
                    products@.map_values(|t: Term| t@) == views[i as int].products,
                    forall|j0: int, k0: int|
                        #![trigger views[i as int].products[j0], candidate@.reactants[k0]]
                        0 <= j0 < j && 0 <= k0 < candidate@.reactants.len() ==> views[i as int]
                            .products[j0].species != candidate@.reactants[k0].species,
            {
                let reactants = candidate.get_reactants();
                let rn = reactants.len();
                for k in 0..rn
                    invariant
                        rn == reactants@.len(),
                        views == reactions@.map_values(|r: Reaction| r@),
                        i < views.len(),
                        views[i as int].is_null_source(),
                        j < products@.len(),
                        products@.map_values(|t: Term| t@) == views[i as int]
                            .products,
                        reactants@.map_values(|t: Term| t@) == candidate@.reactants,
                        forall|k0: int|
                            0 <= k0 < k ==> views[i as int].products[j as int].species != (
                            #[trigger] candidate@.reactants[k0]).species,
                {
                    if products[j].get_species_name() == reactants[k].get_species_name() {
                        proof {
                            assert(views[i as int].products[j as int].species == candidate@
                                .reactants[k as int].species);
                            assert(views[i as int].is_null_source());
                        }
                        return true;
                    }
                }
            }
        }
    }
    proof {
        assert(candidate@.reactants.len() > 0);
    }
    false
}

/// The null-adjacent subset, in network order.
fn find_null_adjacent(reactions: &Vec<Reaction>) -> (out: Vec<Reaction>)
    ensures
        out@.map_values(|r: Reaction| r@) == null_adjacent_of(
            reactions@.map_values(|r: Reaction| r@),
        ),
{
    let ghost views = reactions@.map_values(|r: Reaction| r@);
    let ghost pred = |r: ReactionV| null_adjacent_pred(views, r);
    let n = reactions.len();
    let mut out: Vec<Reaction> = Vec::new();
    proof {
        assert(views.take(0) =~= Seq::empty());
        assert(out@.map_values(|r: Reaction| r@) =~= keep(views.take(0), pred));
    }
    for i in 0..n
        invariant
            n == reactions@.len(),
            views == reactions@.map_values(|r: Reaction| r@),
            out@.map_values(|r: Reaction| r@) == keep(views.take(i as int), pred),
            pred == (|r: ReactionV| null_adjacent_pred(views, r)),
    {
        let ghost outv = out@.map_values(|r: Reaction| r@);
        proof {
            assert(views.take(i + 1).drop_last() =~= views.take(i as int));
            assert(views.take(i + 1).last() == views[i as int]);
        }
        if is_null_adjacent(reactions, &reactions[i]) {
            out.push(reactions[i].clone());
            proof {
                assert(out@.map_values(|r: Reaction| r@) =~= outv.push(views[i as int]));
            }
        }
    }
    proof {
        assert(views.take(n as int) =~= views);
    }
    out
}

impl Clone for ReactionNetwork {
    fn clone(&self) -> (network: ReactionNetwork)
        ensures
            network@ == self@,
            network.spec_seed() == self.spec_seed(),
            network.wf() == self.wf(),
    {
        ReactionNetwork {
            reactions: clone_reactions(&self.reactions),
            possible_reactions: clone_reactions(&self.possible_reactions),
            null_adjacent_reactions: clone_reactions(&self.null_adjacent_reactions),
            solution: self.solution.clone(),
            prng: rng_clone(&self.prng),
            seed: self.seed,
        }
    }
}

/// Element-wise clone of a reaction list; the copy has the same views.
fn clone_reactions(rs: &Vec<Reaction>) -> (out: Vec<Reaction>)
    ensures
        out@.map_values(|r: Reaction| r@) == rs@.map_values(|r: Reaction| r@),
{
    let n = rs.len();
    let mut out: Vec<Reaction> = Vec::new();
    for i in 0..n
        invariant
            n == rs@.len(),
            out@.len() == i,
            forall|j: int| 0 <= j < i ==> out@[j]@ == rs@[j]@,
    {
        out.push(rs[i].clone());
    }
    proof {
        assert(out@.map_values(|r: Reaction| r@) =~= rs@.map_values(|r: Reaction| r@));
    }
    out
}

} // verus!
