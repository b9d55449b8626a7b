//! Laws of the simulation, stated and proved over the mathematical models
//! that the executable functions' contracts use.

use vstd::prelude::*;
use crate::reaction::ReactionV;
use crate::reaction_network::{
    lemma_keep_membership, lemma_total_rate_first, lemma_total_rate_nonneg, null_adjacent_of,
    null_adjacent_pred, possible_of, react_rel, select_index, seq_subset, total_rate, NetworkV,
};
use crate::solution::{
    apply_spec, consume_terms, produce_terms, sat_add, sum_maps, validate_spec, zero_or,
};
use crate::term::TermV;
use crate::trial::{step_after_react, step_outcome, Stability, TrialV};
use crate::sum_of;

verus! {

/// After a reaction is applied, every species count is a non-negative
/// integer: counts are unsigned, and consuming a reactant clamps at zero.
pub proof fn lemma_counts_nonnegative(m: Map<Seq<char>, u64>, r: ReactionV, k: Seq<char>)
    requires
        apply_spec(m, r).contains_key(k),
    ensures
        apply_spec(m, r)[k] >= 0,
{
}

proof fn lemma_consume_terms_dom(m: Map<Seq<char>, u64>, ts: Seq<TermV>)
    ensures
        consume_terms(m, ts).dom() == m.dom(),
    decreases ts.len(),
{
    if ts.len() > 0 {
        lemma_consume_terms_dom(m, ts.drop_last());
        assert(consume_terms(m, ts).dom() =~= m.dom());
    }
}

proof fn lemma_produce_terms_dom(m: Map<Seq<char>, u64>, ts: Seq<TermV>)
    ensures
        produce_terms(m, ts).dom() == m.dom(),
    decreases ts.len(),
{
    if ts.len() > 0 {
        lemma_produce_terms_dom(m, ts.drop_last());
        assert(produce_terms(m, ts).dom() =~= m.dom());
    }
}

/// A reaction never adds or removes a species: applying it only moves
/// counts among the species the solution already tracks.
pub proof fn lemma_apply_preserves_species(m: Map<Seq<char>, u64>, r: ReactionV)
    ensures
        apply_spec(m, r).dom() == m.dom(),
{
    lemma_consume_terms_dom(m, r.reactants);
    lemma_produce_terms_dom(consume_terms(m, r.reactants), r.products);
}

/// A reaction is in the cached possible set exactly when it is a reaction
/// of the network that validates against the current solution.
pub proof fn lemma_possible_membership(net: NetworkV, r: ReactionV)
    requires
        net.possible_reactions == possible_of(net.reactions, net.solution),
    ensures
        net.possible_reactions.contains(r) <==> net.reactions.contains(r) && validate_spec(
            net.solution,
            r,
        ),
{
    lemma_keep_membership(net.reactions, |r0: ReactionV| validate_spec(net.solution, r0), r);
}

/// Null-adjacent closure: a reaction is in the cached null-adjacent set
/// exactly when it is a reaction of the network that either consumes
/// nothing, or consumes a species some null-source reaction produces.
pub proof fn lemma_null_adjacent_closure(net: NetworkV, r: ReactionV)
    requires
        net.null_adjacent_reactions == null_adjacent_of(net.reactions),
    ensures
        net.null_adjacent_reactions.contains(r) <==> net.reactions.contains(r)
            && null_adjacent_pred(net.reactions, r),
{
    lemma_keep_membership(
        net.reactions,
        |r0: ReactionV| null_adjacent_pred(net.reactions, r0),
        r,
    );
}

/// Weighted-selection law, the exact form: the draws that select the
/// reaction at index `i` are exactly those in a window of width `rate(i)`
/// starting at the sum of the rates before `i`. Over uniform draws below
/// the total rate, reaction `i` is therefore selected with probability
/// `rate(i)` over the total rate.
pub proof fn lemma_selection_weight(rs: Seq<ReactionV>, i: int, x: int)
    requires
        0 <= x < total_rate(rs),
        0 <= i < rs.len(),
    ensures
        select_index(rs, x) == i <==> total_rate(rs.take(i)) <= x < total_rate(rs.take(i))
            + rs[i].rate,
    decreases rs.len(),
{
    lemma_total_rate_first(rs);
    if x < rs.first().rate {
        assert(select_index(rs, x) == 0);
        if i > 0 {
            assert(rs.take(i).first() == rs.first());
            lemma_total_rate_first(rs.take(i));
            lemma_total_rate_nonneg(rs.take(i).drop_first());
            assert(total_rate(rs.take(i)) > x);
        } else {
            assert(rs.take(0) =~= Seq::<ReactionV>::empty());
        }
    } else {
        assert(select_index(rs, x) == 1 + select_index(rs.drop_first(), x - rs.first().rate));
        if i == 0 {
            lemma_select_index_nonneg(rs.drop_first(), x - rs.first().rate);
            assert(rs.take(0) =~= Seq::<ReactionV>::empty());
        } else {
            lemma_selection_weight(rs.drop_first(), i - 1, x - rs.first().rate);
            assert(rs.take(i).first() == rs.first());
            lemma_total_rate_first(rs.take(i));
            assert(rs.take(i).drop_first() =~= rs.drop_first().take(i - 1));
            assert(total_rate(rs.take(i)) == rs.first().rate + total_rate(
                rs.drop_first().take(i - 1),
            ));
            assert(rs.drop_first()[i - 1] == rs[i]);
        }
    }
}

proof fn lemma_select_index_nonneg(rs: Seq<ReactionV>, x: int)
    ensures
        select_index(rs, x) >= 0,
    decreases rs.len(),
{
    if rs.len() > 0 && x >= rs.first().rate {
        lemma_select_index_nonneg(rs.drop_first(), x - rs.first().rate);
    }
}

/// The state one draw leads a network to: the selected reaction applied to
/// the solution, and the possible set recomputed.
pub open spec fn drawn_state(pre: NetworkV, x: int) -> NetworkV {
    let solution = apply_spec(
        pre.solution,
        pre.possible_reactions[select_index(pre.possible_reactions, x)],
    );
    NetworkV {
        reactions: pre.reactions,
        possible_reactions: possible_of(pre.reactions, solution),
        null_adjacent_reactions: pre.null_adjacent_reactions,
        solution,
    }
}

/// Seed determinism, the verified half: one reaction step is a function of
/// the network state and the drawn number alone, so two replays that
/// receive the same draws apply the same reactions and reach the same
/// states. That a generator reproduces the same draws for the same seed is
/// the seeded generator's own contract.
pub proof fn lemma_react_deterministic_in_draw(pre: NetworkV, post: NetworkV)
    requires
        react_rel(pre, post),
    ensures
        exists|x: int|
            0 <= x < total_rate(pre.possible_reactions) && post == #[trigger] drawn_state(pre, x),
{
    let x = choose|x: int|
        0 <= x < total_rate(pre.possible_reactions) && post.solution == apply_spec(
            pre.solution,
            pre.possible_reactions[select_index(pre.possible_reactions, x)],
        );
    assert(post == drawn_state(pre, x));
}

/// Solution addition is commutative.
pub proof fn lemma_sum_maps_commutative(a: Map<Seq<char>, u64>, b: Map<Seq<char>, u64>)
    ensures
        sum_maps(a, b) == sum_maps(b, a),
{
    assert(sum_maps(a, b) =~= sum_maps(b, a));
}

/// Solution addition is associative: clamped addition of non-negative
/// counts absorbs in either order.
pub proof fn lemma_sum_maps_associative(
    a: Map<Seq<char>, u64>,
    b: Map<Seq<char>, u64>,
    c: Map<Seq<char>, u64>,
)
    ensures
        sum_maps(sum_maps(a, b), c) == sum_maps(a, sum_maps(b, c)),
{
    assert forall|k: Seq<char>| #[trigger]
        sum_maps(sum_maps(a, b), c).contains_key(k) implies sum_maps(sum_maps(a, b), c)[k]
        == sum_maps(a, sum_maps(b, c))[k] by {
        assert(sat_add(sat_add(zero_or(a, k), zero_or(b, k)), zero_or(c, k)) == sat_add(
            zero_or(a, k),
            sat_add(zero_or(b, k), zero_or(c, k)),
        ));
    }
    assert(sum_maps(sum_maps(a, b), c) =~= sum_maps(a, sum_maps(b, c)));
}

/// The empty solution is the identity of solution addition.
pub proof fn lemma_sum_maps_identity(a: Map<Seq<char>, u64>)
    ensures
        sum_maps(a, Map::<Seq<char>, u64>::empty()) == a,
        sum_maps(Map::<Seq<char>, u64>::empty(), a) == a,
{
    assert(sum_maps(a, Map::<Seq<char>, u64>::empty()) =~= a);
    assert(sum_maps(Map::<Seq<char>, u64>::empty(), a) =~= a);
}

/// Averaging round trip, one solution: the sum over a single solution is
/// that solution; with denominator one, the average is the solution itself.
pub proof fn lemma_average_round_trip_single(s: Map<Seq<char>, u64>)
    ensures
        sum_of(seq![s]) == s,
{
    assert(seq![s].len() == 1);
    assert(seq![s].last() == s);
    assert(seq![s].drop_last() =~= Seq::<Map<Seq<char>, u64>>::empty());
    assert(sum_of(seq![s]) == sum_maps(sum_of(seq![s].drop_last()), s));
    assert(sum_of(seq![s].drop_last()) == Map::<Seq<char>, u64>::empty());
    lemma_sum_maps_identity(s);
}

/// Averaging round trip, `m` equal solutions: every count in the sum over
/// `m` copies of a solution is `m` times the count in the solution, as long
/// as that product is representable; with denominator `m`, the average is
/// the solution itself.
pub proof fn lemma_average_round_trip_repeated(s: Map<Seq<char>, u64>, m: int)
    requires
        m >= 1,
    ensures
        sum_of(Seq::new(m as nat, |i: int| s)).dom() == s.dom(),
        forall|k: Seq<char>|
            #![trigger s.contains_key(k)]
            s.contains_key(k) && m * s[k] <= u64::MAX ==> sum_of(Seq::new(m as nat, |i: int| s))[k]
                == m * s[k],
    decreases m,
{
    let copies = Seq::new(m as nat, |i: int| s);
    if m == 1 {
        assert(copies =~= seq![s]);
        lemma_average_round_trip_single(s);
    } else {
        let fewer = Seq::new((m - 1) as nat, |i: int| s);
        lemma_average_round_trip_repeated(s, m - 1);
        assert(copies.drop_last() =~= fewer);
        assert(copies.last() == s);
        assert(sum_of(copies) == sum_maps(sum_of(fewer), s));
        assert(sum_of(copies).dom() =~= s.dom());
        assert forall|k: Seq<char>|
            s.contains_key(k) && m * s[k] <= u64::MAX implies #[trigger] sum_of(copies)[k] == m
            * s[k] by {
            assert((m - 1) * s[k] == m * s[k] - s[k]) by (nonlinear_arith);
            assert((m - 1) * s[k] <= u64::MAX);
            assert(sum_of(fewer)[k] == (m - 1) * s[k]);
            assert(sum_of(copies)[k] == sat_add(zero_or(sum_of(fewer), k), zero_or(s, k)));
            assert(zero_or(sum_of(fewer), k) == (m - 1) * s[k]);
            assert(zero_or(s, k) == s[k]);
        }
    }
}

/// The trial one step reaches given the numbers the generator supplied: no
/// draw when the trial was stable or nothing was possible, one draw for an
/// ordinary step, and a second one when a semi-stable round reacts twice.
pub open spec fn stepped_state(pre: TrialV, draws: Seq<int>) -> TrialV {
    if pre.stability is Stable {
        pre
    } else if pre.network.possible_reactions.len() == 0 {
        TrialV { stability: Stability::Stable, ..pre }
    } else {
        let mid = drawn_state(pre.network, draws[0]);
        if mid.possible_reactions.len() == 0 {
            TrialV { network: mid, stability: Stability::Stable, ..pre }
        } else if seq_subset(mid.possible_reactions, mid.null_adjacent_reactions) {
            match pre.stability {
                Stability::SemiStable(k) => TrialV {
                    network: drawn_state(mid, draws[1]),
                    stability: if k < pre.max_semi_stable_steps {
                        Stability::SemiStable((k + 1) as usize)
                    } else {
                        Stability::Stable
                    },
                    ..pre
                },
                _ => TrialV { network: mid, stability: Stability::SemiStable(0), ..pre },
            }
        } else {
            TrialV { network: mid, stability: Stability::Unstable, ..pre }
        }
    }
}

/// Seed determinism lifted to a whole step: every step is a drawn
/// continuation, a function of the trial state and of the numbers the
/// generator supplied, so two walks that receive the same draws coincide
/// state for state. That the seeded generator reproduces the same numbers
/// for the same seed is the generator's own contract.
pub proof fn lemma_step_deterministic_in_draws(pre: TrialV, post: TrialV)
    requires
        step_outcome(pre, post),
    ensures
        exists|draws: Seq<int>| post == #[trigger] stepped_state(pre, draws),
{
    if pre.stability is Stable {
        assert(post == stepped_state(pre, Seq::<int>::empty()));
    } else if pre.network.possible_reactions.len() == 0 {
        assert(post == stepped_state(pre, Seq::<int>::empty()));
    } else {
        let mid = choose|mid: NetworkV|
            #[trigger] react_rel(pre.network, mid) && step_after_react(pre, mid, post);
        lemma_react_deterministic_in_draw(pre.network, mid);
        let x = choose|x: int|
            0 <= x < total_rate(pre.network.possible_reactions) && mid == #[trigger] drawn_state(
                pre.network,
                x,
            );
        if mid.possible_reactions.len() == 0 {
            assert(post == stepped_state(pre, seq![x]));
        } else if seq_subset(mid.possible_reactions, mid.null_adjacent_reactions) {
            match pre.stability {
                Stability::SemiStable(k) => {
                    let after = choose|after: NetworkV|
                        #[trigger] react_rel(mid, after) && post.network == after
                            && post.stability == (if k < pre.max_semi_stable_steps {
                            Stability::SemiStable((k + 1) as usize)
                        } else {
                            Stability::Stable
                        });
                    lemma_react_deterministic_in_draw(mid, after);
                    let y = choose|y: int|
                        0 <= y < total_rate(mid.possible_reactions) && after
                            == #[trigger] drawn_state(mid, y);
                    assert(post == stepped_state(pre, seq![x, y]));
                },
                _ => {
                    assert(post == stepped_state(pre, seq![x]));
                },
            }
        } else {
            assert(post == stepped_state(pre, seq![x]));
        }
    }
}

/// The numbers the generator supplied along a walk, one draw list per
/// step, recovered from consecutive states.
pub open spec fn walk_draws(chain: Seq<TrialV>) -> Seq<Seq<int>> {
    Seq::new(
        (chain.len() - 1) as nat,
        |i: int| choose|d: Seq<int>| chain[i + 1] == stepped_state(chain[i], d),
    )
}

/// Seed determinism over a whole walk: a chain of steps is fixed by its
/// starting state and by the numbers the generator supplied along it, so
/// the sequence of applied reactions is identical wherever the same draws
/// recur. That the seeded generator reproduces the same numbers for the
/// same seed is the generator's own contract.
pub proof fn lemma_walk_deterministic_in_draws(chain: Seq<TrialV>)
    requires
        forall|i: int| 1 <= i < chain.len() ==> step_outcome(chain[i - 1], #[trigger] chain[i]),
    ensures
        forall|i: int|
            1 <= i < chain.len() ==> chain[i] == stepped_state(
                chain[i - 1],
                #[trigger] walk_draws(chain)[i - 1],
            ),
{
    assert forall|i: int| 1 <= i < chain.len() implies chain[i] == stepped_state(
        chain[i - 1],
        #[trigger] walk_draws(chain)[i - 1],
    ) by {
        lemma_step_deterministic_in_draws(chain[i - 1], chain[i]);
    }
}

/// A trial with nothing possible stabilizes at once with its network
/// untouched: in a network with no applicable reaction, every trial
/// completes carrying its initial solution.
pub proof fn lemma_empty_possible_stabilizes(pre: TrialV, post: TrialV)
    requires
        step_outcome(pre, post),
        pre.network.possible_reactions.len() == 0,
    ensures
        post.network == pre.network,
        post.stability is Stable,
        pre.stability is Stable ==> post == pre,
{
}

/// Stability is absorbing: a step taken from a stable trial changes
/// nothing, so no further reaction ever happens in it.
pub proof fn lemma_stable_is_absorbing(pre: TrialV, post: TrialV)
    requires
        step_outcome(pre, post),
        pre.stability is Stable,
    ensures
        post == pre,
{
}

/// Semi-stable continuation: the stability one step assigns when the
/// possible reactions stay non-empty and null-adjacent.
pub open spec fn semi_stable_next(st: Stability, max: usize) -> Stability {
    match st {
        Stability::SemiStable(k) => if k < max {
            Stability::SemiStable((k + 1) as usize)
        } else {
            Stability::Stable
        },
        Stability::Stable => Stability::Stable,
        _ => Stability::SemiStable(0),
    }
}

/// A step taken from a semi-stable trial either follows the semi-stable
/// continuation, or stabilizes at once because nothing is possible, or
/// returns to `Unstable` because the network left the null-adjacent set.
pub proof fn lemma_step_semi_stable_cases(pre: TrialV, post: TrialV)
    requires
        step_outcome(pre, post),
        pre.stability is SemiStable,
    ensures
        post.stability == semi_stable_next(pre.stability, pre.max_semi_stable_steps)
            || post.stability is Stable || post.stability is Unstable,
{
}

proof fn lemma_semi_stable_progress(sts: Seq<Stability>, max: usize, i: int)
    requires
        0 <= i <= max,
        i < sts.len(),
        sts[0] == Stability::SemiStable(0),
        forall|j: int|
            0 <= j < sts.len() - 1 ==> sts[j + 1] == semi_stable_next(#[trigger] sts[j], max),
    ensures
        sts[i] == Stability::SemiStable(i as usize),
    decreases i,
{
    if i > 0 {
        lemma_semi_stable_progress(sts, max, i - 1);
        assert(sts[i] == semi_stable_next(sts[i - 1], max));
    }
}

/// Tolerance bound: a trial that enters the semi-stable state and never
/// leaves it walks the counter up one step per round and stabilizes in
/// exactly `max + 1` further steps: the counter reads `i` after `i` steps
/// up to the tolerance, and the step after that is the first stable one.
pub proof fn lemma_tolerance_bound(sts: Seq<Stability>, max: usize)
    requires
        sts.len() == max + 2,
        sts[0] == Stability::SemiStable(0),
        forall|j: int|
            0 <= j < sts.len() - 1 ==> sts[j + 1] == semi_stable_next(#[trigger] sts[j], max),
    ensures
        forall|i: int| 0 <= i <= max ==> sts[i] == Stability::SemiStable(i as usize),
        sts[max + 1] == Stability::Stable,
        forall|i: int| 0 <= i <= max ==> !((#[trigger] sts[i]) is Stable),
{
    assert forall|i: int| 0 <= i <= max implies sts[i] == Stability::SemiStable(i as usize) by {
        lemma_semi_stable_progress(sts, max, i);
    }
    assert(sts[max as int] == Stability::SemiStable(max));
    assert(sts[max + 1] == semi_stable_next(sts[max as int], max));
}

} // verus!
