//! Species names, counts, and the solution: a mapping from species name to
//! a non-negative count, viewed as a `Map<Seq<char>, u64>`.

use vstd::prelude::*;
use crate::reaction::{Reaction, ReactionV};
use crate::term::{Term, TermV};

verus! {

/// Wrapper around the name of a species. Ordered and compared by its string.
#[derive(Debug, Eq, Hash)]
pub struct Name(pub String);

impl View for Name {
    type V = Seq<char>;

    open spec fn view(&self) -> Seq<char> {
        self.0@
    }
}

impl PartialEq for Name {
    fn eq(&self, other: &Name) -> bool {
        self.0 == other.0
    }
}

impl vstd::std_specs::cmp::PartialEqSpecImpl for Name {
    open spec fn obeys_eq_spec() -> bool {
        true
    }

    open spec fn eq_spec(&self, other: &Name) -> bool {
        self@ == other@
    }
}

impl Clone for Name {
    fn clone(&self) -> (r: Name)
        ensures
            r@ == self@,
    {
        Name(self.0.clone())
    }
}

/// Wrapper around the count of a species.
#[derive(Debug, Clone, Copy, PartialEq, Eq, Structural, Hash)]
pub struct Count(pub u64);

/// Addition on counts that clamps at the largest representable count.
pub open spec fn sat_add(a: u64, b: u64) -> u64 {
    if a + b > u64::MAX {
        u64::MAX
    } else {
        (a + b) as u64
    }
}

/// Subtraction on counts that clamps at zero.
pub open spec fn sat_sub(a: u64, b: u64) -> u64 {
    if b > a {
        0u64
    } else {
        (a - b) as u64
    }
}

/// The mapping described by an association list of species entries.
/// Later entries win, though well-formed solutions never repeat a name.
pub open spec fn map_of(entries: Seq<(Name, Count)>) -> Map<Seq<char>, u64>
    decreases entries.len(),
{
    if entries.len() == 0 {
        Map::empty()
    } else {
        map_of(entries.drop_last()).insert(entries.last().0@, entries.last().1.0)
    }
}

/// No species name occurs twice.
pub open spec fn entries_unique(entries: Seq<(Name, Count)>) -> bool {
    forall|i: int, j: int|
        0 <= i < j < entries.len() ==> entries[i].0@ != entries[j].0@
}

pub proof fn lemma_map_of_index(entries: Seq<(Name, Count)>, i: int)
    requires
        entries_unique(entries),
        0 <= i < entries.len(),
    ensures
        map_of(entries).contains_key(entries[i].0@),
        map_of(entries)[entries[i].0@] == entries[i].1.0,
    decreases entries.len(),
{
    if i < entries.len() - 1 {
        lemma_map_of_index(entries.drop_last(), i);
    }
}

pub proof fn lemma_map_of_key_has_index(entries: Seq<(Name, Count)>, k: Seq<char>)
    requires
        map_of(entries).contains_key(k),
    ensures
        exists|i: int| 0 <= i < entries.len() && entries[i].0@ == k,
    decreases entries.len(),
{
    if entries.len() > 0 {
        if entries.last().0@ == k {
            assert(entries[entries.len() - 1].0@ == k);
        } else {
            lemma_map_of_key_has_index(entries.drop_last(), k);
            let i = choose|i: int|
                0 <= i < entries.drop_last().len() && entries.drop_last()[i].0@ == k;
            assert(entries[i].0@ == k);
        }
    }
}

proof fn lemma_map_of_update(entries: Seq<(Name, Count)>, i: int, e: (Name, Count))
    requires
        entries_unique(entries),
        0 <= i < entries.len(),
        e.0@ == entries[i].0@,
    ensures
        map_of(entries.update(i, e)) == map_of(entries).insert(e.0@, e.1.0),
        entries_unique(entries.update(i, e)),
    decreases entries.len(),
{
    let u = entries.update(i, e);
    if i == entries.len() - 1 {
        assert(u.drop_last() =~= entries.drop_last());
        assert(u.last() == e);
        assert(map_of(u) =~= map_of(entries).insert(e.0@, e.1.0));
    } else {
        lemma_map_of_update(entries.drop_last(), i, e);
        assert(u.drop_last() =~= entries.drop_last().update(i, e));
        assert(u.last() == entries.last());
        assert(entries[i].0@ != entries.last().0@);
        assert(map_of(u) =~= map_of(entries).insert(e.0@, e.1.0));
    }
}

proof fn lemma_map_of_push(entries: Seq<(Name, Count)>, e: (Name, Count))
    ensures
        map_of(entries.push(e)) == map_of(entries).insert(e.0@, e.1.0),
{
    assert(entries.push(e).drop_last() =~= entries);
    assert(entries.push(e).last() == e);
}

/// Two entry lists with the same names and counts describe the same mapping.
proof fn lemma_map_of_congruent(a: Seq<(Name, Count)>, b: Seq<(Name, Count)>)
    requires
        a.len() == b.len(),
        forall|i: int| 0 <= i < a.len() ==> a[i].0@ == b[i].0@ && a[i].1 == b[i].1,
    ensures
        map_of(a) == map_of(b),
    decreases a.len(),
{
    if a.len() > 0 {
        lemma_map_of_congruent(a.drop_last(), b.drop_last());
        assert(map_of(a) =~= map_of(b));
    }
}

/// A collection of species names and counts, mutated over time by applying
/// reactions to it.
#[derive(Debug)]
pub struct Solution {
    species_counts: Vec<(Name, Count)>,
}

impl View for Solution {
    type V = Map<Seq<char>, u64>;

    closed spec fn view(&self) -> Map<Seq<char>, u64> {
        map_of(self.species_counts@)
    }
}

impl Solution {
    #[verifier::type_invariant]
    spec fn inv(self) -> bool {
        entries_unique(self.species_counts@)
    }

    /// The empty solution.
    pub fn new() -> (s: Solution)
        ensures
            s@ == Map::<Seq<char>, u64>::empty(),
    {
        Solution { species_counts: Vec::new() }
    }

    /// Index of the entry holding `name`, if any.
    fn index_of(&self, name: &Name) -> (r: Option<usize>)
        ensures
            match r {
                Some(i) => {
                    &&& i < self.species_counts@.len()
                    &&& self.species_counts@[i as int].0@ == name@
                    &&& self@.contains_key(name@)
                    &&& self@[name@] == self.species_counts@[i as int].1.0
                },
                None => !self@.contains_key(name@),
            },
    {
        proof {
            use_type_invariant(self);
        }
        let n = self.species_counts.len();
        for i in 0..n
            invariant
                n == self.species_counts@.len(),
                entries_unique(self.species_counts@),
                forall|j: int| 0 <= j < i ==> self.species_counts@[j].0@ != name@,
        {
            if self.species_counts[i].0 == *name {
                proof {
                    lemma_map_of_index(self.species_counts@, i as int);
                }
                return Some(i);
            }
        }
        proof {
            if self@.contains_key(name@) {
                lemma_map_of_key_has_index(self.species_counts@, name@);
            }
        }
        None
    }

    /// The count recorded for `name`, if the species is present.
    pub fn get(&self, name: &Name) -> (r: Option<u64>)
        ensures
            match r {
                Some(c) => self@.contains_key(name@) && self@[name@] == c,
                None => !self@.contains_key(name@),
            },
    {
        match self.index_of(name) {
            Some(i) => Some(self.species_counts[i].1.0),
            None => None,
        }
    }

    /// Records `count` for `name`, adding the species or replacing its count.
    pub fn insert(&mut self, name: Name, count: Count)
        ensures
            final(self)@ == old(self)@.insert(name@, count.0),
    {
        proof {
            use_type_invariant(&*self);
        }
        let found = self.index_of(&name);
        let mut entries: Vec<(Name, Count)> = Vec::new();
        core::mem::swap(&mut entries, &mut self.species_counts);
        match found {
            Some(i) => {
                proof {
                    lemma_map_of_update(entries@, i as int, (Name(name.0), count));
                }
                entries[i] = (name, count);
            },
            None => {
                proof {
                    lemma_map_of_push(entries@, (Name(name.0), count));
                    assert forall|j: int| 0 <= j < entries@.len() implies entries@[j].0@
                        != name@ by {
                        lemma_map_of_index(entries@, j);
                    }
                }
                entries.push((name, count));
            },
        }
        core::mem::swap(&mut entries, &mut self.species_counts);
    }

    /// How many species are recorded.
    pub fn len(&self) -> (n: usize)
        ensures
            n == self@.dom().len(),
    {
        proof {
            use_type_invariant(self);
            lemma_map_of_dom_len(self.species_counts@);
        }
        self.species_counts.len()
    }
}

/// With unique names, the mapping has exactly one key per entry.
pub proof fn lemma_map_of_dom_len(entries: Seq<(Name, Count)>)
    requires
        entries_unique(entries),
    ensures
        map_of(entries).dom().len() == entries.len(),
        map_of(entries).dom().finite(),
    decreases entries.len(),
{
    if entries.len() > 0 {
        lemma_map_of_dom_len(entries.drop_last());
        if entries.drop_last().len() > 0 {
        }
        assert(!map_of(entries.drop_last()).contains_key(entries.last().0@)) by {
            if map_of(entries.drop_last()).contains_key(entries.last().0@) {
                lemma_map_of_key_has_index(entries.drop_last(), entries.last().0@);
            }
        }
        assert(map_of(entries).dom() =~= map_of(entries.drop_last()).dom().insert(
            entries.last().0@,
        ));
        vstd::set::axiom_set_insert_len(
            map_of(entries.drop_last()).dom(),
            entries.last().0@,
        );
    }
}

/// One reactant term is satisfied: if its species is present, the count
/// covers the coefficient. An absent species leaves the term satisfied.
pub open spec fn term_satisfied(m: Map<Seq<char>, u64>, t: TermV) -> bool {
    m.contains_key(t.species) ==> t.coefficient <= m[t.species]
}

/// A reaction is possible in a solution when every reactant term is
/// satisfied; a reaction with no reactants always is.
pub open spec fn validate_spec(m: Map<Seq<char>, u64>, r: ReactionV) -> bool {
    forall|i: int| 0 <= i < r.reactants.len() ==> term_satisfied(m, #[trigger] r.reactants[i])
}

/// Effect of one reactant term: decrement the named count, clamped at zero.
/// A species that is not present is left untouched.
pub open spec fn consume_term(m: Map<Seq<char>, u64>, t: TermV) -> Map<Seq<char>, u64> {
    if m.contains_key(t.species) {
        m.insert(t.species, sat_sub(m[t.species], t.coefficient))
    } else {
        m
    }
}

/// Effect of one product term: increment the named count.
/// A species that is not present is left untouched.
pub open spec fn produce_term(m: Map<Seq<char>, u64>, t: TermV) -> Map<Seq<char>, u64> {
    if m.contains_key(t.species) {
        m.insert(t.species, sat_add(m[t.species], t.coefficient))
    } else {
        m
    }
}

pub open spec fn consume_terms(m: Map<Seq<char>, u64>, ts: Seq<TermV>) -> Map<Seq<char>, u64>
    decreases ts.len(),
{
    if ts.len() == 0 {
        m
    } else {
        consume_term(consume_terms(m, ts.drop_last()), ts.last())
    }
}

pub open spec fn produce_terms(m: Map<Seq<char>, u64>, ts: Seq<TermV>) -> Map<Seq<char>, u64>
    decreases ts.len(),
{
    if ts.len() == 0 {
        m
    } else {
        produce_term(produce_terms(m, ts.drop_last()), ts.last())
    }
}

/// Effect of a whole reaction: consume every reactant, then produce every
/// product, in the order the terms are written.
pub open spec fn apply_spec(m: Map<Seq<char>, u64>, r: ReactionV) -> Map<Seq<char>, u64> {
    produce_terms(consume_terms(m, r.reactants), r.products)
}

impl Solution {
    /// Decrements the count of `name`, when present, clamped at zero.
    /// Species that are absent are left untouched.
    fn consume(&mut self, name: &Name, coefficient: u64)
        ensures
            final(self)@ == consume_term(
                old(self)@,
                TermV { species: name@, coefficient: coefficient },
            ),
    {
        proof {
            use_type_invariant(&*self);
        }
        let found = self.index_of(name);
        let mut entries: Vec<(Name, Count)> = Vec::new();
        core::mem::swap(&mut entries, &mut self.species_counts);
        match found {
            Some(i) => {
                let cur = entries[i].1.0;
                let new_count = if coefficient > cur {
                    0u64
                } else {
                    cur - coefficient
                };
                proof {
                    lemma_map_of_update(
                        entries@,
                        i as int,
                        (entries@[i as int].0, Count(new_count)),
                    );
                }
                entries[i].1 = Count(new_count);
            },
            None => {},
        }
        core::mem::swap(&mut entries, &mut self.species_counts);
    }

    /// Increments the count of `name`, when present, clamped at the largest
    /// representable count. Species that are absent are left untouched.
    fn produce(&mut self, name: &Name, coefficient: u64)
        ensures
            final(self)@ == produce_term(
                old(self)@,
                TermV { species: name@, coefficient: coefficient },
            ),
    {
        proof {
            use_type_invariant(&*self);
        }
        let found = self.index_of(name);
        let mut entries: Vec<(Name, Count)> = Vec::new();
        core::mem::swap(&mut entries, &mut self.species_counts);
        match found {
            Some(i) => {
                let cur = entries[i].1.0;
                let new_count = if coefficient > u64::MAX - cur {
                    u64::MAX
                } else {
                    cur + coefficient
                };
                proof {
                    lemma_map_of_update(
                        entries@,
                        i as int,
                        (entries@[i as int].0, Count(new_count)),
                    );
                }
                entries[i].1 = Count(new_count);
            },
            None => {},
        }
        core::mem::swap(&mut entries, &mut self.species_counts);
    }

    /// Mutates the solution to reflect the effects of a reaction: reactant
    /// counts go down by their coefficients, product counts go up.
    pub fn apply(&mut self, reaction: Reaction)
        ensures
            final(self)@ == apply_spec(old(self)@, reaction@),
    {
        let reactants = reaction.get_reactants();
        let n = reactants.len();
        assert(reaction@.reactants.take(0) =~= Seq::<TermV>::empty());
        for i in 0..n
            invariant
                n == reactants@.len(),
                reactants@.map_values(|t: Term| t@) == reaction@.reactants,
                self@ == consume_terms(old(self)@, reaction@.reactants.take(i as int)),
        {
            let t = &reactants[i];
            proof {
                assert(reaction@.reactants.take(i + 1).drop_last() =~= reaction@.reactants.take(
                    i as int,
                ));
                assert(reaction@.reactants.take(i + 1).last() == t@);
            }
            self.consume(t.get_species_name(), t.get_coefficient().0);
        }
        proof {
            assert(reaction@.reactants.take(n as int) =~= reaction@.reactants);
        }
        let products = reaction.get_products();
        let m = products.len();
        assert(reaction@.products.take(0) =~= Seq::<TermV>::empty());
        for i in 0..m
            invariant
                m == products@.len(),
                products@.map_values(|t: Term| t@) == reaction@.products,
                self@ == produce_terms(
                    consume_terms(old(self)@, reaction@.reactants),
                    reaction@.products.take(i as int),
                ),
        {
            let t = &products[i];
            proof {
                assert(reaction@.products.take(i + 1).drop_last() =~= reaction@.products.take(
                    i as int,
                ));
                assert(reaction@.products.take(i + 1).last() == t@);
            }
            self.produce(t.get_species_name(), t.get_coefficient().0);
        }
        proof {
            assert(reaction@.products.take(m as int) =~= reaction@.products);
        }
    }

    /// Validates a reaction by checking its reactants against the current
    /// solution. A reactant species that is absent counts as satisfied.
    pub fn validate(&self, reaction: &Reaction) -> (possible: bool)
        ensures
            possible == validate_spec(self@, reaction@),
    {
        let reactants = reaction.get_reactants();
        let n = reactants.len();
        for i in 0..n
            invariant
                n == reactants@.len(),
                reactants@.map_values(|t: Term| t@) == reaction@.reactants,
                forall|j: int|
                    0 <= j < i ==> term_satisfied(self@, #[trigger] reaction@.reactants[j]),
        {
            let t = &reactants[i];
            proof {
                assert(reaction@.reactants[i as int] == t@);
            }
            match self.get(t.get_species_name()) {
                Some(current_count) => {
                    if t.get_coefficient().0 > current_count {
                        assert(!term_satisfied(self@, reaction@.reactants[i as int]));
                        return false;
                    }
                },
                None => {},
            }
        }
        true
    }
}

/// The count a mapping holds for a key, with zero for an absent key.
pub open spec fn zero_or(m: Map<Seq<char>, u64>, k: Seq<char>) -> u64 {
    if m.contains_key(k) {
        m[k]
    } else {
        0u64
    }
}

/// Pointwise sum of two mappings over the union of their keys, with absent
/// keys read as zero and each sum clamped at the largest count.
pub open spec fn sum_maps(a: Map<Seq<char>, u64>, b: Map<Seq<char>, u64>) -> Map<Seq<char>, u64> {
    Map::new(
        |k: Seq<char>| a.contains_key(k) || b.contains_key(k),
        |k: Seq<char>| sat_add(zero_or(a, k), zero_or(b, k)),
    )
}

impl Solution {
    /// Adds `amount` to the count of `name`, inserting the species when it
    /// is absent.
    fn add_count(&mut self, name: Name, amount: u64)
        ensures
            final(self)@ == old(self)@.insert(
                name@,
                sat_add(zero_or(old(self)@, name@), amount),
            ),
    {
        proof {
            use_type_invariant(&*self);
        }
        let found = self.index_of(&name);
        let mut entries: Vec<(Name, Count)> = Vec::new();
        core::mem::swap(&mut entries, &mut self.species_counts);
        match found {
            Some(i) => {
                let cur = entries[i].1.0;
                let new_count = if amount > u64::MAX - cur {
                    u64::MAX
                } else {
                    cur + amount
                };
                proof {
                    lemma_map_of_update(
                        entries@,
                        i as int,
                        (entries@[i as int].0, Count(new_count)),
                    );
                }
                entries[i].1 = Count(new_count);
            },
            None => {
                proof {
                    lemma_map_of_push(entries@, (Name(name.0), Count(amount)));
                    assert forall|j: int| 0 <= j < entries@.len() implies entries@[j].0@
                        != name@ by {
                        lemma_map_of_index(entries@, j);
                    }
                }
                entries.push((name, Count(amount)));
            },
        }
        core::mem::swap(&mut entries, &mut self.species_counts);
    }

    /// Performs pointwise summation between solutions: the counts of every
    /// species present in either operand are added, absent counts read zero.
    pub fn add(&self, other: &Solution) -> (sum: Solution)
        ensures
            sum@ == sum_maps(self@, other@),
    {
        proof {
            use_type_invariant(other);
        }
        let mut result = self.clone();
        let n = other.species_counts.len();
        proof {
            assert(map_of(other.species_counts@.take(0)) =~= Map::<Seq<char>, u64>::empty());
            assert(result@ =~= sum_maps(self@, map_of(other.species_counts@.take(0))));
        }
        for i in 0..n
            invariant
                n == other.species_counts@.len(),
                entries_unique(other.species_counts@),
                result@ == sum_maps(self@, map_of(other.species_counts@.take(i as int))),
        {
            let name = other.species_counts[i].0.clone();
            let amount = other.species_counts[i].1.0;
            let ghost prefix = other.species_counts@.take(i as int);
            let ghost whole = other.species_counts@.take(i + 1);
            proof {
                assert(whole.drop_last() =~= prefix);
                assert(whole.last() == other.species_counts@[i as int]);
                lemma_map_of_push(prefix, whole.last());
                assert(map_of(whole) == map_of(prefix).insert(name@, amount));
                // the name is new to the prefix
                if map_of(prefix).contains_key(name@) {
                    lemma_map_of_key_has_index(prefix, name@);
                }
            }
            result.add_count(name, amount);
            proof {
                assert(result@ =~= sum_maps(self@, map_of(whole)));
            }
        }
        proof {
            assert(other.species_counts@.take(n as int) =~= other.species_counts@);
        }
        result
    }
}

/// Lexicographic order on names by character code point; a proper prefix
/// comes first. This is the order of the underlying strings.
pub open spec fn chars_lt(a: Seq<char>, b: Seq<char>) -> bool
    decreases a.len() + b.len(),
{
    if b.len() == 0 {
        false
    } else if a.len() == 0 {
        true
    } else if a[0] as u32 != b[0] as u32 {
        (a[0] as u32) < (b[0] as u32)
    } else {
        chars_lt(a.drop_first(), b.drop_first())
    }
}

/// The order is total: two names are ordered one way, the other, or equal,
/// and strict order in one direction excludes the other two.
pub proof fn lemma_chars_order_total(a: Seq<char>, b: Seq<char>)
    ensures
        chars_lt(a, b) || chars_lt(b, a) || a == b,
        chars_lt(a, b) ==> !chars_lt(b, a) && a != b,
    decreases a.len() + b.len(),
{
    if a.len() == 0 && b.len() == 0 {
        assert(a =~= b);
    } else if a.len() > 0 && b.len() > 0 {
        if a[0] as u32 == b[0] as u32 {
            vstd::utf8::char_u32_cast(a[0], a[0] as u32);
            vstd::utf8::char_u32_cast(b[0], b[0] as u32);
            assert(a[0] == b[0]);
            lemma_chars_order_total(a.drop_first(), b.drop_first());
            if a.drop_first() == b.drop_first() {
                assert forall|i: int| 0 <= i < a.len() implies a[i] == b[i] by {
                    if i > 0 {
                        assert(a.drop_first()[i - 1] == b.drop_first()[i - 1]);
                    }
                }
                assert(a =~= b);
            }
            if a == b {
                assert(a.drop_first() =~= b.drop_first());
            }
        }
    }
}

pub proof fn lemma_chars_lt_trans(a: Seq<char>, b: Seq<char>, c: Seq<char>)
    requires
        chars_lt(a, b),
        chars_lt(b, c),
    ensures
        chars_lt(a, c),
    decreases a.len() + b.len() + c.len(),
{
    if a.len() > 0 && b.len() > 0 && c.len() > 0 {
        if a[0] as u32 == b[0] as u32 && b[0] as u32 == c[0] as u32 {
            lemma_chars_lt_trans(a.drop_first(), b.drop_first(), c.drop_first());
        }
    }
}

/// Once two names agree on a prefix, their order is the order of the rest.
proof fn lemma_chars_lt_skip(a: Seq<char>, b: Seq<char>, i: int)
    requires
        0 <= i <= a.len(),
        i <= b.len(),
        forall|j: int| 0 <= j < i ==> a[j] == b[j],
    ensures
        chars_lt(a, b) == chars_lt(a.skip(i), b.skip(i)),
    decreases i,
{
    if i > 0 {
        assert(a.len() > 0 && b.len() > 0);
        assert(a[0] == b[0]);
        assert(chars_lt(a, b) == chars_lt(a.drop_first(), b.drop_first()));
        assert(a.drop_first() =~= a.skip(1));
        assert(b.drop_first() =~= b.skip(1));
        assert forall|j: int| 0 <= j < i - 1 implies a.skip(1)[j] == b.skip(1)[j] by {
            assert(a.skip(1)[j] == a[j + 1]);
            assert(b.skip(1)[j] == b[j + 1]);
        }
        lemma_chars_lt_skip(a.skip(1), b.skip(1), i - 1);
        assert(a.skip(1).skip(i - 1) =~= a.skip(i));
        assert(b.skip(1).skip(i - 1) =~= b.skip(i));
    } else {
        assert(a.skip(0) =~= a);
        assert(b.skip(0) =~= b);
    }
}

/// Whether `a` orders strictly before `b`.
pub fn name_lt(a: &Name, b: &Name) -> (r: bool)
    ensures
        r == chars_lt(a@, b@),
{
    let sa = a.0.as_str();
    let sb = b.0.as_str();
    let la = sa.unicode_len();
    let lb = sb.unicode_len();
    let mut i: usize = 0;
    while i < la && i < lb
        invariant
            i <= la,
            i <= lb,
            la == a@.len(),
            lb == b@.len(),
            sa@ == a@,
            sb@ == b@,
            forall|j: int| 0 <= j < i ==> a@[j] == b@[j],
        decreases la - i,
    {
        let ca = sa.get_char(i);
        let cb = sb.get_char(i);
        if ca != cb {
            proof {
                lemma_chars_lt_skip(a@, b@, i as int);
                assert(a@.skip(i as int)[0] == ca);
                assert(b@.skip(i as int)[0] == cb);
                vstd::utf8::char_u32_cast(ca, ca as u32);
                vstd::utf8::char_u32_cast(cb, cb as u32);
            }
            return (ca as u32) < (cb as u32);
        }
        i = i + 1;
    }
    proof {
        lemma_chars_lt_skip(a@, b@, i as int);
        if i == la {
            assert(a@.skip(i as int).len() == 0);
        } else {
            assert(b@.skip(i as int).len() == 0);
        }
    }
    la < lb
}

/// Entries in strictly ascending name order.
pub open spec fn sorted_strict(entries: Seq<(Name, Count)>) -> bool {
    forall|i: int, j: int|
        0 <= i < j < entries.len() ==> chars_lt(
            (#[trigger] entries[i]).0@,
            (#[trigger] entries[j]).0@,
        )
}

/// Inserting an entry with a fresh name anywhere in the list inserts its
/// pair into the described mapping.
proof fn lemma_map_of_insert_at(entries: Seq<(Name, Count)>, p: int, e: (Name, Count))
    requires
        entries_unique(entries),
        0 <= p <= entries.len(),
        forall|i: int| 0 <= i < entries.len() ==> (#[trigger] entries[i]).0@ != e.0@,
    ensures
        map_of(entries.insert(p, e)) == map_of(entries).insert(e.0@, e.1.0),
        entries_unique(entries.insert(p, e)),
    decreases entries.len(),
{
    let s = entries.insert(p, e);
    if p == entries.len() {
        assert(s =~= entries.push(e));
        lemma_map_of_push(entries, e);
    } else {
        assert(s.drop_last() =~= entries.drop_last().insert(p, e));
        assert(s.last() == entries.last());
        lemma_map_of_insert_at(entries.drop_last(), p, e);
        assert(map_of(s) =~= map_of(entries).insert(e.0@, e.1.0));
    }
}

impl Solution {
    /// The species of the solution as a list of name and count pairs,
    /// sorted by name ascending. The list carries exactly the entries of
    /// the solution, each name once.
    pub fn to_sorted_entries(&self) -> (out: Vec<(Name, Count)>)
        ensures
            map_of(out@) == self@,
            entries_unique(out@),
            sorted_strict(out@),
    {
        proof {
            use_type_invariant(self);
        }
        let n = self.species_counts.len();
        let mut out: Vec<(Name, Count)> = Vec::new();
        proof {
            assert(self.species_counts@.take(0) =~= Seq::<(Name, Count)>::empty());
            assert(map_of(out@) =~= map_of(self.species_counts@.take(0)));
        }
        for i in 0..n
            invariant
                n == self.species_counts@.len(),
                entries_unique(self.species_counts@),
                map_of(out@) == map_of(self.species_counts@.take(i as int)),
                entries_unique(out@),
                sorted_strict(out@),
        {
            let ghost input = self.species_counts@;
            let name = self.species_counts[i].0.clone();
            let count = self.species_counts[i].1;
            let mut p: usize = 0;
            while p < out.len() && name_lt(&out[p].0, &name)
                invariant
                    p <= out@.len(),
                    forall|q: int| 0 <= q < p ==> chars_lt((#[trigger] out@[q]).0@, name@),
                decreases out@.len() - p,
            {
                p = p + 1;
            }
            proof {
                // the new name is not among the output keys
                assert forall|q: int| 0 <= q < out@.len() implies (#[trigger] out@[q]).0@
                    != name@ by {
                    if out@[q].0@ == name@ {
                        lemma_map_of_index(out@, q);
                        lemma_map_of_key_has_index(input.take(i as int), name@);
                        let w = choose|w: int|
                            0 <= w < input.take(i as int).len() && input.take(i as int)[w].0@
                                == name@;
                        assert(input[w].0@ == input[i as int].0@);
                    }
                }
                // the new name orders strictly before everything from `p` on
                assert forall|q: int| p <= q < out@.len() implies chars_lt(
                    name@,
                    (#[trigger] out@[q]).0@,
                ) by {
                    lemma_chars_order_total(out@[p as int].0@, name@);
                    if q > p {
                        lemma_chars_lt_trans(name@, out@[p as int].0@, out@[q].0@);
                    }
                }
                lemma_map_of_insert_at(out@, p as int, (Name(name.0), count));
                lemma_map_of_push(input.take(i as int), input[i as int]);
                assert(input.take(i + 1).drop_last() =~= input.take(i as int));
                assert(input.take(i + 1).last() == input[i as int]);
            }
            let ghost out_before = out@;
            out.insert(p, (name, count));
            proof {
                assert forall|x: int, y: int| 0 <= x < y < out@.len() implies chars_lt(
                    (#[trigger] out@[x]).0@,
                    (#[trigger] out@[y]).0@,
                ) by {
                    if y < p {
                    } else if x >= p + 1 {
                        assert(out@[x] == out_before[x - 1]);
                        assert(out@[y] == out_before[y - 1]);
                    } else if x < p && y == p {
                        assert(out@[x] == out_before[x]);
                    } else if x < p && y > p {
                        assert(out@[x] == out_before[x]);
                        assert(out@[y] == out_before[y - 1]);
                    } else if x == p {
                        assert(out@[y] == out_before[y - 1]);
                    }
                }
            }
        }
        proof {
            assert(self.species_counts@.take(n as int) =~= self.species_counts@);
        }
        out
    }
}

impl Clone for Solution {
    fn clone(&self) -> (r: Solution)
        ensures
            r@ == self@,
    {
        proof {
            use_type_invariant(self);
        }
        let n = self.species_counts.len();
        let mut entries: Vec<(Name, Count)> = Vec::new();
        for i in 0..n
            invariant
                n == self.species_counts@.len(),
                entries@.len() == i,
                forall|j: int|
                    0 <= j < i ==> entries@[j].0@ == self.species_counts@[j].0@
                        && entries@[j].1 == self.species_counts@[j].1,
        {
            let name = self.species_counts[i].0.clone();
            let count = self.species_counts[i].1;
            entries.push((name, count));
        }
        proof {
            lemma_map_of_congruent(entries@, self.species_counts@);
        }
        Solution { species_counts: entries }
    }
}

} // verus!
