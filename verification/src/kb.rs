//! The knowledge base: the facts known so far, each once, in the order in
//! which they were added.

use crate::atom::{views, Atom, Fact, Term};
use vstd::prelude::*;

verus! {

/// What inserting `t` into the facts `facts` gives: the facts afterwards, and
/// whether `t` was new. A fact that is already there is not added again.
pub open spec fn insert_spec(facts: Seq<Term>, t: Term) -> (Seq<Term>, bool) {
    if facts.contains(t) {
        (facts, false)
    } else {
        (facts.push(t), true)
    }
}

/// Inserting a fact a second time changes nothing and reports so. Both
/// inserts together add one fact where it was new, and none where it was not.
pub proof fn lemma_insert_twice(facts: Seq<Term>, t: Term)
    ensures
        insert_spec(facts, t).1 == !facts.contains(t),
        insert_spec(insert_spec(facts, t).0, t) == (insert_spec(facts, t).0, false),
        !facts.contains(t) ==> insert_spec(insert_spec(facts, t).0, t).0.len() == facts.len() + 1,
        facts.contains(t) ==> insert_spec(insert_spec(facts, t).0, t).0 == facts,
{
    if !facts.contains(t) {
        assert(facts.push(t)[facts.len() as int] == t);
    }
}

/// An ordered store of distinct facts.
#[derive(Debug)]
pub struct Kb {
    facts: Vec<Atom>,
}

impl View for Kb {
    type V = Seq<Term>;

    closed spec fn view(&self) -> Seq<Term> {
        views(self.facts@)
    }
}

impl Kb {
    /// No fact is stored twice.
    pub open spec fn wf(&self) -> bool {
        self@.no_duplicates()
    }

    /// A knowledge base without facts.
    pub fn new() -> (r: Kb)
        ensures
            r@ == Seq::<Term>::empty(),
            r.wf(),
    {
        let r = Kb { facts: Vec::new() };
        assert(r@ =~= Seq::<Term>::empty());
        r
    }

    /// The number of facts.
    pub fn len(&self) -> (r: usize)
        ensures
            r == self@.len(),
    {
        self.facts.len()
    }

    /// The fact at position `i`, counting from the first one added.
    pub fn get(&self, i: usize) -> (r: &Fact)
        requires
            i < self@.len(),
        ensures
            r@ == self@[i as int],
    {
        &self.facts[i]
    }

    /// The facts in the order in which they were added.
    pub fn facts(&self) -> (r: &Vec<Fact>)
        ensures
            views(r@) == self@,
    {
        &self.facts
    }

    /// Where `fact` stands among the facts, if it is one of them.
    pub fn position(&self, fact: &Fact) -> (r: Option<usize>)
        ensures
            match r {
                Some(i) => i < self@.len() && self@[i as int] == fact@,
                None => !self@.contains(fact@),
            },
    {
        let mut i: usize = 0;
        while i < self.facts.len()
            invariant
                i <= self.facts.len(),
                forall|j: int| 0 <= j < i ==> self@[j] != fact@,
            decreases self.facts.len() - i,
        {
            if self.facts[i].same(fact) {
                return Some(i);
            }
            i += 1;
        }
        None
    }

    /// Whether `fact` is one of the facts.
    pub fn contains(&self, fact: &Fact) -> (r: bool)
        ensures
            r == self@.contains(fact@),
    {
        self.position(fact).is_some()
    }

    /// Adds `atom` after the facts that are there, unless it is one of them.
    /// Returns whether it was added.
    pub fn insert(&mut self, atom: Fact) -> (r: bool)
        requires
            old(self).wf(),
        ensures
            (final(self)@, r) == insert_spec(old(self)@, atom@),
            final(self).wf(),
    {
        if self.contains(&atom) {
            return false;
        }
        let ghost before = self@;
        self.facts.push(atom);
        assert(self@ =~= before.push(atom@));
        true
    }
}

impl Default for Kb {
    fn default() -> (r: Kb)
        ensures
            r@ == Seq::<Term>::empty(),
            r.wf(),
    {
        Kb::new()
    }
}

} // verus!
