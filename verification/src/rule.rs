//! Rules, and the reading of a fact as a rule.

use crate::atom::{
    lemma_view_tuple, ref_views, subst_all, subterms_upto, var_map, vars_upto, views, Atom, Fact,
    Term, VisitVars,
};
use std::collections::HashMap;
use std::collections::HashSet;
use vstd::prelude::*;

verus! {

broadcast use vstd::std_specs::hash::group_hash_axioms;

/// If every antecedent holds under some substitution, so does the consequent.
#[derive(Debug)]
pub struct Rule {
    pub consequent: Atom,
    pub antecedents: Vec<Atom>,
}

/// The mathematical value of a rule.
pub struct RuleView {
    pub consequent: Term,
    pub antecedents: Seq<Term>,
}

impl View for Rule {
    type V = RuleView;

    open spec fn view(&self) -> RuleView {
        RuleView { consequent: self.consequent@, antecedents: views(self.antecedents@) }
    }
}

/// The values of a sequence of rules.
pub open spec fn rule_views(rules: Seq<Rule>) -> Seq<RuleView> {
    Seq::new(rules.len(), |i: int| rules[i]@)
}

/// The constant that marks a fact as a rule.
pub open spec fn if_mark() -> Term {
    Term::Id("if"@)
}

impl RuleView {
    /// The rule written as one fact: the consequent, the mark `if`, then
    /// the antecedents in order.
    pub open spec fn encode(self) -> Term {
        Term::Tuple(seq![self.consequent, if_mark()] + self.antecedents)
    }

    /// The fact that stands for the rule in a knowledge base: the bare
    /// consequent where the rule has no antecedent, else its encoding.
    pub open spec fn fact(self) -> Term {
        if self.antecedents.len() == 0 {
            self.consequent
        } else {
            self.encode()
        }
    }

    /// The variables of the consequent, then those of each antecedent.
    pub open spec fn vars(self) -> Seq<u32> {
        self.consequent.vars() + vars_upto(self.antecedents, self.antecedents.len())
    }

    /// The variable numbers that occur in the rule.
    pub open spec fn var_set(self) -> Set<u32> {
        Set::new(|v: u32| self.vars().contains(v))
    }

    /// The rule with each variable that `m` maps renamed to what `m` maps
    /// it to.
    pub open spec fn rename(self, m: Map<u32, u32>) -> RuleView {
        RuleView {
            consequent: self.consequent.rename(m),
            antecedents: subst_all(self.antecedents, var_map(m)),
        }
    }

    /// The sub-terms of the consequent, then those of each antecedent.
    pub open spec fn subterms(self) -> Seq<Term> {
        self.consequent.subterms() + subterms_upto(self.antecedents, self.antecedents.len())
    }
}

/// The rule that a fact encodes: a tuple whose second element is the
/// constant `if`. Its first element is the consequent, the elements after
/// the mark are the antecedents. Every other fact encodes no rule.
pub open spec fn as_rule_spec(t: Term) -> Option<RuleView> {
    match t {
        Term::Tuple(xs) => if xs.len() >= 2 && xs[1] == if_mark() {
            Some(RuleView { consequent: xs[0], antecedents: xs.skip(2) })
        } else {
            None
        },
        _ => None,
    }
}

/// A rule is read back from its encoding unchanged, and a tuple whose second
/// element is not the constant `if` encodes no rule.
pub proof fn lemma_rule_round_trip(r: RuleView, other: Seq<Term>)
    ensures
        as_rule_spec(r.encode()) == Some(r),
        (other.len() < 2 || other[1] != if_mark()) ==> as_rule_spec(Term::Tuple(other)) is None,
{
    let xs = seq![r.consequent, if_mark()] + r.antecedents;
    assert(xs.skip(2) =~= r.antecedents);
}

impl Fact {
    /// Reads the fact as a rule, where it has the shape of one.
    pub fn as_rule(&self) -> (r: Option<Rule>)
        ensures
            match as_rule_spec(self@) {
                None => r is None,
                Some(v) => r is Some && r->Some_0@ == v,
            },
    {
        match self {
            Atom::Tuple(args) => {
                proof {
                    lemma_view_tuple(*args);
                }
                if args.len() < 2 {
                    return None;
                }
                let marked = match &args[1] {
                    Atom::Id(i) => *i == "if".to_owned(),
                    _ => false,
                };
                if !marked {
                    return None;
                }
                let mut antecedents: Vec<Atom> = Vec::new();
                let mut k: usize = 2;
                while k < args.len()
                    invariant
                        2 <= k <= args.len(),
                        antecedents@.len() == k - 2,
                        forall|j: int| 0 <= j < k - 2 ==> antecedents@[j]@ == args@[j + 2]@,
                    decreases args.len() - k,
                {
                    antecedents.push(args[k].duplicate());
                    k += 1;
                }
                let rule = Rule { consequent: args[0].duplicate(), antecedents };
                assert(rule@.antecedents =~= views(args@).skip(2));
                Some(rule)
            },
            _ => None,
        }
    }
}

impl Rule {
    /// The fact that stands for the rule in a knowledge base: the bare
    /// consequent where the rule has no antecedent, else the tuple of the
    /// consequent, the constant `if` and the antecedents.
    pub fn to_fact(&self) -> (r: Fact)
        ensures
            r@ == self@.fact(),
    {
        if self.antecedents.len() == 0 {
            return self.consequent.duplicate();
        }
        let mut args: Vec<Atom> = Vec::new();
        args.push(self.consequent.duplicate());
        args.push(Atom::Id("if".to_owned()));
        let mut k: usize = 0;
        while k < self.antecedents.len()
            invariant
                k <= self.antecedents.len(),
                args@.len() == k + 2,
                args@[0]@ == self.consequent@,
                args@[1]@ == if_mark(),
                forall|j: int| 0 <= j < k ==> args@[j + 2]@ == self.antecedents@[j]@,
            decreases self.antecedents.len() - k,
        {
            args.push(self.antecedents[k].duplicate());
            k += 1;
        }
        proof {
            lemma_view_tuple(args);
            assert(views(args@) =~= seq![self@.consequent, if_mark()] + self@.antecedents);
        }
        Atom::Tuple(args)
    }

    /// A copy with the same value.
    pub fn duplicate(&self) -> (r: Rule)
        ensures
            r@ == self@,
    {
        let mut antecedents: Vec<Atom> = Vec::new();
        let mut k: usize = 0;
        while k < self.antecedents.len()
            invariant
                k <= self.antecedents.len(),
                antecedents@.len() == k,
                forall|j: int| 0 <= j < k ==> antecedents@[j]@ == self.antecedents@[j]@,
            decreases self.antecedents.len() - k,
        {
            antecedents.push(self.antecedents[k].duplicate());
            k += 1;
        }
        assert(views(antecedents@) =~= views(self.antecedents@));
        Rule { consequent: self.consequent.duplicate(), antecedents }
    }

    /// The consequent and every term inside it, then the same for each
    /// antecedent in order.
    pub fn visit_facts(&self) -> (r: Vec<&Fact>)
        ensures
            ref_views(r@) == self@.subterms(),
    {
        let mut out = self.consequent.visit_facts();
        let ghost ts = views(self.antecedents@);
        let ghost head = self.consequent@.subterms();
        let mut k: usize = 0;
        assert(head + subterms_upto(ts, 0) =~= head);
        while k < self.antecedents.len()
            invariant
                k <= self.antecedents.len(),
                ts == views(self.antecedents@),
                head == self.consequent@.subterms(),
                ref_views(out@) == head + subterms_upto(ts, k as nat),
            decreases self.antecedents.len() - k,
        {
            let ghost before = out@;
            let mut more = self.antecedents[k].visit_facts();
            let ghost added = more@;
            out.append(&mut more);
            assert(ref_views(out@) =~= ref_views(before) + ref_views(added));
            assert(head + subterms_upto(ts, k as nat) + ts[k as int].subterms() =~= head
                + subterms_upto(ts, (k + 1) as nat));
            k += 1;
        }
        out
    }

    /// The rule with each variable that `renaming` maps renamed.
    pub fn renamed(&self, renaming: &HashMap<u32, u32>) -> (r: Rule)
        ensures
            r@ == self@.rename(renaming@),
    {
        let consequent = self.consequent.renamed(renaming);
        let mut antecedents: Vec<Atom> = Vec::new();
        let mut k: usize = 0;
        while k < self.antecedents.len()
            invariant
                k <= self.antecedents.len(),
                antecedents@.len() == k,
                forall|j: int|
                    0 <= j < k ==> antecedents@[j]@ == self.antecedents@[j]@.rename(renaming@),
            decreases self.antecedents.len() - k,
        {
            antecedents.push(self.antecedents[k].renamed(renaming));
            k += 1;
        }
        assert(views(antecedents@) =~= subst_all(views(self.antecedents@), var_map(renaming@)));
        Rule { consequent, antecedents }
    }

    /// The set of variable numbers that occur in the rule.
    pub fn variables(&self) -> (r: HashSet<u32>)
        ensures
            r@ == self@.var_set(),
    {
        let seen = self.visit_vars();
        let mut vars: HashSet<u32> = HashSet::new();
        let mut k: usize = 0;
        while k < seen.len()
            invariant
                k <= seen.len(),
                seen@ == self@.vars(),
                forall|v: u32| vars@.contains(v) <==> seen@.take(k as int).contains(v),
            decreases seen.len() - k,
        {
            vars.insert(seen[k]);
            proof {
                let s0 = seen@.take(k as int);
                let s1 = seen@.take(k + 1);
                assert(s1 =~= s0.push(seen@[k as int]));
                assert forall|v: u32| vars@.contains(v) <==> s1.contains(v) by {
                    if s0.contains(v) {
                        let j = choose|j: int| 0 <= j < s0.len() && s0[j] == v;
                        assert(s1[j] == v);
                    }
                    if v == seen@[k as int] {
                        assert(s1[k as int] == v);
                    }
                }
            }
            k += 1;
        }
        assert(seen@.take(k as int) =~= seen@);
        assert(vars@ =~= self@.var_set());
        vars
    }
}

impl Clone for Rule {
    fn clone(&self) -> (r: Rule)
        ensures
            r@ == self@,
    {
        self.duplicate()
    }
}

impl VisitVars for Rule {
    open spec fn var_seq(&self) -> Seq<u32> {
        self@.vars()
    }

    open spec fn renamed_as(&self, m: Map<u32, u32>, out: &Self) -> bool {
        out@ == self@.rename(m)
    }

    fn visit_vars(&self) -> (r: Vec<u32>) {
        let mut out = self.consequent.visit_vars();
        let ghost ts = views(self.antecedents@);
        let mut k: usize = 0;
        assert(self.consequent@.vars() + vars_upto(ts, 0) =~= self.consequent@.vars());
        while k < self.antecedents.len()
            invariant
                k <= self.antecedents.len(),
                ts == views(self.antecedents@),
                out@ == self.consequent@.vars() + vars_upto(ts, k as nat),
            decreases self.antecedents.len() - k,
        {
            let mut more = self.antecedents[k].visit_vars();
            out.append(&mut more);
            assert(self.consequent@.vars() + vars_upto(ts, k as nat) + ts[k as int].vars()
                =~= self.consequent@.vars() + vars_upto(ts, (k + 1) as nat));
            k += 1;
        }
        out
    }

    fn visit_vars_mut(&mut self, renaming: &HashMap<u32, u32>) {
        let r = self.renamed(renaming);
        *self = r;
    }
}

} // verus!
