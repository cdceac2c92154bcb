//! The saturation engine: derive facts from rule-shaped facts until a whole
//! scan of the knowledge base adds nothing.

use crate::atom::{ref_views, Atom, Term, VisitVars};
use crate::combo::{
    count, lemma_nth_of_rank, lemma_rank_bound, lemma_rank_of_nth, nth_combo, rank, valid,
    ComboIter,
};
use crate::fresh::{fresh, lemma_fresh_grows, VarAllocator};
use crate::kb::{insert_spec, Kb};
use crate::rule::{as_rule_spec, rule_views, Rule, RuleView};
use crate::unify::{match_all, unify_all};
use vstd::prelude::*;

verus! {

/// The facts that a combination of positions picks, in the combination's
/// order.
pub open spec fn picked(facts: Seq<Term>, combo: Seq<usize>) -> Seq<Term> {
    Seq::new(combo.len(), |p: int| facts[combo[p] as int])
}

/// What the fact at position `i`, read as a rule whose variables get fresh
/// numbers from `start` on, derives from the facts that `combo` picks for
/// its antecedents: the consequent under the substitution that matches all
/// the antecedents. `None` where the fact is no rule or the facts picked do
/// not match its antecedents together.
pub open spec fn yields(facts: Seq<Term>, i: int, combo: Seq<usize>, start: nat) -> Option<Term> {
    match as_rule_spec(facts[i]) {
        None => None,
        Some(r0) => {
            let r = r0.rename(fresh(r0.vars(), start).0);
            match match_all(r.antecedents, picked(facts, combo)) {
                None => None,
                Some(s) => Some(r.consequent.subst(s)),
            }
        },
    }
}

/// The combination gives nothing new: it derives nothing, or a fact that is
/// known already.
pub open spec fn stale(facts: Seq<Term>, i: int, combo: Seq<usize>, start: nat) -> bool {
    match yields(facts, i, combo, start) {
        None => true,
        Some(t) => facts.contains(t),
    }
}

/// Of the combinations for the rule at position `i`, those at places below
/// `j` of the enumeration give nothing new.
pub open spec fn scanned_below(facts: Seq<Term>, i: int, start: nat, j: nat) -> bool {
    forall|c: Seq<usize>|
        valid(c, facts.len()) && rank(c, facts.len()) < j ==> #[trigger] stale(facts, i, c, start)
}

/// No combination for the rule at position `i` gives anything new.
pub open spec fn scanned(facts: Seq<Term>, i: int, start: nat) -> bool {
    forall|c: Seq<usize>| valid(c, facts.len()) ==> #[trigger] stale(facts, i, c, start)
}

/// The first unused variable number after the fact at position `i` has been
/// taken up as a rule, where it is one.
pub open spec fn start_after(facts: Seq<Term>, i: int, start: nat) -> nat {
    match as_rule_spec(facts[i]) {
        None => start,
        Some(r) => fresh(r.vars(), start).1,
    }
}

/// The first unused variable number when a scan that began with `n0` comes
/// to the fact at position `i`.
pub open spec fn start_at(facts: Seq<Term>, i: nat, n0: nat) -> nat
    decreases i,
{
    if i == 0 {
        n0
    } else {
        start_after(facts, i - 1, start_at(facts, (i - 1) as nat, n0))
    }
}

/// No rule at a position below `i` derives anything new in a scan that
/// began with the variable number `n0`.
pub open spec fn scanned_rules(facts: Seq<Term>, i: nat, n0: nat) -> bool {
    forall|r: nat| r < i ==> #[trigger] scanned(facts, r as int, start_at(facts, r, n0))
}

/// How one scan of the knowledge base ended.
#[derive(Debug)]
pub enum Outcome {
    /// The rule at position `rule` derived a new fact from the facts at the
    /// positions `combo`; the fact was added and the scan ended there.
    Derived { rule: usize, combo: Vec<usize> },
    /// The whole scan derived nothing new.
    Converged,
    /// The variable numbers ran out at the rule at position `rule`.
    OutOfVariables { rule: usize },
}

/// In a scan begun with the variable number `n0`, the rule at position
/// `rule` with the facts picked by `combo` is the first to derive a fact
/// that is not known: no rule before it derives one, and for this rule no
/// combination at an earlier place.
pub open spec fn first_new(facts: Seq<Term>, n0: nat, rule: nat, combo: Seq<usize>) -> bool {
    &&& rule < facts.len()
    &&& valid(combo, facts.len())
    &&& scanned_rules(facts, rule, n0)
    &&& scanned_below(
        facts,
        rule as int,
        start_at(facts, rule, n0),
        rank(combo, facts.len()),
    )
    &&& !stale(facts, rule as int, combo, start_at(facts, rule, n0))
}

/// The fact that such a scan adds.
pub open spec fn found(facts: Seq<Term>, n0: nat, rule: nat, combo: Seq<usize>) -> Term {
    yields(facts, rule as int, combo, start_at(facts, rule, n0))->Some_0
}

/// `steps` scans, each adding the first new fact that it derives, lead from
/// the facts `facts` and the variable number `n0` to the facts `after` and
/// the variable number `n1`.
pub open spec fn grows(facts: Seq<Term>, n0: nat, after: Seq<Term>, n1: nat, steps: nat) -> bool
    decreases steps,
{
    if steps == 0 {
        after == facts && n1 == n0
    } else {
        exists|rule: nat, combo: Seq<usize>| #[trigger]
            first_new(facts, n0, rule, combo) && grows(
                facts.push(found(facts, n0, rule, combo)),
                start_at(facts, rule + 1, n0),
                after,
                n1,
                (steps - 1) as nat,
            )
    }
}

/// One more scan at the end makes a run one step longer.
pub proof fn lemma_grows_append(
    facts: Seq<Term>,
    n0: nat,
    after: Seq<Term>,
    n1: nat,
    steps: nat,
    rule: nat,
    combo: Seq<usize>,
)
    requires
        grows(facts, n0, after, n1, steps),
        first_new(after, n1, rule, combo),
    ensures
        grows(
            facts,
            n0,
            after.push(found(after, n1, rule, combo)),
            start_at(after, rule + 1, n1),
            steps + 1,
        ),
    decreases steps,
{
    let last = after.push(found(after, n1, rule, combo));
    let n2 = start_at(after, rule + 1, n1);
    if steps == 0 {
        assert(grows(last, n2, last, n2, 0));
        assert(first_new(facts, n0, rule, combo));
    } else {
        let (r0, c0) = choose|r0: nat, c0: Seq<usize>| #[trigger]
            first_new(facts, n0, r0, c0) && grows(
                facts.push(found(facts, n0, r0, c0)),
                start_at(facts, r0 + 1, n0),
                after,
                n1,
                (steps - 1) as nat,
            );
        lemma_grows_append(
            facts.push(found(facts, n0, r0, c0)),
            start_at(facts, r0 + 1, n0),
            after,
            n1,
            (steps - 1) as nat,
            rule,
            combo,
        );
        assert(first_new(facts, n0, r0, c0));
    }
}

/// A run never takes a fact away: it begins with the facts it started from.
pub proof fn lemma_grows_keeps(facts: Seq<Term>, n0: nat, after: Seq<Term>, n1: nat, steps: nat)
    requires
        grows(facts, n0, after, n1, steps),
    ensures
        facts.is_prefix_of(after),
        after.len() == facts.len() + steps,
    decreases steps,
{
    if steps > 0 {
        let (r0, c0) = choose|r0: nat, c0: Seq<usize>| #[trigger]
            first_new(facts, n0, r0, c0) && grows(
                facts.push(found(facts, n0, r0, c0)),
                start_at(facts, r0 + 1, n0),
                after,
                n1,
                (steps - 1) as nat,
            );
        let mid = facts.push(found(facts, n0, r0, c0));
        lemma_grows_keeps(mid, start_at(facts, r0 + 1, n0), after, n1, (steps - 1) as nat);
        assert(facts.is_prefix_of(mid));
    }
}

/// How a run stands after its last scan, begun with the variable number
/// `n`: `next` is the first unused variable number then.
pub open spec fn ended(facts: Seq<Term>, n: nat, next: nat, r: Outcome) -> bool {
    match r {
        Outcome::Derived { .. } => next == n,
        Outcome::Converged => scanned_rules(facts, facts.len(), n) && next == start_at(
            facts,
            facts.len(),
            n,
        ),
        Outcome::OutOfVariables { rule } => {
            &&& rule < facts.len()
            &&& scanned_rules(facts, rule as nat, n)
            &&& start_at(facts, (rule + 1) as nat, n) > u32::MAX
            &&& next == start_at(facts, rule as nat, n)
        },
    }
}

/// Looks up the facts at the positions of `combo`.
fn pick<'a>(kb: &'a Kb, combo: &Vec<usize>) -> (r: Vec<&'a Atom>)
    requires
        valid(combo@, kb@.len()),
    ensures
        ref_views(r@) == picked(kb@, combo@),
{
    let mut chosen: Vec<&Atom> = Vec::new();
    let mut p: usize = 0;
    while p < combo.len()
        invariant
            p <= combo.len(),
            valid(combo@, kb@.len()),
            chosen@.len() == p,
            forall|q: int| 0 <= q < p ==> chosen@[q]@ == kb@[combo@[q] as int],
        decreases combo.len() - p,
    {
        chosen.push(kb.get(combo[p]));
        p += 1;
    }
    assert(ref_views(chosen@) =~= picked(kb@, combo@));
    chosen
}

/// One scan: goes through the facts in order and, for each that is a rule,
/// through the combinations of facts for its antecedents in the
/// enumeration's order. The first combination that derives a fact not yet
/// known ends the scan: the fact is added after the others. A scan that
/// comes to its end has found the knowledge base saturated.
pub fn step(kb: &mut Kb, vars: &mut VarAllocator) -> (r: Outcome)
    requires
        old(kb).wf(),
    ensures
        final(kb).wf(),
        old(kb)@.is_prefix_of(final(kb)@),
        match r {
            Outcome::Derived { rule, combo } => {
                &&& first_new(old(kb)@, old(vars).next_id(), rule as nat, combo@)
                &&& final(kb)@ == old(kb)@.push(
                    found(old(kb)@, old(vars).next_id(), rule as nat, combo@),
                )
                &&& final(vars).next_id() == start_at(
                    old(kb)@,
                    (rule + 1) as nat,
                    old(vars).next_id(),
                )
            },
            Outcome::Converged => {
                &&& final(kb)@ == old(kb)@
                &&& scanned_rules(old(kb)@, old(kb)@.len(), old(vars).next_id())
                &&& final(vars).next_id() == start_at(
                    old(kb)@,
                    old(kb)@.len(),
                    old(vars).next_id(),
                )
            },
            Outcome::OutOfVariables { rule } => {
                &&& final(kb)@ == old(kb)@
                &&& rule < old(kb)@.len()
                &&& scanned_rules(old(kb)@, rule as nat, old(vars).next_id())
                &&& start_at(old(kb)@, (rule + 1) as nat, old(vars).next_id()) > u32::MAX
                &&& final(vars).next_id() == start_at(old(kb)@, rule as nat, old(vars).next_id())
            },
        },
{
    let ghost facts = kb@;
    let ghost n0 = vars.next_id();
    let m = kb.len();
    let mut i: usize = 0;
    while i < m
        invariant
            i <= m,
            m == facts.len(),
            kb@ == facts,
            kb.wf(),
            facts == old(kb)@,
            n0 == old(vars).next_id(),
            vars.next_id() == start_at(facts, i as nat, n0),
            scanned_rules(facts, i as nat, n0),
        decreases m - i,
    {
        let ghost start = vars.next_id();
        let found = kb.get(i).as_rule();
        match found {
            None => {
                assert(scanned(facts, i as int, start));
            },
            Some(mut rule) => {
                let seen = rule.visit_vars();
                if !vars.has_room(&seen) {
                    return Outcome::OutOfVariables { rule: i };
                }
                vars.refresh(&mut rule);
                let k = rule.antecedents.len();
                let mut it = ComboIter::new(m, k);
                let mut more = true;
                while more
                    invariant
                        i < m,
                        m == facts.len(),
                        kb@ == facts,
                        kb.wf(),
                        facts == old(kb)@,
                        n0 == old(vars).next_id(),
                        start == start_at(facts, i as nat, n0),
                        vars.next_id() == start_at(facts, (i + 1) as nat, n0),
                        scanned_rules(facts, i as nat, n0),
                        it.wf(),
                        it.size() == m,
                        it.arity() == k,
                        k == rule.antecedents.len(),
                        as_rule_spec(facts[i as int]) is Some,
                        rule@ == as_rule_spec(facts[i as int])->Some_0.rename(
                            fresh(as_rule_spec(facts[i as int])->Some_0.vars(), start).0,
                        ),
                        it.position() <= count(m as nat, k as nat),
                        !more ==> it.position() >= count(m as nat, k as nat),
                        forall|j: nat|
                            j < it.position() ==> stale(
                                facts,
                                i as int,
                                #[trigger] nth_combo(m as nat, k as nat, j),
                                start,
                            ),
                    decreases
                            count(m as nat, k as nat) - it.position() + if more {
                                1int
                            } else {
                                0int
                            },
                {
                    let ghost pos = it.position();
                    match it.next() {
                        None => {
                            more = false;
                        },
                        Some(combo) => {
                            proof {
                                lemma_rank_of_nth(m as nat, k as nat, pos);
                                it.lemma_position_bound();
                            }
                            let chosen = pick(kb, &combo);
                            let fresh_fact = match unify_all(&rule.antecedents, &chosen) {
                                None => None,
                                Some(s) => Some(rule.consequent.substitute(&s)),
                            };
                            assert(match yields(facts, i as int, combo@, start) {
                                None => fresh_fact is None,
                                Some(t) => fresh_fact is Some && fresh_fact->Some_0@ == t,
                            });
                            match fresh_fact {
                                None => {},
                                Some(fact) => {
                                    if kb.insert(fact) {
                                        proof {
                                            assert forall|c: Seq<usize>|
                                                valid(c, facts.len()) && rank(c, facts.len())
                                                    < rank(combo@, facts.len()) implies #[trigger] stale(
                                                facts,
                                                i as int,
                                                c,
                                                start,
                                            ) by {
                                                lemma_stale_by_rank(facts, i as int, c, start, k as nat);
                                            }
                                        }
                                        return Outcome::Derived { rule: i, combo };
                                    }
                                },
                            }
                        },
                    }
                }
                proof {
                    assert forall|c: Seq<usize>| valid(c, facts.len()) implies #[trigger] stale(
                        facts,
                        i as int,
                        c,
                        start,
                    ) by {
                        lemma_stale_by_rank(facts, i as int, c, start, k as nat);
                        if c.len() == k {
                            lemma_rank_bound(c, m as nat);
                        }
                    }
                }
            },
        }
        i += 1;
    }
    Outcome::Converged
}

/// A combination for a rule with `k` antecedents stands at its place of the
/// enumeration; one of another length derives nothing.
proof fn lemma_stale_by_rank(facts: Seq<Term>, i: int, c: Seq<usize>, start: nat, k: nat)
    requires
        valid(c, facts.len()),
        as_rule_spec(facts[i]) is Some,
        as_rule_spec(facts[i])->Some_0.antecedents.len() == k,
    ensures
        c.len() == k ==> nth_combo(facts.len(), k, rank(c, facts.len())) == c,
        c.len() != k ==> stale(facts, i, c, start),
{
    if c.len() == k {
        lemma_nth_of_rank(c, facts.len());
    }
}

/// A whole scan of the facts, begun with some variable number, derives
/// nothing that is not known.
pub open spec fn saturated(facts: Seq<Term>) -> bool {
    exists|n0: nat| scanned_rules(facts, facts.len(), n0)
}

/// Scans the knowledge base again and again, each scan adding the first new
/// fact that it derives, until a scan derives nothing new, the variable
/// numbers run out, or `limit` facts have been added (one, where `limit` is
/// zero). Returns how the last scan ended. A set of rules may derive facts
/// without end: then only the limit stops the run.
pub fn saturate(kb: &mut Kb, vars: &mut VarAllocator, limit: usize) -> (r: Outcome)
    requires
        old(kb).wf(),
    ensures
        final(kb).wf(),
        old(kb)@.is_prefix_of(final(kb)@),
        exists|n: nat| #[trigger]
            grows(
                old(kb)@,
                old(vars).next_id(),
                final(kb)@,
                n,
                (final(kb)@.len() - old(kb)@.len()) as nat,
            ) && ended(final(kb)@, n, final(vars).next_id(), r),
        r is Converged ==> saturated(final(kb)@),
        r is Derived ==> final(kb)@.len() >= old(kb)@.len() + limit,
        r is Derived ==> final(kb)@.len() == old(kb)@.len() + if limit == 0 {
            1int
        } else {
            limit as int
        },
        !(r is Derived) ==> final(kb)@.len() <= old(kb)@.len() + limit,
{
    let mut added: usize = 0;
    let ghost f0 = kb@;
    let ghost v0 = vars.next_id();
    loop
        invariant
            kb.wf(),
            f0 == old(kb)@,
            v0 == old(vars).next_id(),
            f0.is_prefix_of(kb@),
            kb@.len() == f0.len() + added,
            added == 0 || added < limit,
            grows(f0, v0, kb@, vars.next_id(), added as nat),
        decreases limit - added,
    {
        let ghost n0 = vars.next_id();
        let ghost before = kb@;
        let outcome = step(kb, vars);
        match outcome {
            Outcome::Derived { rule, combo } => {
                proof {
                    lemma_grows_append(f0, v0, before, n0, added as nat, rule as nat, combo@);
                }
                if limit == 0 || added >= limit - 1 {
                    let r = Outcome::Derived { rule, combo };
                    assert(grows(f0, v0, kb@, vars.next_id(), (kb@.len() - f0.len()) as nat)
                        && ended(kb@, vars.next_id(), vars.next_id(), r));
                    return r;
                }
                added = added + 1;
            },
            Outcome::Converged => {
                assert(scanned_rules(kb@, kb@.len(), n0));
                assert(grows(f0, v0, kb@, n0, (kb@.len() - f0.len()) as nat) && ended(
                    kb@,
                    n0,
                    vars.next_id(),
                    Outcome::Converged,
                ));
                return Outcome::Converged;
            },
            Outcome::OutOfVariables { rule } => {
                assert(grows(f0, v0, kb@, n0, (kb@.len() - f0.len()) as nat) && ended(
                    kb@,
                    n0,
                    vars.next_id(),
                    Outcome::OutOfVariables { rule },
                ));
                return Outcome::OutOfVariables { rule };
            },
        }
    }
}

/// What installing the rule `rule` gives, in a knowledge base with the facts
/// `facts` and with `start` the first unused variable number: the rule's
/// variables get fresh numbers, and the fact that stands for the rule is
/// inserted.
pub open spec fn install_spec(facts: Seq<Term>, rule: RuleView, start: nat) -> (Seq<Term>, bool) {
    insert_spec(facts, rule.rename(fresh(rule.vars(), start).0).fact())
}

/// Installs a rule as a fact. Its variables are first given fresh numbers,
/// so that they are no other rule's variables. Returns whether the fact was
/// new, or `None`, with nothing changed, where the variable numbers have run
/// out.
pub fn install(kb: &mut Kb, vars: &mut VarAllocator, rule: &Rule) -> (r: Option<bool>)
    requires
        old(kb).wf(),
    ensures
        final(kb).wf(),
        old(kb)@.is_prefix_of(final(kb)@),
        r is Some <==> fresh(rule@.vars(), old(vars).next_id()).1 <= u32::MAX,
        r is None ==> final(kb)@ == old(kb)@ && final(vars).next_id() == old(vars).next_id(),
        r is Some ==> (final(kb)@, r->Some_0) == install_spec(
            old(kb)@,
            rule@,
            old(vars).next_id(),
        ) && final(vars).next_id() == fresh(rule@.vars(), old(vars).next_id()).1,
{
    let seen = rule.visit_vars();
    if !vars.has_room(&seen) {
        return None;
    }
    let mut own = rule.duplicate();
    vars.refresh(&mut own);
    Some(kb.insert(own.to_fact()))
}

/// The facts and the first unused variable number after the first `n` of
/// `rules` have been installed one after the other in an empty knowledge
/// base.
pub open spec fn seeded(rules: Seq<RuleView>, n: nat) -> (Seq<Term>, nat)
    decreases n,
{
    if n == 0 || n > rules.len() {
        (Seq::empty(), 0)
    } else {
        let (facts, start) = seeded(rules, (n - 1) as nat);
        (install_spec(facts, rules[n - 1], start).0, fresh(rules[n - 1].vars(), start).1)
    }
}

/// Installing more rules never lowers the first unused variable number.
pub proof fn lemma_seeded_grows(rules: Seq<RuleView>, i: nat, n: nat)
    requires
        i <= n <= rules.len(),
    ensures
        seeded(rules, i).1 <= seeded(rules, n).1,
    decreases n,
{
    if i < n {
        lemma_seeded_grows(rules, i, (n - 1) as nat);
        lemma_fresh_grows(rules[n - 1].vars(), seeded(rules, (n - 1) as nat).1);
    }
}

/// Installs `rules` in an empty knowledge base and saturates it, adding at
/// most `limit` derived facts (one, where `limit` is zero). Returns the
/// knowledge base and how the run ended, or `None` where the rules hold
/// more distinct variables than there are variable numbers.
pub fn run_saturation(rules: &Vec<Rule>, limit: usize) -> (r: Option<(Kb, Outcome)>)
    ensures
        r is Some <==> seeded(rule_views(rules@), rules@.len()).1 <= u32::MAX,
        r is Some ==> {
            let (kb, outcome) = r->Some_0;
            let seeds = seeded(rule_views(rules@), rules@.len()).0;
            &&& kb.wf()
            &&& seeds.is_prefix_of(kb@)
            &&& exists|n: nat, next: nat|
                grows(
                    seeds,
                    seeded(rule_views(rules@), rules@.len()).1,
                    kb@,
                    n,
                    (kb@.len() - seeds.len()) as nat,
                ) && #[trigger] ended(kb@, n, next, outcome)
            &&& outcome is Converged ==> saturated(kb@)
            &&& outcome is Derived ==> kb@.len() >= seeds.len() + limit
            &&& kb@.len() <= seeds.len() + limit || kb@.len() == seeds.len() + 1
        },
{
    let mut kb = Kb::new();
    let mut vars = VarAllocator::new();
    let ghost all = rule_views(rules@);
    let mut i: usize = 0;
    while i < rules.len()
        invariant
            i <= rules.len(),
            all == rule_views(rules@),
            kb.wf(),
            (kb@, vars.next_id()) == seeded(all, i as nat),
        decreases rules.len() - i,
    {
        match install(&mut kb, &mut vars, &rules[i]) {
            None => {
                proof {
                    lemma_seeded_grows(all, (i + 1) as nat, all.len());
                }
                return None;
            },
            Some(_) => {},
        }
        i += 1;
    }
    proof {
        vars.lemma_next_id_bound();
    }
    let ghost seeds = kb@;
    let ghost start = vars.next_id();
    let outcome = saturate(&mut kb, &mut vars, limit);
    proof {
        let n = choose|n: nat| #[trigger]
            grows(seeds, start, kb@, n, (kb@.len() - seeds.len()) as nat) && ended(
                kb@,
                n,
                vars.next_id(),
                outcome,
            );
        assert(grows(seeds, start, kb@, n, (kb@.len() - seeds.len()) as nat) && ended(
            kb@,
            n,
            vars.next_id(),
            outcome,
        ));
        assert(seeds == seeded(rule_views(rules@), rules@.len()).0);
        assert(start == seeded(rule_views(rules@), rules@.len()).1);
    }
    Some((kb, outcome))
}

} // verus!
