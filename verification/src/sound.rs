//! What a match means: against ground facts, the substitution found makes
//! each antecedent equal to its fact, so a derived fact is the consequent of
//! a rule instance whose antecedents are known.

use crate::atom::{lemma_subst_tuple, subst_all, vars_upto, Term};
use crate::fresh::fresh;
use crate::rule::as_rule_spec;
use crate::saturate::{picked, yields};
use crate::unify::{absorb, bindings, bindings_upto, match_all, match_upto};
use vstd::prelude::*;

verus! {

/// A ground term holds no variable.
pub open spec fn ground(t: Term) -> bool {
    t.vars().len() == 0
}

/// Every term of `ts` is ground.
pub open spec fn all_ground(ts: Seq<Term>) -> bool {
    forall|i: int| 0 <= i < ts.len() ==> ground(#[trigger] ts[i])
}

/// The substitution `m` binds variables to ground terms only.
pub open spec fn binds_ground(m: Map<u32, Term>) -> bool {
    forall|v: u32| m.contains_key(v) ==> ground(#[trigger] m[v])
}

/// The substitution `m` makes every binding of `bs`.
pub open spec fn holds(m: Map<u32, Term>, bs: Seq<(u32, Term)>) -> bool {
    forall|k: int|
        0 <= k < bs.len() ==> m.contains_key((#[trigger] bs[k]).0) && m[bs[k].0] == bs[k].1
}

/// The substitution `m` binds whatever `m0` binds, to the same terms.
pub open spec fn extends(m: Map<u32, Term>, m0: Map<u32, Term>) -> bool {
    forall|v: u32| #[trigger] m0.contains_key(v) ==> m.contains_key(v) && m[v] == m0[v]
}

/// The elements of a ground tuple are ground.
pub proof fn lemma_ground_elements(xs: Seq<Term>, n: nat)
    requires
        n <= xs.len(),
        vars_upto(xs, n).len() == 0,
    ensures
        forall|j: int| 0 <= j < n ==> ground(#[trigger] xs[j]),
    decreases n,
{
    if n > 0 {
        lemma_ground_elements(xs, (n - 1) as nat);
    }
}

/// A substitution leaves a ground term as it is.
pub proof fn lemma_subst_ground(t: Term, m: Map<u32, Term>)
    requires
        ground(t),
    ensures
        t.subst(m) == t,
    decreases t,
{
    match t {
        Term::Tuple(xs) => {
            lemma_ground_elements(xs, xs.len());
            lemma_subst_tuple(xs, m);
            assert forall|j: int| 0 <= j < xs.len() implies xs[j].subst(m) == xs[j] by {
                lemma_subst_ground(xs[j], m);
            }
            assert(subst_all(xs, m) =~= xs);
        },
        Term::Id(_) => {},
        Term::Var(v) => {
            assert(t.vars() =~= seq![v]);
        },
    }
}

/// Where bindings are absorbed, all of them are made, and what was bound
/// stays bound as it was.
pub proof fn lemma_absorb_holds(m0: Map<u32, Term>, bs: Seq<(u32, Term)>)
    requires
        absorb(m0, bs) is Some,
    ensures
        holds(absorb(m0, bs)->Some_0, bs),
        extends(absorb(m0, bs)->Some_0, m0),
        (binds_ground(m0) && forall|k: int| 0 <= k < bs.len() ==> ground((#[trigger] bs[k]).1))
            ==> binds_ground(absorb(m0, bs)->Some_0),
    decreases bs.len(),
{
    if bs.len() > 0 {
        let d = bs.drop_last();
        lemma_absorb_holds(m0, d);
        let m1 = absorb(m0, d)->Some_0;
        let m = absorb(m0, bs)->Some_0;
        assert forall|k: int| 0 <= k < bs.len() implies m.contains_key((#[trigger] bs[k]).0)
            && m[bs[k].0] == bs[k].1 by {
            if k < d.len() {
                assert(d[k] == bs[k]);
            }
        }
        if binds_ground(m0) && forall|k: int| 0 <= k < bs.len() ==> ground((#[trigger] bs[k]).1) {
            assert forall|k: int| 0 <= k < d.len() implies ground((#[trigger] d[k]).1) by {
                assert(d[k] == bs[k]);
            }
            assert(ground(bs[bs.len() - 1].1));
        }
    }
}

/// A substitution that makes the bindings of a list makes those of its
/// parts.
pub proof fn lemma_holds_parts(m: Map<u32, Term>, p: Seq<(u32, Term)>, q: Seq<(u32, Term)>)
    requires
        holds(m, p + q),
    ensures
        holds(m, p),
        holds(m, q),
{
    assert forall|k: int| 0 <= k < p.len() implies m.contains_key((#[trigger] p[k]).0) && m[p[k].0]
        == p[k].1 by {
        assert((p + q)[k] == p[k]);
    }
    assert forall|k: int| 0 <= k < q.len() implies m.contains_key((#[trigger] q[k]).0) && m[q[k].0]
        == q[k].1 by {
        assert((p + q)[k + p.len()] == q[k]);
    }
}

/// Matching against a ground term binds variables to ground terms, and a
/// substitution that makes the bindings turns the pattern into the term.
pub proof fn lemma_match_ground(a: Term, b: Term, m: Map<u32, Term>)
    requires
        ground(b),
        bindings(a, b) is Some,
    ensures
        forall|k: int|
            0 <= k < bindings(a, b)->Some_0.len() ==> ground(
                (#[trigger] bindings(a, b)->Some_0[k]).1,
            ),
        holds(m, bindings(a, b)->Some_0) ==> a.subst(m) == b,
    decreases a, 0nat,
{
    match b {
        Term::Var(w) => {
            assert(b.vars() =~= seq![w]);
        },
        Term::Id(_) => {
            match a {
                Term::Var(v) => {
                    let bs = bindings(a, b)->Some_0;
                    assert(bs[0] == (v, b));
                },
                _ => {},
            }
        },
        Term::Tuple(ys) => {
            match a {
                Term::Var(v) => {
                    let bs = bindings(a, b)->Some_0;
                    assert(bs[0] == (v, b));
                },
                Term::Id(_) => {},
                Term::Tuple(xs) => {
                    lemma_ground_elements(ys, ys.len());
                    lemma_match_ground_upto(xs, ys, xs.len(), m);
                    if holds(m, bindings(a, b)->Some_0) {
                        lemma_subst_tuple(xs, m);
                        assert(subst_all(xs, m) =~= ys);
                    }
                },
            }
        },
    }
}

/// The same for the first `n` elements of two tuples.
pub proof fn lemma_match_ground_upto(xs: Seq<Term>, ys: Seq<Term>, n: nat, m: Map<u32, Term>)
    requires
        n <= xs.len(),
        xs.len() == ys.len(),
        all_ground(ys),
        bindings_upto(xs, ys, n) is Some,
    ensures
        forall|k: int|
            0 <= k < bindings_upto(xs, ys, n)->Some_0.len() ==> ground(
                (#[trigger] bindings_upto(xs, ys, n)->Some_0[k]).1,
            ),
        holds(m, bindings_upto(xs, ys, n)->Some_0) ==> forall|j: int|
            0 <= j < n ==> (#[trigger] xs[j]).subst(m) == ys[j],
    decreases xs, n,
{
    if n > 0 {
        let p = bindings_upto(xs, ys, (n - 1) as nat)->Some_0;
        let q = bindings(xs[n - 1], ys[n - 1])->Some_0;
        lemma_match_ground_upto(xs, ys, (n - 1) as nat, m);
        lemma_match_ground(xs[n - 1], ys[n - 1], m);
        assert forall|k: int| 0 <= k < (p + q).len() implies ground((#[trigger] (p + q)[k]).1) by {
            if k < p.len() {
                assert((p + q)[k] == p[k]);
            } else {
                assert((p + q)[k] == q[k - p.len()]);
            }
        }
        if holds(m, p + q) {
            lemma_holds_parts(m, p, q);
        }
    }
}

/// Substituting twice is substituting once, where the second substitution
/// takes up the first and the first binds to ground terms.
pub proof fn lemma_subst_twice(a: Term, m0: Map<u32, Term>, m: Map<u32, Term>)
    requires
        binds_ground(m0),
        extends(m, m0),
    ensures
        a.subst(m0).subst(m) == a.subst(m),
    decreases a,
{
    match a {
        Term::Tuple(xs) => {
            lemma_subst_tuple(xs, m0);
            lemma_subst_tuple(xs, m);
            lemma_subst_tuple(subst_all(xs, m0), m);
            assert forall|j: int| 0 <= j < xs.len() implies xs[j].subst(m0).subst(m) == xs[j].subst(
                m,
            ) by {
                lemma_subst_twice(xs[j], m0, m);
            }
            assert(subst_all(subst_all(xs, m0), m) =~= subst_all(xs, m));
        },
        Term::Id(_) => {},
        Term::Var(v) => {
            if m0.contains_key(v) {
                lemma_subst_ground(m0[v], m);
            }
        },
    }
}

/// Against ground facts, the substitution under which the first `n`
/// antecedents match binds to ground terms and makes each of those
/// antecedents equal to its fact.
pub proof fn lemma_match_upto_sound(ants: Seq<Term>, facts: Seq<Term>, n: nat)
    requires
        n <= ants.len(),
        ants.len() == facts.len(),
        all_ground(facts),
        match_upto(ants, facts, n) is Some,
    ensures
        binds_ground(match_upto(ants, facts, n)->Some_0),
        forall|i: int|
            0 <= i < n ==> (#[trigger] ants[i]).subst(match_upto(ants, facts, n)->Some_0)
                == facts[i],
    decreases n,
{
    if n > 0 {
        let s0 = match_upto(ants, facts, (n - 1) as nat)->Some_0;
        let s = match_upto(ants, facts, n)->Some_0;
        let a = ants[n - 1];
        let f = facts[n - 1];
        let bs = bindings(a.subst(s0), f)->Some_0;
        lemma_match_upto_sound(ants, facts, (n - 1) as nat);
        lemma_match_ground(a.subst(s0), f, s);
        lemma_absorb_holds(s0, bs);
        lemma_subst_twice(a, s0, s);
        assert forall|i: int| 0 <= i < n implies (#[trigger] ants[i]).subst(s) == facts[i] by {
            if i < n - 1 {
                lemma_subst_twice(ants[i], s0, s);
                lemma_subst_ground(facts[i], s);
            }
        }
    }
}

/// A variable of the first `n` terms of `xs` is a variable of one of them,
/// and the other way round.
pub proof fn lemma_vars_upto_contains(xs: Seq<Term>, n: nat, v: u32)
    requires
        n <= xs.len(),
    ensures
        vars_upto(xs, n).contains(v) <==> exists|j: int|
            0 <= j < n && (#[trigger] xs[j]).contains_var(v),
    decreases n,
{
    if n > 0 {
        lemma_vars_upto_contains(xs, (n - 1) as nat, v);
        let p = vars_upto(xs, (n - 1) as nat);
        let q = xs[n - 1].vars();
        if (p + q).contains(v) {
            let k = choose|k: int| 0 <= k < (p + q).len() && (p + q)[k] == v;
            if k < p.len() {
                assert(p[k] == v);
            } else {
                assert(q[k - p.len()] == v);
                assert(xs[n - 1].contains_var(v));
            }
        }
        if p.contains(v) {
            let k = choose|k: int| 0 <= k < p.len() && p[k] == v;
            assert((p + q)[k] == v);
        }
        if q.contains(v) {
            let k = choose|k: int| 0 <= k < q.len() && q[k] == v;
            assert((p + q)[k + p.len()] == v);
        }
    }
}

/// Terms that are all ground hold no variable between them.
pub proof fn lemma_ground_tuple(xs: Seq<Term>, n: nat)
    requires
        n <= xs.len(),
        all_ground(xs),
    ensures
        vars_upto(xs, n).len() == 0,
    decreases n,
{
    if n > 0 {
        lemma_ground_tuple(xs, (n - 1) as nat);
        assert(ground(xs[n - 1]));
    }
}

/// A substitution that makes a term ground binds every variable of it.
pub proof fn lemma_subst_covers(t: Term, m: Map<u32, Term>, v: u32)
    requires
        ground(t.subst(m)),
        t.contains_var(v),
    ensures
        m.contains_key(v),
    decreases t,
{
    match t {
        Term::Tuple(xs) => {
            lemma_subst_tuple(xs, m);
            lemma_ground_elements(subst_all(xs, m), xs.len());
            lemma_vars_upto_contains(xs, xs.len(), v);
            let j = choose|j: int| 0 <= j < xs.len() && (#[trigger] xs[j]).contains_var(v);
            assert(ground(subst_all(xs, m)[j]));
            lemma_subst_covers(xs[j], m, v);
        },
        Term::Id(_) => {},
        Term::Var(w) => {
            assert(t.vars() =~= seq![w]);
        },
    }
}

/// A substitution that binds every variable of a term to a ground term
/// makes the term ground.
pub proof fn lemma_subst_grounds(t: Term, m: Map<u32, Term>)
    requires
        binds_ground(m),
        forall|v: u32| t.contains_var(v) ==> m.contains_key(v),
    ensures
        ground(t.subst(m)),
    decreases t,
{
    match t {
        Term::Tuple(xs) => {
            lemma_subst_tuple(xs, m);
            let ys = subst_all(xs, m);
            assert forall|j: int| 0 <= j < ys.len() implies ground(#[trigger] ys[j]) by {
                assert forall|v: u32| xs[j].contains_var(v) implies m.contains_key(v) by {
                    lemma_vars_upto_contains(xs, xs.len(), v);
                    assert(t.contains_var(v));
                }
                lemma_subst_grounds(xs[j], m);
            }
            lemma_ground_tuple(ys, ys.len());
            assert(t.subst(m) == Term::Tuple(ys));
            assert(Term::Tuple(ys).vars() == vars_upto(ys, ys.len()));
            assert(ground(t.subst(m)));
        },
        Term::Id(_) => {},
        Term::Var(w) => {
            assert(t.vars() =~= seq![w]);
            assert(t.vars()[0] == w);
            assert(t.contains_var(w));
            assert(ground(m[w]));
        },
    }
}

/// Ground facts give ground facts: where every variable of the rule's
/// consequent occurs in one of its antecedents, what the rule derives from
/// ground facts is ground.
pub proof fn lemma_derive_ground(facts: Seq<Term>, i: int, combo: Seq<usize>, start: nat)
    requires
        0 <= i < facts.len(),
        all_ground(picked(facts, combo)),
        yields(facts, i, combo, start) is Some,
        ({
            let r0 = as_rule_spec(facts[i])->Some_0;
            let r = r0.rename(fresh(r0.vars(), start).0);
            forall|v: u32|
                r.consequent.contains_var(v) ==> exists|j: int|
                    0 <= j < r.antecedents.len() && (#[trigger] r.antecedents[j]).contains_var(v)
        }),
    ensures
        ground(yields(facts, i, combo, start)->Some_0),
{
    let r0 = as_rule_spec(facts[i])->Some_0;
    let r = r0.rename(fresh(r0.vars(), start).0);
    let s = match_all(r.antecedents, picked(facts, combo))->Some_0;
    lemma_derive_sound(facts, i, combo, start);
    lemma_match_upto_sound(r.antecedents, picked(facts, combo), r.antecedents.len());
    assert forall|v: u32| r.consequent.contains_var(v) implies s.contains_key(v) by {
        let j = choose|j: int|
            0 <= j < r.antecedents.len() && (#[trigger] r.antecedents[j]).contains_var(v);
        assert(r.antecedents[j].subst(s) == picked(facts, combo)[j]);
        lemma_subst_covers(r.antecedents[j], s, v);
    }
    lemma_subst_grounds(r.consequent, s);
}

/// A derivation from ground facts is sound: the fact derived is the
/// consequent of the rule under a substitution that makes every antecedent
/// of the rule equal to the fact picked for it.
pub proof fn lemma_derive_sound(facts: Seq<Term>, i: int, combo: Seq<usize>, start: nat)
    requires
        0 <= i < facts.len(),
        all_ground(picked(facts, combo)),
        yields(facts, i, combo, start) is Some,
    ensures
        ({
            let r0 = as_rule_spec(facts[i])->Some_0;
            let r = r0.rename(fresh(r0.vars(), start).0);
            let s = match_all(r.antecedents, picked(facts, combo))->Some_0;
            &&& as_rule_spec(facts[i]) is Some
            &&& r.antecedents.len() == combo.len()
            &&& yields(facts, i, combo, start) == Some(r.consequent.subst(s))
            &&& forall|j: int|
                0 <= j < combo.len() ==> (#[trigger] r.antecedents[j]).subst(s)
                    == facts[combo[j] as int]
        }),
{
    let r0 = as_rule_spec(facts[i])->Some_0;
    let r = r0.rename(fresh(r0.vars(), start).0);
    lemma_match_upto_sound(r.antecedents, picked(facts, combo), r.antecedents.len());
}

} // verus!
