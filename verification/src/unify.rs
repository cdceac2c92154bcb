//! Pairwise unification with occurs-check.

use crate::atom::{bound, lemma_view_tuple, ref_views, vars_upto, views, Atom, Term};
use std::collections::HashMap;
use vstd::prelude::*;

verus! {

broadcast use vstd::std_specs::hash::group_hash_axioms;

/// The bindings that matching `a` against `b` asks for, position by position
/// from left to right, or `None` where the two cannot match at all: two
/// different constants, a constant against a tuple, tuples of different
/// lengths, or a variable against a term that holds it.
pub open spec fn bindings(a: Term, b: Term) -> Option<Seq<(u32, Term)>>
    decreases a, 0nat,
{
    match a {
        Term::Var(v) => {
            if b == a {
                Some(Seq::empty())
            } else if b.contains_var(v) {
                None
            } else {
                Some(seq![(v, b)])
            }
        },
        Term::Id(x) => match b {
            Term::Var(w) => Some(seq![(w, a)]),
            Term::Id(y) => if x == y {
                Some(Seq::empty())
            } else {
                None
            },
            Term::Tuple(_) => None,
        },
        Term::Tuple(xs) => match b {
            Term::Var(w) => if a.contains_var(w) {
                None
            } else {
                Some(seq![(w, a)])
            },
            Term::Id(_) => None,
            Term::Tuple(ys) => if xs.len() != ys.len() {
                None
            } else {
                bindings_upto(xs, ys, xs.len())
            },
        },
    }
}

/// The bindings asked for by the first `n` positions of two tuples.
pub open spec fn bindings_upto(xs: Seq<Term>, ys: Seq<Term>, n: nat) -> Option<Seq<(u32, Term)>>
    decreases xs, n,
{
    if n == 0 || n > xs.len() || n > ys.len() {
        Some(Seq::empty())
    } else {
        match bindings_upto(xs, ys, (n - 1) as nat) {
            None => None,
            Some(p) => match bindings(xs[n - 1], ys[n - 1]) {
                None => None,
                Some(q) => Some(p + q),
            },
        }
    }
}

/// Adds the bindings `bs` to the substitution `m` one by one. A variable is
/// bound at most once: binding it again to a different term fails.
pub open spec fn absorb(m: Map<u32, Term>, bs: Seq<(u32, Term)>) -> Option<Map<u32, Term>>
    decreases bs.len(),
{
    if bs.len() == 0 {
        Some(m)
    } else {
        match absorb(m, bs.drop_last()) {
            None => None,
            Some(m1) => {
                let (v, t) = bs.last();
                if m1.contains_key(v) && m1[v] != t {
                    None
                } else {
                    Some(m1.insert(v, t))
                }
            },
        }
    }
}

/// The substitution that unifying `a` with `b` gives, or `None` where they
/// do not unify.
pub open spec fn unify_spec(a: Term, b: Term) -> Option<Map<u32, Term>> {
    match bindings(a, b) {
        None => None,
        Some(bs) => absorb(Map::empty(), bs),
    }
}

/// The substitution under which the first `n` antecedents match the first
/// `n` picked facts, pair after pair: each antecedent is taken under the
/// bindings made so far, matched against its fact, and the new bindings are
/// added. `None` where some pair does not match or two bindings conflict.
pub open spec fn match_upto(ants: Seq<Term>, picked: Seq<Term>, n: nat) -> Option<Map<u32, Term>>
    decreases n,
{
    if n == 0 || n > ants.len() || n > picked.len() {
        Some(Map::empty())
    } else {
        match match_upto(ants, picked, (n - 1) as nat) {
            None => None,
            Some(s) => match bindings(ants[n - 1].subst(s), picked[n - 1]) {
                None => None,
                Some(bs) => absorb(s, bs),
            },
        }
    }
}

/// The substitution under which all the antecedents match the picked facts
/// together, one fact for each antecedent.
pub open spec fn match_all(ants: Seq<Term>, picked: Seq<Term>) -> Option<Map<u32, Term>> {
    if ants.len() != picked.len() {
        None
    } else {
        match_upto(ants, picked, ants.len())
    }
}

/// Once the first pairs do not match together, no more of them do.
pub proof fn lemma_match_upto_none(ants: Seq<Term>, picked: Seq<Term>, i: nat, n: nat)
    requires
        i <= n <= ants.len(),
        ants.len() == picked.len(),
        match_upto(ants, picked, i) is None,
    ensures
        match_upto(ants, picked, n) is None,
    decreases n,
{
    if i < n {
        lemma_match_upto_none(ants, picked, i, (n - 1) as nat);
    }
}

/// Absorbing `p + q` is absorbing `p` and then `q`.
pub proof fn lemma_absorb_concat(m: Map<u32, Term>, p: Seq<(u32, Term)>, q: Seq<(u32, Term)>)
    ensures
        absorb(m, p + q) == match absorb(m, p) {
            None => None,
            Some(m1) => absorb(m1, q),
        },
    decreases q.len(),
{
    if q.len() == 0 {
        assert(p + q =~= p);
    } else {
        assert((p + q).drop_last() =~= p + q.drop_last());
        assert((p + q).last() == q.last());
        lemma_absorb_concat(m, p, q.drop_last());
    }
}

/// Once some positions of two tuples cannot match, the tuples cannot.
pub proof fn lemma_bindings_upto_none(xs: Seq<Term>, ys: Seq<Term>, i: nat, n: nat)
    requires
        i <= n <= xs.len(),
        xs.len() == ys.len(),
        bindings_upto(xs, ys, i) is None,
    ensures
        bindings_upto(xs, ys, n) is None,
    decreases n,
{
    if i < n {
        lemma_bindings_upto_none(xs, ys, i, (n - 1) as nat);
    }
}

/// The bindings of the first `i` positions open those of the first `n`.
pub proof fn lemma_bindings_upto_prefix(xs: Seq<Term>, ys: Seq<Term>, i: nat, n: nat)
    requires
        i <= n <= xs.len(),
        xs.len() == ys.len(),
        bindings_upto(xs, ys, n) is Some,
    ensures
        bindings_upto(xs, ys, i) is Some,
        bindings_upto(xs, ys, i)->Some_0.is_prefix_of(bindings_upto(xs, ys, n)->Some_0),
    decreases n,
{
    if i < n {
        lemma_bindings_upto_prefix(xs, ys, i, (n - 1) as nat);
    }
}

/// A conflict among the first bindings is a conflict of the whole list.
pub proof fn lemma_absorb_prefix_none(m: Map<u32, Term>, p: Seq<(u32, Term)>, all: Seq<(u32, Term)>)
    requires
        p.is_prefix_of(all),
        absorb(m, p) is None,
    ensures
        absorb(m, all) is None,
    decreases all.len(),
{
    if all.len() == p.len() {
        assert(all =~= p);
    } else {
        assert(p.is_prefix_of(all.drop_last()));
        lemma_absorb_prefix_none(m, p, all.drop_last());
    }
}

/// Matching a term against itself asks for no binding.
pub proof fn lemma_bindings_reflexive(a: Term)
    ensures
        bindings(a, a) == Some(Seq::<(u32, Term)>::empty()),
    decreases a, 0nat,
{
    match a {
        Term::Tuple(xs) => {
            lemma_bindings_upto_reflexive(xs, xs.len());
        },
        _ => {},
    }
}

/// Matching the first `n` elements of a tuple against themselves asks for
/// no binding.
pub proof fn lemma_bindings_upto_reflexive(xs: Seq<Term>, n: nat)
    requires
        n <= xs.len(),
    ensures
        bindings_upto(xs, xs, n) == Some(Seq::<(u32, Term)>::empty()),
    decreases xs, n,
{
    if n > 0 {
        lemma_bindings_upto_reflexive(xs, (n - 1) as nat);
        lemma_bindings_reflexive(xs[n - 1]);
        assert(Seq::<(u32, Term)>::empty() + Seq::<(u32, Term)>::empty() =~= Seq::<
            (u32, Term),
        >::empty());
    }
}

/// Every term unifies with itself under the empty substitution; a ground
/// term in particular.
pub proof fn lemma_unify_reflexive(a: Term)
    ensures
        unify_spec(a, a) == Some(Map::<u32, Term>::empty()),
{
    lemma_bindings_reflexive(a);
}

/// A variable does not unify with the tuple of itself alone, on either side.
pub proof fn lemma_occurs_check(v: u32)
    ensures
        unify_spec(Term::Var(v), Term::Tuple(seq![Term::Var(v)])) is None,
        unify_spec(Term::Tuple(seq![Term::Var(v)]), Term::Var(v)) is None,
{
    let me = Term::Var(v);
    let alone = Term::Tuple(seq![me]);
    assert(vars_upto(seq![me], 1) =~= seq![v]) by {
        assert(vars_upto(seq![me], 0) =~= Seq::<u32>::empty());
        assert(me.vars() =~= seq![v]);
    }
    assert(alone.vars()[0] == v);
    lemma_occurs_check_any(v, alone);
}

/// A variable does not unify with another term that holds it, on either
/// side.
pub proof fn lemma_occurs_check_any(v: u32, t: Term)
    requires
        t.contains_var(v),
        t != Term::Var(v),
    ensures
        unify_spec(Term::Var(v), t) is None,
        unify_spec(t, Term::Var(v)) is None,
{
    match t {
        Term::Var(w) => {
            assert(t.vars() =~= seq![w]);
        },
        Term::Id(_) => {
            assert(t.vars() =~= Seq::<u32>::empty());
        },
        Term::Tuple(_) => {},
    }
}

/// No two different variables stand against each other where `a` is laid
/// over `b`.
pub open spec fn aligned(a: Term, b: Term) -> bool
    decreases a,
{
    match a {
        Term::Var(x) => match b {
            Term::Var(y) => x == y,
            _ => true,
        },
        Term::Id(_) => true,
        Term::Tuple(xs) => match b {
            Term::Tuple(ys) => xs.len() == ys.len() ==> forall|i: int|
                0 <= i < xs.len() ==> aligned(xs[i], #[trigger] ys[i]),
            _ => true,
        },
    }
}

/// Whether two terms match at all does not depend on the side.
pub proof fn lemma_match_symmetric(a: Term, b: Term)
    ensures
        bindings(a, b) is Some <==> bindings(b, a) is Some,
        aligned(a, b) ==> bindings(a, b) == bindings(b, a),
    decreases a, 0nat,
{
    match a {
        Term::Var(v) => match b {
            Term::Var(w) => {
                assert(a.vars() =~= seq![v]);
                assert(b.vars() =~= seq![w]);
                if v != w {
                    assert(!b.contains_var(v));
                    assert(!a.contains_var(w));
                }
            },
            Term::Id(_) => {
                assert(b.vars() =~= Seq::<u32>::empty());
            },
            Term::Tuple(_) => {},
        },
        Term::Id(_) => match b {
            Term::Var(w) => {
                assert(a.vars() =~= Seq::<u32>::empty());
            },
            _ => {},
        },
        Term::Tuple(xs) => match b {
            Term::Tuple(ys) => {
                if xs.len() == ys.len() {
                    lemma_match_upto_symmetric(xs, ys, xs.len());
                }
            },
            _ => {},
        },
    }
}

/// Whether the first `n` elements of two tuples match does not depend on
/// the side.
pub proof fn lemma_match_upto_symmetric(xs: Seq<Term>, ys: Seq<Term>, n: nat)
    requires
        n <= xs.len(),
        xs.len() == ys.len(),
    ensures
        bindings_upto(xs, ys, n) is Some <==> bindings_upto(ys, xs, n) is Some,
        (forall|i: int| 0 <= i < n ==> aligned(xs[i], #[trigger] ys[i])) ==> bindings_upto(
            xs,
            ys,
            n,
        ) == bindings_upto(ys, xs, n),
    decreases xs, n,
{
    if n > 0 {
        lemma_match_upto_symmetric(xs, ys, (n - 1) as nat);
        lemma_match_symmetric(xs[n - 1], ys[n - 1]);
    }
}

/// Unification is symmetric: where no two different variables stand
/// against each other, `a` with `b` and `b` with `a` give the same result.
/// Whether the two match at all is the same on both sides in every case.
pub proof fn lemma_unify_symmetric(a: Term, b: Term)
    requires
        aligned(a, b),
    ensures
        unify_spec(a, b) == unify_spec(b, a),
{
    lemma_match_symmetric(a, b);
}

/// Binds `var` to `atom` in `acc`, unless `atom` holds `var` or `var` is
/// already bound to something else.
fn bind(var: u32, atom: &Atom, acc: &mut HashMap<u32, Atom>) -> (ok: bool)
    requires
        atom@ != Term::Var(var),
    ensures
        atom@.contains_var(var) ==> !ok,
        !atom@.contains_var(var) ==> match absorb(bound(old(acc)@), seq![(var, atom@)]) {
            None => !ok,
            Some(m) => ok && bound(final(acc)@) == m,
        },
{
    if atom.contains_var(var) {
        return false;
    }
    let ghost m0 = bound(acc@);
    let ghost bs = seq![(var, atom@)];
    assert(bs.drop_last() =~= Seq::<(u32, Term)>::empty());
    assert(absorb(m0, bs.drop_last()) == Some(m0));
    assert(bs.last() == (var, atom@));
    let clash = match acc.get(&var) {
        Some(prev) => !prev.same(atom),
        None => false,
    };
    if clash {
        return false;
    }
    acc.insert(var, atom.duplicate());
    assert(bound(acc@) =~= m0.insert(var, atom@));
    true
}

/// Matches `a` against `b` and adds the bindings to `acc`.
fn unify_into(a: &Atom, b: &Atom, acc: &mut HashMap<u32, Atom>) -> (ok: bool)
    ensures
        match bindings(a@, b@) {
            None => !ok,
            Some(bs) => match absorb(bound(old(acc)@), bs) {
                None => !ok,
                Some(m) => ok && bound(final(acc)@) == m,
            },
        },
    decreases a,
{
    match a {
        Atom::Var(v) => {
            if a.same(b) {
                true
            } else {
                bind(*v, b, acc)
            }
        },
        Atom::Id(x) => match b {
            Atom::Var(w) => {
                assert(a@.vars() =~= Seq::<u32>::empty());
                bind(*w, a, acc)
            },
            Atom::Id(y) => *x == *y,
            Atom::Tuple(_) => false,
        },
        Atom::Tuple(xs) => match b {
            Atom::Var(w) => bind(*w, a, acc),
            Atom::Id(_) => false,
            Atom::Tuple(ys) => {
                proof {
                    lemma_view_tuple(*xs);
                    lemma_view_tuple(*ys);
                }
                if xs.len() != ys.len() {
                    return false;
                }
                let ghost tx = views(xs@);
                let ghost ty = views(ys@);
                let ghost m0 = bound(acc@);
                let mut i: usize = 0;
                while i < xs.len()
                    invariant
                        i <= xs.len(),
                        xs.len() == ys.len(),
                        a is Tuple,
                        *xs == a->Tuple_0,
                        tx == views(xs@),
                        ty == views(ys@),
                        m0 == bound(old(acc)@),
                        a@ == Term::Tuple(tx),
                        b@ == Term::Tuple(ty),
                        bindings_upto(tx, ty, i as nat) is Some,
                        absorb(m0, bindings_upto(tx, ty, i as nat)->Some_0) == Some(bound(acc@)),
                    decreases xs.len() - i,
                {
                    assert(decreases_to!(a => a->Tuple_0));
                    assert(decreases_to!(*xs => xs[i as int]));
                    let ghost p = bindings_upto(tx, ty, i as nat)->Some_0;
                    let ok = unify_into(&xs[i], &ys[i], acc);
                    proof {
                        let n = xs.len() as nat;
                        let next = bindings_upto(tx, ty, (i + 1) as nat);
                        assert(tx[i as int] == xs@[i as int]@);
                        assert(ty[i as int] == ys@[i as int]@);
                        if next is Some {
                            lemma_absorb_concat(m0, p, bindings(tx[i as int], ty[i as int])->Some_0);
                        }
                        if !ok {
                            if next is None {
                                lemma_bindings_upto_none(tx, ty, (i + 1) as nat, n);
                            } else if bindings_upto(tx, ty, n) is Some {
                                lemma_bindings_upto_prefix(tx, ty, (i + 1) as nat, n);
                                lemma_absorb_prefix_none(
                                    m0,
                                    next->Some_0,
                                    bindings_upto(tx, ty, n)->Some_0,
                                );
                            }
                        }
                    }
                    if !ok {
                        return false;
                    }
                    i += 1;
                }
                true
            },
        },
    }
}

impl Atom {
    /// Unifies the two terms of `atoms`. The result binds each variable that
    /// stands against a term to that term; it is `None` where the two
    /// cannot match, where a variable would be bound to a term that holds
    /// it, and where one variable would be bound to two different terms.
    pub fn unify(atoms: [&Atom; 2]) -> (r: Option<HashMap<u32, Atom>>)
        ensures
            match unify_spec(atoms[0]@, atoms[1]@) {
                None => r is None,
                Some(m) => r is Some && bound(r->Some_0@) == m,
            },
    {
        let mut acc: HashMap<u32, Atom> = HashMap::new();
        assert(bound(acc@) =~= Map::<u32, Term>::empty());
        if unify_into(atoms[0], atoms[1], &mut acc) {
            Some(acc)
        } else {
            None
        }
    }
}

/// Matches each antecedent against the fact picked for it, all under one
/// substitution: a variable shared by two antecedents must get the same term
/// from both facts. Returns that substitution, or `None` where the
/// pairings are not consistent together.
pub fn unify_all(antecedents: &Vec<Atom>, facts: &Vec<&Atom>) -> (r: Option<HashMap<u32, Atom>>)
    ensures
        match match_all(views(antecedents@), ref_views(facts@)) {
            None => r is None,
            Some(m) => r is Some && bound(r->Some_0@) == m,
        },
{
    if antecedents.len() != facts.len() {
        return None;
    }
    let ghost ants = views(antecedents@);
    let ghost picked = ref_views(facts@);
    let mut acc: HashMap<u32, Atom> = HashMap::new();
    assert(bound(acc@) =~= Map::<u32, Term>::empty());
    let mut i: usize = 0;
    while i < antecedents.len()
        invariant
            i <= antecedents.len(),
            antecedents.len() == facts.len(),
            ants == views(antecedents@),
            picked == ref_views(facts@),
            match_upto(ants, picked, i as nat) == Some(bound(acc@)),
        decreases antecedents.len() - i,
    {
        let under = antecedents[i].substitute(&acc);
        let ok = unify_into(&under, facts[i], &mut acc);
        if !ok {
            proof {
                lemma_match_upto_none(ants, picked, (i + 1) as nat, ants.len());
            }
            return None;
        }
        i += 1;
    }
    Some(acc)
}

} // verus!
