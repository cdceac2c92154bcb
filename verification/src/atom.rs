//! The term algebra: compound tuples, constants and logic variables.

use std::collections::HashMap;
use vstd::prelude::*;

verus! {

broadcast use vstd::std_specs::hash::group_hash_axioms;

/// The mathematical value of a term.
pub enum Term {
    Tuple(Seq<Term>),
    Id(Seq<char>),
    Var(u32),
}

/// A term as it is stored: a tuple of terms, a constant or a variable.
#[derive(Debug, Hash)]
pub enum Atom {
    Tuple(Vec<Atom>),
    Id(String),
    Var(u32),
}

impl Term {
    /// The variable numbers that occur in the term, with repetition, in
    /// left-to-right depth-first order.
    pub open spec fn vars(self) -> Seq<u32>
        decreases self, 0nat,
    {
        match self {
            Term::Tuple(xs) => vars_upto(xs, xs.len()),
            Term::Id(_) => Seq::empty(),
            Term::Var(v) => seq![v],
        }
    }

    /// Whether variable `v` occurs anywhere in the term.
    pub open spec fn contains_var(self, v: u32) -> bool {
        self.vars().contains(v)
    }

    /// The term itself followed by the sub-terms of its children, parents
    /// before children and children from left to right.
    pub open spec fn subterms(self) -> Seq<Term>
        decreases self, 0nat,
    {
        match self {
            Term::Tuple(xs) => seq![self] + subterms_upto(xs, xs.len()),
            _ => seq![self],
        }
    }

    /// The term with each variable that `m` binds replaced by what `m`
    /// binds it to. The replacement is done once: what is put in is not
    /// looked through again.
    pub open spec fn subst(self, m: Map<u32, Term>) -> Term
        decreases self, 0nat,
    {
        match self {
            Term::Tuple(xs) => Term::Tuple(subst_upto(xs, xs.len(), m)),
            Term::Id(_) => self,
            Term::Var(v) => if m.contains_key(v) {
                m[v]
            } else {
                self
            },
        }
    }

    /// The term with each variable that `m` maps renamed to what `m` maps
    /// it to.
    pub open spec fn rename(self, m: Map<u32, u32>) -> Term {
        self.subst(var_map(m))
    }
}

/// The first `n` terms of `xs`, each after the substitution `m`.
pub open spec fn subst_upto(xs: Seq<Term>, n: nat, m: Map<u32, Term>) -> Seq<Term>
    decreases xs, n,
{
    if n == 0 || n > xs.len() {
        Seq::empty()
    } else {
        subst_upto(xs, (n - 1) as nat, m).push(xs[n - 1].subst(m))
    }
}

/// The terms of `xs`, each after the substitution `m`.
pub open spec fn subst_all(xs: Seq<Term>, m: Map<u32, Term>) -> Seq<Term> {
    Seq::new(xs.len(), |i: int| xs[i].subst(m))
}

/// A renaming of variables as a substitution.
pub open spec fn var_map(m: Map<u32, u32>) -> Map<u32, Term> {
    Map::new(|v: u32| m.contains_key(v), |v: u32| Term::Var(m[v]))
}

/// The values that a stored substitution binds its variables to.
pub open spec fn bound(m: Map<u32, Atom>) -> Map<u32, Term> {
    Map::new(|v: u32| m.contains_key(v), |v: u32| m[v]@)
}

/// Substitution goes through a tuple element by element.
pub proof fn lemma_subst_tuple(xs: Seq<Term>, m: Map<u32, Term>)
    ensures
        Term::Tuple(xs).subst(m) == Term::Tuple(subst_all(xs, m)),
{
    lemma_subst_upto(xs, xs.len(), m);
    assert(subst_upto(xs, xs.len(), m) =~= subst_all(xs, m));
}

/// `subst_upto` lists the first `n` terms after substitution, in order.
pub proof fn lemma_subst_upto(xs: Seq<Term>, n: nat, m: Map<u32, Term>)
    requires
        n <= xs.len(),
    ensures
        subst_upto(xs, n, m).len() == n,
        forall|j: int| 0 <= j < n ==> subst_upto(xs, n, m)[j] == xs[j].subst(m),
    decreases n,
{
    if n > 0 {
        lemma_subst_upto(xs, (n - 1) as nat, m);
        assert(subst_upto(xs, n, m) == subst_upto(xs, (n - 1) as nat, m).push(xs[n - 1].subst(m)));
    }
}

/// The variables of the first `n` terms of `xs`, one term after the other.
pub open spec fn vars_upto(xs: Seq<Term>, n: nat) -> Seq<u32>
    decreases xs, n,
{
    if n == 0 || n > xs.len() {
        Seq::empty()
    } else {
        vars_upto(xs, (n - 1) as nat) + xs[n - 1].vars()
    }
}

/// The sub-terms of the first `n` terms of `xs`, one term after the other.
pub open spec fn subterms_upto(xs: Seq<Term>, n: nat) -> Seq<Term>
    decreases xs, n,
{
    if n == 0 || n > xs.len() {
        Seq::empty()
    } else {
        subterms_upto(xs, (n - 1) as nat) + xs[n - 1].subterms()
    }
}

/// The values of a sequence of borrowed terms.
pub open spec fn ref_views(atoms: Seq<&Atom>) -> Seq<Term> {
    Seq::new(atoms.len(), |i: int| atoms[i]@)
}

/// A fact is a term held by the knowledge base.
pub type Fact = Atom;

/// The values of the first `n` stored terms of `atoms`.
pub open spec fn views_upto(atoms: Seq<Atom>, n: nat) -> Seq<Term>
    decreases atoms, n,
{
    if n == 0 || n > atoms.len() {
        Seq::empty()
    } else {
        views_upto(atoms, (n - 1) as nat).push(atoms[n - 1].view())
    }
}

impl View for Atom {
    type V = Term;

    open spec fn view(&self) -> Term
        decreases self, 0nat,
    {
        match self {
            Atom::Tuple(args) => Term::Tuple(views_upto(args@, args@.len())),
            Atom::Id(s) => Term::Id(s@),
            Atom::Var(v) => Term::Var(*v),
        }
    }
}

/// The values of a sequence of stored terms.
pub open spec fn views(atoms: Seq<Atom>) -> Seq<Term> {
    Seq::new(atoms.len(), |i: int| atoms[i]@)
}

/// `views_upto` lists the values of the first `n` terms, in order.
pub proof fn lemma_views_upto(atoms: Seq<Atom>, n: nat)
    requires
        n <= atoms.len(),
    ensures
        views_upto(atoms, n).len() == n,
        forall|j: int| 0 <= j < n ==> views_upto(atoms, n)[j] == atoms[j]@,
    decreases n,
{
    if n > 0 {
        lemma_views_upto(atoms, (n - 1) as nat);
        assert(views_upto(atoms, n) == views_upto(atoms, (n - 1) as nat).push(atoms[n - 1]@));
    }
}

/// The value of a tuple is the tuple of its elements' values.
pub proof fn lemma_view_tuple(xs: Vec<Atom>)
    ensures
        Atom::Tuple(xs)@ == Term::Tuple(views(xs@)),
{
    lemma_views_upto(xs@, xs@.len());
    assert(views_upto(xs@, xs@.len()) =~= views(xs@));
}

impl Atom {
    /// Structural equality: same shape, same symbols, same variable numbers.
    pub fn same(&self, other: &Atom) -> (r: bool)
        ensures
            r == (self@ == other@),
        decreases self,
    {
        match self {
            Atom::Id(x) => match other {
                Atom::Id(y) => *x == *y,
                _ => false,
            },
            Atom::Var(x) => match other {
                Atom::Var(y) => *x == *y,
                _ => false,
            },
            Atom::Tuple(xs) => match other {
                Atom::Tuple(ys) => {
                    proof {
                        lemma_view_tuple(*xs);
                        lemma_view_tuple(*ys);
                    }
                    if xs.len() != ys.len() {
                        assert(views(xs@).len() != views(ys@).len());
                        return false;
                    }
                    let mut i: usize = 0;
                    while i < xs.len()
                        invariant
                            i <= xs.len(),
                            xs.len() == ys.len(),
                            self is Tuple,
                            *xs == self->Tuple_0,
                            self@ == Term::Tuple(views(xs@)),
                            other@ == Term::Tuple(views(ys@)),
                            forall|j: int| 0 <= j < i ==> xs@[j]@ == ys@[j]@,
                        decreases xs.len() - i,
                    {
                        assert(decreases_to!(self => self->Tuple_0));
                        assert(decreases_to!(*xs => xs[i as int]));
                        if !xs[i].same(&ys[i]) {
                            assert(views(xs@)[i as int] != views(ys@)[i as int]);
                            return false;
                        }
                        i += 1;
                    }
                    assert(views(xs@) =~= views(ys@));
                    true
                },
                _ => false,
            },
        }
    }

    /// Appends the variables of the term to `out`, in traversal order.
    fn collect_vars(&self, out: &mut Vec<u32>)
        ensures
            final(out)@ == old(out)@ + self@.vars(),
        decreases self,
    {
        match self {
            Atom::Id(_) => {
                assert(old(out)@ + self@.vars() =~= old(out)@);
            },
            Atom::Var(v) => {
                out.push(*v);
                assert(old(out)@ + self@.vars() =~= old(out)@.push(*v));
            },
            Atom::Tuple(xs) => {
                proof {
                    lemma_view_tuple(*xs);
                }
                let ghost ts = views(xs@);
                let mut i: usize = 0;
                assert(old(out)@ + vars_upto(ts, 0) =~= old(out)@);
                while i < xs.len()
                    invariant
                        i <= xs.len(),
                        self is Tuple,
                        *xs == self->Tuple_0,
                        ts == views(xs@),
                        out@ == old(out)@ + vars_upto(ts, i as nat),
                    decreases xs.len() - i,
                {
                    assert(decreases_to!(self => self->Tuple_0));
                    assert(decreases_to!(*xs => xs[i as int]));
                    xs[i].collect_vars(out);
                    assert(old(out)@ + vars_upto(ts, i as nat) + ts[i as int].vars() =~= old(out)@
                        + vars_upto(ts, (i + 1) as nat));
                    i += 1;
                }
            },
        }
    }

    /// Whether variable `var` occurs anywhere in the term.
    pub fn contains_var(&self, var: u32) -> (r: bool)
        ensures
            r == self@.contains_var(var),
    {
        let seen = self.visit_vars();
        let mut i: usize = 0;
        while i < seen.len()
            invariant
                i <= seen.len(),
                seen@ == self@.vars(),
                forall|j: int| 0 <= j < i ==> seen@[j] != var,
            decreases seen.len() - i,
        {
            if seen[i] == var {
                assert(seen@[i as int] == var);
                return true;
            }
            i += 1;
        }
        false
    }

    /// Appends the term and then the sub-terms of its children to `out`.
    fn collect_facts<'a>(&'a self, out: &mut Vec<&'a Atom>)
        ensures
            ref_views(final(out)@) == ref_views(old(out)@) + self@.subterms(),
        decreases self,
    {
        out.push(self);
        assert(ref_views(out@) =~= ref_views(old(out)@) + seq![self@]);
        match self {
            Atom::Tuple(xs) => {
                proof {
                    lemma_view_tuple(*xs);
                }
                let ghost ts = views(xs@);
                let ghost before = ref_views(old(out)@) + seq![self@];
                let mut i: usize = 0;
                assert(before + subterms_upto(ts, 0) =~= before);
                while i < xs.len()
                    invariant
                        i <= xs.len(),
                        self is Tuple,
                        *xs == self->Tuple_0,
                        ts == views(xs@),
                        ref_views(out@) == before + subterms_upto(ts, i as nat),
                    decreases xs.len() - i,
                {
                    assert(decreases_to!(self => self->Tuple_0));
                    assert(decreases_to!(*xs => xs[i as int]));
                    xs[i].collect_facts(out);
                    assert(before + subterms_upto(ts, i as nat) + ts[i as int].subterms() =~= before
                        + subterms_upto(ts, (i + 1) as nat));
                    i += 1;
                }
                assert(before + subterms_upto(ts, ts.len()) =~= ref_views(old(out)@)
                    + self@.subterms());
            },
            _ => {},
        }
    }

    /// The term and every term inside it, parents before children and
    /// children from left to right.
    pub fn visit_facts(&self) -> (r: Vec<&Atom>)
        ensures
            ref_views(r@) == self@.subterms(),
    {
        let mut out: Vec<&Atom> = Vec::new();
        self.collect_facts(&mut out);
        assert(ref_views(Seq::<&Atom>::empty()) + self@.subterms() =~= self@.subterms());
        out
    }

    /// The term with each variable that `subst` binds replaced by a copy of
    /// what it is bound to.
    pub fn substitute(&self, subst: &HashMap<u32, Atom>) -> (r: Atom)
        ensures
            r@ == self@.subst(bound(subst@)),
        decreases self,
    {
        match self {
            Atom::Id(x) => Atom::Id(x.clone()),
            Atom::Var(v) => match subst.get(v) {
                Some(t) => t.duplicate(),
                None => Atom::Var(*v),
            },
            Atom::Tuple(xs) => {
                let ghost m = bound(subst@);
                let mut out: Vec<Atom> = Vec::new();
                let mut i: usize = 0;
                while i < xs.len()
                    invariant
                        i <= xs.len(),
                        self is Tuple,
                        *xs == self->Tuple_0,
                        m == bound(subst@),
                        out@.len() == i,
                        forall|j: int| 0 <= j < i ==> out@[j]@ == xs@[j]@.subst(m),
                    decreases xs.len() - i,
                {
                    assert(decreases_to!(self => self->Tuple_0));
                    assert(decreases_to!(*xs => xs[i as int]));
                    out.push(xs[i].substitute(subst));
                    i += 1;
                }
                proof {
                    lemma_view_tuple(*xs);
                    lemma_view_tuple(out);
                    lemma_subst_tuple(views(xs@), m);
                    assert(views(out@) =~= subst_all(views(xs@), m));
                }
                Atom::Tuple(out)
            },
        }
    }

    /// The term with each variable that `renaming` maps renamed.
    pub fn renamed(&self, renaming: &HashMap<u32, u32>) -> (r: Atom)
        ensures
            r@ == self@.rename(renaming@),
        decreases self,
    {
        match self {
            Atom::Id(x) => Atom::Id(x.clone()),
            Atom::Var(v) => match renaming.get(v) {
                Some(w) => Atom::Var(*w),
                None => Atom::Var(*v),
            },
            Atom::Tuple(xs) => {
                let ghost m = var_map(renaming@);
                let mut out: Vec<Atom> = Vec::new();
                let mut i: usize = 0;
                while i < xs.len()
                    invariant
                        i <= xs.len(),
                        self is Tuple,
                        *xs == self->Tuple_0,
                        m == var_map(renaming@),
                        out@.len() == i,
                        forall|j: int| 0 <= j < i ==> out@[j]@ == xs@[j]@.subst(m),
                    decreases xs.len() - i,
                {
                    assert(decreases_to!(self => self->Tuple_0));
                    assert(decreases_to!(*xs => xs[i as int]));
                    out.push(xs[i].renamed(renaming));
                    i += 1;
                }
                proof {
                    lemma_view_tuple(*xs);
                    lemma_view_tuple(out);
                    lemma_subst_tuple(views(xs@), m);
                    assert(views(out@) =~= subst_all(views(xs@), m));
                }
                Atom::Tuple(out)
            },
        }
    }

    /// A copy with the same value.
    pub fn duplicate(&self) -> (r: Atom)
        ensures
            r@ == self@,
        decreases self,
    {
        match self {
            Atom::Id(x) => Atom::Id(x.clone()),
            Atom::Var(x) => Atom::Var(*x),
            Atom::Tuple(xs) => {
                let mut out: Vec<Atom> = Vec::new();
                let mut i: usize = 0;
                while i < xs.len()
                    invariant
                        i <= xs.len(),
                        self == Atom::Tuple(*xs),
                        out@.len() == i,
                        forall|j: int| 0 <= j < i ==> out@[j]@ == xs@[j]@,
                    decreases xs.len() - i,
                {
                    assert(*xs == self->Tuple_0);
                    assert(decreases_to!(self => self->Tuple_0));
                    assert(decreases_to!(*xs => xs[i as int]));
                    out.push(xs[i].duplicate());
                    i += 1;
                }
                proof {
                    lemma_view_tuple(*xs);
                    lemma_view_tuple(out);
                    assert(views(xs@) =~= views(out@));
                }
                Atom::Tuple(out)
            },
        }
    }
}

impl Clone for Atom {
    fn clone(&self) -> (r: Atom)
        ensures
            r@ == self@,
    {
        self.duplicate()
    }
}

impl PartialEq for Atom {
    fn eq(&self, other: &Atom) -> (r: bool) {
        self.same(other)
    }
}

impl Eq for Atom {

}

impl vstd::std_specs::cmp::PartialEqSpecImpl for Atom {
    open spec fn obeys_eq_spec() -> bool {
        true
    }

    open spec fn eq_spec(&self, other: &Atom) -> bool {
        self@ == other@
    }
}

/// What holds variables that can be listed and renamed: a term, a rule.
pub trait VisitVars {
    /// The variable numbers that occur, with repetition, in traversal order.
    spec fn var_seq(&self) -> Seq<u32>;

    /// `out` is this value with each variable that `m` maps renamed to what
    /// `m` maps it to.
    spec fn renamed_as(&self, m: Map<u32, u32>, out: &Self) -> bool;

    /// Every variable number that occurs, with repetition, in traversal
    /// order.
    fn visit_vars(&self) -> (r: Vec<u32>)
        ensures
            r@ == self.var_seq(),
    ;

    /// Rewrites each variable in place to what `renaming` maps it to; a
    /// variable that `renaming` does not map stays.
    fn visit_vars_mut(&mut self, renaming: &HashMap<u32, u32>)
        ensures
            old(self).renamed_as(renaming@, final(self)),
    ;
}

impl VisitVars for Atom {
    open spec fn var_seq(&self) -> Seq<u32> {
        self@.vars()
    }

    open spec fn renamed_as(&self, m: Map<u32, u32>, out: &Self) -> bool {
        out@ == self@.rename(m)
    }

    fn visit_vars(&self) -> (r: Vec<u32>) {
        let mut out: Vec<u32> = Vec::new();
        self.collect_vars(&mut out);
        assert(Seq::<u32>::empty() + self@.vars() =~= self@.vars());
        out
    }

    fn visit_vars_mut(&mut self, renaming: &HashMap<u32, u32>) {
        let r = self.renamed(renaming);
        *self = r;
    }
}

} // verus!
