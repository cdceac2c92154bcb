//! The order of terms: tuples before constants before variables, tuples in
//! dictionary order of their elements, constants in dictionary order of
//! their characters, variables by number.

use crate::atom::{lemma_view_tuple, views, Atom, Term};
use crate::rule::Rule;
use vstd::prelude::*;

verus! {

/// From position `i` on, `s` comes before `t` in dictionary order.
pub open spec fn chars_before(s: Seq<char>, t: Seq<char>, i: nat) -> bool
    decreases s.len() - i,
{
    if i >= s.len() {
        i < t.len()
    } else if i >= t.len() {
        false
    } else if s[i as int] != t[i as int] {
        (s[i as int] as int) < (t[i as int] as int)
    } else {
        chars_before(s, t, i + 1)
    }
}

/// `a` comes before `b` in the order of terms.
pub open spec fn before(a: Term, b: Term) -> bool
    decreases a, 0nat,
{
    match a {
        Term::Tuple(xs) => match b {
            Term::Tuple(ys) => tuple_before(xs, ys, 0),
            _ => true,
        },
        Term::Id(s) => match b {
            Term::Tuple(_) => false,
            Term::Id(t) => chars_before(s, t, 0),
            Term::Var(_) => true,
        },
        Term::Var(x) => match b {
            Term::Var(y) => x < y,
            _ => false,
        },
    }
}

/// From position `i` on, the tuple `xs` comes before the tuple `ys` in
/// dictionary order.
pub open spec fn tuple_before(xs: Seq<Term>, ys: Seq<Term>, i: nat) -> bool
    decreases xs, xs.len() - i,
{
    if i >= xs.len() {
        i < ys.len()
    } else if i >= ys.len() {
        false
    } else if xs[i as int] == ys[i as int] {
        tuple_before(xs, ys, i + 1)
    } else {
        before(xs[i as int], ys[i as int])
    }
}

/// Of two different texts that agree up to position `i`, one comes before
/// the other.
pub proof fn lemma_chars_total(s: Seq<char>, t: Seq<char>, i: nat)
    requires
        i <= s.len(),
        i <= t.len(),
        s.take(i as int) == t.take(i as int),
    ensures
        chars_before(s, t, i) || s == t || chars_before(t, s, i),
    decreases s.len() - i,
{
    if i >= s.len() || i >= t.len() {
        if i >= s.len() && i >= t.len() {
            assert(s.take(i as int) =~= s);
            assert(t.take(i as int) =~= t);
        }
    } else if s[i as int] == t[i as int] {
        assert(s.take((i + 1) as int) =~= s.take(i as int).push(s[i as int]));
        assert(t.take((i + 1) as int) =~= t.take(i as int).push(t[i as int]));
        lemma_chars_total(s, t, i + 1);
    } else {
        assert(s[i as int] as int != t[i as int] as int);
    }
}

/// Of two different terms, one comes before the other.
pub proof fn lemma_before_total(a: Term, b: Term)
    ensures
        before(a, b) || a == b || before(b, a),
    decreases a, 0nat,
{
    match a {
        Term::Tuple(xs) => match b {
            Term::Tuple(ys) => {
                assert(xs.take(0) =~= ys.take(0));
                lemma_tuple_total(xs, ys, 0);
            },
            _ => {},
        },
        Term::Id(s) => match b {
            Term::Id(t) => {
                assert(s.take(0) =~= t.take(0));
                lemma_chars_total(s, t, 0);
            },
            _ => {},
        },
        Term::Var(_) => {},
    }
}

/// Of two different tuples that agree up to position `i`, one comes before
/// the other.
pub proof fn lemma_tuple_total(xs: Seq<Term>, ys: Seq<Term>, i: nat)
    requires
        i <= xs.len(),
        i <= ys.len(),
        xs.take(i as int) == ys.take(i as int),
    ensures
        tuple_before(xs, ys, i) || xs == ys || tuple_before(ys, xs, i),
    decreases xs, xs.len() - i,
{
    if i >= xs.len() || i >= ys.len() {
        if i >= xs.len() && i >= ys.len() {
            assert(xs.take(i as int) =~= xs);
            assert(ys.take(i as int) =~= ys);
        }
    } else if xs[i as int] == ys[i as int] {
        assert(xs.take((i + 1) as int) =~= xs.take(i as int).push(xs[i as int]));
        assert(ys.take((i + 1) as int) =~= ys.take(i as int).push(ys[i as int]));
        lemma_tuple_total(xs, ys, i + 1);
    } else {
        lemma_before_total(xs[i as int], ys[i as int]);
    }
}

/// No text comes before itself.
pub proof fn lemma_chars_irreflexive(s: Seq<char>, i: nat)
    ensures
        !chars_before(s, s, i),
    decreases s.len() - i,
{
    if i < s.len() {
        lemma_chars_irreflexive(s, i + 1);
    }
}

/// No term comes before itself.
pub proof fn lemma_before_irreflexive(a: Term)
    ensures
        !before(a, a),
    decreases a, 0nat,
{
    match a {
        Term::Tuple(xs) => {
            lemma_tuple_irreflexive(xs, 0);
        },
        Term::Id(s) => {
            lemma_chars_irreflexive(s, 0);
        },
        Term::Var(_) => {},
    }
}

/// No tuple comes before itself.
pub proof fn lemma_tuple_irreflexive(xs: Seq<Term>, i: nat)
    ensures
        !tuple_before(xs, xs, i),
    decreases xs, xs.len() - i,
{
    if i < xs.len() {
        lemma_tuple_irreflexive(xs, i + 1);
    }
}

/// The order of texts goes on: before and before again is before.
pub proof fn lemma_chars_transitive(s: Seq<char>, t: Seq<char>, u: Seq<char>, i: nat)
    requires
        chars_before(s, t, i),
        chars_before(t, u, i),
    ensures
        chars_before(s, u, i),
    decreases s.len() - i,
{
    if i < s.len() && i < t.len() && i < u.len() {
        if s[i as int] == t[i as int] && t[i as int] == u[i as int] {
            lemma_chars_transitive(s, t, u, i + 1);
        }
    }
}

/// The order of terms goes on: before and before again is before.
pub proof fn lemma_before_transitive(a: Term, b: Term, c: Term)
    requires
        before(a, b),
        before(b, c),
    ensures
        before(a, c),
    decreases a, 0nat,
{
    match a {
        Term::Tuple(xs) => match b {
            Term::Tuple(ys) => match c {
                Term::Tuple(zs) => {
                    lemma_tuple_transitive(xs, ys, zs, 0);
                },
                _ => {},
            },
            _ => {},
        },
        Term::Id(s) => match b {
            Term::Id(t) => match c {
                Term::Id(u) => {
                    lemma_chars_transitive(s, t, u, 0);
                },
                _ => {},
            },
            _ => {},
        },
        Term::Var(_) => {},
    }
}

/// The order of tuples goes on: before and before again is before.
pub proof fn lemma_tuple_transitive(xs: Seq<Term>, ys: Seq<Term>, zs: Seq<Term>, i: nat)
    requires
        tuple_before(xs, ys, i),
        tuple_before(ys, zs, i),
    ensures
        tuple_before(xs, zs, i),
    decreases xs, xs.len() - i,
{
    if i < xs.len() && i < ys.len() && i < zs.len() {
        let x = xs[i as int];
        let y = ys[i as int];
        let z = zs[i as int];
        if x == y && y == z {
            lemma_tuple_transitive(xs, ys, zs, i + 1);
        } else if x != y && y != z {
            lemma_before_transitive(x, y, z);
            if x == z {
                lemma_before_transitive(x, y, x);
                lemma_before_irreflexive(x);
            }
        }
    }
}

/// Terms in rising order are all different, and each comes before all that
/// follow it.
pub proof fn lemma_rising_distinct(ts: Seq<Term>, i: int, j: int)
    requires
        rising(ts),
        0 <= i < j < ts.len(),
    ensures
        before(ts[i], ts[j]),
        ts[i] != ts[j],
    decreases j - i,
{
    if i + 1 < j {
        lemma_rising_distinct(ts, i, j - 1);
        assert(before(ts[j - 1], ts[j - 1 + 1]));
        lemma_before_transitive(ts[i], ts[j - 1], ts[j]);
    } else {
        assert(before(ts[i], ts[i + 1]));
    }
    lemma_before_irreflexive(ts[i]);
}

/// The terms stand in rising order, each before the next.
pub open spec fn rising(ts: Seq<Term>) -> bool {
    forall|i: int| 0 <= i < ts.len() - 1 ==> before(#[trigger] ts[i], ts[i + 1])
}

/// Whether the text `s` comes before the text `t` in dictionary order.
fn text_precedes(s: &String, t: &String) -> (r: bool)
    ensures
        r == chars_before(s@, t@, 0),
{
    let n = s.as_str().unicode_len();
    let m = t.as_str().unicode_len();
    let mut i: usize = 0;
    while i < n && i < m
        invariant
            i <= n,
            i <= m,
            n == s@.len(),
            m == t@.len(),
            chars_before(s@, t@, 0) == chars_before(s@, t@, i as nat),
        decreases n - i,
    {
        let a = s.as_str().get_char(i);
        let b = t.as_str().get_char(i);
        if a != b {
            return (a as u32) < (b as u32);
        }
        i += 1;
    }
    i < m
}

impl Atom {
    /// Whether the term comes before `other` in the order of terms.
    pub fn precedes(&self, other: &Atom) -> (r: bool)
        ensures
            r == before(self@, other@),
        decreases self,
    {
        match self {
            Atom::Tuple(xs) => match other {
                Atom::Tuple(ys) => {
                    proof {
                        lemma_view_tuple(*xs);
                        lemma_view_tuple(*ys);
                    }
                    let ghost tx = views(xs@);
                    let ghost ty = views(ys@);
                    let mut i: usize = 0;
                    while i < xs.len() && i < ys.len()
                        invariant
                            i <= xs.len(),
                            i <= ys.len(),
                            self is Tuple,
                            *xs == self->Tuple_0,
                            tx == views(xs@),
                            ty == views(ys@),
                            before(self@, other@) == tuple_before(tx, ty, i as nat),
                        decreases xs.len() - i,
                    {
                        assert(decreases_to!(self => self->Tuple_0));
                        assert(decreases_to!(*xs => xs[i as int]));
                        if !xs[i].same(&ys[i]) {
                            return xs[i].precedes(&ys[i]);
                        }
                        i += 1;
                    }
                    i < ys.len()
                },
                _ => true,
            },
            Atom::Id(s) => match other {
                Atom::Tuple(_) => false,
                Atom::Id(t) => text_precedes(s, t),
                Atom::Var(_) => true,
            },
            Atom::Var(x) => match other {
                Atom::Var(y) => *x < *y,
                _ => false,
            },
        }
    }
}

impl Rule {
    /// Makes a set of the antecedents: puts them in rising order and keeps
    /// one of each. The consequent stays.
    pub fn normalize_antecedent_set(&mut self)
        ensures
            final(self)@.consequent == old(self)@.consequent,
            rising(final(self)@.antecedents),
            forall|t: Term|
                final(self)@.antecedents.contains(t) <==> old(self)@.antecedents.contains(t),
    {
        let ghost all = views(self.antecedents@);
        let mut out: Vec<Atom> = Vec::new();
        let mut k: usize = 0;
        while k < self.antecedents.len()
            invariant
                k <= self.antecedents.len(),
                all == views(self.antecedents@),
                self.consequent@ == old(self).consequent@,
                all == old(self)@.antecedents,
                rising(views(out@)),
                forall|t: Term| views(out@).contains(t) <==> all.take(k as int).contains(t),
            decreases self.antecedents.len() - k,
        {
            let x = &self.antecedents[k];
            let ghost sorted = views(out@);
            let mut p: usize = 0;
            while p < out.len() && out[p].precedes(x)
                invariant
                    p <= out.len(),
                    sorted == views(out@),
                    forall|j: int| 0 <= j < p ==> before(#[trigger] sorted[j], x@),
                decreases out.len() - p,
            {
                p += 1;
            }
            let known = p < out.len() && out[p].same(x);
            proof {
                let s0 = all.take(k as int);
                let s1 = all.take(k + 1);
                assert(s1 =~= s0.push(x@));
                assert forall|t: Term| s1.contains(t) <==> s0.contains(t) || t == x@ by {
                    if s0.contains(t) {
                        let j = choose|j: int| 0 <= j < s0.len() && s0[j] == t;
                        assert(s1[j] == t);
                    }
                    if t == x@ {
                        assert(s1[k as int] == t);
                    }
                }
            }
            if known {
                assert(sorted[p as int] == x@);
            } else {
                let own = x.duplicate();
                out.insert(p, own);
                proof {
                    let grown = views(out@);
                    assert(grown =~= sorted.insert(p as int, x@));
                    if p < sorted.len() {
                        lemma_before_total(sorted[p as int], x@);
                    }
                    assert forall|i: int| 0 <= i < grown.len() - 1 implies before(
                        #[trigger] grown[i],
                        grown[i + 1],
                    ) by {
                        if i < p - 1 {
                            assert(before(sorted[i], sorted[i + 1]));
                        } else if i == p - 1 {
                            assert(before(sorted[i], x@));
                        } else if i == p {
                        } else {
                            assert(before(sorted[i - 1], sorted[i]));
                        }
                    }
                    assert forall|t: Term| grown.contains(t) <==> sorted.contains(t) || t == x@ by {
                        if sorted.contains(t) {
                            let j = choose|j: int| 0 <= j < sorted.len() && sorted[j] == t;
                            if j < p {
                                assert(grown[j] == t);
                            } else {
                                assert(grown[j + 1] == t);
                            }
                        }
                        if t == x@ {
                            assert(grown[p as int] == t);
                        }
                        if grown.contains(t) {
                            let j = choose|j: int| 0 <= j < grown.len() && grown[j] == t;
                            if j < p {
                                assert(sorted[j] == t);
                            } else if j > p {
                                assert(sorted[j - 1] == t);
                            }
                        }
                    }
                }
            }
            k += 1;
        }
        assert(all.take(k as int) =~= all);
        self.antecedents = out;
    }
}

} // verus!
