//! The written form of terms and rules, as text.

use crate::atom::{lemma_view_tuple, views, Atom, Term};
use crate::rule::{Rule, RuleView};
use vstd::prelude::*;
use vstd::string::StringExecFns;

verus! {

/// The character of the decimal digit `d`.
pub open spec fn digit_char(d: nat) -> char {
    (48 + d) as char
}

/// The decimal digits of `n`, without leading zeros.
pub open spec fn digits(n: nat) -> Seq<char>
    decreases n,
{
    if n < 10 {
        seq![digit_char(n)]
    } else {
        digits(n / 10).push(digit_char(n % 10))
    }
}

/// The text of a term: a variable as its number, a constant as its name, a
/// tuple as its elements in round brackets with a blank between them.
pub open spec fn show(t: Term) -> Seq<char>
    decreases t, 0nat,
{
    match t {
        Term::Var(v) => digits(v as nat),
        Term::Id(s) => s,
        Term::Tuple(xs) => seq!['('] + show_upto(xs, xs.len()) + seq![')'],
    }
}

/// The texts of the first `n` terms of `xs` with a blank between them.
pub open spec fn show_upto(xs: Seq<Term>, n: nat) -> Seq<char>
    decreases xs, n,
{
    if n == 0 || n > xs.len() {
        Seq::empty()
    } else if n == 1 {
        show(xs[0])
    } else {
        show_upto(xs, (n - 1) as nat) + seq![' '] + show(xs[n - 1])
    }
}

/// The texts of the first `n` terms of `xs`, a blank before each.
pub open spec fn show_each(xs: Seq<Term>, n: nat) -> Seq<char>
    decreases n,
{
    if n == 0 || n > xs.len() {
        Seq::empty()
    } else {
        show_each(xs, (n - 1) as nat) + seq![' '] + show(xs[n - 1])
    }
}

/// The text of a rule: the consequent, then ` :-` and the antecedents where
/// there are any, then a full stop.
pub open spec fn show_rule(r: RuleView) -> Seq<char> {
    if r.antecedents.len() == 0 {
        show(r.consequent) + seq!['.']
    } else {
        show(r.consequent) + seq![' ', ':', '-'] + show_each(r.antecedents, r.antecedents.len())
            + seq!['.']
    }
}

/// The text of the decimal digit `d`.
fn digit_text(d: u32) -> (r: &'static str)
    requires
        d < 10,
    ensures
        r@ == seq![digit_char(d as nat)],
{
    proof {
        reveal_strlit("0");
        reveal_strlit("1");
        reveal_strlit("2");
        reveal_strlit("3");
        reveal_strlit("4");
        reveal_strlit("5");
        reveal_strlit("6");
        reveal_strlit("7");
        reveal_strlit("8");
        reveal_strlit("9");
    }
    let r = if d == 0 {
        "0"
    } else if d == 1 {
        "1"
    } else if d == 2 {
        "2"
    } else if d == 3 {
        "3"
    } else if d == 4 {
        "4"
    } else if d == 5 {
        "5"
    } else if d == 6 {
        "6"
    } else if d == 7 {
        "7"
    } else if d == 8 {
        "8"
    } else {
        "9"
    };
    assert(r@ =~= seq![digit_char(d as nat)]);
    r
}

/// Appends the decimal digits of `n` to `out`.
fn write_number(n: u32, out: &mut String)
    ensures
        final(out)@ == old(out)@ + digits(n as nat),
    decreases n,
{
    if n >= 10 {
        write_number(n / 10, out);
    }
    out.append(digit_text(n % 10));
    assert(old(out)@ + digits(n as nat) =~= out@);
}

impl Atom {
    /// Appends the text of the term to `out`.
    fn write(&self, out: &mut String)
        ensures
            final(out)@ == old(out)@ + show(self@),
        decreases self,
    {
        match self {
            Atom::Var(v) => write_number(*v, out),
            Atom::Id(s) => out.append(s.as_str()),
            Atom::Tuple(xs) => {
                proof {
                    lemma_view_tuple(*xs);
                    reveal_strlit("(");
                    reveal_strlit(")");
                    reveal_strlit(" ");
                }
                let ghost ts = views(xs@);
                let ghost before = old(out)@ + seq!['('];
                out.append("(");
                assert(out@ =~= before + show_upto(ts, 0));
                let mut i: usize = 0;
                while i < xs.len()
                    invariant
                        i <= xs.len(),
                        self is Tuple,
                        *xs == self->Tuple_0,
                        ts == views(xs@),
                        " "@ == seq![' '],
                        ")"@ == seq![')'],
                        before == old(out)@ + seq!['('],
                        out@ == before + show_upto(ts, i as nat),
                    decreases xs.len() - i,
                {
                    assert(decreases_to!(self => self->Tuple_0));
                    assert(decreases_to!(*xs => xs[i as int]));
                    if i > 0 {
                        out.append(" ");
                    }
                    xs[i].write(out);
                    assert(out@ =~= before + show_upto(ts, (i + 1) as nat));
                    i += 1;
                }
                out.append(")");
                assert(out@ =~= old(out)@ + show(self@));
            },
        }
    }

    /// The text of the term.
    pub fn render(&self) -> (r: String)
        ensures
            r@ == show(self@),
    {
        let mut out = String::new();
        self.write(&mut out);
        assert(Seq::<char>::empty() + show(self@) =~= show(self@));
        out
    }
}

impl Rule {
    /// The text of the rule.
    pub fn render(&self) -> (r: String)
        ensures
            r@ == show_rule(self@),
    {
        proof {
            reveal_strlit(" :-");
            reveal_strlit(" ");
            reveal_strlit(".");
        }
        let mut out = self.consequent.render();
        if self.antecedents.len() > 0 {
            let ghost ts = views(self.antecedents@);
            let ghost head = show(self.consequent@) + seq![' ', ':', '-'];
            out.append(" :-");
            assert(out@ =~= head + show_each(ts, 0));
            let mut i: usize = 0;
            while i < self.antecedents.len()
                invariant
                    i <= self.antecedents.len(),
                    ts == views(self.antecedents@),
                    " "@ == seq![' '],
                    head == show(self.consequent@) + seq![' ', ':', '-'],
                    out@ == head + show_each(ts, i as nat),
                decreases self.antecedents.len() - i,
            {
                out.append(" ");
                self.antecedents[i].write(&mut out);
                assert(out@ =~= head + show_each(ts, (i + 1) as nat));
                i += 1;
            }
        }
        out.append(".");
        assert(out@ =~= show_rule(self@));
        out
    }
}

} // verus!
