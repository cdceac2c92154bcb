//! The written form of a program: `consequent :- antecedent ... .`, with
//! constants that begin with a lowercase letter, numbers for variables and
//! tuples in round brackets.

use crate::atom::{lemma_view_tuple, views, Atom, Term};
use crate::rule::{rule_views, Rule, RuleView};
use vstd::prelude::*;

verus! {

/// The classes of characters that the grammar tells apart.
pub enum Class {
    /// Blank, tab, carriage return and line feed.
    Space,
    /// What a constant goes on with: letters, digits, `_` and `-`.
    Word,
    /// Decimal digits.
    Digit,
}

/// Whether the character `c` is of the class `k`.
pub open spec fn in_class(k: Class, c: char) -> bool {
    let n = c as int;
    match k {
        Class::Space => n == 32 || n == 9 || n == 13 || n == 10,
        Class::Word => n == 95 || n == 45 || 48 <= n <= 57 || 65 <= n <= 90 || 97 <= n <= 122,
        Class::Digit => 48 <= n <= 57,
    }
}

/// A lowercase letter: what a constant begins with.
pub open spec fn is_lower(c: char) -> bool {
    97 <= c as int <= 122
}

/// Where the run of characters of class `k` that begins at `p` ends.
pub open spec fn run_end(s: Seq<char>, k: Class, p: nat) -> nat
    decreases s.len() - p,
{
    if p < s.len() && in_class(k, s[p as int]) {
        run_end(s, k, p + 1)
    } else {
        p
    }
}

/// The number that the digits from `from` up to `to` spell.
pub open spec fn number(s: Seq<char>, from: nat, to: nat) -> nat
    decreases to,
{
    if to <= from || to > s.len() {
        0
    } else {
        (number(s, from, (to - 1) as nat) * 10 + (s[to - 1] as int - 48)) as nat
    }
}

/// The largest number that names a variable.
pub open spec fn max_var() -> nat {
    65535
}

/// The term written at `p`, after any blanks, and where it ends; `None`
/// where no term is written there. A single term in round brackets is that
/// term; any other number of terms in round brackets is their tuple.
pub open spec fn parse_atom(s: Seq<char>, p: nat) -> Option<(Term, nat)>
    decreases s.len() - p, 0nat,
{
    let q = run_end(s, Class::Space, p);
    if q >= s.len() || q < p {
        None
    } else if is_lower(s[q as int]) {
        let e = run_end(s, Class::Word, q + 1);
        Some((Term::Id(s.subrange(q as int, e as int)), e))
    } else if s[q as int] == '(' {
        let (items, r) = parse_atoms(s, q + 1);
        let c = run_end(s, Class::Space, r);
        if c < s.len() && s[c as int] == ')' {
            Some(
                (
                    if items.len() == 1 {
                        items[0]
                    } else {
                        Term::Tuple(items)
                    },
                    c + 1,
                ),
            )
        } else {
            None
        }
    } else if in_class(Class::Digit, s[q as int]) {
        let e = run_end(s, Class::Digit, q + 1);
        if number(s, q, e) <= max_var() {
            Some((Term::Var(number(s, q, e) as u32), e))
        } else {
            None
        }
    } else {
        None
    }
}

/// The terms written one after the other from `p` on, as many as there
/// are, and where the last one ends.
pub open spec fn parse_atoms(s: Seq<char>, p: nat) -> (Seq<Term>, nat)
    decreases s.len() - p, 1nat,
{
    match parse_atom(s, p) {
        None => (Seq::empty(), p),
        Some((a, q)) => if p < q <= s.len() {
            let (rest, r) = parse_atoms(s, q);
            (seq![a] + rest, r)
        } else {
            (Seq::empty(), p)
        },
    }
}

/// The rule written at `p` and where it ends: a consequent, then, after
/// `:-`, its antecedents if it has any, then a full stop.
pub open spec fn parse_rule(s: Seq<char>, p: nat) -> Option<(RuleView, nat)> {
    match parse_atom(s, p) {
        None => None,
        Some((c, q)) => {
            let t = run_end(s, Class::Space, q);
            let (ants, r) = if t + 1 < s.len() && s[t as int] == ':' && s[(t + 1) as int] == '-' {
                parse_atoms(s, t + 2)
            } else {
                (Seq::empty(), q)
            };
            let d = run_end(s, Class::Space, r);
            if d < s.len() && s[d as int] == '.' {
                Some((RuleView { consequent: c, antecedents: ants }, d + 1))
            } else {
                None
            }
        },
    }
}

/// The rules written one after the other from `p` on, as many as there
/// are, and where the last one ends.
pub open spec fn parse_rules(s: Seq<char>, p: nat) -> (Seq<RuleView>, nat)
    decreases s.len() - p,
{
    match parse_rule(s, p) {
        None => (Seq::empty(), p),
        Some((r, q)) => if p < q <= s.len() {
            let (rest, e) = parse_rules(s, q);
            (seq![r] + rest, e)
        } else {
            (Seq::empty(), p)
        },
    }
}

/// The program that a text is: its rules, where the text is rules and
/// blanks and nothing else.
pub open spec fn parse_program(s: Seq<char>) -> Option<Seq<RuleView>> {
    let (rs, e) = parse_rules(s, 0);
    if run_end(s, Class::Space, e) >= s.len() {
        Some(rs)
    } else {
        None
    }
}

/// A run ends at or after its beginning, and within the text.
pub proof fn lemma_run_end(s: Seq<char>, k: Class, p: nat)
    requires
        p <= s.len(),
    ensures
        p <= run_end(s, k, p) <= s.len(),
    decreases s.len() - p,
{
    if p < s.len() && in_class(k, s[p as int]) {
        lemma_run_end(s, k, p + 1);
    }
}

/// More digits never spell a smaller number.
pub proof fn lemma_number_grows(s: Seq<char>, from: nat, i: nat, to: nat)
    requires
        from <= i <= to <= s.len(),
        forall|j: int| from <= j < to ==> in_class(Class::Digit, #[trigger] s[j]),
    ensures
        number(s, from, i) <= number(s, from, to),
    decreases to,
{
    if i < to {
        lemma_number_grows(s, from, i, (to - 1) as nat);
        assert(in_class(Class::Digit, s[to - 1]));
    }
}

/// Whether the character `c` is of the class `k`.
fn of_class(k: &Class, c: char) -> (r: bool)
    ensures
        r == in_class(*k, c),
{
    let n = c as u32;
    match k {
        Class::Space => n == 32 || n == 9 || n == 13 || n == 10,
        Class::Word => n == 95 || n == 45 || (48 <= n && n <= 57) || (65 <= n && n <= 90) || (97
            <= n && n <= 122),
        Class::Digit => 48 <= n && n <= 57,
    }
}

/// Where the run of characters of class `k` that begins at `p` ends.
fn skip(s: &str, n: usize, k: Class, p: usize) -> (r: usize)
    requires
        n == s@.len(),
        p <= n,
    ensures
        r == run_end(s@, k, p as nat),
        p <= r <= n,
        forall|j: int| p <= j < r ==> in_class(k, #[trigger] s@[j]),
{
    let mut i = p;
    while i < n && of_class(&k, s.get_char(i))
        invariant
            p <= i <= n,
            n == s@.len(),
            run_end(s@, k, p as nat) == run_end(s@, k, i as nat),
            forall|j: int| p <= j < i ==> in_class(k, #[trigger] s@[j]),
        decreases n - i,
    {
        i += 1;
    }
    i
}

/// The number that the digits from `from` up to `to` spell, where it names
/// a variable.
fn read_number(s: &str, n: usize, from: usize, to: usize) -> (r: Option<u32>)
    requires
        n == s@.len(),
        from <= to <= n,
        forall|j: int| from <= j < to ==> in_class(Class::Digit, #[trigger] s@[j]),
    ensures
        match r {
            Some(v) => v == number(s@, from as nat, to as nat) && v <= max_var(),
            None => number(s@, from as nat, to as nat) > max_var(),
        },
{
    let mut value: u32 = 0;
    let mut i = from;
    while i < to
        invariant
            from <= i <= to <= n,
            n == s@.len(),
            forall|j: int| from <= j < to ==> in_class(Class::Digit, #[trigger] s@[j]),
            value == number(s@, from as nat, i as nat),
            value <= 65535,
        decreases to - i,
    {
        let c = s.get_char(i);
        assert(in_class(Class::Digit, s@[i as int]));
        let d = c as u32 - 48;
        value = value * 10 + d;
        i += 1;
        if value > 65535 {
            proof {
                lemma_number_grows(s@, from as nat, i as nat, to as nat);
            }
            return None;
        }
    }
    Some(value)
}

/// The term written at `p`, after any blanks, and where it ends.
fn atom_at(s: &str, n: usize, p: usize) -> (r: Option<(Atom, usize)>)
    requires
        n == s@.len(),
        p <= n,
    ensures
        match parse_atom(s@, p as nat) {
            None => r is None,
            Some((t, e)) => r is Some && r->Some_0.0@ == t && r->Some_0.1 == e && p < e <= n,
        },
    decreases n - p, 0nat,
{
    let q = skip(s, n, Class::Space, p);
    if q >= n {
        return None;
    }
    let c = s.get_char(q) as u32;
    if 97 <= c && c <= 122 {
        let e = skip(s, n, Class::Word, q + 1);
        let name = s.substring_char(q, e).to_owned();
        Some((Atom::Id(name), e))
    } else if c == 40 {
        let (mut items, r) = atoms_at(s, n, q + 1);
        let close = skip(s, n, Class::Space, r);
        if close < n && s.get_char(close) as u32 == 41 {
            if items.len() == 1 {
                let only = items.remove(0);
                Some((only, close + 1))
            } else {
                proof {
                    lemma_view_tuple(items);
                }
                Some((Atom::Tuple(items), close + 1))
            }
        } else {
            None
        }
    } else if 48 <= c && c <= 57 {
        let e = skip(s, n, Class::Digit, q + 1);
        match read_number(s, n, q, e) {
            Some(v) => Some((Atom::Var(v), e)),
            None => None,
        }
    } else {
        None
    }
}

/// The terms written one after the other from `p` on, and where the last
/// one ends.
fn atoms_at(s: &str, n: usize, p: usize) -> (r: (Vec<Atom>, usize))
    requires
        n == s@.len(),
        p <= n,
    ensures
        (views(r.0@), r.1 as nat) == parse_atoms(s@, p as nat),
        p <= r.1 <= n,
    decreases n - p, 1nat,
{
    match atom_at(s, n, p) {
        None => {
            let none: Vec<Atom> = Vec::new();
            assert(views(none@) =~= Seq::<Term>::empty());
            (none, p)
        },
        Some((first, q)) => {
            let (mut rest, r) = atoms_at(s, n, q);
            let ghost tail = views(rest@);
            rest.insert(0, first);
            assert(views(rest@) =~= seq![first@] + tail);
            (rest, r)
        },
    }
}

/// The rule written at `p` and where it ends.
fn rule_at(s: &str, n: usize, p: usize) -> (r: Option<(Rule, usize)>)
    requires
        n == s@.len(),
        p <= n,
    ensures
        match parse_rule(s@, p as nat) {
            None => r is None,
            Some((v, e)) => r is Some && r->Some_0.0@ == v && r->Some_0.1 == e && p < e <= n,
        },
{
    match atom_at(s, n, p) {
        None => None,
        Some((consequent, q)) => {
            let t = skip(s, n, Class::Space, q);
            let marked = t < n - 1 && s.get_char(t) as u32 == 58 && s.get_char(t + 1) as u32 == 45;
            let (antecedents, r) = if marked {
                atoms_at(s, n, t + 2)
            } else {
                let none: Vec<Atom> = Vec::new();
                assert(views(none@) =~= Seq::<Term>::empty());
                (none, q)
            };
            let d = skip(s, n, Class::Space, r);
            if d < n && s.get_char(d) as u32 == 46 {
                Some((Rule { consequent, antecedents }, d + 1))
            } else {
                None
            }
        },
    }
}

/// The rules written one after the other from `p` on, and where the last
/// one ends.
fn rules_at(s: &str, n: usize, p: usize) -> (r: (Vec<Rule>, usize))
    requires
        n == s@.len(),
        p <= n,
    ensures
        (rule_views(r.0@), r.1 as nat) == parse_rules(s@, p as nat),
        p <= r.1 <= n,
    decreases n - p,
{
    match rule_at(s, n, p) {
        None => {
            let none: Vec<Rule> = Vec::new();
            assert(rule_views(none@) =~= Seq::<RuleView>::empty());
            (none, p)
        },
        Some((first, q)) => {
            let (mut rest, r) = rules_at(s, n, q);
            let ghost tail = rule_views(rest@);
            rest.insert(0, first);
            assert(rule_views(rest@) =~= seq![first@] + tail);
            (rest, r)
        },
    }
}

/// Reads the term written at position `from` of `text`, after any blanks.
/// Returns the term and the position where it ends, or `None` where no term
/// is written there.
pub fn atom(text: &str, from: usize) -> (r: Option<(Atom, usize)>)
    ensures
        match parse_atom(text@, from as nat) {
            None => r is None,
            Some((t, e)) => r is Some && r->Some_0.0@ == t && r->Some_0.1 == e,
        },
{
    let n = text.unicode_len();
    if from > n {
        return None;
    }
    atom_at(text, n, from)
}

/// Reads the rule written at position `from` of `text`. Returns the rule
/// and the position where it ends, or `None` where no rule is written there.
pub fn rule(text: &str, from: usize) -> (r: Option<(Rule, usize)>)
    ensures
        match parse_rule(text@, from as nat) {
            None => r is None,
            Some((v, e)) => r is Some && r->Some_0.0@ == v && r->Some_0.1 == e,
        },
{
    let n = text.unicode_len();
    if from > n {
        return None;
    }
    rule_at(text, n, from)
}

/// Reads the rules written one after the other from position `from` of
/// `text` on, as many as there are. Returns them and the position where the
/// last one ends.
pub fn rules(text: &str, from: usize) -> (r: (Vec<Rule>, usize))
    ensures
        (rule_views(r.0@), r.1 as nat) == parse_rules(text@, from as nat),
{
    let n = text.unicode_len();
    if from > n {
        let none: Vec<Rule> = Vec::new();
        assert(rule_views(none@) =~= Seq::<RuleView>::empty());
        return (none, from);
    }
    rules_at(text, n, from)
}

/// Reads a whole program. Returns its rules in the order in which they are
/// written, or `None` where the text holds anything but rules and blanks.
pub fn parse(text: &str) -> (r: Option<Vec<Rule>>)
    ensures
        match parse_program(text@) {
            None => r is None,
            Some(rs) => r is Some && rule_views(r->Some_0@) == rs,
        },
{
    let n = text.unicode_len();
    let (found, end) = rules_at(text, n, 0);
    let rest = skip(text, n, Class::Space, end);
    if rest >= n {
        Some(found)
    } else {
        None
    }
}

} // verus!
