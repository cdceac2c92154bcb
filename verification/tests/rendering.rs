use inference::atom::Atom;
use inference::parse::{atom, rule};
use inference::rule::Rule;

fn id(s: &str) -> Atom {
    Atom::Id(s.to_owned())
}

fn var(v: u32) -> Atom {
    Atom::Var(v)
}

fn tup(args: Vec<Atom>) -> Atom {
    Atom::Tuple(args)
}

#[test]
fn render_variables() {
    assert_eq!(var(0).render(), "0");
    assert_eq!(var(7).render(), "7");
    assert_eq!(var(10).render(), "10");
    assert_eq!(var(42).render(), "42");
    assert_eq!(var(65535).render(), "65535");
    assert_eq!(var(u32::MAX).render(), "4294967295");
    assert_eq!(var(1000).render(), "1000");
}

#[test]
fn render_constants_and_tuples() {
    assert_eq!(id("amy").render(), "amy");
    assert_eq!(tup(vec![]).render(), "()");
    assert_eq!(tup(vec![id("a")]).render(), "(a)");
    assert_eq!(
        tup(vec![id("amy"), id("say"), tup(vec![id("bob"), id("cool")])]).render(),
        "(amy say (bob cool))"
    );
    assert_eq!(tup(vec![var(3), tup(vec![]), id("x")]).render(), "(3 () x)");
}

#[test]
fn render_rules() {
    let r = Rule {
        consequent: var(8),
        antecedents: vec![tup(vec![id("auth"), var(3)]), tup(vec![var(3), id("say"), var(8)])],
    };
    assert_eq!(r.render(), "8 :- (auth 3) (3 say 8).");
    let f = Rule { consequent: tup(vec![id("auth"), id("amy")]), antecedents: vec![] };
    assert_eq!(f.render(), "(auth amy).");
    let w = Rule { consequent: id("win"), antecedents: vec![id("a")] };
    assert_eq!(w.render(), "win :- a.");
}

#[test]
fn rendered_text_reads_back() {
    let t = tup(vec![id("amy"), var(12), tup(vec![id("bob"), tup(vec![]), id("c-d_e")])]);
    let text = t.render();
    assert_eq!(atom(&text, 0), Some((t, text.chars().count())));
    let r = Rule {
        consequent: var(0),
        antecedents: vec![tup(vec![id("auth"), var(1)]), tup(vec![var(1), id("say"), var(0)])],
    };
    let text = r.render();
    let (back, end) = rule(&text, 0).unwrap();
    assert_eq!(end, text.chars().count());
    assert_eq!(back.consequent, r.consequent);
    assert_eq!(back.antecedents, r.antecedents);
}
