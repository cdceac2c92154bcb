use inference::atom::Atom;
use inference::rule::Rule;

fn id(s: &str) -> Atom {
    Atom::Id(s.to_owned())
}

fn var(v: u32) -> Atom {
    Atom::Var(v)
}

fn tup(args: Vec<Atom>) -> Atom {
    Atom::Tuple(args)
}

#[test]
fn tuples_before_constants_before_variables() {
    assert!(tup(vec![var(9)]).precedes(&id("a")));
    assert!(tup(vec![]).precedes(&var(0)));
    assert!(id("zzz").precedes(&var(0)));
    assert!(!id("a").precedes(&tup(vec![])));
    assert!(!var(0).precedes(&id("a")));
    assert!(!var(0).precedes(&tup(vec![id("a")])));
}

#[test]
fn variables_go_by_number() {
    assert!(var(1).precedes(&var(2)));
    assert!(!var(2).precedes(&var(1)));
    assert!(!var(2).precedes(&var(2)));
}

#[test]
fn constants_go_by_dictionary() {
    assert!(id("amy").precedes(&id("bob")));
    assert!(!id("bob").precedes(&id("amy")));
    assert!(id("am").precedes(&id("amy")));
    assert!(!id("amy").precedes(&id("am")));
    assert!(!id("amy").precedes(&id("amy")));
    assert!(id("").precedes(&id("a")));
    assert!(id("a-b").precedes(&id("a_b")));
    assert!(id("a9").precedes(&id("aa")));
}

#[test]
fn tuples_go_by_first_difference() {
    let a = tup(vec![id("a"), id("b")]);
    let b = tup(vec![id("a"), id("c")]);
    let short = tup(vec![id("a")]);
    assert!(a.precedes(&b));
    assert!(!b.precedes(&a));
    assert!(short.precedes(&a));
    assert!(!a.precedes(&short));
    assert!(!a.precedes(&a));
    assert!(tup(vec![]).precedes(&short));
    assert!(tup(vec![tup(vec![]), var(5)]).precedes(&tup(vec![id("a")])));
    assert!(tup(vec![id("a"), var(0)]).precedes(&tup(vec![id("b")])));
}

#[test]
fn normalize_sorts_and_keeps_one_of_each() {
    let mut rule = Rule {
        consequent: id("win"),
        antecedents: vec![
            id("b"),
            var(3),
            id("a"),
            tup(vec![id("x")]),
            id("b"),
            var(1),
            tup(vec![id("x")]),
            var(3),
        ],
    };
    rule.normalize_antecedent_set();
    assert_eq!(rule.consequent, id("win"));
    assert_eq!(rule.antecedents, vec![tup(vec![id("x")]), id("a"), id("b"), var(1), var(3)]);
    rule.normalize_antecedent_set();
    assert_eq!(rule.antecedents, vec![tup(vec![id("x")]), id("a"), id("b"), var(1), var(3)]);
}

#[test]
fn normalize_of_nothing() {
    let mut rule = Rule { consequent: var(0), antecedents: vec![] };
    rule.normalize_antecedent_set();
    assert!(rule.antecedents.is_empty());
    assert_eq!(rule.consequent, var(0));
}

#[test]
fn normalize_example_rule() {
    let mut rule = Rule {
        consequent: var(0),
        antecedents: vec![tup(vec![var(1), id("say"), var(0)]), tup(vec![id("auth"), var(1)])],
    };
    rule.normalize_antecedent_set();
    assert_eq!(
        rule.antecedents,
        vec![tup(vec![id("auth"), var(1)]), tup(vec![var(1), id("say"), var(0)])]
    );
}
