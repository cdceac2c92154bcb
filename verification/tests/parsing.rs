use inference::atom::Atom;
use inference::parse::{atom, parse, rule, rules};
use inference::saturate::{run_saturation, Outcome};

fn id(s: &str) -> Atom {
    Atom::Id(s.to_owned())
}

fn var(v: u32) -> Atom {
    Atom::Var(v)
}

fn tup(args: Vec<Atom>) -> Atom {
    Atom::Tuple(args)
}

#[test]
fn parse_constant() {
    assert_eq!(atom("amy", 0), Some((id("amy"), 3)));
    assert_eq!(atom("  \t\r\n amy rest", 0), Some((id("amy"), 9)));
    assert_eq!(atom("a_b-c9Z.", 0), Some((id("a_b-c9Z"), 7)));
    assert_eq!(atom("x", 0), Some((id("x"), 1)));
}

#[test]
fn parse_variable() {
    assert_eq!(atom("0", 0), Some((var(0), 1)));
    assert_eq!(atom(" 42)", 0), Some((var(42), 3)));
    assert_eq!(atom("007", 0), Some((var(7), 3)));
    assert_eq!(atom("65535", 0), Some((var(65535), 5)));
    assert_eq!(atom("65536", 0), None);
    assert_eq!(atom("99999999999999999999", 0), None);
    assert_eq!(atom("12ab", 0), Some((var(12), 2)));
}

#[test]
fn parse_tuple() {
    assert_eq!(atom("(auth amy)", 0), Some((tup(vec![id("auth"), id("amy")]), 10)));
    assert_eq!(atom("()", 0), Some((tup(vec![]), 2)));
    assert_eq!(atom("(  )", 0), Some((tup(vec![]), 4)));
    assert_eq!(
        atom("(amy say (bob cool))", 0),
        Some((tup(vec![id("amy"), id("say"), tup(vec![id("bob"), id("cool")])]), 20))
    );
    assert_eq!(atom("( 1  say\n0 )", 0), Some((tup(vec![var(1), id("say"), var(0)]), 12)));
}

#[test]
fn single_term_in_brackets_is_that_term() {
    assert_eq!(atom("(amy)", 0), Some((id("amy"), 5)));
    assert_eq!(atom("((amy))", 0), Some((id("amy"), 7)));
    assert_eq!(atom("((a b))", 0), Some((tup(vec![id("a"), id("b")]), 7)));
    assert_eq!(atom("(())", 0), Some((tup(vec![]), 4)));
    assert_eq!(atom("(3)", 0), Some((var(3), 3)));
}

#[test]
fn parse_atom_rejects() {
    assert_eq!(atom("", 0), None);
    assert_eq!(atom("   ", 0), None);
    assert_eq!(atom("Amy", 0), None);
    assert_eq!(atom("_a", 0), None);
    assert_eq!(atom("-a", 0), None);
    assert_eq!(atom(".", 0), None);
    assert_eq!(atom(")", 0), None);
    assert_eq!(atom("(a b", 0), None);
    assert_eq!(atom("(a B)", 0), None);
    assert_eq!(atom("(a 70000)", 0), None);
    assert_eq!(atom("é", 0), None);
    assert_eq!(atom("abc", 9), None);
}

#[test]
fn parse_atom_from_a_position() {
    assert_eq!(atom("a (b c) d", 1), Some((tup(vec![id("b"), id("c")]), 7)));
    assert_eq!(atom("a (b c) d", 7), Some((id("d"), 9)));
    assert_eq!(atom("a (b c) d", 9), None);
    assert_eq!(atom("é b", 1), Some((id("b"), 3)));
}

#[test]
fn parse_rule_forms() {
    let (r, end) = rule("win :- (bob cool).", 0).unwrap();
    assert_eq!(end, 18);
    assert_eq!(r.consequent, id("win"));
    assert_eq!(r.antecedents, vec![tup(vec![id("bob"), id("cool")])]);
    let (r, end) = rule(" (auth amy) . ", 0).unwrap();
    assert_eq!(end, 13);
    assert_eq!(r.consequent, tup(vec![id("auth"), id("amy")]));
    assert!(r.antecedents.is_empty());
    let (r, _) = rule("a :- .", 0).unwrap();
    assert_eq!(r.consequent, id("a"));
    assert!(r.antecedents.is_empty());
    let (r, _) = rule("0:-(auth 1)(1 say 0).", 0).unwrap();
    assert_eq!(r.consequent, var(0));
    assert_eq!(
        r.antecedents,
        vec![tup(vec![id("auth"), var(1)]), tup(vec![var(1), id("say"), var(0)])]
    );
}

#[test]
fn parse_rule_rejects() {
    assert!(rule("win", 0).is_none());
    assert!(rule("win :- a", 0).is_none());
    assert!(rule("win : - a.", 0).is_none());
    assert!(rule("win a.", 0).is_none());
    assert!(rule(":- a.", 0).is_none());
    assert!(rule(".", 0).is_none());
    assert!(rule("", 0).is_none());
    assert!(rule("a.", 5).is_none());
}

#[test]
fn parse_rules_stops_where_no_rule_is() {
    let (rs, end) = rules("a. b :- a. ? c.", 0);
    assert_eq!(rs.len(), 2);
    assert_eq!(end, 10);
    assert_eq!(rs[1].consequent, id("b"));
    let (rs, end) = rules("", 0);
    assert!(rs.is_empty());
    assert_eq!(end, 0);
    let (rs, end) = rules("a. b.", 2);
    assert_eq!(rs.len(), 1);
    assert_eq!(end, 5);
    let (rs, end) = rules("a.", 7);
    assert!(rs.is_empty());
    assert_eq!(end, 7);
}

#[test]
fn parse_whole_program() {
    let text = "
    0 :- (auth 1) (1 say 0).
    (auth amy).
    (amy say (bob cool)).
    win :- (bob cool).
    ";
    let rs = parse(text).unwrap();
    assert_eq!(rs.len(), 4);
    assert_eq!(rs[0].consequent, var(0));
    assert_eq!(
        rs[0].antecedents,
        vec![tup(vec![id("auth"), var(1)]), tup(vec![var(1), id("say"), var(0)])]
    );
    assert_eq!(rs[1].consequent, tup(vec![id("auth"), id("amy")]));
    assert!(rs[1].antecedents.is_empty());
    assert_eq!(rs[2].consequent, tup(vec![id("amy"), id("say"), tup(vec![id("bob"), id("cool")])]));
    assert_eq!(rs[3].consequent, id("win"));
    assert_eq!(rs[3].antecedents, vec![tup(vec![id("bob"), id("cool")])]);
}

#[test]
fn parse_program_wants_rules_only() {
    assert_eq!(parse("").map(|rs| rs.len()), Some(0));
    assert_eq!(parse("  \n ").map(|rs| rs.len()), Some(0));
    assert_eq!(parse("a. b.").map(|rs| rs.len()), Some(2));
    assert!(parse("a. b").is_none());
    assert!(parse("a. B.").is_none());
    assert!(parse("a. (b.").is_none());
    assert!(parse("a. 65536.").is_none());
}

#[test]
fn parsed_program_saturates() {
    let text = "0 :- (auth 1) (1 say 0). (auth amy). (amy say (bob cool)). win :- (bob cool).";
    let (kb, outcome) = run_saturation(&parse(text).unwrap(), 100).unwrap();
    assert!(matches!(outcome, Outcome::Converged));
    assert!(kb.contains(&tup(vec![id("bob"), id("cool")])));
    assert!(kb.contains(&id("win")));
    let less = "0 :- (auth 1) (1 say 0). (amy say (bob cool)). win :- (bob cool).";
    let (kb, outcome) = run_saturation(&parse(less).unwrap(), 100).unwrap();
    assert!(matches!(outcome, Outcome::Converged));
    assert!(!kb.contains(&tup(vec![id("bob"), id("cool")])));
    assert!(!kb.contains(&id("win")));
}
