use inference::atom::{Atom, VisitVars};
use inference::fresh::VarAllocator;
use inference::kb::Kb;
use inference::rule::Rule;
use std::collections::HashMap;

fn id(s: &str) -> Atom {
    Atom::Id(s.to_owned())
}

fn var(v: u32) -> Atom {
    Atom::Var(v)
}

fn tup(args: Vec<Atom>) -> Atom {
    Atom::Tuple(args)
}

#[test]
fn equality_is_structural() {
    assert_eq!(tup(vec![id("a"), var(1)]), tup(vec![id("a"), var(1)]));
    assert_ne!(tup(vec![id("a"), var(1)]), tup(vec![id("a"), var(2)]));
    assert_ne!(tup(vec![id("a")]), tup(vec![id("a"), id("a")]));
    assert_ne!(id("a"), id("b"));
    assert_ne!(id("a"), var(0));
    assert_ne!(tup(vec![]), id("a"));
    assert_eq!(tup(vec![]), tup(vec![]));
    assert_ne!(tup(vec![id("a")]), id("a"));
}

#[test]
fn clone_keeps_the_value() {
    let a = tup(vec![id("f"), tup(vec![var(3), id("g")]), var(3)]);
    assert_eq!(a.clone(), a);
    assert_eq!(a.duplicate(), a);
}

#[test]
fn visit_vars_goes_left_to_right_depth_first() {
    let a = tup(vec![var(3), tup(vec![id("f"), var(1), tup(vec![var(3)])]), var(2)]);
    assert_eq!(a.visit_vars(), vec![3, 1, 3, 2]);
    assert_eq!(id("a").visit_vars(), Vec::<u32>::new());
    assert_eq!(var(9).visit_vars(), vec![9]);
    assert_eq!(tup(vec![]).visit_vars(), Vec::<u32>::new());
}

#[test]
fn contains_var_looks_everywhere() {
    let a = tup(vec![id("f"), tup(vec![id("g"), tup(vec![var(7)])])]);
    assert!(a.contains_var(7));
    assert!(!a.contains_var(8));
    assert!(var(7).contains_var(7));
    assert!(!id("x").contains_var(0));
}

#[test]
fn visit_facts_lists_parents_before_children() {
    let inner = tup(vec![id("b"), var(1)]);
    let a = tup(vec![id("a"), inner.clone(), id("c")]);
    let seen: Vec<Atom> = a.visit_facts().into_iter().map(|f| f.clone()).collect();
    assert_eq!(seen, vec![a.clone(), id("a"), inner, id("b"), var(1), id("c")]);
    let leaf = id("z");
    assert_eq!(leaf.visit_facts().len(), 1);
}

#[test]
fn substitute_replaces_bound_variables_once() {
    let mut s: HashMap<u32, Atom> = HashMap::new();
    s.insert(0, id("amy"));
    s.insert(1, tup(vec![id("f"), var(0)]));
    let a = tup(vec![var(0), var(1), var(2), id("k")]);
    assert_eq!(
        a.substitute(&s),
        tup(vec![id("amy"), tup(vec![id("f"), var(0)]), var(2), id("k")])
    );
}

#[test]
fn renamed_maps_variables() {
    let mut m: HashMap<u32, u32> = HashMap::new();
    m.insert(0, 10);
    m.insert(1, 11);
    let a = tup(vec![var(0), tup(vec![var(1), var(0), var(5)])]);
    assert_eq!(a.renamed(&m), tup(vec![var(10), tup(vec![var(11), var(10), var(5)])]));
    let mut b = a.clone();
    b.visit_vars_mut(&m);
    assert_eq!(b, a.renamed(&m));
    let mut rule = Rule { consequent: var(1), antecedents: vec![var(0), id("k"), var(7)] };
    rule.visit_vars_mut(&m);
    assert_eq!(rule.consequent, var(11));
    assert_eq!(rule.antecedents, vec![var(10), id("k"), var(7)]);
}

#[test]
fn rule_round_trip() {
    let rule = Rule {
        consequent: var(0),
        antecedents: vec![tup(vec![id("auth"), var(1)]), tup(vec![var(1), id("say"), var(0)])],
    };
    let fact = rule.to_fact();
    assert_eq!(
        fact,
        tup(vec![
            var(0),
            id("if"),
            tup(vec![id("auth"), var(1)]),
            tup(vec![var(1), id("say"), var(0)]),
        ])
    );
    let back = fact.as_rule().unwrap();
    assert_eq!(back.consequent, rule.consequent);
    assert_eq!(back.antecedents, rule.antecedents);
}

#[test]
fn rule_without_antecedents_is_its_consequent() {
    let rule = Rule { consequent: tup(vec![id("auth"), id("amy")]), antecedents: vec![] };
    assert_eq!(rule.to_fact(), tup(vec![id("auth"), id("amy")]));
}

#[test]
fn as_rule_with_no_antecedent() {
    let fact = tup(vec![id("win"), id("if")]);
    let rule = fact.as_rule().unwrap();
    assert_eq!(rule.consequent, id("win"));
    assert!(rule.antecedents.is_empty());
}

#[test]
fn as_rule_rejects_other_shapes() {
    assert!(tup(vec![id("a"), id("iff"), id("b")]).as_rule().is_none());
    assert!(tup(vec![id("a"), var(0), id("b")]).as_rule().is_none());
    assert!(tup(vec![id("a"), tup(vec![id("if")]), id("b")]).as_rule().is_none());
    assert!(tup(vec![id("if"), id("a"), id("b")]).as_rule().is_none());
    assert!(tup(vec![id("if")]).as_rule().is_none());
    assert!(tup(vec![id("a")]).as_rule().is_none());
    assert!(tup(vec![]).as_rule().is_none());
    assert!(id("if").as_rule().is_none());
    assert!(var(0).as_rule().is_none());
}

#[test]
fn rule_visits_consequent_first() {
    let rule = Rule {
        consequent: tup(vec![var(4), var(2)]),
        antecedents: vec![tup(vec![id("p"), var(2)]), var(9), tup(vec![var(4)])],
    };
    assert_eq!(rule.visit_vars(), vec![4, 2, 2, 9, 4]);
    let vars = rule.variables();
    assert_eq!(vars.len(), 3);
    assert!(vars.contains(&4) && vars.contains(&2) && vars.contains(&9));
    let facts: Vec<Atom> = rule.visit_facts().into_iter().map(|f| f.clone()).collect();
    assert_eq!(
        facts,
        vec![
            tup(vec![var(4), var(2)]),
            var(4),
            var(2),
            tup(vec![id("p"), var(2)]),
            id("p"),
            var(2),
            var(9),
            tup(vec![var(4)]),
            var(4),
        ]
    );
}

#[test]
fn kb_insert_is_idempotent() {
    let mut kb = Kb::new();
    let fact = tup(vec![id("auth"), id("amy")]);
    assert_eq!(kb.len(), 0);
    assert!(kb.insert(fact.clone()));
    assert!(!kb.insert(fact.clone()));
    assert_eq!(kb.len(), 1);
    assert!(kb.contains(&fact));
    assert!(!kb.contains(&id("amy")));
}

#[test]
fn kb_keeps_insertion_order() {
    let mut kb = Kb::default();
    assert!(kb.insert(id("c")));
    assert!(kb.insert(id("a")));
    assert!(!kb.insert(id("c")));
    assert!(kb.insert(id("b")));
    assert_eq!(kb.facts(), &vec![id("c"), id("a"), id("b")]);
    assert_eq!(kb.position(&id("a")), Some(1));
    assert_eq!(kb.position(&id("z")), None);
    assert_eq!(kb.get(2), &id("b"));
    assert_eq!(kb.len(), 3);
}

#[test]
fn refresh_numbers_by_first_occurrence() {
    let mut vars = VarAllocator::new();
    let mut rule = Rule {
        consequent: var(8),
        antecedents: vec![tup(vec![id("auth"), var(3)]), tup(vec![var(3), id("say"), var(8)])],
    };
    assert!(vars.has_room(&rule.visit_vars()));
    vars.refresh(&mut rule);
    assert_eq!(rule.consequent, var(0));
    assert_eq!(
        rule.antecedents,
        vec![tup(vec![id("auth"), var(1)]), tup(vec![var(1), id("say"), var(0)])]
    );
}

#[test]
fn refresh_never_reuses_a_number() {
    let mut vars = VarAllocator::default();
    let mut first = tup(vec![var(0), var(1), var(0)]);
    let mut second = tup(vec![var(0), var(1), var(0)]);
    vars.refresh(&mut first);
    vars.refresh(&mut second);
    assert_eq!(first, tup(vec![var(0), var(1), var(0)]));
    assert_eq!(second, tup(vec![var(2), var(3), var(2)]));
    let mut third = Rule { consequent: var(7), antecedents: vec![var(7), var(5)] };
    vars.refresh(&mut third);
    assert_eq!(third.consequent, var(4));
    assert_eq!(third.antecedents, vec![var(4), var(5)]);
}

#[test]
fn has_room_counts_distinct_variables() {
    let vars = VarAllocator::new();
    assert!(vars.has_room(&vec![1, 1, 1, 2]));
    assert!(vars.has_room(&vec![]));
}

#[test]
fn try_refresh_reports_room() {
    let mut vars = VarAllocator::starting_at(u32::MAX - 1);
    let mut two = tup(vec![var(1), var(2)]);
    assert!(!vars.try_refresh(&mut two));
    assert_eq!(two, tup(vec![var(1), var(2)]));
    let mut one = tup(vec![var(1), var(1)]);
    assert!(vars.try_refresh(&mut one));
    assert_eq!(one, tup(vec![var(u32::MAX - 1), var(u32::MAX - 1)]));
    let mut more = var(0);
    assert!(!vars.try_refresh(&mut more));
    assert_eq!(more, var(0));
    let mut none = id("a");
    assert!(vars.try_refresh(&mut none));
}
