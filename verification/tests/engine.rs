use inference::atom::{Atom, VisitVars};
use inference::combo::ComboIter;
use inference::fresh::VarAllocator;
use inference::kb::Kb;
use inference::rule::Rule;
use inference::saturate::{install, run_saturation, saturate, step, Outcome};

fn id(s: &str) -> Atom {
    Atom::Id(s.to_owned())
}

fn var(v: u32) -> Atom {
    Atom::Var(v)
}

fn tup(args: Vec<Atom>) -> Atom {
    Atom::Tuple(args)
}

fn fact(a: Atom) -> Rule {
    Rule { consequent: a, antecedents: vec![] }
}

fn program(with_auth: bool) -> Vec<Rule> {
    let mut rules = vec![Rule {
        consequent: var(0),
        antecedents: vec![tup(vec![id("auth"), var(1)]), tup(vec![var(1), id("say"), var(0)])],
    }];
    if with_auth {
        rules.push(fact(tup(vec![id("auth"), id("amy")])));
    }
    rules.push(fact(tup(vec![id("amy"), id("say"), tup(vec![id("bob"), id("cool")])])));
    rules.push(Rule { consequent: id("win"), antecedents: vec![tup(vec![id("bob"), id("cool")])] });
    rules
}

fn drain(mut it: ComboIter) -> Vec<Vec<usize>> {
    let mut all = Vec::new();
    while let Some(c) = it.next() {
        all.push(c);
    }
    assert!(it.next().is_none());
    all
}

#[test]
fn combos_are_exhaustive_and_ordered() {
    let all = drain(ComboIter::new(3, 2));
    assert_eq!(
        all,
        vec![
            vec![0, 0],
            vec![0, 1],
            vec![0, 2],
            vec![1, 0],
            vec![1, 1],
            vec![1, 2],
            vec![2, 0],
            vec![2, 1],
            vec![2, 2],
        ]
    );
}

#[test]
fn combos_count_is_a_power() {
    for m in 0usize..5 {
        for k in 0usize..4 {
            let all = drain(ComboIter::new(m, k));
            assert_eq!(all.len(), m.pow(k as u32));
            for (i, c) in all.iter().enumerate() {
                assert_eq!(c.len(), k);
                assert!(c.iter().all(|&p| p < m));
                for d in &all[..i] {
                    assert!(d < c);
                }
            }
        }
    }
}

#[test]
fn combos_of_no_position() {
    assert_eq!(drain(ComboIter::new(4, 0)), vec![Vec::<usize>::new()]);
    assert_eq!(drain(ComboIter::new(0, 0)), vec![Vec::<usize>::new()]);
    assert!(drain(ComboIter::new(0, 3)).is_empty());
}

#[test]
fn saturation_converges_on_example() {
    let (kb, outcome) = run_saturation(&program(true), 100).unwrap();
    assert!(matches!(outcome, Outcome::Converged));
    assert!(kb.contains(&tup(vec![id("bob"), id("cool")])));
    assert!(kb.contains(&id("win")));
    assert_eq!(kb.len(), 6);
    assert_eq!(kb.get(4), &tup(vec![id("bob"), id("cool")]));
    assert_eq!(kb.get(5), &id("win"));
    for i in 4..kb.len() {
        assert!(kb.get(i).visit_vars().is_empty());
    }
}

#[test]
fn no_spurious_derivation() {
    let (kb, outcome) = run_saturation(&program(false), 100).unwrap();
    assert!(matches!(outcome, Outcome::Converged));
    assert!(!kb.contains(&tup(vec![id("bob"), id("cool")])));
    assert!(!kb.contains(&id("win")));
    assert_eq!(kb.len(), 3);
}

#[test]
fn rules_are_installed_as_facts() {
    let (kb, _) = run_saturation(&program(true), 100).unwrap();
    assert_eq!(
        kb.get(0),
        &tup(vec![
            var(0),
            id("if"),
            tup(vec![id("auth"), var(1)]),
            tup(vec![var(1), id("say"), var(0)]),
        ])
    );
    assert_eq!(kb.get(1), &tup(vec![id("auth"), id("amy")]));
    assert_eq!(kb.get(3), &tup(vec![id("win"), id("if"), tup(vec![id("bob"), id("cool")])]));
}

#[test]
fn step_adds_one_fact_at_a_time() {
    let mut kb = Kb::new();
    let mut vars = VarAllocator::new();
    for rule in program(true).iter() {
        assert_eq!(install(&mut kb, &mut vars, rule), Some(true));
    }
    let before: Vec<Atom> = kb.facts().clone();
    match step(&mut kb, &mut vars) {
        Outcome::Derived { rule, combo } => {
            assert_eq!(rule, 0);
            assert_eq!(combo, vec![1, 2]);
        }
        other => panic!("{:?}", other),
    }
    assert_eq!(kb.len(), before.len() + 1);
    assert_eq!(&kb.facts()[..before.len()], &before[..]);
    assert_eq!(kb.get(4), &tup(vec![id("bob"), id("cool")]));
    match step(&mut kb, &mut vars) {
        Outcome::Derived { rule, combo } => {
            assert_eq!(rule, 3);
            assert_eq!(combo, vec![4]);
        }
        other => panic!("{:?}", other),
    }
    assert_eq!(kb.get(5), &id("win"));
    assert!(matches!(step(&mut kb, &mut vars), Outcome::Converged));
    assert_eq!(kb.len(), 6);
}

#[test]
fn saturation_keeps_what_was_known() {
    let mut kb = Kb::new();
    let mut vars = VarAllocator::new();
    for rule in program(true).iter() {
        install(&mut kb, &mut vars, rule);
    }
    let before: Vec<Atom> = kb.facts().clone();
    saturate(&mut kb, &mut vars, 1);
    assert_eq!(&kb.facts()[..before.len()], &before[..]);
    let middle: Vec<Atom> = kb.facts().clone();
    saturate(&mut kb, &mut vars, 10);
    assert_eq!(&kb.facts()[..middle.len()], &middle[..]);
}

#[test]
fn limit_stops_an_endless_derivation() {
    let rules = vec![
        fact(tup(vec![id("n"), id("z")])),
        Rule {
            consequent: tup(vec![id("n"), tup(vec![id("s"), var(0)])]),
            antecedents: vec![tup(vec![id("n"), var(0)])],
        },
    ];
    let (kb, outcome) = run_saturation(&rules, 3).unwrap();
    assert!(matches!(outcome, Outcome::Derived { .. }));
    assert_eq!(kb.len(), 5);
    assert!(kb.contains(&tup(vec![
        id("n"),
        tup(vec![id("s"), tup(vec![id("s"), tup(vec![id("s"), id("z")])])])
    ])));
    let (kb, outcome) = run_saturation(&rules, 0).unwrap();
    assert!(matches!(outcome, Outcome::Derived { .. }));
    assert_eq!(kb.len(), 3);
}

#[test]
fn rule_without_antecedent_fires_once() {
    let mut kb = Kb::new();
    let mut vars = VarAllocator::new();
    assert!(kb.insert(tup(vec![id("sun"), id("if")])));
    assert!(matches!(saturate(&mut kb, &mut vars, 10), Outcome::Converged));
    assert_eq!(kb.facts(), &vec![tup(vec![id("sun"), id("if")]), id("sun")]);
}

#[test]
fn install_skips_a_known_fact() {
    let mut kb = Kb::new();
    let mut vars = VarAllocator::new();
    let r = fact(id("a"));
    assert_eq!(install(&mut kb, &mut vars, &r), Some(true));
    assert_eq!(install(&mut kb, &mut vars, &r), Some(false));
    assert_eq!(kb.len(), 1);
}

#[test]
fn empty_program_is_saturated() {
    let (kb, outcome) = run_saturation(&vec![], 5).unwrap();
    assert!(matches!(outcome, Outcome::Converged));
    assert_eq!(kb.len(), 0);
}

#[test]
fn variable_numbers_can_run_out() {
    let full = VarAllocator::starting_at(u32::MAX);
    assert!(full.has_room(&vec![]));
    assert!(!full.has_room(&vec![5]));
    let near = VarAllocator::starting_at(u32::MAX - 1);
    assert!(near.has_room(&vec![5, 5, 5]));
    assert!(!near.has_room(&vec![5, 6]));
}

#[test]
fn install_without_room_changes_nothing() {
    let mut kb = Kb::new();
    let mut vars = VarAllocator::starting_at(u32::MAX);
    let rule = Rule { consequent: var(0), antecedents: vec![var(0)] };
    assert_eq!(install(&mut kb, &mut vars, &rule), None);
    assert_eq!(kb.len(), 0);
    assert_eq!(install(&mut kb, &mut vars, &fact(id("a"))), Some(true));
    assert_eq!(kb.len(), 1);
}

#[test]
fn step_stops_when_variable_numbers_run_out() {
    let mut kb = Kb::new();
    let mut vars = VarAllocator::starting_at(u32::MAX);
    assert!(kb.insert(id("a")));
    assert!(kb.insert(tup(vec![tup(vec![id("p"), var(0)]), id("if"), id("a")])));
    match step(&mut kb, &mut vars) {
        Outcome::OutOfVariables { rule } => assert_eq!(rule, 1),
        other => panic!("{:?}", other),
    }
    assert_eq!(kb.len(), 2);
    assert!(matches!(saturate(&mut kb, &mut vars, 5), Outcome::OutOfVariables { rule: 1 }));
}

#[test]
fn fresh_numbers_keep_rules_apart() {
    let mut kb = Kb::new();
    let mut vars = VarAllocator::starting_at(7);
    let rule = Rule { consequent: tup(vec![id("q"), var(0)]), antecedents: vec![tup(vec![id("p"), var(0)])] };
    assert_eq!(install(&mut kb, &mut vars, &rule), Some(true));
    assert_eq!(
        kb.get(0),
        &tup(vec![tup(vec![id("q"), var(7)]), id("if"), tup(vec![id("p"), var(7)])])
    );
    assert!(kb.insert(tup(vec![id("p"), var(7)])));
    assert!(matches!(saturate(&mut kb, &mut vars, 10), Outcome::Converged));
    assert_eq!(kb.len(), 3);
    assert_eq!(kb.get(2), &tup(vec![id("q"), var(7)]));
}
