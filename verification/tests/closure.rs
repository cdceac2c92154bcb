use inference::atom::Atom;
use inference::classes::EqGraph;
use inference::equate::{equate, equate_all, Node, TermTable};

fn id(s: &str) -> Atom {
    Atom::Id(s.to_owned())
}

fn var(v: u32) -> Atom {
    Atom::Var(v)
}

fn tup(args: Vec<Atom>) -> Atom {
    Atom::Tuple(args)
}

#[test]
fn classes_start_apart() {
    let g = EqGraph::new(4);
    assert_eq!(g.len(), 4);
    for i in 0..4 {
        assert_eq!(g.representative(i), i);
        assert_eq!(g.equivalents(i), vec![i]);
    }
    assert!(!g.related(0, 1));
    assert!(g.related(2, 2));
}

#[test]
fn relate_reports_change_once() {
    let mut g = EqGraph::new(5);
    assert!(g.relate(1, 3));
    assert!(!g.relate(1, 3));
    assert!(!g.relate(3, 1));
    assert!(!g.relate(2, 2));
    assert!(g.related(1, 3));
    assert!(!g.related(1, 2));
    assert_eq!(g.equivalents(3), vec![1, 3]);
    assert_eq!(g.representative(3), 1);
    assert_eq!(g.representative(1), 1);
}

#[test]
fn relate_joins_whole_classes() {
    let mut g = EqGraph::new(6);
    assert!(g.relate(0, 1));
    assert!(g.relate(2, 3));
    assert!(g.relate(1, 3));
    assert_eq!(g.equivalents(2), vec![0, 1, 2, 3]);
    assert_eq!(g.equivalents(4), vec![4]);
    for i in 0..4 {
        assert_eq!(g.representative(i), 0);
    }
    assert!(!g.relate(0, 2));
    assert!(g.relate(5, 0));
    assert_eq!(g.representative(0), 5);
    assert_eq!(g.equivalents(0), vec![0, 1, 2, 3, 5]);
}

#[test]
fn intern_shares_equal_terms() {
    let mut table = TermTable::new();
    let a = tup(vec![id("f"), var(1), tup(vec![id("f"), var(1)])]);
    let n = table.intern(&a);
    assert_eq!(table.len(), 4);
    assert_eq!(n, 3);
    assert_eq!(table.intern(&id("f")), 0);
    assert_eq!(table.intern(&var(1)), 1);
    assert_eq!(table.intern(&tup(vec![id("f"), var(1)])), 2);
    assert_eq!(table.intern(&a), 3);
    assert_eq!(table.len(), 4);
    match table.node(3) {
        Node::Tuple(kids) => assert_eq!(kids, &vec![0, 1, 2]),
        other => panic!("{:?}", other),
    }
    match table.node(0) {
        Node::Id(s) => assert_eq!(s, "f"),
        other => panic!("{:?}", other),
    }
    assert_eq!(table.intern(&var(2)), 4);
}

#[test]
fn equate_carries_equality_into_tuples() {
    let mut table = TermTable::new();
    let left = table.intern(&tup(vec![var(1), id("say"), var(0)]));
    let right = table.intern(&tup(vec![id("amy"), id("say"), tup(vec![id("bob"), id("cool")])]));
    let v1 = table.intern(&var(1));
    let v0 = table.intern(&var(0));
    let amy = table.intern(&id("amy"));
    let cool = table.intern(&tup(vec![id("bob"), id("cool")]));
    let mut g = EqGraph::new(table.len());
    assert!(equate(&mut g, &table, left, right).is_ok());
    assert!(g.related(left, right));
    assert!(g.related(v1, amy));
    assert!(g.related(v0, cool));
    assert!(!g.related(v0, v1));
    assert!(equate(&mut g, &table, left, right).is_ok());
}

#[test]
fn equate_all_consistent_pairs() {
    let a1 = tup(vec![id("auth"), var(3)]);
    let f1 = tup(vec![id("auth"), id("amy")]);
    let a2 = tup(vec![var(3), id("say"), var(2)]);
    let f2 = tup(vec![id("amy"), id("say"), tup(vec![id("bob"), id("cool")])]);
    let mut c = equate_all(&vec![(&f1, &a1), (&f2, &a2)]);
    assert!(c.clash.is_none());
    assert_eq!(c.pairs.len(), 2);
    for &(l, r) in &c.pairs {
        assert!(c.classes.related(l, r));
    }
    let v3 = c.table.intern(&var(3));
    let amy = c.table.intern(&id("amy"));
    let v2 = c.table.intern(&var(2));
    let cool = c.table.intern(&tup(vec![id("bob"), id("cool")]));
    assert_eq!(c.table.len(), c.classes.len());
    assert!(c.classes.related(v3, amy));
    assert!(c.classes.related(v2, cool));
}

#[test]
fn equate_all_finds_clash_across_pairs() {
    let a1 = tup(vec![id("auth"), var(3)]);
    let f1 = tup(vec![id("auth"), id("amy")]);
    let a2 = tup(vec![var(3), id("say"), var(2)]);
    let f2 = tup(vec![id("zed"), id("say"), id("hi")]);
    let c = equate_all(&vec![(&f1, &a1), (&f2, &a2)]);
    let clash = c.clash.unwrap();
    assert!(c.classes.related(clash.0, clash.1));
    let mut names = Vec::new();
    for n in [clash.0, clash.1] {
        match c.table.node(n) {
            Node::Id(s) => names.push(s.clone()),
            other => panic!("{:?}", other),
        }
    }
    names.sort();
    assert_eq!(names, vec!["amy".to_owned(), "zed".to_owned()]);
}

#[test]
fn equate_all_clash_kinds() {
    let a = id("a");
    let b = id("b");
    let one = tup(vec![id("a")]);
    let two = tup(vec![id("a"), id("a")]);
    assert!(equate_all(&vec![(&a, &b)]).clash.is_some());
    assert!(equate_all(&vec![(&a, &one)]).clash.is_some());
    assert!(equate_all(&vec![(&one, &a)]).clash.is_some());
    assert!(equate_all(&vec![(&one, &two)]).clash.is_some());
    assert!(equate_all(&vec![(&a, &a)]).clash.is_none());
    assert!(equate_all(&vec![(&two, &two)]).clash.is_none());
    assert!(equate_all(&vec![]).clash.is_none());
}

#[test]
fn equate_all_sees_what_pairwise_matching_misses() {
    let x = var(1);
    let y = var(2);
    let left = tup(vec![x.clone(), x.clone()]);
    let right = tup(vec![y.clone(), id("c")]);
    let c = equate_all(&vec![(&left, &right)]);
    assert!(c.clash.is_none());
    let mut c = c;
    let nx = c.table.intern(&x);
    let ny = c.table.intern(&y);
    let nc = c.table.intern(&id("c"));
    assert!(c.classes.related(nx, ny));
    assert!(c.classes.related(nx, nc));
    let d = id("d");
    let c2 = equate_all(&vec![(&left, &right), (&y, &d)]);
    assert!(c2.clash.is_some());
}

#[test]
fn equate_has_no_occurs_check() {
    let v = var(0);
    let t = tup(vec![var(0)]);
    assert!(equate_all(&vec![(&v, &t)]).clash.is_none());
}
