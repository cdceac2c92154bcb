use inference::atom::Atom;
use inference::unify::unify_all;

fn id(s: &str) -> Atom {
    Atom::Id(s.to_owned())
}

fn var(v: u32) -> Atom {
    Atom::Var(v)
}

fn tup(args: Vec<Atom>) -> Atom {
    Atom::Tuple(args)
}

#[test]
fn unify_ground_atom_with_itself() {
    let a = tup(vec![id("amy"), id("say"), tup(vec![id("bob"), id("cool")])]);
    let s = Atom::unify([&a, &a]).unwrap();
    assert!(s.is_empty());
    assert!(Atom::unify([&id("a"), &id("a")]).unwrap().is_empty());
    assert!(Atom::unify([&tup(vec![]), &tup(vec![])]).unwrap().is_empty());
}

#[test]
fn unify_same_variable() {
    assert!(Atom::unify([&var(4), &var(4)]).unwrap().is_empty());
}

#[test]
fn unify_different_constants_fails() {
    assert!(Atom::unify([&id("a"), &id("b")]).is_none());
}

#[test]
fn unify_binds_variable_on_either_side() {
    let t = tup(vec![id("bob"), id("cool")]);
    let left = Atom::unify([&var(1), &t]).unwrap();
    assert_eq!(left.len(), 1);
    assert_eq!(left.get(&1), Some(&t));
    let right = Atom::unify([&t, &var(1)]).unwrap();
    assert_eq!(right.len(), 1);
    assert_eq!(right.get(&1), Some(&t));
    let c = Atom::unify([&id("k"), &var(2)]).unwrap();
    assert_eq!(c.get(&2), Some(&id("k")));
}

#[test]
fn unify_two_variables_binds_the_first() {
    let s = Atom::unify([&var(1), &var(2)]).unwrap();
    assert_eq!(s.len(), 1);
    assert_eq!(s.get(&1), Some(&var(2)));
    let t = Atom::unify([&var(2), &var(1)]).unwrap();
    assert_eq!(t.len(), 1);
    assert_eq!(t.get(&2), Some(&var(1)));
}

#[test]
fn unify_is_symmetric_in_success() {
    let a = tup(vec![id("auth"), var(1)]);
    let b = tup(vec![id("auth"), id("amy")]);
    let ab = Atom::unify([&a, &b]).unwrap();
    let ba = Atom::unify([&b, &a]).unwrap();
    assert_eq!(ab, ba);
    let c = tup(vec![id("auth"), id("amy"), id("now")]);
    assert!(Atom::unify([&a, &c]).is_none());
    assert!(Atom::unify([&c, &a]).is_none());
}

#[test]
fn occurs_check_rejects() {
    for v in [0u32, 1, 7, u32::MAX] {
        assert!(Atom::unify([&var(v), &tup(vec![var(v)])]).is_none());
        assert!(Atom::unify([&tup(vec![var(v)]), &var(v)]).is_none());
        assert!(Atom::unify([&var(v), &tup(vec![id("f"), tup(vec![id("g"), var(v)])])]).is_none());
    }
}

#[test]
fn arity_mismatch_fails() {
    let a = tup(vec![id("a")]);
    let b = tup(vec![id("a"), id("a")]);
    assert!(Atom::unify([&a, &b]).is_none());
    assert!(Atom::unify([&b, &a]).is_none());
}

#[test]
fn constant_against_tuple_fails() {
    assert!(Atom::unify([&id("a"), &tup(vec![id("a")])]).is_none());
    assert!(Atom::unify([&tup(vec![id("a")]), &id("a")]).is_none());
}

#[test]
fn tuple_collects_bindings() {
    let a = tup(vec![var(1), id("say"), var(0)]);
    let b = tup(vec![id("amy"), id("say"), tup(vec![id("bob"), id("cool")])]);
    let s = Atom::unify([&a, &b]).unwrap();
    assert_eq!(s.len(), 2);
    assert_eq!(s.get(&1), Some(&id("amy")));
    assert_eq!(s.get(&0), Some(&tup(vec![id("bob"), id("cool")])));
}

#[test]
fn repeated_variable_must_agree() {
    let a = tup(vec![var(1), var(1)]);
    assert!(Atom::unify([&a, &tup(vec![id("x"), id("y")])]).is_none());
    let s = Atom::unify([&a, &tup(vec![id("x"), id("x")])]).unwrap();
    assert_eq!(s.len(), 1);
    assert_eq!(s.get(&1), Some(&id("x")));
}

#[test]
fn conflict_in_nested_tuples_fails() {
    let a = tup(vec![tup(vec![var(1), id("k")]), tup(vec![id("k"), var(1)])]);
    let b = tup(vec![tup(vec![id("x"), id("k")]), tup(vec![id("k"), id("y")])]);
    assert!(Atom::unify([&a, &b]).is_none());
}

#[test]
fn conflict_depends_on_the_side() {
    let a = tup(vec![var(1), var(1)]);
    let b = tup(vec![var(2), id("c")]);
    assert!(Atom::unify([&a, &b]).is_none());
    let s = Atom::unify([&b, &a]).unwrap();
    assert_eq!(s.get(&2), Some(&var(1)));
    assert_eq!(s.get(&1), Some(&id("c")));
}

#[test]
fn unify_all_shares_bindings_between_pairs() {
    let ants = vec![tup(vec![id("auth"), var(3)]), tup(vec![var(3), id("say"), var(2)])];
    let auth = tup(vec![id("auth"), id("amy")]);
    let says = tup(vec![id("amy"), id("say"), tup(vec![id("bob"), id("cool")])]);
    let s = unify_all(&ants, &vec![&auth, &says]).unwrap();
    assert_eq!(s.get(&3), Some(&id("amy")));
    assert_eq!(s.get(&2), Some(&tup(vec![id("bob"), id("cool")])));
    let other = tup(vec![id("zed"), id("say"), id("hi")]);
    assert!(unify_all(&ants, &vec![&auth, &other]).is_none());
    assert!(unify_all(&ants, &vec![&says, &auth]).is_none());
}

#[test]
fn unify_all_wants_one_fact_for_each_antecedent() {
    let ants = vec![var(0)];
    let a = id("a");
    assert!(unify_all(&ants, &vec![]).is_none());
    assert!(unify_all(&ants, &vec![&a, &a]).is_none());
    assert!(unify_all(&vec![], &vec![]).unwrap().is_empty());
}
