use hyperon_core::atom::{Atom, VariableAtom};
use hyperon_core::bindings::{
    apply_bindings_to_atom, apply_bindings_to_bindings, Bindings, BindingsError,
};

fn sym(name: &str) -> Atom {
    Atom::sym(name)
}

fn var(name: &str) -> Atom {
    Atom::var(name)
}

fn expr(children: Vec<Atom>) -> Atom {
    Atom::expr(children)
}

fn key(name: &str) -> VariableAtom {
    VariableAtom::new(name)
}

fn bind(pairs: Vec<(&str, Atom)>) -> Bindings {
    let mut bindings = Bindings::new();
    for (name, atom) in pairs {
        bindings.insert(key(name), atom).unwrap();
    }
    bindings
}

#[test]
fn insert_binds_a_variable() {
    let mut bindings = Bindings::new();
    assert_eq!(bindings.insert(key("x"), sym("A")), Ok(()));
    assert_eq!(bindings.len(), 1);
    assert_eq!(bindings.get(&key("x")), Some(&sym("A")));
    assert_eq!(bindings.get(&key("y")), None);
}

#[test]
fn insert_refuses_a_variable_inside_its_own_atom() {
    let mut bindings = Bindings::new();
    assert_eq!(
        bindings.insert(key("x"), expr(vec![sym("f"), var("x")])),
        Err(BindingsError::OccursCheck)
    );
    assert!(bindings.is_empty());
}

#[test]
fn insert_refuses_the_occurs_check_through_earlier_bindings() {
    let mut bindings = bind(vec![("y", expr(vec![sym("f"), var("x")]))]);
    assert_eq!(bindings.insert(key("x"), var("y")), Err(BindingsError::OccursCheck));
    assert_eq!(bindings, bind(vec![("y", expr(vec![sym("f"), var("x")]))]));
}

#[test]
fn insert_refuses_another_atom_for_a_bound_variable() {
    let mut bindings = bind(vec![("x", sym("A"))]);
    assert_eq!(bindings.insert(key("x"), sym("B")), Err(BindingsError::Conflict));
    assert_eq!(bindings, bind(vec![("x", sym("A"))]));
}

#[test]
fn insert_accepts_the_same_atom_again() {
    let mut bindings = bind(vec![("x", sym("A"))]);
    assert_eq!(bindings.insert(key("x"), sym("A")), Ok(()));
    assert_eq!(bindings.len(), 1);
}

#[test]
fn insert_binds_the_free_variable_of_an_earlier_binding() {
    let mut bindings = bind(vec![("x", var("y"))]);
    assert_eq!(bindings.insert(key("x"), sym("A")), Ok(()));
    assert_eq!(bindings, bind(vec![("x", sym("A")), ("y", sym("A"))]));
}

#[test]
fn insert_replaces_the_variable_in_earlier_atoms() {
    let mut bindings = bind(vec![("z", expr(vec![sym("C"), var("x")]))]);
    assert_eq!(bindings.insert(key("x"), sym("Sam")), Ok(()));
    assert_eq!(bindings.get(&key("z")), Some(&expr(vec![sym("C"), sym("Sam")])));
    assert_eq!(bindings.get(&key("x")), Some(&sym("Sam")));
}

#[test]
fn binding_a_variable_to_itself_changes_nothing() {
    let mut bindings = Bindings::new();
    assert_eq!(bindings.insert(key("x"), var("x")), Ok(()));
    assert!(bindings.is_empty());
    let atom = expr(vec![sym("A"), var("x"), expr(vec![var("y")])]);
    assert_eq!(apply_bindings_to_atom(&atom, &bindings), atom);
}

#[test]
fn apply_bindings_to_atom_replaces_bound_variables_only() {
    let bindings = bind(vec![("x", sym("A")), ("y", expr(vec![sym("B"), var("z")]))]);
    assert_eq!(
        apply_bindings_to_atom(&expr(vec![var("x"), var("y"), var("w"), sym("x")]), &bindings),
        expr(vec![sym("A"), expr(vec![sym("B"), var("z")]), var("w"), sym("x")])
    );
}

#[test]
fn apply_bindings_to_bindings_rewrites_each_bound_atom() {
    let from = bind(vec![("d", sym("A"))]);
    let to = bind(vec![("p", expr(vec![sym("f"), var("d")])), ("q", sym("B"))]);
    assert_eq!(
        apply_bindings_to_bindings(&from, &to),
        Ok(bind(vec![("p", expr(vec![sym("f"), sym("A")])), ("q", sym("B"))]))
    );
}

#[test]
fn apply_bindings_to_bindings_refuses_a_loop() {
    let from = bind(vec![("y", expr(vec![sym("f"), var("x")]))]);
    let to = bind(vec![("x", var("y"))]);
    assert_eq!(apply_bindings_to_bindings(&from, &to), Err(BindingsError::OccursCheck));
}

#[test]
fn merge_joins_bindings_that_agree() {
    let a = bind(vec![("x", sym("A"))]);
    let b = bind(vec![("x", sym("A")), ("y", sym("B"))]);
    assert_eq!(Bindings::merge(&a, &b), Some(bind(vec![("x", sym("A")), ("y", sym("B"))])));
}

#[test]
fn merge_gives_nothing_for_bindings_that_disagree() {
    let a = bind(vec![("x", sym("A"))]);
    let b = bind(vec![("x", sym("B"))]);
    assert_eq!(Bindings::merge(&a, &b), None);
}

#[test]
fn merged_bindings_are_their_own_fixed_point() {
    let a = bind(vec![("x", var("u")), ("z", expr(vec![sym("C"), var("u")]))]);
    let b = bind(vec![("u", var("w")), ("y", expr(vec![sym("B"), var("w")]))]);
    let merged = Bindings::merge(&a, &b).unwrap();
    assert_eq!(
        merged,
        bind(vec![
            ("x", var("w")),
            ("z", expr(vec![sym("C"), var("w")])),
            ("u", var("w")),
            ("y", expr(vec![sym("B"), var("w")]))
        ])
    );
    assert_eq!(apply_bindings_to_bindings(&merged, &merged), Ok(merged.clone()));
}

#[test]
fn restrict_to_keeps_the_variables_of_the_atom() {
    let bindings = bind(vec![("x", sym("A")), ("y", sym("B")), ("z", sym("C"))]);
    assert_eq!(
        bindings.restrict_to(&expr(vec![var("z"), var("x")])),
        bind(vec![("x", sym("A")), ("z", sym("C"))])
    );
}

#[test]
fn bindings_compare_without_regard_to_order() {
    assert_eq!(
        bind(vec![("x", sym("A")), ("y", sym("B"))]),
        bind(vec![("y", sym("B")), ("x", sym("A"))])
    );
    assert_ne!(bind(vec![("x", sym("A"))]), bind(vec![("x", sym("A")), ("y", sym("B"))]));
}

#[test]
fn entry_gives_the_bindings_in_the_order_made() {
    let bindings = bind(vec![("x", sym("A")), ("y", sym("B"))]);
    assert_eq!(bindings.entry(1), (&key("y"), &sym("B")));
}

#[test]
fn insert_makes_the_old_and_the_new_atom_equal() {
    let mut bindings = bind(vec![("x", expr(vec![sym("f"), var("d"), var("e")]))]);
    assert_eq!(
        bindings.insert(key("x"), expr(vec![sym("f"), sym("A"), expr(vec![sym("g"), var("h")])])),
        Ok(())
    );
    assert_eq!(
        bindings,
        bind(vec![
            ("x", expr(vec![sym("f"), sym("A"), expr(vec![sym("g"), var("h")])])),
            ("d", sym("A")),
            ("e", expr(vec![sym("g"), var("h")]))
        ])
    );
}

#[test]
fn insert_refuses_atoms_of_different_shape() {
    let mut bindings = bind(vec![("x", expr(vec![sym("f"), var("d")]))]);
    let before = bindings.clone();
    assert_eq!(
        bindings.insert(key("x"), expr(vec![sym("g"), sym("A")])),
        Err(BindingsError::Conflict)
    );
    assert_eq!(
        bindings.insert(key("x"), expr(vec![sym("f"), sym("A"), sym("B")])),
        Err(BindingsError::Conflict)
    );
    assert_eq!(bindings.insert(key("x"), sym("f")), Err(BindingsError::Conflict));
    assert_eq!(bindings, before);
}

#[test]
fn insert_that_fails_half_way_changes_nothing() {
    let mut bindings = bind(vec![("x", expr(vec![sym("f"), var("d"), sym("B")]))]);
    let before = bindings.clone();
    assert_eq!(
        bindings.insert(key("x"), expr(vec![sym("f"), sym("A"), sym("C")])),
        Err(BindingsError::Conflict)
    );
    assert_eq!(bindings, before);
    assert_eq!(bindings.get(&key("d")), None);
}

#[test]
fn insert_refuses_the_occurs_check_inside_an_expression() {
    let mut bindings = bind(vec![("x", expr(vec![sym("f"), var("d")]))]);
    assert_eq!(
        bindings.insert(key("x"), expr(vec![sym("f"), expr(vec![sym("g"), var("d")])])),
        Err(BindingsError::OccursCheck)
    );
}

#[test]
fn max_id_is_the_greatest_counter_of_keys_and_atoms() {
    assert_eq!(Bindings::new().max_id(), 0);
    let mut bindings = Bindings::new();
    bindings
        .insert(
            VariableAtom { name: "x".to_string(), id: 3 },
            expr(vec![sym("f"), Atom::Variable(VariableAtom { name: "y".to_string(), id: 9 })]),
        )
        .unwrap();
    bindings.insert(VariableAtom { name: "z".to_string(), id: 12 }, sym("A")).unwrap();
    assert_eq!(bindings.max_id(), 12);
}
