use std::collections::HashSet;

use hyperon_core::atom::{
    atom_has_var, collect_variables, make_variables_unique, max_id, Atom, GroundedAtom,
    VariableAtom,
};

fn sym(name: &str) -> Atom {
    Atom::sym(name)
}

fn var(name: &str) -> Atom {
    Atom::var(name)
}

fn expr(children: Vec<Atom>) -> Atom {
    Atom::expr(children)
}

fn fresh(name: &str, id: u64) -> Atom {
    Atom::Variable(VariableAtom { name: name.to_string(), id })
}

#[test]
fn atoms_compare_by_structure() {
    assert_eq!(expr(vec![sym("A"), var("x")]), expr(vec![sym("A"), var("x")]));
    assert_ne!(expr(vec![sym("A"), var("x")]), expr(vec![var("x"), sym("A")]));
    assert_ne!(sym("A"), var("A"));
    assert_ne!(expr(vec![]), expr(vec![expr(vec![])]));
    assert_eq!(Atom::value(3), Atom::value(3));
    assert_ne!(Atom::value(3), Atom::value(4));
}

#[test]
fn variables_differ_by_name_and_counter() {
    assert_eq!(fresh("x", 2), fresh("x", 2));
    assert_ne!(fresh("x", 2), fresh("x", 3));
    assert_ne!(fresh("x", 2), fresh("y", 2));
    assert_eq!(var("x"), fresh("x", 0));
}

#[test]
fn clone_gives_an_equal_atom() {
    let atom = expr(vec![sym("A"), expr(vec![var("x"), Atom::value(7)])]);
    assert_eq!(atom.clone(), atom);
}

#[test]
fn collect_variables_gives_each_variable_once() {
    let atom = expr(vec![sym("A"), var("x"), expr(vec![var("y"), var("x")])]);
    assert_eq!(collect_variables(&atom), vec![VariableAtom::new("x"), VariableAtom::new("y")]);
    assert_eq!(collect_variables(&sym("A")), vec![]);
}

#[test]
fn collect_variables_passes_over_grounded_values() {
    let atom = Atom::gnd(GroundedAtom::Space(vec![var("x")]));
    assert_eq!(collect_variables(&atom), vec![]);
}

#[test]
fn make_variables_unique_shifts_every_counter() {
    let atom = expr(vec![var("x"), expr(vec![fresh("y", 4), sym("A")])]);
    assert_eq!(
        make_variables_unique(&atom, 3),
        expr(vec![fresh("x", 3), expr(vec![fresh("y", 7), sym("A")])])
    );
}

#[test]
fn max_id_is_the_greatest_counter() {
    assert_eq!(max_id(&sym("A")), 0);
    assert_eq!(max_id(&expr(vec![fresh("x", 2), expr(vec![fresh("y", 9)]), fresh("z", 5)])), 9);
}

#[test]
fn atom_has_var_looks_into_expressions() {
    let atom = expr(vec![sym("A"), expr(vec![var("x")])]);
    assert!(atom_has_var(&atom, &VariableAtom::new("x")));
    assert!(!atom_has_var(&atom, &VariableAtom::new("y")));
}

#[test]
fn grounded_values_name_their_type() {
    assert_eq!(GroundedAtom::Int(1).type_(), sym("i64"));
    assert_eq!(GroundedAtom::Space(vec![]).type_(), sym("GroundingSpace"));
    let host = GroundedAtom::Host { id: 1, label: "Number".to_string(), executable: true };
    assert_eq!(host.type_(), sym("Number"));
    assert!(host.is_executable());
    assert!(!GroundedAtom::Int(1).is_executable());
    assert!(GroundedAtom::Space(vec![]).has_custom_match());
}

#[test]
fn equal_atoms_hash_alike() {
    let mut atoms = HashSet::new();
    assert!(atoms.insert(expr(vec![sym("A"), var("x"), Atom::value(1)])));
    assert!(!atoms.insert(expr(vec![sym("A"), var("x"), Atom::value(1)])));
    assert!(atoms.insert(expr(vec![sym("A"), fresh("x", 1), Atom::value(1)])));
    assert!(atoms.contains(&expr(vec![sym("A"), var("x"), Atom::value(1)])));
    assert_eq!(atoms.len(), 2);
}
