use hyperon_core::atom::{Atom, GroundedAtom, VariableAtom};
use hyperon_core::bindings::{apply_bindings_to_atom, Bindings};
use hyperon_core::matcher::{match_atoms, match_shifted, query_bounded, single_query, unify_atoms};
use hyperon_core::space::GroundingSpace;

fn sym(name: &str) -> Atom {
    Atom::sym(name)
}

fn var(name: &str) -> Atom {
    Atom::var(name)
}

fn expr(children: Vec<Atom>) -> Atom {
    Atom::expr(children)
}

fn fresh(name: &str, id: u64) -> Atom {
    Atom::Variable(VariableAtom { name: name.to_string(), id })
}

fn bind(pairs: Vec<(&str, Atom)>) -> Bindings {
    let mut bindings = Bindings::new();
    for (name, atom) in pairs {
        bindings.insert(VariableAtom::new(name), atom).unwrap();
    }
    bindings
}

#[test]
fn match_binds_the_variables_of_the_pattern() {
    let data = expr(vec![sym("likes"), sym("Sam"), expr(vec![sym("blue"), sym("stuff")])]);
    let pattern = expr(vec![sym("likes"), var("who"), var("what")]);
    assert_eq!(
        match_atoms(&data, &pattern),
        vec![bind(vec![("who", sym("Sam")), ("what", expr(vec![sym("blue"), sym("stuff")]))])]
    );
}

#[test]
fn match_fails_on_another_number_of_children() {
    assert_eq!(match_atoms(&expr(vec![sym("A"), sym("B")]), &expr(vec![sym("A")])), vec![]);
    assert_eq!(match_atoms(&expr(vec![sym("A")]), &expr(vec![var("x"), var("y")])), vec![]);
}

#[test]
fn match_fails_on_the_occurs_check() {
    let data = expr(vec![var("x"), expr(vec![sym("f"), var("x")])]);
    let pattern = expr(vec![var("y"), var("y")]);
    assert_eq!(match_atoms(&data, &pattern), vec![]);
}

#[test]
fn match_compares_grounded_values_by_equality() {
    assert_eq!(match_atoms(&Atom::value(1), &Atom::value(1)), vec![bind(vec![])]);
    assert_eq!(match_atoms(&Atom::value(1), &Atom::value(2)), vec![]);
    assert_eq!(match_atoms(&Atom::value(1), &sym("1")), vec![]);
}

#[test]
fn match_shifted_moves_the_variables_of_the_data() {
    let data = expr(vec![sym("A"), var("x")]);
    let pattern = expr(vec![sym("A"), var("x")]);
    assert_eq!(match_shifted(&data, 1, &pattern, 1), vec![bind(vec![("x", fresh("x", 1))])]);
    assert_eq!(match_atoms(&data, &pattern), vec![bind(vec![])]);
}

#[test]
fn matched_pattern_equals_the_data() {
    let data = expr(vec![sym("+"), sym("A"), expr(vec![sym("*"), sym("B"), sym("C")])]);
    let pattern = expr(vec![sym("+"), var("a"), expr(vec![sym("*"), var("b"), var("c")])]);
    let found = match_atoms(&data, &pattern);
    assert_eq!(found.len(), 1);
    assert_eq!(apply_bindings_to_atom(&pattern, &found[0]), data);
}

#[test]
fn query_results_turn_the_query_into_atoms_of_the_space() {
    let content = vec![
        expr(vec![sym("A"), sym("B")]),
        expr(vec![sym("C"), sym("D")]),
        expr(vec![sym("A"), sym("E")]),
    ];
    let space = GroundingSpace::from_vec(content.clone());
    let query = expr(vec![sym("A"), var("x")]);
    let found = space.query(&query);
    assert_eq!(found, vec![bind(vec![("x", sym("B"))]), bind(vec![("x", sym("E"))])]);
    for bindings in &found {
        assert!(content.contains(&apply_bindings_to_atom(&query, bindings)));
    }
}

#[test]
fn query_gives_the_same_results_each_time() {
    let space = GroundingSpace::from_vec(vec![
        expr(vec![sym("implies"), expr(vec![sym("A"), var("x")]), expr(vec![sym("B"), var("x")])]),
    ]);
    let query = expr(vec![sym("implies"), var("p"), var("q")]);
    let first = space.query(&query);
    let second = space.query(&query);
    assert_eq!(first, second);
    assert_eq!(
        first,
        vec![bind(vec![
            ("p", expr(vec![sym("A"), fresh("x", 1)])),
            ("q", expr(vec![sym("B"), fresh("x", 1)]))
        ])]
    );
}

#[test]
fn grounded_space_inside_an_expression_answers_by_a_query() {
    let inner = Atom::gnd(GroundedAtom::Space(vec![
        expr(vec![sym("A"), sym("B")]),
        expr(vec![sym("A"), sym("C")]),
        sym("D"),
    ]));
    let data = expr(vec![sym("in"), inner, sym("E")]);
    assert_eq!(
        match_atoms(&data, &expr(vec![sym("in"), expr(vec![sym("A"), var("x")]), var("y")])),
        vec![
            bind(vec![("x", sym("B")), ("y", sym("E"))]),
            bind(vec![("x", sym("C")), ("y", sym("E"))])
        ]
    );
    assert_eq!(match_atoms(&data, &expr(vec![sym("in"), sym("D"), sym("E")])), vec![bind(vec![])]);
    assert_eq!(match_atoms(&data, &expr(vec![sym("in"), sym("F"), sym("E")])), vec![]);
}

#[test]
fn grounded_space_is_asked_with_the_bindings_made_before() {
    let inner = Atom::gnd(GroundedAtom::Space(vec![
        expr(vec![sym("f"), sym("B")]),
        expr(vec![sym("f"), sym("C")]),
    ]));
    let data = expr(vec![sym("C"), inner]);
    assert_eq!(
        match_atoms(&data, &expr(vec![var("x"), expr(vec![sym("f"), var("x")])])),
        vec![bind(vec![("x", sym("C"))])]
    );
    assert_eq!(
        match_atoms(&data, &expr(vec![var("x"), expr(vec![sym("f"), var("y")])])),
        vec![
            bind(vec![("x", sym("C")), ("y", sym("B"))]),
            bind(vec![("x", sym("C")), ("y", sym("C"))])
        ]
    );
}

#[test]
fn variable_of_the_pattern_is_bound_to_a_grounded_space() {
    let inner = Atom::gnd(GroundedAtom::Space(vec![sym("B")]));
    assert_eq!(match_atoms(&inner, &var("x")), vec![bind(vec![("x", inner.clone())])]);
}

#[test]
fn conjunction_without_sub_queries_gives_the_empty_bindings() {
    let space = GroundingSpace::from_vec(vec![sym("A")]);
    assert_eq!(space.query(&expr(vec![sym(",")])), vec![bind(vec![])]);
}

#[test]
fn single_query_takes_a_conjunction_as_a_pattern() {
    let space = GroundingSpace::from_vec(vec![expr(vec![sym(","), sym("A")]), sym("A")]);
    assert_eq!(
        space.single_query(&expr(vec![sym(","), var("x")])),
        vec![bind(vec![("x", sym("A"))])]
    );
    assert_eq!(space.query(&expr(vec![sym(","), var("x")])).len(), 2);
}

#[test]
fn unify_binds_variables_on_both_sides() {
    let data = expr(vec![sym("A"), var("d"), sym("C")]);
    let pattern = expr(vec![sym("A"), sym("B"), var("p")]);
    let result = unify_atoms(&data, &pattern).unwrap();
    assert_eq!(result.data_bindings, bind(vec![("d", sym("B"))]));
    assert_eq!(result.pattern_bindings, bind(vec![("p", sym("C"))]));
    assert!(result.unifications.is_empty());
}

#[test]
fn unify_fails_on_different_symbols() {
    assert!(unify_atoms(&expr(vec![sym("A")]), &expr(vec![sym("B")])).is_none());
}

#[test]
fn unify_leaves_pairs_with_a_grounded_space_over() {
    let inner = Atom::gnd(GroundedAtom::Space(vec![sym("A")]));
    let data = expr(vec![sym("in"), inner.clone()]);
    let pattern = expr(vec![sym("in"), sym("A")]);
    let result = unify_atoms(&data, &pattern).unwrap();
    assert_eq!(result.unifications, vec![(inner, sym("A"))]);
}

#[test]
fn space_unify_applies_the_data_bindings_to_the_pattern_bindings() {
    let space = GroundingSpace::from_vec(vec![
        expr(vec![sym("eq"), var("d"), sym("B"), var("d")]),
        expr(vec![sym("other")]),
    ]);
    let result = space.unify(&expr(vec![sym("eq"), sym("A"), var("p"), var("q")]));
    assert_eq!(result.len(), 1);
    assert_eq!(result[0].0, bind(vec![("p", sym("B")), ("q", sym("A"))]));
    assert!(result[0].1.is_empty());
}

#[test]
fn conjunction_that_feeds_on_itself_comes_to_an_end() {
    let rule = expr(vec![
        sym("P"),
        expr(vec![sym(","), expr(vec![sym("P"), var("w")]), var("w")]),
    ]);
    let space = GroundingSpace::from_vec(vec![rule]);
    let query = expr(vec![sym(","), expr(vec![sym("P"), var("x")]), var("x")]);
    assert_eq!(space.query(&query), vec![]);
}

#[test]
fn bound_variable_is_made_equal_to_what_it_meets() {
    let data = expr(vec![expr(vec![sym("f"), var("d")]), expr(vec![sym("f"), sym("A")])]);
    assert_eq!(
        match_shifted(&data, 1, &expr(vec![var("x"), var("x")]), 1),
        vec![bind(vec![("x", expr(vec![sym("f"), sym("A")]))])]
    );
    let data = expr(vec![var("d"), sym("A")]);
    assert_eq!(
        match_shifted(&data, 1, &expr(vec![var("x"), var("x")]), 1),
        vec![bind(vec![("x", sym("A"))])]
    );
    let data = expr(vec![expr(vec![sym("f"), sym("B")]), expr(vec![sym("f"), sym("A")])]);
    assert_eq!(match_shifted(&data, 1, &expr(vec![var("x"), var("x")]), 1), vec![]);
}

#[test]
fn fresh_counters_start_above_the_floor_and_the_query() {
    let content = vec![expr(vec![sym("P"), fresh("x", 2)])];
    let query = expr(vec![sym("P"), var("a")]);
    assert_eq!(single_query(&content, &query, 0), vec![bind(vec![("a", fresh("x", 3))])]);
    assert_eq!(single_query(&content, &query, 7), vec![bind(vec![("a", fresh("x", 10))])]);
    let query = expr(vec![sym("P"), fresh("a", 4)]);
    let found = single_query(&content, &query, 0);
    assert_eq!(found.len(), 1);
    assert_eq!(
        found[0].get(&VariableAtom { name: "a".to_string(), id: 4 }),
        Some(&fresh("x", 7))
    );
}

#[test]
fn atom_whose_counters_cannot_be_moved_is_passed_over() {
    let content = vec![expr(vec![sym("P"), fresh("x", 2)]), expr(vec![sym("P"), sym("A")])];
    let query = expr(vec![sym("P"), var("a")]);
    assert_eq!(
        single_query(&content, &query, u64::MAX - 2),
        vec![bind(vec![("a", sym("A"))])]
    );
    assert_eq!(single_query(&content, &query, u64::MAX), vec![]);
}

#[test]
fn query_bounded_without_fuel_takes_a_conjunction_as_a_pattern() {
    let content = vec![sym("A")];
    let query = expr(vec![sym(","), sym("A")]);
    assert_eq!(query_bounded(&content, &query, 1, 0), vec![bind(vec![])]);
    assert_eq!(query_bounded(&content, &query, 0, 0), vec![]);
}
