use hyperon_core::atom::{Atom, GroundedAtom, VariableAtom};
use hyperon_core::bindings::Bindings;
use hyperon_core::matcher::match_atoms;
use hyperon_core::space::{GroundingSpace, SpaceEvent, SpaceObserver};

fn sym(name: &str) -> Atom {
    Atom::sym(name)
}

fn var(name: &str) -> Atom {
    Atom::var(name)
}

fn expr(children: Vec<Atom>) -> Atom {
    Atom::expr(children)
}

fn bind(pairs: Vec<(&str, Atom)>) -> Bindings {
    let mut bindings = Bindings::new();
    for (name, atom) in pairs {
        bindings.insert(VariableAtom::new(name), atom).unwrap();
    }
    bindings
}

struct SpaceEventCollector {
    events: Vec<SpaceEvent>,
}

impl SpaceEventCollector {
    fn new() -> Self {
        Self { events: Vec::new() }
    }
}

impl SpaceObserver for SpaceEventCollector {
    fn notify(&mut self, event: &SpaceEvent) {
        self.events.push(event.clone());
    }
}

#[test]
fn add_atom() {
    let mut space = GroundingSpace::new();
    let mut observer = SpaceEventCollector::new();
    let handle = space.register_observer();

    space.add(sym("a"));
    space.add(sym("b"));
    space.add(sym("c"));
    space.deliver(handle, &mut observer);

    assert_eq!(*space.content(), vec![sym("a"), sym("b"), sym("c")]);
    assert_eq!(
        observer.events,
        vec![SpaceEvent::Add(sym("a")), SpaceEvent::Add(sym("b")), SpaceEvent::Add(sym("c"))]
    );
}

#[test]
fn remove_atom() {
    let mut space = GroundingSpace::new();
    let mut observer = SpaceEventCollector::new();
    let handle = space.register_observer();

    space.add(sym("a"));
    space.add(sym("b"));
    space.add(sym("c"));
    assert_eq!(space.remove(&sym("b")), true);
    space.deliver(handle, &mut observer);

    assert_eq!(*space.content(), vec![sym("a"), sym("c")]);
    assert_eq!(
        observer.events,
        vec![
            SpaceEvent::Add(sym("a")),
            SpaceEvent::Add(sym("b")),
            SpaceEvent::Add(sym("c")),
            SpaceEvent::Remove(sym("b"))
        ]
    );
}

#[test]
fn remove_atom_not_found() {
    let mut space = GroundingSpace::new();
    let mut observer = SpaceEventCollector::new();
    let handle = space.register_observer();

    space.add(sym("a"));
    assert_eq!(space.remove(&sym("b")), false);
    space.deliver(handle, &mut observer);

    assert_eq!(*space.content(), vec![sym("a")]);
    assert_eq!(observer.events, vec![SpaceEvent::Add(sym("a"))]);
}

#[test]
fn replace_atom() {
    let mut space = GroundingSpace::new();
    let mut observer = SpaceEventCollector::new();
    let handle = space.register_observer();

    space.add(sym("a"));
    space.add(sym("b"));
    space.add(sym("c"));
    assert_eq!(space.replace(&sym("b"), sym("d")), true);
    space.deliver(handle, &mut observer);

    assert_eq!(*space.content(), vec![sym("a"), sym("d"), sym("c")]);
    assert_eq!(
        observer.events,
        vec![
            SpaceEvent::Add(sym("a")),
            SpaceEvent::Add(sym("b")),
            SpaceEvent::Add(sym("c")),
            SpaceEvent::Replace(sym("b"), sym("d"))
        ]
    );
}

#[test]
fn replace_atom_not_found() {
    let mut space = GroundingSpace::new();
    let mut observer = SpaceEventCollector::new();
    let handle = space.register_observer();

    space.add(sym("a"));
    assert_eq!(space.replace(&sym("b"), sym("d")), false);
    space.deliver(handle, &mut observer);

    assert_eq!(*space.content(), vec![sym("a")]);
    assert_eq!(observer.events, vec![SpaceEvent::Add(sym("a"))]);
}

#[test]
fn mut_cloned_atomspace() {
    let mut first = GroundingSpace::new();
    let mut second = first.clone();

    first.add(sym("b"));
    second.add(sym("d"));

    assert_eq!(*first.content(), vec![sym("b")]);
    assert_eq!(*second.content(), vec![sym("d")]);
}

#[test]
fn test_match_symbol() {
    let mut space = GroundingSpace::new();
    space.add(sym("foo"));
    assert_eq!(space.query(&sym("foo")), vec![bind(vec![])]);
}

#[test]
fn test_match_variable() {
    let mut space = GroundingSpace::new();
    space.add(sym("foo"));
    assert_eq!(space.query(&var("x")), vec![bind(vec![("x", sym("foo"))])]);
}

#[test]
fn test_match_expression() {
    let mut space = GroundingSpace::new();
    space.add(expr(vec![sym("+"), sym("a"), expr(vec![sym("*"), sym("b"), sym("c")])]));
    assert_eq!(
        space.query(&expr(vec![sym("+"), sym("a"), expr(vec![sym("*"), sym("b"), sym("c")])])),
        vec![bind(vec![])]
    );
}

#[test]
fn test_match_expression_with_variables() {
    let mut space = GroundingSpace::new();
    space.add(expr(vec![sym("+"), sym("A"), expr(vec![sym("*"), sym("B"), sym("C")])]));
    assert_eq!(
        space.query(&expr(vec![sym("+"), var("a"), expr(vec![sym("*"), var("b"), var("c")])])),
        vec![bind(vec![("a", sym("A")), ("b", sym("B")), ("c", sym("C"))])]
    );
}

#[test]
fn test_match_different_value_for_variable() {
    let mut space = GroundingSpace::new();
    space.add(expr(vec![sym("+"), sym("A"), expr(vec![sym("*"), sym("B"), sym("C")])]));
    assert_eq!(
        space.query(&expr(vec![sym("+"), var("a"), expr(vec![sym("*"), var("a"), var("c")])])),
        vec![]
    );
}

fn get_var<'a>(bindings: &'a Bindings, name: &str) -> &'a Atom {
    bindings.get(&VariableAtom::new(name)).unwrap()
}

#[test]
fn test_match_query_variable_has_priority() {
    let mut space = GroundingSpace::new();
    space.add(expr(vec![sym("equals"), var("x"), var("x")]));

    let result = space.query(&expr(vec![sym("equals"), var("y"), var("z")]));
    assert_eq!(result.len(), 1);
    assert!(matches!(get_var(&result[0], "y"), Atom::Variable(_)));
    assert!(matches!(get_var(&result[0], "z"), Atom::Variable(_)));
}

#[test]
fn test_match_query_variable_via_data_variable() {
    let mut space = GroundingSpace::new();
    space.add(expr(vec![var("x"), var("x")]));
    assert_eq!(
        space.query(&expr(vec![var("y"), expr(vec![var("z")])])),
        vec![bind(vec![("y", expr(vec![var("z")]))])]
    );
}

#[test]
fn test_match_if_then_with_x() {
    let mut space = GroundingSpace::new();
    space.add(expr(vec![
        sym("="),
        expr(vec![sym("if"), sym("True"), var("then")]),
        var("then"),
    ]));
    assert_eq!(
        space.query(&expr(vec![
            sym("="),
            expr(vec![sym("if"), sym("True"), sym("42")]),
            var("X")
        ])),
        vec![bind(vec![("X", sym("42"))])]
    );
}

#[test]
fn test_match_combined_query() {
    let mut space = GroundingSpace::new();
    space.add(expr(vec![sym("posesses"), sym("Sam"), sym("baloon")]));
    space.add(expr(vec![sym("likes"), sym("Sam"), expr(vec![sym("blue"), sym("stuff")])]));
    space.add(expr(vec![sym("has-color"), sym("baloon"), sym("blue")]));

    let result = space.query(&expr(vec![
        sym(","),
        expr(vec![sym("posesses"), sym("Sam"), var("object")]),
        expr(vec![sym("likes"), sym("Sam"), expr(vec![var("color"), sym("stuff")])]),
        expr(vec![sym("has-color"), var("object"), var("color")]),
    ]));
    assert_eq!(result, vec![bind(vec![("object", sym("baloon")), ("color", sym("blue"))])]);
}

#[test]
fn test_unify_variables_inside_conjunction_query() {
    let mut space = GroundingSpace::new();
    space.add(expr(vec![
        sym("lst1"),
        expr(vec![sym("Cons"), sym("a1"), expr(vec![sym("Cons"), sym("b2"), sym("b3")])]),
    ]));
    space.add(expr(vec![
        sym("lst2"),
        expr(vec![sym("Cons"), sym("a2"), expr(vec![sym("Cons"), sym("b3"), sym("b4")])]),
    ]));
    space.add(expr(vec![sym("Concat"), var("x1"), var("x2"), var("x3")]));

    let result = space.subst(
        &expr(vec![
            sym(","),
            expr(vec![sym("lst1"), var("l1")]),
            expr(vec![sym("lst2"), var("l2")]),
            expr(vec![sym("Concat"), var("l1"), sym("a2"), sym("a3")]),
        ]),
        &var("l1"),
    );
    assert_eq!(
        result,
        vec![expr(vec![sym("Cons"), sym("a1"), expr(vec![sym("Cons"), sym("b2"), sym("b3")])])]
    );
}

#[test]
fn test_type_check_in_query() {
    let mut space = GroundingSpace::new();
    space.add(expr(vec![sym(":"), sym("Human"), sym("Type")]));
    space.add(expr(vec![sym(":"), sym("Socrates"), sym("Human")]));
    space.add(expr(vec![sym("Cons"), sym("Socrates"), sym("Nil")]));

    let result = space.query(&expr(vec![
        sym(","),
        expr(vec![sym(":"), var("h"), sym("Human")]),
        expr(vec![sym("Cons"), var("h"), var("t")]),
    ]));
    assert_eq!(result, vec![bind(vec![("h", sym("Socrates")), ("t", sym("Nil"))])]);
}

#[test]
fn cleanup_observer() {
    let mut space = GroundingSpace::new();
    {
        let handle = space.register_observer();
        assert_eq!(space.observer_count(), 1);
        space.release_observer(handle);
    }

    space.add(sym("a"));

    assert_eq!(*space.content(), vec![sym("a")]);
    assert_eq!(space.observer_count(), 0);
}

#[test]
fn complex_query_applying_bindings_to_next_pattern() {
    let mut space = GroundingSpace::new();
    space.add(expr(vec![
        sym(":="),
        expr(vec![sym("sum"), var("a"), var("b")]),
        expr(vec![sym("+"), var("a"), var("b")]),
    ]));
    space.add(expr(vec![sym(":="), sym("a"), Atom::value(4)]));

    let result = space.query(&expr(vec![
        sym(","),
        expr(vec![sym(":="), sym("a"), var("b")]),
        expr(vec![sym(":="), expr(vec![sym("sum"), Atom::value(3), var("b")]), var("W")]),
    ]));

    assert_eq!(
        result,
        vec![bind(vec![
            ("b", Atom::value(4)),
            ("W", expr(vec![sym("+"), Atom::value(3), Atom::value(4)]))
        ])]
    );
}

#[test]
fn complex_query_chain_of_bindings() {
    let mut space = GroundingSpace::new();
    space.add(expr(vec![
        sym("implies"),
        expr(vec![sym("B"), var("x")]),
        expr(vec![sym("C"), var("x")]),
    ]));
    space.add(expr(vec![
        sym("implies"),
        expr(vec![sym("A"), var("x")]),
        expr(vec![sym("B"), var("x")]),
    ]));
    space.add(expr(vec![sym("A"), sym("Sam")]));

    let result = space.query(&expr(vec![
        sym(","),
        expr(vec![sym("implies"), expr(vec![sym("B"), var("x")]), var("z")]),
        expr(vec![sym("implies"), expr(vec![sym("A"), var("x")]), var("y")]),
        expr(vec![sym("A"), var("x")]),
    ]));
    assert_eq!(
        result,
        vec![bind(vec![
            ("x", sym("Sam")),
            ("y", expr(vec![sym("B"), sym("Sam")])),
            ("z", expr(vec![sym("C"), sym("Sam")]))
        ])]
    );
}

#[test]
fn test_custom_match_with_space() {
    let space = GroundingSpace::from_vec(vec![
        expr(vec![sym("A"), Atom::value(1), var("x"), sym("a")]),
        expr(vec![sym("B"), Atom::value(1), var("x"), sym("b")]),
        expr(vec![sym("A"), Atom::value(2), var("x"), sym("c")]),
    ]);
    let result: Vec<Bindings> = match_atoms(
        &Atom::gnd(space.into_grounded()),
        &expr(vec![sym("A"), Atom::value(1), var("x"), var("x")]),
    );
    assert_eq!(result, vec![bind(vec![("x", sym("a"))])]);
}

#[test]
fn grounded_space_holds_the_content() {
    let space = GroundingSpace::from_vec(vec![sym("A")]);
    assert_eq!(Atom::gnd(space.into_grounded()), Atom::gnd(GroundedAtom::Space(vec![sym("A")])));
}

#[test]
fn add_then_remove_restores_the_space() {
    let mut space = GroundingSpace::from_vec(vec![sym("A"), sym("B")]);
    let before = space.clone();
    space.add(sym("C"));
    assert_eq!(space.remove(&sym("C")), true);
    assert!(space == before);
}

#[test]
fn add_then_remove_of_an_atom_behind_another_moves_it() {
    let mut space = GroundingSpace::from_vec(vec![sym("A"), sym("B")]);
    space.add(sym("A"));
    assert_eq!(space.remove(&sym("A")), true);
    assert_eq!(*space.content(), vec![sym("B"), sym("A")]);
}

#[test]
fn remove_takes_the_first_of_equal_atoms() {
    let mut space = GroundingSpace::from_vec(vec![sym("A"), sym("B"), sym("A")]);
    assert_eq!(space.remove(&sym("A")), true);
    assert_eq!(*space.content(), vec![sym("B"), sym("A")]);
}

#[test]
fn from_vec_and_into_vec_keep_the_order() {
    let atoms = vec![sym("A"), expr(vec![sym("B"), var("x")]), sym("A")];
    let space = GroundingSpace::from_vec(atoms.clone());
    assert_eq!(*space.content(), atoms);
    assert_eq!(space.into_vec(), atoms);
}

#[test]
fn cloned_space_has_no_observers() {
    let mut space = GroundingSpace::new();
    space.register_observer();
    let copy = space.clone();
    assert_eq!(space.observer_count(), 1);
    assert_eq!(copy.observer_count(), 0);
}

#[test]
fn observers_are_told_in_the_order_of_the_events() {
    let mut space = GroundingSpace::new();
    let first = space.register_observer();
    space.add(sym("A"));
    let second = space.register_observer();
    space.replace(&sym("A"), sym("B"));
    space.remove(&sym("missing"));
    space.remove(&sym("B"));

    assert_eq!(
        space.take_events(first),
        vec![
            SpaceEvent::Add(sym("A")),
            SpaceEvent::Replace(sym("A"), sym("B")),
            SpaceEvent::Remove(sym("B"))
        ]
    );
    assert_eq!(space.take_events(first), vec![]);
    assert_eq!(
        space.take_events(second),
        vec![SpaceEvent::Replace(sym("A"), sym("B")), SpaceEvent::Remove(sym("B"))]
    );
    assert_eq!(space.take_events(99), vec![]);
}

#[test]
fn released_observer_stays_until_the_next_event() {
    let mut space = GroundingSpace::new();
    let first = space.register_observer();
    let second = space.register_observer();
    space.release_observer(first);
    assert_eq!(space.observer_count(), 2);
    space.add(sym("A"));
    assert_eq!(space.observer_count(), 1);
    assert_eq!(space.take_events(first), vec![]);
    assert_eq!(space.take_events(second), vec![SpaceEvent::Add(sym("A"))]);
}

#[test]
fn subst_applies_each_result_to_the_template() {
    let space = GroundingSpace::from_vec(vec![
        expr(vec![sym("A"), sym("B")]),
        expr(vec![sym("A"), sym("C")]),
    ]);
    assert_eq!(
        space.subst(&expr(vec![sym("A"), var("x")]), &expr(vec![sym("D"), var("x")])),
        vec![expr(vec![sym("D"), sym("B")]), expr(vec![sym("D"), sym("C")])]
    );
}

#[test]
fn query_with_sub_queries_glued_by_comma() {
    let space = GroundingSpace::from_vec(vec![
        expr(vec![sym("A"), sym("B")]),
        expr(vec![sym("B"), sym("C")]),
    ]);
    let query = expr(vec![
        sym(","),
        expr(vec![sym("A"), var("x")]),
        expr(vec![var("x"), sym("C")]),
    ]);
    assert_eq!(space.query(&query), vec![bind(vec![("x", sym("B"))])]);
}

#[test]
fn candidates_come_from_the_index() {
    let mut space = GroundingSpace::new();
    space.add(expr(vec![sym("A"), sym("B")]));
    space.add(sym("C"));
    space.add(expr(vec![sym("A"), sym("D")]));
    let mut found = space.candidates(&expr(vec![sym("A"), var("x")]));
    found.sort();
    found.dedup();
    assert_eq!(found, vec![0, 2]);
    assert_eq!(space.remove(&sym("C")), true);
    assert_eq!(space.candidates(&sym("C")), vec![]);
    assert_eq!(space.replace(&expr(vec![sym("A"), sym("B")]), sym("E")), true);
    assert_eq!(space.candidates(&sym("E")), vec![0]);
}

#[test]
fn variables_of_different_atoms_stay_apart_in_a_conjunction() {
    let space = GroundingSpace::from_vec(vec![
        expr(vec![sym("P"), var("x")]),
        expr(vec![sym("Q"), var("x")]),
        expr(vec![sym("R"), sym("A"), sym("B")]),
    ]);
    let result = space.query(&expr(vec![
        sym(","),
        expr(vec![sym("P"), var("a")]),
        expr(vec![sym("Q"), var("b")]),
    ]));
    assert_eq!(result.len(), 1);
    assert!(matches!(get_var(&result[0], "a"), Atom::Variable(_)));
    assert!(matches!(get_var(&result[0], "b"), Atom::Variable(_)));
    assert_ne!(get_var(&result[0], "a"), get_var(&result[0], "b"));

    let result = space.query(&expr(vec![
        sym(","),
        expr(vec![sym("P"), var("a")]),
        expr(vec![sym("Q"), var("b")]),
        expr(vec![sym("R"), var("a"), var("b")]),
    ]));
    assert_eq!(result, vec![bind(vec![("a", sym("A")), ("b", sym("B"))])]);
}

#[test]
fn variables_of_the_content_stay_apart_from_those_of_later_sub_queries() {
    let space = GroundingSpace::from_vec(vec![
        expr(vec![sym("P"), Atom::Variable(VariableAtom { name: "b".to_string(), id: 4 })]),
        expr(vec![sym("Q"), sym("C")]),
    ]);
    let later = Atom::Variable(VariableAtom { name: "b".to_string(), id: 5 });
    let result = space.query(&expr(vec![
        sym(","),
        expr(vec![sym("P"), var("a")]),
        expr(vec![sym("Q"), later.clone()]),
    ]));
    assert_eq!(result.len(), 1);
    assert!(matches!(get_var(&result[0], "a"), Atom::Variable(_)));
    assert_ne!(get_var(&result[0], "a"), &later);
    assert_eq!(
        result[0].get(&VariableAtom { name: "b".to_string(), id: 5 }),
        Some(&sym("C"))
    );
}
