use hyperon_core::atom::{Atom, GroundedAtom};
use hyperon_core::interpreter::{interpret_init, interpret_step, ExecError, InterpreterState};
use hyperon_core::space::GroundingSpace;

fn sym(name: &str) -> Atom {
    Atom::sym(name)
}

fn var(name: &str) -> Atom {
    Atom::var(name)
}

fn expr(children: Vec<Atom>) -> Atom {
    Atom::expr(children)
}

fn plus() -> Atom {
    Atom::gnd(GroundedAtom::Host { id: 1, label: "plus".to_string(), executable: true })
}

fn run(space: &GroundingSpace, mut state: InterpreterState) -> InterpreterState {
    let mut steps = 0;
    while state.has_next() && state.pending_call().is_none() {
        state = interpret_step(space, state);
        steps += 1;
        assert!(steps < 100);
    }
    state
}

#[test]
fn rewrite_reduction() {
    let space = GroundingSpace::from_vec(vec![expr(vec![
        sym("="),
        expr(vec![sym("if"), sym("True"), var("t")]),
        var("t"),
    ])]);
    let state = interpret_init(&space, &expr(vec![sym("if"), sym("True"), sym("42")]));
    assert!(state.has_next());
    let state = run(&space, state);
    assert!(!state.has_next());
    assert_eq!(state.into_result(), Ok(vec![sym("42")]));
}

#[test]
fn data_is_its_own_result() {
    let space = GroundingSpace::from_vec(vec![expr(vec![sym("="), sym("A"), sym("B")])]);
    let state = interpret_init(&space, &sym("foo"));
    assert!(!state.has_next());
    assert_eq!(state.into_result(), Ok(vec![sym("foo")]));

    let atom = expr(vec![sym("foo"), sym("bar")]);
    let state = interpret_init(&space, &atom);
    assert!(!state.has_next());
    let state = interpret_step(&space, state);
    assert!(!state.has_next());
    assert_eq!(state.into_result(), Ok(vec![atom]));
}

#[test]
fn each_matching_rule_gives_a_result() {
    let space = GroundingSpace::from_vec(vec![
        expr(vec![sym("="), expr(vec![sym("color")]), sym("red")]),
        expr(vec![sym("="), expr(vec![sym("shape")]), sym("round")]),
        expr(vec![sym("="), expr(vec![sym("color")]), sym("green")]),
    ]);
    let state = run(&space, interpret_init(&space, &expr(vec![sym("color")])));
    assert_eq!(state.into_result(), Ok(vec![sym("red"), sym("green")]));
}

#[test]
fn rules_are_followed_in_a_chain() {
    let space = GroundingSpace::from_vec(vec![
        expr(vec![sym("="), expr(vec![sym("f"), var("x")]), expr(vec![sym("g"), var("x")])]),
        expr(vec![sym("="), expr(vec![sym("g"), sym("A")]), sym("done")]),
    ]);
    let state = run(&space, interpret_init(&space, &expr(vec![sym("f"), sym("A")])));
    assert_eq!(state.into_result(), Ok(vec![sym("done")]));
}

#[test]
fn executable_head_waits_for_the_host() {
    let space = GroundingSpace::new();
    let call = expr(vec![plus(), Atom::value(1), Atom::value(2)]);
    let state = interpret_init(&space, &call);
    assert!(state.has_next());
    assert_eq!(state.pending_call(), Some(&call));
    let state = interpret_step(&space, state);
    assert_eq!(state.pending_call(), Some(&call));
    let state = state.provide(Ok(vec![Atom::value(3)]));
    assert!(!state.has_next());
    assert_eq!(state.into_result(), Ok(vec![Atom::value(3)]));
}

#[test]
fn host_failure_is_the_error_of_a_plan_without_results() {
    let space = GroundingSpace::new();
    let call = expr(vec![plus(), sym("A")]);
    let state = interpret_init(&space, &call);
    let state = state.provide(Err(ExecError::Runtime("not a number".to_string())));
    assert!(!state.has_next());
    assert_eq!(state.into_result(), Err("not a number".to_string()));
}

#[test]
fn host_failure_does_not_stop_the_other_branches() {
    let space = GroundingSpace::from_vec(vec![
        expr(vec![sym("="), expr(vec![sym("both")]), expr(vec![plus(), sym("A")])]),
        expr(vec![sym("="), expr(vec![sym("both")]), sym("plain")]),
    ]);
    let state = run(&space, interpret_init(&space, &expr(vec![sym("both")])));
    assert_eq!(state.pending_call(), Some(&expr(vec![plus(), sym("A")])));
    let state = state.provide(Err(ExecError::Runtime("not a number".to_string())));
    let state = run(&space, state);
    assert!(!state.has_next());
    assert_eq!(state.into_result(), Ok(vec![sym("plain")]));
}

#[test]
fn host_that_does_not_reduce_leaves_the_expression() {
    let space = GroundingSpace::new();
    let call = expr(vec![plus(), sym("A")]);
    let state = interpret_init(&space, &call).provide(Err(ExecError::NoReduce));
    assert_eq!(state.into_result(), Ok(vec![call.clone()]));
    let state = interpret_init(&space, &call).provide(Ok(vec![]));
    assert_eq!(state.into_result(), Ok(vec![call]));
}

#[test]
fn host_may_return_several_atoms() {
    let space = GroundingSpace::new();
    let call = expr(vec![plus(), sym("A")]);
    let state = interpret_init(&space, &call).provide(Ok(vec![sym("x"), sym("y")]));
    assert_eq!(state.into_result(), Ok(vec![sym("x"), sym("y")]));
}

#[test]
fn answer_without_a_waiting_call_changes_nothing() {
    let space = GroundingSpace::new();
    let state = interpret_init(&space, &sym("A")).provide(Ok(vec![sym("B")]));
    assert_eq!(state.into_result(), Ok(vec![sym("A")]));
}

#[test]
fn grounded_head_that_cannot_be_executed_is_data() {
    let space = GroundingSpace::new();
    let atom = expr(vec![Atom::value(1), sym("A")]);
    let state = interpret_init(&space, &atom);
    assert!(!state.has_next());
    assert_eq!(state.into_result(), Ok(vec![atom]));
}

#[test]
fn variables_of_rules_stay_apart_along_a_chain() {
    let space = GroundingSpace::from_vec(vec![
        expr(vec![
            sym("="),
            expr(vec![sym("f"), var("x")]),
            expr(vec![sym("g"), var("x"), var("y")]),
        ]),
        expr(vec![
            sym("="),
            expr(vec![sym("g"), var("x"), var("y")]),
            expr(vec![sym("h"), var("y"), var("x")]),
        ]),
    ]);
    let state = run(&space, interpret_init(&space, &expr(vec![sym("f"), sym("A")])));
    let result = state.into_result().unwrap();
    assert_eq!(result.len(), 1);
    match &result[0] {
        Atom::Expression(e) => {
            assert_eq!(e.children().len(), 3);
            assert_eq!(e.children()[0], sym("h"));
            assert!(matches!(e.children()[1], Atom::Variable(_)));
            assert_eq!(e.children()[2], sym("A"));
        }
        _ => panic!("an expression is expected"),
    }
}
