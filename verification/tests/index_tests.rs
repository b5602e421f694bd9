use hyperon_core::atom::Atom;
use hyperon_core::atom::ExpressionAtom;
use hyperon_core::index::{IndexKey, IndexTree};

fn sym(name: &str) -> Atom {
    Atom::sym(name)
}

fn var(name: &str) -> Atom {
    Atom::var(name)
}

fn expr(children: Vec<Atom>) -> Atom {
    Atom::expr(children)
}

fn to_vec(mut found: Vec<u64>) -> Vec<u64> {
    found.sort();
    found
}

#[test]
fn index_tree_add_atom_basic() {
    let mut index = IndexTree::new();
    index.add(&Atom::sym("A"), 1);
    index.add(&Atom::value(1), 2);
    index.add(&Atom::var("a"), 3);
    index.add(&expr(vec![sym("A"), sym("B")]), 4);

    assert_eq!(to_vec(index.get(&Atom::sym("A"))), vec![1, 2, 3]);
    assert_eq!(to_vec(index.get(&Atom::sym("B"))), vec![2, 3]);

    assert_eq!(to_vec(index.get(&Atom::value(1))), vec![1, 2, 3, 4]);
    assert_eq!(to_vec(index.get(&Atom::value(2))), vec![1, 2, 3, 4]);

    assert_eq!(to_vec(index.get(&expr(vec![sym("A"), sym("B")]))), vec![2, 3, 4]);
    assert_eq!(to_vec(index.get(&expr(vec![sym("A"), sym("C")]))), vec![2, 3]);
}

#[test]
fn index_tree_add_atom_expr() {
    let mut index = IndexTree::new();
    index.add(&expr(vec![expr(vec![sym("A")]), sym("B")]), 1);
    index.add(&expr(vec![var("a"), sym("C")]), 2);

    assert_eq!(to_vec(index.get(&expr(vec![var("a"), sym("B")]))), vec![1]);
    assert_eq!(to_vec(index.get(&expr(vec![expr(vec![sym("A")]), sym("C")]))), vec![2]);
}

#[test]
fn keys_from_atom_gives_the_keys_as_a_stack() {
    let atom = expr(vec![sym("A"), var("x")]);
    let keys = IndexKey::keys_from_atom(&atom).unwrap();
    let expected = vec![
        IndexKey::ExpressionEnd,
        IndexKey::Wildcard,
        IndexKey::Symbol("A".to_string()),
        IndexKey::ExpressionBegin(ExpressionAtom::new(vec![sym("A"), var("x")]), 3),
    ];
    assert_eq!(keys.len(), expected.len());
    for (key, other) in keys.iter().zip(expected.iter()) {
        assert!(key.same(other));
    }
}

#[test]
fn keys_from_atom_counts_the_keys_of_nested_expressions() {
    let atom = expr(vec![expr(vec![sym("A")]), sym("B")]);
    let keys = IndexKey::keys_from_atom(&atom).unwrap();
    let expected = vec![
        IndexKey::ExpressionEnd,
        IndexKey::Symbol("B".to_string()),
        IndexKey::ExpressionEnd,
        IndexKey::Symbol("A".to_string()),
        IndexKey::ExpressionBegin(ExpressionAtom::new(vec![sym("A")]), 2),
        IndexKey::ExpressionBegin(
            ExpressionAtom::new(vec![expr(vec![sym("A")]), sym("B")]),
            5,
        ),
    ];
    assert_eq!(keys.len(), expected.len());
    for (key, other) in keys.iter().zip(expected.iter()) {
        assert!(key.same(other));
    }
}

#[test]
fn keys_from_atom_of_a_grounded_value_is_the_wildcard() {
    let keys = IndexKey::keys_from_atom(&Atom::value(5)).unwrap();
    assert_eq!(keys.len(), 1);
    assert!(keys[0].same(&IndexKey::Wildcard));
    assert!(!keys[0].same(&IndexKey::ExpressionEnd));
}

#[test]
fn index_finds_what_is_stored_for_an_equal_pattern() {
    let mut index = IndexTree::new();
    let atom = expr(vec![sym("A"), expr(vec![var("x"), Atom::value(1)])]);
    index.add(&atom, 7);
    index.add(&expr(vec![sym("A"), sym("B")]), 8);
    index.add(&sym("A"), 9);
    assert!(index.get(&atom).contains(&7));
}

#[test]
fn index_remove_takes_one_payload_from_the_node_of_the_atom() {
    let mut index = IndexTree::new();
    index.add(&sym("A"), 1);
    index.add(&sym("A"), 2);
    index.add(&sym("A"), 1);
    assert_eq!(index.get(&sym("A")), vec![1, 2, 1]);

    assert!(index.remove(&sym("A"), &1));
    assert_eq!(index.get(&sym("A")), vec![2, 1]);
    assert!(!index.remove(&sym("A"), &3));
    assert!(!index.remove(&sym("B"), &1));
    assert_eq!(index.get(&sym("A")), vec![2, 1]);
}

#[test]
fn index_remove_leaves_the_payload_behind_a_passed_over_expression() {
    let mut index = IndexTree::new();
    let atom = expr(vec![sym("A"), sym("B")]);
    index.add(&atom, 4);
    assert_eq!(to_vec(index.get(&var("x"))), vec![4]);
    assert!(index.remove(&atom, &4));
    assert_eq!(to_vec(index.get(&atom)), vec![]);
    assert_eq!(to_vec(index.get(&var("x"))), vec![4]);
}

#[test]
fn index_misses_an_atom_behind_an_equal_expression() {
    let mut index = IndexTree::new();
    index.add(&expr(vec![var("x"), sym("B")]), 1);
    index.add(&expr(vec![sym("A"), sym("B")]), 2);
    assert_eq!(to_vec(index.get(&expr(vec![var("x"), sym("B")]))), vec![1]);
    assert_eq!(to_vec(index.get(&expr(vec![var("y"), sym("B")]))), vec![1, 2]);
}

#[test]
fn cloned_index_holds_the_same() {
    let mut index = IndexTree::new();
    index.add(&expr(vec![sym("A"), sym("B")]), 4);
    let copy = index.clone();
    index.add(&sym("A"), 5);
    assert_eq!(to_vec(copy.get(&var("x"))), vec![4]);
    assert_eq!(to_vec(index.get(&var("x"))), vec![4, 5]);
}
