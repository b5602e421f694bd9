//! Variable bindings: finite maps from variables to atoms, kept solved, so
//! that no bound variable occurs in a bound atom.

use crate::atom::{
    atom_eq, atom_has_var, atoms_view, clone_atom, lemma_vars_of_seq, max_id, max_var_id, vars_of,
    vars_of_seq, Atom, AtomView, ExpressionAtom, VarView, VariableAtom,
};
use vstd::prelude::*;
use vstd::std_specs::cmp::PartialEqSpecImpl;

verus! {

broadcast use vstd::std_specs::vec::group_vec_axioms;

/// Mathematical model of bindings: the entries in the order in which they were
/// made, each a variable and the atom bound to it.
pub type BindingsView = Seq<(VarView, AtomView)>;

/// Why a binding was refused.
#[derive(Debug, Clone, Copy, PartialEq, Eq, Structural)]
pub enum BindingsError {
    /// The variable occurs in the atom that it was to be bound to.
    OccursCheck,
    /// The variable is already bound to an atom that cannot be made equal to
    /// the new one.
    Conflict,
}

/// A finite map from variables to atoms. No variable is bound twice, and no
/// bound variable occurs in a bound atom: the bindings bind no variable to
/// itself and are not changed by being applied to themselves.
#[derive(Debug)]
pub struct Bindings {
    entries: Vec<(VariableAtom, Atom)>,
}

/// The models of a list of entries.
pub open spec fn entries_view(s: Seq<(VariableAtom, Atom)>) -> BindingsView {
    Seq::new(s.len(), |i: int| (s[i].0@, s[i].1@))
}

/// No variable is bound twice.
pub open spec fn keys_distinct(s: BindingsView) -> bool {
    forall|i: int, j: int| 0 <= i < j < s.len() ==> (#[trigger] s[i]).0 != (#[trigger] s[j]).0
}

/// Whether the variable is bound.
pub open spec fn has_key(s: BindingsView, v: VarView) -> bool {
    exists|i: int| 0 <= i < s.len() && (#[trigger] s[i]).0 == v
}

/// The place of an entry that binds the variable.
pub open spec fn key_index(s: BindingsView, v: VarView) -> int {
    choose|i: int| 0 <= i < s.len() && (#[trigger] s[i]).0 == v
}

/// The atom bound to the variable, if any.
pub open spec fn lookup(s: BindingsView, v: VarView) -> Option<AtomView> {
    if has_key(s, v) {
        Some(s[key_index(s, v)].1)
    } else {
        None
    }
}

/// The atom with each bound variable replaced by the atom bound to it, in one
/// pass: what is put in is not looked through again, and variables that are
/// not bound stay. Grounded values are left as they are.
pub open spec fn subst(a: AtomView, s: BindingsView) -> AtomView
    decreases a,
{
    match a {
        AtomView::Variable(v) => match lookup(s, v) {
            Some(t) => t,
            None => a,
        },
        AtomView::Expression(c) => AtomView::Expression(subst_seq(c, s)),
        _ => a,
    }
}

/// `subst` on each atom of a sequence.
pub open spec fn subst_seq(c: Seq<AtomView>, s: BindingsView) -> Seq<AtomView>
    decreases c,
{
    Seq::new(
        c.len(),
        |i: int|
            if 0 <= i < c.len() {
                subst(c[i], s)
            } else {
                AtomView::Symbol(Seq::empty())
            },
    )
}

/// The entries with `var` replaced by `t` in every bound atom.
pub open spec fn eliminate(s: BindingsView, var: VarView, t: AtomView) -> BindingsView {
    Seq::new(s.len(), |i: int| (s[i].0, subst(s[i].1, seq![(var, t)])))
}

/// What binding the variable `var`, which `s` does not bind, to the atom `t`
/// makes of the bindings `s`.
///
/// Binding a variable to itself changes nothing. A variable that occurs in
/// `t` is refused. Otherwise the new entry is put last, and the variable is
/// replaced by `t` in every atom bound before.
pub open spec fn spec_bind(s: BindingsView, var: VarView, t: AtomView) -> Result<
    BindingsView,
    BindingsError,
> {
    if t == AtomView::Variable(var) {
        Ok(s)
    } else if vars_of(t).contains(var) {
        Err(BindingsError::OccursCheck)
    } else {
        Ok(eliminate(s, var, t).push((var, t)))
    }
}

/// Whether the atom is a variable that `s` does not bind.
pub open spec fn is_free_var(s: BindingsView, a: AtomView) -> bool {
    match a {
        AtomView::Variable(w) => lookup(s, w) is None,
        _ => false,
    }
}

/// What binding `var` to `atom` makes of the bindings `s`, where a variable
/// that is bound already is not looked into.
///
/// The atom is first rewritten by `s`. A variable that is not bound yet is
/// bound to it as `spec_bind` says. A variable that is bound already must be
/// bound to that very atom, with one way out: where the atom bound before, or
/// else the new one, is a variable that is not bound, that variable is bound
/// to the other atom. Anything else is a conflict.
pub open spec fn spec_insert_flat(s: BindingsView, var: VarView, atom: AtomView) -> Result<
    BindingsView,
    BindingsError,
> {
    let t = subst(atom, s);
    match lookup(s, var) {
        Some(prev) => if prev == t {
            Ok(s)
        } else if is_free_var(s, prev) {
            spec_bind(s, prev->Variable_0, t)
        } else if is_free_var(s, t) {
            spec_bind(s, t->Variable_0, prev)
        } else {
            Err(BindingsError::Conflict)
        },
        None => spec_bind(s, var, t),
    }
}

/// What making the atoms `a` and `b` equal makes of the bindings `s`.
///
/// Where one of the two is a variable, it is bound to the other as
/// `spec_insert_flat` says. Symbols and grounded values must be equal.
/// Expressions must have the same number of children, which are made equal
/// in pairs, from left to right. Anything else is a conflict.
pub open spec fn spec_equate(a: AtomView, b: AtomView, s: BindingsView) -> Result<
    BindingsView,
    BindingsError,
>
    decreases a,
{
    match (a, b) {
        (AtomView::Variable(w), _) => spec_insert_flat(s, w, b),
        (_, AtomView::Variable(w)) => spec_insert_flat(s, w, a),
        (AtomView::Symbol(x), AtomView::Symbol(y)) => if x == y {
            Ok(s)
        } else {
            Err(BindingsError::Conflict)
        },
        (AtomView::Grounded(x), AtomView::Grounded(y)) => if x == y {
            Ok(s)
        } else {
            Err(BindingsError::Conflict)
        },
        (AtomView::Expression(xs), AtomView::Expression(ys)) => if xs.len() == ys.len() {
            spec_equate_seq(xs, ys, s)
        } else {
            Err(BindingsError::Conflict)
        },
        _ => Err(BindingsError::Conflict),
    }
}

/// `spec_equate` on the pairs of two sequences of the same length, from
/// left to right; the first refusal ends it.
pub open spec fn spec_equate_seq(xs: Seq<AtomView>, ys: Seq<AtomView>, s: BindingsView) -> Result<
    BindingsView,
    BindingsError,
>
    decreases xs,
{
    if xs.len() == 0 || ys.len() == 0 {
        Ok(s)
    } else {
        match spec_equate_seq(xs.drop_last(), ys.drop_last(), s) {
            Err(e) => Err(e),
            Ok(s1) => spec_equate(xs.last(), ys.last(), s1),
        }
    }
}

/// What binding `var` to `atom` makes of the bindings `s`.
///
/// The atom is first rewritten by `s`. A variable that is not bound yet is
/// bound to it as `spec_bind` says. A variable that is bound already keeps
/// its atom where that is the very atom; else the atom bound before and the
/// new one are made equal as `spec_equate` says.
pub open spec fn spec_insert(s: BindingsView, var: VarView, atom: AtomView) -> Result<
    BindingsView,
    BindingsError,
> {
    let t = subst(atom, s);
    match lookup(s, var) {
        Some(prev) => if prev == t {
            Ok(s)
        } else {
            spec_equate(prev, t, s)
        },
        None => spec_bind(s, var, t),
    }
}

/// What binding each entry of `b`, in order, makes of `acc`; the first refusal
/// ends it.
pub open spec fn insert_each(acc: BindingsView, b: BindingsView) -> Result<
    BindingsView,
    BindingsError,
>
    decreases b.len(),
{
    if b.len() == 0 {
        Ok(acc)
    } else {
        match insert_each(acc, b.drop_last()) {
            Err(e) => Err(e),
            Ok(r) => spec_insert(r, b.last().0, b.last().1),
        }
    }
}

/// What binding each entry of `b`, in order, makes of `acc`; `None` where one
/// is refused.
pub open spec fn insert_all(acc: BindingsView, b: BindingsView) -> Option<BindingsView> {
    match insert_each(acc, b) {
        Ok(r) => Some(r),
        Err(_) => None,
    }
}

/// The greatest freshness counter among the variables that the bindings bind
/// and those of the atoms bound to them; 0 where nothing is bound.
pub open spec fn bindings_max_id(s: BindingsView) -> nat
    decreases s.len(),
{
    if s.len() == 0 {
        0
    } else {
        let rest = bindings_max_id(s.drop_last());
        let key = s.last().0.id;
        let value = max_var_id(s.last().1);
        if rest >= key && rest >= value {
            rest
        } else if key >= value {
            key
        } else {
            value
        }
    }
}

/// The entries whose variable occurs in the atom `a`, in their order.
pub open spec fn restrict(s: BindingsView, a: AtomView) -> BindingsView {
    s.filter(|e: (VarView, AtomView)| vars_of(a).contains(e.0))
}

/// The entries of `dst` with `src` applied to each bound atom.
pub open spec fn subst_values(src: BindingsView, dst: BindingsView) -> BindingsView {
    Seq::new(dst.len(), |i: int| (dst[i].0, subst(dst[i].1, src)))
}

/// The bindings `dst` with `src` applied to each bound atom: the entries so
/// made are bound one by one, starting from nothing, which keeps the result
/// solved; the first refusal ends it.
pub open spec fn spec_apply_to_bindings(src: BindingsView, dst: BindingsView) -> Result<
    BindingsView,
    BindingsError,
> {
    insert_each(Seq::empty(), subst_values(src, dst))
}

/// No bound variable occurs in any bound atom. Such bindings bind no variable
/// to itself, pass the occurs check, and are not changed by being applied to
/// themselves.
pub open spec fn is_solved(s: BindingsView) -> bool {
    forall|i: int, j: int|
        0 <= i < s.len() && 0 <= j < s.len() ==> !vars_of((#[trigger] s[i]).1).contains(
            (#[trigger] s[j]).0,
        )
}

/// Two lists of entries bind the same variables to the same atoms.
pub open spec fn same_bindings(a: BindingsView, b: BindingsView) -> bool {
    &&& a.len() == b.len()
    &&& forall|i: int| 0 <= i < a.len() ==> lookup(b, (#[trigger] a[i]).0) == Some(a[i].1)
}

/// With distinct keys, the entry found for a variable is the one that binds it.
pub proof fn lemma_lookup_at(s: BindingsView, i: int)
    requires
        keys_distinct(s),
        0 <= i < s.len(),
    ensures
        lookup(s, s[i].0) == Some(s[i].1),
        has_key(s, s[i].0),
{
    let v = s[i].0;
    assert(has_key(s, v));
    let k = key_index(s, v);
    if k < i {
        assert(s[k].0 != s[i].0);
    } else if i < k {
        assert(s[i].0 != s[k].0);
    }
}

/// No variable that `s` binds occurs in the atom `t`.
pub open spec fn no_keys_in(s: BindingsView, t: AtomView) -> bool {
    forall|j: int| 0 <= j < s.len() ==> !vars_of(t).contains((#[trigger] s[j]).0)
}

/// A variable that is not bound is the key of no entry.
pub proof fn lemma_lookup_none(s: BindingsView, v: VarView)
    requires
        lookup(s, v) is None,
    ensures
        forall|j: int| 0 <= j < s.len() ==> (#[trigger] s[j]).0 != v,
{
    assert forall|j: int| 0 <= j < s.len() implies (#[trigger] s[j]).0 != v by {
        if s[j].0 == v {
            assert(has_key(s, v));
        }
    }
}

/// A variable of an atom to which bindings were applied was in the atom and
/// is not bound, or occurs in one of the bound atoms.
pub proof fn lemma_subst_vars(a: AtomView, s: BindingsView, v: VarView)
    requires
        vars_of(subst(a, s)).contains(v),
    ensures
        (vars_of(a).contains(v) && lookup(s, v) is None) || exists|i: int|
            0 <= i < s.len() && vars_of((#[trigger] s[i]).1).contains(v),
    decreases a,
{
    match a {
        AtomView::Variable(w) => {
            if lookup(s, w) is Some {
                let i = key_index(s, w);
                assert(vars_of(s[i].1).contains(v));
            }
        },
        AtomView::Expression(c) => {
            let d = subst_seq(c, s);
            lemma_vars_of_seq(d, v);
            let k = choose|k: int| 0 <= k < d.len() && #[trigger] vars_of(d[k]).contains(v);
            assert(d[k] == subst(c[k], s));
            lemma_subst_vars(c[k], s, v);
            if vars_of(c[k]).contains(v) {
                lemma_vars_of_seq(c, v);
            }
        },
        _ => {},
    }
}

/// Bindings that bind none of the variables of an atom leave it as it is.
pub proof fn lemma_subst_identity(a: AtomView, s: BindingsView)
    requires
        forall|v: VarView| vars_of(a).contains(v) ==> lookup(s, v) is None,
    ensures
        subst(a, s) == a,
    decreases a,
{
    match a {
        AtomView::Variable(w) => {
            assert(vars_of(a).contains(w));
        },
        AtomView::Expression(c) => {
            assert forall|k: int| 0 <= k < c.len() implies subst(#[trigger] c[k], s) == c[k] by {
                assert forall|v: VarView| vars_of(c[k]).contains(v) implies lookup(s, v)
                    is None by {
                    lemma_vars_of_seq(c, v);
                    assert(vars_of_seq(c).contains(v));
                    assert(vars_of(a).contains(v));
                }
                lemma_subst_identity(c[k], s);
            }
            assert(subst_seq(c, s) =~= c);
        },
        _ => {},
    }
}

/// Solved bindings, applied to an atom, leave none of their variables in it.
pub proof fn lemma_subst_no_keys(a: AtomView, s: BindingsView)
    requires
        keys_distinct(s),
        is_solved(s),
    ensures
        no_keys_in(s, subst(a, s)),
{
    assert forall|j: int| 0 <= j < s.len() implies !vars_of(subst(a, s)).contains(
        (#[trigger] s[j]).0,
    ) by {
        let v = s[j].0;
        if vars_of(subst(a, s)).contains(v) {
            lemma_subst_vars(a, s, v);
            lemma_lookup_at(s, j);
        }
    }
}

/// Binding a variable that is not bound to an atom that holds no bound
/// variable keeps solved bindings solved.
pub proof fn lemma_bind_solved(s: BindingsView, var: VarView, t: AtomView)
    requires
        keys_distinct(s),
        is_solved(s),
        lookup(s, var) is None,
        no_keys_in(s, t),
    ensures
        match spec_bind(s, var, t) {
            Ok(r) => keys_distinct(r) && is_solved(r),
            Err(_) => true,
        },
{
    if t != AtomView::Variable(var) && !vars_of(t).contains(var) {
        let one = seq![(var, t)];
        let r = eliminate(s, var, t).push((var, t));
        let n = s.len() as int;
        lemma_lookup_none(s, var);
        assert(keys_distinct(r)) by {
            assert forall|i: int, j: int| 0 <= i < j < r.len() implies (#[trigger] r[i]).0 != (
            #[trigger] r[j]).0 by {
                if j < n {
                    assert(s[i].0 != s[j].0);
                } else {
                    assert(s[i].0 != var);
                }
            }
        }
        assert forall|i: int, j: int| 0 <= i < r.len() && 0 <= j < r.len() implies !vars_of(
            (#[trigger] r[i]).1,
        ).contains((#[trigger] r[j]).0) by {
            let v = r[j].0;
            if vars_of(r[i].1).contains(v) {
                if i < n {
                    assert(r[i].1 == subst(s[i].1, one));
                    lemma_subst_vars(s[i].1, one, v);
                    if vars_of(s[i].1).contains(v) && lookup(one, v) is None {
                        if j < n {
                            assert(!vars_of(s[i].1).contains(s[j].0));
                        } else {
                            assert(one[0].0 == var);
                            assert(has_key(one, var));
                        }
                    } else {
                        let k = choose|k: int|
                            0 <= k < one.len() && vars_of((#[trigger] one[k]).1).contains(v);
                        assert(one[k].1 == t);
                        if j < n {
                            assert(!vars_of(t).contains(s[j].0));
                        }
                    }
                } else {
                    if j < n {
                        assert(!vars_of(t).contains(s[j].0));
                    }
                }
            }
        }
    }
}

/// A bound atom of solved bindings holds no bound variable.
pub proof fn lemma_value_no_keys(s: BindingsView, v: VarView)
    requires
        keys_distinct(s),
        is_solved(s),
        lookup(s, v) is Some,
    ensures
        no_keys_in(s, lookup(s, v).unwrap()),
{
    let i = key_index(s, v);
    assert forall|j: int| 0 <= j < s.len() implies !vars_of(s[i].1).contains(
        (#[trigger] s[j]).0,
    ) by {}
}

/// Binding without looking into bound variables keeps solved bindings
/// solved.
pub proof fn lemma_insert_flat_solved(s: BindingsView, var: VarView, atom: AtomView)
    requires
        keys_distinct(s),
        is_solved(s),
    ensures
        match spec_insert_flat(s, var, atom) {
            Ok(r) => keys_distinct(r) && is_solved(r),
            Err(_) => true,
        },
{
    let t = subst(atom, s);
    lemma_subst_no_keys(atom, s);
    match lookup(s, var) {
        Some(prev) => {
            lemma_value_no_keys(s, var);
            if prev != t {
                if is_free_var(s, prev) {
                    lemma_bind_solved(s, prev->Variable_0, t);
                } else if is_free_var(s, t) {
                    lemma_bind_solved(s, t->Variable_0, prev);
                }
            }
        },
        None => {
            lemma_bind_solved(s, var, t);
        },
    }
}

/// Solved bindings are not changed by being applied to themselves.
pub proof fn lemma_solved_fixed_point(s: BindingsView)
    requires
        keys_distinct(s),
        is_solved(s),
    ensures
        subst_values(s, s) == s,
{
    assert forall|i: int| 0 <= i < s.len() implies subst((#[trigger] s[i]).1, s) == s[i].1 by {
        assert forall|v: VarView| vars_of(s[i].1).contains(v) implies lookup(s, v) is None by {
            if lookup(s, v) is Some {
                let j = key_index(s, v);
                assert(!vars_of(s[i].1).contains(s[j].0));
            }
        }
        lemma_subst_identity(s[i].1, s);
    }
    assert(subst_values(s, s) =~= s);
}

/// The bindings `s2` go on from `s`: applying `s2` gives the same whether or
/// not `s` was applied before. What `s` makes equal, `s2` makes equal too.
#[verifier::opaque]
pub open spec fn refines(s: BindingsView, s2: BindingsView) -> bool {
    forall|x: AtomView| #[trigger] subst(x, s2) == subst(subst(x, s), s2)
}

/// What going on says of one atom.
pub proof fn lemma_refines_apply(s: BindingsView, s2: BindingsView, x: AtomView)
    requires
        refines(s, s2),
    ensures
        subst(x, s2) == subst(subst(x, s), s2),
{
    reveal(refines);
}

/// Bindings that go on from others make equal what the others make equal.
pub proof fn lemma_refines_keeps_equal(s: BindingsView, s2: BindingsView, x: AtomView, y: AtomView)
    requires
        refines(s, s2),
        subst(x, s) == subst(y, s),
    ensures
        subst(x, s2) == subst(y, s2),
{
    lemma_refines_apply(s, s2, x);
    lemma_refines_apply(s, s2, y);
}

/// Applying solved bindings a second time changes nothing.
pub proof fn lemma_subst_twice(x: AtomView, s: BindingsView)
    requires
        keys_distinct(s),
        is_solved(s),
    ensures
        subst(subst(x, s), s) == subst(x, s),
{
    lemma_subst_no_keys(x, s);
    let y = subst(x, s);
    assert forall|v: VarView| vars_of(y).contains(v) implies lookup(s, v) is None by {
        if has_key(s, v) {
            let j = key_index(s, v);
            assert(!vars_of(y).contains(s[j].0));
        }
    }
    lemma_subst_identity(y, s);
}

/// Solved bindings go on from themselves.
pub proof fn lemma_refines_self(s: BindingsView)
    requires
        keys_distinct(s),
        is_solved(s),
    ensures
        refines(s, s),
{
    assert forall|x: AtomView| #[trigger] subst(x, s) == subst(subst(x, s), s) by {
        lemma_subst_twice(x, s);
    }
    reveal(refines);
}

/// Going on is transitive.
pub proof fn lemma_refines_trans(s: BindingsView, s1: BindingsView, s2: BindingsView)
    requires
        refines(s, s1),
        refines(s1, s2),
    ensures
        refines(s, s2),
{
    assert forall|x: AtomView| #[trigger] subst(x, s2) == subst(subst(x, s), s2) by {
        let y = subst(x, s);
        lemma_refines_apply(s1, s2, x);
        lemma_refines_apply(s, s1, x);
        lemma_refines_apply(s1, s2, y);
    }
    reveal(refines);
}

/// The bindings with one more variable bound apply as the bindings before
/// and then the new binding.
pub proof fn lemma_bind_composes(s: BindingsView, var: VarView, t: AtomView, x: AtomView)
    requires
        keys_distinct(s),
        lookup(s, var) is None,
    ensures
        subst(x, eliminate(s, var, t).push((var, t))) == subst(subst(x, s), seq![(var, t)]),
    decreases x,
{
    let one = seq![(var, t)];
    let r = eliminate(s, var, t).push((var, t));
    let n = s.len() as int;
    lemma_lookup_none(s, var);
    assert(keys_distinct(r)) by {
        assert forall|i: int, j: int| 0 <= i < j < r.len() implies (#[trigger] r[i]).0 != (
        #[trigger] r[j]).0 by {
            if j < n {
                assert(s[i].0 != s[j].0);
            } else {
                assert(s[i].0 != var);
            }
        }
    }
    match x {
        AtomView::Variable(w) => {
            if has_key(s, w) {
                let i = key_index(s, w);
                lemma_lookup_at(s, i);
                assert(r[i] == (w, subst(s[i].1, one)));
                lemma_lookup_at(r, i);
            } else if w == var {
                assert(r[n] == (var, t));
                lemma_lookup_at(r, n);
                assert(one[0].0 == var);
                lemma_lookup_at(one, 0);
            } else {
                assert(lookup(r, w) is None) by {
                    if has_key(r, w) {
                        let i = key_index(r, w);
                        if i < n {
                            assert(s[i].0 == w);
                        }
                    }
                }
                assert(lookup(one, w) is None) by {
                    if has_key(one, w) {
                        let i = key_index(one, w);
                        assert(one[i].0 == var);
                    }
                }
            }
        },
        AtomView::Expression(c) => {
            assert forall|k: int| 0 <= k < c.len() implies subst(#[trigger] c[k], r) == subst(
                subst(c[k], s),
                one,
            ) by {
                lemma_bind_composes(s, var, t, c[k]);
            }
            assert(subst_seq(c, r) =~= subst_seq(subst_seq(c, s), one));
        },
        _ => {},
    }
}

/// A single binding leaves an atom without its variable as it is.
pub proof fn lemma_subst_absent(x: AtomView, var: VarView, t: AtomView)
    requires
        !vars_of(x).contains(var),
    ensures
        subst(x, seq![(var, t)]) == x,
{
    let one = seq![(var, t)];
    assert forall|v: VarView| vars_of(x).contains(v) implies lookup(one, v) is None by {
        if has_key(one, v) {
            let i = key_index(one, v);
            assert(one[i].0 == var);
        }
    }
    lemma_subst_identity(x, one);
}

/// Binding a variable that is not bound goes on from the bindings before
/// and makes the variable and the atom equal.
pub proof fn lemma_bind_sound(s: BindingsView, var: VarView, t: AtomView)
    requires
        keys_distinct(s),
        is_solved(s),
        lookup(s, var) is None,
        no_keys_in(s, t),
        spec_bind(s, var, t) is Ok,
    ensures
        refines(s, spec_bind(s, var, t).unwrap()),
        subst(AtomView::Variable(var), spec_bind(s, var, t).unwrap()) == t,
        subst(t, spec_bind(s, var, t).unwrap()) == t,
        t != AtomView::Variable(var) ==> spec_bind(s, var, t).unwrap() == eliminate(
            s,
            var,
            t,
        ).push((var, t)) && !vars_of(t).contains(var),
{
    let r = spec_bind(s, var, t).unwrap();
    let one = seq![(var, t)];
    assert forall|v: VarView| vars_of(t).contains(v) implies lookup(s, v) is None by {
        if has_key(s, v) {
            let j = key_index(s, v);
            assert(!vars_of(t).contains(s[j].0));
        }
    }
    lemma_subst_identity(t, s);
    if t == AtomView::Variable(var) {
        lemma_refines_self(s);
    } else {
        assert forall|x: AtomView| #[trigger] subst(x, r) == subst(subst(x, s), r) by {
            lemma_bind_composes(s, var, t, x);
            lemma_bind_composes(s, var, t, subst(x, s));
            lemma_subst_twice(x, s);
        }
        assert(refines(s, r)) by {
            reveal(refines);
        }
        lemma_bind_composes(s, var, t, AtomView::Variable(var));
        assert(one[0].0 == var);
        lemma_lookup_at(one, 0);
        lemma_bind_composes(s, var, t, t);
        lemma_subst_absent(t, var, t);
    }
}

/// A binding that is accepted without looking into bound variables is
/// sound: the bindings it gives are solved, go on from the bindings before,
/// and make the variable and the atom equal.
pub proof fn lemma_insert_flat_sound(s: BindingsView, var: VarView, atom: AtomView)
    requires
        keys_distinct(s),
        is_solved(s),
        spec_insert_flat(s, var, atom) is Ok,
    ensures
        keys_distinct(spec_insert_flat(s, var, atom).unwrap()),
        is_solved(spec_insert_flat(s, var, atom).unwrap()),
        refines(s, spec_insert_flat(s, var, atom).unwrap()),
        subst(AtomView::Variable(var), spec_insert_flat(s, var, atom).unwrap()) == subst(
            atom,
            spec_insert_flat(s, var, atom).unwrap(),
        ),
{
    let r = spec_insert_flat(s, var, atom).unwrap();
    let t = subst(atom, s);
    lemma_insert_flat_solved(s, var, atom);
    lemma_subst_no_keys(atom, s);
    match lookup(s, var) {
        Some(prev) => {
            lemma_value_no_keys(s, var);
            if prev == t {
                lemma_refines_self(s);
                lemma_subst_twice(AtomView::Variable(var), s);
                lemma_subst_twice(atom, s);
            } else if is_free_var(s, prev) {
                let w = prev->Variable_0;
                lemma_bind_sound(s, w, t);
                lemma_refines_apply(s, r, AtomView::Variable(var));
                lemma_refines_apply(s, r, atom);
            } else {
                let w = t->Variable_0;
                lemma_bind_sound(s, w, prev);
                lemma_refines_apply(s, r, AtomView::Variable(var));
                lemma_refines_apply(s, r, atom);
            }
        },
        None => {
            lemma_bind_sound(s, var, t);
            lemma_refines_apply(s, r, atom);
        },
    }
}

/// Making two atoms equal is sound: the bindings it gives are solved, go on
/// from the bindings before, and make the two atoms equal.
pub proof fn lemma_equate_sound(a: AtomView, b: AtomView, s: BindingsView)
    requires
        keys_distinct(s),
        is_solved(s),
        spec_equate(a, b, s) is Ok,
    ensures
        keys_distinct(spec_equate(a, b, s).unwrap()),
        is_solved(spec_equate(a, b, s).unwrap()),
        refines(s, spec_equate(a, b, s).unwrap()),
        subst(a, spec_equate(a, b, s).unwrap()) == subst(b, spec_equate(a, b, s).unwrap()),
    decreases a,
{
    let r = spec_equate(a, b, s).unwrap();
    match (a, b) {
        (AtomView::Variable(w), _) => {
            lemma_insert_flat_sound(s, w, b);
        },
        (_, AtomView::Variable(w)) => {
            lemma_insert_flat_sound(s, w, a);
        },
        (AtomView::Symbol(x), AtomView::Symbol(y)) => {
            lemma_refines_self(s);
        },
        (AtomView::Grounded(x), AtomView::Grounded(y)) => {
            lemma_refines_self(s);
        },
        (AtomView::Expression(xs), AtomView::Expression(ys)) => {
            lemma_equate_seq_sound(xs, ys, s);
            assert(subst_seq(xs, r) =~= subst_seq(ys, r));
        },
        _ => {},
    }
}

/// `lemma_equate_sound` for the pairs of two sequences.
pub proof fn lemma_equate_seq_sound(xs: Seq<AtomView>, ys: Seq<AtomView>, s: BindingsView)
    requires
        xs.len() == ys.len(),
        keys_distinct(s),
        is_solved(s),
        spec_equate_seq(xs, ys, s) is Ok,
    ensures
        keys_distinct(spec_equate_seq(xs, ys, s).unwrap()),
        is_solved(spec_equate_seq(xs, ys, s).unwrap()),
        refines(s, spec_equate_seq(xs, ys, s).unwrap()),
        forall|i: int|
            0 <= i < xs.len() ==> subst(#[trigger] xs[i], spec_equate_seq(xs, ys, s).unwrap())
                == subst(ys[i], spec_equate_seq(xs, ys, s).unwrap()),
    decreases xs,
{
    let r = spec_equate_seq(xs, ys, s).unwrap();
    if xs.len() == 0 {
        lemma_refines_self(s);
    } else {
        let n = xs.len() as int;
        let xr = xs.drop_last();
        let yr = ys.drop_last();
        lemma_equate_seq_sound(xr, yr, s);
        let s1 = spec_equate_seq(xr, yr, s).unwrap();
        lemma_equate_sound(xs.last(), ys.last(), s1);
        lemma_refines_trans(s, s1, r);
        assert forall|i: int| 0 <= i < xs.len() implies subst(#[trigger] xs[i], r) == subst(
            ys[i],
            r,
        ) by {
            if i < n - 1 {
                assert(xr[i] == xs[i]);
                assert(yr[i] == ys[i]);
                lemma_refines_keeps_equal(s1, r, xs[i], ys[i]);
            }
        }
    }
}

/// A binding that is accepted is sound: the bindings it gives are solved, go
/// on from the bindings before, and make the variable and the atom equal.
pub proof fn lemma_insert_sound(s: BindingsView, var: VarView, atom: AtomView)
    requires
        keys_distinct(s),
        is_solved(s),
        spec_insert(s, var, atom) is Ok,
    ensures
        keys_distinct(spec_insert(s, var, atom).unwrap()),
        is_solved(spec_insert(s, var, atom).unwrap()),
        refines(s, spec_insert(s, var, atom).unwrap()),
        subst(AtomView::Variable(var), spec_insert(s, var, atom).unwrap()) == subst(
            atom,
            spec_insert(s, var, atom).unwrap(),
        ),
{
    let r = spec_insert(s, var, atom).unwrap();
    let t = subst(atom, s);
    lemma_subst_no_keys(atom, s);
    match lookup(s, var) {
        Some(prev) => {
            if prev == t {
                lemma_refines_self(s);
                lemma_subst_twice(AtomView::Variable(var), s);
                lemma_subst_twice(atom, s);
            } else {
                lemma_equate_sound(prev, t, s);
                lemma_refines_apply(s, r, AtomView::Variable(var));
                lemma_refines_apply(s, r, atom);
            }
        },
        None => {
            lemma_bind_solved(s, var, t);
            lemma_bind_sound(s, var, t);
            lemma_refines_apply(s, r, atom);
        },
    }
}

/// Binding keeps solved bindings solved.
pub proof fn lemma_insert_solved(s: BindingsView, var: VarView, atom: AtomView)
    requires
        keys_distinct(s),
        is_solved(s),
    ensures
        match spec_insert(s, var, atom) {
            Ok(r) => keys_distinct(r) && is_solved(r),
            Err(_) => true,
        },
{
    if spec_insert(s, var, atom) is Ok {
        lemma_insert_sound(s, var, atom);
    }
}

/// Binding entries one by one keeps solved bindings solved.
pub proof fn lemma_insert_each_solved(acc: BindingsView, b: BindingsView)
    requires
        keys_distinct(acc),
        is_solved(acc),
    ensures
        match insert_each(acc, b) {
            Ok(r) => keys_distinct(r) && is_solved(r),
            Err(_) => true,
        },
    decreases b.len(),
{
    if b.len() > 0 {
        lemma_insert_each_solved(acc, b.drop_last());
        match insert_each(acc, b.drop_last()) {
            Ok(r) => lemma_insert_solved(r, b.last().0, b.last().1),
            Err(_) => {},
        }
    }
}

/// Binding the entries of solved bindings one by one, starting from nothing,
/// gives those bindings back.
pub proof fn lemma_insert_each_rebuilds(s: BindingsView, n: int)
    requires
        keys_distinct(s),
        is_solved(s),
        0 <= n <= s.len(),
    ensures
        insert_each(Seq::empty(), s.take(n)) == Ok::<BindingsView, BindingsError>(s.take(n)),
    decreases n,
{
    if n == 0 {
        assert(s.take(0) =~= Seq::empty());
    } else {
        lemma_insert_each_rebuilds(s, n - 1);
        let p = s.take(n - 1);
        let key = s[n - 1].0;
        let t = s[n - 1].1;
        assert(s.take(n).drop_last() =~= p);
        assert(s.take(n).last() == s[n - 1]);
        assert(lookup(p, key) is None) by {
            if has_key(p, key) {
                let i = key_index(p, key);
                assert(s[i].0 != s[n - 1].0);
            }
        }
        assert forall|v: VarView| vars_of(t).contains(v) implies lookup(p, v) is None by {
            if has_key(p, v) {
                let i = key_index(p, v);
                assert(!vars_of(s[n - 1].1).contains(s[i].0));
            }
        }
        lemma_subst_identity(t, p);
        assert(!vars_of(s[n - 1].1).contains(s[n - 1].0));
        assert(t != AtomView::Variable(key)) by {
            if t == AtomView::Variable(key) {
                assert(vars_of(t).contains(key));
            }
        }
        let one = seq![(key, t)];
        assert forall|i: int| 0 <= i < p.len() implies subst((#[trigger] p[i]).1, one)
            == p[i].1 by {
            assert forall|v: VarView| vars_of(p[i].1).contains(v) implies lookup(one, v)
                is None by {
                if has_key(one, v) {
                    let k = key_index(one, v);
                    assert(one[k].0 == key);
                    assert(!vars_of(s[i].1).contains(s[n - 1].0));
                }
            }
            lemma_subst_identity(p[i].1, one);
        }
        assert(eliminate(p, key, t) =~= p);
        assert(p.push((key, t)) =~= s.take(n));
    }
}

/// What a merge gives is not changed by being applied to itself: it is
/// solved, so applying it to its own bound atoms changes none of them, and
/// `apply_bindings_to_bindings` hands it back.
pub proof fn lemma_merge_fixed_point(a: BindingsView, b: BindingsView)
    requires
        keys_distinct(a),
        is_solved(a),
        insert_all(a, b) is Some,
    ensures
        is_solved(insert_all(a, b).unwrap()),
        subst_values(insert_all(a, b).unwrap(), insert_all(a, b).unwrap()) == insert_all(
            a,
            b,
        ).unwrap(),
        spec_apply_to_bindings(insert_all(a, b).unwrap(), insert_all(a, b).unwrap()) == Ok::<
            BindingsView,
            BindingsError,
        >(insert_all(a, b).unwrap()),
{
    let m = insert_all(a, b).unwrap();
    lemma_insert_each_solved(a, b);
    lemma_solved_fixed_point(m);
    lemma_insert_each_rebuilds(m, m.len() as int);
    assert(m.take(m.len() as int) =~= m);
}

/// Bindings that bind each of their variables to itself leave every atom as
/// it is.
pub proof fn lemma_identity_bindings(a: AtomView, s: BindingsView)
    requires
        forall|i: int| 0 <= i < s.len() ==> (#[trigger] s[i]).1 == AtomView::Variable(s[i].0),
    ensures
        subst(a, s) == a,
    decreases a,
{
    match a {
        AtomView::Variable(w) => {
            if has_key(s, w) {
                let i = key_index(s, w);
                assert(s[i].1 == AtomView::Variable(s[i].0));
            }
        },
        AtomView::Expression(c) => {
            assert forall|k: int| 0 <= k < c.len() implies subst(#[trigger] c[k], s) == c[k] by {
                lemma_identity_bindings(c[k], s);
            }
            assert(subst_seq(c, s) =~= c);
        },
        _ => {},
    }
}

impl View for Bindings {
    type V = BindingsView;

    closed spec fn view(&self) -> BindingsView {
        entries_view(self.entries@)
    }
}

impl Bindings {
    /// The invariant of the type: no variable is bound twice, and no bound
    /// variable occurs in a bound atom.
    #[verifier::type_invariant]
    closed spec fn wf(&self) -> bool {
        keys_distinct(entries_view(self.entries@)) && is_solved(entries_view(self.entries@))
    }

    /// Bindings that bind nothing.
    pub fn new() -> (r: Self)
        ensures
            r@ == Seq::<(VarView, AtomView)>::empty(),
    {
        let r = Bindings { entries: Vec::new() };
        assert(r@ =~= Seq::<(VarView, AtomView)>::empty());
        r
    }

    /// The number of bound variables.
    pub fn len(&self) -> (r: usize)
        ensures
            r == self@.len(),
            keys_distinct(self@),
            is_solved(self@),
    {
        proof {
            use_type_invariant(self);
        }
        self.entries.len()
    }

    /// The greatest freshness counter among the variables bound and those of
    /// the atoms bound to them.
    pub fn max_id(&self) -> (r: u64)
        ensures
            r == bindings_max_id(self@),
    {
        let mut r: u64 = 0;
        let mut i: usize = 0;
        assert(self@.take(0) =~= Seq::empty());
        while i < self.entries.len()
            invariant
                i <= self.entries.len(),
                r == bindings_max_id(self@.take(i as int)),
            decreases self.entries.len() - i,
        {
            proof {
                assert(self@.take(i + 1).drop_last() =~= self@.take(i as int));
                assert(self@.take(i + 1).last() == self@[i as int]);
            }
            let key = self.entries[i].0.id;
            let value = max_id(&self.entries[i].1);
            if key > r {
                r = key;
            }
            if value > r {
                r = value;
            }
            i += 1;
        }
        assert(self@.take(self.entries.len() as int) =~= self@);
        r
    }

    /// Whether nothing is bound.
    pub fn is_empty(&self) -> (r: bool)
        ensures
            r == (self@.len() == 0),
    {
        self.entries.len() == 0
    }

    /// The atom bound to the variable, if any.
    pub fn get(&self, var: &VariableAtom) -> (r: Option<&Atom>)
        ensures
            keys_distinct(self@),
            is_solved(self@),
            match r {
                Some(a) => lookup(self@, var@) == Some(a@),
                None => lookup(self@, var@) is None,
            },
    {
        proof {
            use_type_invariant(self);
        }
        let mut i: usize = 0;
        while i < self.entries.len()
            invariant
                i <= self.entries.len(),
                keys_distinct(self@),
                is_solved(self@),
                forall|j: int| 0 <= j < i ==> (#[trigger] self@[j]).0 != var@,
            decreases self.entries.len() - i,
        {
            if self.entries[i].0 == *var {
                proof {
                    assert(self@[i as int].0 == var@);
                    lemma_lookup_at(self@, i as int);
                }
                return Some(&self.entries[i].1);
            }
            assert(self@[i as int].0 != var@);
            i += 1;
        }
        None
    }

    /// The variable and the atom of the entry at `index`, in the order in
    /// which the entries were made.
    pub fn entry(&self, index: usize) -> (r: (&VariableAtom, &Atom))
        requires
            index < self@.len(),
        ensures
            (r.0@, r.1@) == self@[index as int],
    {
        (&self.entries[index].0, &self.entries[index].1)
    }
}

/// The atom with each variable that `bindings` binds replaced by the atom
/// bound to it; other variables, and grounded values, stay as they are.
pub fn apply_bindings_to_atom(atom: &Atom, bindings: &Bindings) -> (r: Atom)
    ensures
        r@ == subst(atom@, bindings@),
    decreases atom,
{
    match atom {
        Atom::Variable(v) => match bindings.get(v) {
            Some(t) => clone_atom(t),
            None => clone_atom(atom),
        },
        Atom::Expression(e) => Atom::Expression(
            ExpressionAtom { children: apply_bindings_to_atoms(&e.children, bindings) },
        ),
        _ => clone_atom(atom),
    }
}

/// `apply_bindings_to_atom` on each of the atoms.
pub fn apply_bindings_to_atoms(atoms: &Vec<Atom>, bindings: &Bindings) -> (r: Vec<Atom>)
    ensures
        atoms_view(r@) == subst_seq(atoms_view(atoms@), bindings@),
    decreases atoms,
{
    let mut r: Vec<Atom> = Vec::new();
    let mut i: usize = 0;
    while i < atoms.len()
        invariant
            i <= atoms.len(),
            r.len() == i,
            forall|j: int| 0 <= j < i ==> (#[trigger] r@[j])@ == subst(atoms@[j]@, bindings@),
        decreases atoms.len() - i,
    {
        r.push(apply_bindings_to_atom(&atoms[i], bindings));
        i += 1;
    }
    assert(atoms_view(r@) =~= subst_seq(atoms_view(atoms@), bindings@));
    r
}

impl Bindings {
    /// Bindings with the one entry that binds `var` to `atom`.
    fn single(var: VariableAtom, atom: Atom) -> (r: Self)
        requires
            !vars_of(atom@).contains(var@),
        ensures
            r@ == seq![(var@, atom@)],
    {
        let mut entries: Vec<(VariableAtom, Atom)> = Vec::new();
        entries.push((var, atom));
        assert(entries_view(entries@) =~= seq![(var@, atom@)]);
        let r = Bindings { entries };
        r
    }

    /// Whether the atom is a variable that is not bound; if so, that
    /// variable.
    fn free_var(&self, atom: &Atom) -> (r: Option<VariableAtom>)
        ensures
            match r {
                Some(w) => is_free_var(self@, atom@) && atom@ == AtomView::Variable(w@),
                None => !is_free_var(self@, atom@),
            },
    {
        match atom {
            Atom::Variable(w) => {
                if self.get(w).is_none() {
                    Some(w.clone())
                } else {
                    None
                }
            },
            _ => None,
        }
    }

    /// Binds the variable `var`, which is not bound yet, to the atom `t`. On
    /// a refusal the bindings stay as they were.
    fn bind(&mut self, var: VariableAtom, t: Atom) -> (r: Result<(), BindingsError>)
        requires
            lookup(old(self)@, var@) is None,
            no_keys_in(old(self)@, t@),
        ensures
            keys_distinct(final(self)@),
            is_solved(final(self)@),
            match spec_bind(old(self)@, var@, t@) {
                Ok(s) => r is Ok && final(self)@ == s,
                Err(e) => r == Err::<(), BindingsError>(e) && final(self)@ == old(self)@,
            },
    {
        proof {
            use_type_invariant(&*self);
        }
        let same = match &t {
            Atom::Variable(w) => *w == var,
            _ => false,
        };
        if same {
            Ok(())
        } else if atom_has_var(&t, &var) {
            Err(BindingsError::OccursCheck)
        } else {
            let one = Bindings::single(var.clone(), clone_atom(&t));
            let mut entries: Vec<(VariableAtom, Atom)> = Vec::new();
            let mut i: usize = 0;
            while i < self.entries.len()
                invariant
                    i <= self.entries.len(),
                    one@ == seq![(var@, t@)],
                    entries.len() == i,
                    forall|j: int|
                        0 <= j < i ==> (#[trigger] entries@[j]).0@ == self@[j].0
                            && entries@[j].1@ == subst(self@[j].1, one@),
                decreases self.entries.len() - i,
            {
                let k = self.entries[i].0.clone();
                let v = apply_bindings_to_atom(&self.entries[i].1, &one);
                entries.push((k, v));
                i += 1;
            }
            entries.push((var, t));
            proof {
                let s = old(self)@;
                let target = eliminate(s, var@, t@).push((var@, t@));
                assert(entries_view(entries@) =~= target);
                lemma_bind_solved(s, var@, t@);
            }
            *self = Bindings { entries };
            Ok(())
        }
    }

    /// Binds `var` to `atom`, rewritten by the bindings made so far, without
    /// looking into a variable that is bound already. On a refusal the
    /// bindings stay as they were.
    fn insert_flat(&mut self, var: &VariableAtom, atom: &Atom) -> (r: Result<(), BindingsError>)
        ensures
            keys_distinct(final(self)@),
            is_solved(final(self)@),
            match spec_insert_flat(old(self)@, var@, atom@) {
                Ok(s) => r is Ok && final(self)@ == s,
                Err(e) => r == Err::<(), BindingsError>(e) && final(self)@ == old(self)@,
            },
    {
        proof {
            use_type_invariant(&*self);
        }
        let t = apply_bindings_to_atom(atom, self);
        proof {
            lemma_subst_no_keys(atom@, self@);
            if lookup(self@, var@) is Some {
                lemma_value_no_keys(self@, var@);
            }
        }
        let prev = match self.get(var) {
            Some(p) => clone_atom(p),
            None => {
                return self.bind(var.clone(), t);
            },
        };
        if atom_eq(&prev, &t) {
            return Ok(());
        }
        match self.free_var(&prev) {
            Some(w) => {
                return self.bind(w, t);
            },
            None => {},
        }
        match self.free_var(&t) {
            Some(w) => self.bind(w, prev),
            None => Err(BindingsError::Conflict),
        }
    }

    /// Makes the atoms `a` and `b` equal by binding variables. On a refusal
    /// the bindings hold what was bound before the refusal.
    fn equate(&mut self, a: &Atom, b: &Atom) -> (r: Result<(), BindingsError>)
        ensures
            keys_distinct(final(self)@),
            is_solved(final(self)@),
            match spec_equate(a@, b@, old(self)@) {
                Ok(s) => r is Ok && final(self)@ == s,
                Err(e) => r == Err::<(), BindingsError>(e),
            },
        decreases a,
    {
        proof {
            use_type_invariant(&*self);
        }
        match (a, b) {
            (Atom::Variable(w), _) => self.insert_flat(w, b),
            (_, Atom::Variable(w)) => self.insert_flat(w, a),
            (Atom::Symbol(x), Atom::Symbol(y)) => {
                if x.name == y.name {
                    Ok(())
                } else {
                    Err(BindingsError::Conflict)
                }
            },
            (Atom::Grounded(x), Atom::Grounded(y)) => {
                if crate::atom::grounded_eq(x, y) {
                    Ok(())
                } else {
                    Err(BindingsError::Conflict)
                }
            },
            (Atom::Expression(x), Atom::Expression(y)) => {
                if x.children.len() == y.children.len() {
                    self.equate_all(&x.children, &y.children)
                } else {
                    Err(BindingsError::Conflict)
                }
            },
            _ => Err(BindingsError::Conflict),
        }
    }

    /// `equate` on the pairs of two lists of the same length, from left to
    /// right, up to the first refusal.
    fn equate_all(&mut self, xs: &Vec<Atom>, ys: &Vec<Atom>) -> (r: Result<(), BindingsError>)
        requires
            xs.len() == ys.len(),
        ensures
            keys_distinct(final(self)@),
            is_solved(final(self)@),
            match spec_equate_seq(atoms_view(xs@), atoms_view(ys@), old(self)@) {
                Ok(s) => r is Ok && final(self)@ == s,
                Err(e) => r == Err::<(), BindingsError>(e),
            },
        decreases xs,
    {
        proof {
            use_type_invariant(&*self);
        }
        let ghost xv = atoms_view(xs@);
        let ghost yv = atoms_view(ys@);
        let ghost start = self@;
        let mut i: usize = 0;
        assert(xv.take(0) =~= Seq::empty());
        while i < xs.len()
            invariant
                i <= xs.len(),
                xs.len() == ys.len(),
                xv == atoms_view(xs@),
                yv == atoms_view(ys@),
                start == old(self)@,
                keys_distinct(self@),
                is_solved(self@),
                spec_equate_seq(xv.take(i as int), yv.take(i as int), start) == Ok::<
                    BindingsView,
                    BindingsError,
                >(self@),
            decreases xs.len() - i,
        {
            proof {
                assert(xv.take(i + 1).drop_last() =~= xv.take(i as int));
                assert(yv.take(i + 1).drop_last() =~= yv.take(i as int));
                assert(xv.take(i + 1).last() == xv[i as int]);
                assert(yv.take(i + 1).last() == yv[i as int]);
            }
            let ghost before = self@;
            match self.equate(&xs[i], &ys[i]) {
                Ok(()) => {},
                Err(e) => {
                    proof {
                        assert(spec_equate(xv[i as int], yv[i as int], before) == Err::<
                            BindingsView,
                            BindingsError,
                        >(e));
                        assert(spec_equate_seq(xv.take(i + 1), yv.take(i + 1), start) == Err::<
                            BindingsView,
                            BindingsError,
                        >(e));
                        lemma_equate_seq_prefix_err(xv, yv, start, i + 1);
                    }
                    return Err(e);
                },
            }
            i += 1;
        }
        proof {
            assert(xv.take(i as int) =~= xv);
            assert(yv.take(i as int) =~= yv);
        }
        Ok(())
    }

    /// Binds `var` to `atom`, rewritten by the bindings made so far. On a
    /// refusal the bindings stay as they were.
    pub fn insert(&mut self, var: VariableAtom, atom: Atom) -> (r: Result<(), BindingsError>)
        ensures
            keys_distinct(final(self)@),
            is_solved(final(self)@),
            match spec_insert(old(self)@, var@, atom@) {
                Ok(s) => r is Ok && final(self)@ == s,
                Err(e) => r == Err::<(), BindingsError>(e) && final(self)@ == old(self)@,
            },
    {
        proof {
            use_type_invariant(&*self);
        }
        let t = apply_bindings_to_atom(&atom, self);
        proof {
            lemma_subst_no_keys(atom@, self@);
        }
        let prev = match self.get(&var) {
            Some(p) => clone_atom(p),
            None => {
                return self.bind(var, t);
            },
        };
        if atom_eq(&prev, &t) {
            return Ok(());
        }
        let mut work = self.clone();
        match work.equate(&prev, &t) {
            Ok(()) => {
                *self = work;
                Ok(())
            },
            Err(e) => Err(e),
        }
    }

    /// Binds each of the entries, in order, in `acc`; the first refusal ends
    /// it.
    fn insert_list(acc: Bindings, list: &Vec<(VariableAtom, Atom)>) -> (r: Result<
        Bindings,
        BindingsError,
    >)
        ensures
            match r {
                Ok(m) => insert_each(acc@, entries_view(list@)) == Ok::<
                    BindingsView,
                    BindingsError,
                >(m@),
                Err(e) => insert_each(acc@, entries_view(list@)) == Err::<
                    BindingsView,
                    BindingsError,
                >(e),
            },
    {
        let ghost start = acc@;
        let ghost lv = entries_view(list@);
        let mut m = acc;
        let mut i: usize = 0;
        assert(lv.take(0) =~= Seq::empty());
        while i < list.len()
            invariant
                i <= list.len(),
                start == acc@,
                lv == entries_view(list@),
                insert_each(start, lv.take(i as int)) == Ok::<BindingsView, BindingsError>(m@),
            decreases list.len() - i,
        {
            let k = list[i].0.clone();
            let v = clone_atom(&list[i].1);
            proof {
                assert(lv.take(i + 1).drop_last() =~= lv.take(i as int));
                assert(lv.take(i + 1).last() == lv[i as int]);
            }
            let ghost before = m@;
            match m.insert(k, v) {
                Ok(()) => {},
                Err(e) => {
                    proof {
                        assert(spec_insert(before, lv[i as int].0, lv[i as int].1) == Err::<
                            BindingsView,
                            BindingsError,
                        >(e));
                        assert(insert_each(start, lv.take(i + 1)) == Err::<
                            BindingsView,
                            BindingsError,
                        >(e));
                        lemma_insert_each_prefix_err(start, lv, i + 1);
                    }
                    return Err(e);
                },
            }
            i += 1;
        }
        assert(lv.take(list.len() as int) =~= lv);
        Ok(m)
    }

    /// The bindings that hold what `a` holds and, bound in their order, each
    /// entry of `b`; `None` where one of them is refused.
    pub fn merge(a: &Bindings, b: &Bindings) -> (r: Option<Bindings>)
        ensures
            match r {
                Some(m) => insert_all(a@, b@) == Some(m@),
                None => insert_all(a@, b@) is None,
            },
    {
        match Bindings::insert_list(a.clone(), &b.entries) {
            Ok(m) => Some(m),
            Err(_) => None,
        }
    }

    /// The entries whose variable occurs in `atom`, in their order.
    pub fn restrict_to(&self, atom: &Atom) -> (r: Bindings)
        ensures
            r@ == restrict(self@, atom@),
    {
        let mut entries: Vec<(VariableAtom, Atom)> = Vec::new();
        let ghost pred = |e: (VarView, AtomView)| vars_of(atom@).contains(e.0);
        let mut i: usize = 0;
        while i < self.entries.len()
            invariant
                i <= self.entries.len(),
                pred == |e: (VarView, AtomView)| vars_of(atom@).contains(e.0),
                entries_view(entries@) == self@.take(i as int).filter(pred),
            decreases self.entries.len() - i,
        {
            proof {
                let s = self@;
                assert(s.take(i + 1) =~= s.take(i as int).push(s[i as int]));
                lemma_filter_step(s.take(i as int), s[i as int], pred);
            }
            if atom_has_var(atom, &self.entries[i].0) {
                let ghost before = entries@;
                entries.push((self.entries[i].0.clone(), clone_atom(&self.entries[i].1)));
                assert(entries_view(entries@) =~= entries_view(before).push(self@[i as int]));
            }
            i += 1;
        }
        proof {
            use_type_invariant(self);
            assert(self@.take(self@.len() as int) =~= self@);
            lemma_filter_keys_distinct(self@, pred);
            lemma_filter_solved(self@, pred);
        }
        Bindings { entries }
    }
}

/// Filtering a sequence with one more element keeps that element exactly if
/// it passes.
pub proof fn lemma_filter_step<A>(s: Seq<A>, x: A, pred: spec_fn(A) -> bool)
    ensures
        s.push(x).filter(pred) == if pred(x) {
            s.filter(pred).push(x)
        } else {
            s.filter(pred)
        },
{
    reveal(Seq::filter);
    assert(s.push(x).drop_last() =~= s);
}

/// Once a prefix of the pairs is refused, the whole is, for the same reason.
pub proof fn lemma_equate_seq_prefix_err(
    xs: Seq<AtomView>,
    ys: Seq<AtomView>,
    s: BindingsView,
    n: int,
)
    requires
        xs.len() == ys.len(),
        0 <= n <= xs.len(),
        spec_equate_seq(xs.take(n), ys.take(n), s) is Err,
    ensures
        spec_equate_seq(xs, ys, s) == spec_equate_seq(xs.take(n), ys.take(n), s),
    decreases xs.len() - n,
{
    if n < xs.len() {
        assert(xs.take(n + 1).drop_last() =~= xs.take(n));
        assert(ys.take(n + 1).drop_last() =~= ys.take(n));
        lemma_equate_seq_prefix_err(xs, ys, s, n + 1);
    } else {
        assert(xs.take(n) =~= xs);
        assert(ys.take(n) =~= ys);
    }
}

/// Once a prefix of `b` is refused, all of `b` is, for the same reason.
pub proof fn lemma_insert_each_prefix_err(acc: BindingsView, b: BindingsView, n: int)
    requires
        0 <= n <= b.len(),
        insert_each(acc, b.take(n)) is Err,
    ensures
        insert_each(acc, b) == insert_each(acc, b.take(n)),
    decreases b.len() - n,
{
    if n < b.len() {
        assert(b.take(n + 1).drop_last() =~= b.take(n));
        lemma_insert_each_prefix_err(acc, b, n + 1);
    } else {
        assert(b.take(n) =~= b);
    }
}

/// Filtering the entries of solved bindings leaves them solved.
pub proof fn lemma_filter_solved(s: BindingsView, pred: spec_fn((VarView, AtomView)) -> bool)
    requires
        is_solved(s),
    ensures
        is_solved(s.filter(pred)),
{
    let f = s.filter(pred);
    assert forall|i: int, j: int| 0 <= i < f.len() && 0 <= j < f.len() implies !vars_of(
        (#[trigger] f[i]).1,
    ).contains((#[trigger] f[j]).0) by {
        assert(f.contains(f[i]));
        assert(f.contains(f[j]));
        s.lemma_filter_contains_rev(pred, f[i]);
        s.lemma_filter_contains_rev(pred, f[j]);
        let a = choose|a: int| 0 <= a < s.len() && s[a] == f[i];
        let b = choose|b: int| 0 <= b < s.len() && s[b] == f[j];
        assert(!vars_of(s[a].1).contains(s[b].0));
    }
}

/// Filtering entries keeps their keys distinct.
pub proof fn lemma_filter_keys_distinct(
    s: BindingsView,
    pred: spec_fn((VarView, AtomView)) -> bool,
)
    requires
        keys_distinct(s),
    ensures
        keys_distinct(s.filter(pred)),
    decreases s.len(),
{
    reveal(Seq::filter);
    if s.len() > 0 {
        let t = s.drop_last();
        assert(keys_distinct(t)) by {
            assert forall|i: int, j: int| 0 <= i < j < t.len() implies (#[trigger] t[i]).0 != (
            #[trigger] t[j]).0 by {
                assert(s[i].0 != s[j].0);
            }
        }
        lemma_filter_keys_distinct(t, pred);
        let f = t.filter(pred);
        if pred(s.last()) {
            assert(s.filter(pred) =~= f.push(s.last()));
            let g = s.filter(pred);
            assert forall|i: int, j: int| 0 <= i < j < g.len() implies (#[trigger] g[i]).0 != (
            #[trigger] g[j]).0 by {
                if j < f.len() {
                    assert(f[i].0 != f[j].0);
                } else {
                    assert(f.contains(f[i]));
                    t.lemma_filter_contains_rev(pred, f[i]);
                    let k = choose|k: int| 0 <= k < t.len() && t[k] == f[i];
                    assert(s[k].0 != s[s.len() - 1].0);
                }
            }
        } else {
            assert(s.filter(pred) =~= f);
        }
    }
}

impl Clone for Bindings {
    fn clone(&self) -> (r: Self)
        ensures
            r@ == self@,
            keys_distinct(r@),
    {
        let mut entries: Vec<(VariableAtom, Atom)> = Vec::new();
        let mut i: usize = 0;
        while i < self.entries.len()
            invariant
                i <= self.entries.len(),
                entries.len() == i,
                forall|j: int| 0 <= j < i ==> (#[trigger] entries@[j]).0@ == self@[j].0
                    && entries@[j].1@ == self@[j].1,
            decreases self.entries.len() - i,
        {
            entries.push((self.entries[i].0.clone(), clone_atom(&self.entries[i].1)));
            i += 1;
        }
        proof {
            use_type_invariant(self);
            assert(entries_view(entries@) =~= self@);
        }
        Bindings { entries }
    }
}

/// The bindings `to` with `from` applied to each bound atom. The atoms so
/// made are bound one by one, which keeps the result free of its own
/// variables; it is refused where one of them cannot be bound.
pub fn apply_bindings_to_bindings(from: &Bindings, to: &Bindings) -> (r: Result<
    Bindings,
    BindingsError,
>)
    ensures
        match r {
            Ok(b) => spec_apply_to_bindings(from@, to@) == Ok::<BindingsView, BindingsError>(b@),
            Err(e) => spec_apply_to_bindings(from@, to@) == Err::<BindingsView, BindingsError>(e),
        },
{
    let ghost target = subst_values(from@, to@);
    let mut list: Vec<(VariableAtom, Atom)> = Vec::new();
    let mut i: usize = 0;
    while i < to.entries.len()
        invariant
            i <= to.entries.len(),
            target == subst_values(from@, to@),
            entries_view(list@) == target.take(i as int),
        decreases to.entries.len() - i,
    {
        let k = to.entries[i].0.clone();
        let v = apply_bindings_to_atom(&to.entries[i].1, from);
        assert(target[i as int] == (k@, v@));
        let ghost before = list@;
        list.push((k, v));
        assert(entries_view(list@) =~= entries_view(before).push(target[i as int]));
        assert(target.take(i + 1) =~= target.take(i as int).push(target[i as int]));
        i += 1;
    }
    assert(target.take(i as int) =~= target);
    Bindings::insert_list(Bindings::new(), &list)
}

impl PartialEq for Bindings {
    fn eq(&self, other: &Self) -> (r: bool) {
        if self.entries.len() != other.entries.len() {
            return false;
        }
        let mut i: usize = 0;
        while i < self.entries.len()
            invariant
                i <= self.entries.len(),
                self@.len() == other@.len(),
                forall|j: int|
                    0 <= j < i ==> lookup(other@, (#[trigger] self@[j]).0) == Some(self@[j].1),
            decreases self.entries.len() - i,
        {
            let same = match other.get(&self.entries[i].0) {
                Some(a) => atom_eq(a, &self.entries[i].1),
                None => false,
            };
            if !same {
                assert(lookup(other@, self@[i as int].0) != Some(self@[i as int].1));
                return false;
            }
            i += 1;
        }
        true
    }
}

impl PartialEqSpecImpl for Bindings {
    open spec fn obeys_eq_spec() -> bool {
        true
    }

    open spec fn eq_spec(&self, other: &Self) -> bool {
        same_bindings(self@, other@)
    }
}

} // verus!
