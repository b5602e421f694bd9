//! The atom model: symbols, variables, expressions and grounded values.

use vstd::prelude::*;
use vstd::std_specs::cmp::PartialEqSpecImpl;

verus! {

broadcast use vstd::std_specs::vec::group_vec_axioms;

/// Mathematical model of a variable: its name and its freshness counter.
pub ghost struct VarView {
    pub name: Seq<char>,
    pub id: nat,
}

/// Mathematical model of a grounded value.
pub ghost enum GroundedView {
    /// A host integer.
    Int(int),
    /// A collection of atoms that answers queries.
    Space(Seq<AtomView>),
    /// A handle to a value that lives with the host.
    Host { id: nat, label: Seq<char>, executable: bool },
}

/// Mathematical model of an atom.
pub ghost enum AtomView {
    Symbol(Seq<char>),
    Variable(VarView),
    Expression(Seq<AtomView>),
    Grounded(GroundedView),
}

/// A named constant of the language.
#[derive(Debug, Eq, Hash)]
pub struct SymbolAtom {
    pub name: String,
}

/// A variable: a name together with a freshness counter.
#[derive(Debug, Eq, Hash)]
pub struct VariableAtom {
    pub name: String,
    pub id: u64,
}

/// An ordered sequence of child atoms.
#[derive(Debug, Eq, Hash)]
pub struct ExpressionAtom {
    pub children: Vec<Atom>,
}

/// A value of the host.
#[derive(Debug, Eq, Hash)]
pub enum GroundedAtom {
    /// A host integer.
    Int(i64),
    /// The content of an atom space; it matches by querying that content.
    Space(Vec<Atom>),
    /// A handle to a value that lives with the host: its identity, the
    /// name of its type and whether the host can execute it.
    Host { id: u64, label: String, executable: bool },
}

/// The universal term.
#[derive(Debug, Eq, Hash)]
pub enum Atom {
    Symbol(SymbolAtom),
    Variable(VariableAtom),
    Expression(ExpressionAtom),
    Grounded(GroundedAtom),
}

/// The models of a sequence of atoms, element by element.
pub open spec fn atoms_view(v: Seq<Atom>) -> Seq<AtomView>
    decreases v,
{
    Seq::new(
        v.len(),
        |i: int|
            if 0 <= i < v.len() {
                atom_view(v[i])
            } else {
                AtomView::Symbol(Seq::empty())
            },
    )
}

/// The model of a grounded value.
pub open spec fn grounded_view(g: GroundedAtom) -> GroundedView
    decreases g,
{
    match g {
        GroundedAtom::Int(n) => GroundedView::Int(n as int),
        GroundedAtom::Space(c) => GroundedView::Space(atoms_view(c@)),
        GroundedAtom::Host { id, label, executable } => GroundedView::Host {
            id: id as nat,
            label: label@,
            executable,
        },
    }
}

/// The model of an atom.
pub open spec fn atom_view(a: Atom) -> AtomView
    decreases a,
{
    match a {
        Atom::Symbol(s) => AtomView::Symbol(s.name@),
        Atom::Variable(v) => AtomView::Variable(v@),
        Atom::Expression(e) => AtomView::Expression(atoms_view(e.children@)),
        Atom::Grounded(g) => AtomView::Grounded(grounded_view(g)),
    }
}

impl View for SymbolAtom {
    type V = Seq<char>;

    open spec fn view(&self) -> Seq<char> {
        self.name@
    }
}

impl View for VariableAtom {
    type V = VarView;

    open spec fn view(&self) -> VarView {
        VarView { name: self.name@, id: self.id as nat }
    }
}

impl View for ExpressionAtom {
    type V = Seq<AtomView>;

    open spec fn view(&self) -> Seq<AtomView> {
        atoms_view(self.children@)
    }
}

impl View for GroundedAtom {
    type V = GroundedView;

    open spec fn view(&self) -> GroundedView {
        grounded_view(*self)
    }
}

impl View for Atom {
    type V = AtomView;

    open spec fn view(&self) -> AtomView {
        atom_view(*self)
    }
}

/// The variables that occur in an atom. Grounded values hold none.
pub open spec fn vars_of(a: AtomView) -> Set<VarView>
    decreases a,
{
    match a {
        AtomView::Variable(v) => set![v],
        AtomView::Expression(c) => vars_of_seq(c),
        _ => Set::empty(),
    }
}

/// The variables that occur in some atom of a sequence.
pub open spec fn vars_of_seq(s: Seq<AtomView>) -> Set<VarView>
    decreases s,
{
    if s.len() == 0 {
        Set::empty()
    } else {
        vars_of_seq(s.drop_last()).union(vars_of(s.last()))
    }
}

/// A variable occurs in a sequence exactly if it occurs in one of its atoms.
pub proof fn lemma_vars_of_seq(s: Seq<AtomView>, v: VarView)
    ensures
        vars_of_seq(s).contains(v) <==> exists|i: int|
            0 <= i < s.len() && #[trigger] vars_of(s[i]).contains(v),
    decreases s.len(),
{
    if s.len() > 0 {
        let t = s.drop_last();
        lemma_vars_of_seq(t, v);
        if vars_of_seq(s).contains(v) {
            if vars_of(s.last()).contains(v) {
                assert(vars_of(s[s.len() - 1]).contains(v));
            } else {
                let i = choose|i: int| 0 <= i < t.len() && #[trigger] vars_of(t[i]).contains(v);
                assert(vars_of(s[i]).contains(v));
            }
        }
        if exists|i: int| 0 <= i < s.len() && #[trigger] vars_of(s[i]).contains(v) {
            let i = choose|i: int| 0 <= i < s.len() && #[trigger] vars_of(s[i]).contains(v);
            if i < s.len() - 1 {
                assert(vars_of(t[i]).contains(v));
            }
        }
    }
}

/// The greatest freshness counter among the variables of an atom, 0 where
/// it has none.
pub open spec fn max_var_id(a: AtomView) -> nat
    decreases a,
{
    match a {
        AtomView::Variable(v) => v.id,
        AtomView::Expression(c) => max_var_id_seq(c),
        _ => 0,
    }
}

/// The greatest freshness counter among the variables of a sequence of atoms.
pub open spec fn max_var_id_seq(s: Seq<AtomView>) -> nat
    decreases s,
{
    if s.len() == 0 {
        0
    } else {
        let rest = max_var_id_seq(s.drop_last());
        let last = max_var_id(s.last());
        if rest >= last {
            rest
        } else {
            last
        }
    }
}

/// The atom with `shift` added to the freshness counter of each variable.
pub open spec fn rename(a: AtomView, shift: nat) -> AtomView
    decreases a,
{
    match a {
        AtomView::Variable(v) => AtomView::Variable(VarView { name: v.name, id: v.id + shift }),
        AtomView::Expression(c) => AtomView::Expression(rename_seq(c, shift)),
        _ => a,
    }
}

/// `rename` on each atom of a sequence.
pub open spec fn rename_seq(s: Seq<AtomView>, shift: nat) -> Seq<AtomView>
    decreases s,
{
    Seq::new(
        s.len(),
        |i: int|
            if 0 <= i < s.len() {
                rename(s[i], shift)
            } else {
                AtomView::Symbol(Seq::empty())
            },
    )
}

/// The nesting depth of an atom, counted through expressions and through
/// the content of grounded spaces.
pub open spec fn height(a: AtomView) -> nat
    decreases a,
{
    match a {
        AtomView::Expression(c) => 1 + height_seq(c),
        AtomView::Grounded(GroundedView::Space(c)) => 1 + height_seq(c),
        _ => 0,
    }
}

/// The greatest nesting depth among the atoms of a sequence.
pub open spec fn height_seq(s: Seq<AtomView>) -> nat
    decreases s,
{
    if s.len() == 0 {
        0
    } else {
        let rest = height_seq(s.drop_last());
        let last = height(s.last());
        if rest >= last {
            rest
        } else {
            last
        }
    }
}

/// No atom of a sequence is nested deeper than the sequence's height.
pub proof fn lemma_height_seq_bound(s: Seq<AtomView>, i: int)
    requires
        0 <= i < s.len(),
    ensures
        height(s[i]) <= height_seq(s),
    decreases s.len(),
{
    if i < s.len() - 1 {
        lemma_height_seq_bound(s.drop_last(), i);
    }
}

/// No atom of a sequence holds a freshness counter above the sequence's
/// maximum.
pub proof fn lemma_max_var_id_seq_bound(s: Seq<AtomView>, i: int)
    requires
        0 <= i < s.len(),
    ensures
        max_var_id(s[i]) <= max_var_id_seq(s),
    decreases s.len(),
{
    if i < s.len() - 1 {
        lemma_max_var_id_seq_bound(s.drop_last(), i);
    }
}

/// The freshness counters of an atom in memory fit 64 bits.
pub proof fn lemma_max_var_id_fits(a: Atom)
    ensures
        max_var_id(a@) <= u64::MAX,
    decreases a,
{
    match a {
        Atom::Expression(e) => lemma_max_var_id_seq_fits(e.children@),
        _ => {},
    }
}

/// The freshness counters of atoms in memory fit 64 bits.
pub proof fn lemma_max_var_id_seq_fits(v: Seq<Atom>)
    ensures
        max_var_id_seq(atoms_view(v)) <= u64::MAX,
    decreases v,
{
    if v.len() > 0 {
        lemma_max_var_id_seq_fits(v.drop_last());
        lemma_max_var_id_fits(v.last());
        assert(atoms_view(v).drop_last() =~= atoms_view(v.drop_last()));
    }
}

/// No variable of an atom has a freshness counter above the atom's
/// greatest.
pub proof fn lemma_var_id_bounded(a: AtomView, v: VarView)
    requires
        vars_of(a).contains(v),
    ensures
        v.id <= max_var_id(a),
    decreases a,
{
    match a {
        AtomView::Expression(c) => {
            lemma_vars_of_seq(c, v);
            let k = choose|k: int| 0 <= k < c.len() && #[trigger] vars_of(c[k]).contains(v);
            lemma_var_id_bounded(c[k], v);
            lemma_max_var_id_seq_bound(c, k);
        },
        _ => {},
    }
}

/// Every variable of a renamed atom has a freshness counter of at least what
/// was added.
pub proof fn lemma_renamed_var_id(a: AtomView, shift: nat, v: VarView)
    requires
        vars_of(rename(a, shift)).contains(v),
    ensures
        v.id >= shift,
    decreases a,
{
    match a {
        AtomView::Expression(c) => {
            let d = rename_seq(c, shift);
            lemma_vars_of_seq(d, v);
            let k = choose|k: int| 0 <= k < d.len() && #[trigger] vars_of(d[k]).contains(v);
            assert(d[k] == rename(c[k], shift));
            lemma_renamed_var_id(c[k], shift, v);
        },
        _ => {},
    }
}

impl SymbolAtom {
    /// A symbol with the given name.
    pub fn new(name: String) -> (r: Self)
        ensures
            r@ == name@,
    {
        SymbolAtom { name }
    }

    /// The symbol's name.
    pub fn name(&self) -> (r: &str)
        ensures
            r@ == self@,
    {
        self.name.as_str()
    }
}

impl VariableAtom {
    /// A variable as a reader of text makes it: the given name, freshness
    /// counter 0.
    pub fn new(name: &str) -> (r: Self)
        ensures
            r@ == (VarView { name: name@, id: 0 }),
    {
        VariableAtom { name: name.to_owned(), id: 0 }
    }

    /// The variable's name.
    pub fn name(&self) -> (r: &str)
        ensures
            r@ == self@.name,
    {
        self.name.as_str()
    }

    /// The variable's freshness counter.
    pub fn id(&self) -> (r: u64)
        ensures
            r == self@.id,
    {
        self.id
    }
}

impl ExpressionAtom {
    /// An expression with the given children, in their order.
    pub fn new(children: Vec<Atom>) -> (r: Self)
        ensures
            r@ == atoms_view(children@),
    {
        ExpressionAtom { children }
    }

    /// The children, in their order.
    pub fn children(&self) -> (r: &Vec<Atom>)
        ensures
            atoms_view(r@) == self@,
    {
        &self.children
    }
}

impl GroundedAtom {
    /// The symbol that names the type of the grounded value.
    pub fn type_(&self) -> (r: Atom)
        ensures
            r@ == AtomView::Symbol(grounded_type_label(self@)),
    {
        match self {
            GroundedAtom::Int(_) => Atom::sym("i64"),
            GroundedAtom::Space(_) => Atom::sym("GroundingSpace"),
            GroundedAtom::Host { id: _, label, executable: _ } => Atom::Symbol(
                SymbolAtom { name: label.clone() },
            ),
        }
    }

    /// Whether the value matches in a way of its own rather than by
    /// equality: a space does, by querying its content.
    pub fn has_custom_match(&self) -> (r: bool)
        ensures
            r == (self@ is Space),
    {
        match self {
            GroundedAtom::Space(_) => true,
            _ => false,
        }
    }

    /// Whether the host can execute the value.
    pub fn is_executable(&self) -> (r: bool)
        ensures
            r == grounded_executable(self@),
    {
        match self {
            GroundedAtom::Host { id: _, label: _, executable } => *executable,
            _ => false,
        }
    }
}

/// The name of the type of a grounded value.
pub open spec fn grounded_type_label(g: GroundedView) -> Seq<char> {
    match g {
        GroundedView::Int(_) => "i64"@,
        GroundedView::Space(_) => "GroundingSpace"@,
        GroundedView::Host { id, label, executable } => label,
    }
}

/// Whether a grounded value can be executed: only a host value that says so.
pub open spec fn grounded_executable(g: GroundedView) -> bool {
    match g {
        GroundedView::Host { id, label, executable } => executable,
        _ => false,
    }
}

impl Atom {
    /// The symbol with the given name.
    pub fn sym(name: &str) -> (r: Atom)
        ensures
            r@ == AtomView::Symbol(name@),
    {
        Atom::Symbol(SymbolAtom { name: name.to_owned() })
    }

    /// The variable with the given name and freshness counter 0.
    pub fn var(name: &str) -> (r: Atom)
        ensures
            r@ == AtomView::Variable(VarView { name: name@, id: 0 }),
    {
        Atom::Variable(VariableAtom::new(name))
    }

    /// The expression with the given children.
    pub fn expr(children: Vec<Atom>) -> (r: Atom)
        ensures
            r@ == AtomView::Expression(atoms_view(children@)),
    {
        Atom::Expression(ExpressionAtom { children })
    }

    /// The grounded atom that holds the given value.
    pub fn gnd(value: GroundedAtom) -> (r: Atom)
        ensures
            r@ == AtomView::Grounded(value@),
    {
        Atom::Grounded(value)
    }

    /// The grounded atom that holds a host integer.
    pub fn value(n: i64) -> (r: Atom)
        ensures
            r@ == AtomView::Grounded(GroundedView::Int(n as int)),
    {
        Atom::Grounded(GroundedAtom::Int(n))
    }
}

/// Whether the variable occurs in the atom.
pub fn atom_has_var(atom: &Atom, var: &VariableAtom) -> (r: bool)
    ensures
        r == vars_of(atom@).contains(var@),
    decreases atom,
{
    match atom {
        Atom::Variable(v) => {
            assert(atom@ == AtomView::Variable(v@));
            v.name == var.name && v.id == var.id
        },
        Atom::Expression(e) => atoms_have_var(&e.children, var),
        _ => false,
    }
}

/// Whether the variable occurs in one of the atoms.
pub fn atoms_have_var(atoms: &Vec<Atom>, var: &VariableAtom) -> (r: bool)
    ensures
        r == vars_of_seq(atoms_view(atoms@)).contains(var@),
    decreases atoms,
{
    let mut i: usize = 0;
    while i < atoms.len()
        invariant
            i <= atoms.len(),
            !vars_of_seq(atoms_view(atoms@).take(i as int)).contains(var@),
        decreases atoms.len() - i,
    {
        let found = atom_has_var(&atoms[i], var);
        proof {
            let s = atoms_view(atoms@);
            assert(s.take(i + 1).drop_last() =~= s.take(i as int));
            assert(s.take(i + 1).last() == s[i as int]);
            if found {
                lemma_vars_of_seq(s, var@);
            }
        }
        if found {
            return true;
        }
        i += 1;
    }
    assert(atoms_view(atoms@).take(atoms.len() as int) =~= atoms_view(atoms@));
    false
}

/// The greatest freshness counter among the variables of the atom.
pub fn max_id(atom: &Atom) -> (r: u64)
    ensures
        r == max_var_id(atom@),
    decreases atom,
{
    match atom {
        Atom::Variable(v) => v.id,
        Atom::Expression(e) => max_id_of(&e.children),
        _ => 0,
    }
}

/// The greatest freshness counter among the variables of the atoms.
pub fn max_id_of(atoms: &Vec<Atom>) -> (r: u64)
    ensures
        r == max_var_id_seq(atoms_view(atoms@)),
    decreases atoms,
{
    let mut r: u64 = 0;
    let mut i: usize = 0;
    while i < atoms.len()
        invariant
            i <= atoms.len(),
            r == max_var_id_seq(atoms_view(atoms@).take(i as int)),
        decreases atoms.len() - i,
    {
        let m = max_id(&atoms[i]);
        proof {
            let s = atoms_view(atoms@);
            assert(s.take(i + 1).drop_last() =~= s.take(i as int));
            assert(s.take(i + 1).last() == s[i as int]);
        }
        if m > r {
            r = m;
        }
        i += 1;
    }
    assert(atoms_view(atoms@).take(atoms.len() as int) =~= atoms_view(atoms@));
    r
}

/// The atom with `shift` added to the freshness counter of each of its
/// variables. With a `shift` above every counter of another atom, the result
/// shares no variable with that atom.
pub fn make_variables_unique(atom: &Atom, shift: u64) -> (r: Atom)
    requires
        max_var_id(atom@) + shift <= u64::MAX,
    ensures
        r@ == rename(atom@, shift as nat),
    decreases atom,
{
    match atom {
        Atom::Variable(v) => Atom::Variable(
            VariableAtom { name: v.name.clone(), id: v.id + shift },
        ),
        Atom::Expression(e) => Atom::Expression(
            ExpressionAtom { children: rename_atoms(&e.children, shift) },
        ),
        _ => clone_atom(atom),
    }
}

/// `make_variables_unique` on each of the atoms.
pub fn rename_atoms(atoms: &Vec<Atom>, shift: u64) -> (r: Vec<Atom>)
    requires
        max_var_id_seq(atoms_view(atoms@)) + shift <= u64::MAX,
    ensures
        atoms_view(r@) == rename_seq(atoms_view(atoms@), shift as nat),
    decreases atoms,
{
    let mut r: Vec<Atom> = Vec::new();
    let mut i: usize = 0;
    while i < atoms.len()
        invariant
            i <= atoms.len(),
            max_var_id_seq(atoms_view(atoms@)) + shift <= u64::MAX,
            r.len() == i,
            forall|j: int|
                0 <= j < i ==> atom_view(r@[j]) == rename(atom_view(atoms@[j]), shift as nat),
        decreases atoms.len() - i,
    {
        proof {
            lemma_max_var_id_seq_bound(atoms_view(atoms@), i as int);
        }
        r.push(make_variables_unique(&atoms[i], shift));
        i += 1;
    }
    assert(atoms_view(r@) =~= rename_seq(atoms_view(atoms@), shift as nat));
    r
}

/// The models of a list of variables.
pub open spec fn vars_view(v: Seq<VariableAtom>) -> Seq<VarView> {
    Seq::new(v.len(), |i: int| v[i]@)
}

/// Whether the variable is in the list.
pub fn has_variable(vars: &Vec<VariableAtom>, var: &VariableAtom) -> (r: bool)
    ensures
        r == vars_view(vars@).contains(var@),
{
    let mut i: usize = 0;
    while i < vars.len()
        invariant
            i <= vars.len(),
            forall|j: int| 0 <= j < i ==> vars_view(vars@)[j] != var@,
        decreases vars.len() - i,
    {
        if vars[i].name == var.name && vars[i].id == var.id {
            assert(vars_view(vars@)[i as int] == var@);
            return true;
        }
        i += 1;
    }
    false
}

/// Puts the variables of the atom that the list does not hold yet behind
/// those that it holds.
pub fn collect_into(atom: &Atom, vars: &mut Vec<VariableAtom>)
    requires
        vars_view(old(vars)@).no_duplicates(),
    ensures
        vars_view(final(vars)@).no_duplicates(),
        forall|v: VarView|
            #[trigger] vars_view(final(vars)@).contains(v) <==> vars_view(old(vars)@).contains(v)
                || vars_of(atom@).contains(v),
    decreases atom,
{
    match atom {
        Atom::Variable(var) => {
            assert(atom@ == AtomView::Variable(var@));
            if !has_variable(vars, var) {
                let ghost before = vars_view(vars@);
                vars.push(var.clone());
                proof {
                    let after = vars_view(vars@);
                    assert(after =~= before.push(var@));
                    assert forall|v: VarView| #[trigger]
                        after.contains(v) <==> before.contains(v) || v == var@ by {
                        if before.contains(v) {
                            let k = choose|k: int| 0 <= k < before.len() && before[k] == v;
                            assert(after[k] == v);
                        }
                        if v == var@ {
                            assert(after[before.len() as int] == v);
                        }
                    }
                }
            }
        },
        Atom::Expression(e) => {
            collect_all(&e.children, vars);
        },
        _ => {},
    }
}

/// `collect_into` for each of the atoms, in order.
pub fn collect_all(atoms: &Vec<Atom>, vars: &mut Vec<VariableAtom>)
    requires
        vars_view(old(vars)@).no_duplicates(),
    ensures
        vars_view(final(vars)@).no_duplicates(),
        forall|v: VarView|
            #[trigger] vars_view(final(vars)@).contains(v) <==> vars_view(old(vars)@).contains(v)
                || vars_of_seq(atoms_view(atoms@)).contains(v),
    decreases atoms,
{
    let ghost av = atoms_view(atoms@);
    let ghost start = vars_view(vars@);
    let mut i: usize = 0;
    assert(av.take(0) =~= Seq::empty());
    while i < atoms.len()
        invariant
            i <= atoms.len(),
            av == atoms_view(atoms@),
            start == vars_view(old(vars)@),
            vars_view(vars@).no_duplicates(),
            forall|v: VarView|
                #[trigger] vars_view(vars@).contains(v) <==> start.contains(v) || vars_of_seq(
                    av.take(i as int),
                ).contains(v),
        decreases atoms.len() - i,
    {
        let ghost before = vars_view(vars@);
        collect_into(&atoms[i], vars);
        proof {
            assert(av.take(i + 1).drop_last() =~= av.take(i as int));
            assert(av.take(i + 1).last() == av[i as int]);
            let after = vars_view(vars@);
            assert forall|v: VarView| #[trigger]
                after.contains(v) <==> start.contains(v) || vars_of_seq(av.take(i + 1)).contains(
                    v,
                ) by {
                assert(after.contains(v) <==> before.contains(v) || vars_of(
                    atoms@[i as int]@,
                ).contains(v));
                assert(before.contains(v) <==> start.contains(v) || vars_of_seq(
                    av.take(i as int),
                ).contains(v));
            }
        }
        i += 1;
    }
    assert(av.take(atoms.len() as int) =~= av);
}

/// The variables of the atom, each once, in the order in which they first
/// occur.
pub fn collect_variables(atom: &Atom) -> (r: Vec<VariableAtom>)
    ensures
        vars_view(r@).no_duplicates(),
        forall|v: VarView| #[trigger] vars_view(r@).contains(v) <==> vars_of(atom@).contains(v),
{
    let mut vars: Vec<VariableAtom> = Vec::new();
    assert(vars_view(vars@) =~= Seq::empty());
    collect_into(atom, &mut vars);
    vars
}

/// Whether two sequences of atoms have the same model.
pub fn atoms_eq(xs: &Vec<Atom>, ys: &Vec<Atom>) -> (r: bool)
    ensures
        r == (atoms_view(xs@) == atoms_view(ys@)),
    decreases xs,
{
    if xs.len() != ys.len() {
        assert(atoms_view(xs@).len() != atoms_view(ys@).len());
        return false;
    }
    let mut i: usize = 0;
    while i < xs.len()
        invariant
            i <= xs.len(),
            xs.len() == ys.len(),
            forall|j: int| 0 <= j < i ==> atom_view(xs@[j]) == atom_view(ys@[j]),
        decreases xs.len() - i,
    {
        if !atom_eq(&xs[i], &ys[i]) {
            assert(atoms_view(xs@)[i as int] != atoms_view(ys@)[i as int]);
            return false;
        }
        i += 1;
    }
    assert(atoms_view(xs@) =~= atoms_view(ys@));
    true
}

/// Whether two grounded values have the same model.
pub fn grounded_eq(a: &GroundedAtom, b: &GroundedAtom) -> (r: bool)
    ensures
        r == (a@ == b@),
    decreases a,
{
    match (a, b) {
        (GroundedAtom::Int(x), GroundedAtom::Int(y)) => *x == *y,
        (GroundedAtom::Space(x), GroundedAtom::Space(y)) => atoms_eq(x, y),
        (
            GroundedAtom::Host { id: i1, label: l1, executable: e1 },
            GroundedAtom::Host { id: i2, label: l2, executable: e2 },
        ) => *i1 == *i2 && *l1 == *l2 && *e1 == *e2,
        _ => false,
    }
}

/// Structural equality of atoms: whether the two have the same model.
pub fn atom_eq(a: &Atom, b: &Atom) -> (r: bool)
    ensures
        r == (a@ == b@),
    decreases a,
{
    match (a, b) {
        (Atom::Symbol(x), Atom::Symbol(y)) => x.name == y.name,
        (Atom::Variable(x), Atom::Variable(y)) => x.name == y.name && x.id == y.id,
        (Atom::Expression(x), Atom::Expression(y)) => atoms_eq(&x.children, &y.children),
        (Atom::Grounded(x), Atom::Grounded(y)) => grounded_eq(x, y),
        _ => false,
    }
}

/// A copy of a sequence of atoms with the same model.
pub fn clone_atoms(v: &Vec<Atom>) -> (r: Vec<Atom>)
    ensures
        atoms_view(r@) == atoms_view(v@),
    decreases v,
{
    let mut r: Vec<Atom> = Vec::new();
    let mut i: usize = 0;
    while i < v.len()
        invariant
            i <= v.len(),
            r.len() == i,
            forall|j: int| 0 <= j < i ==> atom_view(r@[j]) == atom_view(v@[j]),
        decreases v.len() - i,
    {
        r.push(clone_atom(&v[i]));
        i += 1;
    }
    assert(atoms_view(r@) =~= atoms_view(v@));
    r
}

/// A copy of an atom with the same model.
pub fn clone_atom(a: &Atom) -> (r: Atom)
    ensures
        r@ == a@,
    decreases a,
{
    match a {
        Atom::Symbol(s) => Atom::Symbol(SymbolAtom { name: s.name.clone() }),
        Atom::Variable(v) => Atom::Variable(VariableAtom { name: v.name.clone(), id: v.id }),
        Atom::Expression(e) => Atom::Expression(
            ExpressionAtom { children: clone_atoms(&e.children) },
        ),
        Atom::Grounded(g) => Atom::Grounded(
            match g {
                GroundedAtom::Int(n) => GroundedAtom::Int(*n),
                GroundedAtom::Space(c) => GroundedAtom::Space(clone_atoms(c)),
                GroundedAtom::Host { id, label, executable } => GroundedAtom::Host {
                    id: *id,
                    label: label.clone(),
                    executable: *executable,
                },
            },
        ),
    }
}

impl Clone for VariableAtom {
    fn clone(&self) -> (r: Self)
        ensures
            r@ == self@,
    {
        VariableAtom { name: self.name.clone(), id: self.id }
    }
}

impl Clone for Atom {
    fn clone(&self) -> (r: Self)
        ensures
            r@ == self@,
    {
        clone_atom(self)
    }
}

impl PartialEq for VariableAtom {
    fn eq(&self, other: &Self) -> (r: bool) {
        self.name == other.name && self.id == other.id
    }
}

impl PartialEqSpecImpl for VariableAtom {
    open spec fn obeys_eq_spec() -> bool {
        true
    }

    open spec fn eq_spec(&self, other: &Self) -> bool {
        self@ == other@
    }
}

impl PartialEq for SymbolAtom {
    fn eq(&self, other: &Self) -> (r: bool) {
        self.name == other.name
    }
}

impl PartialEqSpecImpl for SymbolAtom {
    open spec fn obeys_eq_spec() -> bool {
        true
    }

    open spec fn eq_spec(&self, other: &Self) -> bool {
        self@ == other@
    }
}

impl PartialEq for ExpressionAtom {
    fn eq(&self, other: &Self) -> (r: bool) {
        atoms_eq(&self.children, &other.children)
    }
}

impl PartialEqSpecImpl for ExpressionAtom {
    open spec fn obeys_eq_spec() -> bool {
        true
    }

    open spec fn eq_spec(&self, other: &Self) -> bool {
        self@ == other@
    }
}

impl PartialEq for GroundedAtom {
    fn eq(&self, other: &Self) -> (r: bool) {
        grounded_eq(self, other)
    }
}

impl PartialEqSpecImpl for GroundedAtom {
    open spec fn obeys_eq_spec() -> bool {
        true
    }

    open spec fn eq_spec(&self, other: &Self) -> bool {
        self@ == other@
    }
}

impl PartialEq for Atom {
    fn eq(&self, other: &Self) -> (r: bool) {
        atom_eq(self, other)
    }
}

impl PartialEqSpecImpl for Atom {
    open spec fn obeys_eq_spec() -> bool {
        true
    }

    open spec fn eq_spec(&self, other: &Self) -> bool {
        self@ == other@
    }
}

} // verus!
