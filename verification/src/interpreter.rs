//! The stepwise interpreter: it rewrites an expression by the rules of a
//! space, one step at a time, along a plan of what is done and what is left.

use crate::atom::{
    atoms_view, clone_atom, grounded_executable, lemma_var_id_bounded, max_id, max_var_id, vars_of,
    Atom, AtomView, VarView, VariableAtom,
};
use crate::bindings::{bindings_max_id, lookup, restrict, Bindings, BindingsView};
use crate::matcher::{
    bindings_views, closed_merge, larger, merge_closed, query_bounded, spec_query,
    CONJUNCTION_DEPTH,
};
use crate::space::GroundingSpace;
use vstd::prelude::*;

verus! {

broadcast use vstd::std_specs::vec::group_vec_axioms;

/// Mathematical model of an error of the host.
pub ghost enum ExecErrorView {
    Runtime(Seq<char>),
    NoReduce,
}

/// What the host says where it cannot execute a grounded value.
#[derive(Debug)]
pub enum ExecError {
    /// The execution failed, with a message.
    Runtime(String),
    /// The expression is not to be reduced: it is its own result.
    NoReduce,
}

impl View for ExecError {
    type V = ExecErrorView;

    open spec fn view(&self) -> ExecErrorView {
        match self {
            ExecError::Runtime(msg) => ExecErrorView::Runtime(msg@),
            ExecError::NoReduce => ExecErrorView::NoReduce,
        }
    }
}

/// Mathematical model of a leaf of the plan.
pub ghost enum PlanNodeView {
    Result(AtomView),
    Pending(AtomView, BindingsView),
    Call(AtomView),
    Failed(Seq<char>),
}

/// A leaf of the plan.
#[derive(Debug)]
pub enum PlanNode {
    /// An atom that is reduced as far as it goes.
    Result(Atom),
    /// An atom that is still to be reduced, with the bindings gathered on the
    /// way to it.
    Pending(Atom, Bindings),
    /// An expression headed by a grounded value that waits for the host to
    /// execute it on the other children.
    Call(Atom),
    /// A branch that the host failed, with its message.
    Failed(String),
}

impl View for PlanNode {
    type V = PlanNodeView;

    open spec fn view(&self) -> PlanNodeView {
        match self {
            PlanNode::Result(a) => PlanNodeView::Result(a@),
            PlanNode::Pending(a, b) => PlanNodeView::Pending(a@, b@),
            PlanNode::Call(a) => PlanNodeView::Call(a@),
            PlanNode::Failed(msg) => PlanNodeView::Failed(msg@),
        }
    }
}

/// The models of a list of leaves.
pub open spec fn plan_view(v: Seq<PlanNode>) -> Seq<PlanNodeView> {
    Seq::new(v.len(), |i: int| v[i]@)
}

/// The plan of an interpretation: its leaves from left to right.
#[derive(Debug)]
pub struct InterpreterState {
    plan: Vec<PlanNode>,
}

impl View for InterpreterState {
    type V = Seq<PlanNodeView>;

    closed spec fn view(&self) -> Seq<PlanNodeView> {
        plan_view(self.plan@)
    }
}

/// The greatest freshness counter in use at a leaf: among the variables of
/// `expr` and of the bindings `acc` gathered on the way to it.
pub open spec fn counter_in_use(expr: AtomView, acc: BindingsView) -> nat {
    larger(max_var_id(expr), bindings_max_id(acc))
}

/// The variable that stands for the right side of a rule in the query for
/// the rules of `expr`: it is named `X` and its freshness counter is one
/// above those in use.
pub open spec fn rule_var(expr: AtomView, acc: BindingsView) -> VarView {
    VarView { name: "X"@, id: counter_in_use(expr, acc) + 1 }
}

/// The query for the rules of `expr`: `(= expr $X)`.
pub open spec fn rule_query(expr: AtomView, acc: BindingsView) -> AtomView {
    AtomView::Expression(
        seq![AtomView::Symbol("="@), expr, AtomView::Variable(rule_var(expr, acc))],
    )
}

/// The answers of the content to the query for the rules of `expr`. A leaf
/// whose freshness counters leave no room for the variable of the query has
/// none.
pub open spec fn rule_matches(content: Seq<AtomView>, expr: AtomView, acc: BindingsView) -> Seq<
    BindingsView,
> {
    if counter_in_use(expr, acc) < u64::MAX {
        spec_query(content, rule_query(expr, acc), CONJUNCTION_DEPTH as nat, 0)
    } else {
        Seq::empty()
    }
}

/// The leaf that one answer `b` to the query for the rules of `expr` gives:
/// the right side of the rule, still to be reduced, with the bindings `acc`
/// merged with what `b` binds of the variables of `expr`. An answer whose
/// merge is refused gives no leaf.
pub open spec fn alternative(b: BindingsView, expr: AtomView, acc: BindingsView) -> Seq<
    PlanNodeView,
> {
    match (lookup(b, rule_var(expr, acc)), closed_merge(acc, restrict(b, expr))) {
        (Some(rhs), Some(m)) => seq![PlanNodeView::Pending(rhs, m)],
        _ => Seq::empty(),
    }
}

/// The leaves that the answers `rs` give, in order.
pub open spec fn alternatives(rs: Seq<BindingsView>, expr: AtomView, acc: BindingsView) -> Seq<
    PlanNodeView,
>
    decreases rs.len(),
{
    if rs.len() == 0 {
        Seq::empty()
    } else {
        alternatives(rs.drop_last(), expr, acc) + alternative(rs.last(), expr, acc)
    }
}

/// Whether the expression is headed by a grounded value that the host can
/// execute.
pub open spec fn executable_head(expr: AtomView) -> bool {
    match expr {
        AtomView::Expression(c) => c.len() > 0 && match c[0] {
            AtomView::Grounded(g) => grounded_executable(g),
            _ => false,
        },
        _ => false,
    }
}

/// What one step makes of the leaf that holds `expr` to be reduced.
///
/// An atom that is no expression is its own result. An expression for which
/// the content has rules gives one leaf for each rule that matches. With no
/// rule, an expression headed by an executable grounded value waits for the
/// host. Any other expression is its own result.
pub open spec fn spec_reduce(content: Seq<AtomView>, expr: AtomView, acc: BindingsView) -> Seq<
    PlanNodeView,
> {
    if !(expr is Expression) {
        seq![PlanNodeView::Result(expr)]
    } else if rule_matches(content, expr, acc).len() > 0 {
        alternatives(rule_matches(content, expr, acc), expr, acc)
    } else if executable_head(expr) {
        seq![PlanNodeView::Call(expr)]
    } else {
        seq![PlanNodeView::Result(expr)]
    }
}

/// Whether the leaf is still to be worked on.
pub open spec fn is_active(node: PlanNodeView) -> bool {
    node is Pending || node is Call
}

/// The place of the first leaf from `start` on that is still to be worked on.
pub open spec fn first_active(plan: Seq<PlanNodeView>, start: nat) -> Option<int>
    decreases plan.len() - start,
{
    if start >= plan.len() {
        None
    } else if is_active(plan[start as int]) {
        Some(start as int)
    } else {
        first_active(plan, start + 1)
    }
}

/// The plan with the leaf at `i` replaced by the leaves `by`.
pub open spec fn spliced(plan: Seq<PlanNodeView>, i: int, by: Seq<PlanNodeView>) -> Seq<
    PlanNodeView,
> {
    plan.take(i) + by + plan.skip(i + 1)
}

/// The plan after one step: its leftmost leaf that is still to be worked on
/// is reduced, if it is to be reduced. A plan whose leftmost such leaf waits
/// for the host, or that has none, stays as it is.
pub open spec fn spec_step(content: Seq<AtomView>, plan: Seq<PlanNodeView>) -> Seq<PlanNodeView> {
    match first_active(plan, 0) {
        Some(i) => match plan[i] {
            PlanNodeView::Pending(expr, acc) => spliced(plan, i, spec_reduce(content, expr, acc)),
            _ => plan,
        },
        None => plan,
    }
}

/// The expression that the leftmost leaf still to be worked on hands to the
/// host, if that leaf waits for the host.
pub open spec fn spec_pending_call(plan: Seq<PlanNodeView>) -> Option<AtomView> {
    match first_active(plan, 0) {
        Some(i) => match plan[i] {
            PlanNodeView::Call(expr) => Some(expr),
            _ => None,
        },
        None => None,
    }
}

/// Each atom as a result.
pub open spec fn as_results(atoms: Seq<AtomView>) -> Seq<PlanNodeView> {
    Seq::new(atoms.len(), |i: int| PlanNodeView::Result(atoms[i]))
}

/// The leaves that the host's answer makes of the leaf that waited with
/// `expr`: one result for each atom returned; the expression itself where
/// nothing is returned or the host says that it is not to be reduced; a
/// failed branch where the host fails.
pub open spec fn answered(expr: AtomView, outcome: Result<Seq<AtomView>, ExecErrorView>) -> Seq<
    PlanNodeView,
> {
    match outcome {
        Ok(atoms) => if atoms.len() == 0 {
            seq![PlanNodeView::Result(expr)]
        } else {
            as_results(atoms)
        },
        Err(ExecErrorView::NoReduce) => seq![PlanNodeView::Result(expr)],
        Err(ExecErrorView::Runtime(msg)) => seq![PlanNodeView::Failed(msg)],
    }
}

/// The plan after the host's answer is handed over: where the leftmost leaf
/// still to be worked on waits for the host, it is replaced as `answered`
/// says; else the plan stays as it is.
pub open spec fn spec_provide(
    plan: Seq<PlanNodeView>,
    outcome: Result<Seq<AtomView>, ExecErrorView>,
) -> Seq<PlanNodeView> {
    match first_active(plan, 0) {
        Some(i) => match plan[i] {
            PlanNodeView::Call(expr) => spliced(plan, i, answered(expr, outcome)),
            _ => plan,
        },
        None => plan,
    }
}

/// The atoms of the result leaves, from left to right.
pub open spec fn spec_results(plan: Seq<PlanNodeView>) -> Seq<AtomView>
    decreases plan.len(),
{
    if plan.len() == 0 {
        Seq::empty()
    } else {
        let rest = spec_results(plan.drop_last());
        match plan.last() {
            PlanNodeView::Result(a) => rest.push(a),
            _ => rest,
        }
    }
}

/// The message of the first failed branch from `start` on.
pub open spec fn first_failure(plan: Seq<PlanNodeView>, start: nat) -> Option<Seq<char>>
    decreases plan.len() - start,
{
    if start >= plan.len() {
        None
    } else {
        match plan[start as int] {
            PlanNodeView::Failed(msg) => Some(msg),
            _ => first_failure(plan, start + 1),
        }
    }
}

/// What the plan comes to: its results or, where it has none and a branch
/// failed, the message of the first failed branch.
pub open spec fn spec_into_result(plan: Seq<PlanNodeView>) -> Result<Seq<AtomView>, Seq<char>> {
    let results = spec_results(plan);
    match first_failure(plan, 0) {
        Some(msg) => if results.len() == 0 {
            Err(msg)
        } else {
            Ok(results)
        },
        None => Ok(results),
    }
}

/// The plan at the start: one step on the single leaf that holds `expr` to
/// be reduced, with no bindings.
pub open spec fn spec_init(content: Seq<AtomView>, expr: AtomView) -> Seq<PlanNodeView> {
    spec_step(content, seq![PlanNodeView::Pending(expr, Seq::empty())])
}

/// Whether the expression is headed by a grounded value that the host can
/// execute.
pub fn has_executable_head(expr: &Atom) -> (r: bool)
    ensures
        r == executable_head(expr@),
{
    match expr {
        Atom::Expression(e) => {
            if e.children.len() == 0 {
                false
            } else {
                assert(atoms_view(e.children@)[0] == e.children@[0]@);
                match &e.children[0] {
                    Atom::Grounded(g) => g.is_executable(),
                    _ => false,
                }
            }
        },
        _ => false,
    }
}

/// The greatest freshness counter in use at a leaf.
pub fn max_in_use(expr: &Atom, acc: &Bindings) -> (r: u64)
    ensures
        r == counter_in_use(expr@, acc@),
{
    let e = max_id(expr);
    let a = acc.max_id();
    if e >= a {
        e
    } else {
        a
    }
}

/// The answers of the content to the query for the rules of `expr`, at a
/// leaf with the bindings `acc`.
pub fn find_rules(content: &Vec<Atom>, expr: &Atom, acc: &Bindings) -> (r: Vec<Bindings>)
    ensures
        bindings_views(r@) == rule_matches(atoms_view(content@), expr@, acc@),
{
    let top = max_in_use(expr, acc);
    if top < u64::MAX {
        let mut children: Vec<Atom> = Vec::new();
        children.push(Atom::sym("="));
        children.push(clone_atom(expr));
        children.push(Atom::Variable(VariableAtom { name: "X".to_owned(), id: top + 1 }));
        assert(atoms_view(children@) =~= seq![
            AtomView::Symbol("="@),
            expr@,
            AtomView::Variable(rule_var(expr@, acc@)),
        ]);
        let query = Atom::expr(children);
        query_bounded(content, &query, CONJUNCTION_DEPTH, 0)
    } else {
        let r: Vec<Bindings> = Vec::new();
        assert(bindings_views(r@) =~= Seq::empty());
        r
    }
}

/// What one step makes of the leaf that holds `expr` to be reduced, with the
/// bindings `acc` gathered on the way to it.
pub fn reduce(content: &Vec<Atom>, expr: Atom, acc: Bindings) -> (r: Vec<PlanNode>)
    ensures
        plan_view(r@) == spec_reduce(atoms_view(content@), expr@, acc@),
{
    let mut r: Vec<PlanNode> = Vec::new();
    let is_expression = match &expr {
        Atom::Expression(_) => true,
        _ => false,
    };
    if !is_expression {
        r.push(PlanNode::Result(expr));
        assert(plan_view(r@) =~= seq![PlanNodeView::Result(expr@)]);
        return r;
    }
    let found = find_rules(content, &expr, &acc);
    let ghost rs = bindings_views(found@);
    if found.len() > 0 {
        let top = max_in_use(&expr, &acc);
        proof {
            if top == u64::MAX {
                assert(rs.len() == 0);
            }
        }
        let x = VariableAtom { name: "X".to_owned(), id: top + 1 };
        let mut i: usize = 0;
        assert(plan_view(r@) =~= alternatives(rs.take(0), expr@, acc@));
        while i < found.len()
            invariant
                i <= found.len(),
                rs == bindings_views(found@),
                x@ == rule_var(expr@, acc@),
                plan_view(r@) == alternatives(rs.take(i as int), expr@, acc@),
            decreases found.len() - i,
        {
            proof {
                assert(rs.take(i + 1).drop_last() =~= rs.take(i as int));
                assert(rs.take(i + 1).last() == found@[i as int]@);
            }
            let ghost r0 = r@;
            let narrowed = found[i].restrict_to(&expr);
            match (found[i].get(&x), merge_closed(&acc, &narrowed)) {
                (Some(rhs), Some(m)) => {
                    r.push(PlanNode::Pending(clone_atom(rhs), m));
                    assert(plan_view(r@) =~= plan_view(r0) + seq![
                        PlanNodeView::Pending(rhs@, m@),
                    ]);
                },
                _ => {
                    assert(plan_view(r@) =~= plan_view(r0) + Seq::empty());
                },
            }
            i += 1;
        }
        assert(rs.take(found.len() as int) =~= rs);
        r
    } else if has_executable_head(&expr) {
        r.push(PlanNode::Call(expr));
        assert(plan_view(r@) =~= seq![PlanNodeView::Call(expr@)]);
        r
    } else {
        r.push(PlanNode::Result(expr));
        assert(plan_view(r@) =~= seq![PlanNodeView::Result(expr@)]);
        r
    }
}

/// What the leaf is: 0 for one to be reduced, 1 for one that waits for the
/// host, 2 for one that is done or failed.
fn node_kind(node: &PlanNode) -> (r: u8)
    ensures
        (r == 0) == (node@ is Pending),
        (r == 1) == (node@ is Call),
        r <= 2,
{
    match node {
        PlanNode::Pending(_, _) => 0,
        PlanNode::Call(_) => 1,
        _ => 2,
    }
}

/// The plan with the leaf at `i` replaced by the leaves `by`.
fn splice(plan: Vec<PlanNode>, i: usize, by: Vec<PlanNode>) -> (r: Vec<PlanNode>)
    requires
        i < plan.len(),
    ensures
        plan_view(r@) == spliced(plan_view(plan@), i as int, plan_view(by@)),
{
    let mut head = plan;
    let mut by = by;
    let ghost whole = head@;
    let ghost b0 = by@;
    let mut tail = head.split_off(i);
    tail.remove(0);
    head.append(&mut by);
    head.append(&mut tail);
    assert(head@ =~= whole.take(i as int) + b0 + whole.skip(i + 1));
    assert(plan_view(head@) =~= spliced(plan_view(whole), i as int, plan_view(b0)));
    head
}

impl InterpreterState {
    /// The place of the leftmost leaf that is still to be worked on.
    fn active(&self) -> (r: Option<usize>)
        ensures
            match r {
                Some(i) => first_active(self@, 0) == Some(i as int) && i < self.plan.len(),
                None => first_active(self@, 0) is None,
            },
    {
        let ghost plan = self@;
        let mut i: usize = 0;
        while i < self.plan.len()
            invariant
                i <= self.plan.len(),
                plan == self@,
                first_active(plan, 0) == first_active(plan, i as nat),
            decreases self.plan.len() - i,
        {
            assert(plan[i as int] == self.plan@[i as int]@);
            if node_kind(&self.plan[i]) < 2 {
                return Some(i);
            }
            i += 1;
        }
        None
    }

    /// Whether a leaf is still to be worked on: one that is to be reduced or
    /// one that waits for the host.
    pub fn has_next(&self) -> (r: bool)
        ensures
            r == (first_active(self@, 0) is Some),
    {
        self.active().is_some()
    }

    /// The expression that waits for the host, where the leftmost leaf still
    /// to be worked on is one that does: the host executes its first child on
    /// the other children.
    pub fn pending_call(&self) -> (r: Option<&Atom>)
        ensures
            match r {
                Some(expr) => spec_pending_call(self@) == Some(expr@),
                None => spec_pending_call(self@) is None,
            },
    {
        match self.active() {
            Some(i) => {
                assert(self@[i as int] == self.plan@[i as int]@);
                match &self.plan[i] {
                    PlanNode::Call(expr) => Some(expr),
                    _ => None,
                }
            },
            None => None,
        }
    }

    /// Hands over the host's answer for the expression that waits for it.
    pub fn provide(self, outcome: Result<Vec<Atom>, ExecError>) -> (r: InterpreterState)
        ensures
            r@ == spec_provide(
                self@,
                match outcome {
                    Ok(atoms) => Ok(atoms_view(atoms@)),
                    Err(e) => Err(e@),
                },
            ),
    {
        match self.active() {
            Some(i) => {
                assert(self@[i as int] == self.plan@[i as int]@);
                let expr = match &self.plan[i] {
                    PlanNode::Call(expr) => clone_atom(expr),
                    _ => {
                        return self;
                    },
                };
                let mut by: Vec<PlanNode> = Vec::new();
                match outcome {
                    Ok(atoms) => {
                        if atoms.len() == 0 {
                            by.push(PlanNode::Result(expr));
                            assert(plan_view(by@) =~= seq![PlanNodeView::Result(expr@)]);
                        } else {
                            let mut j: usize = 0;
                            while j < atoms.len()
                                invariant
                                    j <= atoms.len(),
                                    by.len() == j,
                                    forall|k: int|
                                        0 <= k < j ==> (#[trigger] by@[k])@ == PlanNodeView::Result(
                                            atoms@[k]@,
                                        ),
                                decreases atoms.len() - j,
                            {
                                by.push(PlanNode::Result(clone_atom(&atoms[j])));
                                j += 1;
                            }
                            assert(plan_view(by@) =~= as_results(atoms_view(atoms@)));
                        }
                    },
                    Err(ExecError::NoReduce) => {
                        by.push(PlanNode::Result(expr));
                        assert(plan_view(by@) =~= seq![PlanNodeView::Result(expr@)]);
                    },
                    Err(ExecError::Runtime(msg)) => {
                        by.push(PlanNode::Failed(msg));
                        assert(plan_view(by@) =~= seq![PlanNodeView::Failed(msg@)]);
                    },
                }
                InterpreterState { plan: splice(self.plan, i, by) }
            },
            None => self,
        }
    }

    /// What the plan comes to: the atoms of its results from left to right
    /// or, where it has none and a branch failed, the message of the first
    /// failed branch.
    pub fn into_result(self) -> (r: Result<Vec<Atom>, String>)
        ensures
            match r {
                Ok(atoms) => spec_into_result(self@) == Ok::<Seq<AtomView>, Seq<char>>(
                    atoms_view(atoms@),
                ),
                Err(msg) => spec_into_result(self@) == Err::<Seq<AtomView>, Seq<char>>(msg@),
            },
    {
        let ghost plan = self@;
        let mut results: Vec<Atom> = Vec::new();
        let mut failure: Option<String> = None;
        let mut i: usize = 0;
        assert(atoms_view(results@) =~= spec_results(plan.take(0)));
        while i < self.plan.len()
            invariant
                i <= self.plan.len(),
                plan == self@,
                atoms_view(results@) == spec_results(plan.take(i as int)),
                match failure {
                    Some(msg) => first_failure(plan, 0) == Some(msg@),
                    None => first_failure(plan, 0) == first_failure(plan, i as nat),
                },
            decreases self.plan.len() - i,
        {
            proof {
                assert(plan[i as int] == self.plan@[i as int]@);
                assert(plan.take(i + 1).drop_last() =~= plan.take(i as int));
                assert(plan.take(i + 1).last() == plan[i as int]);
            }
            let ghost r0 = results@;
            match &self.plan[i] {
                PlanNode::Result(a) => {
                    results.push(clone_atom(a));
                    assert(atoms_view(results@) =~= atoms_view(r0).push(a@));
                },
                PlanNode::Failed(msg) => {
                    if failure.is_none() {
                        failure = Some(msg.clone());
                    }
                },
                _ => {},
            }
            i += 1;
        }
        assert(plan.take(self.plan.len() as int) =~= plan);
        assert(atoms_view(results@).len() == results.len());
        match failure {
            Some(msg) => {
                if results.len() == 0 {
                    Err(msg)
                } else {
                    Ok(results)
                }
            },
            None => Ok(results),
        }
    }
}

/// Starts the interpretation of `expr` by the rules of the space, and takes
/// the first step.
pub fn interpret_init(space: &GroundingSpace, expr: &Atom) -> (r: InterpreterState)
    ensures
        r@ == spec_init(space@.content, expr@),
{
    let mut plan: Vec<PlanNode> = Vec::new();
    plan.push(PlanNode::Pending(clone_atom(expr), Bindings::new()));
    let state = InterpreterState { plan };
    assert(state@ =~= seq![PlanNodeView::Pending(expr@, Seq::empty())]);
    interpret_step(space, state)
}

/// Takes one step: reduces the leftmost leaf that is still to be worked on.
/// A plan whose leftmost such leaf waits for the host, or that has none,
/// stays as it is.
pub fn interpret_step(space: &GroundingSpace, state: InterpreterState) -> (r: InterpreterState)
    ensures
        r@ == spec_step(space@.content, state@),
{
    match state.active() {
        Some(i) => {
            assert(state@[i as int] == state.plan@[i as int]@);
            let (expr, acc) = match &state.plan[i] {
                PlanNode::Pending(expr, acc) => (clone_atom(expr), acc.clone()),
                _ => {
                    return state;
                },
            };
            let by = reduce(space.content(), expr, acc);
            InterpreterState { plan: splice(state.plan, i, by) }
        },
        None => state,
    }
}

/// An atom for which the space has no rule, and that the host cannot
/// execute, is its own and only result as soon as the interpretation has
/// started: nothing is left to do, and a further step changes nothing.
pub proof fn lemma_interpret_data(content: Seq<AtomView>, expr: AtomView)
    requires
        rule_matches(content, expr, Seq::empty()).len() == 0,
        !executable_head(expr),
    ensures
        spec_init(content, expr) == seq![PlanNodeView::Result(expr)],
        first_active(spec_init(content, expr), 0) is None,
        spec_into_result(spec_init(content, expr)) == Ok::<Seq<AtomView>, Seq<char>>(seq![expr]),
        spec_step(content, spec_init(content, expr)) == spec_init(content, expr),
{
    let start = seq![PlanNodeView::Pending(expr, Seq::empty())];
    let done = seq![PlanNodeView::Result(expr)];
    assert(first_active(start, 0) == Some(0int));
    assert(spec_reduce(content, expr, Seq::empty()) == done);
    assert(spliced(start, 0, done) =~= done);
    assert(first_active(done, 0) is None) by {
        assert(first_active(done, 1) is None);
    }
    assert(first_failure(done, 0) is None) by {
        assert(first_failure(done, 1) is None);
    }
    assert(spec_results(done) =~= seq![expr]) by {
        assert(done.drop_last() =~= Seq::empty());
        assert(spec_results(done.drop_last()) =~= Seq::empty());
    }
}

/// The variable that stands for the right side of a rule is fresh: it is no
/// variable of the expression whose rules are asked for.
pub proof fn lemma_rule_var_fresh(expr: AtomView, acc: BindingsView)
    ensures
        !vars_of(expr).contains(rule_var(expr, acc)),
{
    if vars_of(expr).contains(rule_var(expr, acc)) {
        lemma_var_id_bounded(expr, rule_var(expr, acc));
    }
}

} // verus!
