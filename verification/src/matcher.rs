//! Matching of a pattern against data, and queries over a collection of atoms.

use crate::atom::{
    atom_eq, atoms_view, grounded_eq, height, height_seq, lemma_height_seq_bound,
    lemma_max_var_id_seq_bound, lemma_renamed_var_id, lemma_var_id_bounded, lemma_vars_of_seq,
    make_variables_unique, max_var_id, max_var_id_seq, rename, rename_seq, vars_of, Atom,
    AtomView, GroundedAtom, GroundedView, VarView, VariableAtom,
};
use crate::bindings::{
    apply_bindings_to_atom, apply_bindings_to_bindings, bindings_max_id, has_key, insert_all,
    is_solved, key_index, keys_distinct, lemma_filter_keys_distinct, lemma_insert_sound,
    lemma_lookup_at, lemma_refines_keeps_equal, lemma_refines_self, lemma_refines_trans,
    lemma_subst_identity, lookup, refines, restrict, spec_apply_to_bindings, spec_insert, subst,
    subst_seq, Bindings, BindingsView,
};
use vstd::prelude::*;

verus! {

broadcast use vstd::std_specs::vec::group_vec_axioms;

/// The models of a list of bindings.
pub open spec fn bindings_views(v: Seq<Bindings>) -> Seq<BindingsView> {
    Seq::new(v.len(), |i: int| v[i]@)
}

/// The outcome of a binding as an option.
pub open spec fn inserted(s: BindingsView, var: VarView, atom: AtomView) -> Option<BindingsView> {
    match spec_insert(s, var, atom) {
        Ok(r) => Some(r),
        Err(_) => None,
    }
}

/// The outcome of a binding as a sequence of at most one.
pub open spec fn inserted_seq(s: BindingsView, var: VarView, atom: AtomView) -> Seq<BindingsView> {
    match inserted(s, var, atom) {
        Some(r) => seq![r],
        None => Seq::empty(),
    }
}

/// The ways in which `pattern` matches `data`, each as what it makes of the
/// bindings `s`; none where they do not match.
///
/// The variables of `data` are read with `shift` added to their freshness
/// counters. A variable of the pattern is bound to the data it meets, a
/// variable of the data to the pattern it meets; where two variables meet, the
/// pattern's is the one bound. A grounded space in the data answers in a way
/// of its own: the pattern, with `s` applied to it, is queried on its content,
/// and each answer is merged with `s`. Symbols and other grounded values
/// match their equals. Expressions match where they have the same number of
/// children and the children match in pairs, from left to right.
///
/// No variable in use has a freshness counter above `floor`: the variables
/// that a grounded space brings in get counters above it and above those of
/// `s`.
pub open spec fn spec_match_into(
    data: AtomView,
    shift: nat,
    pattern: AtomView,
    s: BindingsView,
    floor: nat,
) -> Seq<BindingsView>
    decreases height(data), 0nat, 0nat, 0nat, 0nat,
{
    match (data, pattern) {
        (_, AtomView::Variable(pv)) => inserted_seq(s, pv, rename(data, shift)),
        (AtomView::Variable(dv), _) => inserted_seq(
            s,
            VarView { name: dv.name, id: dv.id + shift },
            pattern,
        ),
        (AtomView::Grounded(GroundedView::Space(content)), _) => merge_each(
            s,
            spec_query(
                content,
                subst(pattern, s),
                CONJUNCTION_DEPTH as nat,
                larger(floor, bindings_max_id(s)),
            ),
        ),
        (AtomView::Symbol(a), AtomView::Symbol(b)) => if a == b {
            seq![s]
        } else {
            Seq::empty()
        },
        (AtomView::Grounded(a), AtomView::Grounded(b)) => if a == b {
            seq![s]
        } else {
            Seq::empty()
        },
        (AtomView::Expression(ds), AtomView::Expression(ps)) => if ds.len() == ps.len() {
            spec_match_seq(ds, shift, ps, seq![s], floor)
        } else {
            Seq::empty()
        },
        _ => Seq::empty(),
    }
}

/// The ways in which the pairs of two sequences of the same length match,
/// from left to right, starting from each of the bindings `acc`.
pub open spec fn spec_match_seq(
    ds: Seq<AtomView>,
    shift: nat,
    ps: Seq<AtomView>,
    acc: Seq<BindingsView>,
    floor: nat,
) -> Seq<BindingsView>
    decreases height_seq(ds), 2nat, ds.len(), 0nat, 0nat,
{
    if ds.len() == 0 || ps.len() == 0 {
        acc
    } else {
        spec_match_each(
            ds.last(),
            shift,
            ps.last(),
            spec_match_seq(ds.drop_last(), shift, ps.drop_last(), acc, floor),
            floor,
        )
    }
}

/// The ways in which `pattern` matches `data` starting from each of the
/// bindings `acc`, in their order.
pub open spec fn spec_match_each(
    data: AtomView,
    shift: nat,
    pattern: AtomView,
    acc: Seq<BindingsView>,
    floor: nat,
) -> Seq<BindingsView>
    decreases height(data), 1nat, acc.len(), 0nat, 0nat,
{
    if acc.len() == 0 {
        Seq::empty()
    } else {
        spec_match_each(data, shift, pattern, acc.drop_last(), floor) + spec_match_into(
            data,
            shift,
            pattern,
            acc.last(),
            floor,
        )
    }
}

/// The closed merges of `prev` with each of `res`, in order, without those
/// that are refused.
pub fn merge_all(prev: &Bindings, res: &Vec<Bindings>) -> (r: Vec<Bindings>)
    ensures
        bindings_views(r@) == merge_each(prev@, bindings_views(res@)),
{
    let ghost rv = bindings_views(res@);
    let mut r: Vec<Bindings> = Vec::new();
    let mut i: usize = 0;
    assert(bindings_views(r@) =~= merge_each(prev@, rv.take(0)));
    while i < res.len()
        invariant
            i <= res.len(),
            rv == bindings_views(res@),
            bindings_views(r@) == merge_each(prev@, rv.take(i as int)),
        decreases res.len() - i,
    {
        proof {
            assert(rv.take(i + 1).drop_last() =~= rv.take(i as int));
            assert(rv.take(i + 1).last() == res@[i as int]@);
        }
        let ghost r0 = r@;
        match merge_closed(prev, &res[i]) {
            Some(c) => {
                r.push(c);
                assert(bindings_views(r@) =~= bindings_views(r0).push(c@));
            },
            None => {},
        }
        i += 1;
    }
    assert(rv.take(res.len() as int) =~= rv);
    r
}

/// The ways in which `pattern` matches `data`, read with `shift` added to the
/// freshness counters of its variables, each as what it makes of the bindings
/// `start`. No variable in use has a freshness counter above `floor`.
pub fn match_into(data: &Atom, shift: u64, pattern: &Atom, start: &Bindings, floor: u64) -> (r: Vec<
    Bindings,
>)
    requires
        max_var_id(data@) + shift <= u64::MAX,
    ensures
        bindings_views(r@) == spec_match_into(data@, shift as nat, pattern@, start@, floor as nat),
    decreases height(data@), 0nat, 0nat, 0nat, 0nat,
{
    let mut r: Vec<Bindings> = Vec::new();
    match (data, pattern) {
        (_, Atom::Variable(pv)) => {
            let value = make_variables_unique(data, shift);
            let mut b = start.clone();
            if b.insert(pv.clone(), value).is_ok() {
                r.push(b);
            }
            assert(bindings_views(r@) =~= spec_match_into(
                data@,
                shift as nat,
                pattern@,
                start@,
                floor as nat,
            ));
        },
        (Atom::Variable(dv), _) => {
            let var = VariableAtom { name: dv.name.clone(), id: dv.id + shift };
            let mut b = start.clone();
            if b.insert(var, pattern.clone()).is_ok() {
                r.push(b);
            }
            assert(bindings_views(r@) =~= spec_match_into(
                data@,
                shift as nat,
                pattern@,
                start@,
                floor as nat,
            ));
        },
        (Atom::Grounded(GroundedAtom::Space(content)), _) => {
            let query = apply_bindings_to_atom(pattern, start);
            let bound = start.max_id();
            let inner = if floor >= bound {
                floor
            } else {
                bound
            };
            let found = query_bounded(content, &query, CONJUNCTION_DEPTH, inner);
            r = merge_all(start, &found);
        },
        (Atom::Symbol(a), Atom::Symbol(b)) => {
            if a.name == b.name {
                r.push(start.clone());
            }
            assert(bindings_views(r@) =~= spec_match_into(
                data@,
                shift as nat,
                pattern@,
                start@,
                floor as nat,
            ));
        },
        (Atom::Grounded(a), Atom::Grounded(b)) => {
            if grounded_eq(a, b) {
                r.push(start.clone());
            }
            assert(bindings_views(r@) =~= spec_match_into(
                data@,
                shift as nat,
                pattern@,
                start@,
                floor as nat,
            ));
        },
        (Atom::Expression(d), Atom::Expression(p)) => {
            if d.children.len() == p.children.len() {
                let mut acc: Vec<Bindings> = Vec::new();
                acc.push(start.clone());
                assert(bindings_views(acc@) =~= seq![start@]);
                r = match_children(&d.children, shift, &p.children, acc, floor);
            } else {
                assert(bindings_views(r@) =~= Seq::empty());
            }
        },
        _ => {
            assert(bindings_views(r@) =~= Seq::empty());
        },
    }
    r
}

/// The ways in which the pairs of two lists of the same length match, from
/// left to right, starting from each of the bindings `acc`.
pub fn match_children(
    ds: &Vec<Atom>,
    shift: u64,
    ps: &Vec<Atom>,
    acc: Vec<Bindings>,
    floor: u64,
) -> (r: Vec<Bindings>)
    requires
        ds.len() == ps.len(),
        max_var_id_seq(atoms_view(ds@)) + shift <= u64::MAX,
    ensures
        bindings_views(r@) == spec_match_seq(
            atoms_view(ds@),
            shift as nat,
            atoms_view(ps@),
            bindings_views(acc@),
            floor as nat,
        ),
    decreases height_seq(atoms_view(ds@)), 2nat, 0nat, 0nat, 0nat,
{
    let ghost dv = atoms_view(ds@);
    let ghost pv = atoms_view(ps@);
    let ghost start = bindings_views(acc@);
    let mut r = acc;
    let mut i: usize = 0;
    while i < ds.len()
        invariant
            i <= ds.len(),
            ds.len() == ps.len(),
            dv == atoms_view(ds@),
            pv == atoms_view(ps@),
            start == bindings_views(acc@),
            max_var_id_seq(dv) + shift <= u64::MAX,
            bindings_views(r@) == spec_match_seq(
                dv.take(i as int),
                shift as nat,
                pv.take(i as int),
                start,
                floor as nat,
            ),
        decreases ds.len() - i,
    {
        proof {
            lemma_height_seq_bound(dv, i as int);
            lemma_max_var_id_seq_bound(dv, i as int);
            assert(dv.take(i + 1).drop_last() =~= dv.take(i as int));
            assert(pv.take(i + 1).drop_last() =~= pv.take(i as int));
            assert(dv.take(i + 1).last() == dv[i as int]);
            assert(pv.take(i + 1).last() == pv[i as int]);
        }
        r = match_each(&ds[i], shift, &ps[i], &r, floor);
        i += 1;
    }
    proof {
        assert(dv.take(i as int) =~= dv);
        assert(pv.take(i as int) =~= pv);
    }
    r
}

/// The ways in which `pattern` matches `data` starting from each of the
/// bindings `acc`, in their order.
pub fn match_each(
    data: &Atom,
    shift: u64,
    pattern: &Atom,
    acc: &Vec<Bindings>,
    floor: u64,
) -> (r: Vec<Bindings>)
    requires
        max_var_id(data@) + shift <= u64::MAX,
    ensures
        bindings_views(r@) == spec_match_each(
            data@,
            shift as nat,
            pattern@,
            bindings_views(acc@),
            floor as nat,
        ),
    decreases height(data@), 1nat, 0nat, 0nat, 0nat,
{
    let ghost av = bindings_views(acc@);
    let mut r: Vec<Bindings> = Vec::new();
    let mut i: usize = 0;
    assert(bindings_views(r@) =~= spec_match_each(
        data@,
        shift as nat,
        pattern@,
        av.take(0),
        floor as nat,
    ));
    while i < acc.len()
        invariant
            i <= acc.len(),
            av == bindings_views(acc@),
            max_var_id(data@) + shift <= u64::MAX,
            bindings_views(r@) == spec_match_each(
                data@,
                shift as nat,
                pattern@,
                av.take(i as int),
                floor as nat,
            ),
        decreases acc.len() - i,
    {
        proof {
            assert(av.take(i + 1).drop_last() =~= av.take(i as int));
            assert(av.take(i + 1).last() == acc@[i as int]@);
        }
        let mut found = match_into(data, shift, pattern, &acc[i], floor);
        let ghost r0 = r@;
        let ghost f0 = found@;
        r.append(&mut found);
        assert(bindings_views(r@) =~= bindings_views(r0) + bindings_views(f0));
        i += 1;
    }
    assert(av.take(acc.len() as int) =~= av);
    r
}

/// How deep conjunctions may be nested in a query. A conjunction below that
/// depth is matched against the content as an ordinary expression.
pub const CONJUNCTION_DEPTH: usize = 64;

/// The greater of two numbers.
pub open spec fn larger(a: nat, b: nat) -> nat {
    if a >= b {
        a
    } else {
        b
    }
}

/// What is added to the freshness counters of a stored atom to move its
/// variables above those of the query `q` and above `floor`.
pub open spec fn fresh_shift(q: AtomView, floor: nat) -> nat {
    larger(floor, max_var_id(q)) + 1
}

/// Whether the variables of a stored atom can be moved above those of the
/// query and above `floor`: the freshness counters they get fit 64 bits.
pub open spec fn fits(data: AtomView, pattern: AtomView, floor: nat) -> bool {
    max_var_id(data) + fresh_shift(pattern, floor) <= u64::MAX
}

/// Whether the query is a conjunction: an expression headed by the symbol `,`.
pub open spec fn is_conjunction(q: AtomView) -> bool {
    match q {
        AtomView::Expression(c) => c.len() > 0 && c[0] == AtomView::Symbol(","@),
        _ => false,
    }
}

/// Each of the bindings cut down to the variables of `q`.
pub open spec fn restrict_each(rs: Seq<BindingsView>, q: AtomView) -> Seq<BindingsView> {
    Seq::new(rs.len(), |i: int| restrict(rs[i], q))
}

/// The merge of `a` and `b` with the result applied to itself; `None` where
/// the merge or the application is refused.
pub open spec fn closed_merge(a: BindingsView, b: BindingsView) -> Option<BindingsView> {
    match insert_all(a, b) {
        None => None,
        Some(m) => match spec_apply_to_bindings(m, m) {
            Ok(c) => Some(c),
            Err(_) => None,
        },
    }
}

/// The closed merges of `prev` with each of `res`, in order, without those
/// that are refused.
pub open spec fn merge_each(prev: BindingsView, res: Seq<BindingsView>) -> Seq<BindingsView>
    decreases res.len(),
{
    if res.len() == 0 {
        Seq::empty()
    } else {
        let rest = merge_each(prev, res.drop_last());
        match closed_merge(prev, res.last()) {
            Some(m) => rest.push(m),
            None => rest,
        }
    }
}

/// The bindings under which `pattern` matches `data`, read with `shift` added
/// to the freshness counters of its variables: what each way of matching
/// binds, starting from nothing, cut down to the variables of the pattern. No
/// variable in use has a freshness counter above `floor`.
pub open spec fn spec_match_atoms(data: AtomView, shift: nat, pattern: AtomView, floor: nat) -> Seq<
    BindingsView,
>
    decreases height(data), 3nat, 0nat, 0nat, 0nat,
{
    restrict_each(spec_match_into(data, shift, pattern, Seq::empty(), floor), pattern)
}

/// The results of a query without conjunction: for each atom of the content,
/// in order, the bindings under which `q` matches it, its variables moved
/// above those of `q` and above `floor`. An atom whose variables cannot be
/// moved so is passed over.
pub open spec fn spec_single_query(content: Seq<AtomView>, q: AtomView, floor: nat) -> Seq<
    BindingsView,
>
    decreases height_seq(content), 4nat, 0nat, 0nat, content.len(),
{
    if content.len() == 0 {
        Seq::empty()
    } else {
        let rest = spec_single_query(content.drop_last(), q, floor);
        let c = content.last();
        if fits(c, q, floor) {
            rest + spec_match_atoms(
                c,
                fresh_shift(q, floor),
                q,
                fresh_shift(q, floor) + max_var_id(c),
            )
        } else {
            rest
        }
    }
}

/// The results of a query on the content, with conjunctions followed `fuel`
/// levels deep.
///
/// A conjunction `(, q1 .. qn)` starts from the one empty bindings and takes
/// the sub-queries from left to right; its results are cut down to the
/// variables of the whole query. Any other query is a single query. The
/// variables that the results take from the content get freshness counters
/// above `floor` and above those of the query.
pub open spec fn spec_query(content: Seq<AtomView>, q: AtomView, fuel: nat, floor: nat) -> Seq<
    BindingsView,
>
    decreases height_seq(content), 5nat, fuel, 0nat, 0nat,
{
    if fuel > 0 && is_conjunction(q) {
        restrict_each(
            spec_conj(
                content,
                q->Expression_0.skip(1),
                (fuel - 1) as nat,
                larger(floor, max_var_id(q)),
            ),
            q,
        )
    } else {
        spec_single_query(content, q, floor)
    }
}

/// The results of the sub-queries `args`, taken from left to right.
pub open spec fn spec_conj(content: Seq<AtomView>, args: Seq<AtomView>, fuel: nat, floor: nat)
    -> Seq<BindingsView>
    decreases height_seq(content), 5nat, fuel, 3nat, args.len(),
{
    if args.len() == 0 {
        seq![Seq::empty()]
    } else {
        spec_extend_all(
            content,
            spec_conj(content, args.drop_last(), fuel, floor),
            args.last(),
            fuel,
            floor,
        )
    }
}

/// What the sub-query `arg` makes of each of the bindings `acc`, in order.
pub open spec fn spec_extend_all(
    content: Seq<AtomView>,
    acc: Seq<BindingsView>,
    arg: AtomView,
    fuel: nat,
    floor: nat,
) -> Seq<BindingsView>
    decreases height_seq(content), 5nat, fuel, 2nat, acc.len(),
{
    if acc.len() == 0 {
        Seq::empty()
    } else {
        spec_extend_all(content, acc.drop_last(), arg, fuel, floor) + spec_extend_one(
            content,
            acc.last(),
            arg,
            fuel,
            floor,
        )
    }
}

/// What the sub-query `arg` makes of the bindings `prev`: `prev` is applied to
/// `arg`, the result is queried, and each answer is merged with `prev`. The
/// variables that the answers take from the content get freshness counters
/// above those of `prev` too.
pub open spec fn spec_extend_one(
    content: Seq<AtomView>,
    prev: BindingsView,
    arg: AtomView,
    fuel: nat,
    floor: nat,
) -> Seq<BindingsView>
    decreases height_seq(content), 5nat, fuel, 1nat, 0nat,
{
    merge_each(
        prev,
        spec_query(content, subst(arg, prev), fuel, larger(floor, bindings_max_id(prev))),
    )
}

/// The bindings under which `pattern` matches `data`. The two share their
/// variables: a variable of the one is the variable of the same name and
/// freshness counter of the other.
pub fn match_atoms(data: &Atom, pattern: &Atom) -> (r: Vec<Bindings>)
    ensures
        bindings_views(r@) == spec_match_atoms(
            data@,
            0,
            pattern@,
            larger(max_var_id(data@), max_var_id(pattern@)),
        ),
{
    proof {
        crate::atom::lemma_max_var_id_fits(*data);
    }
    let d = crate::atom::max_id(data);
    let p = crate::atom::max_id(pattern);
    let floor = if d >= p {
        d
    } else {
        p
    };
    match_shifted(data, 0, pattern, floor)
}

/// The bindings under which `pattern` matches `data`, read with `shift` added
/// to the freshness counters of its variables. No variable in use has a
/// freshness counter above `floor`.
pub fn match_shifted(data: &Atom, shift: u64, pattern: &Atom, floor: u64) -> (r: Vec<Bindings>)
    requires
        max_var_id(data@) + shift <= u64::MAX,
    ensures
        bindings_views(r@) == spec_match_atoms(data@, shift as nat, pattern@, floor as nat),
    decreases height(data@), 3nat, 0nat, 0nat, 0nat,
{
    let start = Bindings::new();
    let found = match_into(data, shift, pattern, &start, floor);
    let mut r: Vec<Bindings> = Vec::new();
    let mut i: usize = 0;
    while i < found.len()
        invariant
            i <= found.len(),
            r.len() == i,
            forall|k: int| 0 <= k < i ==> (#[trigger] r@[k])@ == restrict(found@[k]@, pattern@),
        decreases found.len() - i,
    {
        r.push(found[i].restrict_to(pattern));
        i += 1;
    }
    assert(bindings_views(r@) =~= restrict_each(bindings_views(found@), pattern@));
    r
}

/// The results of a query without conjunction on the content. The
/// variables that the results take from the content get freshness counters
/// above `floor` and above those of the query.
pub fn single_query(content: &Vec<Atom>, query: &Atom, floor: u64) -> (r: Vec<Bindings>)
    ensures
        bindings_views(r@) == spec_single_query(atoms_view(content@), query@, floor as nat),
    decreases height_seq(atoms_view(content@)), 4nat, 0nat, 0nat, 0nat,
{
    let ghost cv = atoms_view(content@);
    let q = crate::atom::max_id(query);
    let top = if floor >= q {
        floor
    } else {
        q
    };
    let mut r: Vec<Bindings> = Vec::new();
    let mut i: usize = 0;
    assert(bindings_views(r@) =~= spec_single_query(cv.take(0), query@, floor as nat));
    while i < content.len()
        invariant
            i <= content.len(),
            cv == atoms_view(content@),
            top == larger(floor as nat, max_var_id(query@)),
            bindings_views(r@) == spec_single_query(cv.take(i as int), query@, floor as nat),
        decreases content.len() - i,
    {
        proof {
            lemma_height_seq_bound(cv, i as int);
            assert(cv.take(i + 1).drop_last() =~= cv.take(i as int));
            assert(cv.take(i + 1).last() == cv[i as int]);
        }
        let m = crate::atom::max_id(&content[i]);
        if top < u64::MAX && m <= u64::MAX - top - 1 {
            let mut found = match_shifted(&content[i], top + 1, query, top + 1 + m);
            let ghost r0 = r@;
            let ghost f0 = found@;
            r.append(&mut found);
            assert(bindings_views(r@) =~= bindings_views(r0) + bindings_views(f0));
        }
        i += 1;
    }
    assert(cv.take(content.len() as int) =~= cv);
    r
}

/// Whether the query is an expression headed by the symbol `,`.
pub fn is_conjunction_query(query: &Atom) -> (r: bool)
    ensures
        r == is_conjunction(query@),
{
    match query {
        Atom::Expression(e) => {
            if e.children.len() == 0 {
                false
            } else {
                let comma = Atom::sym(",");
                atom_eq(&e.children[0], &comma)
            }
        },
        _ => false,
    }
}

/// The results of a query on the content, with conjunctions followed `fuel`
/// levels deep. The variables that the results take from the content get
/// freshness counters above `floor` and above those of the query.
pub fn query_bounded(content: &Vec<Atom>, query: &Atom, fuel: usize, floor: u64) -> (r: Vec<
    Bindings,
>)
    ensures
        bindings_views(r@) == spec_query(atoms_view(content@), query@, fuel as nat, floor as nat),
    decreases height_seq(atoms_view(content@)), 5nat, fuel, 0nat, 0nat,
{
    if fuel > 0 && is_conjunction_query(query) {
        match query {
            Atom::Expression(e) => {
                let ghost cv = atoms_view(content@);
                let ghost args = atoms_view(e.children@).skip(1);
                let q = crate::atom::max_id(query);
                let top = if floor >= q {
                    floor
                } else {
                    q
                };
                let mut acc: Vec<Bindings> = Vec::new();
                acc.push(Bindings::new());
                assert(bindings_views(acc@) =~= spec_conj(
                    cv,
                    args.take(0),
                    (fuel - 1) as nat,
                    top as nat,
                ));
                let mut i: usize = 1;
                while i < e.children.len()
                    invariant
                        1 <= i <= e.children.len(),
                        fuel > 0,
                        cv == atoms_view(content@),
                        args == atoms_view(e.children@).skip(1),
                        bindings_views(acc@) == spec_conj(
                            cv,
                            args.take(i - 1),
                            (fuel - 1) as nat,
                            top as nat,
                        ),
                    decreases e.children.len() - i,
                {
                    proof {
                        assert(args.take(i as int).drop_last() =~= args.take(i - 1));
                        assert(args.take(i as int).last() == e.children@[i as int]@);
                    }
                    acc = extend_all(content, &acc, &e.children[i], fuel - 1, top);
                    i += 1;
                }
                assert(args.take(e.children.len() - 1) =~= args);
                let mut r: Vec<Bindings> = Vec::new();
                let mut j: usize = 0;
                while j < acc.len()
                    invariant
                        j <= acc.len(),
                        r.len() == j,
                        forall|k: int|
                            0 <= k < j ==> (#[trigger] r@[k])@ == restrict(acc@[k]@, query@),
                    decreases acc.len() - j,
                {
                    r.push(acc[j].restrict_to(query));
                    j += 1;
                }
                assert(bindings_views(r@) =~= restrict_each(bindings_views(acc@), query@));
                r
            },
            _ => Vec::new(),
        }
    } else {
        single_query(content, query, floor)
    }
}

/// What the sub-query `arg` makes of each of the bindings `acc`, in order.
pub fn extend_all(
    content: &Vec<Atom>,
    acc: &Vec<Bindings>,
    arg: &Atom,
    fuel: usize,
    floor: u64,
) -> (r: Vec<Bindings>)
    ensures
        bindings_views(r@) == spec_extend_all(
            atoms_view(content@),
            bindings_views(acc@),
            arg@,
            fuel as nat,
            floor as nat,
        ),
    decreases height_seq(atoms_view(content@)), 5nat, fuel, 2nat, 0nat,
{
    let ghost cv = atoms_view(content@);
    let ghost av = bindings_views(acc@);
    let mut r: Vec<Bindings> = Vec::new();
    let mut i: usize = 0;
    assert(bindings_views(r@) =~= spec_extend_all(cv, av.take(0), arg@, fuel as nat, floor as nat));
    while i < acc.len()
        invariant
            i <= acc.len(),
            cv == atoms_view(content@),
            av == bindings_views(acc@),
            bindings_views(r@) == spec_extend_all(
                cv,
                av.take(i as int),
                arg@,
                fuel as nat,
                floor as nat,
            ),
        decreases acc.len() - i,
    {
        proof {
            assert(av.take(i + 1).drop_last() =~= av.take(i as int));
            assert(av.take(i + 1).last() == acc@[i as int]@);
        }
        let mut found = extend_one(content, &acc[i], arg, fuel, floor);
        let ghost r0 = r@;
        let ghost f0 = found@;
        r.append(&mut found);
        assert(bindings_views(r@) =~= bindings_views(r0) + bindings_views(f0));
        i += 1;
    }
    assert(av.take(acc.len() as int) =~= av);
    r
}

/// The merge of `a` and `b` with the result applied to itself; `None` where
/// the merge or the application is refused.
pub fn merge_closed(a: &Bindings, b: &Bindings) -> (r: Option<Bindings>)
    ensures
        match r {
            Some(m) => closed_merge(a@, b@) == Some(m@),
            None => closed_merge(a@, b@) is None,
        },
{
    match Bindings::merge(a, b) {
        Some(m) => match apply_bindings_to_bindings(&m, &m) {
            Ok(c) => Some(c),
            Err(_) => None,
        },
        None => None,
    }
}

/// What the sub-query `arg` makes of the bindings `prev`.
pub fn extend_one(
    content: &Vec<Atom>,
    prev: &Bindings,
    arg: &Atom,
    fuel: usize,
    floor: u64,
) -> (r: Vec<Bindings>)
    ensures
        bindings_views(r@) == spec_extend_one(
            atoms_view(content@),
            prev@,
            arg@,
            fuel as nat,
            floor as nat,
        ),
    decreases height_seq(atoms_view(content@)), 5nat, fuel, 1nat, 0nat,
{
    let query = apply_bindings_to_atom(arg, prev);
    let bound = prev.max_id();
    let inner = if floor >= bound {
        floor
    } else {
        bound
    };
    let res = query_bounded(content, &query, fuel, inner);
    merge_all(prev, &res)
}

/// Pairs of atoms whose unification is left to the caller: one of the two is
/// a grounded value that matches in a way of its own.
pub type Unifications = Vec<(Atom, Atom)>;

/// Mathematical model of the outcome of a unification.
pub ghost struct UnifyView {
    pub data_bindings: BindingsView,
    pub pattern_bindings: BindingsView,
    pub unifications: Seq<(AtomView, AtomView)>,
}

/// The outcome of a unification: what the variables of the data are bound to,
/// what the variables of the pattern are bound to, and the pairs left over.
#[derive(Debug)]
pub struct UnifyResult {
    pub data_bindings: Bindings,
    pub pattern_bindings: Bindings,
    pub unifications: Unifications,
}

/// The models of a list of pairs of atoms.
pub open spec fn pairs_view(v: Seq<(Atom, Atom)>) -> Seq<(AtomView, AtomView)> {
    Seq::new(v.len(), |i: int| (v[i].0@, v[i].1@))
}

impl View for UnifyResult {
    type V = UnifyView;

    open spec fn view(&self) -> UnifyView {
        UnifyView {
            data_bindings: self.data_bindings@,
            pattern_bindings: self.pattern_bindings@,
            unifications: pairs_view(self.unifications@),
        }
    }
}

/// Whether the atom is a grounded value that matches in a way of its own.
pub open spec fn has_custom_match(a: AtomView) -> bool {
    a matches AtomView::Grounded(GroundedView::Space(_))
}

/// What unifying `data` and `pattern` makes of the outcome `u`; `None` where
/// they do not unify.
///
/// A variable of the pattern is bound, among the pattern's bindings, to the
/// data it meets; a variable of the data is bound, among the data's bindings,
/// to the pattern it meets; where two variables meet, the pattern's is the
/// one bound. A pair with a grounded value that matches in a way of its own is
/// left over. Symbols and other grounded values unify with their equals,
/// expressions where their children unify in pairs.
pub open spec fn spec_unify_into(data: AtomView, pattern: AtomView, u: UnifyView) -> Option<
    UnifyView,
>
    decreases height(data), 0nat, 0nat,
{
    match (data, pattern) {
        (_, AtomView::Variable(pv)) => match inserted(u.pattern_bindings, pv, data) {
            Some(b) => Some(UnifyView { pattern_bindings: b, ..u }),
            None => None,
        },
        (AtomView::Variable(dv), _) => match inserted(u.data_bindings, dv, pattern) {
            Some(b) => Some(UnifyView { data_bindings: b, ..u }),
            None => None,
        },
        _ => if has_custom_match(data) || has_custom_match(pattern) {
            Some(UnifyView { unifications: u.unifications.push((data, pattern)), ..u })
        } else {
            match (data, pattern) {
                (AtomView::Symbol(a), AtomView::Symbol(b)) => if a == b {
                    Some(u)
                } else {
                    None
                },
                (AtomView::Grounded(a), AtomView::Grounded(b)) => if a == b {
                    Some(u)
                } else {
                    None
                },
                (AtomView::Expression(ds), AtomView::Expression(ps)) => if ds.len() == ps.len() {
                    spec_unify_seq(ds, ps, u)
                } else {
                    None
                },
                _ => None,
            }
        },
    }
}

/// `spec_unify_into` on the pairs of two sequences of the same length, from
/// left to right.
pub open spec fn spec_unify_seq(ds: Seq<AtomView>, ps: Seq<AtomView>, u: UnifyView) -> Option<
    UnifyView,
>
    decreases height_seq(ds), 1nat, ds.len(),
{
    if ds.len() == 0 || ps.len() == 0 {
        Some(u)
    } else {
        match spec_unify_seq(ds.drop_last(), ps.drop_last(), u) {
            None => None,
            Some(u1) => spec_unify_into(ds.last(), ps.last(), u1),
        }
    }
}

/// The outcome of unifying `data` and `pattern`, starting from nothing.
pub open spec fn spec_unify_atoms(data: AtomView, pattern: AtomView) -> Option<UnifyView> {
    spec_unify_into(
        data,
        pattern,
        UnifyView {
            data_bindings: Seq::empty(),
            pattern_bindings: Seq::empty(),
            unifications: Seq::empty(),
        },
    )
}

/// Once a prefix of the pairs fails to unify, the whole does.
pub proof fn lemma_unify_seq_prefix_none(
    ds: Seq<AtomView>,
    ps: Seq<AtomView>,
    u: UnifyView,
    n: int,
)
    requires
        ds.len() == ps.len(),
        0 <= n <= ds.len(),
        spec_unify_seq(ds.take(n), ps.take(n), u) is None,
    ensures
        spec_unify_seq(ds, ps, u) is None,
    decreases ds.len() - n,
{
    if n < ds.len() {
        assert(ds.take(n + 1).drop_last() =~= ds.take(n));
        assert(ps.take(n + 1).drop_last() =~= ps.take(n));
        lemma_unify_seq_prefix_none(ds, ps, u, n + 1);
    } else {
        assert(ds.take(n) =~= ds);
        assert(ps.take(n) =~= ps);
    }
}

/// Whether the atom is a grounded value that matches in a way of its own.
pub fn atom_has_custom_match(atom: &Atom) -> (r: bool)
    ensures
        r == has_custom_match(atom@),
{
    match atom {
        Atom::Grounded(g) => g.has_custom_match(),
        _ => false,
    }
}

/// Unifies `data` and `pattern` and adds what that binds, and what it leaves
/// over, to `result`. Returns whether they unify; where they do not, `result`
/// holds what was bound before the mismatch was met.
fn unify_into(data: &Atom, pattern: &Atom, result: &mut UnifyResult) -> (ok: bool)
    ensures
        match spec_unify_into(data@, pattern@, old(result)@) {
            Some(u) => ok && final(result)@ == u,
            None => !ok,
        },
    decreases height(data@), 0nat, 0nat,
{
    match (data, pattern) {
        (_, Atom::Variable(pv)) => result.pattern_bindings.insert(pv.clone(), data.clone()).is_ok(),
        (Atom::Variable(dv), _) => result.data_bindings.insert(dv.clone(), pattern.clone()).is_ok(),
        _ => {
            if atom_has_custom_match(data) || atom_has_custom_match(pattern) {
                let ghost before = result.unifications@;
                result.unifications.push((data.clone(), pattern.clone()));
                assert(pairs_view(result.unifications@) =~= pairs_view(before).push(
                    (data@, pattern@),
                ));
                return true;
            }
            match (data, pattern) {
                (Atom::Symbol(a), Atom::Symbol(b)) => a.name == b.name,
                (Atom::Grounded(a), Atom::Grounded(b)) => grounded_eq(a, b),
                (Atom::Expression(d), Atom::Expression(p)) => {
                    if d.children.len() != p.children.len() {
                        return false;
                    }
                    unify_children(&d.children, &p.children, result)
                },
                _ => false,
            }
        },
    }
}

/// `unify_into` on the pairs of two lists of the same length, from left to
/// right, until one pair does not unify.
fn unify_children(ds: &Vec<Atom>, ps: &Vec<Atom>, result: &mut UnifyResult) -> (ok: bool)
    requires
        ds.len() == ps.len(),
    ensures
        match spec_unify_seq(atoms_view(ds@), atoms_view(ps@), old(result)@) {
            Some(u) => ok && final(result)@ == u,
            None => !ok,
        },
    decreases height_seq(atoms_view(ds@)), 1nat, 0nat,
{
    let ghost dv = atoms_view(ds@);
    let ghost pv = atoms_view(ps@);
    let ghost start = result@;
    let mut i: usize = 0;
    while i < ds.len()
        invariant
            i <= ds.len(),
            ds.len() == ps.len(),
            dv == atoms_view(ds@),
            pv == atoms_view(ps@),
            start == old(result)@,
            spec_unify_seq(dv.take(i as int), pv.take(i as int), start) == Some(result@),
        decreases ds.len() - i,
    {
        proof {
            lemma_height_seq_bound(dv, i as int);
            assert(dv.take(i + 1).drop_last() =~= dv.take(i as int));
            assert(pv.take(i + 1).drop_last() =~= pv.take(i as int));
            assert(dv.take(i + 1).last() == dv[i as int]);
            assert(pv.take(i + 1).last() == pv[i as int]);
        }
        let ghost before = result@;
        if !unify_into(&ds[i], &ps[i], result) {
            proof {
                assert(spec_unify_into(dv[i as int], pv[i as int], before) is None);
                assert(spec_unify_seq(dv.take(i + 1), pv.take(i + 1), start) is None);
                lemma_unify_seq_prefix_none(dv, pv, start, i + 1);
            }
            return false;
        }
        i += 1;
    }
    proof {
        assert(dv.take(i as int) =~= dv);
        assert(pv.take(i as int) =~= pv);
    }
    true
}

/// Unifies `data` and `pattern`: variables on either side may be bound.
pub fn unify_atoms(data: &Atom, pattern: &Atom) -> (r: Option<UnifyResult>)
    ensures
        match r {
            Some(u) => spec_unify_atoms(data@, pattern@) == Some(u@),
            None => spec_unify_atoms(data@, pattern@) is None,
        },
{
    let mut result = UnifyResult {
        data_bindings: Bindings::new(),
        pattern_bindings: Bindings::new(),
        unifications: Vec::new(),
    };
    assert(pairs_view(result.unifications@) =~= Seq::empty());
    if unify_into(data, pattern, &mut result) {
        Some(result)
    } else {
        None
    }
}

/// The atom holds no variable.
pub open spec fn is_ground(a: AtomView) -> bool {
    forall|v: VarView| !vars_of(a).contains(v)
}

/// The atom holds no grounded space, at any depth.
pub open spec fn is_plain(a: AtomView) -> bool
    decreases a,
{
    match a {
        AtomView::Grounded(GroundedView::Space(_)) => false,
        AtomView::Expression(c) => forall|k: int| 0 <= k < c.len() ==> is_plain(#[trigger] c[k]),
        _ => true,
    }
}

/// The children of an expression without grounded spaces hold none.
pub proof fn lemma_plain_children(c: Seq<AtomView>, k: int)
    requires
        is_plain(AtomView::Expression(c)),
        0 <= k < c.len(),
    ensures
        is_plain(c[k]),
{
    let a = AtomView::Expression(c);
    assert(a->Expression_0 == c);
    assert(is_plain(a));
}

/// The children of an expression without variables hold none.
pub proof fn lemma_children_ground(c: Seq<AtomView>, k: int)
    requires
        is_ground(AtomView::Expression(c)),
        0 <= k < c.len(),
    ensures
        is_ground(c[k]),
{
    assert forall|v: VarView| !vars_of(c[k]).contains(v) by {
        if vars_of(c[k]).contains(v) {
            lemma_vars_of_seq(c, v);
            assert(vars_of(AtomView::Expression(c)).contains(v));
        }
    }
}

/// Renaming leaves an atom without variables as it is.
pub proof fn lemma_rename_ground(a: AtomView, shift: nat)
    requires
        is_ground(a),
    ensures
        rename(a, shift) == a,
    decreases a,
{
    match a {
        AtomView::Variable(v) => {
            assert(vars_of(a).contains(v));
        },
        AtomView::Expression(c) => {
            assert forall|k: int| 0 <= k < c.len() implies rename(#[trigger] c[k], shift)
                == c[k] by {
                lemma_children_ground(c, k);
                lemma_rename_ground(c[k], shift);
            }
            assert(rename_seq(c, shift) =~= c);
        },
        _ => {},
    }
}

/// What holds of bindings `b` that a match of `pattern` with `data` made of
/// the solved bindings `s`: they are solved, go on from `s`, and make the
/// pattern and the data equal.
pub open spec fn sound_step(s: BindingsView, b: BindingsView, data: AtomView, pattern: AtomView)
    -> bool {
    &&& keys_distinct(b)
    &&& is_solved(b)
    &&& refines(s, b)
    &&& subst(data, b) == subst(pattern, b)
}

/// Each way of matching from several bindings is a way of matching from one
/// of them.
pub proof fn lemma_match_each_source(
    data: AtomView,
    shift: nat,
    pattern: AtomView,
    acc: Seq<BindingsView>,
    k: int,
    floor: nat,
)
    requires
        0 <= k < spec_match_each(data, shift, pattern, acc, floor).len(),
    ensures
        exists|m: int, i: int|
            0 <= m < acc.len() && 0 <= i < spec_match_into(
                data,
                shift,
                pattern,
                acc[m],
                floor,
            ).len() && spec_match_each(data, shift, pattern, acc, floor)[k]
                == #[trigger] spec_match_into(data, shift, pattern, acc[m], floor)[i],
    decreases acc.len(),
{
    let rest = spec_match_each(data, shift, pattern, acc.drop_last(), floor);
    let last = spec_match_into(data, shift, pattern, acc.last(), floor);
    if k < rest.len() {
        lemma_match_each_source(data, shift, pattern, acc.drop_last(), k, floor);
        let (m, i) = choose|m: int, i: int|
            0 <= m < acc.drop_last().len() && 0 <= i < spec_match_into(
                data,
                shift,
                pattern,
                acc.drop_last()[m],
                floor,
            ).len() && rest[k] == #[trigger] spec_match_into(
                data,
                shift,
                pattern,
                acc.drop_last()[m],
                floor,
            )[i];
        assert(acc.drop_last()[m] == acc[m]);
        assert((rest + last)[k] == spec_match_into(data, shift, pattern, acc[m], floor)[i]);
    } else {
        let m = acc.len() - 1;
        let i = k - rest.len();
        assert((rest + last)[k] == spec_match_into(data, shift, pattern, acc[m], floor)[i]);
    }
}

/// Matching is sound where the data holds no grounded space: each way of
/// matching gives solved bindings that go on from those it started with and
/// make the pattern equal to the data, its variables moved by `shift`.
pub proof fn lemma_match_into_sound(
    data: AtomView,
    shift: nat,
    pattern: AtomView,
    s: BindingsView,
    k: int,
    floor: nat,
)
    requires
        is_plain(data),
        keys_distinct(s),
        is_solved(s),
        0 <= k < spec_match_into(data, shift, pattern, s, floor).len(),
    ensures
        sound_step(
            s,
            spec_match_into(data, shift, pattern, s, floor)[k],
            rename(data, shift),
            pattern,
        ),
    decreases height(data), 0nat, 0nat,
{
    let r = spec_match_into(data, shift, pattern, s, floor);
    let b = r[k];
    match (data, pattern) {
        (_, AtomView::Variable(pv)) => {
            lemma_insert_sound(s, pv, rename(data, shift));
        },
        (AtomView::Variable(dv), _) => {
            lemma_insert_sound(s, VarView { name: dv.name, id: dv.id + shift }, pattern);
        },
        (AtomView::Symbol(x), AtomView::Symbol(y)) => {
            lemma_refines_self(s);
        },
        (AtomView::Grounded(x), AtomView::Grounded(y)) => {
            lemma_refines_self(s);
        },
        (AtomView::Expression(ds), AtomView::Expression(ps)) => {
            let acc = seq![s];
            lemma_match_seq_sound(ds, shift, ps, acc, k, floor);
            let j = choose|j: int| 0 <= j < acc.len() && refines(#[trigger] acc[j], b);
            assert(acc[j] == s);
            assert forall|i: int| 0 <= i < ds.len() implies subst(
                #[trigger] rename_seq(ds, shift)[i],
                b,
            ) == subst(ps[i], b) by {
                assert(rename_seq(ds, shift)[i] == rename(ds[i], shift));
            }
            assert(subst_seq(rename_seq(ds, shift), b) =~= subst_seq(ps, b));
        },
        _ => {},
    }
}

/// `lemma_match_into_sound` for the pairs of two sequences, starting from
/// several solved bindings.
pub proof fn lemma_match_seq_sound(
    ds: Seq<AtomView>,
    shift: nat,
    ps: Seq<AtomView>,
    acc: Seq<BindingsView>,
    k: int,
    floor: nat,
)
    requires
        is_plain(AtomView::Expression(ds)),
        ds.len() == ps.len(),
        forall|j: int|
            0 <= j < acc.len() ==> keys_distinct(#[trigger] acc[j]) && is_solved(acc[j]),
        0 <= k < spec_match_seq(ds, shift, ps, acc, floor).len(),
    ensures
        keys_distinct(spec_match_seq(ds, shift, ps, acc, floor)[k]),
        is_solved(spec_match_seq(ds, shift, ps, acc, floor)[k]),
        exists|j: int|
            0 <= j < acc.len() && refines(
                #[trigger] acc[j],
                spec_match_seq(ds, shift, ps, acc, floor)[k],
            ),
        forall|i: int|
            0 <= i < ds.len() ==> subst(
                rename(#[trigger] ds[i], shift),
                spec_match_seq(ds, shift, ps, acc, floor)[k],
            ) == subst(ps[i], spec_match_seq(ds, shift, ps, acc, floor)[k]),
    decreases height_seq(ds), 2nat, ds.len(),
{
    let r = spec_match_seq(ds, shift, ps, acc, floor);
    let b = r[k];
    if ds.len() == 0 {
        lemma_refines_self(acc[k]);
        assert(refines(acc[k], b));
    } else {
        let n = ds.len() as int;
        let dr = ds.drop_last();
        let pr = ps.drop_last();
        let d = ds.last();
        let p = ps.last();
        assert(is_plain(AtomView::Expression(dr))) by {
            assert forall|i: int| 0 <= i < dr.len() implies is_plain(#[trigger] dr[i]) by {
                lemma_plain_children(ds, i);
            }
        }
        let mid = spec_match_seq(dr, shift, pr, acc, floor);
        assert(r == spec_match_each(d, shift, p, mid, floor));
        lemma_match_each_source(d, shift, p, mid, k, floor);
        let (m, i) = choose|m: int, i: int|
            0 <= m < mid.len() && 0 <= i < spec_match_into(d, shift, p, mid[m], floor).len() && r[k]
                == #[trigger] spec_match_into(d, shift, p, mid[m], floor)[i];
        lemma_match_seq_sound(dr, shift, pr, acc, m, floor);
        let s1 = mid[m];
        let j = choose|j: int| 0 <= j < acc.len() && refines(#[trigger] acc[j], s1);
        lemma_plain_children(ds, n - 1);
        lemma_height_seq_bound(ds, n - 1);
        lemma_match_into_sound(d, shift, p, s1, i, floor);
        lemma_refines_trans(acc[j], s1, b);
        assert(refines(acc[j], b));
        assert forall|q: int| 0 <= q < ds.len() implies subst(rename(#[trigger] ds[q], shift), b)
            == subst(ps[q], b) by {
            if q < n - 1 {
                assert(dr[q] == ds[q]);
                assert(pr[q] == ps[q]);
                lemma_refines_keeps_equal(s1, b, rename(ds[q], shift), ps[q]);
            }
        }
    }
}

/// Entries cut down to the variables of `q` bind those variables as before.
pub proof fn lemma_restrict_lookup(s: BindingsView, q: AtomView, v: VarView)
    requires
        keys_distinct(s),
        vars_of(q).contains(v),
    ensures
        lookup(restrict(s, q), v) == lookup(s, v),
{
    let pred = |e: (VarView, AtomView)| vars_of(q).contains(e.0);
    let f = s.filter(pred);
    lemma_filter_keys_distinct(s, pred);
    if has_key(s, v) {
        let i = key_index(s, v);
        s.lemma_filter_contains(pred, i);
        let j = choose|j: int| 0 <= j < f.len() && f[j] == s[i];
        lemma_lookup_at(f, j);
        lemma_lookup_at(s, i);
    } else {
        if has_key(f, v) {
            let j = key_index(f, v);
            assert(f.contains(f[j]));
            s.lemma_filter_contains_rev(pred, f[j]);
            let i = choose|i: int| 0 <= i < s.len() && s[i] == f[j];
            assert(s[i].0 == v);
        }
    }
}

/// Entries cut down to the variables of `q` give the same for an atom whose
/// variables are among those of `q`.
pub proof fn lemma_restrict_subst(p: AtomView, s: BindingsView, q: AtomView)
    requires
        keys_distinct(s),
        forall|v: VarView| vars_of(p).contains(v) ==> vars_of(q).contains(v),
    ensures
        subst(p, restrict(s, q)) == subst(p, s),
    decreases p,
{
    match p {
        AtomView::Variable(w) => {
            assert(vars_of(p).contains(w));
            lemma_restrict_lookup(s, q, w);
        },
        AtomView::Expression(c) => {
            assert forall|k: int| 0 <= k < c.len() implies subst(#[trigger] c[k], restrict(s, q))
                == subst(c[k], s) by {
                assert forall|v: VarView| vars_of(c[k]).contains(v) implies vars_of(q).contains(
                    v,
                ) by {
                    lemma_vars_of_seq(c, v);
                    assert(vars_of(p).contains(v));
                }
                lemma_restrict_subst(c[k], s, q);
            }
            assert(subst_seq(c, restrict(s, q)) =~= subst_seq(c, s));
        },
        _ => {},
    }
}

/// A match is sound: the pattern with the bindings of a match applied to it
/// is the data, its variables moved by `shift`, with solved bindings applied
/// to it. Where the data holds no variable, that is the data itself. The data
/// holds no grounded space, which would answer by a query of its own.
pub proof fn lemma_match_sound(
    data: AtomView,
    shift: nat,
    pattern: AtomView,
    b: BindingsView,
    floor: nat,
)
    requires
        is_plain(data),
        spec_match_atoms(data, shift, pattern, floor).contains(b),
    ensures
        exists|m: BindingsView|
            is_solved(m) && subst(pattern, b) == #[trigger] subst(rename(data, shift), m),
        is_ground(data) ==> subst(pattern, b) == data,
{
    let empty = Seq::<(VarView, AtomView)>::empty();
    let found = spec_match_into(data, shift, pattern, empty, floor);
    let cut = restrict_each(found, pattern);
    let k = choose|k: int| 0 <= k < cut.len() && cut[k] == b;
    let m = found[k];
    lemma_match_into_sound(data, shift, pattern, empty, k, floor);
    assert(b == restrict(m, pattern));
    lemma_restrict_subst(pattern, m, pattern);
    assert(subst(pattern, b) == subst(rename(data, shift), m));
    if is_ground(data) {
        lemma_rename_ground(data, shift);
        assert forall|v: VarView| vars_of(data).contains(v) implies lookup(m, v) is None by {}
        lemma_subst_identity(data, m);
    }
}

/// A query without conjunction is sound: the query with the bindings of a
/// result applied to it is an atom of the content, its variables moved above
/// those of the query, with solved bindings applied to it. Where that atom
/// holds no variable, it is the atom itself. The atoms of the content hold no
/// grounded space.
pub proof fn lemma_single_query_sound(
    content: Seq<AtomView>,
    q: AtomView,
    b: BindingsView,
    floor: nat,
)
    requires
        forall|i: int| 0 <= i < content.len() ==> is_plain(#[trigger] content[i]),
        spec_single_query(content, q, floor).contains(b),
    ensures
        exists|i: int, m: BindingsView|
            0 <= i < content.len() && is_solved(m) && subst(q, b) == #[trigger] subst(
                rename(content[i], fresh_shift(q, floor)),
                m,
            ),
        (forall|i: int| 0 <= i < content.len() ==> is_ground(#[trigger] content[i])) ==> exists|
            i: int,
        | 0 <= i < content.len() && subst(q, b) == #[trigger] content[i],
    decreases content.len(),
{
    let shift = fresh_shift(q, floor);
    let all = spec_single_query(content, q, floor);
    let k = choose|k: int| 0 <= k < all.len() && all[k] == b;
    if content.len() > 0 {
        let front = content.drop_last();
        let rest = spec_single_query(front, q, floor);
        let c = content.last();
        let found = spec_match_atoms(c, shift, q, shift + max_var_id(c));
        if k < rest.len() {
            assert(rest[k] == b);
            assert forall|i: int| 0 <= i < front.len() implies is_plain(#[trigger] front[i]) by {
                assert(front[i] == content[i]);
            }
            lemma_single_query_sound(front, q, b, floor);
            let (i, m) = choose|i: int, m: BindingsView|
                0 <= i < front.len() && is_solved(m) && subst(q, b) == #[trigger] subst(
                    rename(front[i], shift),
                    m,
                );
            assert(front[i] == content[i]);
            assert(subst(q, b) == subst(rename(content[i], shift), m));
            if forall|i: int| 0 <= i < content.len() ==> is_ground(#[trigger] content[i]) {
                assert forall|i: int| 0 <= i < front.len() implies is_ground(
                    #[trigger] front[i],
                ) by {
                    assert(front[i] == content[i]);
                }
                let i2 = choose|i: int| 0 <= i < front.len() && subst(q, b) == #[trigger] front[i];
                assert(content[i2] == front[i2]);
            }
        } else {
            assert(fits(c, q, floor));
            assert(found[k - rest.len()] == b);
            let last = content.len() - 1;
            assert(is_plain(content[last]));
            lemma_match_sound(c, shift, q, b, shift + max_var_id(c));
            let m = choose|m: BindingsView|
                is_solved(m) && subst(q, b) == #[trigger] subst(rename(c, shift), m);
            assert(subst(q, b) == subst(rename(content[last], shift), m));
            if forall|i: int| 0 <= i < content.len() ==> is_ground(#[trigger] content[i]) {
                assert(is_ground(content[last]));
                assert(subst(q, b) == content[last]);
            }
        }
    }
}

/// The variables that a query takes from the content are fresh: a variable
/// of a stored atom, moved as a query moves it, has a freshness counter above
/// `floor` and is no variable of the query.
pub proof fn lemma_fresh_variables(c: AtomView, q: AtomView, floor: nat, v: VarView)
    requires
        vars_of(rename(c, fresh_shift(q, floor))).contains(v),
    ensures
        v.id > floor,
        v.id > max_var_id(q),
        !vars_of(q).contains(v),
{
    lemma_renamed_var_id(c, fresh_shift(q, floor), v);
    if vars_of(q).contains(v) {
        lemma_var_id_bounded(q, v);
    }
}

} // verus!
