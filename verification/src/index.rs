//! The term index: a trie over the keys of linearized atoms, which finds the
//! stored entries that a pattern may match.

use crate::atom::{atoms_eq, atoms_view, clone_atoms, Atom, AtomView, ExpressionAtom};
use vstd::prelude::*;

verus! {

broadcast use vstd::std_specs::vec::group_vec_axioms;

/// Mathematical model of an index key.
pub ghost enum IndexKeyView {
    Symbol(Seq<char>),
    Wildcard,
    ExpressionBegin(Seq<AtomView>, nat),
    ExpressionEnd,
}

/// One step of the way through the index.
#[derive(Debug)]
pub enum IndexKey {
    /// A symbol, by its name.
    Symbol(String),
    /// Stands for a variable or a grounded value where an atom is stored, and
    /// for anything where one is looked up.
    Wildcard,
    /// The start of an expression: the expression itself, and the number of
    /// keys that follow up to and including the end of that expression.
    ExpressionBegin(ExpressionAtom, usize),
    /// The end of an expression.
    ExpressionEnd,
}

impl View for IndexKey {
    type V = IndexKeyView;

    open spec fn view(&self) -> IndexKeyView {
        match self {
            IndexKey::Symbol(name) => IndexKeyView::Symbol(name@),
            IndexKey::Wildcard => IndexKeyView::Wildcard,
            IndexKey::ExpressionBegin(expr, span) => IndexKeyView::ExpressionBegin(
                expr@,
                *span as nat,
            ),
            IndexKey::ExpressionEnd => IndexKeyView::ExpressionEnd,
        }
    }
}

/// The models of a list of keys.
pub open spec fn keys_view(v: Seq<IndexKey>) -> Seq<IndexKeyView> {
    Seq::new(v.len(), |i: int| v[i]@)
}

/// The keys of an atom as a stack: the key to take first is the last one.
///
/// A symbol gives its own key, a variable or a grounded value the wildcard.
/// An expression gives, from the top of the stack down, its begin key, the
/// keys of its children from the first child to the last, and its end key;
/// the begin key holds the expression and the number of keys below it that
/// belong to the expression, the end key included.
pub open spec fn key_stack(a: AtomView) -> Seq<IndexKeyView>
    decreases a,
{
    match a {
        AtomView::Symbol(name) => seq![IndexKeyView::Symbol(name)],
        AtomView::Expression(c) => {
            let inner = seq![IndexKeyView::ExpressionEnd] + key_stack_children(c);
            inner.push(IndexKeyView::ExpressionBegin(c, inner.len()))
        },
        _ => seq![IndexKeyView::Wildcard],
    }
}

/// The keys of the children of an expression as a stack: those of the last
/// child lowest, those of the first child on top.
pub open spec fn key_stack_children(c: Seq<AtomView>) -> Seq<IndexKeyView>
    decreases c,
{
    if c.len() == 0 {
        Seq::empty()
    } else {
        key_stack_children(c.drop_first()) + key_stack(c.first())
    }
}

impl Clone for IndexKey {
    fn clone(&self) -> (r: Self)
        ensures
            r@ == self@,
    {
        match self {
            IndexKey::Symbol(name) => IndexKey::Symbol(name.clone()),
            IndexKey::Wildcard => IndexKey::Wildcard,
            IndexKey::ExpressionBegin(expr, span) => IndexKey::ExpressionBegin(
                ExpressionAtom { children: clone_atoms(&expr.children) },
                *span,
            ),
            IndexKey::ExpressionEnd => IndexKey::ExpressionEnd,
        }
    }
}

impl IndexKey {
    /// Whether two keys are the same.
    pub fn same(&self, other: &IndexKey) -> (r: bool)
        ensures
            r == (self@ == other@),
    {
        match (self, other) {
            (IndexKey::Symbol(a), IndexKey::Symbol(b)) => *a == *b,
            (IndexKey::Wildcard, IndexKey::Wildcard) => true,
            (IndexKey::ExpressionBegin(e, a), IndexKey::ExpressionBegin(f, b)) => *a == *b
                && atoms_eq(&e.children, &f.children),
            (IndexKey::ExpressionEnd, IndexKey::ExpressionEnd) => true,
            _ => false,
        }
    }

    /// The keys of an atom as a stack: the key to take first is the last one.
    /// `None` where the atom has more keys than a list can hold.
    pub fn keys_from_atom(atom: &Atom) -> (r: Option<Vec<IndexKey>>)
        ensures
            match r {
                Some(keys) => keys_view(keys@) == key_stack(atom@),
                None => key_stack(atom@).len() > usize::MAX,
            },
        decreases atom,
    {
        match atom {
            Atom::Symbol(sym) => {
                let mut keys: Vec<IndexKey> = Vec::new();
                keys.push(IndexKey::Symbol(sym.name.clone()));
                assert(keys_view(keys@) =~= key_stack(atom@));
                Some(keys)
            },
            Atom::Expression(expr) => {
                let ghost cv = atoms_view(expr.children@);
                let ghost inner = seq![IndexKeyView::ExpressionEnd] + key_stack_children(cv);
                assert(key_stack(atom@) == inner.push(
                    IndexKeyView::ExpressionBegin(cv, inner.len()),
                ));
                let mut keys: Vec<IndexKey> = Vec::new();
                keys.push(IndexKey::ExpressionEnd);
                assert(keys_view(keys@) =~= seq![IndexKeyView::ExpressionEnd]);
                if !IndexKey::push_children(&expr.children, &mut keys) {
                    return None;
                }
                let span = keys.len();
                assert(keys_view(keys@).len() == inner.len());
                if span == usize::MAX {
                    return None;
                }
                let ghost before = keys@;
                keys.push(
                    IndexKey::ExpressionBegin(
                        ExpressionAtom { children: clone_atoms(&expr.children) },
                        span,
                    ),
                );
                proof {
                    assert(keys_view(before) =~= inner);
                    assert(keys_view(keys@) =~= keys_view(before).push(
                        IndexKeyView::ExpressionBegin(cv, span as nat),
                    ));
                }
                Some(keys)
            },
            _ => {
                let mut keys: Vec<IndexKey> = Vec::new();
                keys.push(IndexKey::Wildcard);
                assert(keys_view(keys@) =~= key_stack(atom@));
                Some(keys)
            },
        }
    }

    /// Puts the keys of the children on the stack, those of the last child
    /// first. Returns `false`, with the stack in no particular state, where
    /// there are more keys than a list can hold.
    fn push_children(children: &Vec<Atom>, keys: &mut Vec<IndexKey>) -> (ok: bool)
        ensures
            ok ==> keys_view(final(keys)@) == keys_view(old(keys)@) + key_stack_children(
                atoms_view(children@),
            ),
            !ok ==> old(keys)@.len() + key_stack_children(atoms_view(children@)).len()
                > usize::MAX,
        decreases children,
    {
        let ghost cv = atoms_view(children@);
        let ghost start = keys_view(keys@);
        let mut i: usize = children.len();
        assert(cv.skip(i as int) =~= Seq::empty());
        assert(keys_view(keys@) =~= start + key_stack_children(cv.skip(i as int)));
        while i > 0
            invariant
                i <= children.len(),
                cv == atoms_view(children@),
                start == keys_view(old(keys)@),
                keys_view(keys@) == start + key_stack_children(cv.skip(i as int)),
            decreases i,
        {
            i -= 1;
            proof {
                assert(cv.skip(i as int).drop_first() =~= cv.skip(i + 1));
                assert(cv.skip(i as int).first() == cv[i as int]);
                lemma_key_stack_children_suffix(cv, i as int);
            }
            assert(key_stack_children(cv.skip(i as int)) == key_stack_children(cv.skip(i + 1))
                + key_stack(cv[i as int]));
            assert(keys_view(keys@).len() == keys@.len());
            match IndexKey::keys_from_atom(&children[i]) {
                Some(mut more) => {
                    assert(keys_view(more@).len() == more@.len());
                    if more.len() > usize::MAX - keys.len() {
                        return false;
                    }
                    let ghost k0 = keys@;
                    let ghost m0 = more@;
                    keys.append(&mut more);
                    assert(keys_view(keys@) =~= keys_view(k0) + keys_view(m0));
                    assert(keys_view(keys@) =~= start + key_stack_children(cv.skip(i as int)));
                },
                None => {
                    return false;
                },
            }
        }
        assert(cv.skip(0) =~= cv);
        true
    }
}

/// The keys of a suffix of the children are a prefix of the keys of all of
/// them, so they are no more.
pub proof fn lemma_key_stack_children_suffix(c: Seq<AtomView>, i: int)
    requires
        0 <= i <= c.len(),
    ensures
        key_stack_children(c.skip(i)).len() <= key_stack_children(c).len(),
    decreases i,
{
    if i > 0 {
        lemma_key_stack_children_suffix(c, i - 1);
        assert(c.skip(i - 1).drop_first() =~= c.skip(i));
    } else {
        assert(c.skip(0) =~= c);
    }
}

/// Each begin key of the stack holds the number of keys from the one below
/// it down to the end key of its expression, and that end key is there.
pub open spec fn spans_fit(keys: Seq<IndexKeyView>) -> bool {
    forall|p: int|
        0 <= p < keys.len() ==> match #[trigger] keys[p] {
            IndexKeyView::ExpressionBegin(_, span) => 1 <= span <= p && keys[p - span]
                is ExpressionEnd,
            _ => true,
        }
}

/// Two stacks whose spans fit, one put on the other, make a stack whose spans
/// fit.
pub proof fn lemma_spans_fit_concat(a: Seq<IndexKeyView>, b: Seq<IndexKeyView>)
    requires
        spans_fit(a),
        spans_fit(b),
    ensures
        spans_fit(a + b),
{
    let c = a + b;
    assert forall|p: int| 0 <= p < c.len() implies match #[trigger] c[p] {
        IndexKeyView::ExpressionBegin(_, span) => 1 <= span <= p && c[p - span] is ExpressionEnd,
        _ => true,
    } by {
        if p < a.len() {
            assert(c[p] == a[p]);
            match a[p] {
                IndexKeyView::ExpressionBegin(_, span) => {
                    assert(c[p - span] == a[p - span]);
                },
                _ => {},
            }
        } else {
            let q = p - a.len();
            assert(c[p] == b[q]);
            match b[q] {
                IndexKeyView::ExpressionBegin(_, span) => {
                    assert(c[p - span] == b[q - span]);
                },
                _ => {},
            }
        }
    }
}

/// The spans of the keys of an atom fit: each begin key counts the keys of
/// its expression that lie below it, down to the end key of that expression.
pub proof fn lemma_key_stack_spans(a: AtomView)
    ensures
        spans_fit(key_stack(a)),
    decreases a,
{
    match a {
        AtomView::Expression(c) => {
            lemma_key_stack_children_spans(c);
            let end = seq![IndexKeyView::ExpressionEnd];
            let inner = end + key_stack_children(c);
            lemma_spans_fit_concat(end, key_stack_children(c));
            let all = inner.push(IndexKeyView::ExpressionBegin(c, inner.len()));
            assert forall|p: int| 0 <= p < all.len() implies match #[trigger] all[p] {
                IndexKeyView::ExpressionBegin(_, span) => 1 <= span <= p && all[p - span]
                    is ExpressionEnd,
                _ => true,
            } by {
                if p < inner.len() {
                    assert(all[p] == inner[p]);
                    match inner[p] {
                        IndexKeyView::ExpressionBegin(_, span) => {
                            assert(all[p - span] == inner[p - span]);
                        },
                        _ => {},
                    }
                } else {
                    assert(all[0] == inner[0]);
                    assert(inner[0] == end[0]);
                }
            }
        },
        _ => {},
    }
}

/// The spans of the keys of the children of an expression fit.
pub proof fn lemma_key_stack_children_spans(c: Seq<AtomView>)
    ensures
        spans_fit(key_stack_children(c)),
    decreases c,
{
    if c.len() > 0 {
        lemma_key_stack_children_spans(c.drop_first());
        lemma_key_stack_spans(c.first());
        lemma_spans_fit_concat(key_stack_children(c.drop_first()), key_stack(c.first()));
    }
}

/// Mathematical model of the index: the children by key, in the order in
/// which they were made, and the payloads kept at this node.
pub ghost struct TreeView {
    pub next: Seq<(IndexKeyView, TreeView)>,
    pub leaf: Seq<u64>,
}

/// A node of the index. Payloads are numbers that the owner of the index
/// gives to the atoms it stores.
#[derive(Debug)]
pub struct IndexTree {
    next: Vec<(IndexKey, IndexTree)>,
    leaf: Vec<u64>,
}

/// The model of a node.
pub closed spec fn tree_view(t: IndexTree) -> TreeView
    decreases t,
{
    TreeView { next: children_view(t.next@), leaf: t.leaf@ }
}

/// The models of the children of a node.
pub closed spec fn children_view(s: Seq<(IndexKey, IndexTree)>) -> Seq<(IndexKeyView, TreeView)>
    decreases s,
{
    Seq::new(
        s.len(),
        |i: int|
            if 0 <= i < s.len() {
                (s[i].0@, tree_view(s[i].1))
            } else {
                (IndexKeyView::Wildcard, TreeView { next: Seq::empty(), leaf: Seq::empty() })
            },
    )
}

impl View for IndexTree {
    type V = TreeView;

    closed spec fn view(&self) -> TreeView {
        tree_view(*self)
    }
}

/// The index that holds nothing.
pub open spec fn empty_tree() -> TreeView {
    TreeView { next: Seq::empty(), leaf: Seq::empty() }
}

/// The place of the first child from `start` on that has the key.
pub open spec fn find_from(next: Seq<(IndexKeyView, TreeView)>, key: IndexKeyView, start: nat)
    -> Option<int>
    decreases next.len() - start,
{
    if start >= next.len() {
        None
    } else if next[start as int].0 == key {
        Some(start as int)
    } else {
        find_from(next, key, start + 1)
    }
}

/// The place of the first child that has the key.
pub open spec fn find_key(t: TreeView, key: IndexKeyView) -> Option<int> {
    find_from(t.next, key, 0)
}

/// The node with an empty child for the key put last, unless it has a child
/// for it.
pub open spec fn with_child(t: TreeView, key: IndexKeyView) -> TreeView {
    match find_key(t, key) {
        Some(_) => t,
        None => TreeView { next: t.next.push((key, empty_tree())), ..t },
    }
}

/// The place of the child for the key in `with_child(t, key)`.
pub open spec fn child_index(t: TreeView, key: IndexKeyView) -> int {
    match find_key(t, key) {
        Some(i) => i,
        None => t.next.len() as int,
    }
}

/// The index after the payload `v` is stored under the lowest `n` keys of the
/// stack `keys`.
///
/// With no key left the payload is put last at the node. Otherwise the child
/// for the top key is made if there is none. Below the child of a begin key
/// the payload is stored twice: under the keys that are left once the whole
/// expression is passed over, so that a pattern with a variable in that place
/// finds it, and then under all the keys that are left. A begin key whose
/// span is greater than the number of keys left, which the keys of an atom
/// never hold, is not passed over.
pub open spec fn spec_add(t: TreeView, keys: Seq<IndexKeyView>, n: nat, v: u64) -> TreeView
    decreases n,
{
    if n == 0 {
        TreeView { leaf: t.leaf.push(v), ..t }
    } else if n > keys.len() {
        t
    } else {
        let key = keys[n - 1];
        let t1 = with_child(t, key);
        let i = child_index(t, key);
        let c0 = t1.next[i].1;
        let c1 = match key {
            IndexKeyView::ExpressionBegin(_, span) => if span <= n - 1 {
                spec_add(c0, keys, (n - 1 - span) as nat, v)
            } else {
                c0
            },
            _ => c0,
        };
        let c2 = spec_add(c1, keys, (n - 1) as nat, v);
        TreeView { next: t1.next.update(i, (key, c2)), ..t1 }
    }
}

/// The place of the first occurrence of `v` from `start` on.
pub open spec fn position_from(s: Seq<u64>, v: u64, start: nat) -> Option<int>
    decreases s.len() - start,
{
    if start >= s.len() {
        None
    } else if s[start as int] == v {
        Some(start as int)
    } else {
        position_from(s, v, start + 1)
    }
}

/// The sequence without its first occurrence of `v`, and whether there was
/// one.
pub open spec fn remove_first(s: Seq<u64>, v: u64) -> (Seq<u64>, bool) {
    match position_from(s, v, 0) {
        Some(i) => (s.remove(i), true),
        None => (s, false),
    }
}

/// The index after one occurrence of the payload `v` is taken from the node
/// that the lowest `n` keys of the stack lead to by their own children only,
/// and whether one was taken.
pub open spec fn spec_remove(t: TreeView, keys: Seq<IndexKeyView>, n: nat, v: u64) -> (
    TreeView,
    bool,
)
    decreases n,
{
    if n == 0 {
        let (leaf, found) = remove_first(t.leaf, v);
        (TreeView { leaf, ..t }, found)
    } else if n > keys.len() {
        (t, false)
    } else {
        let key = keys[n - 1];
        match find_key(t, key) {
            None => (t, false),
            Some(i) => {
                let (c, found) = spec_remove(t.next[i].1, keys, (n - 1) as nat, v);
                (TreeView { next: t.next.update(i, (key, c)), ..t }, found)
            },
        }
    }
}

/// Whether a pattern's key lets the search go on into a child with the key
/// `k`, where all children of a kind are taken: the children for begin keys
/// when `begins_only`, else all but the child for the end key.
pub open spec fn fan_takes(k: IndexKeyView, begins_only: bool) -> bool {
    if begins_only {
        k is ExpressionBegin
    } else {
        !(k is ExpressionEnd)
    }
}

/// The payloads that the lowest `n` keys of the pattern's stack `keys` lead
/// to from the node `t`.
///
/// With no key left these are the payloads at the node. A symbol key goes on
/// into the child for that symbol and then into the child for the wildcard.
/// An end key goes on into the child for the end key. A begin key goes on
/// into the child for the wildcard with the expression passed over, and then
/// into the child for the same begin key or, where there is none, into every
/// child for a begin key. A wildcard goes on into every child but the one for
/// the end key.
pub open spec fn spec_get(t: TreeView, keys: Seq<IndexKeyView>, n: nat) -> Seq<u64>
    decreases n, 2nat, 0nat,
{
    if n == 0 {
        t.leaf
    } else if n > keys.len() {
        Seq::empty()
    } else {
        let m = (n - 1) as nat;
        match keys[n - 1] {
            IndexKeyView::Symbol(name) => spec_get_child(t, IndexKeyView::Symbol(name), keys, m)
                + spec_get_child(t, IndexKeyView::Wildcard, keys, m),
            IndexKeyView::ExpressionEnd => spec_get_child(
                t,
                IndexKeyView::ExpressionEnd,
                keys,
                m,
            ),
            IndexKeyView::ExpressionBegin(expr, span) => {
                let skipped = if span <= m {
                    spec_get_child(t, IndexKeyView::Wildcard, keys, (m - span) as nat)
                } else {
                    Seq::empty()
                };
                let entered = if find_key(t, IndexKeyView::ExpressionBegin(expr, span)) is Some {
                    spec_get_child(t, IndexKeyView::ExpressionBegin(expr, span), keys, m)
                } else {
                    spec_get_fan(t.next, t.next.len(), true, keys, m)
                };
                skipped + entered
            },
            IndexKeyView::Wildcard => spec_get_fan(t.next, t.next.len(), false, keys, m),
        }
    }
}

/// The payloads that the lowest `m` keys lead to from the child of `t` for
/// `key`; none where there is no such child.
pub open spec fn spec_get_child(t: TreeView, key: IndexKeyView, keys: Seq<IndexKeyView>, m: nat)
    -> Seq<u64>
    decreases m + 1, 0nat, 0nat,
{
    match find_key(t, key) {
        Some(i) => spec_get(t.next[i].1, keys, m),
        None => Seq::empty(),
    }
}

/// The payloads that the lowest `m` keys lead to from those of the first
/// `count` children that `fan_takes` admits, child by child.
pub open spec fn spec_get_fan(
    next: Seq<(IndexKeyView, TreeView)>,
    count: nat,
    begins_only: bool,
    keys: Seq<IndexKeyView>,
    m: nat,
) -> Seq<u64>
    decreases m + 1, 1nat, count,
{
    if count == 0 || count > next.len() {
        Seq::empty()
    } else {
        let rest = spec_get_fan(next, (count - 1) as nat, begins_only, keys, m);
        let entry = next[count - 1];
        if fan_takes(entry.0, begins_only) {
            rest + spec_get(entry.1, keys, m)
        } else {
            rest
        }
    }
}

/// The index after the payload is stored for the atom `a`. An atom with more
/// keys than a list can hold is not stored.
pub open spec fn spec_add_atom(t: TreeView, a: AtomView, v: u64) -> TreeView {
    let keys = key_stack(a);
    if keys.len() <= usize::MAX {
        spec_add(t, keys, keys.len(), v)
    } else {
        t
    }
}

/// The index after one occurrence of the payload is taken from the node of
/// the atom `a`, and whether one was taken.
pub open spec fn spec_remove_atom(t: TreeView, a: AtomView, v: u64) -> (TreeView, bool) {
    let keys = key_stack(a);
    if keys.len() <= usize::MAX {
        spec_remove(t, keys, keys.len(), v)
    } else {
        (t, false)
    }
}

/// The payloads of the stored atoms that the pattern `a` may match.
pub open spec fn spec_get_atom(t: TreeView, a: AtomView) -> Seq<u64> {
    let keys = key_stack(a);
    if keys.len() <= usize::MAX {
        spec_get(t, keys, keys.len())
    } else {
        Seq::empty()
    }
}

impl IndexTree {
    /// The index that holds nothing.
    pub fn new() -> (r: Self)
        ensures
            r@ == empty_tree(),
    {
        let r = IndexTree { next: Vec::new(), leaf: Vec::new() };
        assert(children_view(r.next@) =~= Seq::empty());
        r
    }

    /// The place of the first child that has the key.
    fn find(&self, key: &IndexKey) -> (r: Option<usize>)
        ensures
            match r {
                Some(i) => find_key(self@, key@) == Some(i as int) && i < self.next.len()
                    && self.next@[i as int].0@ == key@,
                None => find_key(self@, key@) is None,
            },
    {
        let ghost next = self@.next;
        let mut i: usize = 0;
        while i < self.next.len()
            invariant
                i <= self.next.len(),
                next == self@.next,
                next.len() == self.next.len(),
                find_from(next, key@, 0) == find_from(next, key@, i as nat),
            decreases self.next.len() - i,
        {
            assert(next[i as int].0 == self.next@[i as int].0@);
            if self.next[i].0.same(key) {
                return Some(i);
            }
            i += 1;
        }
        None
    }

    /// Stores the payload under the lowest `n` keys of the stack.
    fn add_keys(&mut self, keys: &Vec<IndexKey>, n: usize, value: u64)
        requires
            n <= keys.len(),
        ensures
            final(self)@ == spec_add(old(self)@, keys_view(keys@), n as nat, value),
        decreases n,
    {
        if n == 0 {
            self.leaf.push(value);
            return ;
        }
        let ghost kv = keys_view(keys@);
        let ghost t0 = self@;
        let key = &keys[n - 1];
        assert(kv[n - 1] == key@);
        let idx = match self.find(key) {
            Some(i) => i,
            None => {
                let ghost before = self.next@;
                self.next.push((key.clone(), IndexTree::new()));
                assert(children_view(self.next@) =~= children_view(before).push(
                    (key@, empty_tree()),
                ));
                self.next.len() - 1
            },
        };
        assert(self@ == with_child(t0, key@));
        assert(idx == child_index(t0, key@));
        let ghost t1 = self@;
        let ghost s1 = self.next@;
        match key {
            IndexKey::ExpressionBegin(_, span) => {
                if *span <= n - 1 {
                    self.next[idx].1.add_keys(keys, n - 1 - *span, value);
                }
            },
            _ => {},
        }
        self.next[idx].1.add_keys(keys, n - 1, value);
        proof {
            let c2 = self.next@[idx as int].1@;
            assert(self.next@.len() == s1.len());
            assert(children_view(self.next@) =~= t1.next.update(idx as int, (key@, c2))) by {
                assert forall|j: int| 0 <= j < s1.len() implies #[trigger] children_view(
                    self.next@,
                )[j] == t1.next.update(idx as int, (key@, c2))[j] by {
                    if j != idx {
                        assert(self.next@[j] == s1[j]);
                    }
                }
            }
        }
    }

    /// Takes one occurrence of the payload from the node that the lowest `n`
    /// keys of the stack lead to, and says whether there was one.
    fn remove_keys(&mut self, keys: &Vec<IndexKey>, n: usize, value: u64) -> (r: bool)
        requires
            n <= keys.len(),
        ensures
            (final(self)@, r) == spec_remove(old(self)@, keys_view(keys@), n as nat, value),
        decreases n,
    {
        if n == 0 {
            let ghost leaf = self.leaf@;
            let mut i: usize = 0;
            while i < self.leaf.len()
                invariant
                    i <= self.leaf.len(),
                    n == 0,
                    leaf == self.leaf@,
                    *self == *old(self),
                    position_from(leaf, value, 0) == position_from(leaf, value, i as nat),
                decreases self.leaf.len() - i,
            {
                if self.leaf[i] == value {
                    assert(position_from(leaf, value, i as nat) == Some(i as int));
                    self.leaf.remove(i);
                    return true;
                }
                i += 1;
            }
            return false;
        }
        let ghost kv = keys_view(keys@);
        let ghost t0 = self@;
        let key = &keys[n - 1];
        assert(kv[n - 1] == key@);
        match self.find(key) {
            None => false,
            Some(idx) => {
                let ghost s1 = self.next@;
                let r = self.next[idx].1.remove_keys(keys, n - 1, value);
                proof {
                    let c = self.next@[idx as int].1@;
                    assert(self.next@.len() == s1.len());
                    assert(children_view(self.next@) =~= t0.next.update(idx as int, (key@, c)))
                        by {
                        assert forall|j: int| 0 <= j < s1.len() implies #[trigger] children_view(
                            self.next@,
                        )[j] == t0.next.update(idx as int, (key@, c))[j] by {
                            if j != idx {
                                assert(self.next@[j] == s1[j]);
                            }
                        }
                    }
                }
                r
            },
        }
    }

    /// Puts after `out` the payloads that the lowest `n` keys of the
    /// pattern's stack lead to from this node.
    fn get_keys(&self, keys: &Vec<IndexKey>, n: usize, out: &mut Vec<u64>)
        requires
            n <= keys.len(),
        ensures
            final(out)@ == old(out)@ + spec_get(self@, keys_view(keys@), n as nat),
        decreases n, 2nat, 0nat,
    {
        let ghost kv = keys_view(keys@);
        let ghost o0 = out@;
        if n == 0 {
            let mut i: usize = 0;
            while i < self.leaf.len()
                invariant
                    i <= self.leaf.len(),
                    out@ == o0 + self.leaf@.take(i as int),
                decreases self.leaf.len() - i,
            {
                out.push(self.leaf[i]);
                assert(out@ =~= o0 + self.leaf@.take(i + 1));
                i += 1;
            }
            assert(self.leaf@.take(self.leaf.len() as int) =~= self.leaf@);
            return ;
        }
        let m = n - 1;
        assert(kv[n - 1] == keys@[n - 1]@);
        match &keys[n - 1] {
            IndexKey::Symbol(_) => {
                self.get_child(&keys[n - 1], keys, m, out);
                let ghost o1 = out@;
                self.get_child(&IndexKey::Wildcard, keys, m, out);
                assert(out@ =~= o0 + (spec_get_child(self@, kv[n - 1], kv, m as nat)
                    + spec_get_child(self@, IndexKeyView::Wildcard, kv, m as nat)));
            },
            IndexKey::ExpressionEnd => {
                self.get_child(&keys[n - 1], keys, m, out);
            },
            IndexKey::ExpressionBegin(_, span) => {
                if *span <= m {
                    self.get_child(&IndexKey::Wildcard, keys, m - *span, out);
                }
                let ghost o1 = out@;
                match self.find(&keys[n - 1]) {
                    Some(_) => {
                        self.get_child(&keys[n - 1], keys, m, out);
                    },
                    None => {
                        self.get_fan(true, keys, m, out);
                    },
                }
                assert(out@ =~= o0 + spec_get(self@, kv, n as nat));
            },
            IndexKey::Wildcard => {
                self.get_fan(false, keys, m, out);
            },
        }
    }

    /// Puts after `out` the payloads that the lowest `m` keys lead to from
    /// the child for `key`, if there is one.
    fn get_child(&self, key: &IndexKey, keys: &Vec<IndexKey>, m: usize, out: &mut Vec<u64>)
        requires
            m <= keys.len(),
        ensures
            final(out)@ == old(out)@ + spec_get_child(self@, key@, keys_view(keys@), m as nat),
        decreases m + 1, 0nat, 0nat,
    {
        match self.find(key) {
            Some(i) => {
                self.next[i].1.get_keys(keys, m, out);
            },
            None => {
                assert(out@ =~= out@ + Seq::<u64>::empty());
            },
        }
    }

    /// Puts after `out` the payloads that the lowest `m` keys lead to from
    /// the children that `fan_takes` admits, child by child.
    fn get_fan(&self, begins_only: bool, keys: &Vec<IndexKey>, m: usize, out: &mut Vec<u64>)
        requires
            m <= keys.len(),
        ensures
            final(out)@ == old(out)@ + spec_get_fan(
                self@.next,
                self@.next.len(),
                begins_only,
                keys_view(keys@),
                m as nat,
            ),
        decreases m + 1, 1nat, 0nat,
    {
        let ghost kv = keys_view(keys@);
        let ghost next = self@.next;
        let ghost o0 = out@;
        let mut j: usize = 0;
        assert(out@ =~= o0 + spec_get_fan(next, 0, begins_only, kv, m as nat));
        while j < self.next.len()
            invariant
                j <= self.next.len(),
                m <= keys.len(),
                next == self@.next,
                next.len() == self.next.len(),
                kv == keys_view(keys@),
                out@ == o0 + spec_get_fan(next, j as nat, begins_only, kv, m as nat),
            decreases self.next.len() - j,
        {
            let ghost o1 = out@;
            assert(next[j as int] == (self.next@[j as int].0@, self.next@[j as int].1@));
            let takes = match &self.next[j].0 {
                IndexKey::ExpressionBegin(_, _) => true,
                IndexKey::ExpressionEnd => false,
                _ => !begins_only,
            };
            assert(takes == fan_takes(next[j as int].0, begins_only));
            if takes {
                self.next[j].1.get_keys(keys, m, out);
                assert(out@ =~= o0 + (spec_get_fan(next, j as nat, begins_only, kv, m as nat)
                    + spec_get(next[j as int].1, kv, m as nat)));
            }
            j += 1;
        }
    }

    /// Stores the payload for the atom.
    pub fn add(&mut self, key: &Atom, value: u64)
        ensures
            final(self)@ == spec_add_atom(old(self)@, key@, value),
    {
        match IndexKey::keys_from_atom(key) {
            Some(keys) => {
                assert(keys_view(keys@).len() == keys.len());
                self.add_keys(&keys, keys.len(), value);
            },
            None => {},
        }
    }

    /// Takes one occurrence of the payload from the node of the atom, and
    /// says whether there was one.
    pub fn remove(&mut self, key: &Atom, value: &u64) -> (r: bool)
        ensures
            (final(self)@, r) == spec_remove_atom(old(self)@, key@, *value),
    {
        match IndexKey::keys_from_atom(key) {
            Some(keys) => {
                assert(keys_view(keys@).len() == keys.len());
                self.remove_keys(&keys, keys.len(), *value)
            },
            None => false,
        }
    }

    /// The payloads of the stored atoms that the pattern may match. A payload
    /// comes once for each way that leads to it.
    pub fn get(&self, pattern: &Atom) -> (r: Vec<u64>)
        ensures
            r@ == spec_get_atom(self@, pattern@),
    {
        let mut out: Vec<u64> = Vec::new();
        match IndexKey::keys_from_atom(pattern) {
            Some(keys) => {
                assert(keys_view(keys@).len() == keys.len());
                self.get_keys(&keys, keys.len(), &mut out);
                assert(out@ =~= spec_get_atom(self@, pattern@));
            },
            None => {},
        }
        out
    }
}

/// A copy of the children of a node with the same model.
fn clone_children(v: &Vec<(IndexKey, IndexTree)>) -> (r: Vec<(IndexKey, IndexTree)>)
    ensures
        children_view(r@) == children_view(v@),
    decreases v,
{
    let mut r: Vec<(IndexKey, IndexTree)> = Vec::new();
    let mut i: usize = 0;
    while i < v.len()
        invariant
            i <= v.len(),
            r.len() == i,
            forall|j: int|
                0 <= j < i ==> (#[trigger] r@[j]).0@ == v@[j].0@ && tree_view(r@[j].1) == tree_view(
                    v@[j].1,
                ),
        decreases v.len() - i,
    {
        r.push((v[i].0.clone(), clone_tree(&v[i].1)));
        i += 1;
    }
    assert(children_view(r@) =~= children_view(v@));
    r
}

/// A copy of a node with the same model.
fn clone_tree(t: &IndexTree) -> (r: IndexTree)
    ensures
        r@ == t@,
    decreases t,
{
    let next = clone_children(&t.next);
    let mut leaf: Vec<u64> = Vec::new();
    let mut i: usize = 0;
    while i < t.leaf.len()
        invariant
            i <= t.leaf.len(),
            leaf@ == t.leaf@.take(i as int),
        decreases t.leaf.len() - i,
    {
        leaf.push(t.leaf[i]);
        assert(leaf@ =~= t.leaf@.take(i + 1));
        i += 1;
    }
    assert(t.leaf@.take(t.leaf.len() as int) =~= t.leaf@);
    IndexTree { next, leaf }
}

impl Clone for IndexTree {
    fn clone(&self) -> (r: Self)
        ensures
            r@ == self@,
    {
        clone_tree(self)
    }
}

/// Whether the payload `v` lies at the node that the lowest `n` keys of the
/// stack lead to from `t`, each key by the child of its own.
pub open spec fn on_path(t: TreeView, keys: Seq<IndexKeyView>, n: nat, v: u64) -> bool
    decreases n,
{
    if n == 0 {
        t.leaf.contains(v)
    } else if n > keys.len() {
        false
    } else {
        match find_key(t, keys[n - 1]) {
            Some(i) => on_path(t.next[i].1, keys, (n - 1) as nat, v),
            None => false,
        }
    }
}

/// Whether the index holds the payload `v` for the atom `a`.
pub open spec fn holds(t: TreeView, a: AtomView, v: u64) -> bool {
    key_stack(a).len() <= usize::MAX && on_path(t, key_stack(a), key_stack(a).len(), v)
}

/// No child before the one that `find_from` finds has the key; where it
/// finds none, no child from `start` on has it.
pub proof fn lemma_find_from_first(
    next: Seq<(IndexKeyView, TreeView)>,
    key: IndexKeyView,
    start: nat,
)
    ensures
        match find_from(next, key, start) {
            Some(i) => start <= i < next.len() && next[i].0 == key && forall|j: int|
                start <= j < i ==> (#[trigger] next[j]).0 != key,
            None => forall|j: int| start <= j < next.len() ==> (#[trigger] next[j]).0 != key,
        },
    decreases next.len() - start,
{
    if start < next.len() && next[start as int].0 != key {
        lemma_find_from_first(next, key, start + 1);
    }
}

/// The first child with the key is what `find_from` finds.
pub proof fn lemma_find_from_is(
    next: Seq<(IndexKeyView, TreeView)>,
    key: IndexKeyView,
    start: nat,
    i: int,
)
    requires
        start <= i < next.len(),
        next[i].0 == key,
        forall|j: int| start <= j < i ==> (#[trigger] next[j]).0 != key,
    ensures
        find_from(next, key, start) == Some(i),
    decreases i - start,
{
    if start < i {
        lemma_find_from_is(next, key, start + 1, i);
    }
}

/// Two lists of children with the same keys in the same places, of which the
/// second may be longer, have the first child with a key in the same place,
/// where the first list has one.
pub proof fn lemma_find_same_keys(
    a: Seq<(IndexKeyView, TreeView)>,
    b: Seq<(IndexKeyView, TreeView)>,
    key: IndexKeyView,
)
    requires
        a.len() <= b.len(),
        forall|j: int| 0 <= j < a.len() ==> (#[trigger] a[j]).0 == (#[trigger] b[j]).0,
        find_from(a, key, 0) is Some,
    ensures
        find_from(b, key, 0) == find_from(a, key, 0),
{
    lemma_find_from_first(a, key, 0);
    let i = find_from(a, key, 0).unwrap();
    assert(b[i].0 == a[i].0);
    assert forall|j: int| 0 <= j < i implies (#[trigger] b[j]).0 != key by {
        assert(a[j].0 == b[j].0);
    }
    lemma_find_from_is(b, key, 0, i);
}

/// The children of a node after a payload is stored below it have the keys
/// that they had, in their places, with the child for the top key where
/// `child_index` says.
pub proof fn lemma_add_keeps_keys(t: TreeView, keys: Seq<IndexKeyView>, n: nat, v: u64)
    requires
        0 < n <= keys.len(),
    ensures
        t.next.len() <= spec_add(t, keys, n, v).next.len(),
        forall|j: int|
            0 <= j < t.next.len() ==> (#[trigger] t.next[j]).0 == (#[trigger] spec_add(
                t,
                keys,
                n,
                v,
            ).next[j]).0,
        find_key(spec_add(t, keys, n, v), keys[n - 1]) == Some(child_index(t, keys[n - 1])),
        0 <= child_index(t, keys[n - 1]) < spec_add(t, keys, n, v).next.len(),
        spec_add(t, keys, n, v).leaf == t.leaf,
{
    let key = keys[n - 1];
    let t1 = with_child(t, key);
    let i = child_index(t, key);
    lemma_find_from_first(t.next, key, 0);
    let r = spec_add(t, keys, n, v);
    assert(r.next.len() == t1.next.len());
    assert(t1.next[i].0 == key);
    assert forall|j: int| 0 <= j < i implies (#[trigger] r.next[j]).0 != key by {
        assert(t.next[j].0 != key);
    }
    lemma_find_from_is(r.next, key, 0, i);
}

/// Storing a payload for a stack of keys puts it on the path of those keys.
pub proof fn lemma_add_on_path(t: TreeView, keys: Seq<IndexKeyView>, n: nat, v: u64)
    requires
        n <= keys.len(),
    ensures
        on_path(spec_add(t, keys, n, v), keys, n, v),
    decreases n,
{
    if n == 0 {
        assert(t.leaf.push(v)[t.leaf.len() as int] == v);
    } else {
        let key = keys[n - 1];
        let t1 = with_child(t, key);
        let i = child_index(t, key);
        lemma_add_keeps_keys(t, keys, n, v);
        let c0 = t1.next[i].1;
        let c1 = match key {
            IndexKeyView::ExpressionBegin(_, span) => if span <= n - 1 {
                spec_add(c0, keys, (n - 1 - span) as nat, v)
            } else {
                c0
            },
            _ => c0,
        };
        lemma_add_on_path(c1, keys, (n - 1) as nat, v);
        let c2 = spec_add(c1, keys, (n - 1) as nat, v);
        let r = spec_add(t, keys, n, v);
        lemma_find_from_first(t.next, key, 0);
        assert(0 <= i < t1.next.len());
        assert(r.next == t1.next.update(i, (key, c2)));
        assert(r.next[i].1 == c2);
        assert(find_key(r, key) == Some(i));
    }
}

/// Storing a payload leaves on its path every payload that was stored.
pub proof fn lemma_add_keeps_path(
    t: TreeView,
    keys: Seq<IndexKeyView>,
    n: nat,
    v: u64,
    keys2: Seq<IndexKeyView>,
    n2: nat,
    v2: u64,
)
    requires
        on_path(t, keys, n, v),
        n2 <= keys2.len(),
    ensures
        on_path(spec_add(t, keys2, n2, v2), keys, n, v),
    decreases n2,
{
    let r = spec_add(t, keys2, n2, v2);
    if n2 == 0 {
        if n == 0 {
            let k = choose|k: int| 0 <= k < t.leaf.len() && t.leaf[k] == v;
            assert(t.leaf.push(v2)[k] == v);
        }
    } else {
        let key2 = keys2[n2 - 1];
        let t1 = with_child(t, key2);
        let i2 = child_index(t, key2);
        lemma_add_keeps_keys(t, keys2, n2, v2);
        if n > 0 {
            let key = keys[n - 1];
            let j = find_key(t, key).unwrap();
            lemma_find_from_first(t.next, key, 0);
            lemma_find_same_keys(t.next, r.next, key);
            let c0 = t1.next[i2].1;
            let c1 = match key2 {
                IndexKeyView::ExpressionBegin(_, span) => if span <= n2 - 1 {
                    spec_add(c0, keys2, (n2 - 1 - span) as nat, v2)
                } else {
                    c0
                },
                _ => c0,
            };
            if j == i2 {
                assert(c0 == t.next[j].1);
                match key2 {
                    IndexKeyView::ExpressionBegin(_, span) => {
                        if span <= n2 - 1 {
                            lemma_add_keeps_path(
                                c0,
                                keys,
                                (n - 1) as nat,
                                v,
                                keys2,
                                (n2 - 1 - span) as nat,
                                v2,
                            );
                        }
                    },
                    _ => {},
                }
                lemma_add_keeps_path(c1, keys, (n - 1) as nat, v, keys2, (n2 - 1) as nat, v2);
            } else {
                assert(0 <= j < t.next.len());
                lemma_find_from_first(t.next, key2, 0);
                assert(0 <= i2 < t1.next.len());
                assert(t1.next[j] == t.next[j]);
                let c2 = spec_add(c1, keys2, (n2 - 1) as nat, v2);
                assert(r.next == t1.next.update(i2, (key2, c2)));
                assert(r.next[j] == t.next[j]);
            }
        }
    }
}

/// The payloads found among the first `count` children hold those found
/// below each of these children that is taken.
pub proof fn lemma_fan_holds(
    next: Seq<(IndexKeyView, TreeView)>,
    count: nat,
    begins_only: bool,
    keys: Seq<IndexKeyView>,
    m: nat,
    i: int,
    v: u64,
)
    requires
        0 <= i < count <= next.len(),
        fan_takes(next[i].0, begins_only),
        spec_get(next[i].1, keys, m).contains(v),
    ensures
        spec_get_fan(next, count, begins_only, keys, m).contains(v),
    decreases count,
{
    let rest = spec_get_fan(next, (count - 1) as nat, begins_only, keys, m);
    let last = spec_get(next[count - 1].1, keys, m);
    if i == count - 1 {
        let k = choose|k: int| 0 <= k < last.len() && last[k] == v;
        assert((rest + last)[rest.len() + k] == v);
    } else {
        lemma_fan_holds(next, (count - 1) as nat, begins_only, keys, m, i, v);
        let k = choose|k: int| 0 <= k < rest.len() && rest[k] == v;
        if fan_takes(next[count - 1].0, begins_only) {
            assert((rest + last)[k] == v);
        }
    }
}

/// A pattern finds every payload that lies on the path of its own keys.
pub proof fn lemma_path_is_found(t: TreeView, keys: Seq<IndexKeyView>, n: nat, v: u64)
    requires
        on_path(t, keys, n, v),
    ensures
        spec_get(t, keys, n).contains(v),
    decreases n,
{
    if n > 0 {
        let key = keys[n - 1];
        let m = (n - 1) as nat;
        let i = find_key(t, key).unwrap();
        lemma_find_from_first(t.next, key, 0);
        lemma_path_is_found(t.next[i].1, keys, m, v);
        let below = spec_get(t.next[i].1, keys, m);
        let k = choose|k: int| 0 <= k < below.len() && below[k] == v;
        assert(spec_get_child(t, key, keys, m) == below);
        match key {
            IndexKeyView::Symbol(name) => {
                let other = spec_get_child(t, IndexKeyView::Wildcard, keys, m);
                assert((below + other)[k] == v);
            },
            IndexKeyView::ExpressionEnd => {},
            IndexKeyView::ExpressionBegin(expr, span) => {
                let skipped = if span <= m {
                    spec_get_child(t, IndexKeyView::Wildcard, keys, (m - span) as nat)
                } else {
                    Seq::empty()
                };
                assert((skipped + below)[skipped.len() + k] == v);
            },
            IndexKeyView::Wildcard => {
                lemma_fan_holds(t.next, t.next.len(), false, keys, m, i, v);
            },
        }
    }
}

/// The index finds what it holds: a payload stored for an atom is held for
/// it, stays held whatever is stored after it, and is among the payloads
/// found for a pattern that equals the atom.
pub proof fn lemma_index_finds_stored(t: TreeView, a: AtomView, v: u64, b: AtomView, w: u64)
    requires
        key_stack(a).len() <= usize::MAX,
    ensures
        holds(spec_add_atom(t, a, v), a, v),
        holds(t, a, v) ==> holds(spec_add_atom(t, b, w), a, v),
        holds(t, a, v) ==> spec_get_atom(t, a).contains(v),
{
    let keys = key_stack(a);
    lemma_add_on_path(t, keys, keys.len(), v);
    if holds(t, a, v) {
        let keys2 = key_stack(b);
        if keys2.len() <= usize::MAX {
            lemma_add_keeps_path(t, keys, keys.len(), v, keys2, keys2.len(), w);
        }
        lemma_path_is_found(t, keys, keys.len(), v);
    }
}

/// Whether the payload `v` lies at a child of the root other than the one
/// for the end key: where a pattern of one wildcard finds it.
pub open spec fn top_held(t: TreeView, v: u64) -> bool {
    exists|i: int|
        0 <= i < t.next.len() && !((#[trigger] t.next[i]).0 is ExpressionEnd)
            && t.next[i].1.leaf.contains(v)
}

/// Storing a payload takes no payload from the node.
pub proof fn lemma_add_leaf_grows(t: TreeView, keys: Seq<IndexKeyView>, n: nat, v: u64, x: u64)
    requires
        t.leaf.contains(x),
    ensures
        spec_add(t, keys, n, v).leaf.contains(x),
{
    if n == 0 {
        let k = choose|k: int| 0 <= k < t.leaf.len() && t.leaf[k] == x;
        assert(t.leaf.push(v)[k] == x);
    }
}

/// Storing a payload leaves every payload where a pattern of one wildcard
/// finds it.
pub proof fn lemma_add_keeps_top(t: TreeView, keys: Seq<IndexKeyView>, n: nat, v: u64, x: u64)
    requires
        top_held(t, x),
        n <= keys.len(),
    ensures
        top_held(spec_add(t, keys, n, v), x),
{
    let r = spec_add(t, keys, n, v);
    let i = choose|i: int|
        0 <= i < t.next.len() && !((#[trigger] t.next[i]).0 is ExpressionEnd)
            && t.next[i].1.leaf.contains(x);
    if n == 0 {
        assert(r.next[i] == t.next[i]);
    } else {
        let key = keys[n - 1];
        let t1 = with_child(t, key);
        let i2 = child_index(t, key);
        lemma_find_from_first(t.next, key, 0);
        lemma_add_keeps_keys(t, keys, n, v);
        let c0 = t1.next[i2].1;
        let c1 = match key {
            IndexKeyView::ExpressionBegin(_, span) => if span <= n - 1 {
                spec_add(c0, keys, (n - 1 - span) as nat, v)
            } else {
                c0
            },
            _ => c0,
        };
        let c2 = spec_add(c1, keys, (n - 1) as nat, v);
        assert(r.next == t1.next.update(i2, (key, c2)));
        assert(t1.next[i] == t.next[i]);
        if i == i2 {
            match key {
                IndexKeyView::ExpressionBegin(_, span) => {
                    if span <= n - 1 {
                        lemma_add_leaf_grows(c0, keys, (n - 1 - span) as nat, v, x);
                    }
                },
                _ => {},
            }
            lemma_add_leaf_grows(c1, keys, (n - 1) as nat, v, x);
            assert(r.next[i] == (key, c2));
        } else {
            assert(r.next[i] == t.next[i]);
        }
    }
}

/// Storing a payload for an atom puts it where a pattern of one wildcard
/// finds it.
pub proof fn lemma_add_top(t: TreeView, a: AtomView, v: u64)
    requires
        key_stack(a).len() <= usize::MAX,
    ensures
        top_held(spec_add_atom(t, a, v), v),
{
    let keys = key_stack(a);
    let n = keys.len();
    let key = keys[n - 1];
    let t1 = with_child(t, key);
    let i = child_index(t, key);
    let r = spec_add(t, keys, n, v);
    lemma_find_from_first(t.next, key, 0);
    lemma_add_keeps_keys(t, keys, n, v);
    let c0 = t1.next[i].1;
    let c1 = match key {
        IndexKeyView::ExpressionBegin(_, span) => if span <= n - 1 {
            spec_add(c0, keys, (n - 1 - span) as nat, v)
        } else {
            c0
        },
        _ => c0,
    };
    let c2 = spec_add(c1, keys, (n - 1) as nat, v);
    assert(r.next == t1.next.update(i, (key, c2)));
    assert(r.next[i] == (key, c2));
    match a {
        AtomView::Expression(c) => {
            assert(c1 == spec_add(c0, keys, 0, v));
            assert(c1.leaf[c0.leaf.len() as int] == v);
            lemma_add_leaf_grows(c1, keys, (n - 1) as nat, v, v);
        },
        _ => {
            assert(c2 == spec_add(c0, keys, 0, v));
            assert(c2.leaf[c0.leaf.len() as int] == v);
        },
    }
}

/// A pattern that is a variable or a grounded value finds every payload
/// stored: each payload lies where such a pattern finds it as soon as it is
/// stored, stays there whatever is stored after it, and is among the payloads
/// found for the pattern.
pub proof fn lemma_wildcard_finds_all(
    t: TreeView,
    a: AtomView,
    v: u64,
    b: AtomView,
    w: u64,
    p: AtomView,
)
    requires
        key_stack(a).len() <= usize::MAX,
        key_stack(p) == seq![IndexKeyView::Wildcard],
    ensures
        top_held(spec_add_atom(t, a, v), v),
        top_held(t, v) ==> top_held(spec_add_atom(t, b, w), v),
        top_held(t, v) ==> spec_get_atom(t, p).contains(v),
{
    lemma_add_top(t, a, v);
    if top_held(t, v) {
        let keys2 = key_stack(b);
        if keys2.len() <= usize::MAX {
            lemma_add_keeps_top(t, keys2, keys2.len(), w, v);
        }
        let keys = key_stack(p);
        let i = choose|i: int|
            0 <= i < t.next.len() && !((#[trigger] t.next[i]).0 is ExpressionEnd)
                && t.next[i].1.leaf.contains(v);
        assert(spec_get(t.next[i].1, keys, 0) == t.next[i].1.leaf);
        lemma_fan_holds(t.next, t.next.len(), false, keys, 0, i, v);
    }
}

} // verus!
