//! The atom space: an ordered collection of atoms with its term index and its
//! observers, and the queries on it.

use crate::atom::{atom_eq, atoms_view, clone_atom, clone_atoms, Atom, AtomView, GroundedAtom};
use crate::bindings::{
    apply_bindings_to_atom, apply_bindings_to_bindings, spec_apply_to_bindings, subst, Bindings,
    BindingsView,
};
use crate::index::{
    empty_tree, spec_add_atom, spec_get_atom, spec_remove_atom, IndexTree, TreeView,
};
use crate::atom::max_var_id;
use crate::matcher::{
    bindings_views, fits, fresh_shift, is_conjunction, pairs_view, query_bounded, spec_match_atoms,
    spec_query, spec_single_query, spec_unify_atoms, unify_atoms, Unifications,
    CONJUNCTION_DEPTH,
};
use vstd::prelude::*;
use vstd::std_specs::cmp::PartialEqSpecImpl;

verus! {

broadcast use vstd::std_specs::vec::group_vec_axioms;

/// Mathematical model of an event.
pub ghost enum EventView {
    Add(AtomView),
    Remove(AtomView),
    Replace(AtomView, AtomView),
}

/// What happened to a space.
#[derive(Debug)]
pub enum SpaceEvent {
    /// The atom was added to the space.
    Add(Atom),
    /// The atom was removed from the space.
    Remove(Atom),
    /// The first atom was replaced by the second one.
    Replace(Atom, Atom),
}

impl View for SpaceEvent {
    type V = EventView;

    open spec fn view(&self) -> EventView {
        match self {
            SpaceEvent::Add(a) => EventView::Add(a@),
            SpaceEvent::Remove(a) => EventView::Remove(a@),
            SpaceEvent::Replace(a, b) => EventView::Replace(a@, b@),
        }
    }
}

impl Clone for SpaceEvent {
    fn clone(&self) -> (r: Self)
        ensures
            r@ == self@,
    {
        match self {
            SpaceEvent::Add(a) => SpaceEvent::Add(clone_atom(a)),
            SpaceEvent::Remove(a) => SpaceEvent::Remove(clone_atom(a)),
            SpaceEvent::Replace(a, b) => SpaceEvent::Replace(clone_atom(a), clone_atom(b)),
        }
    }
}

impl PartialEq for SpaceEvent {
    fn eq(&self, other: &Self) -> (r: bool) {
        match (self, other) {
            (SpaceEvent::Add(a), SpaceEvent::Add(b)) => atom_eq(a, b),
            (SpaceEvent::Remove(a), SpaceEvent::Remove(b)) => atom_eq(a, b),
            (SpaceEvent::Replace(a, b), SpaceEvent::Replace(c, d)) => atom_eq(a, c) && atom_eq(
                b,
                d,
            ),
            _ => false,
        }
    }
}

impl PartialEqSpecImpl for SpaceEvent {
    open spec fn obeys_eq_spec() -> bool {
        true
    }

    open spec fn eq_spec(&self, other: &Self) -> bool {
        self@ == other@
    }
}

/// The models of a list of events.
pub open spec fn events_view(v: Seq<SpaceEvent>) -> Seq<EventView> {
    Seq::new(v.len(), |i: int| v[i]@)
}

/// Someone who is told of what happens to a space.
pub trait SpaceObserver {
    /// Takes note of one event.
    fn notify(&mut self, event: &SpaceEvent);
}

/// Mathematical model of a registered observer: its handle, whether its
/// holder still lives, and the events that wait to be handed to it.
pub ghost struct ObserverView {
    pub id: u64,
    pub alive: bool,
    pub pending: Seq<EventView>,
}

/// A registered observer, as the space knows it.
#[derive(Debug)]
pub struct ObserverSlot {
    id: u64,
    alive: bool,
    pending: Vec<SpaceEvent>,
}

impl View for ObserverSlot {
    type V = ObserverView;

    closed spec fn view(&self) -> ObserverView {
        ObserverView { id: self.id, alive: self.alive, pending: events_view(self.pending@) }
    }
}

/// The models of a list of observers.
pub open spec fn observers_view(v: Seq<ObserverSlot>) -> Seq<ObserverView> {
    Seq::new(v.len(), |i: int| v[i]@)
}

/// The observers after an event: those whose holder lives, in their order,
/// each with the event put last among those that wait for it. Observers whose
/// holder is gone are dropped.
pub open spec fn notified(obs: Seq<ObserverView>, e: EventView) -> Seq<ObserverView>
    decreases obs.len(),
{
    if obs.len() == 0 {
        Seq::empty()
    } else {
        let rest = notified(obs.drop_last(), e);
        let o = obs.last();
        if o.alive {
            rest.push(ObserverView { pending: o.pending.push(e), ..o })
        } else {
            rest
        }
    }
}

/// Tells the observers of an event.
pub fn notify_all(observers: &mut Vec<ObserverSlot>, event: &SpaceEvent)
    ensures
        observers_view(final(observers)@) == notified(observers_view(old(observers)@), event@),
{
    let ghost start = observers_view(observers@);
    let ghost done: int = 0;
    let mut i: usize = 0;
    assert(observers_view(observers@).take(0) =~= notified(start.take(0), event@));
    assert(observers_view(observers@).skip(0) =~= start.skip(0));
    while i < observers.len()
        invariant
            i <= observers.len(),
            0 <= done <= start.len(),
            start == observers_view(old(observers)@),
            observers.len() - i == start.len() - done,
            observers_view(observers@).take(i as int) == notified(start.take(done), event@),
            observers_view(observers@).skip(i as int) == start.skip(done),
        decreases observers.len() - i,
    {
        let ghost before = observers_view(observers@);
        proof {
            assert(before.skip(i as int)[0] == start.skip(done)[0]);
            assert(before[i as int] == start[done]);
            assert(start.take(done + 1).drop_last() =~= start.take(done));
            assert(start.take(done + 1).last() == start[done]);
        }
        if observers[i].alive {
            observers[i].pending.push(event.clone());
            proof {
                let after = observers_view(observers@);
                let o = start[done];
                assert(after[i as int] == ObserverView { pending: o.pending.push(event@), ..o })
                    by {
                    assert(after[i as int].pending =~= o.pending.push(event@));
                }
                assert(after.take(i + 1) =~= before.take(i as int).push(after[i as int]));
                assert(after.skip(i + 1) =~= before.skip(i as int).skip(1));
                assert(start.skip(done + 1) =~= start.skip(done).skip(1));
                done = done + 1;
            }
            i += 1;
        } else {
            observers.remove(i);
            proof {
                let after = observers_view(observers@);
                assert(after.take(i as int) =~= before.take(i as int));
                assert(after.skip(i as int) =~= before.skip(i as int).skip(1));
                assert(start.skip(done + 1) =~= start.skip(done).skip(1));
                done = done + 1;
            }
        }
    }
    proof {
        assert(observers_view(observers@).take(i as int) =~= observers_view(observers@));
        assert(start.take(done) =~= start);
    }
}

/// Mathematical model of a space.
pub ghost struct SpaceView {
    /// The atoms, in the order in which they were added.
    pub content: Seq<AtomView>,
    /// The payload under which each atom of the content is indexed.
    pub ids: Seq<u64>,
    /// The payload that the next atom gets.
    pub next_id: u64,
    /// The term index.
    pub index: TreeView,
    /// The registered observers, in the order in which they registered.
    pub observers: Seq<ObserverView>,
    /// The handle that the next observer gets.
    pub next_observer: u64,
}

/// A space that holds atoms in memory.
#[derive(Debug)]
pub struct GroundingSpace {
    content: Vec<Atom>,
    ids: Vec<u64>,
    next_id: u64,
    index: IndexTree,
    observers: Vec<ObserverSlot>,
    next_observer: u64,
}

impl View for GroundingSpace {
    type V = SpaceView;

    closed spec fn view(&self) -> SpaceView {
        SpaceView {
            content: atoms_view(self.content@),
            ids: self.ids@,
            next_id: self.next_id,
            index: self.index@,
            observers: observers_view(self.observers@),
            next_observer: self.next_observer,
        }
    }
}

/// The number after `n`, starting over after the greatest.
pub open spec fn next_number(n: u64) -> u64 {
    if n == u64::MAX {
        0
    } else {
        (n + 1) as u64
    }
}

/// The space that holds nothing and has no observer.
pub open spec fn empty_space() -> SpaceView {
    SpaceView {
        content: Seq::empty(),
        ids: Seq::empty(),
        next_id: 0,
        index: empty_tree(),
        observers: Seq::empty(),
        next_observer: 0,
    }
}

/// The space with the atom put last and indexed, its observers left as they
/// are.
pub open spec fn stored(v: SpaceView, a: AtomView) -> SpaceView {
    SpaceView {
        content: v.content.push(a),
        ids: v.ids.push(v.next_id),
        next_id: next_number(v.next_id),
        index: spec_add_atom(v.index, a, v.next_id),
        ..v
    }
}

/// The space with each of the atoms stored, in order.
pub open spec fn stored_all(v: SpaceView, atoms: Seq<AtomView>) -> SpaceView
    decreases atoms.len(),
{
    if atoms.len() == 0 {
        v
    } else {
        stored(stored_all(v, atoms.drop_last()), atoms.last())
    }
}

/// The place of the first atom from `start` on that equals `a`.
pub open spec fn first_from(content: Seq<AtomView>, a: AtomView, start: nat) -> Option<int>
    decreases content.len() - start,
{
    if start >= content.len() {
        None
    } else if content[start as int] == a {
        Some(start as int)
    } else {
        first_from(content, a, start + 1)
    }
}

/// The place of the first atom that equals `a`.
pub open spec fn position_of(content: Seq<AtomView>, a: AtomView) -> Option<int> {
    first_from(content, a, 0)
}

/// The space after `add`.
pub open spec fn spec_add(v: SpaceView, a: AtomView) -> SpaceView {
    SpaceView { observers: notified(v.observers, EventView::Add(a)), ..stored(v, a) }
}

/// The space after `remove`, and what `remove` returns: the first atom that
/// equals `a` is taken out of the content and of the index, and the observers
/// are told; a space without such an atom stays as it is.
pub open spec fn spec_remove(v: SpaceView, a: AtomView) -> (SpaceView, bool) {
    match position_of(v.content, a) {
        Some(i) => (
            SpaceView {
                content: v.content.remove(i),
                ids: v.ids.remove(i),
                index: spec_remove_atom(v.index, a, v.ids[i]).0,
                observers: notified(v.observers, EventView::Remove(a)),
                ..v
            },
            true,
        ),
        None => (v, false),
    }
}

/// The space after `replace`, and what `replace` returns: the first atom that
/// equals `from` gives its place and its payload to `to`, and the observers
/// are told; a space without such an atom stays as it is.
pub open spec fn spec_replace(v: SpaceView, from: AtomView, to: AtomView) -> (SpaceView, bool) {
    match position_of(v.content, from) {
        Some(i) => (
            SpaceView {
                content: v.content.update(i, to),
                index: spec_add_atom(spec_remove_atom(v.index, from, v.ids[i]).0, to, v.ids[i]),
                observers: notified(v.observers, EventView::Replace(from, to)),
                ..v
            },
            true,
        ),
        None => (v, false),
    }
}

/// What `first_from` finds is a place of the atom, at or after `start`.
pub proof fn lemma_first_from(content: Seq<AtomView>, a: AtomView, start: nat)
    ensures
        match first_from(content, a, start) {
            Some(i) => start <= i < content.len() && content[i] == a && forall|j: int|
                start <= j < i ==> content[j] != a,
            None => forall|j: int| start <= j < content.len() ==> content[j] != a,
        },
    decreases content.len() - start,
{
    if start < content.len() && content[start as int] != a {
        lemma_first_from(content, a, start + 1);
    }
}

impl GroundingSpace {
    /// The invariant of the type: each atom of the content has its payload.
    pub closed spec fn wf(&self) -> bool {
        self.content.len() == self.ids.len()
    }

    /// The space that holds nothing and has no observer.
    pub fn new() -> (r: Self)
        ensures
            r@ == empty_space(),
            r.wf(),
    {
        let r = GroundingSpace {
            content: Vec::new(),
            ids: Vec::new(),
            next_id: 0,
            index: IndexTree::new(),
            observers: Vec::new(),
            next_observer: 0,
        };
        assert(r@.content =~= Seq::empty());
        assert(r@.observers =~= Seq::empty());
        r
    }

    /// The space that holds the given atoms, in their order, and has no
    /// observer.
    pub fn from_vec(atoms: Vec<Atom>) -> (r: Self)
        ensures
            r@ == stored_all(empty_space(), atoms_view(atoms@)),
            r@.content == atoms_view(atoms@),
            r.wf(),
    {
        let ghost av = atoms_view(atoms@);
        let mut ids: Vec<u64> = Vec::new();
        let mut index = IndexTree::new();
        let mut next_id: u64 = 0;
        let mut i: usize = 0;
        let ghost none = Seq::<ObserverView>::empty();
        assert(av.take(0) =~= Seq::empty());
        while i < atoms.len()
            invariant
                i <= atoms.len(),
                av == atoms_view(atoms@),
                ids.len() == i,
                none == Seq::<ObserverView>::empty(),
                stored_all(empty_space(), av.take(i as int)) == (SpaceView {
                    content: av.take(i as int),
                    ids: ids@,
                    next_id,
                    index: index@,
                    observers: none,
                    next_observer: 0,
                }),
            decreases atoms.len() - i,
        {
            proof {
                assert(av.take(i + 1).drop_last() =~= av.take(i as int));
                assert(av.take(i + 1).last() == av[i as int]);
                assert(av.take(i + 1) =~= av.take(i as int).push(av[i as int]));
            }
            index.add(&atoms[i], next_id);
            ids.push(next_id);
            next_id = if next_id == u64::MAX {
                0
            } else {
                next_id + 1
            };
            i += 1;
        }
        proof {
            assert(av.take(atoms.len() as int) =~= av);
        }
        let r = GroundingSpace {
            content: atoms,
            ids,
            next_id,
            index,
            observers: Vec::new(),
            next_observer: 0,
        };
        assert(r@.observers =~= none);
        r
    }

    /// The place of the first atom that equals `atom`.
    fn position(&self, atom: &Atom) -> (r: Option<usize>)
        ensures
            match r {
                Some(i) => position_of(self@.content, atom@) == Some(i as int) && i
                    < self.content.len(),
                None => position_of(self@.content, atom@) is None,
            },
    {
        let ghost cv = atoms_view(self.content@);
        let mut i: usize = 0;
        while i < self.content.len()
            invariant
                i <= self.content.len(),
                cv == atoms_view(self.content@),
                first_from(cv, atom@, 0) == first_from(cv, atom@, i as nat),
            decreases self.content.len() - i,
        {
            if atom_eq(&self.content[i], atom) {
                return Some(i);
            }
            i += 1;
        }
        None
    }

    /// Puts the atom last in the space, indexes it and tells the observers.
    pub fn add(&mut self, atom: Atom)
        requires
            old(self).wf(),
        ensures
            final(self).wf(),
            final(self)@ == spec_add(old(self)@, atom@),
    {
        let event = SpaceEvent::Add(clone_atom(&atom));
        let id = self.next_id;
        let ghost c0 = self.content@;
        self.index.add(&atom, id);
        self.ids.push(id);
        self.content.push(atom);
        self.next_id = if id == u64::MAX {
            0
        } else {
            id + 1
        };
        notify_all(&mut self.observers, &event);
        assert(atoms_view(self.content@) =~= atoms_view(c0).push(atom@));
    }

    /// Takes the first atom that equals `atom` out of the space and of its
    /// index, and tells the observers. Returns whether there was one.
    pub fn remove(&mut self, atom: &Atom) -> (r: bool)
        requires
            old(self).wf(),
        ensures
            final(self).wf(),
            (final(self)@, r) == spec_remove(old(self)@, atom@),
    {
        match self.position(atom) {
            Some(i) => {
                let ghost c0 = self.content@;
                self.content.remove(i);
                let id = self.ids.remove(i);
                self.index.remove(atom, &id);
                let event = SpaceEvent::Remove(clone_atom(atom));
                notify_all(&mut self.observers, &event);
                assert(atoms_view(self.content@) =~= atoms_view(c0).remove(i as int));
                true
            },
            None => false,
        }
    }

    /// Puts `to` in the place of the first atom that equals `from`, in the
    /// space and in its index, and tells the observers. Returns whether there
    /// was such an atom; where there was none, `to` is not added.
    pub fn replace(&mut self, from: &Atom, to: Atom) -> (r: bool)
        requires
            old(self).wf(),
        ensures
            final(self).wf(),
            (final(self)@, r) == spec_replace(old(self)@, from@, to@),
    {
        match self.position(from) {
            Some(i) => {
                let ghost c0 = self.content@;
                let id = self.ids[i];
                self.index.remove(from, &id);
                self.index.add(&to, id);
                let event = SpaceEvent::Replace(clone_atom(from), clone_atom(&to));
                self.content.set(i, to);
                notify_all(&mut self.observers, &event);
                assert(atoms_view(self.content@) =~= atoms_view(c0).update(i as int, to@));
                true
            },
            None => false,
        }
    }

    /// The atoms of the space, in the order in which they were added.
    pub fn content(&self) -> (r: &Vec<Atom>)
        ensures
            atoms_view(r@) == self@.content,
    {
        &self.content
    }

    /// The atoms of the space, in the order in which they were added.
    pub fn into_vec(self) -> (r: Vec<Atom>)
        ensures
            atoms_view(r@) == self@.content,
    {
        clone_atoms(&self.content)
    }

    /// The content of the space as a grounded value, which matches by
    /// querying that content.
    pub fn into_grounded(self) -> (r: GroundedAtom)
        ensures
            r@ == crate::atom::GroundedView::Space(self@.content),
    {
        GroundedAtom::Space(clone_atoms(&self.content))
    }

    /// The payloads under which the index holds atoms that the pattern may
    /// match.
    pub fn candidates(&self, pattern: &Atom) -> (r: Vec<u64>)
        ensures
            r@ == spec_get_atom(self@.index, pattern@),
    {
        self.index.get(pattern)
    }
}

impl Clone for GroundingSpace {
    /// A copy of the content and of the index. The observers are not copied.
    fn clone(&self) -> (r: Self)
        ensures
            r@ == (SpaceView { observers: Seq::empty(), ..self@ }),
            r.wf() == self.wf(),
    {
        let mut ids: Vec<u64> = Vec::new();
        let mut i: usize = 0;
        while i < self.ids.len()
            invariant
                i <= self.ids.len(),
                ids@ == self.ids@.take(i as int),
            decreases self.ids.len() - i,
        {
            ids.push(self.ids[i]);
            assert(ids@ =~= self.ids@.take(i + 1));
            i += 1;
        }
        assert(self.ids@.take(self.ids.len() as int) =~= self.ids@);
        let content = clone_atoms(&self.content);
        assert(atoms_view(content@).len() == content.len());
        let r = GroundingSpace {
            content,
            ids,
            next_id: self.next_id,
            index: self.index.clone(),
            observers: Vec::new(),
            next_observer: self.next_observer,
        };
        assert(r@.observers =~= Seq::empty());
        r
    }
}

impl PartialEq for GroundingSpace {
    fn eq(&self, other: &Self) -> (r: bool) {
        crate::atom::atoms_eq(&self.content, &other.content)
    }
}

impl PartialEqSpecImpl for GroundingSpace {
    open spec fn obeys_eq_spec() -> bool {
        true
    }

    open spec fn eq_spec(&self, other: &Self) -> bool {
        self@.content == other@.content
    }
}

/// The template with each of the bindings applied to it.
pub open spec fn subst_each(rs: Seq<BindingsView>, template: AtomView) -> Seq<AtomView> {
    Seq::new(rs.len(), |i: int| subst(template, rs[i]))
}

/// The models of a list of outcomes of `unify`.
pub open spec fn unified_view(v: Seq<(Bindings, Unifications)>) -> Seq<
    (BindingsView, Seq<(AtomView, AtomView)>),
> {
    Seq::new(v.len(), |i: int| (v[i].0@, pairs_view(v[i].1@)))
}

/// What `unify` gives for the content: for each atom that unifies with the
/// pattern, in order, the pattern's bindings with the data's bindings applied
/// to them, and the pairs left over. An atom for which that application is
/// refused gives nothing.
pub open spec fn spec_unify(content: Seq<AtomView>, pattern: AtomView) -> Seq<
    (BindingsView, Seq<(AtomView, AtomView)>),
>
    decreases content.len(),
{
    if content.len() == 0 {
        Seq::empty()
    } else {
        let rest = spec_unify(content.drop_last(), pattern);
        match spec_unify_atoms(content.last(), pattern) {
            Some(u) => match spec_apply_to_bindings(u.data_bindings, u.pattern_bindings) {
                Ok(b) => rest.push((b, u.unifications)),
                Err(_) => rest,
            },
            None => rest,
        }
    }
}

/// The observers with those of the handle `id` marked as left by their
/// holder.
pub open spec fn released(obs: Seq<ObserverView>, id: u64) -> Seq<ObserverView> {
    Seq::new(
        obs.len(),
        |i: int|
            if obs[i].id == id {
                ObserverView { alive: false, ..obs[i] }
            } else {
                obs[i]
            },
    )
}

/// The place of the first observer from `start` on that has the handle.
pub open spec fn observer_from(obs: Seq<ObserverView>, id: u64, start: nat) -> Option<int>
    decreases obs.len() - start,
{
    if start >= obs.len() {
        None
    } else if obs[start as int].id == id {
        Some(start as int)
    } else {
        observer_from(obs, id, start + 1)
    }
}

/// The events that wait for the observer of the handle `id`; none where no
/// observer has it.
pub open spec fn pending_of(obs: Seq<ObserverView>, id: u64) -> Seq<EventView> {
    match observer_from(obs, id, 0) {
        Some(i) => obs[i].pending,
        None => Seq::empty(),
    }
}

/// The observers after the events that wait for the observer of the handle
/// `id` were taken.
pub open spec fn taken(obs: Seq<ObserverView>, id: u64) -> Seq<ObserverView> {
    match observer_from(obs, id, 0) {
        Some(i) => obs.update(i, ObserverView { pending: Seq::empty(), ..obs[i] }),
        None => obs,
    }
}

impl GroundingSpace {
    /// Registers an observer and returns its handle. From now on each event
    /// waits for it until it is taken.
    pub fn register_observer(&mut self) -> (id: u64)
        requires
            old(self).wf(),
        ensures
            final(self).wf(),
            id == old(self)@.next_observer,
            final(self)@ == (SpaceView {
                observers: old(self)@.observers.push(
                    ObserverView { id, alive: true, pending: Seq::empty() },
                ),
                next_observer: next_number(id),
                ..old(self)@
            }),
    {
        let id = self.next_observer;
        let ghost o0 = self.observers@;
        self.observers.push(ObserverSlot { id, alive: true, pending: Vec::new() });
        self.next_observer = if id == u64::MAX {
            0
        } else {
            id + 1
        };
        proof {
            let slot = self.observers@[o0.len() as int];
            assert(slot@.pending =~= Seq::empty());
            assert(observers_view(self.observers@) =~= observers_view(o0).push(
                ObserverView { id, alive: true, pending: Seq::empty() },
            ));
        }
        id
    }

    /// Notes that the holder of the observer is gone. The observer is told
    /// nothing more, and leaves the space with the next event.
    pub fn release_observer(&mut self, id: u64)
        requires
            old(self).wf(),
        ensures
            final(self).wf(),
            final(self)@ == (SpaceView {
                observers: released(old(self)@.observers, id),
                ..old(self)@
            }),
    {
        let ghost start = observers_view(self.observers@);
        let mut i: usize = 0;
        while i < self.observers.len()
            invariant
                i <= self.observers.len(),
                self.observers.len() == start.len(),
                start == old(self)@.observers,
                self.content == old(self).content,
                self.ids == old(self).ids,
                self.index == old(self).index,
                self.next_id == old(self).next_id,
                self.next_observer == old(self).next_observer,
                forall|j: int|
                    0 <= j < i ==> (#[trigger] self.observers@[j])@ == released(start, id)[j],
                forall|j: int|
                    i <= j < start.len() ==> (#[trigger] self.observers@[j])@ == start[j],
            decreases self.observers.len() - i,
        {
            if self.observers[i].id == id {
                self.observers[i].alive = false;
            }
            i += 1;
        }
        assert(observers_view(self.observers@) =~= released(start, id));
    }

    /// The number of observers that the space knows.
    pub fn observer_count(&self) -> (r: usize)
        ensures
            r == self@.observers.len(),
    {
        self.observers.len()
    }

    /// Takes the events that wait for the observer of the handle `id`, in the
    /// order in which they happened.
    pub fn take_events(&mut self, id: u64) -> (r: Vec<SpaceEvent>)
        requires
            old(self).wf(),
        ensures
            final(self).wf(),
            events_view(r@) == pending_of(old(self)@.observers, id),
            final(self)@ == (SpaceView {
                observers: taken(old(self)@.observers, id),
                ..old(self)@
            }),
    {
        let ghost start = observers_view(self.observers@);
        let mut i: usize = 0;
        while i < self.observers.len()
            invariant
                i <= self.observers.len(),
                *self == *old(self),
                self.wf(),
                start == observers_view(self.observers@),
                observer_from(start, id, 0) == observer_from(start, id, i as nat),
            decreases self.observers.len() - i,
        {
            if self.observers[i].id == id {
                let mut events: Vec<SpaceEvent> = Vec::new();
                core::mem::swap(&mut events, &mut self.observers[i].pending);
                proof {
                    let o = start[i as int];
                    assert(self.observers@[i as int]@.pending =~= Seq::empty());
                    assert(observers_view(self.observers@) =~= start.update(
                        i as int,
                        ObserverView { pending: Seq::empty(), ..o },
                    ));
                }
                return events;
            }
            i += 1;
        }
        let r: Vec<SpaceEvent> = Vec::new();
        assert(events_view(r@) =~= Seq::empty());
        r
    }

    /// Hands the events that wait for the observer of the handle `id` to
    /// `observer`, one by one in the order in which they happened.
    pub fn deliver<O: SpaceObserver>(&mut self, id: u64, observer: &mut O)
        requires
            old(self).wf(),
        ensures
            final(self).wf(),
            final(self)@ == (SpaceView {
                observers: taken(old(self)@.observers, id),
                ..old(self)@
            }),
    {
        let events = self.take_events(id);
        let mut i: usize = 0;
        while i < events.len()
            invariant
                i <= events.len(),
            decreases events.len() - i,
        {
            observer.notify(&events[i]);
            i += 1;
        }
    }

    /// The bindings under which the query holds in the space. A query headed
    /// by the symbol `,` is a conjunction of its sub-queries; each result
    /// binds variables of the query.
    pub fn query(&self, query: &Atom) -> (r: Vec<Bindings>)
        ensures
            bindings_views(r@) == spec_query(self@.content, query@, CONJUNCTION_DEPTH as nat, 0),
    {
        query_bounded(&self.content, query, CONJUNCTION_DEPTH, 0)
    }

    /// The bindings under which the query, taken as one pattern, matches an
    /// atom of the space.
    pub fn single_query(&self, query: &Atom) -> (r: Vec<Bindings>)
        ensures
            bindings_views(r@) == spec_single_query(self@.content, query@, 0),
    {
        crate::matcher::single_query(&self.content, query, 0)
    }

    /// The template with the bindings of each result of the query `pattern`
    /// applied to it, in the order of the results.
    pub fn subst(&self, pattern: &Atom, template: &Atom) -> (r: Vec<Atom>)
        ensures
            atoms_view(r@) == subst_each(
                spec_query(self@.content, pattern@, CONJUNCTION_DEPTH as nat, 0),
                template@,
            ),
    {
        let found = self.query(pattern);
        let mut r: Vec<Atom> = Vec::new();
        let mut i: usize = 0;
        while i < found.len()
            invariant
                i <= found.len(),
                r.len() == i,
                forall|j: int| 0 <= j < i ==> (#[trigger] r@[j])@ == subst(template@, found@[j]@),
            decreases found.len() - i,
        {
            r.push(apply_bindings_to_atom(template, &found[i]));
            i += 1;
        }
        assert(atoms_view(r@) =~= subst_each(bindings_views(found@), template@));
        r
    }

    /// Unifies the pattern with each atom of the space: variables on either
    /// side may be bound.
    pub fn unify(&self, pattern: &Atom) -> (r: Vec<(Bindings, Unifications)>)
        ensures
            unified_view(r@) == spec_unify(self@.content, pattern@),
    {
        let ghost cv = atoms_view(self.content@);
        let mut r: Vec<(Bindings, Unifications)> = Vec::new();
        let mut i: usize = 0;
        assert(unified_view(r@) =~= spec_unify(cv.take(0), pattern@));
        while i < self.content.len()
            invariant
                i <= self.content.len(),
                cv == atoms_view(self.content@),
                unified_view(r@) == spec_unify(cv.take(i as int), pattern@),
            decreases self.content.len() - i,
        {
            proof {
                assert(cv.take(i + 1).drop_last() =~= cv.take(i as int));
                assert(cv.take(i + 1).last() == cv[i as int]);
            }
            match unify_atoms(&self.content[i], pattern) {
                Some(res) => {
                    match apply_bindings_to_bindings(&res.data_bindings, &res.pattern_bindings) {
                        Ok(bindings) => {
                            let ghost r0 = r@;
                            let ghost item = (bindings@, pairs_view(res.unifications@));
                            r.push((bindings, res.unifications));
                            assert(unified_view(r@) =~= unified_view(r0).push(item));
                        },
                        Err(_) => {},
                    }
                },
                None => {},
            }
            i += 1;
        }
        assert(cv.take(self.content.len() as int) =~= cv);
        r
    }
}

/// Adding an atom and then removing it leaves the content as it was, and
/// the removal says that it took an atom. This holds where every atom of the
/// space that comes after an atom equal to the one added equals it too: with
/// another atom behind an equal one, the removal takes the first of the equal
/// atoms and the one added stays last, behind that other atom.
pub proof fn lemma_add_then_remove(v: SpaceView, a: AtomView)
    requires
        forall|i: int, j: int|
            0 <= i <= j < v.content.len() && v.content[i] == a ==> v.content[j] == a,
    ensures
        spec_remove(spec_add(v, a), a).1,
        spec_remove(spec_add(v, a), a).0.content == v.content,
{
    let c = v.content;
    let c1 = c.push(a);
    lemma_first_from(c1, a, 0);
    assert(c1[c.len() as int] == a);
    let p = position_of(c1, a).unwrap();
    assert forall|k: int| 0 <= k < c.len() implies #[trigger] c1.remove(p)[k] == c[k] by {
        if k >= p {
            assert(c1[p] == a);
            if p < c.len() {
                assert(c[p] == a);
                assert(c[k] == a);
                if k + 1 < c.len() {
                    assert(c[k + 1] == a);
                }
            }
        }
    }
    assert(c1.remove(p) =~= c);
}

/// A change that is asked of a space.
pub ghost enum Mutation {
    Add(AtomView),
    Remove(AtomView),
    Replace(AtomView, AtomView),
}

/// The space after the change.
pub open spec fn mutated(v: SpaceView, m: Mutation) -> SpaceView {
    match m {
        Mutation::Add(a) => spec_add(v, a),
        Mutation::Remove(a) => spec_remove(v, a).0,
        Mutation::Replace(from, to) => spec_replace(v, from, to).0,
    }
}

/// The event of the change: adding always has one, removing and replacing
/// where the space holds the atom to take.
pub open spec fn event_of(v: SpaceView, m: Mutation) -> Seq<EventView> {
    match m {
        Mutation::Add(a) => seq![EventView::Add(a)],
        Mutation::Remove(a) => if position_of(v.content, a) is Some {
            seq![EventView::Remove(a)]
        } else {
            Seq::empty()
        },
        Mutation::Replace(from, to) => if position_of(v.content, from) is Some {
            seq![EventView::Replace(from, to)]
        } else {
            Seq::empty()
        },
    }
}

/// The space after the changes, made in order.
pub open spec fn mutated_all(v: SpaceView, ms: Seq<Mutation>) -> SpaceView
    decreases ms.len(),
{
    if ms.len() == 0 {
        v
    } else {
        mutated(mutated_all(v, ms.drop_last()), ms.last())
    }
}

/// The events of the changes, made in order.
pub open spec fn events_of(v: SpaceView, ms: Seq<Mutation>) -> Seq<EventView>
    decreases ms.len(),
{
    if ms.len() == 0 {
        Seq::empty()
    } else {
        events_of(v, ms.drop_last()) + event_of(mutated_all(v, ms.drop_last()), ms.last())
    }
}

/// The holders of all the observers live.
pub open spec fn all_alive(obs: Seq<ObserverView>) -> bool {
    forall|i: int| 0 <= i < obs.len() ==> (#[trigger] obs[i]).alive
}

/// The observers with the events put last among those that wait for each.
pub open spec fn with_events(obs: Seq<ObserverView>, es: Seq<EventView>) -> Seq<ObserverView> {
    Seq::new(obs.len(), |i: int| ObserverView { pending: obs[i].pending + es, ..obs[i] })
}

/// Where all holders live, an event is put last for each observer and no
/// observer is dropped.
pub proof fn lemma_notified_alive(obs: Seq<ObserverView>, e: EventView)
    requires
        all_alive(obs),
    ensures
        notified(obs, e) == with_events(obs, seq![e]),
    decreases obs.len(),
{
    if obs.len() > 0 {
        let rest = obs.drop_last();
        assert(all_alive(rest)) by {
            assert forall|i: int| 0 <= i < rest.len() implies (#[trigger] rest[i]).alive by {
                assert(obs[i].alive);
            }
        }
        lemma_notified_alive(rest, e);
        let o = obs.last();
        assert(obs[obs.len() - 1].alive);
        assert(o.pending.push(e) =~= o.pending + seq![e]);
        assert(notified(obs, e) =~= with_events(obs, seq![e]));
    } else {
        assert(notified(obs, e) =~= with_events(obs, seq![e]));
    }
}

/// What waits for an observer mirrors the changes: after changes made in
/// order, each observer whose holder lives has, behind what waited for it
/// before, exactly the events of those changes, in their order.
pub proof fn lemma_observers_mirror(v: SpaceView, ms: Seq<Mutation>)
    requires
        all_alive(v.observers),
    ensures
        mutated_all(v, ms).observers == with_events(v.observers, events_of(v, ms)),
    decreases ms.len(),
{
    if ms.len() == 0 {
        assert(with_events(v.observers, Seq::empty()) =~= v.observers) by {
            assert forall|i: int| 0 <= i < v.observers.len() implies #[trigger] with_events(
                v.observers,
                Seq::empty(),
            )[i] == v.observers[i] by {
                assert(v.observers[i].pending + Seq::<EventView>::empty()
                    =~= v.observers[i].pending);
            }
        }
    } else {
        let before = ms.drop_last();
        lemma_observers_mirror(v, before);
        let w = mutated_all(v, before);
        let es = events_of(v, before);
        let e = event_of(w, ms.last());
        assert(all_alive(w.observers));
        if e.len() == 1 {
            lemma_notified_alive(w.observers, e[0]);
            assert(e =~= seq![e[0]]);
            assert(mutated(w, ms.last()).observers == with_events(w.observers, e));
        } else {
            assert(e =~= Seq::empty());
            assert(mutated(w, ms.last()).observers == w.observers);
        }
        assert(with_events(with_events(v.observers, es), e) =~= with_events(
            v.observers,
            es + e,
        )) by {
            assert forall|i: int| 0 <= i < v.observers.len() implies #[trigger] with_events(
                with_events(v.observers, es),
                e,
            )[i] == with_events(v.observers, es + e)[i] by {
                assert((v.observers[i].pending + es) + e =~= v.observers[i].pending + (es + e));
            }
        }
        if e.len() == 0 {
            assert(es + e =~= es);
        }
    }
}

/// An atom of the space that the query matches gives its bindings to the
/// results of a query without conjunction: where the variables of the atom
/// can be moved above those of the query, whatever the query binds in
/// matching that atom is among the results.
pub proof fn lemma_single_query_complete(
    content: Seq<AtomView>,
    q: AtomView,
    i: int,
    b: BindingsView,
    floor: nat,
)
    requires
        0 <= i < content.len(),
        fits(content[i], q, floor),
        spec_match_atoms(
            content[i],
            fresh_shift(q, floor),
            q,
            fresh_shift(q, floor) + max_var_id(content[i]),
        ).contains(b),
    ensures
        spec_single_query(content, q, floor).contains(b),
        !is_conjunction(q) ==> spec_query(content, q, CONJUNCTION_DEPTH as nat, floor).contains(b),
    decreases content.len(),
{
    let rest = spec_single_query(content.drop_last(), q, floor);
    let c = content.last();
    let found = spec_match_atoms(
        c,
        fresh_shift(q, floor),
        q,
        fresh_shift(q, floor) + max_var_id(c),
    );
    if i == content.len() - 1 {
        let k = choose|k: int| 0 <= k < found.len() && found[k] == b;
        assert((rest + found)[rest.len() + k] == b);
    } else {
        lemma_single_query_complete(content.drop_last(), q, i, b, floor);
        let k = choose|k: int| 0 <= k < rest.len() && rest[k] == b;
        if fits(c, q, floor) {
            assert((rest + found)[k] == b);
        }
    }
}

/// The results of a query are those of the content alone: two spaces that
/// hold the same atoms in the same order answer a query alike, whatever their
/// observers and however often they are asked. The variables that the results
/// take from the content carry freshness counters that the query and the
/// content fix.
pub proof fn lemma_query_repeatable(a: SpaceView, b: SpaceView, q: AtomView)
    requires
        a.content == b.content,
    ensures
        spec_query(a.content, q, CONJUNCTION_DEPTH as nat, 0) == spec_query(
            b.content,
            q,
            CONJUNCTION_DEPTH as nat,
            0,
        ),
{
}

} // verus!
