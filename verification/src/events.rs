//! Application events: which created components listen to an event type,
//! and the default publisher's index of listeners by event type.
use crate::container::{cached, ComponentContainer};
use crate::freeze_cell::{after_freeze, after_take, readable, CellState, FreezeCell};
use crate::index::{distinct_keys, find_key, key_position, lemma_key_position};
use std::any::TypeId;
use vstd::prelude::*;

verus! {

/// A type's registration as listener of an event type: each created
/// component of type `impl_type_id` that has a trait object for
/// `listener_trait_type_id` listens to events of type `event_type_id`.
#[derive(Clone, Copy)]
pub struct EventListenerRegistration {
    pub event_type_id: TypeId,
    pub listener_trait_type_id: TypeId,
    pub impl_type_id: TypeId,
}

/// The trait objects of the listening components named `names` for the
/// listener trait `tr`, tagged with the registration `reg`, skipping names
/// without one.
pub open spec fn targets_of_names<E>(c: Seq<(TypeId, Seq<char>, E)>, reg: int, tr: TypeId, names: Seq<Seq<char>>) -> Seq<(usize, E)>
    decreases names.len(),
{
    if names.len() == 0 {
        Seq::empty()
    } else {
        let rest = targets_of_names(c, reg, tr, names.drop_last());
        match cached(c, tr, names.last()) {
            Some(e) => rest.push((reg as usize, e)),
            None => rest,
        }
    }
}

/// All listening trait objects, registration by registration, each
/// registration's components in creation order.
pub open spec fn listener_targets_spec<V, E>(
    container: ComponentContainer<V, E>,
    regs: Seq<EventListenerRegistration>,
) -> Seq<(usize, E)>
    decreases regs.len(),
{
    if regs.len() == 0 {
        Seq::empty()
    } else {
        let k = regs.len() - 1;
        listener_targets_spec(container, regs.drop_last()) + targets_of_names(
            container.trait_objects(),
            k,
            regs[k].listener_trait_type_id,
            container.names_of_type(regs[k].impl_type_id),
        )
    }
}

/// The listening trait objects of the created components, each with the
/// position of its registration (whose adapter turns it into a listener).
pub fn listener_targets<'a, V, E>(
    container: &'a ComponentContainer<V, E>,
    regs: &Vec<EventListenerRegistration>,
) -> (r: Vec<(usize, &'a E)>)
    requires
        container.wf(),
    ensures
        r@.len() == listener_targets_spec(*container, regs@).len(),
        forall|k: int|
            0 <= k < r@.len() ==> r@[k].0 == (#[trigger] listener_targets_spec(*container, regs@)[k]).0 && *r@[k].1
                == listener_targets_spec(*container, regs@)[k].1,
{
    let mut out: Vec<(usize, &'a E)> = Vec::new();
    let mut i: usize = 0;
    while i < regs.len()
        invariant
            i <= regs@.len(),
            container.wf(),
            out@.len() == listener_targets_spec(*container, regs@.subrange(0, i as int)).len(),
            forall|k: int|
                0 <= k < out@.len() ==> out@[k].0 == (#[trigger] listener_targets_spec(*container, regs@.subrange(0, i as int))[k]).0
                    && *out@[k].1 == listener_targets_spec(*container, regs@.subrange(0, i as int))[k].1,
        decreases regs@.len() - i,
    {
        let reg = regs[i];
        let ghost pre = regs@.subrange(0, i as int);
        let ghost pre2 = regs@.subrange(0, i + 1);
        assert(pre2.drop_last() == pre);
        assert(pre2[i as int] == reg);
        let ghost base = out@;
        let ghost base_spec = listener_targets_spec(*container, pre);
        let names = container.get_component_names_by_type(&reg.impl_type_id);
        let ghost nv = names.deep_view();
        let mut j: usize = 0;
        while j < names.len()
            invariant
                j <= names@.len(),
                container.wf(),
                nv == names.deep_view(),
                nv == container.names_of_type(reg.impl_type_id),
                base.len() == base_spec.len(),
                out@.len() == base.len() + targets_of_names(container.trait_objects(), i as int, reg.listener_trait_type_id, nv.subrange(0, j as int)).len(),
                forall|k: int| 0 <= k < base.len() ==> out@[k] == base[k],
                forall|k: int|
                    0 <= k < out@.len() - base.len() ==> out@[base.len() + k].0 == (#[trigger] targets_of_names(
                        container.trait_objects(),
                        i as int,
                        reg.listener_trait_type_id,
                        nv.subrange(0, j as int),
                    )[k]).0 && *out@[base.len() + k].1 == targets_of_names(
                        container.trait_objects(),
                        i as int,
                        reg.listener_trait_type_id,
                        nv.subrange(0, j as int),
                    )[k].1,
            decreases names@.len() - j,
        {
            let ghost sub = nv.subrange(0, j as int);
            let ghost sub2 = nv.subrange(0, j + 1);
            assert(sub2.drop_last() == sub);
            assert(sub2.last() == names@[j as int]@);
            let ghost before = out@;
            match container.get_component_by_trait_and_name(&reg.listener_trait_type_id, &names[j], "") {
                Ok(e) => {
                    out.push((i, e));
                    assert forall|k: int|
                        0 <= k < out@.len() - base.len() implies out@[base.len() + k].0 == (#[trigger] targets_of_names(
                            container.trait_objects(),
                            i as int,
                            reg.listener_trait_type_id,
                            sub2,
                        )[k]).0 && *out@[base.len() + k].1 == targets_of_names(
                            container.trait_objects(),
                            i as int,
                            reg.listener_trait_type_id,
                            sub2,
                        )[k].1 by {
                        if base.len() + k < before.len() {
                            assert(out@[base.len() + k] == before[base.len() + k]);
                        }
                    }
                },
                Err(_) => {},
            }
            j = j + 1;
        }
        assert(nv.subrange(0, j as int) == nv);
        assert forall|k: int|
            0 <= k < out@.len() implies out@[k].0 == (#[trigger] listener_targets_spec(*container, pre2)[k]).0 && *out@[k].1
                == listener_targets_spec(*container, pre2)[k].1 by {
            let t = targets_of_names(container.trait_objects(), i as int, reg.listener_trait_type_id, nv);
            assert(listener_targets_spec(*container, pre2) == base_spec + t);
            if k >= base.len() {
                assert(t[k - base.len()] == (base_spec + t)[k]);
            } else {
                assert(out@[k] == base[k]);
            }
        }
        i = i + 1;
    }
    assert(regs@.subrange(0, i as int) == regs@);
    out
}

/// The items listed under `t` in an index of lists (none when absent).
pub open spec fn indexed_list<L>(idx: Seq<(TypeId, Vec<L>)>, t: TypeId) -> Seq<L> {
    match key_position(idx, t) {
        Some(p) => idx[p].1@,
        None => Seq::empty(),
    }
}

/// Appends `item` to the list of `t`.
fn index_push<L>(idx: &mut Vec<(TypeId, Vec<L>)>, t: TypeId, item: L)
    requires
        distinct_keys(old(idx)@),
    ensures
        distinct_keys(final(idx)@),
        forall|u: TypeId|
            #[trigger] indexed_list(final(idx)@, u) == if u == t {
                indexed_list(old(idx)@, u).push(item)
            } else {
                indexed_list(old(idx)@, u)
            },
{
    let ghost before = idx@;
    proof {
        lemma_key_position(before, t);
    }
    match find_key(idx, &t) {
        Some(p) => {
            let (key, mut list) = idx.remove(p);
            list.push(item);
            idx.insert(p, (key, list));
            assert(idx@ =~= before.update(p as int, (t, list)));
            assert(distinct_keys(idx@)) by {
                assert forall|a: int, b: int| 0 <= a < idx@.len() && 0 <= b < idx@.len() && a != b implies #[trigger] idx@[a].0 != #[trigger] idx@[b].0 by {
                    assert(idx@[a].0 == before[a].0 && idx@[b].0 == before[b].0);
                }
            }
            assert forall|u: TypeId| #[trigger] indexed_list(idx@, u) == if u == t {
                indexed_list(before, u).push(item)
            } else {
                indexed_list(before, u)
            } by {
                lemma_key_position(idx@, u);
                lemma_key_position(before, u);
                if u == t {
                    assert(idx@[p as int].0 == t);
                    assert(before[p as int].0 == t);
                    assert(key_position(idx@, u) == Some(p as int));
                    assert(key_position(before, u) == Some(p as int));
                } else {
                    assert(key_position(idx@, u) == key_position(before, u)) by {
                        if key_position(before, u) is Some {
                            let q = key_position(before, u)->0;
                            assert(idx@[q].0 == u);
                        } else {
                            assert(forall|i: int| 0 <= i < idx@.len() ==> idx@[i].0 == before[i].0);
                        }
                    }
                    if key_position(before, u) is Some {
                        let q = key_position(before, u)->0;
                        assert(q != p);
                        assert(idx@[q] == before[q]);
                    }
                }
            }
        },
        None => {
            let mut list: Vec<L> = Vec::new();
            list.push(item);
            idx.push((t, list));
            assert(forall|i: int| 0 <= i < before.len() ==> #[trigger] idx@[i] == before[i]);
            assert(distinct_keys(idx@)) by {
                assert forall|a: int, b: int| 0 <= a < idx@.len() && 0 <= b < idx@.len() && a != b implies #[trigger] idx@[a].0 != #[trigger] idx@[b].0 by {
                    if a == before.len() {
                        assert(idx@[b] == before[b]);
                    } else if b == before.len() {
                        assert(idx@[a] == before[a]);
                    } else {
                        assert(idx@[a] == before[a] && idx@[b] == before[b]);
                    }
                }
            }
            assert forall|u: TypeId| #[trigger] indexed_list(idx@, u) == if u == t {
                indexed_list(before, u).push(item)
            } else {
                indexed_list(before, u)
            } by {
                lemma_key_position(idx@, u);
                lemma_key_position(before, u);
                if u == t {
                    assert(idx@[before.len() as int].0 == t);
                    assert(key_position(idx@, u) == Some(before.len() as int));
                    assert(idx@[before.len() as int].1@ =~= seq![item]);
                    assert(indexed_list(before, u) =~= Seq::<L>::empty());
                } else {
                    assert(key_position(idx@, u) == key_position(before, u)) by {
                        if key_position(before, u) is Some {
                            let q = key_position(before, u)->0;
                            assert(idx@[q].0 == u);
                        }
                        if exists|i: int| 0 <= i < idx@.len() && #[trigger] idx@[i].0 == u {
                            let q = choose|i: int| 0 <= i < idx@.len() && #[trigger] idx@[i].0 == u;
                            assert(q < before.len());
                            assert(before[q].0 == u);
                        }
                    }
                    if key_position(before, u) is Some {
                        let q = key_position(before, u)->0;
                        assert(idx@[q] == before[q]);
                    }
                }
            }
        },
    }
}

/// Listeners grouped by event type, each group in the order added.
pub struct ListenerIndex<L> {
    entries: Vec<(TypeId, Vec<L>)>,
}

impl<L> ListenerIndex<L> {
    #[verifier::type_invariant]
    spec fn keys_distinct(&self) -> bool {
        distinct_keys(self.entries@)
    }

    /// The listeners of events of type `t`, in the order added.
    pub closed spec fn listeners_of(&self, t: TypeId) -> Seq<L> {
        indexed_list(self.entries@, t)
    }

    /// An index without listeners.
    pub fn new() -> (r: Self)
        ensures
            forall|t: TypeId| #[trigger] r.listeners_of(t) == Seq::<L>::empty(),
    {
        ListenerIndex { entries: Vec::new() }
    }

    /// Adds a listener of events of type `event_type`.
    pub fn add(&mut self, event_type: TypeId, listener: L)
        ensures
            forall|t: TypeId|
                #[trigger] final(self).listeners_of(t) == if t == event_type {
                    old(self).listeners_of(t).push(listener)
                } else {
                    old(self).listeners_of(t)
                },
    {
        proof {
            use_type_invariant(&*self);
        }
        let mut entries: Vec<(TypeId, Vec<L>)> = Vec::new();
        std::mem::swap(&mut entries, &mut self.entries);
        index_push(&mut entries, event_type, listener);
        self.entries = entries;
    }

    /// The listeners of events of type `event_type`, if any was added.
    pub fn listeners_for(&self, event_type: &TypeId) -> (r: Option<&Vec<L>>)
        ensures
            match r {
                Some(v) => v@ == self.listeners_of(*event_type) && v@.len() > 0,
                None => self.listeners_of(*event_type).len() == 0,
            },
    {
        proof {
            use_type_invariant(self);
        }
        match find_key(&self.entries, event_type) {
            Some(p) => {
                proof {
                    lemma_key_position(self.entries@, *event_type);
                }
                if self.entries[p].1.len() == 0 {
                    None
                } else {
                    Some(&self.entries[p].1)
                }
            },
            None => None,
        }
    }
}

/// The default event publisher's listeners: collected while building,
/// frozen when all components are ready, emptied before they are destroyed.
pub struct DefaultEventPublisher<L> {
    listeners: FreezeCell<ListenerIndex<L>>,
}

impl<L> DefaultEventPublisher<L> {
    /// Phase of the listener index.
    pub closed spec fn phase(&self) -> CellState {
        self.listeners@.0
    }

    /// Whether the index is present (it is gone after `clear`).
    pub closed spec fn present(&self) -> bool {
        self.listeners@.1 is Some
    }

    /// The listeners of events of type `t`.
    pub closed spec fn listeners_of(&self, t: TypeId) -> Seq<L> {
        match self.listeners@.1 {
            Some(ix) => ix.listeners_of(t),
            None => Seq::empty(),
        }
    }

    /// A publisher collecting listeners.
    pub fn new() -> (r: Self)
        ensures
            r.phase() == CellState::Building,
            r.present(),
            forall|t: TypeId| #[trigger] r.listeners_of(t) == Seq::<L>::empty(),
    {
        DefaultEventPublisher { listeners: FreezeCell::new(ListenerIndex::new()) }
    }

    /// Adds a listener while collecting; once frozen (or emptied), nothing
    /// changes and `false` is returned.
    pub fn add_listener(&mut self, event_type: TypeId, listener: L) -> (r: bool)
        ensures
            r == (old(self).phase() == CellState::Building && old(self).present()),
            final(self).phase() == old(self).phase(),
            final(self).present() == old(self).present(),
            forall|t: TypeId|
                #[trigger] final(self).listeners_of(t) == if r && t == event_type {
                    old(self).listeners_of(t).push(listener)
                } else {
                    old(self).listeners_of(t)
                },
    {
        match self.listeners.get_mut() {
            Some(ix) => {
                ix.add(event_type, listener);
                true
            },
            None => false,
        }
    }

    /// Whether the listeners are frozen.
    pub fn is_frozen(&self) -> (r: bool)
        ensures
            r == (self.phase() == CellState::Ready),
    {
        match self.listeners.state() {
            CellState::Ready => true,
            CellState::Building => false,
        }
    }

    /// Freezes the listeners: from now on they are read-only and visible to
    /// every publisher. The listeners are frozen once.
    pub fn freeze(&mut self)
        requires
            old(self).phase() == CellState::Building,
        ensures
            final(self).phase() == CellState::Ready,
            final(self).present() == old(self).present(),
            forall|t: TypeId| #[trigger] final(self).listeners_of(t) == old(self).listeners_of(t),
    {
        self.listeners.freeze();
    }

    /// Drops the listeners of a frozen publisher.
    pub fn clear(&mut self)
        ensures
            old(self).phase() == CellState::Ready ==> !final(self).present() && final(self).phase()
                == CellState::Building,
            old(self).phase() != CellState::Ready ==> final(self).present() == old(self).present() && forall|t: TypeId|
                #[trigger] final(self).listeners_of(t) == old(self).listeners_of(t),
    {
        self.listeners.clear();
    }

    /// The listeners an event of type `event_type` goes to: none until the
    /// publisher is frozen (except for the assembly task), none once emptied.
    pub fn listeners_for(&self, event_type: &TypeId, in_assembly: bool) -> (r: Option<&Vec<L>>)
        ensures
            match r {
                Some(v) => readable(self.phase(), in_assembly) && v@ == self.listeners_of(*event_type) && v@.len() > 0,
                None => !readable(self.phase(), in_assembly) || self.listeners_of(*event_type).len() == 0,
            },
    {
        match self.listeners.get(in_assembly) {
            Some(ix) => ix.listeners_for(event_type),
            None => None,
        }
    }
}

/// Every name of `names` that has a trait object for `tr` gives a target,
/// tagged with `reg`, carrying that trait object.
proof fn lemma_named_target<E>(c: Seq<(TypeId, Seq<char>, E)>, reg: int, tr: TypeId, names: Seq<Seq<char>>, i: int, e: E)
    requires
        0 <= i < names.len(),
        cached(c, tr, names[i]) == Some(e),
    ensures
        targets_of_names(c, reg, tr, names).contains((reg as usize, e)),
    decreases names.len(),
{
    let rest = targets_of_names(c, reg, tr, names.drop_last());
    if i == names.len() - 1 {
        assert(targets_of_names(c, reg, tr, names) == rest.push((reg as usize, e)));
        assert(targets_of_names(c, reg, tr, names)[rest.len() as int] == (reg as usize, e));
    } else {
        assert(names.drop_last()[i] == names[i]);
        lemma_named_target(c, reg, tr, names.drop_last(), i, e);
        let j = choose|j: int| 0 <= j < rest.len() && rest[j] == (reg as usize, e);
        match cached(c, tr, names.last()) {
            Some(x) => assert(targets_of_names(c, reg, tr, names)[j] == rest[j]),
            None => {},
        }
    }
}

/// Every created component of a registration's type that has a trait
/// object for the registration's listener trait is among the listener
/// targets, tagged with the registration and carrying that trait object:
/// no listening component is skipped.
pub proof fn law_every_listening_component_is_a_target<V, E>(
    container: ComponentContainer<V, E>,
    regs: Seq<EventListenerRegistration>,
    k: int,
    i: int,
    e: E,
)
    requires
        0 <= k < regs.len(),
        0 <= i < container.names_of_type(regs[k].impl_type_id).len(),
        cached(container.trait_objects(), regs[k].listener_trait_type_id, container.names_of_type(regs[k].impl_type_id)[i])
            == Some(e),
    ensures
        listener_targets_spec(container, regs).contains((k as usize, e)),
    decreases regs.len(),
{
    let last = regs.len() - 1;
    let front = listener_targets_spec(container, regs.drop_last());
    let own = targets_of_names(
        container.trait_objects(),
        last,
        regs[last].listener_trait_type_id,
        container.names_of_type(regs[last].impl_type_id),
    );
    assert(listener_targets_spec(container, regs) == front + own);
    if k == last {
        lemma_named_target(
            container.trait_objects(),
            last,
            regs[last].listener_trait_type_id,
            container.names_of_type(regs[last].impl_type_id),
            i,
            e,
        );
        let j = choose|j: int| 0 <= j < own.len() && own[j] == (k as usize, e);
        assert((front + own)[front.len() + j] == own[j]);
    } else {
        assert(regs.drop_last()[k] == regs[k]);
        law_every_listening_component_is_a_target(container, regs.drop_last(), k, i, e);
        let j = choose|j: int| 0 <= j < front.len() && front[j] == (k as usize, e);
        assert((front + own)[j] == front[j]);
    }
}

/// Each target of `names` is tagged `reg` and carries the trait object of
/// one of the names.
proof fn lemma_target_named<E>(c: Seq<(TypeId, Seq<char>, E)>, reg: int, tr: TypeId, names: Seq<Seq<char>>, j: int)
    requires
        0 <= j < targets_of_names(c, reg, tr, names).len(),
    ensures
        targets_of_names(c, reg, tr, names)[j].0 == reg as usize,
        exists|i: int| 0 <= i < names.len() && cached(c, tr, #[trigger] names[i]) == Some(targets_of_names(c, reg, tr, names)[j].1),
    decreases names.len(),
{
    let rest = targets_of_names(c, reg, tr, names.drop_last());
    let t = targets_of_names(c, reg, tr, names)[j];
    if j < rest.len() {
        match cached(c, tr, names.last()) {
            Some(x) => assert(targets_of_names(c, reg, tr, names)[j] == rest[j]),
            None => {},
        }
        lemma_target_named(c, reg, tr, names.drop_last(), j);
        let i = choose|i: int| 0 <= i < names.drop_last().len() && cached(c, tr, #[trigger] names.drop_last()[i]) == Some(rest[j].1);
        assert(names.drop_last()[i] == names[i]);
    } else {
        let i = names.len() - 1;
        assert(cached(c, tr, names[i]) == Some(t.1));
    }
}

/// Every listener target comes from a registration and from a created
/// component of its type, carrying that component's trait object for the
/// registration's listener trait.
pub proof fn law_every_target_is_a_listening_component<V, E>(
    container: ComponentContainer<V, E>,
    regs: Seq<EventListenerRegistration>,
    j: int,
)
    requires
        regs.len() <= usize::MAX,
        0 <= j < listener_targets_spec(container, regs).len(),
    ensures
        ({
            let (k, e) = listener_targets_spec(container, regs)[j];
            &&& k < regs.len()
            &&& exists|i: int|
                0 <= i < container.names_of_type(regs[k as int].impl_type_id).len() && cached(
                    container.trait_objects(),
                    regs[k as int].listener_trait_type_id,
                    #[trigger] container.names_of_type(regs[k as int].impl_type_id)[i],
                ) == Some(e)
        }),
    decreases regs.len(),
{
    let last = regs.len() - 1;
    let front = listener_targets_spec(container, regs.drop_last());
    let own = targets_of_names(
        container.trait_objects(),
        last,
        regs[last].listener_trait_type_id,
        container.names_of_type(regs[last].impl_type_id),
    );
    assert(listener_targets_spec(container, regs) == front + own);
    if j < front.len() {
        assert((front + own)[j] == front[j]);
        law_every_target_is_a_listening_component(container, regs.drop_last(), j);
        let k = front[j].0;
        let e = front[j].1;
        assert(regs.drop_last()[k as int] == regs[k as int]);
        let ns = container.names_of_type(regs[k as int].impl_type_id);
        let i = choose|i: int|
            0 <= i < container.names_of_type(regs.drop_last()[k as int].impl_type_id).len() && cached(
                container.trait_objects(),
                regs.drop_last()[k as int].listener_trait_type_id,
                #[trigger] container.names_of_type(regs.drop_last()[k as int].impl_type_id)[i],
            ) == Some(e);
        assert(cached(container.trait_objects(), regs[k as int].listener_trait_type_id, ns[i]) == Some(e));
    } else {
        assert((front + own)[j] == own[j - front.len()]);
        lemma_target_named(
            container.trait_objects(),
            last,
            regs[last].listener_trait_type_id,
            container.names_of_type(regs[last].impl_type_id),
            j - front.len(),
        );
        let e = own[j - front.len()].1;
        let ns = container.names_of_type(regs[last].impl_type_id);
        let i = choose|i: int| 0 <= i < ns.len() && cached(container.trait_objects(), regs[last].listener_trait_type_id, #[trigger] ns[i]) == Some(e);
        assert(own[j - front.len()].0 == last as usize);
        assert(last as usize == last);
        assert(cached(container.trait_objects(), regs[last].listener_trait_type_id, ns[i]) == Some(e));
    }
}

} // verus!
