//! Registration records and the indexes built from them.
use crate::type_key::same_type;
use std::any::TypeId;
use vstd::prelude::*;

verus! {

/// A type implements an injectable trait (`impl Trait for Type` registered
/// with the framework).
#[derive(Debug, Clone, Copy)]
pub struct TraitImplRegistration {
    /// Identity of `dyn Trait`.
    pub trait_type_id: TypeId,
    /// Identity of the implementing type.
    pub impl_type_id: TypeId,
}

/// The component named `name` is the primary instance of its type.
#[derive(Debug)]
pub struct PrimaryRegistration {
    pub type_id: TypeId,
    pub name: String,
}

/// Names of the components of type `t`, in registration order.
pub open spec fn names_of_type(comps: Seq<(String, TypeId)>, t: TypeId) -> Seq<Seq<char>>
    decreases comps.len(),
{
    if comps.len() == 0 {
        Seq::empty()
    } else {
        let rest = names_of_type(comps.drop_last(), t);
        if comps.last().1 == t {
            rest.push(comps.last().0@)
        } else {
            rest
        }
    }
}

/// Implementing types registered for trait `tr`, in registration order.
pub open spec fn impls_of_trait(regs: Seq<TraitImplRegistration>, tr: TypeId) -> Seq<TypeId>
    decreases regs.len(),
{
    if regs.len() == 0 {
        Seq::empty()
    } else {
        let rest = impls_of_trait(regs.drop_last(), tr);
        if regs.last().trait_type_id == tr {
            rest.push(regs.last().impl_type_id)
        } else {
            rest
        }
    }
}

/// Positions in `ids` that hold `t`, in increasing order.
pub open spec fn positions_of(ids: Seq<TypeId>, t: TypeId) -> Seq<usize>
    decreases ids.len(),
{
    if ids.len() == 0 {
        Seq::empty()
    } else {
        let rest = positions_of(ids.drop_last(), t);
        if ids.last() == t {
            rest.push((ids.len() - 1) as usize)
        } else {
            rest
        }
    }
}

/// The registrations made for one concrete type: the positions of the
/// implementing-type identities equal to `t`, in registration order (so
/// that a created component gets each of its trait objects, and each of its
/// container-wide callbacks, from its own registrations only).
pub fn positions_of_type(ids: &Vec<TypeId>, t: &TypeId) -> (r: Vec<usize>)
    ensures
        r@ == positions_of(ids@, *t),
{
    let mut r: Vec<usize> = Vec::new();
    let mut k: usize = 0;
    while k < ids.len()
        invariant
            k <= ids@.len(),
            r@ == positions_of(ids@.take(k as int), *t),
        decreases ids@.len() - k,
    {
        assert(ids@.take(k + 1).drop_last() == ids@.take(k as int));
        if same_type(&ids[k], t) {
            r.push(k);
        }
        k = k + 1;
    }
    assert(ids@.take(k as int) == ids@);
    r
}

/// Keys of an index occur at most once.
pub open spec fn distinct_keys<V>(idx: Seq<(TypeId, V)>) -> bool {
    forall|i: int, j: int| 0 <= i < idx.len() && 0 <= j < idx.len() && i != j ==> #[trigger] idx[i].0 != #[trigger] idx[j].0
}

/// Position of key `t` in the index, if present.
pub open spec fn key_position<V>(idx: Seq<(TypeId, V)>, t: TypeId) -> Option<int> {
    if exists|i: int| 0 <= i < idx.len() && #[trigger] idx[i].0 == t {
        Some(choose|i: int| 0 <= i < idx.len() && #[trigger] idx[i].0 == t)
    } else {
        None
    }
}

/// The names the type index lists under `t` (none when `t` is absent).
pub open spec fn indexed_names(idx: Seq<(TypeId, Vec<String>)>, t: TypeId) -> Seq<Seq<char>> {
    match key_position(idx, t) {
        Some(i) => idx[i].1.deep_view(),
        None => Seq::empty(),
    }
}

/// The types the trait index lists under `tr` (none when `tr` is absent).
pub open spec fn indexed_types(idx: Seq<(TypeId, Vec<TypeId>)>, tr: TypeId) -> Seq<TypeId> {
    match key_position(idx, tr) {
        Some(i) => idx[i].1@,
        None => Seq::empty(),
    }
}

/// With distinct keys, the position of a key is where it occurs.
pub proof fn lemma_key_position<V>(idx: Seq<(TypeId, V)>, t: TypeId)
    requires
        distinct_keys(idx),
    ensures
        forall|i: int| 0 <= i < idx.len() && idx[i].0 == t ==> key_position(idx, t) == Some(i),
        (forall|i: int| 0 <= i < idx.len() ==> idx[i].0 != t) ==> key_position(idx, t) is None,
        key_position(idx, t) matches Some(i) ==> 0 <= i < idx.len() && idx[i].0 == t,
{
    if exists|i: int| 0 <= i < idx.len() && #[trigger] idx[i].0 == t {
        let c = choose|i: int| 0 <= i < idx.len() && #[trigger] idx[i].0 == t;
        assert forall|i: int| 0 <= i < idx.len() && idx[i].0 == t implies key_position(idx, t) == Some(i) by {
            if i != c {
                assert(idx[i].0 != idx[c].0);
            }
        }
    }
}

/// Position of key `t` in an index.
pub fn find_key<V>(idx: &Vec<(TypeId, V)>, t: &TypeId) -> (r: Option<usize>)
    requires
        distinct_keys(idx@),
    ensures
        match r {
            Some(i) => key_position(idx@, *t) == Some(i as int),
            None => key_position(idx@, *t) is None,
        },
{
    let mut i: usize = 0;
    while i < idx.len()
        invariant
            i <= idx@.len(),
            distinct_keys(idx@),
            forall|j: int| 0 <= j < i ==> #[trigger] idx@[j].0 != *t,
        decreases idx@.len() - i,
    {
        if same_type(&idx[i].0, t) {
            proof {
                lemma_key_position(idx@, *t);
            }
            return Some(i);
        }
        i = i + 1;
    }
    proof {
        lemma_key_position(idx@, *t);
    }
    None
}

/// Groups component names by type: each type maps to the names of its
/// components in registration order.
pub fn build_component_indexes(comps: &Vec<(String, TypeId)>) -> (r: (Vec<String>, Vec<(TypeId, Vec<String>)>))
    ensures
        r.0.deep_view() =~= comps@.map_values(|c: (String, TypeId)| c.0@),
        distinct_keys(r.1@),
        forall|t: TypeId| #[trigger] indexed_names(r.1@, t) == names_of_type(comps@, t),
        forall|i: int| #![trigger r.1@[i]] 0 <= i < r.1@.len() ==> r.1@[i].1@.len() > 0,
{
    let mut names: Vec<String> = Vec::new();
    let mut index: Vec<(TypeId, Vec<String>)> = Vec::new();
    let mut k: usize = 0;
    while k < comps.len()
        invariant
            k <= comps@.len(),
            names.deep_view() =~= comps@.subrange(0, k as int).map_values(|c: (String, TypeId)| c.0@),
            distinct_keys(index@),
            forall|t: TypeId| #[trigger] indexed_names(index@, t) == names_of_type(comps@.subrange(0, k as int), t),
            forall|i: int| #![trigger index@[i]] 0 <= i < index@.len() ==> index@[i].1@.len() > 0,
        decreases comps@.len() - k,
    {
        let name = comps[k].0.clone();
        let t = comps[k].1;
        let ghost pre = comps@.subrange(0, k as int);
        let ghost pre2 = comps@.subrange(0, k + 1);
        assert(pre2.drop_last() == pre);
        assert(pre2.last() == comps@[k as int]);
        let ghost names_before = names.deep_view();
        names.push(name.clone());
        assert(names.deep_view() =~= names_before.push(name@));
        let ghost before = index@;
        match find_key(&index, &t) {
            Some(p) => {
                let mut moved: Vec<String> = Vec::new();
                std::mem::swap(&mut moved, &mut index[p].1);
                let ghost old_list = moved.deep_view();
                assert(old_list == before[p as int].1.deep_view());
                moved.push(name);
                assert(moved.deep_view() =~= old_list.push(comps@[k as int].0@));
                std::mem::swap(&mut moved, &mut index[p].1);
                assert(forall|i: int| 0 <= i < index@.len() ==> #[trigger] index@[i].0 == before[i].0);
                assert(forall|i: int| 0 <= i < index@.len() && i != p ==> #[trigger] index@[i] == before[i]);
                assert(distinct_keys(index@));
                assert forall|u: TypeId| #[trigger] indexed_names(index@, u) == names_of_type(pre2, u) by {
                    lemma_key_position(index@, u);
                    lemma_key_position(before, u);
                    assert(names_of_type(pre2, u) == if comps@[k as int].1 == u { names_of_type(pre, u).push(comps@[k as int].0@) } else { names_of_type(pre, u) });
                    assert(indexed_names(before, u) == names_of_type(pre, u));
                    if u == t {
                        assert(key_position(index@, u) == Some(p as int));
                        assert(key_position(before, u) == Some(p as int));
                    } else {
                        assert(key_position(index@, u) == key_position(before, u)) by {
                            if key_position(before, u) is Some {
                                let q = key_position(before, u)->0;
                                assert(index@[q].0 == u);
                            } else {
                                assert(forall|i: int| 0 <= i < index@.len() ==> index@[i].0 != u);
                            }
                        }
                    }
                }
                assert forall|i: int| #![trigger index@[i]] 0 <= i < index@.len() implies index@[i].1@.len() > 0 by {
                    if i != p {
                        assert(index@[i] == before[i]);
                    }
                }
            },
            None => {
                let mut list: Vec<String> = Vec::new();
                list.push(name);
                index.push((t, list));
                assert(forall|i: int| 0 <= i < before.len() ==> #[trigger] index@[i] == before[i]);
                proof {
                    lemma_key_position(before, t);
                }
                assert(distinct_keys(index@)) by {
                    assert forall|a: int, b: int| 0 <= a < index@.len() && 0 <= b < index@.len() && a != b implies #[trigger] index@[a].0 != #[trigger] index@[b].0 by {
                        if a == before.len() {
                            assert(index@[b] == before[b]);
                        } else if b == before.len() {
                            assert(index@[a] == before[a]);
                        } else {
                            assert(index@[a] == before[a] && index@[b] == before[b]);
                        }
                    }
                }
                assert forall|u: TypeId| #[trigger] indexed_names(index@, u) == names_of_type(pre2, u) by {
                    lemma_key_position(index@, u);
                    lemma_key_position(before, u);
                    assert(names_of_type(pre2, u) == if comps@[k as int].1 == u { names_of_type(pre, u).push(comps@[k as int].0@) } else { names_of_type(pre, u) });
                    assert(indexed_names(before, u) == names_of_type(pre, u));
                    if u == t {
                        assert(index@[before.len() as int].0 == t);
                        assert(key_position(index@, u) == Some(before.len() as int));
                        assert(names_of_type(pre, u) == indexed_names(before, u));
                        assert(index@[before.len() as int].1.deep_view() =~= seq![comps@[k as int].0@]);
                    } else {
                        assert(key_position(index@, u) == key_position(before, u)) by {
                            if key_position(before, u) is Some {
                                let q = key_position(before, u)->0;
                                assert(index@[q].0 == u);
                            }
                            if exists|i: int| 0 <= i < index@.len() && #[trigger] index@[i].0 == u {
                                let q = choose|i: int| 0 <= i < index@.len() && #[trigger] index@[i].0 == u;
                                assert(q < before.len());
                                assert(before[q].0 == u);
                            }
                        }
                    }
                }
            },
        }
        k = k + 1;
    }
    assert(comps@.subrange(0, k as int) == comps@);
    (names, index)
}


/// Groups registered trait implementations by trait: each trait maps to its
/// implementing types in registration order.
pub fn build_trait_impl_index(regs: &Vec<TraitImplRegistration>) -> (index: Vec<(TypeId, Vec<TypeId>)>)
    ensures
        distinct_keys(index@),
        forall|tr: TypeId| #[trigger] indexed_types(index@, tr) == impls_of_trait(regs@, tr),
{
    let mut index: Vec<(TypeId, Vec<TypeId>)> = Vec::new();
    let mut k: usize = 0;
    while k < regs.len()
        invariant
            k <= regs@.len(),
            distinct_keys(index@),
            forall|tr: TypeId| #[trigger] indexed_types(index@, tr) == impls_of_trait(regs@.subrange(0, k as int), tr),
        decreases regs@.len() - k,
    {
        let tr = regs[k].trait_type_id;
        let it = regs[k].impl_type_id;
        let ghost pre = regs@.subrange(0, k as int);
        let ghost pre2 = regs@.subrange(0, k + 1);
        assert(pre2.drop_last() == pre);
        assert(pre2.last() == regs@[k as int]);
        let ghost before = index@;
        match find_key(&index, &tr) {
            Some(p) => {
                let mut moved: Vec<TypeId> = Vec::new();
                std::mem::swap(&mut moved, &mut index[p].1);
                let ghost old_list = moved@;
                assert(old_list == before[p as int].1@);
                moved.push(it);
                std::mem::swap(&mut moved, &mut index[p].1);
                assert(forall|i: int| 0 <= i < index@.len() ==> #[trigger] index@[i].0 == before[i].0);
                assert(forall|i: int| 0 <= i < index@.len() && i != p ==> #[trigger] index@[i] == before[i]);
                assert(distinct_keys(index@));
                assert forall|u: TypeId| #[trigger] indexed_types(index@, u) == impls_of_trait(pre2, u) by {
                    lemma_key_position(index@, u);
                    lemma_key_position(before, u);
                    assert(impls_of_trait(pre2, u) == if regs@[k as int].trait_type_id == u { impls_of_trait(pre, u).push(regs@[k as int].impl_type_id) } else { impls_of_trait(pre, u) });
                    assert(indexed_types(before, u) == impls_of_trait(pre, u));
                    if u == tr {
                        assert(key_position(index@, u) == Some(p as int));
                        assert(key_position(before, u) == Some(p as int));
                    } else {
                        assert(key_position(index@, u) == key_position(before, u)) by {
                            if key_position(before, u) is Some {
                                let q = key_position(before, u)->0;
                                assert(index@[q].0 == u);
                            } else {
                                assert(forall|i: int| 0 <= i < index@.len() ==> index@[i].0 != u);
                            }
                        }
                    }
                }
            },
            None => {
                let mut list: Vec<TypeId> = Vec::new();
                list.push(it);
                index.push((tr, list));
                assert(forall|i: int| 0 <= i < before.len() ==> #[trigger] index@[i] == before[i]);
                proof {
                    lemma_key_position(before, tr);
                }
                assert(distinct_keys(index@)) by {
                    assert forall|a: int, b: int| 0 <= a < index@.len() && 0 <= b < index@.len() && a != b implies #[trigger] index@[a].0 != #[trigger] index@[b].0 by {
                        if a == before.len() {
                            assert(index@[b] == before[b]);
                        } else if b == before.len() {
                            assert(index@[a] == before[a]);
                        } else {
                            assert(index@[a] == before[a] && index@[b] == before[b]);
                        }
                    }
                }
                assert forall|u: TypeId| #[trigger] indexed_types(index@, u) == impls_of_trait(pre2, u) by {
                    lemma_key_position(index@, u);
                    lemma_key_position(before, u);
                    assert(impls_of_trait(pre2, u) == if regs@[k as int].trait_type_id == u { impls_of_trait(pre, u).push(regs@[k as int].impl_type_id) } else { impls_of_trait(pre, u) });
                    assert(indexed_types(before, u) == impls_of_trait(pre, u));
                    if u == tr {
                        assert(index@[before.len() as int].0 == tr);
                        assert(key_position(index@, u) == Some(before.len() as int));
                        assert(index@[before.len() as int].1@ =~= seq![it]);
                    } else {
                        assert(key_position(index@, u) == key_position(before, u)) by {
                            if key_position(before, u) is Some {
                                let q = key_position(before, u)->0;
                                assert(index@[q].0 == u);
                            }
                            if exists|i: int| 0 <= i < index@.len() && #[trigger] index@[i].0 == u {
                                let q = choose|i: int| 0 <= i < index@.len() && #[trigger] index@[i].0 == u;
                                assert(q < before.len());
                                assert(before[q].0 == u);
                            }
                        }
                    }
                }
            },
        }
        k = k + 1;
    }
    assert(regs@.subrange(0, k as int) == regs@);
    index
}

} // verus!
