//! The component container: the registered components with their instances,
//! the trait objects built from them, the name indexes by type and by trait,
//! the primary instance of each type, and the creation order.
//!
//! Instances (`V`) and trait objects (`E`) are opaque to the container; it
//! decides which one a lookup returns, or why none.
use crate::component_plan::indexed_primary;
use crate::index::{distinct_keys, find_key, indexed_names, key_position, lemma_key_position};
use crate::names::copy_names;
use crate::type_key::same_type;
use std::any::TypeId;
use vstd::prelude::*;

verus! {

/// Why a component lookup fails.
#[derive(Debug)]
pub enum ComponentError {
    /// No component of this name.
    NotFound { type_label: String, name: String },
    /// The component of this name is of another type.
    DowncastFailed { type_label: String, name: String },
    /// A component of this name is already registered.
    AlreadyExists { type_label: String, name: String },
    /// The component of this name is not created yet.
    NotInitialized { type_label: String, name: String },
    /// A broken internal invariant.
    InternalError { message: String },
    /// No created component implements the trait.
    TraitImplNotFound { trait_name: String },
    /// Several created components implement the trait.
    AmbiguousTraitImpl { trait_name: String, candidates: Vec<String> },
    /// Several components of the type, none under its default name.
    AmbiguousComponent { type_label: String, candidates: Vec<String> },
}

/// What a lookup by name finds.
pub enum Lookup<V> {
    Found(V),
    Missing,
    OtherType,
    NotCreated,
}

/// (name, type, instance) of each registered component.
pub open spec fn repository_view<V>(s: Seq<(String, TypeId, Option<V>)>) -> Seq<(Seq<char>, TypeId, Option<V>)> {
    s.map_values(|e: (String, TypeId, Option<V>)| (e.0@, e.1, e.2))
}

/// No name occurs twice.
pub open spec fn names_unique<V>(r: Seq<(Seq<char>, TypeId, Option<V>)>) -> bool {
    forall|i: int, j: int| 0 <= i < r.len() && 0 <= j < r.len() && i != j ==> #[trigger] r[i].0 != #[trigger] r[j].0
}

/// Position of the component named `n`.
pub open spec fn slot_position<V>(r: Seq<(Seq<char>, TypeId, Option<V>)>, n: Seq<char>) -> Option<int> {
    if exists|i: int| 0 <= i < r.len() && #[trigger] r[i].0 == n {
        Some(choose|i: int| 0 <= i < r.len() && #[trigger] r[i].0 == n)
    } else {
        None
    }
}

/// What a lookup of the name `n` for type `t` finds.
pub open spec fn lookup_by_name<V>(r: Seq<(Seq<char>, TypeId, Option<V>)>, n: Seq<char>, t: TypeId) -> Lookup<V> {
    match slot_position(r, n) {
        None => Lookup::Missing,
        Some(i) => if r[i].1 != t {
            Lookup::OtherType
        } else {
            match r[i].2 {
                None => Lookup::NotCreated,
                Some(v) => Lookup::Found(v),
            }
        },
    }
}

/// `r` is the answer to a lookup that found `l`.
pub open spec fn answers<V>(r: Result<&V, ComponentError>, l: Lookup<V>, type_label: Seq<char>, name: Seq<char>) -> bool {
    match l {
        Lookup::Found(v) => r matches Ok(x) && *x == v,
        Lookup::Missing => r matches Err(ComponentError::NotFound { type_label: a, name: b }) && a@ == type_label
            && b@ == name,
        Lookup::OtherType => r matches Err(ComponentError::DowncastFailed { type_label: a, name: b }) && a@
            == type_label && b@ == name,
        Lookup::NotCreated => r matches Err(ComponentError::NotInitialized { type_label: a, name: b }) && a@
            == type_label && b@ == name,
    }
}

/// (trait, name, trait object) of each cached trait object.
pub open spec fn cache_view<E>(s: Seq<(TypeId, String, E)>) -> Seq<(TypeId, Seq<char>, E)> {
    s.map_values(|e: (TypeId, String, E)| (e.0, e.1@, e.2))
}

/// No (trait, name) pair occurs twice.
pub open spec fn cache_keys_unique<E>(c: Seq<(TypeId, Seq<char>, E)>) -> bool {
    forall|i: int, j: int|
        0 <= i < c.len() && 0 <= j < c.len() && i != j ==> (#[trigger] c[i].0 != #[trigger] c[j].0 || c[i].1 != c[j].1)
}

/// The trait object cached for the trait `tr` and the component `n`.
pub open spec fn cached<E>(c: Seq<(TypeId, Seq<char>, E)>, tr: TypeId, n: Seq<char>) -> Option<E> {
    if exists|i: int| 0 <= i < c.len() && #[trigger] c[i].0 == tr && c[i].1 == n {
        Some(c[choose|i: int| 0 <= i < c.len() && #[trigger] c[i].0 == tr && c[i].1 == n].2)
    } else {
        None
    }
}

/// Names in the lists of an index are distinct.
pub open spec fn lists_unique(idx: Seq<(TypeId, Vec<String>)>) -> bool {
    forall|i: int| #![trigger idx[i]] 0 <= i < idx.len() ==> idx[i].1.deep_view().no_duplicates()
}

/// `r` is the answer to a lookup by type `t` whose default name is `short`,
/// where `names` are the created components of type `t`: the component
/// under the default name if there is one, else the only component of the
/// type; none or several are errors.
pub open spec fn resolves_by_type<V>(
    r: Result<&V, ComponentError>,
    repo: Seq<(Seq<char>, TypeId, Option<V>)>,
    names: Seq<Seq<char>>,
    t: TypeId,
    short: Seq<char>,
    type_label: Seq<char>,
) -> bool {
    if slot_position(repo, short) is Some {
        answers(r, lookup_by_name(repo, short, t), type_label, short)
    } else if names.len() == 0 {
        answers(r, Lookup::Missing, type_label, short)
    } else if names.len() == 1 {
        answers(r, lookup_by_name(repo, names[0], t), type_label, names[0])
    } else {
        r matches Err(ComponentError::AmbiguousComponent { type_label: a, candidates: c }) && a@ == type_label
            && c.deep_view() == names
    }
}

/// Instances of the created components of type `t`, in registration order.
pub open spec fn instances_of_type<V>(repo: Seq<(Seq<char>, TypeId, Option<V>)>, t: TypeId) -> Seq<V>
    decreases repo.len(),
{
    if repo.len() == 0 {
        Seq::empty()
    } else {
        let rest = instances_of_type(repo.drop_last(), t);
        let e = repo.last();
        if e.1 == t && e.2 is Some {
            rest.push(e.2->0)
        } else {
            rest
        }
    }
}

/// The `i`-th registered component is of type `t` and not created.
pub open spec fn uncreated_of_type<V>(repo: Seq<(Seq<char>, TypeId, Option<V>)>, t: TypeId, i: int) -> bool {
    0 <= i < repo.len() && repo[i].1 == t && repo[i].2 is None
}

/// The `i`-th registered component is the first of type `t` not created.
pub open spec fn first_uncreated_of_type<V>(repo: Seq<(Seq<char>, TypeId, Option<V>)>, t: TypeId, i: int) -> bool {
    &&& uncreated_of_type(repo, t, i)
    &&& forall|j: int| 0 <= j < i ==> !#[trigger] uncreated_of_type(repo, t, j)
}

/// Trait objects cached for trait `tr` under the names `ns`, in that order,
/// skipping names without one.
pub open spec fn cached_for<E>(c: Seq<(TypeId, Seq<char>, E)>, tr: TypeId, ns: Seq<Seq<char>>) -> Seq<E>
    decreases ns.len(),
{
    if ns.len() == 0 {
        Seq::empty()
    } else {
        let rest = cached_for(c, tr, ns.drop_last());
        match cached(c, tr, ns.last()) {
            Some(e) => rest.push(e),
            None => rest,
        }
    }
}

/// `ns` with `n` appended unless already listed.
pub open spec fn with_name(ns: Seq<Seq<char>>, n: Seq<char>) -> Seq<Seq<char>> {
    if ns.contains(n) {
        ns
    } else {
        ns.push(n)
    }
}

/// The last trait object given for trait `tr` in `objs`.
pub open spec fn last_object_for<E>(objs: Seq<(TypeId, E)>, tr: TypeId) -> Option<E>
    decreases objs.len(),
{
    if objs.len() == 0 {
        None
    } else if objs.last().0 == tr {
        Some(objs.last().1)
    } else {
        last_object_for(objs.drop_last(), tr)
    }
}

/// Adds `name` to the list of `t` in an index of names, unless listed.
fn add_name_to_index(idx: &mut Vec<(TypeId, Vec<String>)>, t: TypeId, name: &String)
    requires
        distinct_keys(old(idx)@),
        lists_unique(old(idx)@),
    ensures
        distinct_keys(final(idx)@),
        lists_unique(final(idx)@),
        forall|u: TypeId|
            #[trigger] indexed_names(final(idx)@, u) == if u == t {
                with_name(indexed_names(old(idx)@, u), name@)
            } else {
                indexed_names(old(idx)@, u)
            },
{
    let ghost before = idx@;
    match find_key(idx, &t) {
        Some(p) => {
            proof {
                lemma_key_position(before, t);
            }
            let mut moved: Vec<String> = Vec::new();
            std::mem::swap(&mut moved, &mut idx[p].1);
            let ghost old_list = moved.deep_view();
            assert(old_list == before[p as int].1.deep_view());
            if crate::names::find_name(&moved, name).is_none() {
                moved.push(name.clone());
                assert(moved.deep_view() =~= old_list.push(name@));
            }
            assert(moved.deep_view() == with_name(old_list, name@));
            assert(moved.deep_view().no_duplicates()) by {
                if !old_list.contains(name@) {
                    let w = moved.deep_view();
                    assert forall|a: int, b: int| 0 <= a < w.len() && 0 <= b < w.len() && a != b implies w[a] != w[b] by {
                        if a < old_list.len() && b < old_list.len() {
                            assert(w[a] == old_list[a] && w[b] == old_list[b]);
                        } else if a < old_list.len() {
                            assert(w[a] == old_list[a]);
                            assert(old_list.contains(w[a]));
                        } else {
                            assert(w[b] == old_list[b]);
                            assert(old_list.contains(w[b]));
                        }
                    }
                }
            }
            std::mem::swap(&mut moved, &mut idx[p].1);
            assert(forall|i: int| 0 <= i < idx@.len() ==> #[trigger] idx@[i].0 == before[i].0);
            assert(forall|i: int| 0 <= i < idx@.len() && i != p ==> #[trigger] idx@[i] == before[i]);
            assert(distinct_keys(idx@));
            assert forall|i: int| #![trigger idx@[i]] 0 <= i < idx@.len() implies idx@[i].1.deep_view().no_duplicates() by {
                if i != p {
                    assert(idx@[i] == before[i]);
                }
            }
            assert forall|u: TypeId| #[trigger] indexed_names(idx@, u) == if u == t {
                with_name(indexed_names(before, u), name@)
            } else {
                indexed_names(before, u)
            } by {
                lemma_key_position(idx@, u);
                lemma_key_position(before, u);
                if u == t {
                    assert(key_position(idx@, u) == Some(p as int));
                } else {
                    assert(key_position(idx@, u) == key_position(before, u)) by {
                        if key_position(before, u) is Some {
                            let q = key_position(before, u)->0;
                            assert(idx@[q].0 == u);
                        } else {
                            assert(forall|i: int| 0 <= i < idx@.len() ==> idx@[i].0 != u);
                        }
                    }
                }
            }
        },
        None => {
            proof {
                lemma_key_position(before, t);
            }
            let mut list: Vec<String> = Vec::new();
            list.push(name.clone());
            assert(list.deep_view() =~= seq![name@]);
            idx.push((t, list));
            assert(forall|i: int| 0 <= i < before.len() ==> #[trigger] idx@[i] == before[i]);
            assert(distinct_keys(idx@)) by {
                assert forall|a: int, b: int| 0 <= a < idx@.len() && 0 <= b < idx@.len() && a != b implies #[trigger] idx@[a].0 != #[trigger] idx@[b].0 by {
                    if a == before.len() {
                        assert(idx@[b] == before[b]);
                    } else if b == before.len() {
                        assert(idx@[a] == before[a]);
                    } else {
                        assert(idx@[a] == before[a] && idx@[b] == before[b]);
                    }
                }
            }
            assert forall|i: int| #![trigger idx@[i]] 0 <= i < idx@.len() implies idx@[i].1.deep_view().no_duplicates() by {
                if i < before.len() {
                    assert(idx@[i] == before[i]);
                }
            }
            assert forall|u: TypeId| #[trigger] indexed_names(idx@, u) == if u == t {
                with_name(indexed_names(before, u), name@)
            } else {
                indexed_names(before, u)
            } by {
                lemma_key_position(idx@, u);
                lemma_key_position(before, u);
                if u == t {
                    assert(idx@[before.len() as int].0 == t);
                    assert(key_position(idx@, u) == Some(before.len() as int));
                    assert(indexed_names(before, u) =~= Seq::<Seq<char>>::empty());
                    assert(with_name(Seq::<Seq<char>>::empty(), name@) =~= seq![name@]);
                } else {
                    assert(key_position(idx@, u) == key_position(before, u)) by {
                        if key_position(before, u) is Some {
                            let q = key_position(before, u)->0;
                            assert(idx@[q].0 == u);
                        }
                        if exists|i: int| 0 <= i < idx@.len() && #[trigger] idx@[i].0 == u {
                            let q = choose|i: int| 0 <= i < idx@.len() && #[trigger] idx@[i].0 == u;
                            assert(q < before.len());
                            assert(before[q].0 == u);
                        }
                    }
                }
            }
        },
    }
}

/// With unique keys, a key's trait object is the one at its position.
proof fn lemma_cached_at<E>(c: Seq<(TypeId, Seq<char>, E)>, tr: TypeId, n: Seq<char>)
    requires
        cache_keys_unique(c),
    ensures
        forall|i: int| 0 <= i < c.len() && c[i].0 == tr && c[i].1 == n ==> cached(c, tr, n) == Some(c[i].2),
        (forall|i: int| 0 <= i < c.len() ==> !(c[i].0 == tr && c[i].1 == n)) ==> cached(c, tr, n) is None,
{
    if exists|i: int| 0 <= i < c.len() && #[trigger] c[i].0 == tr && c[i].1 == n {
        let w = choose|i: int| 0 <= i < c.len() && #[trigger] c[i].0 == tr && c[i].1 == n;
        assert forall|i: int| 0 <= i < c.len() && c[i].0 == tr && c[i].1 == n implies cached(c, tr, n) == Some(c[i].2) by {
            if i != w {
                assert(c[i].0 != c[w].0 || c[i].1 != c[w].1);
            }
        }
    }
}

/// Position of the cache entry for `tr` and `name`.
fn find_cache_entry<E>(cache: &Vec<(TypeId, String, E)>, tr: &TypeId, name: &String) -> (r: Option<usize>)
    ensures
        match r {
            Some(i) => i < cache@.len() && cache_view(cache@)[i as int].0 == *tr && cache_view(cache@)[i as int].1 == name@,
            None => forall|i: int| 0 <= i < cache@.len() ==> !(#[trigger] cache_view(cache@)[i].0 == *tr && cache_view(cache@)[i].1 == name@),
        },
{
    let ghost cv = cache_view(cache@);
    let mut i: usize = 0;
    while i < cache.len()
        invariant
            i <= cache@.len(),
            cv == cache_view(cache@),
            forall|j: int| 0 <= j < i ==> !(#[trigger] cv[j].0 == *tr && cv[j].1 == name@),
        decreases cache@.len() - i,
    {
        assert(cv[i as int] == (cache@[i as int].0, cache@[i as int].1@, cache@[i as int].2));
        if same_type(&cache[i].0, tr) && cache[i].1 == *name {
            return Some(i);
        }
        i = i + 1;
    }
    None
}

/// Caches `e` as the trait object of trait `tr` for the component `name`,
/// replacing any earlier one.
fn cache_insert<E>(cache: &mut Vec<(TypeId, String, E)>, tr: TypeId, name: &String, e: E)
    requires
        cache_keys_unique(cache_view(old(cache)@)),
    ensures
        cache_keys_unique(cache_view(final(cache)@)),
        forall|a: TypeId, n: Seq<char>|
            #[trigger] cached(cache_view(final(cache)@), a, n) == if a == tr && n == name@ {
                Some(e)
            } else {
                cached(cache_view(old(cache)@), a, n)
            },
{
    let ghost before = cache_view(cache@);
    match find_cache_entry(cache, &tr, name) {
        Some(p) => {
            let _ = cache.remove(p);
            cache.insert(p, (tr, name.clone(), e));
            let ghost after = cache_view(cache@);
            assert(after =~= before.update(p as int, (tr, name@, e)));
            assert(cache_keys_unique(after)) by {
                assert forall|i: int, j: int| 0 <= i < after.len() && 0 <= j < after.len() && i != j implies (#[trigger] after[i].0 != #[trigger] after[j].0 || after[i].1 != after[j].1) by {
                    if i != p && j != p {
                        assert(after[i] == before[i] && after[j] == before[j]);
                    } else if i == p {
                        assert(after[j] == before[j]);
                        assert(before[p as int].0 == tr && before[p as int].1 == name@);
                    } else {
                        assert(after[i] == before[i]);
                        assert(before[p as int].0 == tr && before[p as int].1 == name@);
                    }
                }
            }
            assert forall|a: TypeId, n: Seq<char>| #[trigger] cached(after, a, n) == if a == tr && n == name@ {
                Some(e)
            } else {
                cached(before, a, n)
            } by {
                lemma_cached_at(after, a, n);
                lemma_cached_at(before, a, n);
                if a == tr && n == name@ {
                    assert(after[p as int].0 == a && after[p as int].1 == n);
                } else {
                    if exists|i: int| 0 <= i < before.len() && #[trigger] before[i].0 == a && before[i].1 == n {
                        let i = choose|i: int| 0 <= i < before.len() && #[trigger] before[i].0 == a && before[i].1 == n;
                        assert(i != p);
                        assert(after[i] == before[i]);
                    } else {
                        assert forall|i: int| 0 <= i < after.len() implies !(after[i].0 == a && after[i].1 == n) by {
                            if i != p {
                                assert(after[i] == before[i]);
                            }
                        }
                    }
                }
            }
        },
        None => {
            cache.push((tr, name.clone(), e));
            let ghost after = cache_view(cache@);
            assert(after =~= before.push((tr, name@, e)));
            assert(cache_keys_unique(after)) by {
                assert forall|i: int, j: int| 0 <= i < after.len() && 0 <= j < after.len() && i != j implies (#[trigger] after[i].0 != #[trigger] after[j].0 || after[i].1 != after[j].1) by {
                    if i < before.len() && j < before.len() {
                        assert(after[i] == before[i] && after[j] == before[j]);
                    } else if i < before.len() {
                        assert(after[i] == before[i]);
                    } else {
                        assert(after[j] == before[j]);
                    }
                }
            }
            assert forall|a: TypeId, n: Seq<char>| #[trigger] cached(after, a, n) == if a == tr && n == name@ {
                Some(e)
            } else {
                cached(before, a, n)
            } by {
                lemma_cached_at(after, a, n);
                lemma_cached_at(before, a, n);
                if a == tr && n == name@ {
                    assert(after[before.len() as int].0 == a && after[before.len() as int].1 == n);
                } else {
                    if exists|i: int| 0 <= i < before.len() && #[trigger] before[i].0 == a && before[i].1 == n {
                        let i = choose|i: int| 0 <= i < before.len() && #[trigger] before[i].0 == a && before[i].1 == n;
                        assert(after[i] == before[i]);
                    } else {
                        assert forall|i: int| 0 <= i < after.len() implies !(after[i].0 == a && after[i].1 == n) by {
                            if i < before.len() {
                                assert(after[i] == before[i]);
                            }
                        }
                    }
                }
            }
        },
    }
}

/// Component container.
pub struct ComponentContainer<V, E> {
    repository: Vec<(String, TypeId, Option<V>)>,
    trait_obj_cache: Vec<(TypeId, String, E)>,
    type_instance_names: Vec<(TypeId, Vec<String>)>,
    trait_instance_names: Vec<(TypeId, Vec<String>)>,
    primary_by_type: Vec<(TypeId, String)>,
    order: Vec<String>,
}

impl<V, E> ComponentContainer<V, E> {
    /// Names are unique in the repository, keys in the cache and indexes.
    pub closed spec fn wf(&self) -> bool {
        &&& names_unique(repository_view(self.repository@))
        &&& cache_keys_unique(cache_view(self.trait_obj_cache@))
        &&& distinct_keys(self.type_instance_names@)
        &&& lists_unique(self.type_instance_names@)
        &&& distinct_keys(self.trait_instance_names@)
        &&& lists_unique(self.trait_instance_names@)
        &&& distinct_keys(self.primary_by_type@)
    }

    /// (name, type, instance) of each registered component, in registration
    /// order.
    pub closed spec fn repository(&self) -> Seq<(Seq<char>, TypeId, Option<V>)> {
        repository_view(self.repository@)
    }

    /// Cached trait objects: (trait, component name, trait object).
    pub closed spec fn trait_objects(&self) -> Seq<(TypeId, Seq<char>, E)> {
        cache_view(self.trait_obj_cache@)
    }

    /// Names of the created components of type `t`, in creation order.
    pub closed spec fn names_of_type(&self, t: TypeId) -> Seq<Seq<char>> {
        indexed_names(self.type_instance_names@, t)
    }

    /// Names of the created components implementing the trait `tr`, in
    /// creation order.
    pub closed spec fn names_of_trait(&self, tr: TypeId) -> Seq<Seq<char>> {
        indexed_names(self.trait_instance_names@, tr)
    }

    /// Name of the primary instance of type `t`.
    pub closed spec fn primary_of(&self, t: TypeId) -> Option<Seq<char>> {
        indexed_primary(self.primary_by_type@, t)
    }

    /// Names of the created components, in creation order.
    pub closed spec fn creation_order(&self) -> Seq<Seq<char>> {
        self.order.deep_view()
    }

    /// An empty container.
    pub fn new() -> (r: Self)
        ensures
            r.wf(),
            r.repository() == Seq::<(Seq<char>, TypeId, Option<V>)>::empty(),
            r.trait_objects() == Seq::<(TypeId, Seq<char>, E)>::empty(),
            forall|t: TypeId| #[trigger] r.names_of_type(t) == Seq::<Seq<char>>::empty(),
            forall|t: TypeId| #[trigger] r.names_of_trait(t) == Seq::<Seq<char>>::empty(),
            forall|t: TypeId| #[trigger] r.primary_of(t) is None,
            r.creation_order() == Seq::<Seq<char>>::empty(),
    {
        let r = ComponentContainer {
            repository: Vec::new(),
            trait_obj_cache: Vec::new(),
            type_instance_names: Vec::new(),
            trait_instance_names: Vec::new(),
            primary_by_type: Vec::new(),
            order: Vec::new(),
        };
        assert(r.repository() =~= Seq::<(Seq<char>, TypeId, Option<V>)>::empty());
        assert(r.trait_objects() =~= Seq::<(TypeId, Seq<char>, E)>::empty());
        assert(r.creation_order() =~= Seq::<Seq<char>>::empty());
        r
    }

    /// Position of the component named `name`.
    fn find_slot(&self, name: &String) -> (r: Option<usize>)
        requires
            self.wf(),
        ensures
            match r {
                Some(i) => i < self.repository@.len() && slot_position(self.repository(), name@) == Some(i as int),
                None => slot_position(self.repository(), name@) is None,
            },
    {
        let ghost rv = self.repository();
        let mut i: usize = 0;
        while i < self.repository.len()
            invariant
                i <= self.repository@.len(),
                rv == repository_view(self.repository@),
                names_unique(rv),
                forall|j: int| 0 <= j < i ==> #[trigger] rv[j].0 != name@,
            decreases self.repository@.len() - i,
        {
            if self.repository[i].0 == *name {
                assert(rv[i as int].0 == name@);
                let ghost c = choose|j: int| 0 <= j < rv.len() && #[trigger] rv[j].0 == name@;
                assert(c == i) by {
                    if c != i {
                        assert(rv[c].0 != rv[i as int].0);
                    }
                }
                return Some(i);
            }
            i = i + 1;
        }
        None
    }

    /// Whether a component named `name` is registered.
    pub fn contains(&self, name: &String) -> (r: bool)
        requires
            self.wf(),
        ensures
            r == slot_position(self.repository(), name@) is Some,
    {
        self.find_slot(name).is_some()
    }

    /// Whether no component is registered.
    pub fn is_empty(&self) -> (r: bool)
        ensures
            r == (self.repository().len() == 0),
    {
        self.repository.len() == 0
    }

    /// The instance of the component named `name`, which must be of type
    /// `type_id` (named `type_label` in errors).
    pub fn get_component_by_name(&self, name: &String, type_id: &TypeId, type_label: &str) -> (r: Result<&V, ComponentError>)
        requires
            self.wf(),
        ensures
            answers(r, lookup_by_name(self.repository(), name@, *type_id), type_label@, name@),
    {
        match self.find_slot(name) {
            None => Err(ComponentError::NotFound { type_label: String::from_str(type_label), name: name.clone() }),
            Some(i) => {
                let slot = &self.repository[i];
                assert(self.repository()[i as int] == (slot.0@, slot.1, slot.2));
                if !same_type(&slot.1, type_id) {
                    Err(ComponentError::DowncastFailed { type_label: String::from_str(type_label), name: name.clone() })
                } else {
                    match &slot.2 {
                        None => Err(ComponentError::NotInitialized { type_label: String::from_str(type_label), name: name.clone() }),
                        Some(v) => Ok(v),
                    }
                }
            },
        }
    }
}

impl<V, E> ComponentContainer<V, E> {
    /// Names listed under `t` in an index of names, as a copy.
    fn listed_names(idx: &Vec<(TypeId, Vec<String>)>, t: &TypeId) -> (r: Vec<String>)
        requires
            distinct_keys(idx@),
        ensures
            r.deep_view() == indexed_names(idx@, *t),
    {
        match find_key(idx, t) {
            Some(p) => copy_names(&idx[p].1),
            None => {
                let r: Vec<String> = Vec::new();
                assert(r.deep_view() =~= Seq::<Seq<char>>::empty());
                r
            },
        }
    }

    /// Names of the created components of type `t`.
    pub fn get_component_names_by_type(&self, t: &TypeId) -> (r: Vec<String>)
        requires
            self.wf(),
        ensures
            r.deep_view() == self.names_of_type(*t),
    {
        Self::listed_names(&self.type_instance_names, t)
    }

    /// Names of the created components implementing the trait `tr`.
    pub fn get_impl_component_names_by_trait(&self, tr: &TypeId) -> (r: Vec<String>)
        requires
            self.wf(),
        ensures
            r.deep_view() == self.names_of_trait(*tr),
    {
        Self::listed_names(&self.trait_instance_names, tr)
    }

    /// A component by type: the one under the type's default name
    /// (`short_name`), else the only created component of the type.
    pub fn get_component(&self, type_id: &TypeId, short_name: &String, type_label: &str) -> (r: Result<&V, ComponentError>)
        requires
            self.wf(),
        ensures
            resolves_by_type(r, self.repository(), self.names_of_type(*type_id), *type_id, short_name@, type_label@),
    {
        if self.contains(short_name) {
            return self.get_component_by_name(short_name, type_id, type_label);
        }
        let names = self.get_component_names_by_type(type_id);
        let ghost nv = names.deep_view();
        assert(nv.len() == names@.len());
        if names.len() == 0 {
            Err(ComponentError::NotFound { type_label: String::from_str(type_label), name: short_name.clone() })
        } else if names.len() == 1 {
            assert(nv[0] == names@[0]@);
            self.get_component_by_name(&names[0], type_id, type_label)
        } else {
            Err(ComponentError::AmbiguousComponent { type_label: String::from_str(type_label), candidates: names })
        }
    }

    /// A component by type, the declared primary instance first: the
    /// primary of `type_id` if declared, else as [`Self::get_component`].
    pub fn get_primary_component(&self, type_id: &TypeId, short_name: &String, type_label: &str) -> (r: Result<&V, ComponentError>)
        requires
            self.wf(),
        ensures
            match self.primary_of(*type_id) {
                Some(p) => answers(r, lookup_by_name(self.repository(), p, *type_id), type_label@, p),
                None => resolves_by_type(r, self.repository(), self.names_of_type(*type_id), *type_id, short_name@, type_label@),
            },
    {
        match find_key(&self.primary_by_type, type_id) {
            Some(p) => {
                proof {
                    lemma_key_position(self.primary_by_type@, *type_id);
                }
                self.get_component_by_name(&self.primary_by_type[p].1, type_id, type_label)
            },
            None => self.get_component(type_id, short_name, type_label),
        }
    }

    /// Instances of all components of type `type_id`, in registration
    /// order; fails on the first one not created yet.
    pub fn get_component_by_type(&self, type_id: &TypeId, type_label: &str) -> (r: Result<Vec<&V>, ComponentError>)
        requires
            self.wf(),
        ensures
            match r {
                Ok(list) => {
                    &&& forall|i: int| !#[trigger] uncreated_of_type(self.repository(), *type_id, i)
                    &&& list@.len() == instances_of_type(self.repository(), *type_id).len()
                    &&& forall|k: int| 0 <= k < list@.len() ==> *list@[k] == #[trigger] instances_of_type(self.repository(), *type_id)[k]
                },
                Err(e) => match e {
                    ComponentError::NotInitialized { type_label: a, name: b } => a@ == type_label@ && exists|i: int|
                        #[trigger] first_uncreated_of_type(self.repository(), *type_id, i) && self.repository()[i].0 == b@,
                    _ => false,
                },
            },
    {
        let ghost rv = self.repository();
        let mut out: Vec<&V> = Vec::new();
        let mut i: usize = 0;
        while i < self.repository.len()
            invariant
                i <= self.repository@.len(),
                rv == repository_view(self.repository@),
                forall|j: int| 0 <= j < i ==> !#[trigger] uncreated_of_type(rv, *type_id, j),
                out@.len() == instances_of_type(rv.subrange(0, i as int), *type_id).len(),
                forall|k: int| 0 <= k < out@.len() ==> *out@[k] == #[trigger] instances_of_type(rv.subrange(0, i as int), *type_id)[k],
            decreases self.repository@.len() - i,
        {
            let slot = &self.repository[i];
            let ghost pre = rv.subrange(0, i as int);
            let ghost pre2 = rv.subrange(0, i + 1);
            assert(pre2.drop_last() == pre);
            assert(pre2.last() == rv[i as int]);
            assert(rv[i as int] == (slot.0@, slot.1, slot.2));
            if same_type(&slot.1, type_id) {
                match &slot.2 {
                    None => {
                        let name = slot.0.clone();
                        assert(first_uncreated_of_type(self.repository(), *type_id, i as int));
                        assert(self.repository()[i as int].0 == name@);
                        return Err(ComponentError::NotInitialized { type_label: String::from_str(type_label), name });
                    },
                    Some(v) => {
                        let ghost before = out@;
                        out.push(v);
                        assert forall|k: int| 0 <= k < out@.len() implies *out@[k] == #[trigger] instances_of_type(pre2, *type_id)[k] by {
                            if k < before.len() {
                                assert(out@[k] == before[k]);
                            }
                        }
                    },
                }
            }
            i = i + 1;
        }
        assert(rv.subrange(0, i as int) == rv);
        Ok(out)
    }

    /// Position of the trait object cached for `tr` and `name`.
    fn find_cached(&self, tr: &TypeId, name: &String) -> (r: Option<usize>)
        requires
            self.wf(),
        ensures
            match r {
                Some(i) => i < self.trait_obj_cache@.len() && cached(self.trait_objects(), *tr, name@) == Some(self.trait_objects()[i as int].2),
                None => cached(self.trait_objects(), *tr, name@) is None,
            },
    {
        let ghost cv = self.trait_objects();
        let mut i: usize = 0;
        while i < self.trait_obj_cache.len()
            invariant
                i <= self.trait_obj_cache@.len(),
                cv == cache_view(self.trait_obj_cache@),
                cache_keys_unique(cv),
                forall|j: int| 0 <= j < i ==> !(#[trigger] cv[j].0 == *tr && cv[j].1 == name@),
            decreases self.trait_obj_cache@.len() - i,
        {
            let entry = &self.trait_obj_cache[i];
            assert(cv[i as int] == (entry.0, entry.1@, entry.2));
            if same_type(&entry.0, tr) && entry.1 == *name {
                let ghost c = choose|j: int| 0 <= j < cv.len() && #[trigger] cv[j].0 == *tr && cv[j].1 == name@;
                assert(c == i) by {
                    if c != i {
                        assert(cv[c].0 != cv[i as int].0 || cv[c].1 != cv[i as int].1);
                    }
                }
                return Some(i);
            }
            i = i + 1;
        }
        None
    }

    /// The trait object of the trait `trait_id` (named `trait_label` in
    /// errors) for the component named `name`.
    pub fn get_component_by_trait_and_name(&self, trait_id: &TypeId, name: &String, trait_label: &str) -> (r: Result<&E, ComponentError>)
        requires
            self.wf(),
        ensures
            match cached(self.trait_objects(), *trait_id, name@) {
                Some(e) => r matches Ok(x) && *x == e,
                None => r matches Err(ComponentError::TraitImplNotFound { trait_name: a }) && a@ == trait_label@,
            },
    {
        match self.find_cached(trait_id, name) {
            Some(i) => Ok(&self.trait_obj_cache[i].2),
            None => Err(ComponentError::TraitImplNotFound { trait_name: String::from_str(trait_label) }),
        }
    }

    /// The trait object of the only created component implementing
    /// `trait_id`; none or several are errors.
    pub fn get_component_by_trait(&self, trait_id: &TypeId, trait_label: &str) -> (r: Result<&E, ComponentError>)
        requires
            self.wf(),
        ensures
            ({
                let ns = self.names_of_trait(*trait_id);
                if ns.len() == 0 {
                    r matches Err(ComponentError::TraitImplNotFound { trait_name: a }) && a@ == trait_label@
                } else if ns.len() > 1 {
                    r matches Err(ComponentError::AmbiguousTraitImpl { trait_name: a, candidates: c }) && a@ == trait_label@
                        && c.deep_view() == ns
                } else {
                    match cached(self.trait_objects(), *trait_id, ns[0]) {
                        Some(e) => r matches Ok(x) && *x == e,
                        None => r matches Err(ComponentError::TraitImplNotFound { trait_name: a }) && a@ == trait_label@,
                    }
                }
            }),
    {
        let names = self.get_impl_component_names_by_trait(trait_id);
        let ghost nv = names.deep_view();
        assert(nv.len() == names@.len());
        if names.len() == 0 {
            return Err(ComponentError::TraitImplNotFound { trait_name: String::from_str(trait_label) });
        }
        if names.len() > 1 {
            return Err(ComponentError::AmbiguousTraitImpl { trait_name: String::from_str(trait_label), candidates: names });
        }
        assert(nv[0] == names@[0]@);
        self.get_component_by_trait_and_name(trait_id, &names[0], trait_label)
    }

    /// The trait objects of all created components implementing
    /// `trait_id`, in creation order.
    pub fn get_components_by_trait(&self, trait_id: &TypeId) -> (r: Vec<&E>)
        requires
            self.wf(),
        ensures
            r@.len() == cached_for(self.trait_objects(), *trait_id, self.names_of_trait(*trait_id)).len(),
            forall|k: int|
                0 <= k < r@.len() ==> *r@[k] == #[trigger] cached_for(self.trait_objects(), *trait_id, self.names_of_trait(*trait_id))[k],
    {
        let names = self.get_impl_component_names_by_trait(trait_id);
        let ghost nv = names.deep_view();
        let ghost cv = self.trait_objects();
        let mut out: Vec<&E> = Vec::new();
        let mut k: usize = 0;
        while k < names.len()
            invariant
                k <= names@.len(),
                nv == names.deep_view(),
                cv == self.trait_objects(),
                self.wf(),
                out@.len() == cached_for(cv, *trait_id, nv.subrange(0, k as int)).len(),
                forall|j: int| 0 <= j < out@.len() ==> *out@[j] == #[trigger] cached_for(cv, *trait_id, nv.subrange(0, k as int))[j],
            decreases names@.len() - k,
        {
            let ghost pre = nv.subrange(0, k as int);
            let ghost pre2 = nv.subrange(0, k + 1);
            assert(pre2.drop_last() == pre);
            assert(pre2.last() == names@[k as int]@);
            match self.find_cached(trait_id, &names[k]) {
                Some(i) => {
                    let ghost before = out@;
                    out.push(&self.trait_obj_cache[i].2);
                    assert forall|j: int| 0 <= j < out@.len() implies *out@[j] == #[trigger] cached_for(cv, *trait_id, pre2)[j] by {
                        if j < before.len() {
                            assert(out@[j] == before[j]);
                        }
                    }
                },
                None => {},
            }
            k = k + 1;
        }
        assert(nv.subrange(0, k as int) == nv);
        out
    }
}

/// Listing a name twice lists it once.
proof fn lemma_with_name_twice(ns: Seq<Seq<char>>, n: Seq<char>)
    ensures
        with_name(with_name(ns, n), n) == with_name(ns, n),
{
    if !ns.contains(n) {
        assert(ns.push(n)[ns.len() as int] == n);
    }
}

impl<V, E> ComponentContainer<V, E> {
    /// Registers a component, not created yet; a component of the same
    /// name already registered is an error.
    pub fn register_component(&mut self, name: String, type_id: TypeId, type_label: &str) -> (r: Result<(), ComponentError>)
        requires
            old(self).wf(),
        ensures
            final(self).wf(),
            match slot_position(old(self).repository(), name@) {
                Some(_) => {
                    &&& r matches Err(ComponentError::AlreadyExists { type_label: a, name: b }) && a@ == type_label@ && b@ == name@
                    &&& *final(self) == *old(self)
                },
                None => {
                    &&& r is Ok
                    &&& final(self).repository() == old(self).repository().push((name@, type_id, None))
                    &&& final(self).trait_objects() == old(self).trait_objects()
                    &&& forall|t: TypeId| #[trigger] final(self).names_of_type(t) == old(self).names_of_type(t)
                    &&& forall|t: TypeId| #[trigger] final(self).names_of_trait(t) == old(self).names_of_trait(t)
                    &&& forall|t: TypeId| #[trigger] final(self).primary_of(t) == old(self).primary_of(t)
                    &&& final(self).creation_order() == old(self).creation_order()
                },
            },
    {
        if self.contains(&name) {
            return Err(ComponentError::AlreadyExists { type_label: String::from_str(type_label), name });
        }
        let ghost before = self.repository();
        self.repository.push((name, type_id, None));
        assert(self.repository() =~= before.push((name@, type_id, None)));
        assert(names_unique(self.repository())) by {
            let r = self.repository();
            assert forall|i: int, j: int| 0 <= i < r.len() && 0 <= j < r.len() && i != j implies #[trigger] r[i].0 != #[trigger] r[j].0 by {
                if i < before.len() && j < before.len() {
                    assert(r[i] == before[i] && r[j] == before[j]);
                } else if i < before.len() {
                    assert(r[i] == before[i]);
                    assert(before[i].0 != name@);
                } else {
                    assert(r[j] == before[j]);
                    assert(before[j].0 != name@);
                }
            }
        }
        Ok(())
    }

    /// Stores the created instance of the component named `name`; hands the
    /// instance back when no such component is registered.
    pub fn set_instance(&mut self, name: &String, instance: V) -> (r: Result<(), V>)
        requires
            old(self).wf(),
        ensures
            final(self).wf(),
            final(self).trait_objects() == old(self).trait_objects(),
            forall|t: TypeId| #[trigger] final(self).names_of_type(t) == old(self).names_of_type(t),
            forall|t: TypeId| #[trigger] final(self).names_of_trait(t) == old(self).names_of_trait(t),
            forall|t: TypeId| #[trigger] final(self).primary_of(t) == old(self).primary_of(t),
            final(self).creation_order() == old(self).creation_order(),
            match slot_position(old(self).repository(), name@) {
                Some(i) => r is Ok && final(self).repository() == old(self).repository().update(
                    i,
                    (name@, old(self).repository()[i].1, Some(instance)),
                ),
                None => r == Err::<(), V>(instance) && final(self).repository() == old(self).repository(),
            },
    {
        match self.find_slot(name) {
            None => Err(instance),
            Some(i) => {
                let ghost before = self.repository();
                let (n, t, _) = self.repository.remove(i);
                self.repository.insert(i, (n, t, Some(instance)));
                assert(self.repository() =~= before.update(i as int, (name@, before[i as int].1, Some(instance))));
                assert(names_unique(self.repository())) by {
                    let r = self.repository();
                    assert forall|a: int, b: int| 0 <= a < r.len() && 0 <= b < r.len() && a != b implies #[trigger] r[a].0 != #[trigger] r[b].0 by {
                        assert(r[a].0 == before[a].0 && r[b].0 == before[b].0);
                    }
                }
                Ok(())
            },
        }
    }

    /// Records the trait objects of a created component and indexes it: the
    /// component is listed under its type, and under each trait it was
    /// given a trait object for (`trait_objects`, in registration order;
    /// a later object for the same trait replaces an earlier one).
    ///
    /// Fails, changing nothing, when no component of that name is
    /// registered or it is not created yet.
    pub fn populate_trait_obj_cache(&mut self, name: &String, trait_objects: Vec<(TypeId, E)>) -> (r: Result<(), ComponentError>)
        requires
            old(self).wf(),
        ensures
            final(self).wf(),
            final(self).repository() == old(self).repository(),
            forall|t: TypeId| #[trigger] final(self).primary_of(t) == old(self).primary_of(t),
            final(self).creation_order() == old(self).creation_order(),
            match slot_position(old(self).repository(), name@) {
                None => {
                    &&& r matches Err(ComponentError::InternalError { message: m }) && m@ == "Component '"@ + name@
                        + "' not found in repository"@
                    &&& *final(self) == *old(self)
                },
                Some(i) => match old(self).repository()[i].2 {
                    None => {
                        &&& r matches Err(ComponentError::InternalError { message: m }) && m@ == "Component '"@ + name@
                            + "' not created"@
                        &&& *final(self) == *old(self)
                    },
                    Some(_) => {
                        &&& r is Ok
                        &&& forall|t: TypeId|
                            #[trigger] final(self).names_of_type(t) == if t == old(self).repository()[i].1 {
                                with_name(old(self).names_of_type(t), name@)
                            } else {
                                old(self).names_of_type(t)
                            }
                        &&& forall|tr: TypeId|
                            #[trigger] final(self).names_of_trait(tr) == if last_object_for(trait_objects@, tr) is Some {
                                with_name(old(self).names_of_trait(tr), name@)
                            } else {
                                old(self).names_of_trait(tr)
                            }
                        &&& forall|tr: TypeId, n: Seq<char>|
                            #[trigger] cached(final(self).trait_objects(), tr, n) == if n == name@ && last_object_for(
                                trait_objects@,
                                tr,
                            ) is Some {
                                last_object_for(trait_objects@, tr)
                            } else {
                                cached(old(self).trait_objects(), tr, n)
                            }
                    },
                },
            },
    {
        let i = match self.find_slot(name) {
            None => {
                let mut message = String::from_str("Component '");
                message.append(name.as_str());
                message.append("' not found in repository");
                return Err(ComponentError::InternalError { message });
            },
            Some(i) => i,
        };
        assert(self.repository()[i as int] == (self.repository@[i as int].0@, self.repository@[i as int].1, self.repository@[i as int].2));
        if self.repository[i].2.is_none() {
            let mut message = String::from_str("Component '");
            message.append(name.as_str());
            message.append("' not created");
            return Err(ComponentError::InternalError { message });
        }
        let type_id = self.repository[i].1;
        let ghost old_type_names = self.type_instance_names@;
        let ghost old_trait_names = self.trait_instance_names@;
        let ghost old_cache = self.trait_objects();
        add_name_to_index(&mut self.type_instance_names, type_id, name);
        let ghost objs = trait_objects@;
        let ghost repo0 = self.repository@;
        let ghost primary0 = self.primary_by_type@;
        let ghost order0 = self.order@;
        let ghost type_names1 = self.type_instance_names@;
        assert(objs.len() == trait_objects.len());
        let mut rest = trait_objects;
        let mut k: usize = 0;
        while rest.len() > 0
            invariant
                k <= objs.len() <= usize::MAX,
                self.repository@ == repo0,
                self.primary_by_type@ == primary0,
                self.order@ == order0,
                self.type_instance_names@ == type_names1,
                rest@ == objs.subrange(k as int, objs.len() as int),
                distinct_keys(self.trait_instance_names@),
                lists_unique(self.trait_instance_names@),
                cache_keys_unique(cache_view(self.trait_obj_cache@)),
                forall|tr: TypeId|
                    #[trigger] indexed_names(self.trait_instance_names@, tr) == if last_object_for(objs.subrange(0, k as int), tr) is Some {
                        with_name(indexed_names(old_trait_names, tr), name@)
                    } else {
                        indexed_names(old_trait_names, tr)
                    },
                forall|tr: TypeId, n: Seq<char>|
                    #[trigger] cached(cache_view(self.trait_obj_cache@), tr, n) == if n == name@ && last_object_for(
                        objs.subrange(0, k as int),
                        tr,
                    ) is Some {
                        last_object_for(objs.subrange(0, k as int), tr)
                    } else {
                        cached(old_cache, tr, n)
                    },
            decreases rest@.len(),
        {
            let ghost pre = objs.subrange(0, k as int);
            let ghost pre2 = objs.subrange(0, k + 1);
            assert(pre2.drop_last() == pre);
            let (tr, e) = rest.remove(0);
            assert(pre2.last() == (tr, e));
            let ghost names_before = self.trait_instance_names@;
            cache_insert(&mut self.trait_obj_cache, tr, name, e);
            add_name_to_index(&mut self.trait_instance_names, tr, name);
            assert forall|u: TypeId|
                #[trigger] indexed_names(self.trait_instance_names@, u) == if last_object_for(pre2, u) is Some {
                    with_name(indexed_names(old_trait_names, u), name@)
                } else {
                    indexed_names(old_trait_names, u)
                } by {
                if u == tr {
                    lemma_with_name_twice(indexed_names(old_trait_names, u), name@);
                }
            }
            k = k + 1;
            assert(rest@ =~= objs.subrange(k as int, objs.len() as int));
        }
        assert(objs.subrange(0, k as int) == objs);
        Ok(())
    }

    /// Records that the component named `name` was created (and will be
    /// destroyed in the reverse order).
    pub fn record_creation(&mut self, name: String)
        requires
            old(self).wf(),
        ensures
            final(self).wf(),
            final(self).creation_order() == old(self).creation_order().push(name@),
            final(self).repository() == old(self).repository(),
            final(self).trait_objects() == old(self).trait_objects(),
            forall|t: TypeId| #[trigger] final(self).names_of_type(t) == old(self).names_of_type(t),
            forall|t: TypeId| #[trigger] final(self).names_of_trait(t) == old(self).names_of_trait(t),
            forall|t: TypeId| #[trigger] final(self).primary_of(t) == old(self).primary_of(t),
    {
        let ghost before = self.order.deep_view();
        self.order.push(name);
        assert(self.order.deep_view() =~= before.push(name@));
    }

    /// Installs the primary index (type, name of its primary instance).
    pub fn set_primary_index(&mut self, index: Vec<(TypeId, String)>)
        requires
            old(self).wf(),
            distinct_keys(index@),
        ensures
            final(self).wf(),
            forall|t: TypeId| #[trigger] final(self).primary_of(t) == indexed_primary(index@, t),
            final(self).repository() == old(self).repository(),
            final(self).trait_objects() == old(self).trait_objects(),
            forall|t: TypeId| #[trigger] final(self).names_of_type(t) == old(self).names_of_type(t),
            forall|t: TypeId| #[trigger] final(self).names_of_trait(t) == old(self).names_of_trait(t),
            final(self).creation_order() == old(self).creation_order(),
    {
        self.primary_by_type = index;
    }

    /// Takes the creation order out, leaving it empty (so that a second
    /// shutdown finds nothing to destroy).
    pub fn take_creation_order(&mut self) -> (r: Vec<String>)
        requires
            old(self).wf(),
        ensures
            final(self).wf(),
            r.deep_view() == old(self).creation_order(),
            final(self).creation_order() == Seq::<Seq<char>>::empty(),
            final(self).repository() == old(self).repository(),
            final(self).trait_objects() == old(self).trait_objects(),
            forall|t: TypeId| #[trigger] final(self).names_of_type(t) == old(self).names_of_type(t),
            forall|t: TypeId| #[trigger] final(self).names_of_trait(t) == old(self).names_of_trait(t),
            forall|t: TypeId| #[trigger] final(self).primary_of(t) == old(self).primary_of(t),
    {
        let mut taken: Vec<String> = Vec::new();
        std::mem::swap(&mut taken, &mut self.order);
        assert(self.order.deep_view() =~= Seq::<Seq<char>>::empty());
        taken
    }

    /// The names of the created components, in creation order (the order in
    /// which the container-wide ready callbacks run).
    pub fn creation_order_names(&self) -> (r: Vec<String>)
        ensures
            r.deep_view() == self.creation_order(),
    {
        let ghost ov = self.order.deep_view();
        let mut r: Vec<String> = Vec::new();
        let mut k: usize = 0;
        while k < self.order.len()
            invariant
                k <= self.order@.len(),
                ov == self.order.deep_view(),
                r.deep_view() == ov.take(k as int),
            decreases self.order@.len() - k,
        {
            let ghost before = r.deep_view();
            r.push(self.order[k].clone());
            assert(r.deep_view() =~= before.push(ov[k as int]));
            assert(r.deep_view() =~= ov.take(k as int + 1));
            k = k + 1;
        }
        assert(ov.take(k as int) =~= ov);
        r
    }

    /// Drops the trait objects and empties the type, trait and primary
    /// indexes (before the components are destroyed).
    pub fn clear_indexes(&mut self)
        requires
            old(self).wf(),
        ensures
            final(self).wf(),
            final(self).trait_objects() == Seq::<(TypeId, Seq<char>, E)>::empty(),
            forall|t: TypeId| #[trigger] final(self).names_of_type(t) == Seq::<Seq<char>>::empty(),
            forall|t: TypeId| #[trigger] final(self).names_of_trait(t) == Seq::<Seq<char>>::empty(),
            forall|t: TypeId| #[trigger] final(self).primary_of(t) is None,
            final(self).repository() == old(self).repository(),
            final(self).creation_order() == old(self).creation_order(),
    {
        self.trait_obj_cache = Vec::new();
        self.type_instance_names = Vec::new();
        self.trait_instance_names = Vec::new();
        self.primary_by_type = Vec::new();
        assert(self.trait_objects() =~= Seq::<(TypeId, Seq<char>, E)>::empty());
    }

    /// Removes the component named `name`, returning its type and instance.
    pub fn remove_component(&mut self, name: &String) -> (r: Option<(TypeId, Option<V>)>)
        requires
            old(self).wf(),
        ensures
            final(self).wf(),
            final(self).trait_objects() == old(self).trait_objects(),
            forall|t: TypeId| #[trigger] final(self).names_of_type(t) == old(self).names_of_type(t),
            forall|t: TypeId| #[trigger] final(self).names_of_trait(t) == old(self).names_of_trait(t),
            forall|t: TypeId| #[trigger] final(self).primary_of(t) == old(self).primary_of(t),
            final(self).creation_order() == old(self).creation_order(),
            match slot_position(old(self).repository(), name@) {
                Some(i) => r == Some((old(self).repository()[i].1, old(self).repository()[i].2))
                    && final(self).repository() == old(self).repository().remove(i),
                None => r is None && final(self).repository() == old(self).repository(),
            },
    {
        match self.find_slot(name) {
            None => None,
            Some(i) => {
                let ghost before = self.repository();
                let (_, t, inst) = self.repository.remove(i);
                assert(self.repository() =~= before.remove(i as int));
                assert(names_unique(self.repository())) by {
                    let r = self.repository();
                    assert forall|a: int, b: int| 0 <= a < r.len() && 0 <= b < r.len() && a != b implies #[trigger] r[a].0 != #[trigger] r[b].0 by {
                        let a0 = if a < i { a } else { a + 1 };
                        let b0 = if b < i { b } else { b + 1 };
                        assert(r[a] == before[a0] && r[b] == before[b0]);
                    }
                }
                Some((t, inst))
            },
        }
    }
}

/// Components are destroyed in the reverse of their creation order.
pub fn shutdown_order(creation_order: &Vec<String>) -> (r: Vec<String>)
    ensures
        r.deep_view() == creation_order.deep_view().reverse(),
{
    let ghost cv = creation_order.deep_view();
    let mut r: Vec<String> = Vec::new();
    let mut k: usize = creation_order.len();
    while k > 0
        invariant
            k <= creation_order@.len(),
            cv == creation_order.deep_view(),
            r.deep_view() == cv.subrange(k as int, cv.len() as int).reverse(),
        decreases k,
    {
        k = k - 1;
        let ghost before = r.deep_view();
        r.push(creation_order[k].clone());
        assert(r.deep_view() =~= before.push(cv[k as int]));
        assert(r.deep_view() =~= cv.subrange(k as int, cv.len() as int).reverse());
    }
    assert(cv.subrange(0, cv.len() as int) == cv);
    r
}

/// With unique names, the position of a name is where it occurs.
proof fn lemma_slot_position<V>(r: Seq<(Seq<char>, TypeId, Option<V>)>, n: Seq<char>, i: int)
    requires
        names_unique(r),
        0 <= i < r.len(),
        r[i].0 == n,
    ensures
        slot_position(r, n) == Some(i),
{
    let c = choose|j: int| 0 <= j < r.len() && #[trigger] r[j].0 == n;
    if c != i {
        assert(r[c].0 != r[i].0);
    }
}

/// A registered component is found, not yet created, right after its
/// registration; once its instance is stored, a lookup by its name and
/// type finds that instance, and a lookup for another type is refused.
pub proof fn law_lookup_after_register_and_set<V>(repo: Seq<(Seq<char>, TypeId, Option<V>)>, n: Seq<char>, t: TypeId, other: TypeId, v: V)
    requires
        names_unique(repo),
        slot_position(repo, n) is None,
        other != t,
    ensures
        names_unique(repo.push((n, t, None))),
        lookup_by_name(repo.push((n, t, None)), n, t) == Lookup::<V>::NotCreated,
        lookup_by_name(repo.push((n, t, None)).update(repo.len() as int, (n, t, Some(v))), n, t) == Lookup::Found(v),
        lookup_by_name(repo.push((n, t, None)).update(repo.len() as int, (n, t, Some(v))), n, other) == Lookup::<V>::OtherType,
{
    let r1 = repo.push((n, t, None));
    let r2 = r1.update(repo.len() as int, (n, t, Some(v)));
    let k = repo.len() as int;
    assert forall|j: int| 0 <= j < repo.len() implies repo[j].0 != n by {
        if repo[j].0 == n {
            assert(exists|q: int| 0 <= q < repo.len() && #[trigger] repo[q].0 == n);
        }
    }
    assert(names_unique(r1)) by {
        assert forall|a: int, b: int| 0 <= a < r1.len() && 0 <= b < r1.len() && a != b implies #[trigger] r1[a].0 != #[trigger] r1[b].0 by {
            if a < k && b < k {
                assert(r1[a] == repo[a] && r1[b] == repo[b]);
            } else if a < k {
                assert(r1[a] == repo[a]);
            } else {
                assert(r1[b] == repo[b]);
            }
        }
    }
    assert(names_unique(r2)) by {
        assert forall|a: int, b: int| 0 <= a < r2.len() && 0 <= b < r2.len() && a != b implies #[trigger] r2[a].0 != #[trigger] r2[b].0 by {
            assert(r2[a].0 == r1[a].0 && r2[b].0 == r1[b].0);
        }
    }
    lemma_slot_position(r1, n, k);
    lemma_slot_position(r2, n, k);
}

} // verus!
