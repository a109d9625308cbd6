//! Registration and creation planning of components.
//!
//! Every component is declared with its name, its concrete type and four
//! kinds of dependencies: by name, by trait (every instance of every
//! implementing type), by type (every instance of the type) and by primary
//! instance of a type. Planning checks the names, drops the components whose
//! registration condition fails, checks the primary declarations, expands
//! the dependencies into a graph over the remaining components and orders
//! that graph so that every component is created after its dependencies.
use crate::condition::{condition_holds_on, ComponentCondition, ConditionContext};
use crate::config::ConfigValue;
use crate::index::{
    build_trait_impl_index, distinct_keys, find_key, impls_of_trait, indexed_types, key_position,
    lemma_key_position, names_of_type,
    PrimaryRegistration, TraitImplRegistration,
};
use crate::graph::{
    all_positions, contains_index, dependency_order, find_cycle, has_dependency_cycle,
    is_cycle_within, is_dependency_order, lemma_cycle_bridge, lemma_found_cycle_bridge,
    lemma_order_bridge, rel_has_cycle, rel_is_cycle, rel_is_order, represents, well_formed,
    OrderOutcome,
};
use crate::names::{find_name, first_repeat, is_first_repeat, names_at, names_at_positions};
use crate::type_key::same_type;
use std::any::TypeId;
use vstd::prelude::*;

verus! {

/// What the framework knows of a component before creating it.
#[derive(Debug)]
pub struct ComponentDeclaration {
    /// Globally unique component name.
    pub name: String,
    /// Concrete type of the component.
    pub type_id: TypeId,
    /// Components it depends on by name.
    pub dependencies: Vec<String>,
    /// Traits (`dyn Trait` identities) it depends on.
    pub trait_dependencies: Vec<TypeId>,
    /// Concrete types it depends on (every instance of each).
    pub type_dependencies: Vec<TypeId>,
    /// Concrete types whose primary instance it depends on.
    pub primary_dependencies: Vec<TypeId>,
    /// Registration condition, if any.
    pub condition: Option<ComponentCondition>,
}

/// (name, type) of each declared component, in declaration order.
pub open spec fn registry_of(decls: Seq<ComponentDeclaration>) -> Seq<(String, TypeId)> {
    decls.map_values(|d: ComponentDeclaration| (d.name, d.type_id))
}

/// The `i`-th declared component passes its registration condition,
/// evaluated on the snapshot of all declared components and all registered
/// trait implementations; `verdicts[i]` is the verdict of a custom condition.
pub open spec fn passes_condition(
    decls: Seq<ComponentDeclaration>,
    regs: Seq<TraitImplRegistration>,
    config: ConfigValue,
    verdicts: Seq<bool>,
    i: int,
) -> bool {
    match decls[i].condition {
        None => true,
        Some(c) => condition_holds_on(
            c,
            |t: TypeId| names_of_type(registry_of(decls), t),
            |tr: TypeId| impls_of_trait(regs, tr),
            decls[i].name@,
            config,
            verdicts[i],
        ),
    }
}

/// Positions among the first `n` declarations whose component passes its
/// condition, in declaration order.
pub open spec fn kept_prefix(
    decls: Seq<ComponentDeclaration>,
    regs: Seq<TraitImplRegistration>,
    config: ConfigValue,
    verdicts: Seq<bool>,
    n: int,
) -> Seq<usize>
    decreases n,
{
    if n <= 0 {
        Seq::empty()
    } else {
        let r = kept_prefix(decls, regs, config, verdicts, n - 1);
        if passes_condition(decls, regs, config, verdicts, n - 1) {
            r.push((n - 1) as usize)
        } else {
            r
        }
    }
}

/// Positions of the declarations whose component passes its condition, in
/// declaration order.
pub open spec fn kept_positions(
    decls: Seq<ComponentDeclaration>,
    regs: Seq<TraitImplRegistration>,
    config: ConfigValue,
    verdicts: Seq<bool>,
) -> Seq<usize> {
    kept_prefix(decls, regs, config, verdicts, decls.len() as int)
}

/// `s` is strictly increasing.
pub open spec fn strictly_increasing(s: Seq<usize>) -> bool {
    forall|a: int, b: int| 0 <= a < b < s.len() ==> #[trigger] s[a] < #[trigger] s[b]
}

/// Single-round conditional registration: all conditions are evaluated on
/// one snapshot of everything declared, so the outcome does not depend on
/// the order of evaluation. Returns the positions of the components that
/// stay registered, in declaration order.
pub fn filter_components_by_condition(
    decls: &Vec<ComponentDeclaration>,
    trait_impls: &Vec<TraitImplRegistration>,
    config: &ConfigValue,
    custom_verdicts: &Vec<bool>,
) -> (kept: Vec<usize>)
    requires
        custom_verdicts@.len() == decls@.len(),
    ensures
        kept@ == kept_positions(decls@, trait_impls@, *config, custom_verdicts@),
        strictly_increasing(kept@),
        forall|p: int| #![trigger kept@[p]] 0 <= p < kept@.len() ==> kept@[p] < decls@.len(),
        forall|i: int|
            0 <= i < decls@.len() ==> (kept@.contains(i as usize) <==> #[trigger] passes_condition(
                decls@,
                trait_impls@,
                *config,
                custom_verdicts@,
                i,
            )),
{
    let mut components: Vec<(String, TypeId)> = Vec::new();
    let mut k: usize = 0;
    while k < decls.len()
        invariant
            k <= decls@.len(),
            components@ == registry_of(decls@).subrange(0, k as int),
        decreases decls@.len() - k,
    {
        components.push((decls[k].name.clone(), decls[k].type_id));
        assert(components@ =~= registry_of(decls@).subrange(0, k + 1));
        k = k + 1;
    }
    assert(components@ =~= registry_of(decls@));
    let ctx = ConditionContext::snapshot(&components, trait_impls);
    let ghost nf = |t: TypeId| names_of_type(registry_of(decls@), t);
    let ghost imf = |tr: TypeId| impls_of_trait(trait_impls@, tr);
    assert((|t: TypeId| ctx.names_of(t)) =~= nf);
    assert((|tr: TypeId| ctx.impls_of(tr)) =~= imf);
    let mut kept: Vec<usize> = Vec::new();
    let mut i: usize = 0;
    while i < decls.len()
        invariant
            i <= decls@.len(),
            custom_verdicts@.len() == decls@.len(),
            (|t: TypeId| ctx.names_of(t)) == nf,
            (|tr: TypeId| ctx.impls_of(tr)) == imf,
            nf == (|t: TypeId| names_of_type(registry_of(decls@), t)),
            imf == (|tr: TypeId| impls_of_trait(trait_impls@, tr)),
            kept@ == kept_prefix(decls@, trait_impls@, *config, custom_verdicts@, i as int),
            strictly_increasing(kept@),
            forall|p: int| #![trigger kept@[p]] 0 <= p < kept@.len() ==> kept@[p] < i,
            forall|j: int|
                0 <= j < i ==> (kept@.contains(j as usize) <==> #[trigger] passes_condition(
                    decls@,
                    trait_impls@,
                    *config,
                    custom_verdicts@,
                    j,
                )),
        decreases decls@.len() - i,
    {
        let keep = match &decls[i].condition {
            None => true,
            Some(c) => c.evaluate(&ctx, &decls[i].name, config, custom_verdicts[i]),
        };
        assert(keep == passes_condition(decls@, trait_impls@, *config, custom_verdicts@, i as int));
        let ghost before = kept@;
        if keep {
            kept.push(i);
        }
        assert forall|j: int|
            0 <= j < i + 1 implies (kept@.contains(j as usize) <==> #[trigger] passes_condition(
                decls@,
                trait_impls@,
                *config,
                custom_verdicts@,
                j,
            )) by {
            if j < i {
                if kept@.contains(j as usize) && !before.contains(j as usize) {
                    assert(j as usize == i);
                }
                if before.contains(j as usize) {
                    let q = choose|q: int| 0 <= q < before.len() && before[q] == j as usize;
                    assert(kept@[q] == j as usize);
                }
            } else {
                if keep {
                    assert(kept@[before.len() as int] == i);
                } else {
                    if kept@.contains(i) {
                        let q = choose|q: int| 0 <= q < kept@.len() && kept@[q] == i;
                        assert(before[q] < i);
                    }
                }
            }
        }
        i = i + 1;
    }
    kept
}

/// Why the components cannot be loaded.
#[derive(Debug)]
pub enum ComponentLoadError {
    /// Two components are declared under this name.
    DuplicateName { name: String },
    /// A primary declaration names no registered component.
    PrimaryNotRegistered { name: String },
    /// Two primary declarations for the same type.
    DuplicatePrimary { existing: String, name: String },
    /// A component depends by name on a component that is not registered.
    UnregisteredDependency { dependency: String },
    /// A component depends on a trait that no type implements.
    TraitWithoutImplementation { component: String, trait_type_id: TypeId },
    /// A component depends on a trait that types implement, none of which
    /// has a registered component.
    TraitWithoutInstances { component: String, trait_type_id: TypeId },
    /// A component depends on a type that has no registered component.
    TypeWithoutInstances { component: String, type_id: TypeId },
    /// A component depends on the primary instance of a type that has none.
    PrimaryMissing { component: String, type_id: TypeId },
    /// The components depend on each other in a cycle; each listed component
    /// depends on the next, and the last repeats the first.
    CircularDependency { cycle: Vec<String> },
}

/// Every primary declaration names a registered component, and no type has
/// two primary declarations.
pub open spec fn primaries_valid(prims: Seq<PrimaryRegistration>, names: Seq<Seq<char>>) -> bool {
    &&& forall|j: int| 0 <= j < prims.len() ==> names.contains(#[trigger] prims[j].name@)
    &&& forall|i: int, j: int| 0 <= i < j < prims.len() ==> #[trigger] prims[i].type_id != #[trigger] prims[j].type_id
}

/// Name of the primary instance declared for type `t`, if any.
pub open spec fn primary_name(prims: Seq<PrimaryRegistration>, t: TypeId) -> Option<Seq<char>> {
    if exists|j: int| 0 <= j < prims.len() && #[trigger] prims[j].type_id == t {
        Some(prims[choose|j: int| 0 <= j < prims.len() && #[trigger] prims[j].type_id == t].name@)
    } else {
        None
    }
}

/// `idx` lists each primary declaration as (type, name), in order.
pub open spec fn is_primary_index(idx: Seq<(TypeId, String)>, prims: Seq<PrimaryRegistration>) -> bool {
    &&& idx.len() == prims.len()
    &&& forall|j: int| #![trigger idx[j]] 0 <= j < idx.len() ==> idx[j].0 == prims[j].type_id && idx[j].1@ == prims[j].name@
}

/// Checks the primary declarations against the registered component names
/// and indexes them by type.
pub fn build_primary_index(prims: &Vec<PrimaryRegistration>, names: &Vec<String>) -> (r: Result<Vec<(TypeId, String)>, ComponentLoadError>)
    ensures
        r is Ok <==> primaries_valid(prims@, names.deep_view()),
        match r {
            Ok(idx) => is_primary_index(idx@, prims@) && distinct_keys(idx@),
            Err(ComponentLoadError::PrimaryNotRegistered { name }) => exists|j: int|
                0 <= j < prims@.len() && #[trigger] prims@[j].name@ == name@ && !names.deep_view().contains(name@),
            Err(ComponentLoadError::DuplicatePrimary { existing, name }) => exists|i: int, j: int|
                0 <= i < j < prims@.len() && #[trigger] prims@[i].type_id == #[trigger] prims@[j].type_id
                    && prims@[i].name@ == existing@ && prims@[j].name@ == name@,
            Err(_) => false,
        },
{
    let mut idx: Vec<(TypeId, String)> = Vec::new();
    let mut j: usize = 0;
    while j < prims.len()
        invariant
            j <= prims@.len(),
            is_primary_index(idx@, prims@.subrange(0, j as int)),
            primaries_valid(prims@.subrange(0, j as int), names.deep_view()),
        decreases prims@.len() - j,
    {
        let ghost pre = prims@.subrange(0, j as int);
        assert(distinct_keys(idx@)) by {
            assert forall|a: int, b: int| 0 <= a < idx@.len() && 0 <= b < idx@.len() && a != b implies #[trigger] idx@[a].0 != #[trigger] idx@[b].0 by {
                if a < b {
                    assert(pre[a].type_id != pre[b].type_id);
                } else {
                    assert(pre[b].type_id != pre[a].type_id);
                }
            }
        }
        let reg = &prims[j];
        if find_name(names, &reg.name).is_none() {
            return Err(ComponentLoadError::PrimaryNotRegistered { name: reg.name.clone() });
        }
        assert(names.deep_view().contains(prims@[j as int].name@));
        match find_key(&idx, &reg.type_id) {
            Some(p) => {
                proof {
                    lemma_key_position(idx@, reg.type_id);
                }
                assert(prims@[p as int] == pre[p as int]);
                return Err(ComponentLoadError::DuplicatePrimary { existing: idx[p].1.clone(), name: reg.name.clone() });
            },
            None => {
                proof {
                    lemma_key_position(idx@, reg.type_id);
                }
                idx.push((reg.type_id, reg.name.clone()));
                let ghost pre2 = prims@.subrange(0, j + 1);
                assert(primaries_valid(pre2, names.deep_view())) by {
                    assert forall|a: int| 0 <= a < pre2.len() implies names.deep_view().contains(#[trigger] pre2[a].name@) by {
                        if a < j {
                            assert(pre2[a] == pre[a]);
                        } else {
                            assert(pre2[a] == prims@[j as int]);
                        }
                    }
                    assert forall|a: int, b: int| 0 <= a < b < pre2.len() implies #[trigger] pre2[a].type_id != #[trigger] pre2[b].type_id by {
                        if b < j {
                            assert(pre2[a] == pre[a] && pre2[b] == pre[b]);
                        } else {
                            assert(idx@[a].0 == pre[a].type_id);
                        }
                    }
                }
                assert(is_primary_index(idx@, pre2)) by {
                    assert forall|a: int| #![trigger idx@[a]] 0 <= a < idx@.len() implies idx@[a].0 == pre2[a].type_id && idx@[a].1@ == pre2[a].name@ by {
                        if a < j {
                            assert(pre2[a] == pre[a]);
                        }
                    }
                }
            },
        }
        j = j + 1;
    }
    assert(prims@.subrange(0, j as int) == prims@);
    assert(distinct_keys(idx@)) by {
        assert forall|a: int, b: int| 0 <= a < idx@.len() && 0 <= b < idx@.len() && a != b implies #[trigger] idx@[a].0 != #[trigger] idx@[b].0 by {
            if a < b {
                assert(prims@[a].type_id != prims@[b].type_id);
            } else {
                assert(prims@[b].type_id != prims@[a].type_id);
            }
        }
    }
    Ok(idx)
}

// ---------------------------------------------------------------------------
// Dependency sets of one component, built without repeated entries.
// ---------------------------------------------------------------------------

/// Entries are distinct nodes below `m`.
pub open spec fn node_set(out: Seq<usize>, m: int) -> bool {
    &&& out.no_duplicates()
    &&& forall|p: int| #![trigger out[p]] 0 <= p < out.len() ==> out[p] < m
}

/// Adds `x` unless present.
fn push_unique(out: &mut Vec<usize>, x: usize, Ghost(m): Ghost<int>)
    requires
        node_set(old(out)@, m),
        x < m,
    ensures
        node_set(final(out)@, m),
        forall|y: usize| #[trigger] final(out)@.contains(y) <==> (old(out)@.contains(y) || y == x),
{
    if !contains_index(out, x) {
        let ghost before = out@;
        out.push(x);
        assert forall|y: usize| #[trigger] out@.contains(y) <==> (before.contains(y) || y == x) by {
            if before.contains(y) {
                let q = choose|q: int| 0 <= q < before.len() && before[q] == y;
                assert(out@[q] == y);
            }
            if out@.contains(y) && y != x {
                let q = choose|q: int| 0 <= q < out@.len() && out@[q] == y;
                assert(q < before.len());
                assert(before[q] == y);
            }
            if y == x {
                assert(out@[before.len() as int] == x);
            }
        }
    }
}

/// Adds every node of type `t`; tells whether there was one.
fn add_type_instances(out: &mut Vec<usize>, node_types: &Vec<TypeId>, t: &TypeId) -> (found: bool)
    requires
        node_set(old(out)@, node_types@.len() as int),
    ensures
        node_set(final(out)@, node_types@.len() as int),
        found == node_types@.contains(*t),
        forall|y: usize|
            #[trigger] final(out)@.contains(y) <==> (old(out)@.contains(y) || (y < node_types@.len() && node_types@[y as int] == *t)),
{
    let m = node_types.len();
    let ghost out0 = out@;
    let mut found = false;
    let mut x: usize = 0;
    while x < m
        invariant
            x <= m == node_types@.len(),
            node_set(out@, m as int),
            found == (exists|y: int| 0 <= y < x && #[trigger] node_types@[y] == *t),
            forall|y: usize|
                #[trigger] out@.contains(y) <==> (out0.contains(y) || (y < x && node_types@[y as int] == *t)),
        decreases m - x,
    {
        if same_type(&node_types[x], t) {
            push_unique(out, x, Ghost(m as int));
            found = true;
        }
        x = x + 1;
    }
    assert(found == node_types@.contains(*t)) by {
        if node_types@.contains(*t) {
            let q = choose|q: int| 0 <= q < node_types@.len() && node_types@[q] == *t;
            assert(node_types@[q] == *t);
        }
    }
    found
}

/// Adds the node named by each entry of `deps`; stops at the first entry
/// that names no node and returns its position.
fn add_name_dependencies(out: &mut Vec<usize>, deps: &Vec<String>, node_names: &Vec<String>) -> (missing: Option<usize>)
    requires
        node_set(old(out)@, node_names@.len() as int),
        node_names.deep_view().no_duplicates(),
    ensures
        node_set(final(out)@, node_names@.len() as int),
        match missing {
            Some(k) => k < deps@.len() && !node_names.deep_view().contains(deps.deep_view()[k as int]),
            None => {
                &&& forall|k: int| 0 <= k < deps@.len() ==> node_names.deep_view().contains(#[trigger] deps.deep_view()[k])
                &&& forall|y: usize|
                    #[trigger] final(out)@.contains(y) <==> (old(out)@.contains(y) || (y < node_names@.len()
                        && deps.deep_view().contains(node_names.deep_view()[y as int])))
            },
        },
{
    let m = node_names.len();
    let ghost out0 = out@;
    let ghost nv = node_names.deep_view();
    let ghost dv = deps.deep_view();
    let mut k: usize = 0;
    while k < deps.len()
        invariant
            k <= deps@.len(),
            m == node_names@.len(),
            nv == node_names.deep_view(),
            dv == deps.deep_view(),
            nv.no_duplicates(),
            node_set(out@, m as int),
            forall|j: int| 0 <= j < k ==> nv.contains(#[trigger] dv[j]),
            forall|y: usize|
                #[trigger] out@.contains(y) <==> (out0.contains(y) || (y < m && exists|j: int| 0 <= j < k && #[trigger] dv[j] == nv[y as int])),
        decreases deps@.len() - k,
    {
        match find_name(node_names, &deps[k]) {
            None => {
                assert(dv[k as int] == deps@[k as int]@);
                return Some(k);
            },
            Some(b) => {
                let ghost before = out@;
                push_unique(out, b, Ghost(m as int));
                assert(nv[b as int] == dv[k as int]);
                assert forall|y: usize|
                    #[trigger] out@.contains(y) <==> (out0.contains(y) || (y < m && exists|j: int| 0 <= j < k + 1 && #[trigger] dv[j] == nv[y as int])) by {
                    if y < m && dv[k as int] == nv[y as int] {
                        assert(y == b);
                    }
                    if y == b {
                        assert(dv[k as int] == nv[y as int]);
                    }
                }
                assert(nv.contains(dv[k as int]));
            },
        }
        k = k + 1;
    }
    assert forall|y: usize|
        #[trigger] out@.contains(y) <==> (out0.contains(y) || (y < m && dv.contains(nv[y as int]))) by {
        if y < m && dv.contains(nv[y as int]) {
            let j = choose|j: int| 0 <= j < dv.len() && dv[j] == nv[y as int];
            assert(dv[j] == nv[y as int]);
        }
    }
    None
}

/// Adds every node of each type in `types`; stops at the first type that
/// has no node and returns its position.
fn add_type_dependencies(out: &mut Vec<usize>, types: &Vec<TypeId>, node_types: &Vec<TypeId>) -> (missing: Option<usize>)
    requires
        node_set(old(out)@, node_types@.len() as int),
    ensures
        node_set(final(out)@, node_types@.len() as int),
        match missing {
            Some(k) => k < types@.len() && !node_types@.contains(types@[k as int]),
            None => {
                &&& forall|k: int| 0 <= k < types@.len() ==> node_types@.contains(#[trigger] types@[k])
                &&& forall|y: usize|
                    #[trigger] final(out)@.contains(y) <==> (old(out)@.contains(y) || (y < node_types@.len()
                        && types@.contains(node_types@[y as int])))
            },
        },
{
    let m = node_types.len();
    let ghost out0 = out@;
    let mut k: usize = 0;
    while k < types.len()
        invariant
            k <= types@.len(),
            m == node_types@.len(),
            node_set(out@, m as int),
            forall|j: int| 0 <= j < k ==> node_types@.contains(#[trigger] types@[j]),
            forall|y: usize|
                #[trigger] out@.contains(y) <==> (out0.contains(y) || (y < m && exists|j: int| 0 <= j < k && #[trigger] types@[j] == node_types@[y as int])),
        decreases types@.len() - k,
    {
        let ghost before = out@;
        let found = add_type_instances(out, node_types, &types[k]);
        if !found {
            return Some(k);
        }
        assert forall|y: usize|
            #[trigger] out@.contains(y) <==> (out0.contains(y) || (y < m && exists|j: int| 0 <= j < k + 1 && #[trigger] types@[j] == node_types@[y as int])) by {
            if y < m && types@[k as int] == node_types@[y as int] {
                assert(out@.contains(y));
            }
        }
        k = k + 1;
    }
    assert forall|y: usize|
        #[trigger] out@.contains(y) <==> (out0.contains(y) || (y < m && types@.contains(node_types@[y as int]))) by {
        if y < m && types@.contains(node_types@[y as int]) {
            let j = choose|j: int| 0 <= j < types@.len() && types@[j] == node_types@[y as int];
            assert(types@[j] == node_types@[y as int]);
        }
    }
    None
}

/// Node type `ty` implements one of the traits `traits`.
pub open spec fn implements_any(regs: Seq<TraitImplRegistration>, traits: Seq<TypeId>, ty: TypeId) -> bool {
    exists|k: int| 0 <= k < traits.len() && #[trigger] impls_of_trait(regs, traits[k]).contains(ty)
}

/// No node is of a type in `impls`.
pub open spec fn no_node_of(impls: Seq<TypeId>, node_types: Seq<TypeId>) -> bool {
    forall|y: int| 0 <= y < node_types.len() ==> !#[trigger] impls.contains(node_types[y])
}

/// Adds every node whose type implements one of `traits`. Stops at the
/// first trait without implementation (`(k, true)`), or at the first trait
/// none of whose implementing types has a node (`(k, false)`).
fn add_trait_dependencies(
    out: &mut Vec<usize>,
    traits: &Vec<TypeId>,
    trait_index: &Vec<(TypeId, Vec<TypeId>)>,
    node_types: &Vec<TypeId>,
    Ghost(regs): Ghost<Seq<TraitImplRegistration>>,
) -> (fault: Option<(usize, bool)>)
    requires
        node_set(old(out)@, node_types@.len() as int),
        distinct_keys(trait_index@),
        forall|tr: TypeId| #[trigger] indexed_types(trait_index@, tr) == impls_of_trait(regs, tr),
    ensures
        node_set(final(out)@, node_types@.len() as int),
        match fault {
            Some((k, unimplemented)) => k < traits@.len() && if unimplemented {
                impls_of_trait(regs, traits@[k as int]).len() == 0
            } else {
                impls_of_trait(regs, traits@[k as int]).len() > 0 && no_node_of(impls_of_trait(regs, traits@[k as int]), node_types@)
            },
            None => {
                &&& forall|k: int| 0 <= k < traits@.len() ==> #[trigger] impls_of_trait(regs, traits@[k]).len() > 0
                &&& forall|k: int| 0 <= k < traits@.len() ==> !no_node_of(#[trigger] impls_of_trait(regs, traits@[k]), node_types@)
                &&& forall|y: usize|
                    #[trigger] final(out)@.contains(y) <==> (old(out)@.contains(y) || (y < node_types@.len()
                        && implements_any(regs, traits@, node_types@[y as int])))
            },
        },
{
    let m = node_types.len();
    let ghost out0 = out@;
    let mut k: usize = 0;
    while k < traits.len()
        invariant
            k <= traits@.len(),
            m == node_types@.len(),
            node_set(out@, m as int),
            distinct_keys(trait_index@),
            forall|tr: TypeId| #[trigger] indexed_types(trait_index@, tr) == impls_of_trait(regs, tr),
            forall|kk: int| 0 <= kk < k ==> #[trigger] impls_of_trait(regs, traits@[kk]).len() > 0,
            forall|kk: int| 0 <= kk < k ==> !no_node_of(#[trigger] impls_of_trait(regs, traits@[kk]), node_types@),
            forall|y: usize|
                #[trigger] out@.contains(y) <==> (out0.contains(y) || (y < m && exists|kk: int|
                    0 <= kk < k && #[trigger] impls_of_trait(regs, traits@[kk]).contains(node_types@[y as int]))),
        decreases traits@.len() - k,
    {
        let ghost impls_k = impls_of_trait(regs, traits@[k as int]);
        assert(indexed_types(trait_index@, traits@[k as int]) == impls_k);
        let p = match find_key(trait_index, &traits[k]) {
            None => {
                return Some((k, true));
            },
            Some(p) => p,
        };
        let impls = &trait_index[p].1;
        assert(impls@ == impls_k);
        if impls.len() == 0 {
            return Some((k, true));
        }
        let ghost out_k = out@;
        let mut any_found = false;
        let mut j: usize = 0;
        while j < impls.len()
            invariant
                j <= impls@.len(),
                k < traits@.len(),
                impls@ == impls_k,
                impls_k == impls_of_trait(regs, traits@[k as int]),
                m == node_types@.len(),
                node_set(out@, m as int),
                any_found == exists|jj: int| 0 <= jj < j && #[trigger] node_types@.contains(impls_k[jj]),
                forall|y: usize|
                    #[trigger] out@.contains(y) <==> (out_k.contains(y) || (y < m && exists|jj: int|
                        0 <= jj < j && #[trigger] impls_k[jj] == node_types@[y as int])),
            decreases impls@.len() - j,
        {
            let found = add_type_instances(out, node_types, &impls[j]);
            if found {
                any_found = true;
            }
            assert(any_found == exists|jj: int| 0 <= jj < j + 1 && #[trigger] node_types@.contains(impls_k[jj])) by {
                if found {
                    assert(node_types@.contains(impls_k[j as int]));
                }
            }
            assert forall|y: usize|
                #[trigger] out@.contains(y) <==> (out_k.contains(y) || (y < m && exists|jj: int|
                    0 <= jj < j + 1 && #[trigger] impls_k[jj] == node_types@[y as int])) by {
                if y < m && impls_k[j as int] == node_types@[y as int] {
                    assert(out@.contains(y));
                }
            }
            j = j + 1;
        }
        if !any_found {
            assert(no_node_of(impls_k, node_types@)) by {
                assert forall|y: int| 0 <= y < node_types@.len() implies !#[trigger] impls_k.contains(node_types@[y]) by {
                    if impls_k.contains(node_types@[y]) {
                        let jj = choose|jj: int| 0 <= jj < impls_k.len() && impls_k[jj] == node_types@[y];
                        assert(node_types@.contains(impls_k[jj]));
                    }
                }
            }
            return Some((k, false));
        }
        assert(!no_node_of(impls_k, node_types@)) by {
            let jj = choose|jj: int| 0 <= jj < impls_k.len() && #[trigger] node_types@.contains(impls_k[jj]);
            let y = choose|y: int| 0 <= y < node_types@.len() && node_types@[y] == impls_k[jj];
            assert(impls_k.contains(node_types@[y]));
        }
        assert forall|y: usize|
            #[trigger] out@.contains(y) <==> (out0.contains(y) || (y < m && exists|kk: int|
                0 <= kk < k + 1 && #[trigger] impls_of_trait(regs, traits@[kk]).contains(node_types@[y as int]))) by {
            if y < m && impls_k.contains(node_types@[y as int]) {
                let jj = choose|jj: int| 0 <= jj < impls_k.len() && impls_k[jj] == node_types@[y as int];
                assert(impls_k[jj] == node_types@[y as int]);
            }
            if out@.contains(y) && !out_k.contains(y) {
                let jj = choose|jj: int| 0 <= jj < impls_k.len() && #[trigger] impls_k[jj] == node_types@[y as int];
                assert(impls_k.contains(node_types@[y as int]));
            }
        }
        k = k + 1;
    }
    None
}

/// Name the primary index gives for type `t`, if any.
pub open spec fn indexed_primary(idx: Seq<(TypeId, String)>, t: TypeId) -> Option<Seq<char>> {
    match key_position(idx, t) {
        Some(p) => Some(idx[p].1@),
        None => None,
    }
}

/// An index of valid primary declarations gives, for each type, the name
/// declared primary for it.
proof fn lemma_primary_lookup(idx: Seq<(TypeId, String)>, prims: Seq<PrimaryRegistration>, t: TypeId)
    requires
        is_primary_index(idx, prims),
        distinct_keys(idx),
    ensures
        indexed_primary(idx, t) == primary_name(prims, t),
{
    lemma_key_position(idx, t);
    if exists|j: int| 0 <= j < prims.len() && #[trigger] prims[j].type_id == t {
        let c = choose|j: int| 0 <= j < prims.len() && #[trigger] prims[j].type_id == t;
        assert(idx[c].0 == t);
        assert(key_position(idx, t) == Some(c));
    } else {
        assert forall|i: int| 0 <= i < idx.len() implies idx[i].0 != t by {
            assert(idx[i].0 == prims[i].type_id);
        }
    }
}

/// Adds the primary instance of each type in `types`; stops at the first
/// type without a primary instance and returns its position.
fn add_primary_dependencies(
    out: &mut Vec<usize>,
    types: &Vec<TypeId>,
    primary_index: &Vec<(TypeId, String)>,
    node_names: &Vec<String>,
) -> (missing: Option<usize>)
    requires
        node_set(old(out)@, node_names@.len() as int),
        distinct_keys(primary_index@),
        node_names.deep_view().no_duplicates(),
        forall|p: int| 0 <= p < primary_index@.len() ==> node_names.deep_view().contains(#[trigger] primary_index@[p].1@),
    ensures
        node_set(final(out)@, node_names@.len() as int),
        match missing {
            Some(k) => k < types@.len() && indexed_primary(primary_index@, types@[k as int]) is None,
            None => {
                &&& forall|k: int| 0 <= k < types@.len() ==> #[trigger] indexed_primary(primary_index@, types@[k]) is Some
                &&& forall|y: usize|
                    #[trigger] final(out)@.contains(y) <==> (old(out)@.contains(y) || (y < node_names@.len()
                        && exists|k: int| 0 <= k < types@.len() && #[trigger] indexed_primary(primary_index@, types@[k]) == Some(node_names.deep_view()[y as int])))
            },
        },
{
    let m = node_names.len();
    let ghost out0 = out@;
    let ghost nv = node_names.deep_view();
    let mut k: usize = 0;
    while k < types.len()
        invariant
            k <= types@.len(),
            m == node_names@.len(),
            nv == node_names.deep_view(),
            nv.no_duplicates(),
            distinct_keys(primary_index@),
            forall|p: int| 0 <= p < primary_index@.len() ==> nv.contains(#[trigger] primary_index@[p].1@),
            node_set(out@, m as int),
            forall|kk: int| 0 <= kk < k ==> #[trigger] indexed_primary(primary_index@, types@[kk]) is Some,
            forall|y: usize|
                #[trigger] out@.contains(y) <==> (out0.contains(y) || (y < m && exists|kk: int|
                    0 <= kk < k && #[trigger] indexed_primary(primary_index@, types@[kk]) == Some(nv[y as int]))),
        decreases types@.len() - k,
    {
        let p = match find_key(primary_index, &types[k]) {
            None => {
                return Some(k);
            },
            Some(p) => p,
        };
        proof {
            lemma_key_position(primary_index@, types@[k as int]);
        }
        let ghost pn = primary_index@[p as int].1@;
        assert(indexed_primary(primary_index@, types@[k as int]) == Some(pn));
        assert(nv.contains(pn));
        let b = match find_name(node_names, &primary_index[p].1) {
            Some(b) => b,
            None => {
                assert(false);
                return Some(k);
            },
        };
        push_unique(out, b, Ghost(m as int));
        assert(nv[b as int] == pn);
        assert forall|y: usize|
            #[trigger] out@.contains(y) <==> (out0.contains(y) || (y < m && exists|kk: int|
                0 <= kk < k + 1 && #[trigger] indexed_primary(primary_index@, types@[kk]) == Some(nv[y as int]))) by {
            if y < m && indexed_primary(primary_index@, types@[k as int]) == Some(nv[y as int]) {
                assert(y == b);
            }
            if y == b {
                assert(indexed_primary(primary_index@, types@[k as int]) == Some(nv[y as int]));
            }
        }
        k = k + 1;
    }
    None
}

// ---------------------------------------------------------------------------
// The creation graph over the registered components.
//
// Node `a` is the `a`-th registered component, declared at `kept[a]`.
// ---------------------------------------------------------------------------

/// Names of the registered components, node by node.
pub open spec fn kept_names(decls: Seq<ComponentDeclaration>, kept: Seq<usize>) -> Seq<Seq<char>> {
    kept.map_values(|i: usize| decls[i as int].name@)
}

/// Types of the registered components, node by node.
pub open spec fn kept_types(decls: Seq<ComponentDeclaration>, kept: Seq<usize>) -> Seq<TypeId> {
    kept.map_values(|i: usize| decls[i as int].type_id)
}

/// Node `a` depends on node `b`: by name, through a trait that `b`'s type
/// implements, through `b`'s type, or because `b` is the primary instance
/// of a type that `a` asks the primary of.
pub open spec fn creation_depends(
    decls: Seq<ComponentDeclaration>,
    kept: Seq<usize>,
    regs: Seq<TraitImplRegistration>,
    prims: Seq<PrimaryRegistration>,
    a: int,
    b: usize,
) -> bool {
    let d = decls[kept[a] as int];
    let bn = kept_names(decls, kept)[b as int];
    let bt = kept_types(decls, kept)[b as int];
    &&& b < kept.len()
    &&& {
        ||| d.dependencies.deep_view().contains(bn)
        ||| implements_any(regs, d.trait_dependencies@, bt)
        ||| d.type_dependencies@.contains(bt)
        ||| exists|k: int|
            0 <= k < d.primary_dependencies@.len() && #[trigger] primary_name(prims, d.primary_dependencies@[k]) == Some(bn)
    }
}

/// The dependency relation of the creation graph.
pub open spec fn creation_relation(
    decls: Seq<ComponentDeclaration>,
    kept: Seq<usize>,
    regs: Seq<TraitImplRegistration>,
    prims: Seq<PrimaryRegistration>,
) -> spec_fn(int, usize) -> bool {
    |a: int, b: usize| creation_depends(decls, kept, regs, prims, a, b)
}

/// The `k`-th name dependency of node `a` names no registered component.
pub open spec fn name_dependency_missing(decls: Seq<ComponentDeclaration>, kept: Seq<usize>, a: int, k: int) -> bool {
    let d = decls[kept[a] as int];
    0 <= k < d.dependencies@.len() && !kept_names(decls, kept).contains(d.dependencies.deep_view()[k])
}

/// The `k`-th trait dependency of node `a` has no implementation.
pub open spec fn trait_unimplemented(
    decls: Seq<ComponentDeclaration>,
    kept: Seq<usize>,
    regs: Seq<TraitImplRegistration>,
    a: int,
    k: int,
) -> bool {
    let d = decls[kept[a] as int];
    0 <= k < d.trait_dependencies@.len() && impls_of_trait(regs, d.trait_dependencies@[k]).len() == 0
}

/// The `k`-th trait dependency of node `a` has implementations, but none of
/// the implementing types has a registered component.
pub open spec fn trait_without_instances(
    decls: Seq<ComponentDeclaration>,
    kept: Seq<usize>,
    regs: Seq<TraitImplRegistration>,
    a: int,
    k: int,
) -> bool {
    let d = decls[kept[a] as int];
    let impls = impls_of_trait(regs, d.trait_dependencies@[k]);
    0 <= k < d.trait_dependencies@.len() && impls.len() > 0 && no_node_of(impls, kept_types(decls, kept))
}

/// The `k`-th type dependency of node `a` has no registered component.
pub open spec fn type_unregistered(decls: Seq<ComponentDeclaration>, kept: Seq<usize>, a: int, k: int) -> bool {
    let d = decls[kept[a] as int];
    0 <= k < d.type_dependencies@.len() && !kept_types(decls, kept).contains(d.type_dependencies@[k])
}

/// The `k`-th primary dependency of node `a` names a type without primary.
pub open spec fn primary_undeclared(
    decls: Seq<ComponentDeclaration>,
    kept: Seq<usize>,
    prims: Seq<PrimaryRegistration>,
    a: int,
    k: int,
) -> bool {
    let d = decls[kept[a] as int];
    0 <= k < d.primary_dependencies@.len() && primary_name(prims, d.primary_dependencies@[k]) is None
}

/// Every dependency of node `a` resolves to registered components.
pub open spec fn node_resolvable(
    decls: Seq<ComponentDeclaration>,
    kept: Seq<usize>,
    regs: Seq<TraitImplRegistration>,
    prims: Seq<PrimaryRegistration>,
    a: int,
) -> bool {
    &&& forall|k: int| !#[trigger] name_dependency_missing(decls, kept, a, k)
    &&& forall|k: int| !#[trigger] trait_unimplemented(decls, kept, regs, a, k)
    &&& forall|k: int| !#[trigger] trait_without_instances(decls, kept, regs, a, k)
    &&& forall|k: int| !#[trigger] type_unregistered(decls, kept, a, k)
    &&& forall|k: int| !#[trigger] primary_undeclared(decls, kept, prims, a, k)
}

/// Every dependency of every registered component resolves.
pub open spec fn dependencies_resolvable(
    decls: Seq<ComponentDeclaration>,
    kept: Seq<usize>,
    regs: Seq<TraitImplRegistration>,
    prims: Seq<PrimaryRegistration>,
) -> bool {
    forall|a: int| 0 <= a < kept.len() ==> #[trigger] node_resolvable(decls, kept, regs, prims, a)
}

/// `e` reports a dependency of node `a` that does not resolve.
pub open spec fn describes_fault(
    decls: Seq<ComponentDeclaration>,
    kept: Seq<usize>,
    regs: Seq<TraitImplRegistration>,
    prims: Seq<PrimaryRegistration>,
    a: int,
    e: ComponentLoadError,
) -> bool {
    let d = decls[kept[a] as int];
    let name = kept_names(decls, kept)[a];
    match e {
        ComponentLoadError::UnregisteredDependency { dependency } => exists|k: int|
            #[trigger] name_dependency_missing(decls, kept, a, k) && d.dependencies.deep_view()[k] == dependency@,
        ComponentLoadError::TraitWithoutImplementation { component, trait_type_id } => component@ == name
            && exists|k: int| #[trigger] trait_unimplemented(decls, kept, regs, a, k) && d.trait_dependencies@[k] == trait_type_id,
        ComponentLoadError::TraitWithoutInstances { component, trait_type_id } => component@ == name && exists|k: int|
            #[trigger] trait_without_instances(decls, kept, regs, a, k) && d.trait_dependencies@[k] == trait_type_id,
        ComponentLoadError::TypeWithoutInstances { component, type_id } => component@ == name && exists|k: int|
            #[trigger] type_unregistered(decls, kept, a, k) && d.type_dependencies@[k] == type_id,
        ComponentLoadError::PrimaryMissing { component, type_id } => component@ == name && exists|k: int|
            #[trigger] primary_undeclared(decls, kept, prims, a, k) && d.primary_dependencies@[k] == type_id,
        _ => false,
    }
}

/// Expands the dependencies of node `a` into the set of nodes it depends on.
fn node_dependencies(
    decls: &Vec<ComponentDeclaration>,
    kept: &Vec<usize>,
    node_names: &Vec<String>,
    node_types: &Vec<TypeId>,
    trait_index: &Vec<(TypeId, Vec<TypeId>)>,
    primary_index: &Vec<(TypeId, String)>,
    a: usize,
    Ghost(regs): Ghost<Seq<TraitImplRegistration>>,
    Ghost(prims): Ghost<Seq<PrimaryRegistration>>,
) -> (r: Result<Vec<usize>, ComponentLoadError>)
    requires
        a < kept@.len(),
        forall|p: int| #![trigger kept@[p]] 0 <= p < kept@.len() ==> kept@[p] < decls@.len(),
        node_names.deep_view() == kept_names(decls@, kept@),
        node_types@ == kept_types(decls@, kept@),
        node_names.deep_view().no_duplicates(),
        distinct_keys(trait_index@),
        forall|tr: TypeId| #[trigger] indexed_types(trait_index@, tr) == impls_of_trait(regs, tr),
        is_primary_index(primary_index@, prims),
        distinct_keys(primary_index@),
        primaries_valid(prims, kept_names(decls@, kept@)),
    ensures
        r is Ok <==> node_resolvable(decls@, kept@, regs, prims, a as int),
        match r {
            Ok(out) => {
                &&& node_set(out@, kept@.len() as int)
                &&& forall|y: usize| #[trigger] out@.contains(y) <==> creation_depends(decls@, kept@, regs, prims, a as int, y)
            },
            Err(e) => describes_fault(decls@, kept@, regs, prims, a as int, e),
        },
{
    let m = kept.len();
    let ghost nv = node_names.deep_view();
    let ghost dd = decls@;
    let ghost kk = kept@;
    let d = &decls[kept[a]];
    assert(nv.len() == node_names@.len());
    assert(node_names@.len() == m && node_types@.len() == m);
    assert(nv[a as int] == d.name@);
    assert forall|p: int| 0 <= p < primary_index@.len() implies nv.contains(#[trigger] primary_index@[p].1@) by {
        assert(primary_index@[p].1@ == prims[p].name@);
    }
    assert forall|t: TypeId| #[trigger] indexed_primary(primary_index@, t) == primary_name(prims, t) by {
        lemma_primary_lookup(primary_index@, prims, t);
    }
    let mut out: Vec<usize> = Vec::new();
    match add_name_dependencies(&mut out, &d.dependencies, node_names) {
        Some(k) => {
            assert(name_dependency_missing(dd, kk, a as int, k as int));
            return Err(ComponentLoadError::UnregisteredDependency { dependency: d.dependencies[k].clone() });
        },
        None => {},
    }
    let ghost out1 = out@;
    match add_trait_dependencies(&mut out, &d.trait_dependencies, trait_index, node_types, Ghost(regs)) {
        Some((k, unimplemented)) => {
            let component = node_names[a].clone();
            let trait_type_id = d.trait_dependencies[k];
            if unimplemented {
                assert(trait_unimplemented(dd, kk, regs, a as int, k as int));
                return Err(ComponentLoadError::TraitWithoutImplementation { component, trait_type_id });
            } else {
                assert(trait_without_instances(dd, kk, regs, a as int, k as int));
                return Err(ComponentLoadError::TraitWithoutInstances { component, trait_type_id });
            }
        },
        None => {},
    }
    let ghost out2 = out@;
    match add_type_dependencies(&mut out, &d.type_dependencies, node_types) {
        Some(k) => {
            assert(type_unregistered(dd, kk, a as int, k as int));
            return Err(ComponentLoadError::TypeWithoutInstances { component: node_names[a].clone(), type_id: d.type_dependencies[k] });
        },
        None => {},
    }
    let ghost out3 = out@;
    match add_primary_dependencies(&mut out, &d.primary_dependencies, primary_index, node_names) {
        Some(k) => {
            assert(primary_undeclared(dd, kk, prims, a as int, k as int));
            return Err(ComponentLoadError::PrimaryMissing { component: node_names[a].clone(), type_id: d.primary_dependencies[k] });
        },
        None => {},
    }
    assert forall|k: int| !#[trigger] name_dependency_missing(dd, kk, a as int, k) by {}
    assert forall|k: int| !#[trigger] trait_unimplemented(dd, kk, regs, a as int, k) by {}
    assert forall|k: int| !#[trigger] trait_without_instances(dd, kk, regs, a as int, k) by {}
    assert forall|k: int| !#[trigger] type_unregistered(dd, kk, a as int, k) by {}
    let ghost pd = d.primary_dependencies@;
    assert forall|k: int| !#[trigger] primary_undeclared(dd, kk, prims, a as int, k) by {
        if 0 <= k < pd.len() {
            assert(indexed_primary(primary_index@, pd[k]) is Some);
        }
    }
    assert forall|y: usize| #[trigger] out@.contains(y) <==> creation_depends(dd, kk, regs, prims, a as int, y) by {
        if y < m {
            let bn = nv[y as int];
            assert(bn == kept_names(dd, kk)[y as int]);
            assert(node_types@[y as int] == kept_types(dd, kk)[y as int]);
            if exists|k: int| 0 <= k < pd.len() && #[trigger] indexed_primary(primary_index@, pd[k]) == Some(bn) {
                let k = choose|k: int| 0 <= k < pd.len() && #[trigger] indexed_primary(primary_index@, pd[k]) == Some(bn);
                assert(primary_name(prims, pd[k]) == Some(bn));
            }
            if exists|k: int| 0 <= k < pd.len() && #[trigger] primary_name(prims, pd[k]) == Some(bn) {
                let k = choose|k: int| 0 <= k < pd.len() && #[trigger] primary_name(prims, pd[k]) == Some(bn);
                assert(indexed_primary(primary_index@, pd[k]) == Some(bn));
            }
        }
    }
    Ok(out)
}

/// Names and types of the registered components, node by node.
fn node_table(decls: &Vec<ComponentDeclaration>, kept: &Vec<usize>) -> (r: (Vec<String>, Vec<TypeId>))
    requires
        forall|p: int| #![trigger kept@[p]] 0 <= p < kept@.len() ==> kept@[p] < decls@.len(),
    ensures
        r.0.deep_view() == kept_names(decls@, kept@),
        r.1@ == kept_types(decls@, kept@),
{
    let mut names: Vec<String> = Vec::new();
    let mut types: Vec<TypeId> = Vec::new();
    let mut p: usize = 0;
    while p < kept.len()
        invariant
            p <= kept@.len(),
            forall|q: int| #![trigger kept@[q]] 0 <= q < kept@.len() ==> kept@[q] < decls@.len(),
            names.deep_view() == kept_names(decls@, kept@).subrange(0, p as int),
            types@ == kept_types(decls@, kept@).subrange(0, p as int),
        decreases kept@.len() - p,
    {
        let ghost before = names.deep_view();
        let d = &decls[kept[p]];
        names.push(d.name.clone());
        types.push(d.type_id);
        assert(names.deep_view() =~= before.push(d.name@));
        assert(names.deep_view() =~= kept_names(decls@, kept@).subrange(0, p + 1));
        assert(types@ =~= kept_types(decls@, kept@).subrange(0, p + 1));
        p = p + 1;
    }
    assert(kept_names(decls@, kept@).subrange(0, p as int) == kept_names(decls@, kept@));
    assert(kept_types(decls@, kept@).subrange(0, p as int) == kept_types(decls@, kept@));
    (names, types)
}

/// Builds the creation graph: `graph[a]` lists, once each, the nodes that
/// node `a` depends on. Fails on a dependency that does not resolve.
pub fn build_creation_graph(
    decls: &Vec<ComponentDeclaration>,
    kept: &Vec<usize>,
    trait_impls: &Vec<TraitImplRegistration>,
    prims: &Vec<PrimaryRegistration>,
) -> (r: Result<Vec<Vec<usize>>, ComponentLoadError>)
    requires
        forall|p: int| #![trigger kept@[p]] 0 <= p < kept@.len() ==> kept@[p] < decls@.len(),
        kept_names(decls@, kept@).no_duplicates(),
        primaries_valid(prims@, kept_names(decls@, kept@)),
    ensures
        r is Ok <==> dependencies_resolvable(decls@, kept@, trait_impls@, prims@),
        match r {
            Ok(graph) => {
                &&& graph@.len() == kept@.len()
                &&& well_formed(graph@)
                &&& represents(graph@, creation_relation(decls@, kept@, trait_impls@, prims@))
            },
            Err(e) => exists|a: int| 0 <= a < kept@.len() && #[trigger] describes_fault(decls@, kept@, trait_impls@, prims@, a, e),
        },
{
    let ghost regs = trait_impls@;
    let ghost rel = creation_relation(decls@, kept@, trait_impls@, prims@);
    let (node_names, node_types) = node_table(decls, kept);
    let trait_index = build_trait_impl_index(trait_impls);
    let primary_index = match build_primary_index(prims, &node_names) {
        Ok(idx) => idx,
        Err(e) => {
            assert(false);
            return Err(e);
        },
    };
    let m = kept.len();
    let mut graph: Vec<Vec<usize>> = Vec::new();
    let mut a: usize = 0;
    while a < m
        invariant
            a <= m == kept@.len(),
            forall|p: int| #![trigger kept@[p]] 0 <= p < kept@.len() ==> kept@[p] < decls@.len(),
            node_names.deep_view() == kept_names(decls@, kept@),
            node_types@ == kept_types(decls@, kept@),
            node_names.deep_view().no_duplicates(),
            distinct_keys(trait_index@),
            forall|tr: TypeId| #[trigger] indexed_types(trait_index@, tr) == impls_of_trait(regs, tr),
            is_primary_index(primary_index@, prims@),
            distinct_keys(primary_index@),
            primaries_valid(prims@, kept_names(decls@, kept@)),
            regs == trait_impls@,
            rel == creation_relation(decls@, kept@, trait_impls@, prims@),
            graph@.len() == a,
            forall|b: int| 0 <= b < a ==> #[trigger] node_resolvable(decls@, kept@, regs, prims@, b),
            forall|b: int| #![trigger graph@[b]] 0 <= b < a ==> node_set(graph@[b]@, m as int),
            forall|b: int, y: usize|
                #![trigger graph@[b]@.contains(y)]
                0 <= b < a ==> (graph@[b]@.contains(y) <==> creation_depends(decls@, kept@, regs, prims@, b, y)),
        decreases m - a,
    {
        match node_dependencies(decls, kept, &node_names, &node_types, &trait_index, &primary_index, a, Ghost(regs), Ghost(prims@)) {
            Err(e) => {
                assert(describes_fault(decls@, kept@, trait_impls@, prims@, a as int, e));
                return Err(e);
            },
            Ok(out) => {
                let ghost before = graph@;
                graph.push(out);
                assert forall|b: int| #![trigger graph@[b]] 0 <= b < a + 1 implies node_set(graph@[b]@, m as int) by {
                    if b < a {
                        assert(graph@[b] == before[b]);
                    }
                }
                assert forall|b: int, y: usize|
                    #![trigger graph@[b]@.contains(y)]
                    0 <= b < a + 1 implies (graph@[b]@.contains(y) <==> creation_depends(decls@, kept@, regs, prims@, b, y)) by {
                    if b < a {
                        assert(graph@[b] == before[b]);
                    }
                }
            },
        }
        a = a + 1;
    }
    assert(well_formed(graph@)) by {
        assert forall|i: int, k: int| #![trigger graph@[i]@[k]] 0 <= i < graph@.len() && 0 <= k < graph@[i]@.len() implies graph@[i]@[k] < graph@.len() by {
            assert(node_set(graph@[i]@, m as int));
        }
    }
    assert(represents(graph@, rel)) by {
        assert forall|i: int, d: usize| 0 <= i < graph@.len() implies (crate::graph::depends_on(graph@, i, d) <==> rel(i, d)) by {
            assert(graph@[i]@.contains(d) <==> creation_depends(decls@, kept@, regs, prims@, i, d));
        }
    }
    Ok(graph)
}

/// Orders the creation graph so that each node comes after the nodes it
/// depends on (Kahn's algorithm). On a cycle, reports one: each listed
/// component depends on the next, and the last repeats the first.
pub fn topo_sort_creation(graph: &Vec<Vec<usize>>, node_names: &Vec<String>) -> (r: Result<Vec<usize>, ComponentLoadError>)
    requires
        well_formed(graph@),
        node_names@.len() == graph@.len(),
    ensures
        r is Ok <==> !has_dependency_cycle(graph@),
        match r {
            Ok(order) => is_dependency_order(graph@, order@),
            Err(ComponentLoadError::CircularDependency { cycle }) => exists|c: Seq<usize>|
                #[trigger] is_cycle_within(graph@, all_positions(graph@.len() as int), c) && cycle.deep_view()
                    == names_at(node_names.deep_view(), c),
            Err(_) => false,
        },
{
    match dependency_order(graph) {
        OrderOutcome::Ordered(order) => Ok(order),
        OrderOutcome::Blocked { blocked, dependents } => {
            let c = find_cycle(graph, &blocked);
            let cycle = names_at_positions(node_names, &c);
            assert(is_cycle_within(graph@, all_positions(graph@.len() as int), c@));
            Err(ComponentLoadError::CircularDependency { cycle })
        },
    }
}

// ---------------------------------------------------------------------------
// The whole plan: registration, then creation order.
// ---------------------------------------------------------------------------

/// Names of the declared components, in declaration order.
pub open spec fn decl_names(decls: Seq<ComponentDeclaration>) -> Seq<Seq<char>> {
    decls.map_values(|d: ComponentDeclaration| d.name@)
}

/// The components can be loaded: names are unique, the primary declarations
/// are valid for the components that pass their conditions, every
/// dependency resolves, and no dependency cycle exists.
pub open spec fn load_succeeds(
    decls: Seq<ComponentDeclaration>,
    regs: Seq<TraitImplRegistration>,
    prims: Seq<PrimaryRegistration>,
    config: ConfigValue,
    verdicts: Seq<bool>,
) -> bool {
    let kept = kept_positions(decls, regs, config, verdicts);
    &&& decl_names(decls).no_duplicates()
    &&& primaries_valid(prims, kept_names(decls, kept))
    &&& dependencies_resolvable(decls, kept, regs, prims)
    &&& !rel_has_cycle(kept.len() as int, creation_relation(decls, kept, regs, prims))
}

/// `order` lists the declarations of the registered components, each after
/// every component it depends on.
pub open spec fn is_creation_order(
    decls: Seq<ComponentDeclaration>,
    regs: Seq<TraitImplRegistration>,
    prims: Seq<PrimaryRegistration>,
    config: ConfigValue,
    verdicts: Seq<bool>,
    order: Seq<usize>,
) -> bool {
    let kept = kept_positions(decls, regs, config, verdicts);
    exists|o: Seq<usize>|
        #[trigger] rel_is_order(kept.len() as int, creation_relation(decls, kept, regs, prims), o) && order
            == o.map_values(|p: usize| kept[p as int])
}

/// `e` is an error that loading can report: a repeated name, else an invalid
/// primary declaration, else a dependency that does not resolve, else a
/// dependency cycle among the registered components.
pub open spec fn describes_load_error(
    decls: Seq<ComponentDeclaration>,
    regs: Seq<TraitImplRegistration>,
    prims: Seq<PrimaryRegistration>,
    config: ConfigValue,
    verdicts: Seq<bool>,
    e: ComponentLoadError,
) -> bool {
    let kept = kept_positions(decls, regs, config, verdicts);
    let names = decl_names(decls);
    let kn = kept_names(decls, kept);
    match e {
        ComponentLoadError::DuplicateName { name } => exists|j: int| #[trigger] is_first_repeat(names, j) && names[j] == name@,
        ComponentLoadError::PrimaryNotRegistered { name } => names.no_duplicates() && exists|j: int|
            0 <= j < prims.len() && #[trigger] prims[j].name@ == name@ && !kn.contains(name@),
        ComponentLoadError::DuplicatePrimary { existing, name } => names.no_duplicates() && exists|i: int, j: int|
            0 <= i < j < prims.len() && #[trigger] prims[i].type_id == #[trigger] prims[j].type_id && prims[i].name@
                == existing@ && prims[j].name@ == name@,
        ComponentLoadError::CircularDependency { cycle } => {
            &&& names.no_duplicates()
            &&& primaries_valid(prims, kn)
            &&& dependencies_resolvable(decls, kept, regs, prims)
            &&& exists|c: Seq<usize>|
                #[trigger] rel_is_cycle(kept.len() as int, creation_relation(decls, kept, regs, prims), all_positions(kept.len() as int), c)
                    && cycle.deep_view() == names_at(kn, c)
        },
        _ => {
            &&& names.no_duplicates()
            &&& primaries_valid(prims, kn)
            &&& exists|a: int| 0 <= a < kept.len() && #[trigger] describes_fault(decls, kept, regs, prims, a, e)
        },
    }
}

/// Names of the declared components.
fn declared_names(decls: &Vec<ComponentDeclaration>) -> (r: Vec<String>)
    ensures
        r.deep_view() == decl_names(decls@),
{
    let mut r: Vec<String> = Vec::new();
    let mut k: usize = 0;
    while k < decls.len()
        invariant
            k <= decls@.len(),
            r.deep_view() == decl_names(decls@).subrange(0, k as int),
        decreases decls@.len() - k,
    {
        let ghost before = r.deep_view();
        r.push(decls[k].name.clone());
        assert(r.deep_view() =~= before.push(decls@[k as int].name@));
        assert(r.deep_view() =~= decl_names(decls@).subrange(0, k + 1));
        k = k + 1;
    }
    assert(decl_names(decls@).subrange(0, k as int) == decl_names(decls@));
    r
}

/// Distinct declared names stay distinct among the registered components.
proof fn lemma_kept_names_distinct(decls: Seq<ComponentDeclaration>, kept: Seq<usize>)
    requires
        decl_names(decls).no_duplicates(),
        strictly_increasing(kept),
        forall|p: int| #![trigger kept[p]] 0 <= p < kept.len() ==> kept[p] < decls.len(),
    ensures
        kept_names(decls, kept).no_duplicates(),
{
    let kn = kept_names(decls, kept);
    assert forall|a: int, b: int| 0 <= a < kn.len() && 0 <= b < kn.len() && a != b implies kn[a] != kn[b] by {
        if a < b {
            assert(kept[a] < kept[b]);
        } else {
            assert(kept[b] < kept[a]);
        }
        assert(decl_names(decls)[kept[a] as int] == kn[a]);
        assert(decl_names(decls)[kept[b] as int] == kn[b]);
    }
}

/// The declarations at the given nodes.
fn declarations_of(kept: &Vec<usize>, order: &Vec<usize>) -> (r: Vec<usize>)
    requires
        forall|p: int| #![trigger order@[p]] 0 <= p < order@.len() ==> order@[p] < kept@.len(),
    ensures
        r@ == order@.map_values(|p: usize| kept@[p as int]),
{
    let mut r: Vec<usize> = Vec::new();
    let mut k: usize = 0;
    while k < order.len()
        invariant
            k <= order@.len(),
            forall|p: int| #![trigger order@[p]] 0 <= p < order@.len() ==> order@[p] < kept@.len(),
            r@ == order@.subrange(0, k as int).map_values(|p: usize| kept@[p as int]),
        decreases order@.len() - k,
    {
        r.push(kept[order[k]]);
        assert(r@ =~= order@.subrange(0, k + 1).map_values(|p: usize| kept@[p as int]));
        k = k + 1;
    }
    assert(order@.subrange(0, k as int) == order@);
    r
}

/// Plans the loading of the declared components: rejects repeated names,
/// keeps the components whose condition holds (evaluated once on a snapshot
/// of all declarations; `custom_verdicts[i]` is the verdict of the `i`-th
/// component's custom condition), checks the primary declarations, expands
/// the dependencies and orders the registered components for creation.
///
/// Returns the declaration positions of the registered components in
/// creation order: each after every component it depends on.
pub fn plan_component_load(
    decls: &Vec<ComponentDeclaration>,
    trait_impls: &Vec<TraitImplRegistration>,
    prims: &Vec<PrimaryRegistration>,
    config: &ConfigValue,
    custom_verdicts: &Vec<bool>,
) -> (r: Result<Vec<usize>, ComponentLoadError>)
    requires
        custom_verdicts@.len() == decls@.len(),
    ensures
        r is Ok <==> load_succeeds(decls@, trait_impls@, prims@, *config, custom_verdicts@),
        match r {
            Ok(order) => is_creation_order(decls@, trait_impls@, prims@, *config, custom_verdicts@, order@),
            Err(e) => describes_load_error(decls@, trait_impls@, prims@, *config, custom_verdicts@, e),
        },
{
    let ghost kept_s = kept_positions(decls@, trait_impls@, *config, custom_verdicts@);
    let ghost rel = creation_relation(decls@, kept_s, trait_impls@, prims@);
    let names = declared_names(decls);
    match first_repeat(&names) {
        Some(j) => {
            return Err(ComponentLoadError::DuplicateName { name: names[j].clone() });
        },
        None => {},
    }
    let kept = filter_components_by_condition(decls, trait_impls, config, custom_verdicts);
    proof {
        lemma_kept_names_distinct(decls@, kept@);
    }
    let (node_names, _) = node_table(decls, &kept);
    match build_primary_index(prims, &node_names) {
        Err(e) => {
            return Err(e);
        },
        Ok(_) => {},
    }
    let graph = match build_creation_graph(decls, &kept, trait_impls, prims) {
        Err(e) => {
            return Err(e);
        },
        Ok(g) => g,
    };
    proof {
        lemma_cycle_bridge(graph@, rel);
    }
    assert(node_names@.len() == node_names.deep_view().len());
    match topo_sort_creation(&graph, &node_names) {
        Ok(order) => {
            proof {
                lemma_order_bridge(graph@, rel, order@);
            }
            let r = declarations_of(&kept, &order);
            assert(rel_is_order(kept_s.len() as int, rel, order@));
            Ok(r)
        },
        Err(e) => {
            proof {
                let c = choose|c: Seq<usize>|
                    #[trigger] is_cycle_within(graph@, all_positions(graph@.len() as int), c) && e->cycle.deep_view()
                        == names_at(node_names.deep_view(), c);
                lemma_found_cycle_bridge(graph@, rel, all_positions(graph@.len() as int), c);
            }
            Err(e)
        },
    }
}

} // verus!
