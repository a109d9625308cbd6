//! Plugin start order: plugins are started after the plugins they depend on.
use crate::graph::{
    all_positions, contains_index, dependency_order, depends_on, find_cycle, lemma_cycle_bridge, lemma_found_cycle_bridge,
    lemma_order_bridge, rel_has_cycle, rel_is_cycle, rel_is_order, represents, well_formed,
    OrderOutcome,
};
use crate::names::{find_name, first_repeat, is_first_repeat, names_at, names_at_positions};
use vstd::prelude::*;

verus! {

/// Why the registered plugins cannot be put in a start order.
#[derive(Debug)]
pub enum PluginOrderError {
    /// Two plugins were registered under this name.
    DuplicateName { name: String },
    /// `plugin` depends on `dependency`, which no registered plugin is named.
    UnregisteredDependency { plugin: String, dependency: String },
    /// The plugins depend on each other in a cycle; each entry depends on the
    /// next and the last entry repeats the first.
    CircularDependency { cycle: Vec<String> },
}

/// Plugin `i` declares a dependency on plugin `j`.
pub open spec fn plugin_depends(names: Seq<Seq<char>>, deps: Seq<Seq<Seq<char>>>, i: int, j: usize) -> bool {
    &&& 0 <= i < names.len()
    &&& j < names.len()
    &&& deps[i].contains(names[j as int])
}

/// The dependency relation among plugins, by position.
pub open spec fn plugin_relation(names: Seq<Seq<char>>, deps: Seq<Seq<Seq<char>>>) -> spec_fn(int, usize) -> bool {
    |i: int, j: usize| plugin_depends(names, deps, i, j)
}

/// Every declared dependency names a registered plugin.
pub open spec fn all_registered(names: Seq<Seq<char>>, deps: Seq<Seq<Seq<char>>>) -> bool {
    forall|i: int, k: int|
        #![trigger deps[i][k]]
        0 <= i < deps.len() && 0 <= k < deps[i].len() ==> names.contains(deps[i][k])
}

/// `deps[i][k]` is the first declared dependency (plugins in registration
/// order, then declarations in order) that names no registered plugin.
pub open spec fn is_first_missing(names: Seq<Seq<char>>, deps: Seq<Seq<Seq<char>>>, i: int, k: int) -> bool {
    &&& 0 <= i < deps.len()
    &&& 0 <= k < deps[i].len()
    &&& !names.contains(deps[i][k])
    &&& forall|i2: int, k2: int|
        #![trigger deps[i2][k2]]
        0 <= i2 < i && 0 <= k2 < deps[i2].len() ==> names.contains(deps[i2][k2])
    &&& forall|k2: int| #![trigger deps[i][k2]] 0 <= k2 < k ==> names.contains(deps[i][k2])
}

/// The first declared dependency that names no registered plugin.
fn first_missing(names: &Vec<String>, deps: &Vec<Vec<String>>) -> (r: Option<(usize, usize)>)
    ensures
        match r {
            Some((i, k)) => is_first_missing(names.deep_view(), deps.deep_view(), i as int, k as int),
            None => all_registered(names.deep_view(), deps.deep_view()),
        },
{
    let ghost nv = names.deep_view();
    let ghost dv = deps.deep_view();
    let mut i: usize = 0;
    while i < deps.len()
        invariant
            i <= deps@.len(),
            nv == names.deep_view(),
            dv == deps.deep_view(),
            forall|i2: int, k2: int|
                #![trigger dv[i2][k2]]
                0 <= i2 < i && 0 <= k2 < dv[i2].len() ==> nv.contains(dv[i2][k2]),
        decreases deps@.len() - i,
    {
        let row = &deps[i];
        let mut k: usize = 0;
        while k < row.len()
            invariant
                i < deps@.len(),
                row == deps@[i as int],
                k <= row@.len(),
                nv == names.deep_view(),
                dv == deps.deep_view(),
                dv[i as int] == row.deep_view(),
                forall|i2: int, k2: int|
                    #![trigger dv[i2][k2]]
                    0 <= i2 < i && 0 <= k2 < dv[i2].len() ==> nv.contains(dv[i2][k2]),
                forall|k2: int| #![trigger dv[i as int][k2]] 0 <= k2 < k ==> nv.contains(dv[i as int][k2]),
            decreases row@.len() - k,
        {
            let found = find_name(names, &row[k]);
            assert(dv[i as int][k as int] == row@[k as int]@);
            if found.is_none() {
                return Some((i, k));
            }
            k = k + 1;
        }
        assert forall|i2: int, k2: int|
            #![trigger dv[i2][k2]]
            0 <= i2 < i + 1 && 0 <= k2 < dv[i2].len() implies nv.contains(dv[i2][k2]) by {
            if i2 == i as int {
                assert(nv.contains(dv[i as int][k2]));
            }
        }
        i = i + 1;
    }
    None
}

/// Resolves each plugin's declared dependencies to plugin positions
/// (each position listed once).
fn resolve_plugin_graph(names: &Vec<String>, deps: &Vec<Vec<String>>) -> (g: Vec<Vec<usize>>)
    requires
        names@.len() == deps@.len(),
        names.deep_view().no_duplicates(),
        all_registered(names.deep_view(), deps.deep_view()),
    ensures
        g@.len() == names@.len(),
        well_formed(g@),
        represents(g@, plugin_relation(names.deep_view(), deps.deep_view())),
{
    let ghost nv = names.deep_view();
    let ghost dv = deps.deep_view();
    let n = names.len();
    let mut g: Vec<Vec<usize>> = Vec::new();
    let mut i: usize = 0;
    while i < n
        invariant
            i <= n,
            n == names@.len(),
            n == deps@.len(),
            nv == names.deep_view(),
            dv == deps.deep_view(),
            nv.no_duplicates(),
            all_registered(nv, dv),
            g@.len() == i,
            forall|a: int, k: int| #![trigger g@[a]@[k]] 0 <= a < i && 0 <= k < g@[a]@.len() ==> g@[a]@[k] < n,
            forall|a: int| #![trigger g@[a]] 0 <= a < i ==> g@[a]@.no_duplicates(),
            forall|a: int, j: usize| #![trigger g@[a]@.contains(j)] 0 <= a < i ==> (g@[a]@.contains(j) <==> plugin_depends(nv, dv, a, j)),
        decreases n - i,
    {
        let row = &deps[i];
        let mut out: Vec<usize> = Vec::new();
        let mut k: usize = 0;
        while k < row.len()
            invariant
                i < n,
                n == names@.len(),
                n == deps@.len(),
                nv == names.deep_view(),
                dv == deps.deep_view(),
                nv.no_duplicates(),
                all_registered(nv, dv),
                row == deps@[i as int],
                dv[i as int] == row.deep_view(),
                k <= row@.len(),
                out@.no_duplicates(),
                forall|t: int| #![trigger out@[t]] 0 <= t < out@.len() ==> out@[t] < n,
                forall|j: usize| #![trigger out@.contains(j)] out@.contains(j) <==> (j < n && dv[i as int].subrange(0, k as int).contains(nv[j as int])),
            decreases row@.len() - k,
        {
            assert(dv[i as int][k as int] == row@[k as int]@);
            assert(nv.contains(dv[i as int][k as int]));
            let found = find_name(names, &row[k]);
            let j = match found {
                Some(j) => j,
                None => {
                    assert(false);
                    0
                },
            };
            assert(nv[j as int] == dv[i as int][k as int]);
            let ghost prefix = dv[i as int].subrange(0, k as int);
            let ghost prefix2 = dv[i as int].subrange(0, k + 1);
            assert(prefix2 == prefix.push(dv[i as int][k as int]));
            if !contains_index(&out, j) {
                let ghost before = out@;
                out.push(j);
                assert forall|a: int, b: int| 0 <= a < out@.len() && 0 <= b < out@.len() && a != b implies out@[a] != out@[b] by {
                    if a == before.len() {
                        assert(before.contains(out@[b]));
                    } else if b == before.len() {
                        assert(before.contains(out@[a]));
                    }
                }
                assert forall|y: usize| #![trigger out@.contains(y)] out@.contains(y) <==> (y < n && prefix2.contains(nv[y as int])) by {
                    if out@.contains(y) && y != j {
                        let t = choose|t: int| 0 <= t < out@.len() && out@[t] == y;
                        assert(before[t] == y);
                    }
                    if y == j {
                        assert(out@[before.len() as int] == j);
                        assert(prefix2[k as int] == nv[y as int]);
                    }
                    if y < n && prefix2.contains(nv[y as int]) && y != j {
                        let t = choose|t: int| 0 <= t < prefix2.len() && prefix2[t] == nv[y as int];
                        if t == k as int {
                            assert(nv[y as int] == nv[j as int]);
                        } else {
                            assert(prefix[t] == nv[y as int]);
                            assert(before.contains(y));
                            let q = choose|q: int| 0 <= q < before.len() && before[q] == y;
                            assert(out@[q] == y);
                        }
                    }
                    if before.contains(y) {
                        let q = choose|q: int| 0 <= q < before.len() && before[q] == y;
                        assert(out@[q] == y);
                        assert(prefix.contains(nv[y as int]));
                        let t = choose|t: int| 0 <= t < prefix.len() && prefix[t] == nv[y as int];
                        assert(prefix2[t] == nv[y as int]);
                    }
                }
            } else {
                assert forall|y: usize| #![trigger out@.contains(y)] out@.contains(y) <==> (y < n && prefix2.contains(nv[y as int])) by {
                    if y < n && prefix2.contains(nv[y as int]) {
                        let t = choose|t: int| 0 <= t < prefix2.len() && prefix2[t] == nv[y as int];
                        if t == k as int {
                            assert(nv[y as int] == nv[j as int]);
                        } else {
                            assert(prefix[t] == nv[y as int]);
                        }
                    }
                    if out@.contains(y) {
                        assert(prefix.contains(nv[y as int]));
                        let t = choose|t: int| 0 <= t < prefix.len() && prefix[t] == nv[y as int];
                        assert(prefix2[t] == nv[y as int]);
                    }
                }
            }
            k = k + 1;
        }
        assert(dv[i as int].subrange(0, k as int) == dv[i as int]);
        let ghost gold = g@;
        g.push(out);
        assert forall|a: int, j: usize| #![trigger g@[a]@.contains(j)] 0 <= a < i + 1 implies (g@[a]@.contains(j) <==> plugin_depends(nv, dv, a, j)) by {
            if a < i {
                assert(g@[a] == gold[a]);
            }
        }
        assert forall|a: int, k: int| #![trigger g@[a]@[k]] 0 <= a < i + 1 && 0 <= k < g@[a]@.len() implies g@[a]@[k] < n by {
            if a < i {
                assert(g@[a] == gold[a]);
            }
        }
        assert forall|a: int| #![trigger g@[a]] 0 <= a < i + 1 implies g@[a]@.no_duplicates() by {
            if a < i {
                assert(g@[a] == gold[a]);
            }
        }
        i = i + 1;
    }
    assert forall|a: int, d: usize| #![trigger depends_on(g@, a, d)] #![trigger plugin_relation(nv, dv)(a, d)] 0 <= a < g@.len() implies (depends_on(g@, a, d) <==> plugin_relation(nv, dv)(a, d)) by {
        assert(g@[a]@.contains(d) <==> plugin_depends(nv, dv, a, d));
    }
    g
}

/// Puts the registered plugins in start order: each plugin after every
/// plugin it depends on. `names[i]` and `deps[i]` are the name and declared
/// dependencies of the plugin registered `i`-th; the result lists positions.
///
/// Fails on the first name registered twice, else on the first dependency
/// that names no registered plugin, else when the plugins depend on each
/// other in a cycle.
pub fn sort_plugins_by_dependency(names: &Vec<String>, deps: &Vec<Vec<String>>) -> (r: Result<Vec<usize>, PluginOrderError>)
    requires
        names@.len() == deps@.len(),
    ensures
        match r {
            Ok(order) => {
                &&& names.deep_view().no_duplicates()
                &&& all_registered(names.deep_view(), deps.deep_view())
                &&& rel_is_order(names@.len() as int, plugin_relation(names.deep_view(), deps.deep_view()), order@)
            },
            Err(PluginOrderError::DuplicateName { name }) => exists|j: int|
                is_first_repeat(names.deep_view(), j) && #[trigger] names.deep_view()[j] == name@,
            Err(PluginOrderError::UnregisteredDependency { plugin, dependency }) => {
                &&& names.deep_view().no_duplicates()
                &&& exists|i: int, k: int|
                    #[trigger] is_first_missing(names.deep_view(), deps.deep_view(), i, k)
                        && names.deep_view()[i] == plugin@ && deps.deep_view()[i][k] == dependency@
            },
            Err(PluginOrderError::CircularDependency { cycle }) => {
                &&& names.deep_view().no_duplicates()
                &&& all_registered(names.deep_view(), deps.deep_view())
                &&& exists|c: Seq<usize>|
                    #[trigger] rel_is_cycle(
                        names@.len() as int,
                        plugin_relation(names.deep_view(), deps.deep_view()),
                        all_positions(names@.len() as int),
                        c,
                    ) && cycle.deep_view() == names_at(names.deep_view(), c)
            },
        },
        (r is Ok) <==> (names.deep_view().no_duplicates() && all_registered(names.deep_view(), deps.deep_view())
            && !rel_has_cycle(names@.len() as int, plugin_relation(names.deep_view(), deps.deep_view()))),
        (r matches Err(PluginOrderError::DuplicateName { .. })) <==> !names.deep_view().no_duplicates(),
        (r matches Err(PluginOrderError::UnregisteredDependency { .. })) <==> (names.deep_view().no_duplicates()
            && !all_registered(names.deep_view(), deps.deep_view())),
{
    let ghost nv = names.deep_view();
    let ghost dv = deps.deep_view();
    let ghost rel = plugin_relation(nv, dv);
    match first_repeat(names) {
        Some(j) => {
            assert(nv.subrange(0, j as int).contains(nv[j as int]));
            return Err(PluginOrderError::DuplicateName { name: names[j].clone() });
        },
        None => {},
    }
    match first_missing(names, deps) {
        Some((i, k)) => {
            let plugin = names[i].clone();
            let dependency = deps[i][k].clone();
            assert(dv[i as int][k as int] == deps@[i as int]@[k as int]@);
            assert(is_first_missing(nv, dv, i as int, k as int));
            assert(!all_registered(nv, dv)) by {
                assert(!nv.contains(dv[i as int][k as int]));
            }
            return Err(PluginOrderError::UnregisteredDependency { plugin, dependency });
        },
        None => {},
    }
    let g = resolve_plugin_graph(names, deps);
    proof {
        lemma_cycle_bridge(g@, rel);
    }
    match dependency_order(&g) {
        OrderOutcome::Ordered(order) => {
            proof {
                lemma_order_bridge(g@, rel, order@);
            }
            Ok(order)
        },
        OrderOutcome::Blocked { blocked, dependents } => {
            let c = find_cycle(&g, &blocked);
            proof {
                lemma_found_cycle_bridge(g@, rel, blocked@.to_set(), c@);
            }
            let cycle = names_at_positions(names, &c);
            assert(rel_is_cycle(names@.len() as int, rel, all_positions(names@.len() as int), c@)) by {
                assert forall|t: int| #![trigger c@[t]] 0 <= t < c@.len() implies all_positions(names@.len() as int).contains(c@[t]) && c@[t] < names@.len() by {}
            }
            Err(PluginOrderError::CircularDependency { cycle })
        },
    }
}

} // verus!
