//! Dependency ordering (Kahn's algorithm) over nodes numbered `0..n`.
//!
//! `deps[i]` lists the nodes that node `i` depends on. A dependency order
//! places every node after all of its dependencies. Both the plugin start
//! order and the component creation order are computed here.
use vstd::prelude::*;

verus! {

/// Every dependency names a node, and no node lists the same dependency twice.
pub open spec fn well_formed(deps: Seq<Vec<usize>>) -> bool {
    &&& forall|i: int, k: int|
        #![trigger deps[i]@[k]]
        0 <= i < deps.len() && 0 <= k < deps[i]@.len() ==> deps[i]@[k] < deps.len()
    &&& forall|i: int| #![trigger deps[i]] 0 <= i < deps.len() ==> deps[i]@.no_duplicates()
}

/// Node `i` depends on node `d`.
pub open spec fn depends_on(deps: Seq<Vec<usize>>, i: int, d: usize) -> bool {
    deps[i]@.contains(d)
}

/// `order` lists distinct nodes, each after all of its dependencies.
pub open spec fn is_partial_order_prefix(deps: Seq<Vec<usize>>, order: Seq<usize>) -> bool {
    &&& order.no_duplicates()
    &&& forall|p: int| #![trigger order[p]] 0 <= p < order.len() ==> order[p] < deps.len()
    &&& forall|p: int, d: usize|
        #![trigger order[p], depends_on(deps, order[p] as int, d)]
        0 <= p < order.len() && depends_on(deps, order[p] as int, d) ==> order.subrange(
            0,
            p,
        ).contains(d)
}

/// `order` lists every node exactly once, each after all of its dependencies.
pub open spec fn is_dependency_order(deps: Seq<Vec<usize>>, order: Seq<usize>) -> bool {
    &&& is_partial_order_prefix(deps, order)
    &&& forall|x: usize| x < deps.len() ==> #[trigger] order.contains(x)
}

/// Node `x` depends on some member of `s`.
#[verifier::opaque]
pub open spec fn has_member_dependency(deps: Seq<Vec<usize>>, s: Set<usize>, x: usize) -> bool {
    exists|d: usize| #[trigger] s.contains(d) && depends_on(deps, x as int, d)
}

/// A non-empty set of nodes in which every member depends on some member.
pub open spec fn is_self_dependent(deps: Seq<Vec<usize>>, s: Set<usize>) -> bool {
    &&& exists|x: usize| #[trigger] s.contains(x)
    &&& forall|x: usize|
        #[trigger] s.contains(x) ==> x < deps.len() && has_member_dependency(deps, s, x)
}

/// The set of all nodes `0..n`.
pub open spec fn all_positions(n: int) -> Set<usize> {
    Set::new(|x: usize| x < n)
}

/// The graph holds a dependency cycle: some set of nodes depends on itself.
pub open spec fn has_dependency_cycle(deps: Seq<Vec<usize>>) -> bool {
    exists|s: Set<usize>| #[trigger] is_self_dependent(deps, s)
}

/// Number of entries of `s` not yet in `done`.
pub open spec fn pending(s: Seq<usize>, done: Set<usize>) -> nat
    decreases s.len(),
{
    if s.len() == 0 {
        0
    } else {
        pending(s.drop_last(), done) + if done.contains(s.last()) {
            0nat
        } else {
            1nat
        }
    }
}

proof fn lemma_pending_zero(s: Seq<usize>, done: Set<usize>)
    ensures
        (pending(s, done) == 0) <==> (forall|k: int| 0 <= k < s.len() ==> done.contains(#[trigger] s[k])),
    decreases s.len(),
{
    if s.len() > 0 {
        lemma_pending_zero(s.drop_last(), done);
        if pending(s, done) == 0 {
            assert forall|k: int| 0 <= k < s.len() implies done.contains(#[trigger] s[k]) by {
                if k < s.len() - 1 {
                    assert(s.drop_last()[k] == s[k]);
                }
            }
        }
        if forall|k: int| 0 <= k < s.len() ==> done.contains(#[trigger] s[k]) {
            assert forall|k: int| 0 <= k < s.drop_last().len() implies done.contains(
                #[trigger] s.drop_last()[k],
            ) by {
                assert(s.drop_last()[k] == s[k]);
            }
            assert(done.contains(s[s.len() - 1]));
        }
    }
}

proof fn lemma_pending_insert(s: Seq<usize>, done: Set<usize>, x: usize)
    requires
        s.no_duplicates(),
        !done.contains(x),
    ensures
        pending(s, done.insert(x)) + (if s.contains(x) {
            1nat
        } else {
            0nat
        }) == pending(s, done),
    decreases s.len(),
{
    if s.len() > 0 {
        let t = s.drop_last();
        assert(t.no_duplicates()) by {
            assert forall|a: int, b: int| 0 <= a < t.len() && 0 <= b < t.len() && a != b implies t[a]
                != t[b] by {
                assert(t[a] == s[a] && t[b] == s[b]);
            }
        }
        lemma_pending_insert(t, done, x);
        if s.last() == x {
            assert(!t.contains(x)) by {
                if t.contains(x) {
                    let k = choose|k: int| 0 <= k < t.len() && t[k] == x;
                    assert(s[k] == s[s.len() - 1]);
                }
            }
            assert(s.contains(x)) by {
                assert(s[s.len() - 1] == x);
            }
        } else {
            assert(s.contains(x) == t.contains(x)) by {
                if s.contains(x) {
                    let k = choose|k: int| 0 <= k < s.len() && s[k] == x;
                    assert(k < s.len() - 1);
                    assert(t[k] == x);
                }
                if t.contains(x) {
                    let k = choose|k: int| 0 <= k < t.len() && t[k] == x;
                    assert(s[k] == x);
                }
            }
        }
    }
}

/// A dependency order rules out any set of nodes that depends on itself.
pub proof fn lemma_order_excludes_cycle(deps: Seq<Vec<usize>>, order: Seq<usize>, s: Set<usize>)
    requires
        is_dependency_order(deps, order),
    ensures
        !is_self_dependent(deps, s),
{
    if !is_self_dependent(deps, s) {
        return;
    }
    let n = order.len();
    lemma_prefix_outside(deps, order, s, n as int);
    let x = choose|x: usize| #[trigger] s.contains(x);
    assert(order.contains(x));
    let q = choose|q: int| 0 <= q < order.len() && order[q] == x;
    assert(!s.contains(order[q]));
}

proof fn lemma_prefix_outside(deps: Seq<Vec<usize>>, order: Seq<usize>, s: Set<usize>, p: int)
    requires
        is_partial_order_prefix(deps, order),
        is_self_dependent(deps, s),
        0 <= p <= order.len(),
    ensures
        forall|q: int| 0 <= q < p ==> !s.contains(#[trigger] order[q]),
    decreases p,
{
    if p > 0 {
        lemma_prefix_outside(deps, order, s, p - 1);
        let y = order[p - 1];
        if s.contains(y) {
            reveal(has_member_dependency);
            let d = choose|d: usize| #[trigger] s.contains(d) && depends_on(deps, y as int, d);
            assert(order.subrange(0, p - 1).contains(d));
            let q = choose|q: int| #![trigger order.subrange(0, p - 1)[q]] 0 <= q < p - 1 && order.subrange(0, p - 1)[q] == d;
            assert(order[q] == d);
        }
    }
}

/// Result of ordering: an order, or the nodes that could never be placed.
#[derive(Debug)]
pub enum OrderOutcome {
    Ordered(Vec<usize>),
    /// Nodes left unplaced, in increasing order, with the dependent lists
    /// used while ordering (`dependents[d]` = nodes that depend on `d`).
    Blocked { blocked: Vec<usize>, dependents: Vec<Vec<usize>> },
}

/// `dependents[x]` lists, once each, exactly the nodes that depend on `x`.
pub open spec fn dependents_of(deps: Seq<Vec<usize>>, dependents: Seq<Vec<usize>>) -> bool {
    &&& dependents.len() == deps.len()
    &&& forall|x: int| #![trigger dependents[x]] 0 <= x < dependents.len() ==> dependents[x]@.no_duplicates()
    &&& forall|x: int, i: usize|
        #![trigger dependents[x]@.contains(i)]
        0 <= x < dependents.len() ==> (dependents[x]@.contains(i) <==> (i < deps.len()
            && depends_on(deps, i as int, x as usize)))
}

/// Builds the reverse adjacency lists: for each node, the nodes depending on it.
pub fn build_dependents(deps: &Vec<Vec<usize>>) -> (r: Vec<Vec<usize>>)
    requires
        well_formed(deps@),
    ensures
        dependents_of(deps@, r@),
        forall|x: int, k: int|
            #![trigger r@[x]@[k]]
            0 <= x < r@.len() && 0 <= k < r@[x]@.len() ==> r@[x]@[k] < deps@.len(),
{
    let n = deps.len();
    let mut dependents: Vec<Vec<usize>> = Vec::new();
    let mut x: usize = 0;
    while x < n
        invariant
            x <= n,
            n == deps@.len(),
            dependents@.len() == x,
            forall|y: int| #![trigger dependents@[y]] 0 <= y < x ==> dependents@[y]@.len() == 0,
        decreases n - x,
    {
        dependents.push(Vec::new());
        x = x + 1;
    }
    let mut i: usize = 0;
    while i < n
        invariant
            i <= n,
            n == deps@.len(),
            well_formed(deps@),
            dependents@.len() == n,
            forall|y: int| #![trigger dependents@[y]] 0 <= y < n ==> dependents@[y]@.no_duplicates(),
            forall|y: int, k: int|
                #![trigger dependents@[y]@[k]]
                0 <= y < n && 0 <= k < dependents@[y]@.len() ==> dependents@[y]@[k] < i,
            forall|y: int, j: usize|
                #![trigger dependents@[y]@.contains(j)]
                0 <= y < n ==> (dependents@[y]@.contains(j) <==> (j < i && depends_on(
                    deps@,
                    j as int,
                    y as usize,
                ))),
        decreases n - i,
    {
        let row = &deps[i];
        let mut k: usize = 0;
        while k < row.len()
            invariant
                i < n,
                n == deps@.len(),
                well_formed(deps@),
                row == deps@[i as int],
                k <= row@.len(),
                dependents@.len() == n,
                forall|y: int| #![trigger dependents@[y]] 0 <= y < n ==> dependents@[y]@.no_duplicates(),
                forall|y: int, m: int|
                    #![trigger dependents@[y]@[m]]
                    0 <= y < n && 0 <= m < dependents@[y]@.len() ==> dependents@[y]@[m] <= i,
                forall|y: int, j: usize|
                    #![trigger dependents@[y]@.contains(j)]
                    0 <= y < n ==> (dependents@[y]@.contains(j) <==> ((j < i && depends_on(
                        deps@,
                        j as int,
                        y as usize,
                    )) || (j == i && row@.subrange(0, k as int).contains(y as usize)))),
            decreases row@.len() - k,
        {
            let d = row[k];
            assert(deps@[i as int]@[k as int] < n);
            let ghost old_deps = dependents@;
            assert(!dependents@[d as int]@.contains(i)) by {
                if dependents@[d as int]@.contains(i) {
                    let t = choose|t: int| #![trigger row@.subrange(0, k as int)[t]] 0 <= t < k && row@.subrange(0, k as int)[t] == d;
                    assert(row@[t] == row@[k as int]);
                }
            }
            let mut moved: Vec<usize> = Vec::new();
            std::mem::swap(&mut moved, &mut dependents[d]);
            moved.push(i);
            std::mem::swap(&mut moved, &mut dependents[d]);
            assert(dependents@[d as int]@ == old_deps[d as int]@.push(i));
            assert(forall|y: int| 0 <= y < n && y != d as int ==> #[trigger] dependents@[y] == old_deps[y]);
            assert forall|y: int, j: usize| 0 <= y < n implies (#[trigger] dependents@[y]@.contains(j)
                <==> ((j < i && depends_on(deps@, j as int, y as usize)) || (j == i && row@.subrange(
                0,
                k + 1,
            ).contains(y as usize)))) by {
                let ghost old_row = old_deps[y]@;
                let ghost new_row = dependents@[y]@;
                if y == d as int {
                    assert(row@.subrange(0, k + 1)[k as int] == d);
                    assert(row@.subrange(0, k + 1).contains(d));
                    assert(new_row[old_row.len() as int] == i);
                    if j == i {
                        assert(new_row.contains(j));
                    } else {
                        if old_row.contains(j) {
                            let t = choose|t: int| #![trigger old_row[t]] 0 <= t < old_row.len() && old_row[t] == j;
                            assert(new_row[t] == j);
                        }
                        if new_row.contains(j) {
                            let t = choose|t: int| #![trigger new_row[t]] 0 <= t < new_row.len() && new_row[t] == j;
                            assert(t != old_row.len() as int);
                            assert(old_row[t] == j);
                        }
                        assert(old_deps[y]@.contains(j) == (j < i && depends_on(deps@, j as int, y as usize)));
                    }
                } else {
                    assert(new_row == old_row);
                    if row@.subrange(0, k + 1).contains(y as usize) {
                        let t = choose|t: int| #![trigger row@.subrange(0, k + 1)[t]] 0 <= t < k + 1 && row@.subrange(0, k + 1)[t] == y as usize;
                        assert(t < k);
                        assert(row@.subrange(0, k as int)[t] == y as usize);
                    }
                    if row@.subrange(0, k as int).contains(y as usize) {
                        let t = choose|t: int| #![trigger row@.subrange(0, k as int)[t]] 0 <= t < k && row@.subrange(0, k as int)[t] == y as usize;
                        assert(row@.subrange(0, k + 1)[t] == y as usize);
                    }
                }
            }
            assert forall|y: int| #![trigger dependents@[y]] 0 <= y < n implies dependents@[y]@.no_duplicates() by {
                if y == d as int {
                    assert(dependents@[y]@ == old_deps[y]@.push(i));
                    assert forall|a: int, b: int|
                        0 <= a < dependents@[y]@.len() && 0 <= b < dependents@[y]@.len() && a != b implies
                        dependents@[y]@[a] != dependents@[y]@[b] by {
                        if a == old_deps[y]@.len() as int {
                            assert(old_deps[y]@.contains(dependents@[y]@[b]));
                        } else if b == old_deps[y]@.len() as int {
                            assert(old_deps[y]@.contains(dependents@[y]@[a]));
                        }
                    }
                } else {
                    assert(dependents@[y] == old_deps[y]);
                }
            }
            assert forall|y: int, m: int|
                #![trigger dependents@[y]@[m]]
                0 <= y < n && 0 <= m < dependents@[y]@.len() implies dependents@[y]@[m] <= i by {
                if y == d as int {
                    assert(dependents@[y]@ == old_deps[y]@.push(i));
                    if m < old_deps[y]@.len() {
                        assert(dependents@[y]@[m] == old_deps[y]@[m]);
                    }
                } else {
                    assert(dependents@[y] == old_deps[y]);
                }
            }
            k = k + 1;
        }
        assert forall|y: int, j: usize| 0 <= y < n implies (#[trigger] dependents@[y]@.contains(j)
            <==> (j < i + 1 && depends_on(deps@, j as int, y as usize))) by {
            assert(row@.subrange(0, row@.len() as int) == row@);
        }
        assert forall|y: int, m: int|
            #![trigger dependents@[y]@[m]]
            0 <= y < n && 0 <= m < dependents@[y]@.len() implies dependents@[y]@[m] < i + 1 by {}
        i = i + 1;
    }
    dependents
}


proof fn lemma_distinct_below(s: Seq<usize>, n: usize)
    requires
        s.no_duplicates(),
        forall|k: int| 0 <= k < s.len() ==> #[trigger] s[k] < n,
    ensures
        s.len() <= n,
{
    s.unique_seq_to_set();
    <usize as vstd::set_lib::FiniteRange>::range_properties(0, n);
    assert forall|x: usize| s.to_set().contains(x) implies #[trigger] Set::<usize>::range(0, n).contains(x) by {
        assert(s.contains(x));
    }
    vstd::set_lib::lemma_len_subset(s.to_set(), Set::<usize>::range(0, n));
}

proof fn lemma_pending_all(s: Seq<usize>)
    ensures
        pending(s, Set::empty()) == s.len(),
    decreases s.len(),
{
    if s.len() > 0 {
        lemma_pending_all(s.drop_last());
    }
}

/// Every member of a set that depends on itself stays outside a partial order.
pub proof fn lemma_self_dependent_unplaced(deps: Seq<Vec<usize>>, order: Seq<usize>, s: Set<usize>)
    requires
        is_partial_order_prefix(deps, order),
        is_self_dependent(deps, s),
    ensures
        forall|q: int| 0 <= q < order.len() ==> !s.contains(#[trigger] order[q]),
{
    lemma_prefix_outside(deps, order, s, order.len() as int);
}

/// State of Kahn's algorithm after the first `head` entries of `order` were
/// processed (their set is `done`).
spec fn kahn_inv(
    deps: Seq<Vec<usize>>,
    dependents: Seq<Vec<usize>>,
    in_deg: Seq<usize>,
    order: Seq<usize>,
    head: int,
    done: Set<usize>,
) -> bool {
    &&& well_formed(deps)
    &&& dependents_of(deps, dependents)
    &&& forall|x: int, k: int|
        #![trigger dependents[x]@[k]]
        0 <= x < dependents.len() && 0 <= k < dependents[x]@.len() ==> dependents[x]@[k]
            < deps.len()
    &&& in_deg.len() == deps.len()
    &&& 0 <= head <= order.len()
    &&& is_partial_order_prefix(deps, order)
    &&& forall|x: usize| #[trigger] done.contains(x) <==> order.subrange(0, head).contains(x)
    &&& forall|j: int| 0 <= j < deps.len() ==> #[trigger] in_deg[j] == pending(deps[j]@, done)
    &&& forall|j: int|
        0 <= j < deps.len() ==> (#[trigger] order.contains(j as usize) <==> in_deg[j] == 0)
}

fn initial_state(deps: &Vec<Vec<usize>>) -> (r: (Vec<usize>, Vec<usize>))
    requires
        well_formed(deps@),
    ensures
        r.0@.len() == deps@.len(),
        forall|j: int| 0 <= j < deps@.len() ==> #[trigger] r.0@[j] == pending(deps@[j]@, Set::empty()),
        forall|j: int|
            0 <= j < deps@.len() ==> (#[trigger] r.1@.contains(j as usize) <==> r.0@[j] == 0),
        is_partial_order_prefix(deps@, r.1@),
{
    let n = deps.len();
    let mut in_deg: Vec<usize> = Vec::new();
    let mut order: Vec<usize> = Vec::new();
    let mut i: usize = 0;
    while i < n
        invariant
            i <= n,
            n == deps@.len(),
            well_formed(deps@),
            in_deg@.len() == i,
            forall|j: int| 0 <= j < i ==> #[trigger] in_deg@[j] == pending(deps@[j]@, Set::empty()),
            forall|j: int| 0 <= j < i ==> (#[trigger] order@.contains(j as usize) <==> in_deg@[j] == 0),
            forall|p: int| #![trigger order@[p]] 0 <= p < order@.len() ==> order@[p] < i,
            is_partial_order_prefix(deps@, order@),
        decreases n - i,
    {
        proof {
            lemma_pending_all(deps@[i as int]@);
        }
        let ghost order_old = order@;
        let ghost deg_old = in_deg@;
        let len = deps[i].len();
        in_deg.push(len);
        if len == 0 {
            order.push(i);
            assert forall|p: int, d: usize|
                #![trigger order@[p], depends_on(deps@, order@[p] as int, d)]
                0 <= p < order@.len() && depends_on(deps@, order@[p] as int, d) implies order@.subrange(0, p).contains(d) by {
                if p == order_old.len() {
                    assert(deps@[i as int]@.len() == 0);
                } else {
                    assert(order@[p] == order_old[p]);
                    assert(order@.subrange(0, p) == order_old.subrange(0, p));
                }
            }
            assert forall|a: int, b: int| 0 <= a < order@.len() && 0 <= b < order@.len() && a != b implies order@[a] != order@[b] by {
                if a == order_old.len() {
                    assert(order@[b] < i);
                } else if b == order_old.len() {
                    assert(order@[a] < i);
                }
            }
        }
        assert forall|j: int| 0 <= j < i + 1 implies (#[trigger] order@.contains(j as usize) <==> in_deg@[j] == 0) by {
            if j < i {
                assert(in_deg@[j] == deg_old[j]);
                if order@.contains(j as usize) {
                    let p = choose|p: int| 0 <= p < order@.len() && order@[p] == j as usize;
                    if p < order_old.len() {
                        assert(order_old[p] == j as usize);
                    } else {
                        assert(order@[p] == i);
                    }
                }
                if order_old.contains(j as usize) {
                    let p = choose|p: int| 0 <= p < order_old.len() && order_old[p] == j as usize;
                    assert(order@[p] == j as usize);
                }
            } else {
                if len == 0 {
                    assert(order@[order@.len() - 1] == i);
                }
                if order@.contains(j as usize) {
                    let p = choose|p: int| 0 <= p < order@.len() && order@[p] == j as usize;
                    if len != 0 {
                        assert(order@[p] < i);
                    }
                }
            }
        }
        i = i + 1;
    }
    (in_deg, order)
}

proof fn lemma_done_step(order: Seq<usize>, head: int, done: Set<usize>)
    requires
        0 <= head < order.len(),
        forall|x: usize| #[trigger] done.contains(x) <==> order.subrange(0, head).contains(x),
    ensures
        forall|y: usize|
            #[trigger] done.insert(order[head]).contains(y) <==> order.subrange(0, head + 1).contains(y),
{
    let x = order[head];
    assert forall|y: usize| #[trigger] done.insert(x).contains(y) <==> order.subrange(0, head + 1).contains(y) by {
        assert(order.subrange(0, head + 1) == order.subrange(0, head).push(x));
        if order.subrange(0, head).contains(y) {
            let q = choose|q: int| #![trigger order.subrange(0, head)[q]] 0 <= q < head && order.subrange(0, head)[q] == y;
            assert(order.subrange(0, head + 1)[q] == y);
        }
        if order.subrange(0, head + 1).contains(y) && y != x {
            let q = choose|q: int| #![trigger order.subrange(0, head + 1)[q]] 0 <= q < head + 1 && order.subrange(0, head + 1)[q] == y;
            assert(q != head);
            assert(order.subrange(0, head)[q] == y);
        }
        if y == x {
            assert(order.subrange(0, head + 1)[head] == x);
        }
    }
}

/// Releases one dependent `d` of the node `x` being processed: its count of
/// pending dependencies drops by one, and it joins the order at zero.
fn release_one(
    deps: &Vec<Vec<usize>>,
    in_deg: &mut Vec<usize>,
    order: &mut Vec<usize>,
    head: usize,
    d: usize,
    Ghost(done): Ghost<Set<usize>>,
    Ghost(handled): Ghost<Set<usize>>,
)
    requires
        well_formed(deps@),
        old(in_deg)@.len() == deps@.len(),
        head < old(order)@.len(),
        d < deps@.len(),
        depends_on(deps@, d as int, old(order)@[head as int]),
        !handled.contains(d),
        is_partial_order_prefix(deps@, old(order)@),
        !done.contains(old(order)@[head as int]),
        forall|y: usize|
            #[trigger] done.insert(old(order)@[head as int]).contains(y) <==> old(order)@.subrange(
                0,
                head + 1,
            ).contains(y),
        forall|k: int|
            0 <= k < deps@.len() ==> #[trigger] old(in_deg)@[k] == (if handled.contains(k as usize) {
                pending(deps@[k]@, done.insert(old(order)@[head as int]))
            } else {
                pending(deps@[k]@, done)
            }),
        forall|k: int|
            0 <= k < deps@.len() ==> (#[trigger] old(order)@.contains(k as usize) <==> old(in_deg)@[k]
                == 0),
    ensures
        final(in_deg)@.len() == deps@.len(),
        final(order)@.len() >= old(order)@.len(),
        final(order)@.subrange(0, head + 1) == old(order)@.subrange(0, head + 1),
        final(order)@[head as int] == old(order)@[head as int],
        is_partial_order_prefix(deps@, final(order)@),
        forall|k: int|
            0 <= k < deps@.len() ==> #[trigger] final(in_deg)@[k] == (if handled.insert(d).contains(k as usize) {
                pending(deps@[k]@, done.insert(old(order)@[head as int]))
            } else {
                pending(deps@[k]@, done)
            }),
        forall|k: int|
            0 <= k < deps@.len() ==> (#[trigger] final(order)@.contains(k as usize) <==> final(in_deg)@[k] == 0),
{
    let n = deps.len();
    let ghost x = order@[head as int];
    let ghost done2 = done.insert(x);
    proof {
        lemma_pending_insert(deps@[d as int]@, done, x);
    }
    let ghost before = order@;
    let ghost deg_before = in_deg@;
    let cur = in_deg[d];
    assert(cur >= 1);
    in_deg.set(d, cur - 1);
    assert(in_deg@ == deg_before.update(d as int, (cur - 1) as usize));
    assert forall|k: int| 0 <= k < deps@.len() implies #[trigger] in_deg@[k] == (if handled.insert(d).contains(k as usize) {
        pending(deps@[k]@, done2)
    } else {
        pending(deps@[k]@, done)
    }) by {
        if k != d as int {
            assert(k as usize != d);
            assert(in_deg@[k] == deg_before[k]);
            assert(handled.insert(d).contains(k as usize) == handled.contains(k as usize));
        }
    }
    if cur - 1 == 0 {
        order.push(d);
        assert(order@.subrange(0, head + 1) == before.subrange(0, head + 1));
        proof {
            lemma_pending_zero(deps@[d as int]@, done2);
        }
        assert forall|p: int, e: usize|
            #![trigger order@[p], depends_on(deps@, order@[p] as int, e)]
            0 <= p < order@.len() && depends_on(deps@, order@[p] as int, e) implies order@.subrange(0, p).contains(e) by {
            if p == before.len() {
                let k = choose|k: int| 0 <= k < deps@[d as int]@.len() && deps@[d as int]@[k] == e;
                assert(done2.contains(deps@[d as int]@[k]));
                assert(before.subrange(0, head + 1).contains(e));
                let q = choose|q: int| #![trigger before.subrange(0, head + 1)[q]] 0 <= q < head + 1 && before.subrange(0, head + 1)[q] == e;
                assert(order@.subrange(0, p)[q] == e);
            } else {
                assert(order@[p] == before[p]);
                assert(order@.subrange(0, p) == before.subrange(0, p));
            }
        }
        assert forall|a: int, b: int| 0 <= a < order@.len() && 0 <= b < order@.len() && a != b implies order@[a] != order@[b] by {
            if a == before.len() {
                assert(before.contains(order@[b]));
            } else if b == before.len() {
                assert(before.contains(order@[a]));
            }
        }
    }
    assert forall|k: int| 0 <= k < deps@.len() implies (#[trigger] order@.contains(k as usize) <==> in_deg@[k] == 0) by {
        if k != d as int {
            assert(k as usize != d);
            assert(in_deg@[k] == deg_before[k]);
            assert(before.contains(k as usize) <==> deg_before[k] == 0);
            if order@.contains(k as usize) {
                let p = choose|p: int| 0 <= p < order@.len() && order@[p] == k as usize;
                if p < before.len() {
                    assert(before[p] == k as usize);
                }
            }
            if before.contains(k as usize) {
                let p = choose|p: int| 0 <= p < before.len() && before[p] == k as usize;
                assert(order@[p] == k as usize);
            }
        } else {
            assert(in_deg@[k] == cur - 1);
            if cur - 1 == 0 {
                assert(order@[before.len() as int] == d);
            } else {
                assert(order@ == before);
                assert(before.contains((k as usize)) <==> deg_before[k] == 0);
            }
        }
    }
}

/// Processes the node at position `head` of the order: releases each of its
/// dependents.
fn process_node(
    deps: &Vec<Vec<usize>>,
    dependents: &Vec<Vec<usize>>,
    in_deg: &mut Vec<usize>,
    order: &mut Vec<usize>,
    head: usize,
    Ghost(done): Ghost<Set<usize>>,
)
    requires
        kahn_inv(deps@, dependents@, old(in_deg)@, old(order)@, head as int, done),
        head < old(order)@.len(),
    ensures
        kahn_inv(
            deps@,
            dependents@,
            final(in_deg)@,
            final(order)@,
            head + 1,
            done.insert(old(order)@[head as int]),
        ),
        final(order)@[head as int] == old(order)@[head as int],
{
    let n = deps.len();
    let x = order[head];
    let ghost done2 = done.insert(x);
    assert(!done.contains(x)) by {
        if done.contains(x) {
            let q = choose|q: int| #![trigger order@.subrange(0, head as int)[q]] 0 <= q < head && order@.subrange(0, head as int)[q] == x;
            assert(order@[q] == order@[head as int]);
        }
    }
    proof {
        lemma_done_step(order@, head as int, done);
    }
    let row = &dependents[x];
    let mut j: usize = 0;
    while j < row.len()
        invariant
            n == deps@.len(),
            well_formed(deps@),
            dependents_of(deps@, dependents@),
            forall|y: int, k: int|
                #![trigger dependents@[y]@[k]]
                0 <= y < dependents@.len() && 0 <= k < dependents@[y]@.len() ==> dependents@[y]@[k] < n,
            x < n,
            row == dependents@[x as int],
            j <= row@.len(),
            in_deg@.len() == n,
            head < order@.len(),
            order@[head as int] == x,
            is_partial_order_prefix(deps@, order@),
            !done.contains(x),
            done2 == done.insert(x),
            forall|y: usize| #[trigger] done2.contains(y) <==> order@.subrange(0, head + 1).contains(y),
            forall|k: int| 0 <= k < n ==> #[trigger] in_deg@[k] == (if row@.subrange(0, j as int).to_set().contains(k as usize) {
                pending(deps@[k]@, done2)
            } else {
                pending(deps@[k]@, done)
            }),
            forall|k: int| 0 <= k < n ==> (#[trigger] order@.contains(k as usize) <==> in_deg@[k] == 0),
        decreases row@.len() - j,
    {
        let d = row[j];
        assert(dependents@[x as int]@.contains(d));
        assert(!row@.subrange(0, j as int).contains(d)) by {
            if row@.subrange(0, j as int).contains(d) {
                let t = choose|t: int| #![trigger row@.subrange(0, j as int)[t]] 0 <= t < j && row@.subrange(0, j as int)[t] == d;
                assert(row@[t] == row@[j as int]);
            }
        }
        let ghost handled = row@.subrange(0, j as int).to_set();
        let ghost prefix_before = order@.subrange(0, head + 1);
        release_one(deps, in_deg, order, head, d, Ghost(done), Ghost(handled));
        assert(row@.subrange(0, j + 1).to_set() =~= handled.insert(d)) by {
            assert(row@.subrange(0, j + 1) == row@.subrange(0, j as int).push(d));
            assert forall|y: usize| row@.subrange(0, j + 1).contains(y) <==> #[trigger] handled.insert(d).contains(y) by {
                let a = row@.subrange(0, j as int);
                let b = row@.subrange(0, j + 1);
                if a.contains(y) {
                    let t = choose|t: int| #![trigger a[t]] 0 <= t < a.len() && a[t] == y;
                    assert(b[t] == y);
                }
                if b.contains(y) && y != d {
                    let t = choose|t: int| #![trigger b[t]] 0 <= t < b.len() && b[t] == y;
                    assert(t < j);
                    assert(a[t] == y);
                }
                if y == d {
                    assert(b[j as int] == d);
                }
            }
        }
        assert(order@.subrange(0, head + 1) == prefix_before);
        j = j + 1;
    }
    assert forall|k: int| 0 <= k < n implies #[trigger] in_deg@[k] == pending(deps@[k]@, done2) by {
        assert(row@.subrange(0, row@.len() as int) == row@);
        if !row@.contains(k as usize) {
            lemma_pending_insert(deps@[k]@, done, x);
            assert(!depends_on(deps@, k, x));
        }
    }
}

/// The nodes whose pending count stayed positive, in increasing order.
fn collect_blocked(in_deg: &Vec<usize>) -> (r: Vec<usize>)
    ensures
        r@.no_duplicates(),
        forall|x: usize| #[trigger] r@.contains(x) <==> (x < in_deg@.len() && in_deg@[x as int] > 0),
{
    let n = in_deg.len();
    let mut blocked: Vec<usize> = Vec::new();
    let mut i: usize = 0;
    while i < n
        invariant
            i <= n,
            n == in_deg@.len(),
            blocked@.no_duplicates(),
            forall|p: int| #![trigger blocked@[p]] 0 <= p < blocked@.len() ==> blocked@[p] < i,
            forall|x: usize| #[trigger] blocked@.contains(x) <==> (x < i && in_deg@[x as int] > 0),
        decreases n - i,
    {
        if in_deg[i] > 0 {
            let ghost before = blocked@;
            blocked.push(i);
            assert forall|a: int, b: int| 0 <= a < blocked@.len() && 0 <= b < blocked@.len() && a != b implies blocked@[a] != blocked@[b] by {
                if a == before.len() {
                    assert(blocked@[b] < i);
                } else if b == before.len() {
                    assert(blocked@[a] < i);
                }
            }
            assert forall|x: usize| #[trigger] blocked@.contains(x) <==> (x < i + 1 && in_deg@[x as int] > 0) by {
                if x == i {
                    assert(blocked@[before.len() as int] == i);
                }
                if blocked@.contains(x) && x != i {
                    let p = choose|p: int| 0 <= p < blocked@.len() && blocked@[p] == x;
                    assert(before[p] == x);
                }
                if before.contains(x) {
                    let p = choose|p: int| 0 <= p < before.len() && before[p] == x;
                    assert(blocked@[p] == x);
                }
            }
        } else {
            assert forall|x: usize| #[trigger] blocked@.contains(x) <==> (x < i + 1 && in_deg@[x as int] > 0) by {
                if blocked@.contains(x) {
                    let p = choose|p: int| 0 <= p < blocked@.len() && blocked@[p] == x;
                    assert(blocked@[p] < i);
                }
            }
        }
        i = i + 1;
    }
    blocked
}

proof fn lemma_blocked_closed(
    deps: Seq<Vec<usize>>,
    in_deg: Seq<usize>,
    order: Seq<usize>,
    done: Set<usize>,
    blocked: Seq<usize>,
)
    requires
        well_formed(deps),
        in_deg.len() == deps.len(),
        forall|x: usize| #[trigger] done.contains(x) <==> order.contains(x),
        forall|j: int| 0 <= j < deps.len() ==> #[trigger] in_deg[j] == pending(deps[j]@, done),
        forall|j: int|
            0 <= j < deps.len() ==> (#[trigger] order.contains(j as usize) <==> in_deg[j] == 0),
        forall|x: usize| #[trigger] blocked.contains(x) <==> (x < in_deg.len() && in_deg[x as int] > 0),
        blocked.len() > 0,
    ensures
        is_self_dependent(deps, blocked.to_set()),
{
    assert(blocked.contains(blocked[0]));
    assert(blocked.to_set().contains(blocked[0]));
    assert forall|x: usize| #[trigger] blocked.to_set().contains(x) implies x < deps.len() && has_member_dependency(deps, blocked.to_set(), x) by {
        reveal(has_member_dependency);
        assert(blocked.contains(x));
        assert(in_deg[x as int] > 0);
        lemma_pending_zero(deps[x as int]@, done);
        let k = choose|k: int| 0 <= k < deps[x as int]@.len() && !done.contains(#[trigger] deps[x as int]@[k]);
        let e = deps[x as int]@[k];
        assert(e < deps.len());
        assert(!order.contains(e));
        assert(order.contains((e as int) as usize) <==> in_deg[e as int] == 0);
        assert(blocked.contains(e));
        assert(blocked.to_set().contains(e));
        assert(depends_on(deps, x as int, e));
    }
}

proof fn lemma_blocked_maximal(
    deps: Seq<Vec<usize>>,
    in_deg: Seq<usize>,
    order: Seq<usize>,
    blocked: Seq<usize>,
)
    requires
        is_partial_order_prefix(deps, order),
        in_deg.len() == deps.len(),
        forall|j: int|
            0 <= j < deps.len() ==> (#[trigger] order.contains(j as usize) <==> in_deg[j] == 0),
        forall|x: usize| #[trigger] blocked.contains(x) <==> (x < in_deg.len() && in_deg[x as int] > 0),
    ensures
        forall|s: Set<usize>, x: usize|
            is_self_dependent(deps, s) && #[trigger] s.contains(x) ==> blocked.contains(x),
{
    assert forall|s: Set<usize>, x: usize| is_self_dependent(deps, s) && #[trigger] s.contains(x) implies blocked.contains(x) by {
        lemma_self_dependent_unplaced(deps, order, s);
        assert(x < deps.len());
        if !blocked.contains(x) {
            assert(order.contains((x as int) as usize) <==> in_deg[x as int] == 0);
            assert(order.contains(x));
            let q = choose|q: int| 0 <= q < order.len() && order[q] == x;
            assert(!s.contains(order[q]));
        }
    }
}

/// Orders the nodes so that each comes after its dependencies (Kahn's
/// algorithm: nodes without pending dependencies are emitted first, and
/// emitting a node releases the nodes that depend on it).
///
/// When no such order exists, returns the nodes that could not be placed:
/// exactly those lying in, or depending on, a cycle.
pub fn dependency_order(deps: &Vec<Vec<usize>>) -> (r: OrderOutcome)
    requires
        well_formed(deps@),
    ensures
        match r {
            OrderOutcome::Ordered(order) => is_dependency_order(deps@, order@),
            OrderOutcome::Blocked { blocked, dependents } => {
                &&& dependents_of(deps@, dependents@)
                &&& blocked@.no_duplicates()
                &&& is_self_dependent(deps@, blocked@.to_set())
                &&& forall|s: Set<usize>, x: usize|
                    is_self_dependent(deps@, s) && #[trigger] s.contains(x) ==> blocked@.contains(x)
            },
        },
        (r is Ordered) <==> !has_dependency_cycle(deps@),
{
    let n = deps.len();
    let dependents = build_dependents(deps);
    let (mut in_deg, mut order) = initial_state(deps);
    let mut head: usize = 0;
    let ghost mut done: Set<usize> = Set::empty();
    assert(order@.subrange(0, 0) =~= Seq::<usize>::empty());
    while head < order.len()
        invariant
            n == deps@.len(),
            kahn_inv(deps@, dependents@, in_deg@, order@, head as int, done),
        decreases n - head,
    {
        proof {
            lemma_distinct_below(order@, n);
        }
        let ghost x = order@[head as int];
        process_node(deps, &dependents, &mut in_deg, &mut order, head, Ghost(done));
        proof {
            done = done.insert(x);
        }
        head = head + 1;
    }
    assert(order@.subrange(0, head as int) == order@);
    let blocked = collect_blocked(&in_deg);
    if blocked.len() == 0 {
        assert forall|x: usize| x < deps@.len() implies #[trigger] order@.contains(x) by {
            assert(order@.contains((x as int) as usize) <==> in_deg@[x as int] == 0);
            if !order@.contains(x) {
                assert(blocked@.contains(x));
            }
        }
        assert forall|s: Set<usize>| !#[trigger] is_self_dependent(deps@, s) by {
            lemma_order_excludes_cycle(deps@, order@, s);
        }
        OrderOutcome::Ordered(order)
    } else {
        proof {
            assert forall|x: usize| #[trigger] done.contains(x) <==> order@.contains(x) by {}
            lemma_blocked_closed(deps@, in_deg@, order@, done, blocked@);
            lemma_blocked_maximal(deps@, in_deg@, order@, blocked@);
        }
        OrderOutcome::Blocked { blocked, dependents }
    }
}


/// `c` is a dependency cycle through nodes of `s`: each entry depends on the
/// next, the last entry repeats the first, and no other entry repeats.
pub open spec fn is_cycle_within(deps: Seq<Vec<usize>>, s: Set<usize>, c: Seq<usize>) -> bool {
    &&& c.len() >= 2
    &&& c[0] == c[c.len() - 1]
    &&& c.subrange(0, c.len() - 1).no_duplicates()
    &&& forall|k: int| #![trigger c[k]] 0 <= k < c.len() ==> s.contains(c[k]) && c[k] < deps.len()
    &&& forall|k: int|
        #![trigger c[k], c[k + 1]]
        0 <= k < c.len() - 1 ==> depends_on(deps, c[k] as int, c[k + 1])
}

/// Whether `x` occurs in `v`.
pub fn contains_index(v: &Vec<usize>, x: usize) -> (r: bool)
    ensures
        r == v@.contains(x),
{
    let mut k: usize = 0;
    while k < v.len()
        invariant
            k <= v@.len(),
            forall|t: int| 0 <= t < k ==> #[trigger] v@[t] != x,
        decreases v@.len() - k,
    {
        if v[k] == x {
            return true;
        }
        k = k + 1;
    }
    false
}

fn membership_mask(n: usize, members: &Vec<usize>) -> (mask: Vec<bool>)
    ensures
        mask@.len() == n,
        forall|j: int| 0 <= j < n ==> #[trigger] mask@[j] == members@.contains(j as usize),
{
    let mut mask: Vec<bool> = Vec::new();
    let mut i: usize = 0;
    while i < n
        invariant
            i <= n,
            mask@.len() == i,
            forall|j: int| 0 <= j < i ==> #[trigger] mask@[j] == members@.contains(j as usize),
        decreases n - i,
    {
        let found = contains_index(members, i);
        mask.push(found);
        i = i + 1;
    }
    mask
}

fn first_member_dependency(deps: &Vec<Vec<usize>>, mask: &Vec<bool>, cur: usize, Ghost(s): Ghost<Set<usize>>) -> (d: usize)
    requires
        well_formed(deps@),
        cur < deps@.len(),
        mask@.len() == deps@.len(),
        forall|j: int| 0 <= j < deps@.len() ==> #[trigger] mask@[j] == s.contains(j as usize),
        has_member_dependency(deps@, s, cur),
    ensures
        s.contains(d),
        depends_on(deps@, cur as int, d),
{
    reveal(has_member_dependency);
    let n = deps.len();
    let ghost witness = choose|d: usize| #[trigger] s.contains(d) && depends_on(deps@, cur as int, d);
    let row = &deps[cur];
    let mut k: usize = 0;
    while k < row.len()
        invariant
            row == deps@[cur as int],
            k <= row@.len(),
            mask@.len() == n,
            n == deps@.len(),
            well_formed(deps@),
            cur < n,
            forall|j: int| 0 <= j < n ==> #[trigger] mask@[j] == s.contains(j as usize),
            forall|t: int| 0 <= t < k ==> !s.contains(#[trigger] row@[t]),
        decreases row@.len() - k,
    {
        let d = row[k];
        assert(deps@[cur as int]@[k as int] < n);
        if mask[d] {
            assert(row@.contains(d)) by {
                assert(row@[k as int] == d);
            }
            return d;
        }
        k = k + 1;
    }
    proof {
        let t = choose|t: int| 0 <= t < row@.len() && row@[t] == witness;
        assert(s.contains(row@[t]));
    }
    0
}

fn close_cycle(path: &Vec<usize>, next: usize, Ghost(deps): Ghost<Seq<Vec<usize>>>, Ghost(s): Ghost<Set<usize>>) -> (c: Vec<usize>)
    requires
        path@.contains(next),
        path@.no_duplicates(),
        depends_on(deps, path@[path@.len() - 1] as int, next),
        forall|k: int| #![trigger path@[k]] 0 <= k < path@.len() ==> s.contains(path@[k]) && path@[k] < deps.len(),
        forall|k: int|
            #![trigger path@[k], path@[k + 1]]
            0 <= k < path@.len() - 1 ==> depends_on(deps, path@[k] as int, path@[k + 1]),
    ensures
        is_cycle_within(deps, s, c@),
{
    let mut p: usize = 0;
    while path[p] != next
        invariant
            p < path@.len(),
            path@.contains(next),
            forall|t: int| 0 <= t < p ==> #[trigger] path@[t] != next,
        decreases path@.len() - p,
    {
        if p == path.len() - 1 {
            proof {
                let t = choose|t: int| 0 <= t < path@.len() && path@[t] == next;
            }
            assert(false);
        }
        p = p + 1;
    }
    let mut cycle: Vec<usize> = Vec::new();
    let mut q: usize = p;
    while q < path.len()
        invariant
            p <= q <= path@.len(),
            cycle@ == path@.subrange(p as int, q as int),
        decreases path@.len() - q,
    {
        cycle.push(path[q]);
        assert(path@.subrange(p as int, q + 1) == path@.subrange(p as int, q as int).push(path@[q as int]));
        q = q + 1;
    }
    let ghost body = cycle@;
    cycle.push(next);
    assert(cycle@.subrange(0, cycle@.len() - 1) == body);
    assert(body.no_duplicates()) by {
        assert forall|a: int, b: int| 0 <= a < body.len() && 0 <= b < body.len() && a != b implies body[a] != body[b] by {
            assert(body[a] == path@[p + a]);
            assert(body[b] == path@[p + b]);
        }
    }
    assert forall|k: int| #![trigger cycle@[k], cycle@[k + 1]] 0 <= k < cycle@.len() - 1 implies depends_on(deps, cycle@[k] as int, cycle@[k + 1]) by {
        if k + 1 < cycle@.len() - 1 {
            assert(cycle@[k] == path@[p + k]);
            assert(cycle@[k + 1] == path@[p + k + 1]);
        } else {
            assert(cycle@[k] == path@[path@.len() - 1]);
        }
    }
    assert forall|k: int| #![trigger cycle@[k]] 0 <= k < cycle@.len() implies s.contains(cycle@[k]) && cycle@[k] < deps.len() by {
        if k < cycle@.len() - 1 {
            assert(cycle@[k] == path@[p + k]);
        } else {
            assert(cycle@[k] == path@[p as int]);
        }
    }
    cycle
}

/// A walk of distinct nodes of `s`, each depending on the next.
spec fn is_member_walk(deps: Seq<Vec<usize>>, s: Set<usize>, path: Seq<usize>) -> bool {
    &&& path.len() >= 1
    &&& path.no_duplicates()
    &&& forall|k: int| #![trigger path[k]] 0 <= k < path.len() ==> s.contains(path[k]) && path[k] < deps.len()
    &&& forall|k: int|
        #![trigger path[k], path[k + 1]]
        0 <= k < path.len() - 1 ==> depends_on(deps, path[k] as int, path[k + 1])
}

fn extend_walk(path: &mut Vec<usize>, next: usize, Ghost(deps): Ghost<Seq<Vec<usize>>>, Ghost(s): Ghost<Set<usize>>)
    requires
        is_member_walk(deps, s, old(path)@),
        !old(path)@.contains(next),
        s.contains(next),
        next < deps.len(),
        depends_on(deps, old(path)@[old(path)@.len() - 1] as int, next),
    ensures
        is_member_walk(deps, s, final(path)@),
        final(path)@.len() == old(path)@.len() + 1,
{
    let ghost before = path@;
    path.push(next);
    assert forall|a: int, b: int| 0 <= a < path@.len() && 0 <= b < path@.len() && a != b implies path@[a] != path@[b] by {
        if a == before.len() {
            assert(before.contains(path@[b]));
        } else if b == before.len() {
            assert(before.contains(path@[a]));
        }
    }
    assert forall|k: int| #![trigger path@[k], path@[k + 1]] 0 <= k < path@.len() - 1 implies depends_on(deps, path@[k] as int, path@[k + 1]) by {
        if k + 1 < before.len() {
            assert(path@[k] == before[k] && path@[k + 1] == before[k + 1]);
        }
    }
    assert forall|k: int| #![trigger path@[k]] 0 <= k < path@.len() implies s.contains(path@[k]) && path@[k] < deps.len() by {
        if k < before.len() {
            assert(path@[k] == before[k]);
        }
    }
}

/// Searches the whole graph for a dependency cycle: some cycle when the
/// graph has one, none when it has none.
pub fn search_cycle(deps: &Vec<Vec<usize>>) -> (r: Option<Vec<usize>>)
    requires
        well_formed(deps@),
    ensures
        r is Some <==> has_dependency_cycle(deps@),
        match r {
            Some(c) => is_cycle_within(deps@, all_positions(deps@.len() as int), c@),
            None => true,
        },
{
    match dependency_order(deps) {
        OrderOutcome::Ordered(_) => None,
        OrderOutcome::Blocked { blocked, dependents } => {
            let c = find_cycle(deps, &blocked);
            assert(is_cycle_within(deps@, all_positions(deps@.len() as int), c@));
            Some(c)
        },
    }
}

/// Finds a dependency cycle among a set of nodes that depends on itself, by
/// walking from its first member to one of its dependencies inside the set
/// until a node repeats.
pub fn find_cycle(deps: &Vec<Vec<usize>>, members: &Vec<usize>) -> (c: Vec<usize>)
    requires
        well_formed(deps@),
        is_self_dependent(deps@, members@.to_set()),
    ensures
        is_cycle_within(deps@, members@.to_set(), c@),
{
    let n = deps.len();
    let ghost s = members@.to_set();
    let mask = membership_mask(n, members);
    let ghost x0 = choose|x: usize| #[trigger] s.contains(x);
    assert(members@.len() > 0) by {
        assert(members@.contains(x0));
    }
    let start = members[0];
    assert(s.contains(start)) by {
        assert(members@.contains(start));
    }
    let mut path: Vec<usize> = Vec::new();
    path.push(start);
    assert(is_member_walk(deps@, s, path@));
    loop
        invariant
            n == deps@.len(),
            well_formed(deps@),
            s == members@.to_set(),
            is_self_dependent(deps@, s),
            mask@.len() == n,
            forall|j: int| 0 <= j < n ==> #[trigger] mask@[j] == s.contains(j as usize),
            is_member_walk(deps@, s, path@),
        decreases n - path@.len(),
    {
        proof {
            lemma_distinct_below(path@, n);
        }
        let cur = path[path.len() - 1];
        assert(s.contains(cur));
        let next = first_member_dependency(deps, &mask, cur, Ghost(s));
        if contains_index(&path, next) {
            return close_cycle(&path, next, Ghost(deps@), Ghost(s));
        }
        extend_walk(&mut path, next, Ghost(deps@), Ghost(s));
        proof {
            lemma_distinct_below(path@, n);
        }
    }
}


// ---------------------------------------------------------------------------
// The same notions over an arbitrary dependency relation on nodes `0..n`.
// ---------------------------------------------------------------------------

/// `order` lists each of the nodes `0..n` once, each after every node it
/// depends on under `rel`.
pub open spec fn rel_is_order(n: int, rel: spec_fn(int, usize) -> bool, order: Seq<usize>) -> bool {
    &&& order.no_duplicates()
    &&& forall|p: int| #![trigger order[p]] 0 <= p < order.len() ==> order[p] < n
    &&& forall|x: usize| x < n ==> #[trigger] order.contains(x)
    &&& forall|p: int, d: usize|
        #![trigger order[p], rel(order[p] as int, d)]
        0 <= p < order.len() && rel(order[p] as int, d) ==> order.subrange(0, p).contains(d)
}

/// Node `x` depends under `rel` on some member of `s`.
#[verifier::opaque]
pub open spec fn rel_member_dependency(rel: spec_fn(int, usize) -> bool, s: Set<usize>, x: usize) -> bool {
    exists|d: usize| #[trigger] s.contains(d) && rel(x as int, d)
}

/// A non-empty set of nodes below `n` each depending under `rel` on a member.
pub open spec fn rel_self_dependent(n: int, rel: spec_fn(int, usize) -> bool, s: Set<usize>) -> bool {
    &&& exists|x: usize| #[trigger] s.contains(x)
    &&& forall|x: usize| #[trigger] s.contains(x) ==> x < n && rel_member_dependency(rel, s, x)
}

/// Some set of nodes depends on itself under `rel`.
pub open spec fn rel_has_cycle(n: int, rel: spec_fn(int, usize) -> bool) -> bool {
    exists|s: Set<usize>| #[trigger] rel_self_dependent(n, rel, s)
}

/// `c` is a cycle under `rel` through nodes of `s`: each entry depends on
/// the next, the last repeats the first, and no other entry repeats.
pub open spec fn rel_is_cycle(n: int, rel: spec_fn(int, usize) -> bool, s: Set<usize>, c: Seq<usize>) -> bool {
    &&& c.len() >= 2
    &&& c[0] == c[c.len() - 1]
    &&& c.subrange(0, c.len() - 1).no_duplicates()
    &&& forall|k: int| #![trigger c[k]] 0 <= k < c.len() ==> s.contains(c[k]) && c[k] < n
    &&& forall|k: int| #![trigger c[k], c[k + 1]] 0 <= k < c.len() - 1 ==> rel(c[k] as int, c[k + 1])
}

/// `deps` lists exactly the dependencies that `rel` relates.
pub open spec fn represents(deps: Seq<Vec<usize>>, rel: spec_fn(int, usize) -> bool) -> bool {
    forall|i: int, d: usize|
        #![trigger depends_on(deps, i, d)]
        #![trigger rel(i, d)]
        0 <= i < deps.len() ==> (depends_on(deps, i, d) <==> rel(i, d))
}

pub proof fn lemma_order_bridge(deps: Seq<Vec<usize>>, rel: spec_fn(int, usize) -> bool, order: Seq<usize>)
    requires
        represents(deps, rel),
        is_dependency_order(deps, order),
    ensures
        rel_is_order(deps.len() as int, rel, order),
{
    assert forall|p: int, d: usize| #![trigger order[p], rel(order[p] as int, d)] 0 <= p < order.len() && rel(order[p] as int, d) implies order.subrange(0, p).contains(d) by {
        assert(depends_on(deps, order[p] as int, d));
    }
}

proof fn lemma_member_dependency_bridge(deps: Seq<Vec<usize>>, rel: spec_fn(int, usize) -> bool, s: Set<usize>, x: usize)
    requires
        represents(deps, rel),
        x < deps.len(),
    ensures
        has_member_dependency(deps, s, x) <==> rel_member_dependency(rel, s, x),
{
    reveal(has_member_dependency);
    reveal(rel_member_dependency);
    if has_member_dependency(deps, s, x) {
        let d = choose|d: usize| #[trigger] s.contains(d) && depends_on(deps, x as int, d);
        assert(rel(x as int, d));
    }
    if rel_member_dependency(rel, s, x) {
        let d = choose|d: usize| #[trigger] s.contains(d) && rel(x as int, d);
        assert(depends_on(deps, x as int, d));
    }
}

pub proof fn lemma_self_dependent_bridge(deps: Seq<Vec<usize>>, rel: spec_fn(int, usize) -> bool, s: Set<usize>)
    requires
        represents(deps, rel),
    ensures
        is_self_dependent(deps, s) <==> rel_self_dependent(deps.len() as int, rel, s),
{
    assert forall|x: usize| #[trigger] s.contains(x) && x < deps.len() implies (has_member_dependency(deps, s, x) <==> rel_member_dependency(rel, s, x)) by {
        lemma_member_dependency_bridge(deps, rel, s, x);
    }
}

pub proof fn lemma_cycle_bridge(deps: Seq<Vec<usize>>, rel: spec_fn(int, usize) -> bool)
    requires
        represents(deps, rel),
    ensures
        has_dependency_cycle(deps) <==> rel_has_cycle(deps.len() as int, rel),
{
    if has_dependency_cycle(deps) {
        let s = choose|s: Set<usize>| #[trigger] is_self_dependent(deps, s);
        lemma_self_dependent_bridge(deps, rel, s);
        assert(rel_self_dependent(deps.len() as int, rel, s));
    }
    if rel_has_cycle(deps.len() as int, rel) {
        let s = choose|s: Set<usize>| #[trigger] rel_self_dependent(deps.len() as int, rel, s);
        lemma_self_dependent_bridge(deps, rel, s);
        assert(is_self_dependent(deps, s));
    }
}

pub proof fn lemma_found_cycle_bridge(deps: Seq<Vec<usize>>, rel: spec_fn(int, usize) -> bool, s: Set<usize>, c: Seq<usize>)
    requires
        represents(deps, rel),
        is_cycle_within(deps, s, c),
    ensures
        rel_is_cycle(deps.len() as int, rel, s, c),
{
    assert forall|k: int| #![trigger c[k], c[k + 1]] 0 <= k < c.len() - 1 implies rel(c[k] as int, c[k + 1]) by {
        assert(depends_on(deps, c[k] as int, c[k + 1]));
    }
}

} // verus!
