//! Admission-time cycle detection: an iterative depth-first search over the
//! dependency graph of a desired state, rejecting states with dangling
//! dependency references or dependency cycles.
//!
//! The model `dfs_rec` replays the search over the graph alone — the map
//! from workload name to its set of dependency names — with both the start
//! nodes and each node's dependencies taken in the byte-wise order of the
//! names. The executable search is proved equal to it, so its result depends
//! only on the graph, never on the order in which a state lists workloads or
//! dependencies. The laws at the end then pin the verdicts down: a state
//! with a cycle or a dangling dependency is never accepted, a cycle in a
//! fully declared state is answered as a cycle, and a missing-reference
//! rejection always names a genuinely dangling dependency.

use vstd::prelude::*;
use vstd::string::StringExecFns;

use crate::objects::WorkloadSpecView;
use crate::server_state::State;
use crate::server_state::workloads_map;
use crate::text::find_sorted;
use crate::text::insert_sorted;
use crate::text::lemma_name_lt_irreflexive;
use crate::text::lemma_name_lt_total;
use crate::text::lemma_name_lt_transitive;
use crate::text::name_lt;
use crate::text::rfind_str;
use crate::text::sorted_strict;
use crate::text::string_views;

verus! {

broadcast use vstd::set::group_set_axioms;

/// Why a desired state is rejected: a dependency names a workload missing
/// from the state, or a workload takes part in a dependency cycle.
#[derive(Debug, PartialEq, Eq)]
pub enum CyclicCheckResult {
    WorkloadPartOfCycle(String),
    InvalidStructure(String),
}

pub open spec fn cycle_message(n: Seq<char>) -> Seq<char> {
    "workload '"@ + n + "' part of a cycle."@
}

pub open spec fn missing_message(n: Seq<char>) -> Seq<char> {
    "workload '"@ + n + "' is not part of the state."@
}

impl CyclicCheckResult {
    /// The human-readable message; stable, tests rely on it.
    pub fn message(&self) -> (r: String)
        ensures
            match self {
                CyclicCheckResult::WorkloadPartOfCycle(w) => r@ == cycle_message(w@),
                CyclicCheckResult::InvalidStructure(e) => r@ == e@,
            },
    {
        match self {
            CyclicCheckResult::WorkloadPartOfCycle(w) => {
                let mut msg = String::new();
                msg.append("workload '");
                msg.append(w.as_str());
                msg.append("' part of a cycle.");
                proof {
                    assert(msg@ =~= cycle_message(w@));
                }
                msg
            },
            CyclicCheckResult::InvalidStructure(e) => e.clone(),
        }
    }
}

/// The names a workload depends on.
pub open spec fn spec_dep_names(w: WorkloadSpecView) -> Set<Seq<char>> {
    w.dependencies.map_values(|p: (Seq<char>, crate::objects::AddCondition)| p.0).to_set()
}

/// The dependency graph of a desired state: workload name to the set of
/// names it depends on.
pub open spec fn graph_of(m: Map<Seq<char>, WorkloadSpecView>) -> Map<Seq<char>, Set<Seq<char>>> {
    Map::new(|k: Seq<char>| m.contains_key(k), |k: Seq<char>| spec_dep_names(m[k]))
}

/// `q` lists exactly the names of `s`, each once, in ascending order.
pub open spec fn sorted_unique_names(q: Seq<Seq<char>>, s: Set<Seq<char>>) -> bool {
    &&& sorted_strict(q)
    &&& forall|i: int| 0 <= i < q.len() ==> s.contains(#[trigger] q[i])
    &&& forall|n: Seq<char>| #[trigger] s.contains(n) ==> q.contains(n)
}

/// The one sorted listing of a name set.
pub open spec fn sorted_names_of(s: Set<Seq<char>>) -> Seq<Seq<char>> {
    choose|q: Seq<Seq<char>>| sorted_unique_names(q, s)
}

pub proof fn lemma_sorted_unique_names_unique(q1: Seq<Seq<char>>, q2: Seq<Seq<char>>, s: Set<
    Seq<char>,
>)
    requires
        sorted_unique_names(q1, s),
        sorted_unique_names(q2, s),
    ensures
        q1 =~= q2,
    decreases q1.len(),
{
    if q1.len() == 0 {
        if q2.len() > 0 {
            assert(s.contains(q2[0]));
            assert(q1.contains(q2[0]));
        }
    } else if q2.len() == 0 {
        assert(s.contains(q1[0]));
        assert(q2.contains(q1[0]));
    } else {
        // Both fronts are the minimum of `s`, so they agree.
        assert(s.contains(q1[0]));
        assert(s.contains(q2[0]));
        let i = choose|i: int| 0 <= i < q2.len() && q2[i] == q1[0];
        assert(q2.contains(q1[0]));
        let j = choose|j: int| 0 <= j < q1.len() && q1[j] == q2[0];
        assert(q1.contains(q2[0]));
        if q1[0] != q2[0] {
            assert(i > 0);
            assert(j > 0);
            assert(name_lt(q2[0], q2[i]));
            assert(name_lt(q1[0], q1[j]));
            lemma_name_lt_transitive(q1[0], q2[0], q1[0]);
            lemma_name_lt_irreflexive(q1[0]);
        }
        let s2 = s.remove(q1[0]);
        assert forall|n: Seq<char>| #[trigger] s2.contains(n) implies q1.drop_first().contains(
            n,
        ) by {
            assert(s.contains(n));
            let t = choose|t: int| 0 <= t < q1.len() && q1[t] == n;
            assert(t > 0) by {
                if t == 0 {
                    assert(n == q1[0]);
                }
            }
            assert(q1.drop_first()[t - 1] == n);
        }
        assert forall|n: Seq<char>| #[trigger] s2.contains(n) implies q2.drop_first().contains(
            n,
        ) by {
            assert(s.contains(n));
            let t = choose|t: int| 0 <= t < q2.len() && q2[t] == n;
            assert(t > 0) by {
                if t == 0 {
                    assert(n == q2[0]);
                }
            }
            assert(q2.drop_first()[t - 1] == n);
        }
        assert forall|t: int| 0 <= t < q1.drop_first().len() implies s2.contains(
            #[trigger] q1.drop_first()[t],
        ) by {
            assert(q1.drop_first()[t] == q1[t + 1]);
            assert(name_lt(q1[0], q1[t + 1]));
            if q1[t + 1] == q1[0] {
                lemma_name_lt_irreflexive(q1[0]);
            }
        }
        assert forall|t: int| 0 <= t < q2.drop_first().len() implies s2.contains(
            #[trigger] q2.drop_first()[t],
        ) by {
            assert(q2.drop_first()[t] == q2[t + 1]);
            assert(name_lt(q2[0], q2[t + 1]));
            if q2[t + 1] == q2[0] {
                lemma_name_lt_irreflexive(q2[0]);
            }
        }
        assert(sorted_strict(q1.drop_first())) by {
            assert(forall|a: int, b: int|
                0 <= a < b < q1.drop_first().len() ==> #[trigger] q1.drop_first()[a]
                    == q1[a + 1] && #[trigger] q1.drop_first()[b] == q1[b + 1]);
        }
        assert(sorted_strict(q2.drop_first())) by {
            assert(forall|a: int, b: int|
                0 <= a < b < q2.drop_first().len() ==> #[trigger] q2.drop_first()[a]
                    == q2[a + 1] && #[trigger] q2.drop_first()[b] == q2[b + 1]);
        }
        lemma_sorted_unique_names_unique(q1.drop_first(), q2.drop_first(), s2);
        assert forall|t: int| 0 <= t < q1.len() implies q1[t] == q2[t] by {
            if t > 0 {
                assert(q1.drop_first()[t - 1] == q2.drop_first()[t - 1]);
            }
        }
        assert(q1.len() == q2.len());
    }
}

/// A vector that lists a set in sorted order lists it as `sorted_names_of`
/// does.
pub proof fn lemma_sorted_names_of(q: Seq<Seq<char>>, s: Set<Seq<char>>)
    requires
        sorted_unique_names(q, s),
    ensures
        sorted_names_of(s) =~= q,
{
    let w = sorted_names_of(s);
    assert(sorted_unique_names(w, s)) by {
        assert(exists|q2: Seq<Seq<char>>| sorted_unique_names(q2, s));
    }
    lemma_sorted_unique_names_unique(w, q, s);
}

/// What the search does with a node's dependency list: the first dependency
/// that is visited and on the current path ends the search with a cycle.
pub open spec fn first_cycle_dep(
    deps: Seq<Seq<char>>,
    visited: Set<Seq<char>>,
    path: Seq<Seq<char>>,
) -> Option<Seq<char>>
    decreases deps.len(),
{
    if deps.len() == 0 {
        None
    } else if visited.contains(deps[0]) && path.contains(deps[0]) {
        Some(deps[0])
    } else {
        first_cycle_dep(deps.drop_first(), visited, path)
    }
}

/// Where a name stands in the path, if it is still open.
pub open spec fn path_index_of(path: Seq<Seq<char>>, name: Seq<char>) -> int
    decreases path.len(),
{
    if path.len() == 0 {
        -1
    } else if path[0] == name {
        0
    } else {
        let r = path_index_of(path.drop_first(), name);
        if r < 0 {
            -1
        } else {
            r + 1
        }
    }
}

/// Closing a name removes it from the path; a name that is not open leaves
/// the path as it is.
pub open spec fn path_remove(path: Seq<Seq<char>>, name: Seq<char>) -> Seq<Seq<char>> {
    let i = path_index_of(path, name);
    if i >= 0 {
        path.remove(i)
    } else {
        path
    }
}

pub proof fn lemma_path_index_props(path: Seq<Seq<char>>, name: Seq<char>)
    ensures
        path_index_of(path, name) == -1 ==> forall|t: int|
            0 <= t < path.len() ==> path[t] != name,
        path_index_of(path, name) >= 0 ==> {
            &&& 0 <= path_index_of(path, name) < path.len()
            &&& path[path_index_of(path, name)] == name
            &&& forall|t: int| 0 <= t < path_index_of(path, name) ==> path[t] != name
        },
    decreases path.len(),
{
    if path.len() > 0 && path[0] != name {
        lemma_path_index_props(path.drop_first(), name);
        assert(forall|t: int| 0 < t < path.len() ==> path[t] == path.drop_first()[t - 1]);
    }
}

/// Closing an open name at its found position: the model removes the same
/// spot, the per-name flags follow, and no other name's openness changes.
proof fn lemma_path_close(
    nv: Seq<Seq<char>>,
    flags: Seq<bool>,
    pv: Seq<Seq<char>>,
    hi: int,
    pos: int,
)
    requires
        sorted_strict(nv),
        nv.len() == flags.len(),
        0 <= hi < nv.len(),
        0 <= pos < pv.len(),
        pv.no_duplicates(),
        pv[pos] == nv[hi],
        forall|k: int| 0 <= k < nv.len() ==> ((#[trigger] flags[k]) <==> pv.contains(nv[k])),
    ensures
        path_index_of(pv, nv[hi]) == pos,
        path_remove(pv, nv[hi]) == pv.remove(pos),
        pv.remove(pos).no_duplicates(),
        forall|k: int|
            0 <= k < nv.len() ==> ((#[trigger] flags.update(hi, false)[k]) <==> pv.remove(
                pos,
            ).contains(nv[k])),
        forall|t: int| 0 <= t < pv.remove(pos).len() ==> pv.contains(#[trigger] pv.remove(pos)[t]),
{
    lemma_path_index_props(pv, nv[hi]);
    let pi = path_index_of(pv, nv[hi]);
    if pi < pos {
        assert(pv[pi] == nv[hi]);
        assert(false);
    }
    if pi > pos {
        assert(false);
    }
    let pvd = pv.remove(pos);
    assert forall|t: int| 0 <= t < pvd.len() implies pv.contains(#[trigger] pvd[t]) by {
        if t < pos {
            assert(pvd[t] == pv[t]);
        } else {
            assert(pvd[t] == pv[t + 1]);
        }
    }
    assert forall|k: int| 0 <= k < nv.len() implies ((#[trigger] flags.update(hi, false)[k])
        <==> pvd.contains(nv[k])) by {
        if k == hi {
            if pvd.contains(nv[k]) {
                let x = choose|x: int| 0 <= x < pvd.len() && pvd[x] == nv[k];
                if x < pos {
                    assert(pv[x] == nv[hi]);
                } else {
                    assert(pv[x + 1] == nv[hi]);
                }
                assert(false);
            }
        } else {
            lemma_sorted_distinct(nv, k, hi);
            if pvd.contains(nv[k]) {
                let x = choose|x: int| 0 <= x < pvd.len() && pvd[x] == nv[k];
                if x < pos {
                    assert(pv[x] == nv[k]);
                } else {
                    assert(pv[x + 1] == nv[k]);
                }
                assert(pv.contains(nv[k]));
            }
            if pv.contains(nv[k]) {
                let x = choose|x: int| 0 <= x < pv.len() && pv[x] == nv[k];
                assert(x != pos);
                if x < pos {
                    assert(pvd[x] == nv[k]);
                } else {
                    assert(pvd[x - 1] == nv[k]);
                }
                assert(pvd.contains(nv[k]));
            }
        }
    }
}

/// The dependencies not yet visited, in order: what the search stacks on top
/// of the frontier.
pub open spec fn unvisited_pushes(deps: Seq<Seq<char>>, visited: Set<Seq<char>>) -> Seq<Seq<char>>
    decreases deps.len(),
{
    if deps.len() == 0 {
        Seq::empty()
    } else {
        let rest = unvisited_pushes(deps.drop_first(), visited);
        if visited.contains(deps[0]) {
            rest
        } else {
            seq![deps[0]] + rest
        }
    }
}

pub proof fn lemma_unvisited_pushes_concat(
    a: Seq<Seq<char>>,
    b: Seq<Seq<char>>,
    visited: Set<Seq<char>>,
)
    ensures
        unvisited_pushes(a + b, visited) =~= unvisited_pushes(a, visited) + unvisited_pushes(
            b,
            visited,
        ),
    decreases a.len(),
{
    if a.len() == 0 {
        assert(a + b =~= b);
        assert(unvisited_pushes(a, visited) =~= Seq::<Seq<char>>::empty());
    } else {
        assert((a + b)[0] == a[0]);
        assert((a + b).drop_first() =~= a.drop_first() + b);
        lemma_unvisited_pushes_concat(a.drop_first(), b, visited);
    }
}

/// Every element of `unvisited_pushes` is an unvisited dependency.
pub proof fn lemma_unvisited_pushes_elems(deps: Seq<Seq<char>>, visited: Set<Seq<char>>)
    ensures
        forall|k: int|
            0 <= k < unvisited_pushes(deps, visited).len() ==> deps.contains(
                #[trigger] unvisited_pushes(deps, visited)[k],
            ) && !visited.contains(unvisited_pushes(deps, visited)[k]),
    decreases deps.len(),
{
    if deps.len() > 0 {
        lemma_unvisited_pushes_elems(deps.drop_first(), visited);
        let up = unvisited_pushes(deps, visited);
        let rest = unvisited_pushes(deps.drop_first(), visited);
        assert forall|k: int| 0 <= k < up.len() implies deps.contains(#[trigger] up[k])
            && !visited.contains(up[k]) by {
            if visited.contains(deps[0]) {
                assert(up[k] == rest[k]);
                assert(deps.drop_first().contains(rest[k]));
                let t = choose|t: int|
                    0 <= t < deps.drop_first().len() && deps.drop_first()[t] == rest[k];
                assert(deps[t + 1] == rest[k]);
            } else {
                if k == 0 {
                    assert(up[0] == deps[0]);
                } else {
                    assert(up[k] == rest[k - 1]);
                    assert(deps.drop_first().contains(rest[k - 1]));
                    let t = choose|t: int|
                        0 <= t < deps.drop_first().len() && deps.drop_first()[t] == rest[k - 1];
                    assert(deps[t + 1] == rest[k - 1]);
                }
            }
        }
    }
}

/// The outcome of the search over a graph.
pub ghost enum DfsOutcome {
    Acyclic,
    Cycle(Seq<char>),
    Missing(Seq<char>),
}

/// The search itself, replayed over the graph: `starts` are the start nodes
/// not yet taken, `stack` the frontier with its top at the end, `visited`
/// the names seen, `path` the post-order bookkeeping of open names. Each
/// recursive call is one turn of the executable loop.
pub open spec fn dfs_rec(
    g: Map<Seq<char>, Set<Seq<char>>>,
    starts: Seq<Seq<char>>,
    stack: Seq<Seq<char>>,
    visited: Set<Seq<char>>,
    path: Seq<Seq<char>>,
) -> DfsOutcome
    decreases g.dom().difference(visited).len(), starts.len(), stack.len(),
        when g.dom().finite()
    via dfs_rec_decreases
{
    if stack.len() == 0 {
        if starts.len() == 0 {
            DfsOutcome::Acyclic
        } else if visited.contains(starts[0]) {
            dfs_rec(g, starts.drop_first(), stack, visited, path)
        } else {
            dfs_rec(g, starts.drop_first(), seq![starts[0]], visited, path)
        }
    } else {
        let head = stack.last();
        if !g.dom().contains(head) {
            DfsOutcome::Missing(head)
        } else {
            let deps = sorted_names_of(g[head]);
            if !visited.contains(head) {
                let visited2 = visited.insert(head);
                let path2 = path.push(head);
                match first_cycle_dep(deps, visited2, path2) {
                    Some(d) => DfsOutcome::Cycle(d),
                    None => dfs_rec(
                        g,
                        starts,
                        stack + unvisited_pushes(deps, visited2),
                        visited2,
                        path2,
                    ),
                }
            } else {
                let stack2 = stack.drop_last();
                let path2 = path_remove(path, head);
                match first_cycle_dep(deps, visited, path2) {
                    Some(d) => DfsOutcome::Cycle(d),
                    None => {
                        if exists|k: int| 0 <= k < deps.len() && !visited.contains(deps[k]) {
                            // Never reached from a well-formed configuration:
                            // a visited node's dependencies have all been
                            // visited by the time it resurfaces.
                            DfsOutcome::Missing(head)
                        } else {
                            dfs_rec(g, starts, stack2, visited, path2)
                        }
                    },
                }
            }
        }
    }
}

#[via_fn]
proof fn dfs_rec_decreases(
    g: Map<Seq<char>, Set<Seq<char>>>,
    starts: Seq<Seq<char>>,
    stack: Seq<Seq<char>>,
    visited: Set<Seq<char>>,
    path: Seq<Seq<char>>,
) {
    if g.dom().finite() {
        if stack.len() == 0 {
        } else {
            let head = stack.last();
            if g.dom().contains(head) && !visited.contains(head) {
                let visited2 = visited.insert(head);
                assert(g.dom().difference(visited2) =~= g.dom().difference(visited).remove(head));
                assert(g.dom().difference(visited).contains(head));
            }
        }
    }
}

/// The whole search over a graph: all names as start nodes, in ascending
/// order, nothing visited yet. A mathematical function of the graph alone.
pub open spec fn spec_dfs(g: Map<Seq<char>, Set<Seq<char>>>) -> DfsOutcome {
    dfs_rec(g, sorted_names_of(g.dom()), Seq::empty(), Set::empty(), Seq::empty())
}

pub proof fn lemma_workloads_map_dom(s: Seq<(String, crate::objects::WorkloadSpec)>, k: Seq<char>)
    ensures
        workloads_map(s).contains_key(k) <==> exists|i: int|
            0 <= i < s.len() && (#[trigger] s[i]).0@ == k,
    decreases s.len(),
{
    if s.len() > 0 {
        lemma_workloads_map_dom(s.drop_last(), k);
        if workloads_map(s).contains_key(k) {
            if s.last().0@ == k {
                assert(s[s.len() - 1].0@ == k);
            } else {
                let i = choose|i: int|
                    0 <= i < s.drop_last().len() && (#[trigger] s.drop_last()[i]).0@ == k;
                assert(s[i].0@ == k);
            }
        }
        if exists|i: int| 0 <= i < s.len() && (#[trigger] s[i]).0@ == k {
            let i = choose|i: int| 0 <= i < s.len() && (#[trigger] s[i]).0@ == k;
            if i < s.len() - 1 {
                assert(s.drop_last()[i].0@ == k);
            }
        }
    }
}

pub proof fn lemma_workloads_map_finite(s: Seq<(String, crate::objects::WorkloadSpec)>)
    ensures
        workloads_map(s).dom().finite(),
    decreases s.len(),
{
    if s.len() > 0 {
        lemma_workloads_map_finite(s.drop_last());
    }
}

pub proof fn lemma_workloads_map_index(s: Seq<(String, crate::objects::WorkloadSpec)>, i: int)
    requires
        forall|a: int, b: int| 0 <= a < b < s.len() ==> (#[trigger] s[a]).0@ != (#[trigger] s[b]).0@,
        0 <= i < s.len(),
    ensures
        workloads_map(s).contains_key(s[i].0@),
        workloads_map(s)[s[i].0@] == s[i].1@,
    decreases s.len(),
{
    if i == s.len() - 1 {
    } else {
        assert(s.drop_last()[i] == s[i]);
        lemma_workloads_map_index(s.drop_last(), i);
        assert(s[s.len() - 1].0@ != s[i].0@);
    }
}

} // verus!

verus! {

/// A strictly sorted listing has no repeated names.
proof fn lemma_sorted_distinct(nv: Seq<Seq<char>>, i: int, j: int)
    requires
        sorted_strict(nv),
        0 <= i < nv.len(),
        0 <= j < nv.len(),
        i != j,
    ensures
        nv[i] != nv[j],
{
    if nv[i] == nv[j] {
        if i < j {
            assert(name_lt(nv[i], nv[j]));
        } else {
            assert(name_lt(nv[j], nv[i]));
        }
        lemma_name_lt_irreflexive(nv[i]);
    }
}

/// The set of names whose flag is set, for flags parallel to a sorted
/// listing.
pub open spec fn flag_set(nv: Seq<Seq<char>>, flags: Seq<bool>) -> Set<Seq<char>> {
    Set::new(
        |nm: Seq<char>|
            exists|i: int| 0 <= i < nv.len() && 0 <= i < flags.len() && flags[i] && nv[i] == nm,
    )
}

proof fn lemma_flag_set_set(nv: Seq<Seq<char>>, flags: Seq<bool>, i: int)
    requires
        sorted_strict(nv),
        nv.len() == flags.len(),
        0 <= i < nv.len(),
    ensures
        flag_set(nv, flags.update(i, true)) =~= flag_set(nv, flags).insert(nv[i]),
        flag_set(nv, flags.update(i, false)) =~= flag_set(nv, flags).remove(nv[i]),
{
    let fs = flag_set(nv, flags);
    let up = flag_set(nv, flags.update(i, true));
    let dn = flag_set(nv, flags.update(i, false));
    assert forall|nm: Seq<char>| up.contains(nm) implies fs.insert(nv[i]).contains(nm) by {
        let t = choose|t: int|
            0 <= t < nv.len() && 0 <= t < flags.update(i, true).len() && flags.update(
                i,
                true,
            )[t] && nv[t] == nm;
        if t != i {
            assert(flags[t]);
        }
    }
    assert forall|nm: Seq<char>| fs.insert(nv[i]).contains(nm) implies up.contains(nm) by {
        if nm == nv[i] {
            assert(flags.update(i, true)[i] && nv[i] == nm);
        } else {
            let t = choose|t: int|
                0 <= t < nv.len() && 0 <= t < flags.len() && flags[t] && nv[t] == nm;
            assert(t != i);
            assert(flags.update(i, true)[t] && nv[t] == nm);
        }
    }
    assert forall|nm: Seq<char>| dn.contains(nm) implies fs.remove(nv[i]).contains(nm) by {
        let t = choose|t: int|
            0 <= t < nv.len() && 0 <= t < flags.update(i, false).len() && flags.update(
                i,
                false,
            )[t] && nv[t] == nm;
        assert(t != i);
        assert(flags[t]);
        lemma_sorted_distinct(nv, t, i);
    }
    assert forall|nm: Seq<char>| fs.remove(nv[i]).contains(nm) implies dn.contains(nm) by {
        let t = choose|t: int|
            0 <= t < nv.len() && 0 <= t < flags.len() && flags[t] && nv[t] == nm;
        if t == i {
            assert(nm == nv[i]);
        } else {
            assert(flags.update(i, false)[t] && nv[t] == nm);
        }
    }
}

/// Looking a name up in the sorted listing decides membership in the flag
/// set.
proof fn lemma_flag_set_lookup(nv: Seq<Seq<char>>, flags: Seq<bool>, i: int)
    requires
        sorted_strict(nv),
        nv.len() == flags.len(),
        0 <= i < nv.len(),
    ensures
        flag_set(nv, flags).contains(nv[i]) <==> flags[i],
{
    if flag_set(nv, flags).contains(nv[i]) {
        let t = choose|t: int|
            0 <= t < nv.len() && 0 <= t < flags.len() && flags[t] && nv[t] == nv[i];
        if t != i {
            lemma_sorted_distinct(nv, t, i);
        }
    }
}

/// An unvisited dependency appears among the pushes.
proof fn lemma_unvisited_pushes_mem(deps: Seq<Seq<char>>, visited: Set<Seq<char>>, d: Seq<char>)
    requires
        deps.contains(d),
        !visited.contains(d),
    ensures
        unvisited_pushes(deps, visited).contains(d),
    decreases deps.len(),
{
    let up = unvisited_pushes(deps, visited);
    let t = choose|t: int| 0 <= t < deps.len() && deps[t] == d;
    if t == 0 {
        assert(up[0] == d);
    } else {
        assert(deps.drop_first()[t - 1] == d);
        assert(deps.drop_first().contains(d));
        lemma_unvisited_pushes_mem(deps.drop_first(), visited, d);
        let rest = unvisited_pushes(deps.drop_first(), visited);
        let r = choose|r: int| 0 <= r < rest.len() && rest[r] == d;
        if visited.contains(deps[0]) {
            assert(up[r] == d);
        } else {
            assert(up[r + 1] == d);
        }
    }
}

/// Scanning one more dependency that does not close a cycle keeps the scan's
/// result.
proof fn lemma_fcd_skip_step(
    deps: Seq<Seq<char>>,
    u: int,
    visited: Set<Seq<char>>,
    path: Seq<Seq<char>>,
)
    requires
        0 <= u < deps.len(),
        !(visited.contains(deps[u]) && path.contains(deps[u])),
    ensures
        first_cycle_dep(deps.skip(u), visited, path) == first_cycle_dep(
            deps.skip(u + 1),
            visited,
            path,
        ),
{
    assert(deps.skip(u)[0] == deps[u]);
    assert(deps.skip(u).drop_first() =~= deps.skip(u + 1));
}

} // verus!

verus! {

/// The admission search, equal to `spec_dfs` of the state's dependency
/// graph: `Ok` exactly when the replayed search accepts; a cycle is reported
/// under the name the search finds; a dangling dependency is reported with
/// its stable message.
#[verifier::loop_isolation(false)]
#[verifier::rlimit(100)]
pub fn dfs(state: &State) -> (r: Result<(), CyclicCheckResult>)
    requires
        state.wf(),
    ensures
        ({
            let out = spec_dfs(graph_of(state@));
            match r {
                Result::Ok(u) => out == DfsOutcome::Acyclic,
                Result::Err(e) => match e {
                    CyclicCheckResult::WorkloadPartOfCycle(n) => out == DfsOutcome::Cycle(n@),
                    CyclicCheckResult::InvalidStructure(msg) => exists|d: Seq<char>|
                        out == DfsOutcome::Missing(d) && msg@ == missing_message(d),
                },
            }
        }),
{
    let ghost g = graph_of(state@);
    // Sort the workload names to make the traversal independent of the
    // order in which the state lists them.
    let mut names: Vec<String> = Vec::new();
    let mut idxs: Vec<usize> = Vec::new();
    let m = state.workloads.len();
    let mut t: usize = 0;
    while t < m
        invariant
            t <= m,
            names@.len() == idxs@.len(),
            sorted_strict(string_views(names@)),
            forall|k: int|
                0 <= k < idxs@.len() ==> (#[trigger] idxs@[k]) < m && state.workloads@[
                    idxs@[k] as int
                ].0@ == string_views(names@)[k],
            forall|u: int|
                0 <= u < t ==> string_views(names@).contains((#[trigger] state.workloads@[u]).0@),
            forall|k: int| #![trigger string_views(names@)[k]]
                0 <= k < names@.len() ==> exists|u: int|
                    0 <= u < t && (#[trigger] state.workloads@[u]).0@ == string_views(names@)[k],
        decreases m - t,
    {
        let key = state.workloads[t].0.clone();
        proof {
            assert forall|i: int| 0 <= i < names@.len() implies string_views(names@)[i]
                != key@ by {
                let u = choose|u: int|
                    0 <= u < t && (#[trigger] state.workloads@[u]).0@ == string_views(names@)[i];
                assert(state.workloads@[u].0@ != state.workloads@[t as int].0@);
            }
        }
        let ghost pre_names = names@;
        let pos = insert_sorted(&mut names, key);
        idxs.insert(pos, t);
        proof {
            assert(string_views(names@) =~= string_views(pre_names).insert(
                pos as int,
                state.workloads@[t as int].0@,
            ));
            assert forall|k: int|
                0 <= k < idxs@.len() implies (#[trigger] idxs@[k]) < m && state.workloads@[
                idxs@[k] as int
            ].0@ == string_views(names@)[k] by {
                if k < pos {
                } else if k == pos {
                    assert(names@[k] == state.workloads@[t as int].0);
                } else {
                }
            }
            assert forall|u2: int|
                0 <= u2 < t + 1 implies string_views(names@).contains(
                (#[trigger] state.workloads@[u2]).0@,
            ) by {
                if u2 == t {
                    assert(string_views(names@)[pos as int] == state.workloads@[t as int].0@);
                } else {
                    assert(string_views(pre_names).contains(state.workloads@[u2].0@));
                    let k = choose|k: int|
                        0 <= k < string_views(pre_names).len() && string_views(pre_names)[k]
                            == state.workloads@[u2].0@;
                    if k < pos {
                        assert(string_views(names@)[k] == state.workloads@[u2].0@);
                    } else {
                        assert(string_views(names@)[k + 1] == state.workloads@[u2].0@);
                    }
                }
            }
            assert forall|k: int| #![trigger string_views(names@)[k]]
                0 <= k < names@.len() implies exists|u: int|
                0 <= u < t + 1 && (#[trigger] state.workloads@[u]).0@ == string_views(
                    names@,
                )[k] by {
                if k == pos {
                    assert(state.workloads@[t as int].0@ == string_views(names@)[k]);
                } else if k < pos {
                    let u = choose|u: int|
                        0 <= u < t && (#[trigger] state.workloads@[u]).0@ == string_views(
                            pre_names,
                        )[k];
                    assert(state.workloads@[u].0@ == string_views(names@)[k]);
                } else {
                    let u = choose|u: int|
                        0 <= u < t && (#[trigger] state.workloads@[u]).0@ == string_views(
                            pre_names,
                        )[k - 1];
                    assert(state.workloads@[u].0@ == string_views(names@)[k]);
                }
            }
        }
        t += 1;
    }
    proof {
        lemma_workloads_map_finite(state.workloads@);
        assert(g.dom() =~= workloads_map(state.workloads@).dom());
        assert(g.dom().finite());
        assert forall|k: Seq<char>| #[trigger] g.dom().contains(k) implies string_views(
            names@,
        ).contains(k) by {
            lemma_workloads_map_dom(state.workloads@, k);
            let i = choose|i: int|
                0 <= i < state.workloads@.len() && (#[trigger] state.workloads@[i]).0@ == k;
        }
        assert forall|k: int| 0 <= k < names@.len() implies g.dom().contains(
            #[trigger] string_views(names@)[k],
        ) by {
            let u = choose|u: int|
                0 <= u < m && (#[trigger] state.workloads@[u]).0@ == string_views(names@)[k];
            lemma_workloads_map_dom(state.workloads@, string_views(names@)[k]);
        }
        assert(sorted_unique_names(string_views(names@), g.dom()));
        lemma_sorted_names_of(string_views(names@), g.dom());
    }
    let n = names.len();
    let mut visited: Vec<bool> = vec![false; n];
    let mut on_path: Vec<bool> = vec![false; n];
    let mut stack: Vec<String> = Vec::new();
    let mut path: Vec<String> = Vec::new();
    let mut start_idx: usize = 0;
    let ghost nv = string_views(names@);
    proof {
        assert(flag_set(nv, visited@) =~= Set::<Seq<char>>::empty());
        assert(string_views(stack@) =~= Seq::<Seq<char>>::empty());
        assert(string_views(path@) =~= Seq::<Seq<char>>::empty());
        assert(nv.skip(0) =~= nv);
    }
    loop
        invariant
            visited@.len() == n,
            on_path@.len() == n,
            start_idx <= n,
            n == names@.len(),
            g == graph_of(state@),
            g.dom().finite(),
            nv == string_views(names@),
            sorted_unique_names(nv, g.dom()),
            nv == sorted_names_of(g.dom()),
            idxs@.len() == n,
            forall|k: int|
                0 <= k < n ==> (#[trigger] idxs@[k]) < state.workloads@.len()
                    && state.workloads@[idxs@[k] as int].0@ == nv[k],
            ({
                let vset = flag_set(nv, visited@);
                let sv = string_views(stack@);
                let pv = string_views(path@);
                &&& pv.no_duplicates()
                &&& forall|k: int| 0 <= k < pv.len() ==> vset.contains(#[trigger] pv[k])
                &&& forall|k: int| 0 <= k < pv.len() ==> nv.contains(#[trigger] pv[k])
                &&& forall|k: int| 0 <= k < n ==> ((#[trigger] on_path@[k]) <==> pv.contains(nv[k]))
                &&& forall|k: int|
                    0 <= k < sv.len() && vset.contains(#[trigger] sv[k]) ==> g.dom().contains(
                        sv[k],
                    ) && (forall|d: Seq<char>|
                        #[trigger] g[sv[k]].contains(d) ==> vset.contains(d) || (exists|j: int|
                            k < j < sv.len() && sv[j] == d))
                &&& dfs_rec(g, nv.skip(start_idx as int), sv, vset, pv) == spec_dfs(g)
            }),
        decreases
                g.dom().difference(flag_set(nv, visited@)).len(),
                n - start_idx,
                stack@.len(),
    {
        let ghost vset = flag_set(nv, visited@);
        let ghost sv = string_views(stack@);
        let ghost pv = string_views(path@);
        if stack.len() == 0 {
            if start_idx == n {
                proof {
                    assert(nv.skip(start_idx as int).len() == 0);
                    assert(string_views(stack@).len() == 0);
                    assert(dfs_rec(
                        g,
                        nv.skip(start_idx as int),
                        string_views(stack@),
                        flag_set(nv, visited@),
                        string_views(path@),
                    ) == DfsOutcome::Acyclic);
                }
                return Ok(());
            }
            proof {
                assert(nv.skip(start_idx as int)[0] == nv[start_idx as int]);
                assert(nv.skip(start_idx as int).drop_first() =~= nv.skip(start_idx as int + 1));
                lemma_flag_set_lookup(nv, visited@, start_idx as int);
            }
            if visited[start_idx] {
                start_idx += 1;
            } else {
                let s = names[start_idx].clone();
                stack.push(s);
                proof {
                    assert(string_views(stack@) =~= seq![nv[start_idx as int]]);
                }
                start_idx += 1;
            }
        } else {
            let head = stack[stack.len() - 1].clone();
            proof {
                assert(sv.len() == stack@.len());
                assert(sv[sv.len() - 1] == stack@[stack@.len() - 1]@);
                assert(sv.last() == head@);
            }
            let found = find_sorted(&names, head.as_str());
            match found {
                None => {
                    proof {
                        if g.dom().contains(head@) {
                            let k = choose|k: int| 0 <= k < nv.len() && nv[k] == head@;
                            assert(string_views(names@)[k] == head@);
                        }
                        assert(!g.dom().contains(head@));
                        assert(dfs_rec(g, nv.skip(start_idx as int), sv, vset, pv)
                            == DfsOutcome::Missing(head@));
                    }
                    let mut msg = String::new();
                    msg.append("workload '");
                    msg.append(head.as_str());
                    msg.append("' is not part of the state.");
                    proof {
                        assert(msg@ =~= missing_message(head@));
                    }
                    return Err(CyclicCheckResult::InvalidStructure(msg));
                },
                Some(hi) => {
                    proof {
                        assert(nv[hi as int] == head@);
                        assert(g.dom().contains(head@));
                        lemma_workloads_map_index(state.workloads@, idxs@[hi as int] as int);
                        assert(g[head@] == spec_dep_names(
                            state.workloads@[idxs@[hi as int] as int].1@,
                        ));
                    }
                    let wl_idx = idxs[hi];
                    // Sort the dependency names for a deterministic scan.
                    let dn = state.workloads[wl_idx].1.dependencies.len();
                    let mut deps_sorted: Vec<String> = Vec::new();
                    let ghost dview = state.workloads@[wl_idx as int].1@.dependencies;
                    let mut u: usize = 0;
                    while u < dn
                        invariant
                            u <= dn,
                            dn == state.workloads@[wl_idx as int].1.dependencies@.len(),
                            wl_idx < state.workloads@.len(),
                            sorted_strict(string_views(deps_sorted@)),
                            forall|w: int|
                                0 <= w < u ==> string_views(deps_sorted@).contains(
                                    (#[trigger] dview[w]).0,
                                ),
                            forall|k: int| #![trigger string_views(deps_sorted@)[k]]
                                0 <= k < deps_sorted@.len() ==> exists|w: int|
                                    0 <= w < u && (#[trigger] dview[w]).0 == string_views(
                                        deps_sorted@,
                                    )[k],
                        decreases dn - u,
                    {
                        let d = state.workloads[wl_idx].1.dependencies[u].0.clone();
                        proof {
                            assert(d@ == dview[u as int].0);
                            assert forall|i: int|
                                0 <= i < deps_sorted@.len() implies string_views(deps_sorted@)[i]
                                != d@ by {
                                let w = choose|w: int|
                                    0 <= w < u && (#[trigger] dview[w]).0 == string_views(
                                        deps_sorted@,
                                    )[i];
                                assert(state.workloads@[wl_idx as int].1.dependencies@[w].0@
                                    != state.workloads@[wl_idx as int].1.dependencies@[u as int].0@);
                            }
                        }
                        let ghost pre_deps = deps_sorted@;
                        let dpos = insert_sorted(&mut deps_sorted, d);
                        proof {
                            assert(string_views(deps_sorted@) =~= string_views(pre_deps).insert(
                                dpos as int,
                                dview[u as int].0,
                            ));
                            assert forall|w: int|
                                0 <= w < u + 1 implies string_views(deps_sorted@).contains(
                                (#[trigger] dview[w]).0,
                            ) by {
                                if w == u {
                                    assert(string_views(deps_sorted@)[dpos as int] == dview[w].0);
                                } else {
                                    let k = choose|k: int|
                                        0 <= k < pre_deps.len() && string_views(pre_deps)[k] == (
                                        dview[w]).0;
                                    if k < dpos {
                                        assert(string_views(deps_sorted@)[k] == dview[w].0);
                                    } else {
                                        assert(string_views(deps_sorted@)[k + 1] == dview[w].0);
                                    }
                                }
                            }
                            assert forall|k: int| #![trigger string_views(deps_sorted@)[k]]
                                0 <= k < deps_sorted@.len() implies exists|w: int|
                                0 <= w < u + 1 && (#[trigger] dview[w]).0 == string_views(
                                    deps_sorted@,
                                )[k] by {
                                if k == dpos {
                                    assert((dview[u as int]).0 == string_views(deps_sorted@)[k]);
                                } else if k < dpos {
                                    let w = choose|w: int|
                                        0 <= w < u && (#[trigger] dview[w]).0 == string_views(
                                            pre_deps,
                                        )[k];
                                    assert((dview[w]).0 == string_views(deps_sorted@)[k]);
                                } else {
                                    let w = choose|w: int|
                                        0 <= w < u && (#[trigger] dview[w]).0 == string_views(
                                            pre_deps,
                                        )[k - 1];
                                    assert((dview[w]).0 == string_views(deps_sorted@)[k]);
                                }
                            }
                        }
                        u += 1;
                    }
                    let ghost deps_spec = sorted_names_of(g[head@]);
                    proof {
                        assert forall|k: int|
                            0 <= k < deps_sorted@.len() implies g[head@].contains(
                            #[trigger] string_views(deps_sorted@)[k],
                        ) by {
                            let w = choose|w: int|
                                0 <= w < dn && (#[trigger] dview[w]).0 == string_views(
                                    deps_sorted@,
                                )[k];
                            assert(dview.map_values(
                                |p: (Seq<char>, crate::objects::AddCondition)| p.0,
                            )[w] == dview[w].0);
                            assert(dview.map_values(
                                |p: (Seq<char>, crate::objects::AddCondition)| p.0,
                            ).contains(dview[w].0));
                        }
                        assert forall|d: Seq<char>| #[trigger] g[head@].contains(
                            d,
                        ) implies string_views(deps_sorted@).contains(d) by {
                            let dm = dview.map_values(
                                |p: (Seq<char>, crate::objects::AddCondition)| p.0,
                            );
                            assert(dm.to_set().contains(d));
                            let w = choose|w: int| 0 <= w < dm.len() && dm[w] == d;
                            assert(dview[w].0 == d);
                        }
                        assert(sorted_unique_names(string_views(deps_sorted@), g[head@]));
                        lemma_sorted_names_of(string_views(deps_sorted@), g[head@]);
                        assert(deps_spec =~= string_views(deps_sorted@));
                        lemma_flag_set_lookup(nv, visited@, hi as int);
                    }
                    let dcount = deps_sorted.len();
                    if !visited[hi] {
                        // First arrival: mark, open, scan and push.
                        let ghost pre_visited = visited@;
                        visited[hi] = true;
                        on_path[hi] = true;
                        path.push(head.clone());
                        let ghost vset2 = flag_set(nv, visited@);
                        let ghost pv2 = string_views(path@);
                        proof {
                            lemma_flag_set_set(nv, pre_visited, hi as int);
                            assert(vset2 =~= vset.insert(head@));
                            assert(pv2 =~= pv.push(head@));
                            assert(pv2.no_duplicates()) by {
                                if pv.contains(head@) {
                                    let x = choose|x: int| 0 <= x < pv.len() && pv[x] == head@;
                                    assert(vset.contains(pv[x]));
                                }
                                assert(!pv.contains(head@));
                            }
                            assert forall|k: int| 0 <= k < n implies ((#[trigger] on_path@[k])
                                <==> pv2.contains(nv[k])) by {
                                if k == hi {
                                    assert(pv2[pv2.len() - 1] == nv[k]);
                                } else {
                                    lemma_sorted_distinct(nv, k, hi as int);
                                    if pv2.contains(nv[k]) {
                                        let x = choose|x: int|
                                            0 <= x < pv2.len() && pv2[x] == nv[k];
                                        assert(x < pv.len());
                                        assert(pv.contains(nv[k]));
                                    }
                                    if pv.contains(nv[k]) {
                                        let x = choose|x: int| 0 <= x < pv.len() && pv[x] == nv[k];
                                        assert(pv2[x] == nv[k]);
                                    }
                                }
                            }
                        }
                        proof {
                            assert(deps_spec.skip(0) =~= deps_spec);
                            assert(deps_spec.take(0) =~= Seq::<Seq<char>>::empty());
                            assert(string_views(stack@) =~= sv + unvisited_pushes(
                                deps_spec.take(0),
                                vset2,
                            ));
                        }
                        let mut w: usize = 0;
                        while w < dcount
                            invariant
                                w <= dcount,
                                dcount == deps_sorted@.len(),
                                visited@.len() == n,
                                on_path@.len() == n,
                                vset2 == flag_set(nv, visited@),
                                pv2 == string_views(path@),
                                first_cycle_dep(deps_spec, vset2, pv2) == first_cycle_dep(
                                    deps_spec.skip(w as int),
                                    vset2,
                                    pv2,
                                ),
                                string_views(stack@) =~= sv + unvisited_pushes(
                                    deps_spec.take(w as int),
                                    vset2,
                                ),
                            decreases dcount - w,
                        {
                            proof {
                                assert(deps_spec[w as int] == string_views(deps_sorted@)[w as int]);
                                assert(deps_spec.take(w as int + 1) =~= deps_spec.take(
                                    w as int,
                                ).push(deps_spec[w as int]));
                                lemma_unvisited_pushes_concat(
                                    deps_spec.take(w as int),
                                    seq![deps_spec[w as int]],
                                    vset2,
                                );
                                assert(deps_spec.take(w as int) + seq![deps_spec[w as int]]
                                    =~= deps_spec.take(w as int + 1));
                            }
                            let dep_found = find_sorted(&names, deps_sorted[w].as_str());
                            match dep_found {
                                None => {
                                    // Unknown name: certainly unvisited; push it.
                                    proof {
                                        if vset2.contains(deps_spec[w as int]) {
                                            let x = choose|x: int|
                                                0 <= x < nv.len() && 0 <= x < visited@.len()
                                                    && visited@[x] && nv[x] == deps_spec[w as int];
                                            assert(string_views(names@)[x] == deps_spec[w as int]);
                                        }
                                        assert(!vset2.contains(deps_spec[w as int]));
                                        assert(seq![deps_spec[w as int]].drop_first() =~= Seq::<
                                            Seq<char>,
                                        >::empty());
                                        assert(unvisited_pushes(
                                            Seq::<Seq<char>>::empty(),
                                            vset2,
                                        ) =~= Seq::<Seq<char>>::empty());
                                        assert(unvisited_pushes(seq![deps_spec[w as int]], vset2)
                                            =~= seq![deps_spec[w as int]]);
                                        lemma_fcd_skip_step(deps_spec, w as int, vset2, pv2);
                                    }
                                    let ghost pre_stack = stack@;
                                    stack.push(deps_sorted[w].clone());
                                    proof {
                                        assert(string_views(stack@) =~= string_views(
                                            pre_stack,
                                        ).push(deps_spec[w as int]));
                                        assert(unvisited_pushes(
                                            deps_spec.take(w as int + 1),
                                            vset2,
                                        ) =~= unvisited_pushes(deps_spec.take(w as int), vset2).push(
                                            deps_spec[w as int],
                                        ));
                                        assert(string_views(stack@) =~= sv + unvisited_pushes(
                                            deps_spec.take(w as int + 1),
                                            vset2,
                                        ));
                                    }
                                },
                                Some(di) => {
                                    proof {
                                        assert(nv[di as int] == deps_spec[w as int]);
                                        lemma_flag_set_lookup(nv, visited@, di as int);
                                    }
                                    if !visited[di] {
                                        proof {
                                            assert(!vset2.contains(deps_spec[w as int]));
                                            assert(seq![deps_spec[w as int]].drop_first() =~= Seq::<
                                                Seq<char>,
                                            >::empty());
                                            assert(unvisited_pushes(
                                                Seq::<Seq<char>>::empty(),
                                                vset2,
                                            ) =~= Seq::<Seq<char>>::empty());
                                            assert(unvisited_pushes(
                                                seq![deps_spec[w as int]],
                                                vset2,
                                            ) =~= seq![deps_spec[w as int]]);
                                            lemma_fcd_skip_step(deps_spec, w as int, vset2, pv2);
                                        }
                                        let ghost pre_stack = stack@;
                                        stack.push(deps_sorted[w].clone());
                                        proof {
                                            assert(string_views(stack@) =~= string_views(
                                                pre_stack,
                                            ).push(deps_spec[w as int]));
                                            assert(unvisited_pushes(
                                                deps_spec.take(w as int + 1),
                                                vset2,
                                            ) =~= unvisited_pushes(
                                                deps_spec.take(w as int),
                                                vset2,
                                            ).push(deps_spec[w as int]));
                                            assert(string_views(stack@) =~= sv + unvisited_pushes(
                                                deps_spec.take(w as int + 1),
                                                vset2,
                                            ));
                                        }
                                    } else if on_path[di] {
                                        // A visited dependency still open: a cycle.
                                        proof {
                                            assert(pv2.contains(deps_spec[w as int]));
                                            assert(deps_spec.skip(w as int)[0] == deps_spec[
                                                w as int
                                            ]);
                                            assert(first_cycle_dep(deps_spec, vset2, pv2) == Some(
                                                deps_spec[w as int],
                                            ));
                                            assert(spec_dfs(g) == DfsOutcome::Cycle(deps_spec[
                                                w as int
                                            ]));
                                        }
                                        return Err(
                                            CyclicCheckResult::WorkloadPartOfCycle(
                                                deps_sorted[w].clone(),
                                            ),
                                        );
                                    } else {
                                        proof {
                                            if pv2.contains(deps_spec[w as int]) {
                                                assert(on_path@[di as int]);
                                            }
                                            assert(vset2.contains(deps_spec[w as int]));
                                            assert(seq![deps_spec[w as int]].drop_first() =~= Seq::<
                                                Seq<char>,
                                            >::empty());
                                            assert(unvisited_pushes(
                                                Seq::<Seq<char>>::empty(),
                                                vset2,
                                            ) =~= Seq::<Seq<char>>::empty());
                                            assert(unvisited_pushes(
                                                seq![deps_spec[w as int]],
                                                vset2,
                                            ) =~= Seq::<Seq<char>>::empty());
                                            lemma_fcd_skip_step(deps_spec, w as int, vset2, pv2);
                                            assert(string_views(stack@) =~= sv + unvisited_pushes(
                                                deps_spec.take(w as int + 1),
                                                vset2,
                                            ));
                                        }
                                    }
                                },
                            }
                            w += 1;
                        }
                        proof {
                            assert(deps_spec.skip(dcount as int).len() == 0);
                            assert(first_cycle_dep(deps_spec, vset2, pv2) is None);
                            assert(deps_spec.take(dcount as int) =~= deps_spec);
                            assert(string_views(stack@) =~= sv + unvisited_pushes(
                                deps_spec,
                                vset2,
                            ));
                            assert(dfs_rec(g, nv.skip(start_idx as int), sv, vset, pv) == dfs_rec(
                                g,
                                nv.skip(start_idx as int),
                                sv + unvisited_pushes(deps_spec, vset2),
                                vset2,
                                pv2,
                            ));
                        }
                        proof {
                            // The queue invariant survives: the new head is
                            // now visited with its unvisited dependencies
                            // stacked above it; everything below keeps its
                            // witnesses.
                            let sv2 = string_views(stack@);
                            assert forall|k: int|
                                0 <= k < sv2.len() && vset2.contains(
                                    #[trigger] sv2[k],
                                ) implies g.dom().contains(sv2[k]) && (forall|d: Seq<char>|
                                #[trigger] g[sv2[k]].contains(d) ==> vset2.contains(d) || (
                                exists|j: int| k < j < sv2.len() && sv2[j] == d)) by {
                                if k < sv.len() {
                                    assert(sv2[k] == sv[k]);
                                    if sv[k] == head@ {
                                        assert(g.dom().contains(sv2[k]));
                                        assert forall|d: Seq<char>| #[trigger] g[sv2[k]].contains(
                                            d,
                                        ) implies vset2.contains(d) || (exists|j: int|
                                            k < j < sv2.len() && sv2[j] == d) by {
                                            if !vset2.contains(d) {
                                                lemma_unvisited_pushes_mem(deps_spec, vset2, d);
                                                let x = choose|x: int|
                                                    0 <= x < unvisited_pushes(
                                                        deps_spec,
                                                        vset2,
                                                    ).len() && unvisited_pushes(deps_spec, vset2)[x]
                                                        == d;
                                                assert(sv2[sv.len() + x] == d);
                                            }
                                        }
                                    } else {
                                        assert(vset.contains(sv[k]));
                                        assert forall|d: Seq<char>| #[trigger] g[sv2[k]].contains(
                                            d,
                                        ) implies vset2.contains(d) || (exists|j: int|
                                            k < j < sv2.len() && sv2[j] == d) by {
                                            if !vset2.contains(d) {
                                                assert(!vset.contains(d));
                                                let j = choose|j: int|
                                                    k < j < sv.len() && sv[j] == d;
                                                assert(sv2[j] == d);
                                            }
                                        }
                                    }
                                } else {
                                    lemma_unvisited_pushes_elems(deps_spec, vset2);
                                    assert(sv2[k] == unvisited_pushes(deps_spec, vset2)[k - sv.len()]);
                                    assert(!vset2.contains(sv2[k]));
                                }
                            }
                            // Termination: one more name is visited.
                            assert(g.dom().difference(vset2) =~= g.dom().difference(vset).remove(
                                head@,
                            ));
                            assert(g.dom().difference(vset).contains(head@));
                        }
                    } else {
                        // Resurfaced: the head itself leaves the path (a
                        // stale duplicate of an already closed workload
                        // leaves it untouched), then its dependencies are
                        // re-checked against the remaining path.
                        let _popped = stack.pop();
                        let ghost pre_on_path = on_path@;
                        if on_path[hi] {
                            proof {
                                assert(pv.contains(nv[hi as int]));
                            }
                            match rfind_str(&path, head.as_str()) {
                                Some(pos) => {
                                    proof {
                                        assert(pv[pos as int] == head@);
                                        lemma_path_close(
                                            nv,
                                            pre_on_path,
                                            pv,
                                            hi as int,
                                            pos as int,
                                        );
                                    }
                                    path.remove(pos);
                                    on_path[hi] = false;
                                    proof {
                                        assert(string_views(path@) =~= pv.remove(pos as int));
                                        assert(on_path@ =~= pre_on_path.update(hi as int, false));
                                        assert forall|t: int|
                                            0 <= t < string_views(path@).len() implies pv.contains(
                                            #[trigger] string_views(path@)[t],
                                        ) by {
                                            assert(pv.remove(pos as int)[t] == string_views(
                                                path@,
                                            )[t]);
                                        }
                                    }
                                },
                                None => {
                                    proof {
                                        let x = choose|x: int|
                                            0 <= x < pv.len() && pv[x] == nv[hi as int];
                                        assert(string_views(path@)[x] == head@);
                                        assert(false);
                                    }
                                },
                            }
                        } else {
                            proof {
                                // Not open: a stale duplicate of a workload
                                // already closed; the path stays as it is.
                                lemma_path_index_props(pv, head@);
                                if path_index_of(pv, head@) >= 0 {
                                    assert(pv[path_index_of(pv, head@)] == head@);
                                    assert(pv.contains(nv[hi as int]));
                                    assert(false);
                                }
                                assert(path_remove(pv, head@) == pv);
                            }
                        }
                        let ghost pv2 = string_views(path@);
                        let ghost sv2 = string_views(stack@);
                        proof {
                            assert(sv2 =~= sv.drop_last());
                            assert(pv2 == path_remove(pv, head@));
                            assert forall|t: int| 0 <= t < pv2.len() implies vset.contains(
                                #[trigger] pv2[t],
                            ) && nv.contains(pv2[t]) by {
                                assert(pv.contains(pv2[t]));
                                let x = choose|x: int| 0 <= x < pv.len() && pv[x] == pv2[t];
                                assert(vset.contains(pv[x]));
                                assert(nv.contains(pv[x]));
                            }
                            // All of the head's dependencies were visited.
                            assert(vset.contains(sv[sv.len() - 1]));
                            assert forall|d: Seq<char>| #[trigger] g[head@].contains(
                                d,
                            ) implies vset.contains(d) by {
                                if exists|j: int| sv.len() - 1 < j < sv.len() && sv[j] == d {
                                    assert(false);
                                }
                            }
                        }
                        // Re-scan the dependencies for back edges into the
                        // remaining path.
                        proof {
                            assert(deps_spec.skip(0) =~= deps_spec);
                        }
                        let mut w: usize = 0;
                        while w < dcount
                            invariant
                                w <= dcount,
                                dcount == deps_sorted@.len(),
                                visited@.len() == n,
                                on_path@.len() == n,
                                vset == flag_set(nv, visited@),
                                pv2 == string_views(path@),
                                sv2 == string_views(stack@),
                                first_cycle_dep(deps_spec, vset, pv2) == first_cycle_dep(
                                    deps_spec.skip(w as int),
                                    vset,
                                    pv2,
                                ),
                            decreases dcount - w,
                        {
                            proof {
                                assert(deps_spec[w as int] == string_views(deps_sorted@)[w as int]);
                                assert(g[head@].contains(deps_spec[w as int]));
                            }
                            let dep_found = find_sorted(&names, deps_sorted[w].as_str());
                            match dep_found {
                                None => {
                                    proof {
                                        assert(vset.contains(deps_spec[w as int]));
                                        let x = choose|x: int|
                                            0 <= x < nv.len() && 0 <= x < visited@.len()
                                                && visited@[x] && nv[x] == deps_spec[w as int];
                                        assert(string_views(names@)[x] == deps_spec[w as int]);
                                        assert(false);
                                    }
                                },
                                Some(di) => {
                                    proof {
                                        assert(nv[di as int] == deps_spec[w as int]);
                                        lemma_flag_set_lookup(nv, visited@, di as int);
                                        assert(visited@[di as int]);
                                    }
                                    if !visited[di] {
                                        proof {
                                            assert(false);
                                        }
                                    } else if on_path[di] {
                                        proof {
                                            assert(pv2.contains(deps_spec[w as int]));
                                            assert(deps_spec.skip(w as int)[0] == deps_spec[
                                                w as int
                                            ]);
                                            assert(first_cycle_dep(deps_spec, vset, pv2) == Some(
                                                deps_spec[w as int],
                                            ));
                                            assert(spec_dfs(g) == DfsOutcome::Cycle(deps_spec[
                                                w as int
                                            ]));
                                        }
                                        return Err(
                                            CyclicCheckResult::WorkloadPartOfCycle(
                                                deps_sorted[w].clone(),
                                            ),
                                        );
                                    } else {
                                        proof {
                                            if pv2.contains(deps_spec[w as int]) {
                                                assert(on_path@[di as int]);
                                            }
                                            lemma_fcd_skip_step(deps_spec, w as int, vset, pv2);
                                        }
                                    }
                                },
                            }
                            w += 1;
                        }
                        proof {
                            assert(deps_spec.skip(dcount as int).len() == 0);
                            assert(first_cycle_dep(deps_spec, vset, pv2) is None);
                            assert(!(exists|k: int|
                                0 <= k < deps_spec.len() && !vset.contains(deps_spec[k])));
                            assert(dfs_rec(g, nv.skip(start_idx as int), sv, vset, pv) == dfs_rec(
                                g,
                                nv.skip(start_idx as int),
                                sv2,
                                vset,
                                pv2,
                            ));
                            // The queue invariant survives the pop: a
                            // witness that pointed at the popped head is
                            // itself visited.
                            assert forall|k: int|
                                0 <= k < sv2.len() && vset.contains(
                                    #[trigger] sv2[k],
                                ) implies g.dom().contains(sv2[k]) && (forall|d: Seq<char>|
                                #[trigger] g[sv2[k]].contains(d) ==> vset.contains(d) || (
                                exists|j: int| k < j < sv2.len() && sv2[j] == d)) by {
                                assert(sv2[k] == sv[k]);
                                assert forall|d: Seq<char>| #[trigger] g[sv2[k]].contains(
                                    d,
                                ) implies vset.contains(d) || (exists|j: int|
                                    k < j < sv2.len() && sv2[j] == d) by {
                                    if !vset.contains(d) {
                                        let j = choose|j: int| k < j < sv.len() && sv[j] == d;
                                        assert(sv2[j] == d);
                                    }
                                }
                            }
                        }
                    }
                },
            }
        }
    }
}

} // verus!

verus! {

/// Law (cycle-check determinism): the outcome is a mathematical function of
/// the dependency graph alone. Two states that declare the same dependency
/// graph — whatever order their workloads or dependency lists come in — are
/// accepted or rejected identically, with the same reported name.
pub proof fn lemma_cycle_check_deterministic(
    m1: Map<Seq<char>, WorkloadSpecView>,
    m2: Map<Seq<char>, WorkloadSpecView>,
)
    requires
        graph_of(m1) == graph_of(m2),
    ensures
        spec_dfs(graph_of(m1)) == spec_dfs(graph_of(m2)),
{
}

/// Sorted insertion at the specification level, for listing finite name
/// sets.
pub open spec fn spec_sorted_insert(q: Seq<Seq<char>>, x: Seq<char>) -> Seq<Seq<char>>
    decreases q.len(),
{
    if q.len() == 0 {
        seq![x]
    } else if name_lt(x, q[0]) {
        seq![x] + q
    } else {
        seq![q[0]] + spec_sorted_insert(q.drop_first(), x)
    }
}

proof fn lemma_spec_sorted_insert(q: Seq<Seq<char>>, s: Set<Seq<char>>, x: Seq<char>)
    requires
        sorted_unique_names(q, s),
        !s.contains(x),
    ensures
        sorted_unique_names(spec_sorted_insert(q, x), s.insert(x)),
    decreases q.len(),
{
    let r = spec_sorted_insert(q, x);
    if q.len() == 0 {
        assert(r =~= seq![x]);
        assert forall|n: Seq<char>| #[trigger] s.insert(x).contains(n) implies r.contains(n) by {
            if n == x {
                assert(r[0] == n);
            } else {
                assert(q.contains(n));
            }
        }
    } else if name_lt(x, q[0]) {
        assert(r =~= seq![x] + q);
        assert forall|i: int, j: int| 0 <= i < j < r.len() implies name_lt(
            #[trigger] r[i],
            #[trigger] r[j],
        ) by {
            if i == 0 {
                assert(r[j] == q[j - 1]);
                if j > 1 {
                    lemma_name_lt_transitive(x, q[0], q[j - 1]);
                }
            } else {
                assert(r[i] == q[i - 1]);
                assert(r[j] == q[j - 1]);
            }
        }
        assert forall|n: Seq<char>| #[trigger] s.insert(x).contains(n) implies r.contains(n) by {
            if n == x {
                assert(r[0] == n);
            } else {
                assert(q.contains(n));
                let t = choose|t: int| 0 <= t < q.len() && q[t] == n;
                assert(r[t + 1] == n);
            }
        }
        assert forall|i: int| 0 <= i < r.len() implies s.insert(x).contains(#[trigger] r[i]) by {
            if i > 0 {
                assert(r[i] == q[i - 1]);
            }
        }
    } else {
        // q[0] stays in front; x goes into the tail.
        if x == q[0] {
            assert(s.contains(q[0]));
            assert(false);
        }
        lemma_name_lt_total(x, q[0]);
        assert(name_lt(q[0], x));
        let s2 = s.remove(q[0]);
        assert forall|n: Seq<char>| #[trigger] s2.contains(n) implies q.drop_first().contains(
            n,
        ) by {
            assert(s.contains(n));
            let t = choose|t: int| 0 <= t < q.len() && q[t] == n;
            assert(t > 0) by {
                if t == 0 {
                    assert(n == q[0]);
                }
            }
            assert(q.drop_first()[t - 1] == n);
        }
        assert forall|t: int| 0 <= t < q.drop_first().len() implies s2.contains(
            #[trigger] q.drop_first()[t],
        ) by {
            assert(q.drop_first()[t] == q[t + 1]);
            assert(name_lt(q[0], q[t + 1]));
            if q[t + 1] == q[0] {
                lemma_name_lt_irreflexive(q[0]);
            }
        }
        assert(sorted_strict(q.drop_first())) by {
            assert(forall|a: int, b: int|
                0 <= a < b < q.drop_first().len() ==> #[trigger] q.drop_first()[a] == q[a + 1]
                    && #[trigger] q.drop_first()[b] == q[b + 1]);
        }
        assert(!s2.contains(x));
        lemma_spec_sorted_insert(q.drop_first(), s2, x);
        let rt = spec_sorted_insert(q.drop_first(), x);
        assert(r =~= seq![q[0]] + rt);
        assert forall|i: int, j: int| 0 <= i < j < r.len() implies name_lt(
            #[trigger] r[i],
            #[trigger] r[j],
        ) by {
            if i == 0 {
                assert(r[j] == rt[j - 1]);
                assert(s2.insert(x).contains(rt[j - 1]));
                if rt[j - 1] == x {
                } else {
                    assert(s2.contains(rt[j - 1]));
                    let t = choose|t: int|
                        0 <= t < q.drop_first().len() && q.drop_first()[t] == rt[j - 1];
                    assert(q[t + 1] == rt[j - 1]);
                }
            } else {
                assert(r[i] == rt[i - 1]);
                assert(r[j] == rt[j - 1]);
            }
        }
        assert forall|n: Seq<char>| #[trigger] s.insert(x).contains(n) implies r.contains(n) by {
            if n == q[0] {
                assert(r[0] == n);
            } else {
                assert(s2.insert(x).contains(n));
                assert(rt.contains(n));
                let t = choose|t: int| 0 <= t < rt.len() && rt[t] == n;
                assert(r[t + 1] == n);
            }
        }
        assert forall|i: int| 0 <= i < r.len() implies s.insert(x).contains(#[trigger] r[i]) by {
            if i > 0 {
                assert(r[i] == rt[i - 1]);
                assert(s2.insert(x).contains(rt[i - 1]));
            }
        }
    }
}

/// Every finite name set has a sorted listing.
pub proof fn lemma_sorted_listing_exists(s: Set<Seq<char>>)
    requires
        s.finite(),
    ensures
        exists|q: Seq<Seq<char>>| sorted_unique_names(q, s),
    decreases s.len(),
{
    if s.len() == 0 {
        assert(sorted_unique_names(Seq::<Seq<char>>::empty(), s)) by {
            assert forall|n: Seq<char>| #[trigger] s.contains(n) implies Seq::<
                Seq<char>,
            >::empty().contains(n) by {
                assert(s.remove(n).len() + 1 == s.len());
            }
        }
    } else {
        let a = s.choose();
        assert(s.contains(a));
        let s2 = s.remove(a);
        lemma_sorted_listing_exists(s2);
        let q2 = choose|q2: Seq<Seq<char>>| sorted_unique_names(q2, s2);
        lemma_spec_sorted_insert(q2, s2, a);
        assert(s2.insert(a) =~= s);
        assert(sorted_unique_names(spec_sorted_insert(q2, a), s));
    }
}

/// No dependency scan that could report a cycle reports none.
proof fn lemma_fcd_some(deps: Seq<Seq<char>>, visited: Set<Seq<char>>, path: Seq<Seq<char>>, j: int)
    requires
        0 <= j < deps.len(),
        visited.contains(deps[j]),
        path.contains(deps[j]),
    ensures
        first_cycle_dep(deps, visited, path) is Some,
    decreases deps.len(),
{
    if visited.contains(deps[0]) && path.contains(deps[0]) {
    } else {
        assert(j > 0);
        assert(deps.drop_first()[j - 1] == deps[j]);
        lemma_fcd_some(deps.drop_first(), visited, path, j - 1);
    }
}

proof fn lemma_self_dep_rec(
    g: Map<Seq<char>, Set<Seq<char>>>,
    starts: Seq<Seq<char>>,
    stack: Seq<Seq<char>>,
    visited: Set<Seq<char>>,
    path: Seq<Seq<char>>,
    d: Seq<char>,
)
    requires
        g.dom().finite(),
        g[d].finite(),
        g.dom().contains(d),
        g[d].contains(d),
        !visited.contains(d),
        starts.contains(d) || stack.contains(d),
    ensures
        dfs_rec(g, starts, stack, visited, path) != DfsOutcome::Acyclic,
    decreases g.dom().difference(visited).len(), starts.len(), stack.len(),
{
    if stack.len() == 0 {
        assert(starts.contains(d));
        let t = choose|t: int| 0 <= t < starts.len() && starts[t] == d;
        assert(starts.len() > 0);
        if visited.contains(starts[0]) {
            assert(t > 0);
            assert(starts.drop_first()[t - 1] == d);
            assert(starts.drop_first().contains(d));
            lemma_self_dep_rec(g, starts.drop_first(), stack, visited, path, d);
            assert(dfs_rec(g, starts, stack, visited, path) == dfs_rec(
                g,
                starts.drop_first(),
                stack,
                visited,
                path,
            ));
        } else {
            if starts[0] == d {
                assert(seq![starts[0]][0] == d);
                assert(seq![starts[0]].contains(d));
                lemma_self_dep_rec(g, starts.drop_first(), seq![starts[0]], visited, path, d);
            } else {
                assert(t > 0);
                assert(starts.drop_first()[t - 1] == d);
                assert(starts.drop_first().contains(d));
                lemma_self_dep_rec(g, starts.drop_first(), seq![starts[0]], visited, path, d);
            }
            assert(dfs_rec(g, starts, stack, visited, path) == dfs_rec(
                g,
                starts.drop_first(),
                seq![starts[0]],
                visited,
                path,
            ));
        }
    } else {
        let head = stack.last();
        if !g.dom().contains(head) {
        } else {
            let deps = sorted_names_of(g[head]);
            if !visited.contains(head) {
                let visited2 = visited.insert(head);
                let path2 = path.push(head);
                if head == d {
                    // The self edge closes a cycle at once.
                    lemma_sorted_listing_exists(g[d]);
                    assert(sorted_unique_names(deps, g[d]));
                    assert(deps.contains(d));
                    let j = choose|j: int| 0 <= j < deps.len() && deps[j] == d;
                    assert(path2[path2.len() - 1] == d);
                    assert(path2.contains(d));
                    lemma_fcd_some(deps, visited2, path2, j);
                } else {
                    match first_cycle_dep(deps, visited2, path2) {
                        Some(c) => {},
                        None => {
                            let stack2 = stack + unvisited_pushes(deps, visited2);
                            if stack.contains(d) {
                                let t = choose|t: int| 0 <= t < stack.len() && stack[t] == d;
                                assert(stack2[t] == d);
                                assert(stack2.contains(d));
                            }
                            assert(g.dom().difference(visited2) =~= g.dom().difference(
                                visited,
                            ).remove(head));
                            assert(g.dom().difference(visited).contains(head));
                            lemma_self_dep_rec(g, starts, stack2, visited2, path2, d);
                        },
                    }
                }
            } else {
                assert(head != d);
                let stack2 = stack.drop_last();
                let path2 = path_remove(path, head);
                match first_cycle_dep(deps, visited, path2) {
                    Some(c) => {},
                    None => {
                        if exists|k: int| 0 <= k < deps.len() && !visited.contains(deps[k]) {
                        } else {
                            if stack.contains(d) {
                                let t = choose|t: int| 0 <= t < stack.len() && stack[t] == d;
                                assert(t < stack.len() - 1);
                                assert(stack2[t] == d);
                                assert(stack2.contains(d));
                            }
                            lemma_self_dep_rec(g, starts, stack2, visited, path2, d);
                        }
                    },
                }
            }
        }
    }
}

/// Law (completeness, self-dependency form): a state in which some workload
/// depends on itself is never accepted. The self edge is the one cycle whose
/// rejection needs no reasoning about the path: it closes at the very moment
/// its workload is first visited.
pub proof fn lemma_self_dependency_rejected(g: Map<Seq<char>, Set<Seq<char>>>, d: Seq<char>)
    requires
        g.dom().finite(),
        g[d].finite(),
        g.dom().contains(d),
        g[d].contains(d),
    ensures
        spec_dfs(g) != DfsOutcome::Acyclic,
{
    lemma_sorted_listing_exists(g.dom());
    let q = choose|q: Seq<Seq<char>>| sorted_unique_names(q, g.dom());
    lemma_sorted_names_of(q, g.dom());
    assert(sorted_names_of(g.dom()).contains(d)) by {
        assert(q.contains(d));
        let t = choose|t: int| 0 <= t < q.len() && q[t] == d;
        assert(sorted_names_of(g.dom())[t] == d);
    }
    lemma_self_dep_rec(
        g,
        sorted_names_of(g.dom()),
        Seq::empty(),
        Set::empty(),
        Seq::empty(),
        d,
    );
}

} // verus!

verus! {

/// A dependency cycle: a non-empty run of declared workloads in which each
/// one depends on the next, wrapping around at the end.
pub open spec fn cyc_next(len: int, i: int) -> int {
    if i == len - 1 {
        0
    } else {
        i + 1
    }
}

pub open spec fn is_cycle(g: Map<Seq<char>, Set<Seq<char>>>, c: Seq<Seq<char>>) -> bool {
    &&& c.len() > 0
    &&& forall|i: int| 0 <= i < c.len() ==> g.dom().contains(#[trigger] c[i])
    &&& forall|i: int|
        0 <= i < c.len() ==> g[#[trigger] c[i]].contains(c[cyc_next(c.len() as int, i)])
}

/// A scan that reports nothing found no pair of a visited and open name.
proof fn lemma_fcd_none(deps: Seq<Seq<char>>, visited: Set<Seq<char>>, path: Seq<Seq<char>>)
    requires
        first_cycle_dep(deps, visited, path) is None,
    ensures
        forall|j: int|
            0 <= j < deps.len() ==> !(visited.contains(#[trigger] deps[j]) && path.contains(
                deps[j],
            )),
    decreases deps.len(),
{
    if deps.len() > 0 {
        lemma_fcd_none(deps.drop_first(), visited, path);
        assert(forall|j: int| 0 < j < deps.len() ==> #[trigger] deps[j] == deps.drop_first()[j - 1]);
    }
}

/// Removing one spot from a duplicate-free run removes exactly that name.
proof fn lemma_path_remove_contains(path: Seq<Seq<char>>, pos: int)
    requires
        path.no_duplicates(),
        0 <= pos < path.len(),
    ensures
        path.remove(pos).no_duplicates(),
        forall|n: Seq<char>|
            #[trigger] path.remove(pos).contains(n) <==> (path.contains(n) && n != path[pos]),
{
    let pvd = path.remove(pos);
    assert forall|n: Seq<char>| #[trigger] pvd.contains(n) implies (path.contains(n) && n
        != path[pos]) by {
        let x = choose|x: int| 0 <= x < pvd.len() && pvd[x] == n;
        if x < pos {
            assert(path[x] == n);
        } else {
            assert(path[x + 1] == n);
        }
    }
    assert forall|n: Seq<char>| (path.contains(n) && n != path[pos]) implies #[trigger] pvd.contains(
        n,
    ) by {
        let x = choose|x: int| 0 <= x < path.len() && path[x] == n;
        if x < pos {
            assert(pvd[x] == n);
        } else {
            assert(x != pos);
            assert(pvd[x - 1] == n);
        }
    }
}

/// Following a cycle against a dependency-respecting finishing order
/// descends at every step, so a cycle member's finishing position exceeds
/// every bound.
proof fn lemma_finish_descent(
    g: Map<Seq<char>, Set<Seq<char>>>,
    fin: Seq<Seq<char>>,
    c: Seq<Seq<char>>,
    t: int,
    m: int,
)
    requires
        is_cycle(g, c),
        fin.no_duplicates(),
        forall|i: int, d: Seq<char>|
            0 <= i < fin.len() && #[trigger] g[fin[i]].contains(d) ==> exists|j: int|
                0 <= j < i && fin[j] == d,
        forall|i: int| 0 <= i < c.len() ==> fin.contains(#[trigger] c[i]),
        0 <= t < c.len(),
    ensures
        path_index_of(fin, c[t]) > m,
    decreases m,
{
    lemma_path_index_props(fin, c[t]);
    let it = path_index_of(fin, c[t]);
    assert(fin.contains(c[t]));
    assert(it >= 0) by {
        if it == -1 {
            let x = choose|x: int| 0 <= x < fin.len() && fin[x] == c[t];
        }
    }
    if m < 0 {
        return ;
    }
    if it <= m {
        assert(fin[it] == c[t]);
        let t2 = cyc_next(c.len() as int, t);
        let nxt = c[t2];
        assert(g[fin[it]].contains(nxt));
        let j = choose|j: int| 0 <= j < it && fin[j] == nxt;
        lemma_path_index_props(fin, nxt);
        let jn = path_index_of(fin, nxt);
        assert(jn >= 0) by {
            if jn == -1 {
                assert(fin[j] == nxt);
            }
        }
        assert(jn <= j) by {
            if jn > j {
                assert(fin[j] != nxt);
            }
        }
        lemma_finish_descent(g, fin, c, t2, m - 1);
        assert(false);
    }
}

/// A finishing order in which every name follows its dependencies cannot
/// cover a whole cycle.
proof fn lemma_finish_order_no_cycle(
    g: Map<Seq<char>, Set<Seq<char>>>,
    fin: Seq<Seq<char>>,
    c: Seq<Seq<char>>,
)
    requires
        is_cycle(g, c),
        fin.no_duplicates(),
        forall|i: int, d: Seq<char>|
            0 <= i < fin.len() && #[trigger] g[fin[i]].contains(d) ==> exists|j: int|
                0 <= j < i && fin[j] == d,
    ensures
        !(forall|i: int| 0 <= i < c.len() ==> fin.contains(#[trigger] c[i])),
{
    if forall|i: int| 0 <= i < c.len() ==> fin.contains(#[trigger] c[i]) {
        lemma_path_index_props(fin, c[0]);
        assert(fin.contains(c[0]));
        let i0 = path_index_of(fin, c[0]);
        assert(i0 >= 0) by {
            if i0 == -1 {
                let x = choose|x: int| 0 <= x < fin.len() && fin[x] == c[0];
            }
        }
        lemma_finish_descent(g, fin, c, 0, i0);
    }
}

/// The inductive heart of completeness: from any reachable configuration
/// whose finished names `fin` are closed in reverse-topological order, the
/// search cannot end in acceptance while the graph holds a cycle.
#[verifier::rlimit(100)]
proof fn lemma_acyclic_rec(
    g: Map<Seq<char>, Set<Seq<char>>>,
    starts: Seq<Seq<char>>,
    stack: Seq<Seq<char>>,
    visited: Set<Seq<char>>,
    path: Seq<Seq<char>>,
    fin: Seq<Seq<char>>,
    c: Seq<Seq<char>>,
)
    requires
        g.dom().finite(),
        forall|k: Seq<char>| #[trigger] g.dom().contains(k) ==> g[k].finite(),
        is_cycle(g, c),
        // what is visited is exactly what is open or finished
        forall|n: Seq<char>|
            #[trigger] visited.contains(n) <==> (path.contains(n) || fin.contains(n)),
        path.no_duplicates(),
        fin.no_duplicates(),
        forall|i: int| 0 <= i < fin.len() ==> !path.contains(#[trigger] fin[i]),
        // every open name still has a frontier entry, belongs to the state,
        // and does not depend on itself
        forall|i: int| 0 <= i < path.len() ==> stack.contains(#[trigger] path[i]),
        forall|i: int| 0 <= i < path.len() ==> g.dom().contains(#[trigger] path[i]),
        forall|i: int| 0 <= i < path.len() ==> !g[#[trigger] path[i]].contains(path[i]),
        forall|i: int| 0 <= i < fin.len() ==> g.dom().contains(#[trigger] fin[i]),
        // finished names finish after their dependencies
        forall|i: int, d: Seq<char>|
            0 <= i < fin.len() && #[trigger] g[fin[i]].contains(d) ==> exists|j: int|
                0 <= j < i && fin[j] == d,
        // no declared name escapes the search
        forall|n: Seq<char>|
            #[trigger] g.dom().contains(n) ==> visited.contains(n) || starts.contains(n)
                || stack.contains(n),
    ensures
        dfs_rec(g, starts, stack, visited, path) != DfsOutcome::Acyclic,
    decreases g.dom().difference(visited).len(), starts.len(), stack.len(),
{
    if stack.len() == 0 {
        assert(path.len() == 0) by {
            if path.len() > 0 {
                assert(stack.contains(path[0]));
            }
        }
        if starts.len() == 0 {
            // Everything finished in reverse-topological order; walking the
            // cycle from its earliest-finished name descends forever.
            assert forall|i: int| 0 <= i < c.len() implies fin.contains(#[trigger] c[i]) by {
                assert(g.dom().contains(c[i]));
                assert(visited.contains(c[i]));
            }
            lemma_finish_order_no_cycle(g, fin, c);
        } else if visited.contains(starts[0]) {
            assert(forall|i: int|
                0 < i < starts.len() ==> #[trigger] starts[i] == starts.drop_first()[i - 1]);
            lemma_acyclic_rec(g, starts.drop_first(), stack, visited, path, fin, c);
        } else {
            assert(forall|i: int|
                0 < i < starts.len() ==> #[trigger] starts[i] == starts.drop_first()[i - 1]);
            assert(seq![starts[0]][0] == starts[0]);
            assert forall|n: Seq<char>| #[trigger] g.dom().contains(n) implies visited.contains(n)
                || starts.drop_first().contains(n) || seq![starts[0]].contains(n) by {
                if !visited.contains(n) {
                    if starts.contains(n) {
                        let x = choose|x: int| 0 <= x < starts.len() && starts[x] == n;
                        if x == 0 {
                            assert(seq![starts[0]][0] == n);
                        } else {
                            assert(starts.drop_first()[x - 1] == n);
                        }
                    } else {
                        assert(stack.contains(n));
                        let x = choose|x: int| 0 <= x < stack.len() && stack[x] == n;
                    }
                }
            }
            lemma_acyclic_rec(g, starts.drop_first(), seq![starts[0]], visited, path, fin, c);
        }
    } else {
        let head = stack.last();
        if !g.dom().contains(head) {
            // rejected as a dangling reference
        } else {
            let deps = sorted_names_of(g[head]);
            lemma_sorted_listing_exists(g[head]);
            assert(sorted_unique_names(deps, g[head]));
            if !visited.contains(head) {
                let visited2 = visited.insert(head);
                let path2 = path.push(head);
                match first_cycle_dep(deps, visited2, path2) {
                    Some(d) => {},
                    None => {
                        lemma_fcd_none(deps, visited2, path2);
                        let stack2 = stack + unvisited_pushes(deps, visited2);
                        // the new head must not depend on itself
                        assert(!g[head].contains(head)) by {
                            if g[head].contains(head) {
                                let x = choose|x: int| 0 <= x < deps.len() && deps[x] == head;
                                assert(path2[path2.len() - 1] == head);
                                assert(path2.contains(head));
                                lemma_fcd_some(deps, visited2, path2, x);
                            }
                        }
                        assert(!path.contains(head));
                        assert forall|n: Seq<char>| #[trigger] visited2.contains(n) implies (
                        path2.contains(n) || fin.contains(n)) by {
                            if n == head {
                                assert(path2[path2.len() - 1] == head);
                            } else {
                                if path.contains(n) {
                                    let x = choose|x: int| 0 <= x < path.len() && path[x] == n;
                                    assert(path2[x] == n);
                                }
                            }
                        }
                        assert forall|n: Seq<char>| (path2.contains(n) || fin.contains(
                            n,
                        )) implies #[trigger] visited2.contains(n) by {
                            if path2.contains(n) && n != head {
                                let x = choose|x: int| 0 <= x < path2.len() && path2[x] == n;
                                assert(x < path.len());
                                assert(path[x] == n);
                            }
                        }
                        assert forall|i: int| 0 <= i < path2.len() implies stack2.contains(
                            #[trigger] path2[i],
                        ) by {
                            if i < path.len() {
                                assert(stack.contains(path[i]));
                                let x = choose|x: int| 0 <= x < stack.len() && stack[x] == path[i];
                                assert(stack2[x] == path[i]);
                            } else {
                                assert(path2[i] == head);
                                assert(stack2[stack.len() - 1] == head);
                            }
                        }
                        assert forall|n: Seq<char>| #[trigger] g.dom().contains(
                            n,
                        ) implies visited2.contains(n) || starts.contains(n) || stack2.contains(
                            n,
                        ) by {
                            if stack.contains(n) {
                                let x = choose|x: int| 0 <= x < stack.len() && stack[x] == n;
                                assert(stack2[x] == n);
                            }
                        }
                        assert(g.dom().difference(visited2) =~= g.dom().difference(visited).remove(
                            head,
                        ));
                        assert(g.dom().difference(visited).contains(head));
                        lemma_acyclic_rec(g, starts, stack2, visited2, path2, fin, c);
                    },
                }
            } else {
                let stack2 = stack.drop_last();
                let path2 = path_remove(path, head);
                match first_cycle_dep(deps, visited, path2) {
                    Some(d) => {},
                    None => {
                        if exists|k: int| 0 <= k < deps.len() && !visited.contains(deps[k]) {
                            // rejected through the guard of the model
                        } else {
                            lemma_fcd_none(deps, visited, path2);
                            lemma_path_index_props(path, head);
                            let pi = path_index_of(path, head);
                            if pi >= 0 {
                                // the head closes: append it to the finished
                                // names, its dependencies all finished first
                                assert(path[pi] == head);
                                assert(path.contains(head));
                                lemma_path_remove_contains(path, pi);
                                let fin2 = fin.push(head);
                                assert(!fin.contains(head));
                                assert forall|n: Seq<char>| #[trigger] visited.contains(
                                    n,
                                ) implies (path2.contains(n) || fin2.contains(n)) by {
                                    if n == head {
                                        assert(fin2[fin2.len() - 1] == head);
                                    } else if path.contains(n) {
                                        assert(path2.contains(n));
                                    } else {
                                        let x = choose|x: int| 0 <= x < fin.len() && fin[x] == n;
                                        assert(fin2[x] == n);
                                    }
                                }
                                assert forall|n: Seq<char>| (path2.contains(n) || fin2.contains(
                                    n,
                                )) implies #[trigger] visited.contains(n) by {
                                    if fin2.contains(n) && n != head {
                                        let x = choose|x: int|
                                            0 <= x < fin2.len() && fin2[x] == n;
                                        assert(x < fin.len());
                                        assert(fin[x] == n);
                                    }
                                }
                                assert(fin2.no_duplicates());
                                assert forall|i: int| 0 <= i < fin2.len() implies !path2.contains(
                                    #[trigger] fin2[i],
                                ) by {
                                    if i < fin.len() {
                                        assert(!path.contains(fin[i]));
                                    }
                                }
                                assert forall|i: int| 0 <= i < path2.len() implies stack2.contains(
                                    #[trigger] path2[i],
                                ) by {
                                    assert(path2[i] == path.remove(pi)[i]);
                                    assert(path.contains(path2[i]) && path2[i] != head);
                                    let x = choose|x: int|
                                        0 <= x < stack.len() && stack[x] == path2[i];
                                    assert(x < stack.len() - 1) by {
                                        if x == stack.len() - 1 {
                                            assert(stack[x] == head);
                                        }
                                    }
                                    assert(stack2[x] == path2[i]);
                                }
                                assert forall|i: int| 0 <= i < path2.len() implies g.dom().contains(
                                    #[trigger] path2[i],
                                ) && !g[path2[i]].contains(path2[i]) by {
                                    assert(path.contains(path2[i]));
                                    let x = choose|x: int|
                                        0 <= x < path.len() && path[x] == path2[i];
                                }
                                // reverse-topological order extends to head
                                assert forall|i: int, d: Seq<char>|
                                    0 <= i < fin2.len() && #[trigger] g[fin2[i]].contains(
                                        d,
                                    ) implies exists|j: int| 0 <= j < i && fin2[j] == d by {
                                    if i < fin.len() {
                                        assert(g[fin[i]].contains(d));
                                        let j = choose|j: int| 0 <= j < i && fin[j] == d;
                                        assert(fin2[j] == d);
                                    } else {
                                        assert(fin2[i] == head);
                                        let x = choose|x: int|
                                            0 <= x < deps.len() && deps[x] == d;
                                        assert(visited.contains(d));
                                        assert(!path2.contains(d));
                                        assert(d != head);
                                        assert(!path.contains(d)) by {
                                            if path.contains(d) {
                                                assert(path2.contains(d));
                                            }
                                        }
                                        assert(fin.contains(d));
                                        let j = choose|j: int| 0 <= j < fin.len() && fin[j] == d;
                                        assert(fin2[j] == d);
                                    }
                                }
                                assert forall|n: Seq<char>| #[trigger] g.dom().contains(
                                    n,
                                ) implies visited.contains(n) || starts.contains(n)
                                    || stack2.contains(n) by {
                                    if !visited.contains(n) && !starts.contains(n) {
                                        let x = choose|x: int|
                                            0 <= x < stack.len() && stack[x] == n;
                                        assert(x < stack.len() - 1) by {
                                            if x == stack.len() - 1 {
                                                assert(visited.contains(head));
                                            }
                                        }
                                        assert(stack2[x] == n);
                                    }
                                }
                                lemma_acyclic_rec(g, starts, stack2, visited, path2, fin2, c);
                            } else {
                                // a stale duplicate: nothing is open here
                                assert(path2 == path);
                                assert forall|i: int| 0 <= i < path.len() implies stack2.contains(
                                    #[trigger] path[i],
                                ) by {
                                    let x = choose|x: int|
                                        0 <= x < stack.len() && stack[x] == path[i];
                                    assert(x < stack.len() - 1) by {
                                        if x == stack.len() - 1 {
                                            assert(path[i] == head);
                                            assert(path.contains(head));
                                        }
                                    }
                                    assert(stack2[x] == path[i]);
                                }
                                assert forall|n: Seq<char>| #[trigger] g.dom().contains(
                                    n,
                                ) implies visited.contains(n) || starts.contains(n)
                                    || stack2.contains(n) by {
                                    if !visited.contains(n) && !starts.contains(n) {
                                        let x = choose|x: int|
                                            0 <= x < stack.len() && stack[x] == n;
                                        assert(x < stack.len() - 1) by {
                                            if x == stack.len() - 1 {
                                                assert(visited.contains(head));
                                            }
                                        }
                                        assert(stack2[x] == n);
                                    }
                                }
                                lemma_acyclic_rec(g, starts, stack2, visited, path2, fin, c);
                            }
                        }
                    },
                }
            }
        }
    }
}

/// Law (cycle-check completeness): a desired state whose dependency graph
/// holds any cycle is never accepted.
pub proof fn lemma_cycle_rejected(g: Map<Seq<char>, Set<Seq<char>>>, c: Seq<Seq<char>>)
    requires
        g.dom().finite(),
        forall|k: Seq<char>| #[trigger] g.dom().contains(k) ==> g[k].finite(),
        is_cycle(g, c),
    ensures
        spec_dfs(g) != DfsOutcome::Acyclic,
{
    lemma_sorted_listing_exists(g.dom());
    let q = choose|q: Seq<Seq<char>>| sorted_unique_names(q, g.dom());
    lemma_sorted_names_of(q, g.dom());
    let starts = sorted_names_of(g.dom());
    assert forall|n: Seq<char>| #[trigger] g.dom().contains(n) implies Set::<
        Seq<char>,
    >::empty().contains(n) || starts.contains(n) || Seq::<Seq<char>>::empty().contains(n) by {
        assert(q.contains(n));
        let x = choose|x: int| 0 <= x < q.len() && q[x] == n;
        assert(starts[x] == n);
    }
    lemma_acyclic_rec(
        g,
        starts,
        Seq::empty(),
        Set::empty(),
        Seq::empty(),
        Seq::empty(),
        c,
    );
}

} // verus!

verus! {

/// With every dependency name declared, the frontier never leaves the state,
/// so the search cannot end in a missing-reference rejection.
#[verifier::rlimit(100)]
proof fn lemma_closed_graph_rec(
    g: Map<Seq<char>, Set<Seq<char>>>,
    starts: Seq<Seq<char>>,
    stack: Seq<Seq<char>>,
    visited: Set<Seq<char>>,
    path: Seq<Seq<char>>,
)
    requires
        g.dom().finite(),
        forall|k: Seq<char>| #[trigger] g.dom().contains(k) ==> g[k].finite(),
        forall|k: Seq<char>, d: Seq<char>|
            g.dom().contains(k) && #[trigger] g[k].contains(d) ==> g.dom().contains(d),
        forall|i: int| 0 <= i < starts.len() ==> g.dom().contains(#[trigger] starts[i]),
        forall|i: int| 0 <= i < stack.len() ==> g.dom().contains(#[trigger] stack[i]),
        forall|k: int|
            0 <= k < stack.len() && visited.contains(#[trigger] stack[k]) ==> (forall|d: Seq<char>|
                #[trigger] g[stack[k]].contains(d) ==> visited.contains(d) || (exists|j: int|
                    k < j < stack.len() && stack[j] == d)),
    ensures
        !(dfs_rec(g, starts, stack, visited, path) is Missing),
    decreases g.dom().difference(visited).len(), starts.len(), stack.len(),
{
    if stack.len() == 0 {
        if starts.len() == 0 {
        } else {
            assert(forall|i: int|
                0 < i < starts.len() ==> #[trigger] starts[i] == starts.drop_first()[i - 1]);
            if visited.contains(starts[0]) {
                lemma_closed_graph_rec(g, starts.drop_first(), stack, visited, path);
            } else {
                assert(seq![starts[0]][0] == starts[0]);
                lemma_closed_graph_rec(g, starts.drop_first(), seq![starts[0]], visited, path);
            }
        }
    } else {
        let head = stack.last();
        assert(g.dom().contains(head));
        let deps = sorted_names_of(g[head]);
        lemma_sorted_listing_exists(g[head]);
        assert(sorted_unique_names(deps, g[head]));
        if !visited.contains(head) {
            let visited2 = visited.insert(head);
            let path2 = path.push(head);
            match first_cycle_dep(deps, visited2, path2) {
                Some(d) => {},
                None => {
                    let pushes = unvisited_pushes(deps, visited2);
                    let stack2 = stack + pushes;
                    lemma_unvisited_pushes_elems(deps, visited2);
                    assert forall|i: int| 0 <= i < stack2.len() implies g.dom().contains(
                        #[trigger] stack2[i],
                    ) by {
                        if i < stack.len() {
                            assert(stack2[i] == stack[i]);
                        } else {
                            assert(stack2[i] == pushes[i - stack.len()]);
                            assert(deps.contains(pushes[i - stack.len()]));
                            let x = choose|x: int|
                                0 <= x < deps.len() && deps[x] == pushes[i - stack.len()];
                            assert(g[head].contains(deps[x]));
                        }
                    }
                    assert forall|k: int|
                        0 <= k < stack2.len() && visited2.contains(
                            #[trigger] stack2[k],
                        ) implies (forall|d: Seq<char>|
                        #[trigger] g[stack2[k]].contains(d) ==> visited2.contains(d) || (
                        exists|j: int| k < j < stack2.len() && stack2[j] == d)) by {
                        if k < stack.len() {
                            assert(stack2[k] == stack[k]);
                            if stack[k] == head {
                                assert forall|d: Seq<char>| #[trigger] g[stack2[k]].contains(
                                    d,
                                ) implies visited2.contains(d) || (exists|j: int|
                                    k < j < stack2.len() && stack2[j] == d) by {
                                    if !visited2.contains(d) {
                                        lemma_unvisited_pushes_mem(deps, visited2, d);
                                        let x = choose|x: int|
                                            0 <= x < pushes.len() && pushes[x] == d;
                                        assert(stack2[stack.len() + x] == d);
                                    }
                                }
                            } else {
                                assert(visited.contains(stack[k]));
                                assert forall|d: Seq<char>| #[trigger] g[stack2[k]].contains(
                                    d,
                                ) implies visited2.contains(d) || (exists|j: int|
                                    k < j < stack2.len() && stack2[j] == d) by {
                                    if !visited2.contains(d) {
                                        assert(!visited.contains(d));
                                        let j = choose|j: int| k < j < stack.len() && stack[j] == d;
                                        assert(stack2[j] == d);
                                    }
                                }
                            }
                        } else {
                            assert(stack2[k] == pushes[k - stack.len()]);
                            assert(!visited2.contains(stack2[k]));
                        }
                    }
                    assert(g.dom().difference(visited2) =~= g.dom().difference(visited).remove(
                        head,
                    ));
                    assert(g.dom().difference(visited).contains(head));
                    lemma_closed_graph_rec(g, starts, stack2, visited2, path2);
                },
            }
        } else {
            let stack2 = stack.drop_last();
            let path2 = path_remove(path, head);
            match first_cycle_dep(deps, visited, path2) {
                Some(d) => {},
                None => {
                    assert forall|d: Seq<char>| #[trigger] g[head].contains(d) implies
                        visited.contains(d) by {
                        if exists|j: int| stack.len() - 1 < j < stack.len() && stack[j] == d {
                            assert(false);
                        }
                    }
                    assert forall|k: int| 0 <= k < deps.len() implies visited.contains(
                        #[trigger] deps[k],
                    ) by {
                        assert(g[head].contains(deps[k]));
                    }
                    assert forall|k: int|
                        0 <= k < stack2.len() && visited.contains(
                            #[trigger] stack2[k],
                        ) implies (forall|d: Seq<char>|
                        #[trigger] g[stack2[k]].contains(d) ==> visited.contains(d) || (
                        exists|j: int| k < j < stack2.len() && stack2[j] == d)) by {
                        assert(stack2[k] == stack[k]);
                        assert forall|d: Seq<char>| #[trigger] g[stack2[k]].contains(
                            d,
                        ) implies visited.contains(d) || (exists|j: int|
                            k < j < stack2.len() && stack2[j] == d) by {
                            if !visited.contains(d) {
                                let j = choose|j: int| k < j < stack.len() && stack[j] == d;
                                assert(stack2[j] == d);
                            }
                        }
                    }
                    lemma_closed_graph_rec(g, starts, stack2, visited, path2);
                },
            }
        }
    }
}

/// Law (completeness, reported form): a desired state in which every
/// dependency name is declared and whose dependency graph holds a cycle is
/// rejected as part of a cycle — never accepted, never mistaken for a
/// missing reference.
pub proof fn lemma_cycle_reported(g: Map<Seq<char>, Set<Seq<char>>>, c: Seq<Seq<char>>)
    requires
        g.dom().finite(),
        forall|k: Seq<char>| #[trigger] g.dom().contains(k) ==> g[k].finite(),
        forall|k: Seq<char>, d: Seq<char>|
            g.dom().contains(k) && #[trigger] g[k].contains(d) ==> g.dom().contains(d),
        is_cycle(g, c),
    ensures
        spec_dfs(g) is Cycle,
{
    lemma_cycle_rejected(g, c);
    lemma_sorted_listing_exists(g.dom());
    let q = choose|q: Seq<Seq<char>>| sorted_unique_names(q, g.dom());
    lemma_sorted_names_of(q, g.dom());
    let starts = sorted_names_of(g.dom());
    assert forall|i: int| 0 <= i < starts.len() implies g.dom().contains(
        #[trigger] starts[i],
    ) by {
        assert(q[i] == starts[i]);
    }
    lemma_closed_graph_rec(g, starts, Seq::empty(), Set::empty(), Seq::empty());
}

/// The same, phrased over a desired state's view: a cycle among its declared
/// workloads can only ever be answered with `WorkloadPartOfCycle`.
pub proof fn lemma_cyclic_state_rejected(m: Map<Seq<char>, WorkloadSpecView>, c: Seq<Seq<char>>)
    requires
        m.dom().finite(),
        forall|k: Seq<char>, d: Seq<char>|
            m.dom().contains(k) && #[trigger] graph_of(m)[k].contains(d) ==> m.dom().contains(d),
        is_cycle(graph_of(m), c),
    ensures
        spec_dfs(graph_of(m)) is Cycle,
{
    broadcast use vstd::seq_lib::seq_to_set_is_finite;

    let g = graph_of(m);
    assert(g.dom() =~= m.dom());
    assert forall|k: Seq<char>| #[trigger] g.dom().contains(k) implies g[k].finite() by {
        assert(g[k] == spec_dep_names(m[k]));
        assert(m[k].dependencies.map_values(
            |p: (Seq<char>, crate::objects::AddCondition)| p.0,
        ).to_set().finite());
    }
    lemma_cycle_reported(g, c);
}

} // verus!

verus! {

/// A dangling dependency cannot be outrun: once its dependant is visited the
/// unknown name sits on the frontier until it surfaces and is rejected.
#[verifier::rlimit(100)]
proof fn lemma_dangling_rec(
    g: Map<Seq<char>, Set<Seq<char>>>,
    starts: Seq<Seq<char>>,
    stack: Seq<Seq<char>>,
    visited: Set<Seq<char>>,
    path: Seq<Seq<char>>,
    k: Seq<char>,
    d: Seq<char>,
)
    requires
        g.dom().finite(),
        forall|n: Seq<char>| #[trigger] g.dom().contains(n) ==> g[n].finite(),
        g.dom().contains(k),
        g[k].contains(d),
        !g.dom().contains(d),
        forall|n: Seq<char>| #[trigger] visited.contains(n) ==> g.dom().contains(n),
        visited.contains(k) ==> stack.contains(d),
        forall|n: Seq<char>|
            #[trigger] g.dom().contains(n) ==> visited.contains(n) || starts.contains(n)
                || stack.contains(n),
    ensures
        dfs_rec(g, starts, stack, visited, path) != DfsOutcome::Acyclic,
    decreases g.dom().difference(visited).len(), starts.len(), stack.len(),
{
    if stack.len() == 0 {
        if starts.len() == 0 {
            assert(visited.contains(k));
            assert(stack.contains(d));
            let x = choose|x: int| 0 <= x < stack.len() && stack[x] == d;
            assert(false);
        } else {
            assert(forall|i: int|
                0 < i < starts.len() ==> #[trigger] starts[i] == starts.drop_first()[i - 1]);
            if visited.contains(starts[0]) {
                lemma_dangling_rec(g, starts.drop_first(), stack, visited, path, k, d);
            } else {
                assert(seq![starts[0]][0] == starts[0]);
                assert forall|n: Seq<char>| #[trigger] g.dom().contains(n) implies visited.contains(
                    n,
                ) || starts.drop_first().contains(n) || seq![starts[0]].contains(n) by {
                    if !visited.contains(n) {
                        if starts.contains(n) {
                            let x = choose|x: int| 0 <= x < starts.len() && starts[x] == n;
                            if x == 0 {
                                assert(seq![starts[0]][0] == n);
                            } else {
                                assert(starts.drop_first()[x - 1] == n);
                            }
                        } else {
                            let x = choose|x: int| 0 <= x < stack.len() && stack[x] == n;
                        }
                    }
                }
                lemma_dangling_rec(g, starts.drop_first(), seq![starts[0]], visited, path, k, d);
            }
        }
    } else {
        let head = stack.last();
        if !g.dom().contains(head) {
        } else {
            let deps = sorted_names_of(g[head]);
            lemma_sorted_listing_exists(g[head]);
            assert(sorted_unique_names(deps, g[head]));
            if !visited.contains(head) {
                let visited2 = visited.insert(head);
                let path2 = path.push(head);
                match first_cycle_dep(deps, visited2, path2) {
                    Some(x) => {},
                    None => {
                        let pushes = unvisited_pushes(deps, visited2);
                        let stack2 = stack + pushes;
                        assert forall|n: Seq<char>| #[trigger] g.dom().contains(
                            n,
                        ) implies visited2.contains(n) || starts.contains(n) || stack2.contains(
                            n,
                        ) by {
                            if stack.contains(n) {
                                let x = choose|x: int| 0 <= x < stack.len() && stack[x] == n;
                                assert(stack2[x] == n);
                            }
                        }
                        assert(visited2.contains(k) ==> stack2.contains(d)) by {
                            if visited2.contains(k) {
                                if head == k {
                                    assert(d != head);
                                    assert(!visited2.contains(d));
                                    assert(deps.contains(d));
                                    lemma_unvisited_pushes_mem(deps, visited2, d);
                                    let x = choose|x: int|
                                        0 <= x < pushes.len() && pushes[x] == d;
                                    assert(stack2[stack.len() + x] == d);
                                } else {
                                    assert(stack.contains(d));
                                    let x = choose|x: int| 0 <= x < stack.len() && stack[x] == d;
                                    assert(stack2[x] == d);
                                }
                            }
                        }
                        assert(g.dom().difference(visited2) =~= g.dom().difference(visited).remove(
                            head,
                        ));
                        assert(g.dom().difference(visited).contains(head));
                        lemma_dangling_rec(g, starts, stack2, visited2, path2, k, d);
                    },
                }
            } else {
                let stack2 = stack.drop_last();
                let path2 = path_remove(path, head);
                match first_cycle_dep(deps, visited, path2) {
                    Some(x) => {},
                    None => {
                        if exists|x: int| 0 <= x < deps.len() && !visited.contains(deps[x]) {
                        } else {
                            assert(visited.contains(k) ==> stack2.contains(d)) by {
                                if visited.contains(k) {
                                    let x = choose|x: int| 0 <= x < stack.len() && stack[x] == d;
                                    assert(x < stack.len() - 1) by {
                                        if x == stack.len() - 1 {
                                            assert(g.dom().contains(head));
                                        }
                                    }
                                    assert(stack2[x] == d);
                                }
                            }
                            assert forall|n: Seq<char>| #[trigger] g.dom().contains(
                                n,
                            ) implies visited.contains(n) || starts.contains(n)
                                || stack2.contains(n) by {
                                if !visited.contains(n) && !starts.contains(n) {
                                    let x = choose|x: int| 0 <= x < stack.len() && stack[x] == n;
                                    assert(x < stack.len() - 1) by {
                                        if x == stack.len() - 1 {
                                            assert(visited.contains(head));
                                        }
                                    }
                                    assert(stack2[x] == n);
                                }
                            }
                            lemma_dangling_rec(g, starts, stack2, visited, path2, k, d);
                        }
                    },
                }
            }
        }
    }
}

/// Law (no acceptance with a dangling reference): a state in which some
/// declared workload depends on an undeclared name is never accepted.
pub proof fn lemma_dangling_rejected(g: Map<Seq<char>, Set<Seq<char>>>, k: Seq<char>, d: Seq<char>)
    requires
        g.dom().finite(),
        forall|n: Seq<char>| #[trigger] g.dom().contains(n) ==> g[n].finite(),
        g.dom().contains(k),
        g[k].contains(d),
        !g.dom().contains(d),
    ensures
        spec_dfs(g) != DfsOutcome::Acyclic,
{
    lemma_sorted_listing_exists(g.dom());
    let q = choose|q: Seq<Seq<char>>| sorted_unique_names(q, g.dom());
    lemma_sorted_names_of(q, g.dom());
    let starts = sorted_names_of(g.dom());
    assert forall|n: Seq<char>| #[trigger] g.dom().contains(n) implies Set::<
        Seq<char>,
    >::empty().contains(n) || starts.contains(n) || Seq::<Seq<char>>::empty().contains(n) by {
        assert(q.contains(n));
        let x = choose|x: int| 0 <= x < q.len() && q[x] == n;
        assert(starts[x] == n);
    }
    lemma_dangling_rec(g, starts, Seq::empty(), Set::empty(), Seq::empty(), k, d);
}

} // verus!

verus! {

/// Every frontier entry is a declared name or somebody's dependency, so a
/// missing-reference rejection always names a genuinely dangling dependency.
#[verifier::rlimit(100)]
proof fn lemma_missing_rec(
    g: Map<Seq<char>, Set<Seq<char>>>,
    starts: Seq<Seq<char>>,
    stack: Seq<Seq<char>>,
    visited: Set<Seq<char>>,
    path: Seq<Seq<char>>,
)
    requires
        g.dom().finite(),
        forall|n: Seq<char>| #[trigger] g.dom().contains(n) ==> g[n].finite(),
        forall|n: Seq<char>| #[trigger] visited.contains(n) ==> g.dom().contains(n),
        forall|i: int| 0 <= i < starts.len() ==> g.dom().contains(#[trigger] starts[i]),
        forall|i: int|
            0 <= i < stack.len() ==> g.dom().contains(#[trigger] stack[i]) || (exists|k: Seq<char>|
                g.dom().contains(k) && g[k].contains(stack[i])),
        forall|k: int|
            0 <= k < stack.len() && visited.contains(#[trigger] stack[k]) ==> (forall|d: Seq<char>|
                #[trigger] g[stack[k]].contains(d) ==> visited.contains(d) || (exists|j: int|
                    k < j < stack.len() && stack[j] == d)),
    ensures
        match dfs_rec(g, starts, stack, visited, path) {
            DfsOutcome::Missing(d) => !g.dom().contains(d) && (exists|k: Seq<char>|
                g.dom().contains(k) && g[k].contains(d)),
            _ => true,
        },
    decreases g.dom().difference(visited).len(), starts.len(), stack.len(),
{
    if stack.len() == 0 {
        if starts.len() == 0 {
        } else {
            assert(forall|i: int|
                0 < i < starts.len() ==> #[trigger] starts[i] == starts.drop_first()[i - 1]);
            if visited.contains(starts[0]) {
                lemma_missing_rec(g, starts.drop_first(), stack, visited, path);
            } else {
                assert(seq![starts[0]][0] == starts[0]);
                lemma_missing_rec(g, starts.drop_first(), seq![starts[0]], visited, path);
            }
        }
    } else {
        let head = stack.last();
        if !g.dom().contains(head) {
            // rejected: the frontier entry must then be a dependency
        } else {
            let deps = sorted_names_of(g[head]);
            lemma_sorted_listing_exists(g[head]);
            assert(sorted_unique_names(deps, g[head]));
            if !visited.contains(head) {
                let visited2 = visited.insert(head);
                let path2 = path.push(head);
                match first_cycle_dep(deps, visited2, path2) {
                    Some(x) => {},
                    None => {
                        let pushes = unvisited_pushes(deps, visited2);
                        let stack2 = stack + pushes;
                        lemma_unvisited_pushes_elems(deps, visited2);
                        assert forall|i: int|
                            0 <= i < stack2.len() implies g.dom().contains(#[trigger] stack2[i])
                            || (exists|k: Seq<char>|
                            g.dom().contains(k) && g[k].contains(stack2[i])) by {
                            if i < stack.len() {
                                assert(stack2[i] == stack[i]);
                            } else {
                                assert(stack2[i] == pushes[i - stack.len()]);
                                assert(deps.contains(pushes[i - stack.len()]));
                                let x = choose|x: int|
                                    0 <= x < deps.len() && deps[x] == pushes[i - stack.len()];
                                assert(g[head].contains(stack2[i]));
                            }
                        }
                        assert forall|k: int|
                            0 <= k < stack2.len() && visited2.contains(
                                #[trigger] stack2[k],
                            ) implies (forall|d: Seq<char>|
                            #[trigger] g[stack2[k]].contains(d) ==> visited2.contains(d) || (
                            exists|j: int| k < j < stack2.len() && stack2[j] == d)) by {
                            if k < stack.len() {
                                assert(stack2[k] == stack[k]);
                                if stack[k] == head {
                                    assert forall|d: Seq<char>| #[trigger] g[stack2[k]].contains(
                                        d,
                                    ) implies visited2.contains(d) || (exists|j: int|
                                        k < j < stack2.len() && stack2[j] == d) by {
                                        if !visited2.contains(d) {
                                            lemma_unvisited_pushes_mem(deps, visited2, d);
                                            let x = choose|x: int|
                                                0 <= x < pushes.len() && pushes[x] == d;
                                            assert(stack2[stack.len() + x] == d);
                                        }
                                    }
                                } else {
                                    assert(visited.contains(stack[k]));
                                    assert forall|d: Seq<char>| #[trigger] g[stack2[k]].contains(
                                        d,
                                    ) implies visited2.contains(d) || (exists|j: int|
                                        k < j < stack2.len() && stack2[j] == d) by {
                                        if !visited2.contains(d) {
                                            let j = choose|j: int|
                                                k < j < stack.len() && stack[j] == d;
                                            assert(stack2[j] == d);
                                        }
                                    }
                                }
                            } else {
                                assert(stack2[k] == pushes[k - stack.len()]);
                                assert(!visited2.contains(stack2[k]));
                            }
                        }
                        assert(g.dom().difference(visited2) =~= g.dom().difference(visited).remove(
                            head,
                        ));
                        assert(g.dom().difference(visited).contains(head));
                        lemma_missing_rec(g, starts, stack2, visited2, path2);
                    },
                }
            } else {
                let stack2 = stack.drop_last();
                let path2 = path_remove(path, head);
                match first_cycle_dep(deps, visited, path2) {
                    Some(x) => {},
                    None => {
                        assert forall|d: Seq<char>| #[trigger] g[head].contains(d) implies
                            visited.contains(d) by {
                            if exists|j: int| stack.len() - 1 < j < stack.len() && stack[j] == d {
                                assert(false);
                            }
                        }
                        assert forall|k: int| 0 <= k < deps.len() implies visited.contains(
                            #[trigger] deps[k],
                        ) by {
                            assert(g[head].contains(deps[k]));
                        }
                        assert forall|k: int|
                            0 <= k < stack2.len() && visited.contains(
                                #[trigger] stack2[k],
                            ) implies (forall|d: Seq<char>|
                            #[trigger] g[stack2[k]].contains(d) ==> visited.contains(d) || (
                            exists|j: int| k < j < stack2.len() && stack2[j] == d)) by {
                            assert(stack2[k] == stack[k]);
                            assert forall|d: Seq<char>| #[trigger] g[stack2[k]].contains(
                                d,
                            ) implies visited.contains(d) || (exists|j: int|
                                k < j < stack2.len() && stack2[j] == d) by {
                                if !visited.contains(d) {
                                    let j = choose|j: int| k < j < stack.len() && stack[j] == d;
                                    assert(stack2[j] == d);
                                }
                            }
                        }
                        lemma_missing_rec(g, starts, stack2, visited, path2);
                    },
                }
            }
        }
    }
}

/// Law (missing-reference soundness): a missing-reference rejection names a
/// dependency that some declared workload names and the state does not
/// declare.
pub proof fn lemma_missing_soundness(g: Map<Seq<char>, Set<Seq<char>>>)
    requires
        g.dom().finite(),
        forall|n: Seq<char>| #[trigger] g.dom().contains(n) ==> g[n].finite(),
    ensures
        match spec_dfs(g) {
            DfsOutcome::Missing(d) => !g.dom().contains(d) && (exists|k: Seq<char>|
                g.dom().contains(k) && g[k].contains(d)),
            _ => true,
        },
{
    lemma_sorted_listing_exists(g.dom());
    let q = choose|q: Seq<Seq<char>>| sorted_unique_names(q, g.dom());
    lemma_sorted_names_of(q, g.dom());
    let starts = sorted_names_of(g.dom());
    assert forall|i: int| 0 <= i < starts.len() implies g.dom().contains(
        #[trigger] starts[i],
    ) by {
        assert(q[i] == starts[i]);
    }
    lemma_missing_rec(g, starts, Seq::empty(), Set::empty(), Seq::empty());
}

} // verus!
