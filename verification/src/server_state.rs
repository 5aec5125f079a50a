//! The server's view of the cluster: the desired state it admits, together
//! with the delete conditions derived from it.

use vstd::prelude::*;

use crate::cyclic_check;
use crate::cyclic_check::CyclicCheckResult;
use crate::cyclic_check::spec_dfs;
use crate::cyclic_check::DfsOutcome;
use crate::cyclic_check::missing_message;
use crate::objects::DeleteCondition;
use crate::objects::WorkloadSpec;
use crate::objects::WorkloadSpecView;
use crate::objects::WorkloadState;

verus! {

/// The mathematical content of the workloads association list: name to
/// specification, a later entry for the same name overriding an earlier one.
pub open spec fn workloads_map(s: Seq<(String, WorkloadSpec)>) -> Map<Seq<char>, WorkloadSpecView>
    decreases s.len(),
{
    if s.len() == 0 {
        Map::empty()
    } else {
        workloads_map(s.drop_last()).insert(s.last().0@, s.last().1@)
    }
}

/// The desired state: the declared workloads, keyed by workload name.
#[derive(Clone, Debug)]
pub struct State {
    pub workloads: Vec<(String, WorkloadSpec)>,
}

impl View for State {
    type V = Map<Seq<char>, WorkloadSpecView>;

    open spec fn view(&self) -> Map<Seq<char>, WorkloadSpecView> {
        workloads_map(self.workloads@)
    }
}

impl State {
    /// Workload names are unique, and so are the dependency names within
    /// each workload: both stand for maps.
    pub open spec fn wf(&self) -> bool {
        &&& forall|i: int, j: int|
            0 <= i < j < self.workloads@.len() ==> (#[trigger] self.workloads@[i]).0@ != (
            #[trigger] self.workloads@[j]).0@
        &&& forall|i: int, k: int, l: int|
            0 <= i < self.workloads@.len() && 0 <= k < l
                < (#[trigger] self.workloads@[i]).1.dependencies@.len()
                ==> (#[trigger] self.workloads@[i].1.dependencies@[k]).0@ != (
            #[trigger] self.workloads@[i].1.dependencies@[l]).0@
    }

    pub fn new() -> (r: Self)
        ensures
            r.workloads@.len() == 0,
            r.wf(),
    {
        State { workloads: Vec::new() }
    }
}

/// The complete state: the desired state plus the last known execution
/// states.
#[derive(Clone, Debug)]
pub struct CompleteState {
    pub current_state: State,
    pub workload_states: Vec<WorkloadState>,
}

/// Per workload, the delete conditions its dependants put on its teardown.
pub type DeleteGraph = Vec<(String, Vec<(String, DeleteCondition)>)>;

/// The mathematical content of a delete graph: name to the named conditions.
pub open spec fn delete_graph_view(g: Seq<(String, Vec<(String, DeleteCondition)>)>) -> Seq<
    (Seq<char>, Seq<(Seq<char>, DeleteCondition)>),
> {
    g.map_values(
        |p: (String, Vec<(String, DeleteCondition)>)|
            (p.0@, p.1@.map_values(|q: (String, DeleteCondition)| (q.0@, q.1))),
    )
}

/// What the server holds per admitted cluster state.
pub struct ServerState {
    state: CompleteState,
    delete_conditions: DeleteGraph,
}

impl View for ServerState {
    type V = Map<Seq<char>, WorkloadSpecView>;

    closed spec fn view(&self) -> Map<Seq<char>, WorkloadSpecView> {
        self.state.current_state@
    }
}

impl ServerState {
    pub closed spec fn wf(&self) -> bool {
        self.state.current_state.wf()
    }

    /// The delete conditions stored at construction, unchanged.
    pub closed spec fn delete_conditions_view(&self) -> Seq<
        (Seq<char>, Seq<(Seq<char>, DeleteCondition)>),
    > {
        delete_graph_view(self.delete_conditions@)
    }

    /// Stores both parts unchanged; no validation happens here — the cycle
    /// check runs only when `has_cyclic_dependencies` is called.
    pub fn new(state: CompleteState, delete_conditions: DeleteGraph) -> (r: Self)
        ensures
            r@ == state.current_state@,
            r.wf() == state.current_state.wf(),
            r.delete_conditions_view() == delete_graph_view(delete_conditions@),
    {
        ServerState { state, delete_conditions }
    }

    /// Admission check: rejects a desired state whose dependency graph has a
    /// dangling reference or a cycle, per the depth-first search of
    /// `cyclic_check::dfs`.
    pub fn has_cyclic_dependencies(&self) -> (r: Result<(), CyclicCheckResult>)
        requires
            self.wf(),
        ensures
            ({
                let out = spec_dfs(cyclic_check::graph_of(self@));
                match r {
                    Result::Ok(u) => out == DfsOutcome::Acyclic,
                    Result::Err(e) => match e {
                        CyclicCheckResult::WorkloadPartOfCycle(n) => out == DfsOutcome::Cycle(n@),
                        CyclicCheckResult::InvalidStructure(msg) => exists|d: Seq<char>|
                            out == DfsOutcome::Missing(d) && msg@ == missing_message(d),
                    },
                }
            }),
    {
        cyclic_check::dfs(&self.state.current_state)
    }
}

} // verus!
