//! The dependency evaluator: pure predicates deciding whether a pending
//! operation's preconditions on the runtime states of its dependencies are
//! met.
//!
//! The rules are asymmetric on purpose: an unknown dependency state fails a
//! create precondition (creation is conservative) but fulfils a delete
//! precondition (teardown must not block forever on missing knowledge).

use vstd::prelude::*;

use crate::objects::AddCondition;
use crate::objects::DeleteCondition;
use crate::objects::DeletedWorkload;
use crate::objects::DeletedWorkloadView;
use crate::objects::ExecutionState;
use crate::objects::WorkloadSpec;
use crate::objects::WorkloadSpecView;
use crate::objects::spec_add_condition_fulfilled_by;
use crate::objects::spec_delete_condition_fulfilled_by;
use crate::parameter_storage::ParameterStorage;

verus! {

/// One create dependency is fulfilled: the dependency's state is known and
/// meets the add condition.
pub open spec fn create_dep_fulfilled(
    store: Map<Seq<char>, ExecutionState>,
    name: Seq<char>,
    cond: AddCondition,
) -> bool {
    store.contains_key(name) && spec_add_condition_fulfilled_by(cond, store[name])
}

/// One delete dependency is fulfilled: the dependency's state is unknown, or
/// it meets the delete condition.
pub open spec fn delete_dep_fulfilled(
    store: Map<Seq<char>, ExecutionState>,
    name: Seq<char>,
    cond: DeleteCondition,
) -> bool {
    !store.contains_key(name) || spec_delete_condition_fulfilled_by(cond, store[name])
}

pub open spec fn spec_create_fulfilled(
    w: WorkloadSpecView,
    store: Map<Seq<char>, ExecutionState>,
) -> bool {
    forall|i: int|
        0 <= i < w.dependencies.len() ==> create_dep_fulfilled(
            store,
            (#[trigger] w.dependencies[i]).0,
            w.dependencies[i].1,
        )
}

pub open spec fn spec_delete_fulfilled(
    d: DeletedWorkloadView,
    store: Map<Seq<char>, ExecutionState>,
) -> bool {
    forall|i: int|
        0 <= i < d.dependencies.len() ==> delete_dep_fulfilled(
            store,
            (#[trigger] d.dependencies[i]).0,
            d.dependencies[i].1,
        )
}

/// Law: an unknown dependency state fulfils every delete condition and no
/// add condition.
pub proof fn lemma_unknown_dependency_asymmetry(
    store: Map<Seq<char>, ExecutionState>,
    name: Seq<char>,
    del_cond: DeleteCondition,
    add_cond: AddCondition,
)
    requires
        !store.contains_key(name),
    ensures
        delete_dep_fulfilled(store, name, del_cond),
        !create_dep_fulfilled(store, name, add_cond),
{
}

pub struct DependencyStateValidator {}

impl DependencyStateValidator {
    /// A workload may be created only when every dependency's state is known
    /// and meets its add condition; no dependencies means trivially
    /// fulfilled.
    pub fn create_fulfilled(workload: &WorkloadSpec, workload_state_db: &ParameterStorage) -> (r:
        bool)
        requires
            workload_state_db.wf(),
        ensures
            r == spec_create_fulfilled(workload@, workload_state_db@),
    {
        let n = workload.dependencies.len();
        let mut i: usize = 0;
        while i < n
            invariant
                workload_state_db.wf(),
                n == workload.dependencies.len(),
                i <= n,
                forall|j: int|
                    0 <= j < i ==> create_dep_fulfilled(
                        workload_state_db@,
                        (#[trigger] workload@.dependencies[j]).0,
                        workload@.dependencies[j].1,
                    ),
            decreases n - i,
        {
            let dep_name = workload.dependencies[i].0.as_str();
            let cond = workload.dependencies[i].1;
            match workload_state_db.get_state_of_workload(dep_name) {
                Some(state) => {
                    if !cond.fulfilled_by(&state) {
                        proof {
                            assert(workload@.dependencies[i as int]
                                == (workload.dependencies@[i as int].0@, workload.dependencies@[i as int].1));
                        }
                        return false;
                    }
                },
                None => {
                    proof {
                        assert(workload@.dependencies[i as int]
                            == (workload.dependencies@[i as int].0@, workload.dependencies@[i as int].1));
                    }
                    return false;
                },
            }
            i += 1;
        }
        true
    }

    /// A workload may be deleted only when every delete dependency's state is
    /// unknown or meets its delete condition; no dependencies means trivially
    /// fulfilled.
    pub fn delete_fulfilled(workload: &DeletedWorkload, workload_state_db: &ParameterStorage) -> (r:
        bool)
        requires
            workload_state_db.wf(),
        ensures
            r == spec_delete_fulfilled(workload@, workload_state_db@),
    {
        let n = workload.dependencies.len();
        let mut i: usize = 0;
        while i < n
            invariant
                workload_state_db.wf(),
                n == workload.dependencies.len(),
                i <= n,
                forall|j: int|
                    0 <= j < i ==> delete_dep_fulfilled(
                        workload_state_db@,
                        (#[trigger] workload@.dependencies[j]).0,
                        workload@.dependencies[j].1,
                    ),
            decreases n - i,
        {
            let dep_name = workload.dependencies[i].0.as_str();
            let cond = workload.dependencies[i].1;
            match workload_state_db.get_state_of_workload(dep_name) {
                Some(state) => {
                    if !cond.fulfilled_by(&state) {
                        proof {
                            assert(workload@.dependencies[i as int]
                                == (workload.dependencies@[i as int].0@, workload.dependencies@[i as int].1));
                        }
                        return false;
                    }
                },
                None => {},
            }
            i += 1;
        }
        true
    }
}

} // verus!
