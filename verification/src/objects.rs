//! The data model: execution states, dependency conditions and their
//! fulfilment rules, workload specifications and deleted workloads.

use vstd::prelude::*;
use vstd::string::StringExecFns;

verus! {

/// Runtime lifecycle value reported for a workload instance.
#[derive(Clone, Copy, PartialEq, Eq, Structural, Debug)]
pub enum ExecutionState {
    Pending,
    Running,
    Succeeded,
    Failed,
    Stopping,
    Removed,
    WaitingToStart,
    WaitingToStop,
}

/// Required state of a dependency before a workload may be created.
#[derive(Clone, Copy, PartialEq, Eq, Structural, Debug)]
pub enum AddCondition {
    AddCondRunning,
    AddCondSucceeded,
    AddCondFailed,
}

/// Required state of a dependency before a workload may be deleted.
#[derive(Clone, Copy, PartialEq, Eq, Structural, Debug)]
pub enum DeleteCondition {
    DelCondRunning,
    DelCondNotPendingNorRunning,
}

pub open spec fn spec_add_condition_fulfilled_by(c: AddCondition, s: ExecutionState) -> bool {
    match c {
        AddCondition::AddCondRunning => s is Running,
        AddCondition::AddCondSucceeded => s is Succeeded,
        AddCondition::AddCondFailed => s is Failed,
    }
}

pub open spec fn spec_delete_condition_fulfilled_by(c: DeleteCondition, s: ExecutionState) -> bool {
    match c {
        DeleteCondition::DelCondRunning => s is Running,
        DeleteCondition::DelCondNotPendingNorRunning => !(s is Pending) && !(s is Running),
    }
}

impl AddCondition {
    pub fn fulfilled_by(&self, state: &ExecutionState) -> (r: bool)
        ensures
            r == spec_add_condition_fulfilled_by(*self, *state),
    {
        match self {
            AddCondition::AddCondRunning => matches!(state, ExecutionState::Running),
            AddCondition::AddCondSucceeded => matches!(state, ExecutionState::Succeeded),
            AddCondition::AddCondFailed => matches!(state, ExecutionState::Failed),
        }
    }
}

impl DeleteCondition {
    pub fn fulfilled_by(&self, state: &ExecutionState) -> (r: bool)
        ensures
            r == spec_delete_condition_fulfilled_by(*self, *state),
    {
        match self {
            DeleteCondition::DelCondRunning => matches!(state, ExecutionState::Running),
            DeleteCondition::DelCondNotPendingNorRunning => !matches!(
                state,
                ExecutionState::Pending | ExecutionState::Running,
            ),
        }
    }
}

/// Identifies one runtime incarnation of a workload: the workload's name, the
/// agent it runs on, and the hash of the configuration it was started with.
#[derive(Clone, PartialEq, Eq, Debug)]
pub struct WorkloadInstanceName {
    pub workload_name: String,
    pub agent_name: String,
    pub config_hash: String,
}

pub ghost struct InstanceNameView {
    pub workload_name: Seq<char>,
    pub agent_name: Seq<char>,
    pub config_hash: Seq<char>,
}

impl View for WorkloadInstanceName {
    type V = InstanceNameView;

    open spec fn view(&self) -> InstanceNameView {
        InstanceNameView {
            workload_name: self.workload_name@,
            agent_name: self.agent_name@,
            config_hash: self.config_hash@,
        }
    }
}

impl WorkloadInstanceName {
    pub fn new(workload_name: String, agent_name: String, config_hash: String) -> (r: Self)
        ensures
            r@.workload_name == workload_name@,
            r@.agent_name == agent_name@,
            r@.config_hash == config_hash@,
    {
        WorkloadInstanceName { workload_name, agent_name, config_hash }
    }

    pub fn workload_name(&self) -> (r: &str)
        ensures
            r@ == self@.workload_name,
    {
        self.workload_name.as_str()
    }

    pub fn agent_name(&self) -> (r: &str)
        ensures
            r@ == self@.agent_name,
    {
        self.agent_name.as_str()
    }

    pub fn duplicate(&self) -> (r: Self)
        ensures
            r == *self,
    {
        WorkloadInstanceName {
            workload_name: self.workload_name.clone(),
            agent_name: self.agent_name.clone(),
            config_hash: self.config_hash.clone(),
        }
    }

    /// The stable textual form: the fields joined by the separator `.`.
    pub fn text_form(&self) -> (r: String)
        ensures
            r@ == instance_name_text(self@),
    {
        let mut r = String::new();
        r.append(self.workload_name.as_str());
        r.append(".");
        r.append(self.agent_name.as_str());
        r.append(".");
        r.append(self.config_hash.as_str());
        proof {
            assert(r@ =~= instance_name_text(self@));
        }
        r
    }
}

/// `<workload_name>.<agent_name>.<config_hash>`.
pub open spec fn instance_name_text(n: InstanceNameView) -> Seq<char> {
    n.workload_name + "."@ + n.agent_name + "."@ + n.config_hash
}

/// Desired configuration of one workload, with the conditions its
/// dependencies must reach before it may be created.
#[derive(Clone, PartialEq, Eq, Debug)]
pub struct WorkloadSpec {
    pub instance_name: WorkloadInstanceName,
    pub runtime: String,
    pub runtime_config: String,
    pub dependencies: Vec<(String, AddCondition)>,
}

pub ghost struct WorkloadSpecView {
    pub instance_name: InstanceNameView,
    pub runtime: Seq<char>,
    pub runtime_config: Seq<char>,
    pub dependencies: Seq<(Seq<char>, AddCondition)>,
}

impl View for WorkloadSpec {
    type V = WorkloadSpecView;

    open spec fn view(&self) -> WorkloadSpecView {
        WorkloadSpecView {
            instance_name: self.instance_name@,
            runtime: self.runtime@,
            runtime_config: self.runtime_config@,
            dependencies: self.dependencies@.map_values(|p: (String, AddCondition)| (p.0@, p.1)),
        }
    }
}

/// A workload that is to be torn down, with the conditions its dependants
/// must reach before the teardown may proceed.
#[derive(Clone, PartialEq, Eq, Debug)]
pub struct DeletedWorkload {
    pub instance_name: WorkloadInstanceName,
    pub dependencies: Vec<(String, DeleteCondition)>,
}

pub ghost struct DeletedWorkloadView {
    pub instance_name: InstanceNameView,
    pub dependencies: Seq<(Seq<char>, DeleteCondition)>,
}

impl View for DeletedWorkload {
    type V = DeletedWorkloadView;

    open spec fn view(&self) -> DeletedWorkloadView {
        DeletedWorkloadView {
            instance_name: self.instance_name@,
            dependencies: self.dependencies@.map_values(|p: (String, DeleteCondition)| (p.0@, p.1)),
        }
    }
}

impl DeletedWorkload {
    pub fn duplicate(&self) -> (r: Self)
        ensures
            r@ == self@,
            r.instance_name == self.instance_name,
    {
        let mut dependencies: Vec<(String, DeleteCondition)> = Vec::new();
        let n = self.dependencies.len();
        let mut i: usize = 0;
        while i < n
            invariant
                n == self.dependencies.len(),
                i <= n,
                dependencies@ == self.dependencies@.take(i as int),
            decreases n - i,
        {
            let name = self.dependencies[i].0.clone();
            let cond = self.dependencies[i].1;
            dependencies.push((name, cond));
            proof {
                assert(dependencies@ =~= self.dependencies@.take(i as int + 1));
            }
            i += 1;
        }
        proof {
            assert(dependencies@ =~= self.dependencies@);
        }
        DeletedWorkload { instance_name: self.instance_name.duplicate(), dependencies }
    }
}

/// A workload's instance name together with its latest execution state: the
/// shape of the scheduler's waiting-state notifications.
#[derive(Clone, PartialEq, Eq, Debug)]
pub struct WorkloadState {
    pub instance_name: WorkloadInstanceName,
    pub execution_state: ExecutionState,
}

pub ghost struct WorkloadStateView {
    pub instance_name: InstanceNameView,
    pub execution_state: ExecutionState,
}

impl View for WorkloadState {
    type V = WorkloadStateView;

    open spec fn view(&self) -> WorkloadStateView {
        WorkloadStateView {
            instance_name: self.instance_name@,
            execution_state: self.execution_state,
        }
    }
}

} // verus!
