//! Workload operations: the instructions the scheduler releases to the
//! runtime adapter once their dependency preconditions are met.

use vstd::prelude::*;

use crate::objects::DeletedWorkload;
use crate::objects::DeletedWorkloadView;
use crate::objects::WorkloadSpec;
use crate::objects::WorkloadSpecView;

verus! {

/// An operation on one workload. `UpdateDeleteOnly` is produced only by the
/// scheduler when it splits an update whose teardown may proceed while the
/// new incarnation must still wait; the operation producer never emits it.
#[derive(Clone, PartialEq, Eq, Debug)]
pub enum WorkloadOperation {
    Create(WorkloadSpec),
    Update(WorkloadSpec, DeletedWorkload),
    UpdateDeleteOnly(DeletedWorkload),
    Delete(DeletedWorkload),
}

pub ghost enum WorkloadOperationView {
    Create(WorkloadSpecView),
    Update(WorkloadSpecView, DeletedWorkloadView),
    UpdateDeleteOnly(DeletedWorkloadView),
    Delete(DeletedWorkloadView),
}

impl View for WorkloadOperation {
    type V = WorkloadOperationView;

    open spec fn view(&self) -> WorkloadOperationView {
        match self {
            WorkloadOperation::Create(w) => WorkloadOperationView::Create(w@),
            WorkloadOperation::Update(w, d) => WorkloadOperationView::Update(w@, d@),
            WorkloadOperation::UpdateDeleteOnly(d) => WorkloadOperationView::UpdateDeleteOnly(d@),
            WorkloadOperation::Delete(d) => WorkloadOperationView::Delete(d@),
        }
    }
}

/// The workload name an operation concerns.
pub open spec fn op_workload_name(op: WorkloadOperationView) -> Seq<char> {
    match op {
        WorkloadOperationView::Create(w) => w.instance_name.workload_name,
        WorkloadOperationView::Update(w, _) => w.instance_name.workload_name,
        WorkloadOperationView::UpdateDeleteOnly(d) => d.instance_name.workload_name,
        WorkloadOperationView::Delete(d) => d.instance_name.workload_name,
    }
}

pub open spec fn ops_view(s: Seq<WorkloadOperation>) -> Seq<WorkloadOperationView> {
    s.map_values(|o: WorkloadOperation| o@)
}

} // verus!
