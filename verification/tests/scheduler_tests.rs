use workload_scheduler::objects::AddCondition;
use workload_scheduler::objects::DeleteCondition;
use workload_scheduler::objects::DeletedWorkload;
use workload_scheduler::objects::ExecutionState;
use workload_scheduler::objects::WorkloadInstanceName;
use workload_scheduler::objects::WorkloadSpec;
use workload_scheduler::objects::WorkloadState;
use workload_scheduler::parameter_storage::ParameterStorage;
use workload_scheduler::scheduler::PendingEntry;
use workload_scheduler::scheduler::WorkloadScheduler;
use workload_scheduler::workload_operation::WorkloadOperation;

const AGENT_A: &str = "agent_A";
const WORKLOAD_NAME_1: &str = "workload_1";
const WORKLOAD_NAME_2: &str = "workload_2";
const RUNTIME: &str = "runtime";

fn workload_spec_with_dependencies(
    agent: &str,
    name: &str,
    runtime: &str,
    dependencies: Vec<(String, AddCondition)>,
) -> WorkloadSpec {
    WorkloadSpec {
        instance_name: WorkloadInstanceName::new(
            name.to_string(),
            agent.to_string(),
            "config_hash".to_string(),
        ),
        runtime: runtime.to_string(),
        runtime_config: "config".to_string(),
        dependencies,
    }
}

fn deleted_workload_with_dependencies(
    agent: &str,
    name: &str,
    dependencies: Vec<(String, DeleteCondition)>,
) -> DeletedWorkload {
    DeletedWorkload {
        instance_name: WorkloadInstanceName::new(
            name.to_string(),
            agent.to_string(),
            "config_hash".to_string(),
        ),
        dependencies,
    }
}

/// A create whose dependency state is unknown is parked and announced once.
#[test]
fn utest_enqueue_and_report_workload_state_for_pending_create_workload() {
    let mut workload_scheduler = WorkloadScheduler::new();
    let storage = ParameterStorage::new();

    let pending_workload = workload_spec_with_dependencies(
        AGENT_A,
        WORKLOAD_NAME_1,
        RUNTIME,
        vec![(WORKLOAD_NAME_2.to_string(), AddCondition::AddCondRunning)],
    );

    let workload_operations = vec![WorkloadOperation::Create(pending_workload.clone())];

    let (ready_workload_operations, reports) =
        workload_scheduler.enqueue_filtered_workload_operations(workload_operations, &storage);

    let expected_workload_state = WorkloadState {
        instance_name: pending_workload.instance_name.clone(),
        execution_state: ExecutionState::WaitingToStart,
    };
    assert_eq!(vec![expected_workload_state], reports);

    assert_eq!(
        Some(&PendingEntry::Create(pending_workload.clone())),
        workload_scheduler.pending_entry_of(pending_workload.instance_name.workload_name())
    );

    assert!(ready_workload_operations.is_empty());
}

/// A create with no dependencies is released at once, with no notification.
#[test]
fn utest_no_enqueue_and_report_for_ready_create_workload() {
    let mut workload_scheduler = WorkloadScheduler::new();
    let storage = ParameterStorage::new();

    let ready_workload = workload_spec_with_dependencies(AGENT_A, WORKLOAD_NAME_1, RUNTIME, vec![]);

    let workload_operations = vec![WorkloadOperation::Create(ready_workload.clone())];

    let (ready_workload_operations, reports) =
        workload_scheduler.enqueue_filtered_workload_operations(workload_operations, &storage);

    assert_eq!(
        vec![WorkloadOperation::Create(ready_workload)],
        ready_workload_operations
    );

    assert_eq!(0, workload_scheduler.queue_len());
    assert!(reports.is_empty());
}

/// A delete blocked by a dependant still running is parked and announced.
#[test]
fn utest_enqueue_and_report_workload_state_for_pending_deleted_workload() {
    let mut workload_scheduler = WorkloadScheduler::new();
    let mut storage = ParameterStorage::new();
    storage.put(WORKLOAD_NAME_2, ExecutionState::Running);

    let pending_deleted_workload = deleted_workload_with_dependencies(
        AGENT_A,
        WORKLOAD_NAME_1,
        vec![(
            WORKLOAD_NAME_2.to_string(),
            DeleteCondition::DelCondNotPendingNorRunning,
        )],
    );

    let workload_operations = vec![WorkloadOperation::Delete(pending_deleted_workload.clone())];
    let (ready_workload_operations, reports) =
        workload_scheduler.enqueue_filtered_workload_operations(workload_operations, &storage);

    assert!(ready_workload_operations.is_empty());

    assert_eq!(
        Some(&PendingEntry::Delete(pending_deleted_workload.clone())),
        workload_scheduler
            .pending_entry_of(pending_deleted_workload.instance_name.workload_name())
    );

    let expected_workload_state = WorkloadState {
        instance_name: pending_deleted_workload.instance_name,
        execution_state: ExecutionState::WaitingToStop,
    };
    assert_eq!(vec![expected_workload_state], reports);
}

/// A delete whose dependants are unknown proceeds at once (liberal delete).
#[test]
fn utest_no_enqueue_and_report_workload_state_for_ready_deleted_workload() {
    let mut workload_scheduler = WorkloadScheduler::new();
    let storage = ParameterStorage::new();

    let ready_deleted_workload = deleted_workload_with_dependencies(
        AGENT_A,
        WORKLOAD_NAME_1,
        vec![(
            WORKLOAD_NAME_2.to_string(),
            DeleteCondition::DelCondNotPendingNorRunning,
        )],
    );

    let workload_operations = vec![WorkloadOperation::Delete(ready_deleted_workload.clone())];
    let (ready_workload_operations, reports) =
        workload_scheduler.enqueue_filtered_workload_operations(workload_operations, &storage);

    assert_eq!(
        vec![WorkloadOperation::Delete(ready_deleted_workload)],
        ready_workload_operations
    );

    assert_eq!(0, workload_scheduler.queue_len());
    assert!(reports.is_empty());
}

/// An update whose teardown is blocked waits whole, announced as stopping.
#[test]
fn utest_enqueue_and_report_workload_state_for_pending_update_delete_at_most_once() {
    let mut workload_scheduler = WorkloadScheduler::new();
    let mut storage = ParameterStorage::new();
    storage.put(WORKLOAD_NAME_2, ExecutionState::Running);

    let ready_new_workload = workload_spec_with_dependencies(AGENT_A, WORKLOAD_NAME_1, RUNTIME, vec![]);

    let pending_deleted_workload = deleted_workload_with_dependencies(
        AGENT_A,
        WORKLOAD_NAME_1,
        vec![(
            WORKLOAD_NAME_2.to_string(),
            DeleteCondition::DelCondNotPendingNorRunning,
        )],
    );

    let workload_operations = vec![WorkloadOperation::Update(
        ready_new_workload.clone(),
        pending_deleted_workload.clone(),
    )];
    let (ready_workload_operations, reports) =
        workload_scheduler.enqueue_filtered_workload_operations(workload_operations, &storage);

    assert!(ready_workload_operations.is_empty());

    assert_eq!(
        Some(&PendingEntry::UpdateDelete(
            ready_new_workload.clone(),
            pending_deleted_workload.clone()
        )),
        workload_scheduler
            .pending_entry_of(pending_deleted_workload.instance_name.workload_name())
    );

    let expected_workload_state = WorkloadState {
        instance_name: pending_deleted_workload.instance_name,
        execution_state: ExecutionState::WaitingToStop,
    };
    assert_eq!(vec![expected_workload_state], reports);
}

/// An update with both gates shut also waits whole.
#[test]
fn utest_enqueue_and_report_workload_state_for_pending_update_at_most_once() {
    let mut workload_scheduler = WorkloadScheduler::new();
    let mut storage = ParameterStorage::new();
    storage.put(WORKLOAD_NAME_2, ExecutionState::Running);

    let pending_new_workload = workload_spec_with_dependencies(
        AGENT_A,
        WORKLOAD_NAME_1,
        RUNTIME,
        vec![("workload_3".to_string(), AddCondition::AddCondRunning)],
    );

    let pending_deleted_workload = deleted_workload_with_dependencies(
        AGENT_A,
        WORKLOAD_NAME_1,
        vec![(
            WORKLOAD_NAME_2.to_string(),
            DeleteCondition::DelCondNotPendingNorRunning,
        )],
    );

    let workload_operations = vec![WorkloadOperation::Update(
        pending_new_workload.clone(),
        pending_deleted_workload.clone(),
    )];
    let (ready_workload_operations, reports) =
        workload_scheduler.enqueue_filtered_workload_operations(workload_operations, &storage);

    assert!(ready_workload_operations.is_empty());

    assert_eq!(
        Some(&PendingEntry::UpdateDelete(
            pending_new_workload.clone(),
            pending_deleted_workload.clone()
        )),
        workload_scheduler
            .pending_entry_of(pending_deleted_workload.instance_name.workload_name())
    );

    let expected_workload_state = WorkloadState {
        instance_name: pending_deleted_workload.instance_name,
        execution_state: ExecutionState::WaitingToStop,
    };
    assert_eq!(vec![expected_workload_state], reports);
}

/// An update whose teardown may proceed while the create may not is split:
/// the create is parked and announced as starting.
#[test]
fn utest_enqueue_and_report_workload_state_for_pending_update_create_at_most_once() {
    let mut workload_scheduler = WorkloadScheduler::new();
    let storage = ParameterStorage::new();

    let pending_new_workload = workload_spec_with_dependencies(
        AGENT_A,
        WORKLOAD_NAME_1,
        RUNTIME,
        vec![(WORKLOAD_NAME_2.to_string(), AddCondition::AddCondRunning)],
    );

    let ready_deleted_workload = deleted_workload_with_dependencies(AGENT_A, WORKLOAD_NAME_1, vec![]);

    let workload_operations = vec![WorkloadOperation::Update(
        pending_new_workload.clone(),
        ready_deleted_workload.clone(),
    )];

    let (_, reports) =
        workload_scheduler.enqueue_filtered_workload_operations(workload_operations, &storage);

    assert_eq!(
        Some(&PendingEntry::UpdateCreate(
            pending_new_workload.clone(),
            ready_deleted_workload.clone()
        )),
        workload_scheduler.pending_entry_of(pending_new_workload.instance_name.workload_name())
    );

    let expected_workload_state = WorkloadState {
        instance_name: pending_new_workload.instance_name,
        execution_state: ExecutionState::WaitingToStart,
    };
    assert_eq!(vec![expected_workload_state], reports);
}

/// The split update releases its teardown immediately.
#[test]
fn utest_immediate_delete_for_pending_update_create_at_most_once() {
    let mut workload_scheduler = WorkloadScheduler::new();
    let storage = ParameterStorage::new();

    let pending_new_workload = workload_spec_with_dependencies(
        AGENT_A,
        WORKLOAD_NAME_1,
        RUNTIME,
        vec![(WORKLOAD_NAME_2.to_string(), AddCondition::AddCondRunning)],
    );

    let ready_deleted_workload = deleted_workload_with_dependencies(AGENT_A, WORKLOAD_NAME_1, vec![]);

    let workload_operations = vec![WorkloadOperation::Update(
        pending_new_workload,
        ready_deleted_workload.clone(),
    )];

    let (ready_workload_operations, _) =
        workload_scheduler.enqueue_filtered_workload_operations(workload_operations, &storage);

    assert_eq!(
        vec![WorkloadOperation::UpdateDeleteOnly(ready_deleted_workload)],
        ready_workload_operations
    );
}

/// An update with both gates open is released whole, with no notification.
#[test]
fn utest_no_enqueue_and_report_pending_state_on_fulfilled_update_at_most_once() {
    let mut workload_scheduler = WorkloadScheduler::new();
    let storage = ParameterStorage::new();

    let ready_new_workload = workload_spec_with_dependencies(AGENT_A, WORKLOAD_NAME_1, RUNTIME, vec![]);

    let ready_deleted_workload = deleted_workload_with_dependencies(AGENT_A, WORKLOAD_NAME_1, vec![]);

    let workload_operations = vec![WorkloadOperation::Update(
        ready_new_workload.clone(),
        ready_deleted_workload.clone(),
    )];
    let (ready_workload_operations, reports) =
        workload_scheduler.enqueue_filtered_workload_operations(workload_operations, &storage);

    assert_eq!(
        vec![WorkloadOperation::Update(
            ready_new_workload,
            ready_deleted_workload
        )],
        ready_workload_operations
    );

    assert_eq!(0, workload_scheduler.queue_len());
    assert!(reports.is_empty());
}

/// A parked create is released by the store change that fulfils it, with no
/// repeated notification on the sweep.
#[test]
fn utest_pending_create_released_by_store_change() {
    let mut scheduler = WorkloadScheduler::new();
    let mut storage = ParameterStorage::new();

    let w1 = workload_spec_with_dependencies(
        AGENT_A,
        WORKLOAD_NAME_1,
        RUNTIME,
        vec![(WORKLOAD_NAME_2.to_string(), AddCondition::AddCondRunning)],
    );

    let (ready, reports) = scheduler
        .enqueue_filtered_workload_operations(vec![WorkloadOperation::Create(w1.clone())], &storage);
    assert!(ready.is_empty());
    assert_eq!(1, reports.len());
    assert_eq!(1, scheduler.queue_len());

    storage.put(WORKLOAD_NAME_2, ExecutionState::Running);
    let (ready, reports) = scheduler.next_workload_operations(&storage);
    assert_eq!(vec![WorkloadOperation::Create(w1)], ready);
    assert!(reports.is_empty());
    assert_eq!(0, scheduler.queue_len());
}

/// The parked half of a split update is released once its create gate opens.
#[test]
fn utest_parked_update_create_released_by_store_change() {
    let mut scheduler = WorkloadScheduler::new();
    let mut storage = ParameterStorage::new();
    storage.put(WORKLOAD_NAME_2, ExecutionState::Running);

    let new_spec = workload_spec_with_dependencies(
        AGENT_A,
        WORKLOAD_NAME_1,
        RUNTIME,
        vec![(WORKLOAD_NAME_2.to_string(), AddCondition::AddCondSucceeded)],
    );
    let old_deleted = deleted_workload_with_dependencies(
        AGENT_A,
        WORKLOAD_NAME_1,
        vec![(WORKLOAD_NAME_2.to_string(), DeleteCondition::DelCondRunning)],
    );

    // Teardown may proceed (dependant running), create may not (needs it
    // succeeded): the update is split.
    let (ready, reports) = scheduler.enqueue_filtered_workload_operations(
        vec![WorkloadOperation::Update(new_spec.clone(), old_deleted.clone())],
        &storage,
    );
    assert_eq!(
        vec![WorkloadOperation::UpdateDeleteOnly(old_deleted.clone())],
        ready
    );
    assert_eq!(
        vec![WorkloadState {
            instance_name: new_spec.instance_name.clone(),
            execution_state: ExecutionState::WaitingToStart,
        }],
        reports
    );

    storage.put(WORKLOAD_NAME_2, ExecutionState::Succeeded);
    let (ready, reports) = scheduler.next_workload_operations(&storage);
    assert_eq!(vec![WorkloadOperation::Update(new_spec, old_deleted)], ready);
    assert!(reports.is_empty());
    assert_eq!(0, scheduler.queue_len());
}

/// An update held back whole is released whole once both gates open.
#[test]
fn utest_blocked_update_released_whole() {
    let mut scheduler = WorkloadScheduler::new();
    let mut storage = ParameterStorage::new();
    storage.put(WORKLOAD_NAME_2, ExecutionState::Running);

    let new_spec = workload_spec_with_dependencies(
        AGENT_A,
        WORKLOAD_NAME_1,
        RUNTIME,
        vec![(WORKLOAD_NAME_2.to_string(), AddCondition::AddCondSucceeded)],
    );
    let old_deleted = deleted_workload_with_dependencies(
        AGENT_A,
        WORKLOAD_NAME_1,
        vec![(
            WORKLOAD_NAME_2.to_string(),
            DeleteCondition::DelCondNotPendingNorRunning,
        )],
    );

    let (ready, reports) = scheduler.enqueue_filtered_workload_operations(
        vec![WorkloadOperation::Update(new_spec.clone(), old_deleted.clone())],
        &storage,
    );
    assert!(ready.is_empty());
    assert_eq!(1, reports.len());

    storage.put(WORKLOAD_NAME_2, ExecutionState::Succeeded);
    let (ready, reports) = scheduler.next_workload_operations(&storage);
    assert_eq!(vec![WorkloadOperation::Update(new_spec, old_deleted)], ready);
    assert!(reports.is_empty());
}

/// `UpdateDeleteOnly` arriving as input is invalid and silently dropped.
#[test]
fn utest_update_delete_only_input_dropped() {
    let mut scheduler = WorkloadScheduler::new();
    let storage = ParameterStorage::new();

    let old_deleted = deleted_workload_with_dependencies(AGENT_A, WORKLOAD_NAME_1, vec![]);

    let (ready, reports) = scheduler.enqueue_filtered_workload_operations(
        vec![WorkloadOperation::UpdateDeleteOnly(old_deleted)],
        &storage,
    );
    assert!(ready.is_empty());
    assert!(reports.is_empty());
    assert_eq!(0, scheduler.queue_len());
}

/// An empty batch followed by a sweep changes nothing: the queue keeps its
/// blocked entries, nothing is released, nothing is announced twice.
#[test]
fn utest_empty_batch_and_resweep_change_nothing() {
    let mut scheduler = WorkloadScheduler::new();
    let storage = ParameterStorage::new();

    let w1 = workload_spec_with_dependencies(
        AGENT_A,
        WORKLOAD_NAME_1,
        RUNTIME,
        vec![(WORKLOAD_NAME_2.to_string(), AddCondition::AddCondRunning)],
    );

    let (ready, reports) = scheduler
        .enqueue_filtered_workload_operations(vec![WorkloadOperation::Create(w1.clone())], &storage);
    assert!(ready.is_empty());
    assert_eq!(1, reports.len());

    // Re-sweeping with the same store releases nothing and repeats no
    // notification; the entry stays parked.
    let (ready, reports) = scheduler.enqueue_filtered_workload_operations(vec![], &storage);
    assert!(ready.is_empty());
    assert!(reports.is_empty());
    assert_eq!(1, scheduler.queue_len());
    assert_eq!(
        Some(&PendingEntry::Create(w1.clone())),
        scheduler.pending_entry_of(w1.instance_name.workload_name())
    );

    let (ready, reports) = scheduler.next_workload_operations(&storage);
    assert!(ready.is_empty());
    assert!(reports.is_empty());
    assert_eq!(1, scheduler.queue_len());
}
