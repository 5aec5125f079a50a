use workload_scheduler::dependency_state_validator::DependencyStateValidator;
use workload_scheduler::objects::AddCondition;
use workload_scheduler::objects::DeleteCondition;
use workload_scheduler::objects::DeletedWorkload;
use workload_scheduler::objects::ExecutionState;
use workload_scheduler::objects::WorkloadInstanceName;
use workload_scheduler::objects::WorkloadSpec;
use workload_scheduler::parameter_storage::ParameterStorage;

const AGENT_A: &str = "agent_A";
const WORKLOAD_NAME_1: &str = "workload_1";
const WORKLOAD_NAME_2: &str = "workload_2";
const RUNTIME: &str = "runtime";

fn generate_test_workload_spec_with_dependencies(
    agent: &str,
    name: &str,
    runtime: &str,
    dependencies: Vec<(String, AddCondition)>,
) -> WorkloadSpec {
    WorkloadSpec {
        instance_name: WorkloadInstanceName::new(
            name.to_string(),
            agent.to_string(),
            "config_hash".to_string(),
        ),
        runtime: runtime.to_string(),
        runtime_config: "config".to_string(),
        dependencies,
    }
}

fn generate_test_workload_spec_with_param(agent: &str, name: &str, runtime: &str) -> WorkloadSpec {
    generate_test_workload_spec_with_dependencies(
        agent,
        name,
        runtime,
        vec![
            ("workload_A".to_string(), AddCondition::AddCondRunning),
            ("workload_C".to_string(), AddCondition::AddCondSucceeded),
        ],
    )
}

fn generate_test_deleted_workload_with_dependencies(
    agent: &str,
    name: &str,
    dependencies: Vec<(String, DeleteCondition)>,
) -> DeletedWorkload {
    DeletedWorkload {
        instance_name: WorkloadInstanceName::new(
            name.to_string(),
            agent.to_string(),
            "config_hash".to_string(),
        ),
        dependencies,
    }
}

#[test]
fn utest_create_fulfilled() {
    let workload_with_dependencies = generate_test_workload_spec_with_dependencies(
        AGENT_A,
        WORKLOAD_NAME_1,
        RUNTIME,
        vec![(WORKLOAD_NAME_2.to_string(), AddCondition::AddCondRunning)],
    );

    let mut parameter_storage = ParameterStorage::new();
    parameter_storage.put(WORKLOAD_NAME_2, ExecutionState::Running);

    assert!(DependencyStateValidator::create_fulfilled(
        &workload_with_dependencies,
        &parameter_storage
    ));
}

#[test]
fn utest_create_fulfilled_no_dependencies() {
    let mut workload_with_dependencies =
        generate_test_workload_spec_with_param(AGENT_A, WORKLOAD_NAME_1, RUNTIME);

    workload_with_dependencies.dependencies.clear(); // no inter-workload dependencies

    let parameter_storage = ParameterStorage::new();

    assert!(DependencyStateValidator::create_fulfilled(
        &workload_with_dependencies,
        &parameter_storage
    ));
}

#[test]
fn utest_create_fulfilled_no_workload_state_known() {
    let workload_with_dependencies = generate_test_workload_spec_with_dependencies(
        AGENT_A,
        WORKLOAD_NAME_1,
        RUNTIME,
        vec![(WORKLOAD_NAME_2.to_string(), AddCondition::AddCondRunning)],
    );

    let parameter_storage = ParameterStorage::new();

    assert!(!DependencyStateValidator::create_fulfilled(
        &workload_with_dependencies,
        &parameter_storage
    ));
}

#[test]
fn utest_create_fulfilled_unfulfilled_execution_state() {
    let workload_with_dependencies = generate_test_workload_spec_with_dependencies(
        AGENT_A,
        WORKLOAD_NAME_1,
        RUNTIME,
        vec![(WORKLOAD_NAME_2.to_string(), AddCondition::AddCondRunning)],
    );

    let mut parameter_storage = ParameterStorage::new();
    parameter_storage.put(WORKLOAD_NAME_2, ExecutionState::Succeeded);

    assert!(!DependencyStateValidator::create_fulfilled(
        &workload_with_dependencies,
        &parameter_storage
    ));
}

#[test]
fn utest_delete_fulfilled() {
    let deleted_workload_with_dependencies = generate_test_deleted_workload_with_dependencies(
        AGENT_A,
        WORKLOAD_NAME_1,
        vec![(
            WORKLOAD_NAME_2.to_string(),
            DeleteCondition::DelCondNotPendingNorRunning,
        )],
    );

    let mut parameter_storage = ParameterStorage::new();
    parameter_storage.put(WORKLOAD_NAME_2, ExecutionState::Succeeded);

    assert!(DependencyStateValidator::delete_fulfilled(
        &deleted_workload_with_dependencies,
        &parameter_storage
    ));
}

#[test]
fn utest_delete_fulfilled_unfulfilled_execution_state() {
    let deleted_workload_with_dependencies = generate_test_deleted_workload_with_dependencies(
        AGENT_A,
        WORKLOAD_NAME_1,
        vec![(
            WORKLOAD_NAME_2.to_string(),
            DeleteCondition::DelCondNotPendingNorRunning,
        )],
    );

    let mut parameter_storage = ParameterStorage::new();
    parameter_storage.put(WORKLOAD_NAME_2, ExecutionState::Running);

    // A dependant still running fails `DelCondNotPendingNorRunning`: the
    // teardown must wait.
    assert!(!DependencyStateValidator::delete_fulfilled(
        &deleted_workload_with_dependencies,
        &parameter_storage
    ));
}

#[test]
fn utest_delete_fulfilled_no_workload_state_known() {
    let deleted_workload_with_dependencies = generate_test_deleted_workload_with_dependencies(
        AGENT_A,
        WORKLOAD_NAME_1,
        vec![(
            WORKLOAD_NAME_2.to_string(),
            DeleteCondition::DelCondNotPendingNorRunning,
        )],
    );

    let parameter_storage = ParameterStorage::new();

    assert!(DependencyStateValidator::delete_fulfilled(
        &deleted_workload_with_dependencies,
        &parameter_storage
    ));
}

#[test]
fn utest_delete_fulfilled_unknown_dependant_running_condition() {
    // The asymmetry: an unknown state fulfils even `DelCondRunning`, while
    // the same unknown state fails every create condition.
    let deleted = generate_test_deleted_workload_with_dependencies(
        AGENT_A,
        WORKLOAD_NAME_1,
        vec![(WORKLOAD_NAME_2.to_string(), DeleteCondition::DelCondRunning)],
    );
    let created = generate_test_workload_spec_with_dependencies(
        AGENT_A,
        WORKLOAD_NAME_1,
        RUNTIME,
        vec![(WORKLOAD_NAME_2.to_string(), AddCondition::AddCondRunning)],
    );

    let parameter_storage = ParameterStorage::new();

    assert!(DependencyStateValidator::delete_fulfilled(
        &deleted,
        &parameter_storage
    ));
    assert!(!DependencyStateValidator::create_fulfilled(
        &created,
        &parameter_storage
    ));
}
