use std::collections::HashSet;
use std::time::Instant;

use rand::distr::Alphanumeric;
use rand::distr::SampleString;
use rand::RngExt;

use workload_scheduler::cyclic_check::CyclicCheckResult;
use workload_scheduler::objects::AddCondition;
use workload_scheduler::objects::WorkloadInstanceName;
use workload_scheduler::objects::WorkloadSpec;
use workload_scheduler::server_state::CompleteState;
use workload_scheduler::server_state::DeleteGraph;
use workload_scheduler::server_state::ServerState;
use workload_scheduler::server_state::State;

const AGENT_NAME: &str = "agent_A";
const RUNTIME: &str = "runtime X";
const REQUEST_ID: &str = "request@id";
const BENCHMARKING_NUMBER_OF_WORKLOADS: usize = 1000;

fn generate_test_workload_spec_with_param(agent: String, name: String, runtime: String) -> WorkloadSpec {
    WorkloadSpec {
        instance_name: WorkloadInstanceName::new(name, agent, "config_hash".to_string()),
        runtime,
        runtime_config: "config".to_string(),
        dependencies: vec![
            ("workload_A".to_string(), AddCondition::AddCondRunning),
            ("workload_C".to_string(), AddCondition::AddCondSucceeded),
        ],
    }
}

fn generate_test_complete_state(_request_id: String, workloads: Vec<WorkloadSpec>) -> CompleteState {
    let mut state = State::new();
    for w in workloads {
        let name = w.instance_name.workload_name().to_string();
        state.workloads.push((name, w));
    }
    CompleteState {
        current_state: state,
        workload_states: Vec::new(),
    }
}

#[derive(Clone)]
struct CompleteStateBuilder(CompleteState);

impl CompleteStateBuilder {
    fn default() -> Self {
        let mut complete_state = generate_test_complete_state(REQUEST_ID.to_string(), Vec::new());
        complete_state.workload_states.clear();
        CompleteStateBuilder(complete_state)
    }

    fn workload_spec(mut self, workload_name: &str) -> Self {
        let mut test_workload_spec = generate_test_workload_spec_with_param(
            AGENT_NAME.into(),
            workload_name.into(),
            RUNTIME.into(),
        );
        test_workload_spec.dependencies.clear();
        self.0
            .current_state
            .workloads
            .push((workload_name.into(), test_workload_spec));
        self
    }

    fn with_workloads(mut self, workloads: &[&str]) -> Self {
        for w in workloads {
            self = self.workload_spec(w);
        }
        self
    }

    fn workload_dependency(
        mut self,
        workload: &str,
        depend_on: &str,
        add_condition: AddCondition,
    ) -> Self {
        for (name, spec) in self.0.current_state.workloads.iter_mut() {
            if name == workload {
                spec.dependencies.push((depend_on.into(), add_condition));
            }
        }
        self
    }

    fn set_start_node(mut self, start_node: &str) -> Self {
        let new_name = format!("1_{start_node}");
        let pos = self
            .0
            .current_state
            .workloads
            .iter()
            .position(|(n, _)| n == start_node)
            .unwrap();
        let (_, entry) = self.0.current_state.workloads.remove(pos);
        self.0
            .current_state
            .workloads
            .push((new_name.clone(), entry));

        for (_, workload_spec) in self.0.current_state.workloads.iter_mut() {
            for dep in workload_spec.dependencies.iter_mut() {
                if dep.0 == start_node {
                    dep.0 = new_name.clone();
                }
            }
        }
        self
    }

    fn build(self) -> CompleteState {
        self.0
    }
}

// Graph: A -> B; B -> C; C -> D; C -> A.
#[test]
fn utest_detect_cycle_in_dependencies_1() {
    let workloads = ["A", "B", "C", "D"];

    let builder = CompleteStateBuilder::default()
        .with_workloads(&workloads)
        .workload_dependency("A", "B", AddCondition::AddCondRunning)
        .workload_dependency("B", "C", AddCondition::AddCondRunning)
        .workload_dependency("C", "D", AddCondition::AddCondRunning)
        .workload_dependency("C", "A", AddCondition::AddCondRunning);

    let expected_nodes_part_of_a_cycle = ["A", "B", "C"];

    for start_node in workloads {
        let builder = builder.clone();
        let complete_state = builder.set_start_node(start_node).build();
        let server_state = ServerState::new(complete_state, DeleteGraph::new());
        let result = server_state.has_cyclic_dependencies();
        assert!(matches!(
            result,
            Err(CyclicCheckResult::WorkloadPartOfCycle(w)) if expected_nodes_part_of_a_cycle.into_iter().any(|expected| w.contains(expected))
        ));
    }
}

// Graph: A -> B -> C -> F -> E -> D -> A.
#[test]
fn utest_detect_cycle_in_dependencies_2() {
    let workloads = ["A", "B", "C", "D", "E", "F"];

    let builder = CompleteStateBuilder::default()
        .with_workloads(&workloads)
        .workload_dependency("A", "B", AddCondition::AddCondRunning)
        .workload_dependency("B", "C", AddCondition::AddCondRunning)
        .workload_dependency("C", "F", AddCondition::AddCondRunning)
        .workload_dependency("F", "E", AddCondition::AddCondRunning)
        .workload_dependency("E", "D", AddCondition::AddCondRunning)
        .workload_dependency("D", "A", AddCondition::AddCondRunning);

    for start_node in workloads {
        let builder = builder.clone();
        let complete_state = builder.set_start_node(start_node).build();
        let server_state = ServerState::new(complete_state, DeleteGraph::new());
        let result = server_state.has_cyclic_dependencies();
        assert!(matches!(
            result,
            Err(CyclicCheckResult::WorkloadPartOfCycle(_))
        ));
    }
}

// Graph: A -> B; B -> C; B -> A.
#[test]
fn utest_detect_cycle_in_dependencies_3() {
    let workloads = ["A", "B", "C"];

    let builder = CompleteStateBuilder::default()
        .with_workloads(&workloads)
        .workload_dependency("A", "B", AddCondition::AddCondRunning)
        .workload_dependency("B", "C", AddCondition::AddCondSucceeded)
        .workload_dependency("B", "A", AddCondition::AddCondSucceeded);

    let expected_nodes_part_of_a_cycle = ["A", "B"];

    let mut actual = HashSet::new();
    for start_node in workloads {
        let builder = builder.clone();
        let complete_state = builder.set_start_node(start_node).build();
        let server_state = ServerState::new(complete_state, DeleteGraph::new());
        let result = server_state.has_cyclic_dependencies();

        assert!(matches!(
            &result,
            Err(CyclicCheckResult::WorkloadPartOfCycle(w)) if expected_nodes_part_of_a_cycle.contains(&w.replace("1_", "").as_str())
        ));

        actual.insert(result.unwrap_err().message().replace("1_", ""));
    }

    assert_eq!(actual.len(), expected_nodes_part_of_a_cycle.len());
}

// Graph: A->B; B->C,D,E; C->E,H; D->C,E; F->E,D; H->G; G->F.
#[test]
fn utest_detect_cycle_in_dependencies_4() {
    let workloads = ["A", "B", "C", "D", "E", "F", "G", "H"];

    let builder = CompleteStateBuilder::default()
        .with_workloads(&workloads)
        .workload_dependency("A", "B", AddCondition::AddCondRunning)
        .workload_dependency("B", "C", AddCondition::AddCondSucceeded)
        .workload_dependency("B", "D", AddCondition::AddCondSucceeded)
        .workload_dependency("B", "E", AddCondition::AddCondSucceeded)
        .workload_dependency("C", "E", AddCondition::AddCondSucceeded)
        .workload_dependency("C", "H", AddCondition::AddCondSucceeded)
        .workload_dependency("D", "C", AddCondition::AddCondSucceeded)
        .workload_dependency("D", "E", AddCondition::AddCondSucceeded)
        .workload_dependency("F", "E", AddCondition::AddCondSucceeded)
        .workload_dependency("H", "G", AddCondition::AddCondSucceeded)
        .workload_dependency("G", "F", AddCondition::AddCondSucceeded)
        .workload_dependency("F", "D", AddCondition::AddCondSucceeded);

    let expected_nodes_part_of_a_cycle = ["C", "H", "G", "F", "D"];

    let mut actual = HashSet::new();
    for start_node in workloads {
        let builder = builder.clone();
        let complete_state = builder.set_start_node(start_node).build();
        let server_state = ServerState::new(complete_state, DeleteGraph::new());
        let result = server_state.has_cyclic_dependencies();

        assert!(matches!(
            &result,
            Err(CyclicCheckResult::WorkloadPartOfCycle(w)) if expected_nodes_part_of_a_cycle.contains(&w.replace("1_", "").as_str())
        ));

        actual.insert(result.unwrap_err().message().replace("1_", ""));
    }

    assert_eq!(actual.len(), expected_nodes_part_of_a_cycle.len());
}

// Graph: as before, with the back edge F -> A instead of F -> D.
#[test]
fn utest_detect_cycle_in_dependencies_5() {
    let workloads = ["A", "B", "C", "D", "E", "F", "G", "H"];

    let builder = CompleteStateBuilder::default()
        .with_workloads(&workloads)
        .workload_dependency("A", "B", AddCondition::AddCondRunning)
        .workload_dependency("B", "C", AddCondition::AddCondSucceeded)
        .workload_dependency("B", "D", AddCondition::AddCondSucceeded)
        .workload_dependency("B", "E", AddCondition::AddCondSucceeded)
        .workload_dependency("C", "E", AddCondition::AddCondSucceeded)
        .workload_dependency("C", "H", AddCondition::AddCondSucceeded)
        .workload_dependency("D", "C", AddCondition::AddCondSucceeded)
        .workload_dependency("D", "E", AddCondition::AddCondSucceeded)
        .workload_dependency("F", "E", AddCondition::AddCondSucceeded)
        .workload_dependency("H", "G", AddCondition::AddCondSucceeded)
        .workload_dependency("G", "F", AddCondition::AddCondSucceeded)
        .workload_dependency("F", "A", AddCondition::AddCondSucceeded);

    let expected_nodes_part_of_a_cycle = ["A", "B", "D", "C", "H", "G", "F"];

    let mut actual = HashSet::new();
    for start_node in workloads {
        let builder = builder.clone();
        let complete_state = builder.set_start_node(start_node).build();
        let server_state = ServerState::new(complete_state, DeleteGraph::new());
        let result = server_state.has_cyclic_dependencies();

        assert!(matches!(
            &result,
            Err(CyclicCheckResult::WorkloadPartOfCycle(w)) if expected_nodes_part_of_a_cycle.contains(&w.replace("1_", "").as_str())
        ));

        actual.insert(result.unwrap_err().message().replace("1_", ""));
    }

    assert_eq!(actual.len(), expected_nodes_part_of_a_cycle.len());
}

// Star-shaped graph with the cycle D -> H -> G ... -> D.
#[test]
fn utest_detect_cycle_in_dependencies_star_1() {
    let workloads = ["A", "B", "C", "D", "E", "F", "G", "H"];

    let builder = CompleteStateBuilder::default()
        .with_workloads(&workloads)
        .workload_dependency("A", "H", AddCondition::AddCondRunning)
        .workload_dependency("A", "D", AddCondition::AddCondRunning)
        .workload_dependency("B", "A", AddCondition::AddCondRunning)
        .workload_dependency("B", "D", AddCondition::AddCondSucceeded)
        .workload_dependency("C", "B", AddCondition::AddCondSucceeded)
        .workload_dependency("C", "D", AddCondition::AddCondSucceeded)
        .workload_dependency("E", "D", AddCondition::AddCondSucceeded)
        .workload_dependency("E", "C", AddCondition::AddCondSucceeded)
        .workload_dependency("F", "D", AddCondition::AddCondSucceeded)
        .workload_dependency("F", "E", AddCondition::AddCondSucceeded)
        .workload_dependency("F", "G", AddCondition::AddCondSucceeded)
        .workload_dependency("G", "D", AddCondition::AddCondSucceeded)
        .workload_dependency("D", "H", AddCondition::AddCondSucceeded)
        .workload_dependency("H", "G", AddCondition::AddCondSucceeded);

    let expected_nodes_part_of_a_cycle = ["G", "D", "H", "D"];

    for start_node in workloads {
        let builder = builder.clone();
        let complete_state = builder.set_start_node(start_node).build();
        let server_state = ServerState::new(complete_state, DeleteGraph::new());
        let result = server_state.has_cyclic_dependencies();
        assert!(matches!(
            result,
            Err(CyclicCheckResult::WorkloadPartOfCycle(w)) if expected_nodes_part_of_a_cycle.into_iter().any(|expected| w.contains(expected))
        ));
    }
}

// Same star with H -> D instead of D -> H: no cycle.
#[test]
fn utest_detect_no_cycle_in_dependencies_star_1() {
    let workloads = ["A", "B", "C", "D", "E", "F", "G", "H"];

    let builder = CompleteStateBuilder::default()
        .with_workloads(&workloads)
        .workload_dependency("A", "H", AddCondition::AddCondRunning)
        .workload_dependency("A", "D", AddCondition::AddCondRunning)
        .workload_dependency("B", "A", AddCondition::AddCondRunning)
        .workload_dependency("B", "D", AddCondition::AddCondSucceeded)
        .workload_dependency("C", "B", AddCondition::AddCondSucceeded)
        .workload_dependency("C", "D", AddCondition::AddCondSucceeded)
        .workload_dependency("E", "D", AddCondition::AddCondSucceeded)
        .workload_dependency("E", "C", AddCondition::AddCondSucceeded)
        .workload_dependency("F", "D", AddCondition::AddCondSucceeded)
        .workload_dependency("F", "E", AddCondition::AddCondSucceeded)
        .workload_dependency("F", "G", AddCondition::AddCondSucceeded)
        .workload_dependency("G", "D", AddCondition::AddCondSucceeded)
        .workload_dependency("H", "D", AddCondition::AddCondSucceeded)
        .workload_dependency("H", "G", AddCondition::AddCondSucceeded);

    for start_node in workloads {
        let builder = builder.clone();
        let complete_state = builder.set_start_node(start_node).build();
        let server_state = ServerState::new(complete_state, DeleteGraph::new());
        let result = server_state.has_cyclic_dependencies();
        assert!(result.is_ok());
    }
}

// Two separate graphs; the second has the self cycle F -> F.
#[test]
fn utest_detect_self_cycle_in_dependencies_separated_graphs() {
    let workloads = ["A", "B", "C", "D", "E", "F", "G", "H"];

    let builder = CompleteStateBuilder::default()
        .with_workloads(&workloads)
        .workload_dependency("A", "B", AddCondition::AddCondRunning)
        .workload_dependency("B", "C", AddCondition::AddCondSucceeded)
        .workload_dependency("D", "A", AddCondition::AddCondSucceeded)
        .workload_dependency("D", "C", AddCondition::AddCondSucceeded)
        .workload_dependency("D", "B", AddCondition::AddCondSucceeded)
        .workload_dependency("G", "H", AddCondition::AddCondSucceeded)
        .workload_dependency("H", "F", AddCondition::AddCondSucceeded)
        .workload_dependency("F", "F", AddCondition::AddCondSucceeded);

    let expected_nodes_part_of_a_cycle = ["F"]; // self cycle in one of the two graphs

    let mut actual = HashSet::new();
    for start_node in workloads {
        let builder = builder.clone();
        let complete_state = builder.set_start_node(start_node).build();
        let server_state = ServerState::new(complete_state, DeleteGraph::new());
        let result = server_state.has_cyclic_dependencies();

        assert!(matches!(
            &result,
            Err(CyclicCheckResult::WorkloadPartOfCycle(w)) if expected_nodes_part_of_a_cycle.contains(&w.replace("1_", "").as_str())
        ));

        actual.insert(result.unwrap_err().message().replace("1_", ""));
    }

    assert_eq!(actual.len(), expected_nodes_part_of_a_cycle.len());
}

// 1) A -> A and 2) A -> B -> B.
#[test]
fn utest_detect_self_cycle_in_dependencies() {
    // 1)
    let complete_state = CompleteStateBuilder::default()
        .with_workloads(&["A"])
        .workload_dependency("A", "A", AddCondition::AddCondRunning)
        .build();

    let server_state = ServerState::new(complete_state, DeleteGraph::new());
    let result = server_state.has_cyclic_dependencies();
    assert_eq!(
        result,
        Err(CyclicCheckResult::WorkloadPartOfCycle("A".to_string()))
    );

    // 2)
    let workloads = ["A", "B"];

    let builder = CompleteStateBuilder::default()
        .with_workloads(&workloads)
        .workload_dependency("A", "B", AddCondition::AddCondRunning)
        .workload_dependency("B", "B", AddCondition::AddCondRunning);

    let expected_nodes_part_of_a_cycle = ["B"]; // self cycle in one of the two graphs

    let mut actual = HashSet::new();
    for start_node in workloads {
        let builder = builder.clone();
        let complete_state = builder.set_start_node(start_node).build();
        let server_state = ServerState::new(complete_state, DeleteGraph::new());
        let result = server_state.has_cyclic_dependencies();

        assert!(matches!(
            &result,
            Err(CyclicCheckResult::WorkloadPartOfCycle(w)) if expected_nodes_part_of_a_cycle.contains(&w.replace("1_", "").as_str())
        ));

        actual.insert(result.unwrap_err().message().replace("1_", ""));
    }

    assert_eq!(actual.len(), expected_nodes_part_of_a_cycle.len());
}

// A -> B -> C with C missing from the state.
#[test]
fn utest_detect_non_existing_workload_in_dependencies() {
    let workloads = ["A", "B"];

    let builder = CompleteStateBuilder::default()
        .with_workloads(&workloads)
        .workload_dependency("A", "B", AddCondition::AddCondRunning)
        .workload_dependency("B", "C", AddCondition::AddCondRunning);

    for start_node in workloads {
        let builder = builder.clone();
        let complete_state = builder.set_start_node(start_node).build();
        let server_state = ServerState::new(complete_state, DeleteGraph::new());
        let result = server_state.has_cyclic_dependencies();

        assert_eq!(
            result,
            Err(CyclicCheckResult::InvalidStructure(
                "workload 'C' is not part of the state.".to_string()
            ))
        );
    }
}

// A tree: no cycle.
#[test]
fn utest_detect_no_cycle_in_dependencies_1() {
    let workloads = ["A", "B", "C", "D", "E", "F", "G", "H"];

    let builder = CompleteStateBuilder::default()
        .with_workloads(&workloads)
        .workload_dependency("A", "D", AddCondition::AddCondRunning)
        .workload_dependency("B", "D", AddCondition::AddCondSucceeded)
        .workload_dependency("B", "E", AddCondition::AddCondSucceeded)
        .workload_dependency("C", "E", AddCondition::AddCondSucceeded)
        .workload_dependency("C", "H", AddCondition::AddCondSucceeded)
        .workload_dependency("D", "F", AddCondition::AddCondSucceeded)
        .workload_dependency("D", "G", AddCondition::AddCondSucceeded)
        .workload_dependency("D", "H", AddCondition::AddCondSucceeded);

    for start_node in workloads {
        let builder = builder.clone();
        let complete_state = builder.set_start_node(start_node).build();
        let server_state = ServerState::new(complete_state, DeleteGraph::new());
        let result = server_state.has_cyclic_dependencies();
        assert!(result.is_ok());
    }
}

// A dag with shared children: no cycle.
#[test]
fn utest_detect_no_cycle_in_dependencies_2() {
    let builder = CompleteStateBuilder::default()
        .workload_spec("A")
        .workload_spec("B")
        .workload_spec("C")
        .workload_spec("D")
        .workload_spec("E")
        .workload_spec("F")
        .workload_spec("G")
        .workload_spec("H")
        .workload_dependency("A", "B", AddCondition::AddCondRunning)
        .workload_dependency("B", "C", AddCondition::AddCondSucceeded)
        .workload_dependency("B", "E", AddCondition::AddCondSucceeded)
        .workload_dependency("C", "E", AddCondition::AddCondSucceeded)
        .workload_dependency("C", "H", AddCondition::AddCondSucceeded)
        .workload_dependency("D", "B", AddCondition::AddCondSucceeded)
        .workload_dependency("D", "C", AddCondition::AddCondSucceeded)
        .workload_dependency("D", "E", AddCondition::AddCondSucceeded)
        .workload_dependency("F", "E", AddCondition::AddCondSucceeded)
        .workload_dependency("H", "G", AddCondition::AddCondSucceeded)
        .workload_dependency("G", "F", AddCondition::AddCondSucceeded);

    for start_node in ["A", "B", "C", "D", "E", "F", "G", "H"] {
        let builder = builder.clone();
        let complete_state = builder.set_start_node(start_node).build();
        let server_state = ServerState::new(complete_state, DeleteGraph::new());
        let result = server_state.has_cyclic_dependencies();
        assert!(result.is_ok());
    }
}

// Two separate acyclic graphs.
#[test]
fn utest_detect_no_cycle_in_dependencies_separated_graphs_1() {
    let workloads = ["A", "B", "C", "D", "E", "F", "G", "H"];
    let builder = CompleteStateBuilder::default()
        .with_workloads(&workloads)
        .workload_dependency("A", "B", AddCondition::AddCondRunning)
        .workload_dependency("B", "C", AddCondition::AddCondSucceeded)
        .workload_dependency("D", "A", AddCondition::AddCondSucceeded)
        .workload_dependency("D", "C", AddCondition::AddCondSucceeded)
        .workload_dependency("D", "B", AddCondition::AddCondSucceeded)
        .workload_dependency("G", "H", AddCondition::AddCondSucceeded)
        .workload_dependency("H", "F", AddCondition::AddCondSucceeded);

    for start_node in workloads {
        let builder = builder.clone();
        let complete_state = builder.set_start_node(start_node).build();
        let server_state = ServerState::new(complete_state, DeleteGraph::new());
        let result = server_state.has_cyclic_dependencies();
        assert!(result.is_ok());
    }
}

// 1000 nodes, n_1 -> n_2 -> ... -> n_999 -> n_1.
#[test]
fn utest_detect_cycle_in_dependencies_performance_1000_nodes() {
    let root_len: usize = rand::rng().random_range(10..30);
    let root_name: String = Alphanumeric.sample_string(&mut rand::rng(), root_len);

    let mut workload_root = generate_test_workload_spec_with_param(
        AGENT_NAME.to_string(),
        root_name.clone(),
        RUNTIME.to_string(),
    );
    workload_root.dependencies.clear();

    let mut dependencies = vec![workload_root];
    for i in 1..BENCHMARKING_NUMBER_OF_WORKLOADS {
        let rand_len: usize = rand::rng().random_range(10..30);
        let random_workload_name: String = Alphanumeric.sample_string(&mut rand::rng(), rand_len);
        let workload_name = format!("{}{}", random_workload_name, i); // concatenate with index to ensure unique name in collection
        let workload_i = generate_test_workload_spec_with_param(
            AGENT_NAME.to_string(),
            workload_name.clone(),
            RUNTIME.to_string(),
        );

        dependencies.last_mut().unwrap().dependencies =
            vec![(workload_name, AddCondition::AddCondRunning)];
        dependencies.push(workload_i);
    }

    dependencies.last_mut().unwrap().dependencies =
        vec![(root_name.clone(), AddCondition::AddCondRunning)];

    let mut complete_state = generate_test_complete_state(REQUEST_ID.to_string(), dependencies);
    complete_state.workload_states.clear();
    assert_eq!(
        complete_state.current_state.workloads.len(),
        BENCHMARKING_NUMBER_OF_WORKLOADS
    );

    let server_state = ServerState::new(complete_state, DeleteGraph::new());
    let start = Instant::now();
    let result = server_state.has_cyclic_dependencies();
    let duration = start.elapsed();
    assert!(result.is_err());
    println!(
        "time iterative cyclic dependency check: '{:?}' micro sek.",
        duration.as_micros()
    );
    assert!(duration.as_micros() < 5000);
}

// A -> B, C, D; D -> C; B -> A. The back edge B -> A is examined only after
// a stale duplicate of C has resurfaced; closing a workload by name keeps A
// open on the path, so the cycle A -> B -> A is still detected.
#[test]
fn utest_detect_cycle_across_stale_duplicate() {
    let complete_state = CompleteStateBuilder::default()
        .with_workloads(&["A", "B", "C", "D"])
        .workload_dependency("A", "B", AddCondition::AddCondRunning)
        .workload_dependency("A", "C", AddCondition::AddCondRunning)
        .workload_dependency("A", "D", AddCondition::AddCondRunning)
        .workload_dependency("D", "C", AddCondition::AddCondRunning)
        .workload_dependency("B", "A", AddCondition::AddCondRunning)
        .build();

    let server_state = ServerState::new(complete_state, DeleteGraph::new());
    assert_eq!(
        Err(CyclicCheckResult::WorkloadPartOfCycle("A".to_string())),
        server_state.has_cyclic_dependencies()
    );
}
