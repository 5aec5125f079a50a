use workload_scheduler::agent_name::AgentName;

const AGENT_NAME: &str = "agent";

#[test]
fn utest_agent_name_get_filter_regex() {
    assert_eq!(
        format!("[.]{AGENT_NAME}$"),
        AgentName::from(AGENT_NAME).get_filter_regex()
    );
}

#[test]
fn utest_agent_name_get_filter_suffix() {
    assert_eq!(
        format!(".{AGENT_NAME}"),
        AgentName::from(AGENT_NAME).get_filter_suffix()
    );
}

#[test]
fn utest_agent_name_get() {
    assert_eq!(AGENT_NAME, AgentName::from(AGENT_NAME).get());
    assert_eq!(
        AGENT_NAME,
        AgentName::from(AGENT_NAME.to_string()).get()
    );
    assert_eq!(
        AGENT_NAME,
        workload_scheduler::agent_name::agent_name_of(AGENT_NAME).get()
    );
}

#[test]
fn utest_instance_name_text_form() {
    let instance = workload_scheduler::objects::WorkloadInstanceName::new(
        "workload_1".to_string(),
        "agent_A".to_string(),
        "abc123".to_string(),
    );
    assert_eq!("workload_1.agent_A.abc123", instance.text_form());
}
