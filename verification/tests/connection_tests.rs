use workload_scheduler::cli::Arguments;
use workload_scheduler::connection::connection_retry_decision;
use workload_scheduler::connection::ConnectionOutcome;
use workload_scheduler::connection::ConnectionType;
use workload_scheduler::connection::RetryDecision;

#[test]
fn utest_agent_connection_always_retries() {
    let outcome = ConnectionOutcome::ServerNotAvailable("refused".to_string());
    assert_eq!(
        RetryDecision::RetryAfterTimeout,
        connection_retry_decision(&ConnectionType::Agent, &outcome, "http://server")
    );
    assert_eq!(
        RetryDecision::RetryAfterTimeout,
        connection_retry_decision(&ConnectionType::Agent, &ConnectionOutcome::Closed, "http://server")
    );
}

#[test]
fn utest_cli_connection_fails_loudly_when_server_unavailable() {
    let outcome = ConnectionOutcome::ServerNotAvailable("refused".to_string());
    assert_eq!(
        RetryDecision::StopWithError(
            "Could not connect to the server on 'http://server'.".to_string()
        ),
        connection_retry_decision(&ConnectionType::Cli, &outcome, "http://server")
    );
}

#[test]
fn utest_cli_connection_stops_quietly_otherwise() {
    let interrupted = ConnectionOutcome::ConnectionInterrupted("broken pipe".to_string());
    assert_eq!(
        RetryDecision::Stop,
        connection_retry_decision(&ConnectionType::Cli, &interrupted, "http://server")
    );
    assert_eq!(
        RetryDecision::Stop,
        connection_retry_decision(&ConnectionType::Cli, &ConnectionOutcome::Closed, "http://server")
    );
}

#[test]
fn utest_arguments_hold_start_up_options() {
    let arguments = Arguments {
        config_path: None,
        agent_name: Some("agent_A".to_string()),
        server_url: Some("http://server".to_string()),
        run_folder: None,
        insecure: Some(true),
        ca_pem: None,
        crt_pem: None,
        key_pem: None,
    };
    assert_eq!(Some("agent_A".to_string()), arguments.agent_name);
    assert_eq!(Some(true), arguments.insecure);
}
