//! The reconnect policy of the communications client: from the kind of
//! connection and the way one attempt ended, decide whether to retry after
//! the timeout, stop quietly, or stop with an error. The transport itself —
//! the streams the attempt runs over — stays outside the library.

use vstd::prelude::*;
use vstd::string::StringExecFns;

verus! {

/// Seconds to wait before an agent connection is retried.
pub const RECONNECT_TIMEOUT_SECONDS: u64 = 1;

/// Who is connecting: a node agent, or a command-line client.
pub enum ConnectionType {
    Agent,
    Cli,
}

/// How one connection attempt ended.
pub enum ConnectionOutcome {
    ServerNotAvailable(String),
    ConnectionInterrupted(String),
    Closed,
}

/// What the client does next.
#[derive(PartialEq, Eq, Debug)]
pub enum RetryDecision {
    RetryAfterTimeout,
    Stop,
    StopWithError(String),
}

pub open spec fn connect_failure_message(addr: Seq<char>) -> Seq<char> {
    "Could not connect to the server on '"@ + addr + "'."@
}

/// An agent retries forever, whatever ended the attempt; a command-line
/// client never retries: it fails loudly when the server was unreachable and
/// stops quietly when an established connection was interrupted or closed.
pub fn connection_retry_decision(
    connection_type: &ConnectionType,
    outcome: &ConnectionOutcome,
    server_address: &str,
) -> (r: RetryDecision)
    ensures
        connection_type is Agent ==> r is RetryAfterTimeout,
        connection_type is Cli ==> match outcome {
            ConnectionOutcome::ServerNotAvailable(e) => r matches RetryDecision::StopWithError(m)
                && m@ == connect_failure_message(server_address@),
            ConnectionOutcome::ConnectionInterrupted(e) => r is Stop,
            ConnectionOutcome::Closed => r is Stop,
        },
{
    match connection_type {
        ConnectionType::Agent => RetryDecision::RetryAfterTimeout,
        ConnectionType::Cli => match outcome {
            ConnectionOutcome::ServerNotAvailable(_) => {
                let mut msg = String::new();
                msg.append("Could not connect to the server on '");
                msg.append(server_address);
                msg.append("'.");
                proof {
                    assert(msg@ =~= connect_failure_message(server_address@));
                }
                RetryDecision::StopWithError(msg)
            },
            ConnectionOutcome::ConnectionInterrupted(_) => RetryDecision::Stop,
            ConnectionOutcome::Closed => RetryDecision::Stop,
        },
    }
}

} // verus!
