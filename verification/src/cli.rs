//! The agent's start-up options, as plain values. Parsing the command line
//! into them is left to the program around the library.

use vstd::prelude::*;

verus! {

/// What an agent is started with: every field optional, defaults resolved by
/// the configuration layer.
#[derive(Debug)]
pub struct Arguments {
    /// Path to the agent configuration file.
    pub config_path: Option<String>,
    /// The unique name to register with the server.
    pub agent_name: Option<String>,
    /// The server url.
    pub server_url: Option<String>,
    /// An existing directory for agent-specific runtime files.
    pub run_folder: Option<String>,
    /// Disables TLS between agent and server.
    pub insecure: Option<bool>,
    /// Path to the certificate-authority pem file.
    pub ca_pem: Option<String>,
    /// Path to the agent certificate pem file.
    pub crt_pem: Option<String>,
    /// Path to the agent key pem file.
    pub key_pem: Option<String>,
}

} // verus!
