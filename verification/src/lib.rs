pub mod agent_name;
pub mod cli;
pub mod connection;
pub mod cyclic_check;
pub mod dependency_state_validator;
pub mod objects;
pub mod parameter_storage;
pub mod scheduler;
pub mod scheduler_laws;
pub mod server_state;
pub mod text;
pub mod workload_operation;
