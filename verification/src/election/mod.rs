//! Priority-based election of the coordinator.
pub mod term;
pub mod state_machine;
pub mod election_laws;
