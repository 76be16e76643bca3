//! Layer assignment across workers, and the coordinator's bookkeeping.
pub mod memory;
pub mod worker;
pub mod counts;
pub mod scheduler;
pub mod manual;
pub mod scheduler_laws;
pub mod manual_laws;
pub mod memory_laws;
pub mod state;
pub mod state_laws;
pub mod registry;
pub mod heartbeat;
pub mod wire;
pub mod pipeline;
pub mod pipeline_laws;
pub mod placement_laws;
pub mod rebalance;
pub mod worker_laws;
