//! Pipeline-parallel transformer inference: tensors and the device interface,
//! paged key/value caches, the forward passes, batch and layer scheduling, the
//! coordinator's bookkeeping and leader election.
//!
//! Real numbers cross this library as bit patterns ([`Single`](base::numeric::Single)
//! and [`Double`](base::numeric::Double)); it compares and carries them and leaves
//! arithmetic on them to its callers.
pub mod base;
pub mod engine;
pub mod coordinator;
pub mod election;
