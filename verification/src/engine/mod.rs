//! Caches, forward passes and batch scheduling on one device.
pub mod block_table;
pub mod kv_cache;
pub mod paged_kv_cache;
pub mod node;
pub mod weights;
pub mod logits;
pub mod transformer;
pub mod model;
pub mod pass;
pub mod contiguous;
pub mod profiling;
pub mod engine;
pub mod staged;
pub mod paged;
pub mod weighing;
pub mod pass_laws;
pub mod model_laws;
pub mod block_rows;
pub mod paged_model_laws;
pub mod paged_laws;
pub mod batch_layers;
pub mod batch_pass;
pub mod batched;
pub mod batch_laws;
pub mod batch_rows;
pub mod batch_model_laws;
pub mod batch_answer_laws;
pub mod quantized_pool;
pub mod quantized_paged_kv_cache;
pub mod quantized_rows;
pub mod size_laws;
pub mod release_laws;
pub mod cache_backend;
pub mod cache_laws;
pub mod pipeline;
pub mod profile_laws;
pub mod scheduler;
pub mod scheduler_laws;
pub mod request_laws;
pub mod node_laws;
pub mod block_laws;
pub mod shape_laws;
