//! Discrete-event simulation primitives for serverless platforms: host-level
//! invocation admission and container management, a fair throughput-sharing
//! resource model backing a disk, and a pending-event store with causal
//! dependency resolution for model checking.

pub mod container;
pub mod dependency;
pub mod disk;
pub mod event;
pub mod function;
pub mod id_set;
pub mod invocation;
pub mod invoker;
pub mod mc_event;
pub mod mc_time;
pub mod pending_events;
pub mod ratio;
pub mod stats;
pub mod throughput;
