//! Verified core of a simulator for scheduling task graphs: the order of
//! simulation events, the planning decisions of a HEFT-style scheduler, the
//! resource tables of a FaaS estimator, and the bookkeeping of the
//! scheduling experiments.

pub mod data_item;
pub mod event;
pub mod experiments;
pub mod heft_oct;
pub mod ils;
pub mod order;
pub mod scheduler;
pub mod text;
