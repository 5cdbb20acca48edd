//! A synthetic social-contact graph partitioned into cities, and a randomized
//! frontier-relay estimator of message transit time over it.

pub mod random;
pub mod entity;
pub mod graph;
pub mod relay;
pub mod builder;
pub mod world;
pub mod laws;
