//! Least-recently-used eviction engine for a container-image store.
//!
//! The engine rebuilds the dependency forest among images each pass
//! ([`forest`]), derives a usage timestamp for every node and propagates
//! usage from descendants to ancestors, ranks and filters the eviction
//! candidates ([`plan`]), and drives a bounded, partial-failure-tolerant
//! eviction pass against a disk-space threshold ([`evict`]). The persisted
//! memory across passes is the map in [`state`]; talking to the container
//! runtime and to the disk is left to the surrounding driver.

pub mod docker;
pub mod evict;
pub mod failure;
pub mod forest;
pub mod image;
pub mod plan;
pub mod state;
