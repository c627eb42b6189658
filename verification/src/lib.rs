//! OmniStor: the control logic of a shared-everything, multi-tenant storage cluster.
//!
//! Each module has a model of its data (a type whose name ends in `View`), in which its
//! contracts are stated, and the executable type that is proved to follow it. What holds
//! across several operations stands in the proof functions whose names begin with `law_`.
//!
//! - [`types`]: the names of things, keys, media classes and errors
//! - [`metadata`]: buckets of metadata, their journals, leases and takeover
//! - [`extent`]: one pool of extents for metadata and data
//! - [`placement`]: the choice of a pool, rebalancing within a class, sinking to colder media
//! - [`protection`]: stripes over fault domains, degraded reads, rebuild
//! - [`snapshot`]: versions of keys, snapshots, writable clones, export
//! - [`qos`], [`quota`], [`tenant`]: what a tenant may use, and the tenants themselves
//! - [`cluster`]: the paths that requests take through all of these
//! - [`console`], [`json`], [`http`]: management requests and their answers
//! - [`accounts`], [`cluster_history`]: what every operation of a cluster, and every run of
//!   them, leaves true
//! - [`room`]: whether the counters of a cluster have room for a run of writes
//!
//! The remaining modules hold what these are built from: byte strings, text, ordered maps,
//! rankings, sums, and the rounding of 64-bit binary floating point over integers.

pub mod accounts;
pub mod binary64;
pub mod bytes;
pub mod cluster;
pub mod cluster_history;
pub mod cluster_laws;
pub mod console;
pub mod console_laws;
pub mod extent;
pub mod http;
pub mod json;
pub mod json_laws;
pub mod metadata;
pub mod order;
pub mod placement;
pub mod protection;
pub mod protection_laws;
pub mod qos;
pub mod quota;
pub mod request_laws;
pub mod room;
pub mod routing_laws;
pub mod snapshot;
pub mod snapshot_laws;
pub mod sorted_map;
pub mod sums;
pub mod tenant;
pub mod text;
pub mod types;
