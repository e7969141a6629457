//! Incremental tailing of container-runtime (CRI) log files: a verified line
//! grammar, per-file read offsets, and the routing of file-change events.

pub mod cri;
pub mod events;
pub mod offsets;
pub mod text;
pub mod timestamp;
