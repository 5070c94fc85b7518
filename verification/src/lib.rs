//! Pick the lowest-latency reachable addresses for an endpoint template.
//!
//! `link` holds the descriptor model: parsing a node link into a structured
//! endpoint template and rewriting it with a substituted address. `probe`
//! holds the deterministic part of the probing engine: absorbing failed
//! probes and ranking the surviving outcomes by ascending measured latency.
//! Connection attempts themselves are network I/O and stay with the caller,
//! which hands the engine one optional measurement per candidate.

pub mod link;
pub mod probe;
