//! Verified core of the spectral network-security engine: graph topology,
//! breadth-first hop distances, entity interning, flow classification,
//! infrastructure-similarity scoring and detection bookkeeping.
pub mod error;
pub mod graph;
pub mod text;
pub mod flow;
pub mod topology;
pub mod regularizer;
pub mod detection;
pub mod blast;
pub mod spectrum;
