//! Transaction relay for a lightweight peer-to-peer node: which
//! transactions to announce, which to fetch and which to serve, with a
//! bounded least-recently-used cache against redundant traffic.

pub mod cache;
pub mod tx;
pub mod relay;
pub mod laws;
