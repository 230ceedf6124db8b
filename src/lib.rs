//! Structural statistics over a two-parent transaction DAG.
//!
//! The graph is built one transaction at a time; every insertion is checked
//! against the graph's invariants and keeps the per-node and graph-wide
//! metrics up to date. Statistics are then read off the finished graph.
pub mod domain;
pub mod graph;
pub mod infra;
pub mod statistics;

pub use domain::{GeneralMetrics, Node, Transaction, TransactionMetrics, ROOT_ID};
pub use graph::{Graph, GraphError, MAX_NODES};
pub use infra::{parse_database, parse_node, InfraError};
pub use statistics::{stats, Ratio, Statistics, TIMESTAMP_RANGE};
