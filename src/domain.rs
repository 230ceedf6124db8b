//! Transactions, their metrics, and the graph-wide rollup record.
use vstd::prelude::*;

verus! {

/// Identifier of the root transaction, the one node without parents.
pub const ROOT_ID: u32 = 1;

/// Per-node metrics.
///
/// - `depth`: distance from the root, fixed when the node is inserted.
/// - `in_reference`: how many times the node has been cited as a parent.
#[derive(Debug, Clone, Copy, PartialEq, Eq)]
pub struct TransactionMetrics {
    pub depth: u32,
    pub in_reference: u32,
}

/// Graph-wide rollup metrics; `0` stands for "no holder yet".
///
/// - `last_transaction`: the node with the greatest timestamp.
/// - `most_in_reference_transaction`: the node cited most often as a parent.
#[derive(Debug, Clone, Copy, PartialEq, Eq)]
pub struct GeneralMetrics {
    pub last_transaction: u32,
    pub most_in_reference_transaction: u32,
}

/// A transaction: a node of the graph with its identifier, timestamp,
/// its two parents (`None` only for the root) and its metrics.
#[derive(Debug, Clone, Copy, PartialEq, Eq)]
pub struct Transaction {
    pub id: u32,
    pub timestamp: u32,
    pub parents: Option<(u32, u32)>,
    pub metrics: TransactionMetrics,
}

/// Another name for a transaction, as a node of the graph.
pub type Node = Transaction;

impl TransactionMetrics {
    /// Metrics of a node that has not been inserted yet.
    pub open spec fn zero() -> TransactionMetrics {
        TransactionMetrics { depth: 0, in_reference: 0 }
    }
}

impl GeneralMetrics {
    /// The neutral rollup: no leader for either metric.
    pub open spec fn neutral() -> GeneralMetrics {
        GeneralMetrics { last_transaction: 0, most_in_reference_transaction: 0 }
    }
}

impl Transaction {
    /// The root transaction: no parents, timestamp 0, zero metrics.
    pub open spec fn root() -> Transaction {
        Transaction {
            id: ROOT_ID,
            timestamp: 0,
            parents: None,
            metrics: TransactionMetrics::zero(),
        }
    }

    /// A transaction `id` with parents `left_parent` and `right_parent`,
    /// stamped `timestamp`, with zero metrics.
    pub fn new(id: u32, left_parent: u32, right_parent: u32, timestamp: u32) -> (t: Self)
        ensures
            t == (Transaction {
                id,
                timestamp,
                parents: Some((left_parent, right_parent)),
                metrics: TransactionMetrics::zero(),
            }),
    {
        Transaction {
            id,
            timestamp,
            parents: Some((left_parent, right_parent)),
            metrics: TransactionMetrics { depth: 0, in_reference: 0 },
        }
    }

    /// The root transaction.
    pub fn new_root() -> (t: Self)
        ensures
            t == Transaction::root(),
    {
        Transaction {
            id: ROOT_ID,
            timestamp: 0,
            parents: None,
            metrics: TransactionMetrics { depth: 0, in_reference: 0 },
        }
    }
}

} // verus!
