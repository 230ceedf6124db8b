//! The graph builder: owns the nodes, validates each insertion and keeps
//! the per-node and graph-wide metrics up to date.
use std::collections::HashMap;
use vstd::prelude::*;

use crate::domain::{GeneralMetrics, Transaction, TransactionMetrics, ROOT_ID};

verus! {

broadcast use vstd::std_specs::hash::group_hash_axioms;

/// Bound on the number of nodes a graph may reach through insertion.
///
/// Each insertion adds two references, and in-reference counters are `u32`;
/// below this bound no counter can overflow.
pub const MAX_NODES: usize = 0x7fff_ffff;

/// Why an insertion was rejected.
#[derive(Debug, Clone, Copy, PartialEq, Eq)]
pub enum GraphError {
    /// The identifier is already in the graph.
    DuplicatedIdFound(u32),
    /// A parent identifier is not in the graph.
    ParentNotFound,
    /// The candidate has no parent pair.
    ParentNotSpecified,
}

/// The transaction graph.
///
/// - `num_nodes`: declared capacity, the intended node count (root included).
/// - `nodes`: the transactions by identifier.
/// - `metrics`: the rollup metrics.
/// - `order`: the identifiers in insertion order, root first.
#[derive(Debug)]
pub struct Graph {
    pub num_nodes: u32,
    pub nodes: HashMap<u32, Transaction>,
    pub metrics: GeneralMetrics,
    pub order: Vec<u32>,
}

/// Mathematical model of a [`Graph`].
pub struct GraphView {
    pub num_nodes: u32,
    pub nodes: Map<u32, Transaction>,
    pub order: Seq<u32>,
    pub metrics: GeneralMetrics,
}

impl View for Graph {
    type V = GraphView;

    open spec fn view(&self) -> GraphView {
        GraphView {
            num_nodes: self.num_nodes,
            nodes: self.nodes@,
            order: self.order@,
            metrics: self.metrics,
        }
    }
}

pub open spec fn min_u32(a: u32, b: u32) -> u32 {
    if a <= b {
        a
    } else {
        b
    }
}

/// The left parent of `t` (meaningful when `t` has parents).
pub open spec fn left_parent(t: Transaction) -> u32 {
    match t.parents {
        Some((l, _)) => l,
        None => 0,
    }
}

/// The right parent of `t` (meaningful when `t` has parents).
pub open spec fn right_parent(t: Transaction) -> u32 {
    match t.parents {
        Some((_, r)) => r,
        None => 0,
    }
}

/// How many of the two parent slots of `t` hold `x`.
pub open spec fn slots(t: Transaction, x: u32) -> nat {
    match t.parents {
        None => 0,
        Some((l, r)) => (if l == x {
            1nat
        } else {
            0nat
        }) + (if r == x {
            1nat
        } else {
            0nat
        }),
    }
}

/// How many parent slots, over the nodes `ids`, hold `x`.
pub open spec fn ref_count(nodes: Map<u32, Transaction>, ids: Seq<u32>, x: u32) -> nat
    decreases ids.len(),
{
    if ids.len() == 0 {
        0
    } else {
        ref_count(nodes, ids.drop_last(), x) + slots(nodes[ids.last()], x)
    }
}

/// `t` with the metrics it is committed with: `depth`, and no references yet.
pub open spec fn committed(t: Transaction, depth: u32) -> Transaction {
    Transaction { metrics: TransactionMetrics { depth, in_reference: 0 }, ..t }
}

impl GraphView {
    pub open spec fn depth(self, id: u32) -> u32 {
        self.nodes[id].metrics.depth
    }

    pub open spec fn in_reference(self, id: u32) -> u32 {
        self.nodes[id].metrics.in_reference
    }

    pub open spec fn timestamp(self, id: u32) -> u32 {
        self.nodes[id].timestamp
    }

    /// A freshly created graph, sized for `num_child` insertions.
    pub open spec fn initial(num_child: u32) -> GraphView {
        GraphView {
            num_nodes: (num_child + 1) as u32,
            nodes: Map::empty().insert(ROOT_ID, Transaction::root()),
            order: seq![ROOT_ID],
            metrics: GeneralMetrics::neutral(),
        }
    }

    /// `id` was inserted before position `i` of the insertion order.
    pub open spec fn committed_before(self, id: u32, i: int) -> bool {
        exists|j: int| 0 <= j < i && self.order[j] == id
    }

    /// The node at position `i` has both parents inserted before it, and
    /// its depth is one more than the shallower parent's.
    pub open spec fn parents_ok(self, i: int) -> bool {
        let n = self.nodes[self.order[i]];
        &&& n.parents is Some
        &&& self.committed_before(left_parent(n), i)
        &&& self.committed_before(right_parent(n), i)
        &&& n.metrics.depth == min_u32(self.depth(left_parent(n)), self.depth(right_parent(n)))
            + 1
    }

    /// The node at position `k` (not the root) has the greatest timestamp,
    /// and every node inserted before it has a smaller one.
    pub open spec fn is_last_at(self, k: int) -> bool {
        &&& 1 <= k < self.order.len()
        &&& self.order[k] == self.metrics.last_transaction
        &&& forall|j: int|
            1 <= j < self.order.len() ==> #[trigger] self.timestamp(self.order[j])
                <= self.timestamp(self.order[k])
        &&& forall|j: int|
            1 <= j < k ==> #[trigger] self.timestamp(self.order[j]) < self.timestamp(
                self.order[k],
            )
    }

    /// `last_transaction` is the first inserted node among those with the
    /// greatest timestamp, or `0` while only the root is there.
    pub open spec fn last_ok(self) -> bool {
        if self.order.len() == 1 {
            self.metrics.last_transaction == 0
        } else {
            exists|k: int| self.is_last_at(k)
        }
    }

    /// `most_in_reference_transaction` is a node whose in-reference count
    /// is at least every node's, or `0` while only the root is there.
    pub open spec fn most_ok(self) -> bool {
        let m = self.metrics.most_in_reference_transaction;
        if self.order.len() == 1 {
            m == 0
        } else {
            &&& self.nodes.contains_key(m)
            &&& forall|id: u32| #[trigger]
                self.nodes.contains_key(id) ==> self.in_reference(id) <= self.in_reference(m)
        }
    }

    /// The graph's invariants.
    pub open spec fn wf(self) -> bool {
        &&& 1 <= self.order.len() <= MAX_NODES
        &&& self.order[0] == ROOT_ID
        &&& self.order.no_duplicates()
        &&& forall|id: u32| #[trigger] self.nodes.contains_key(id) <==> self.order.contains(id)
        &&& forall|i: int|
            0 <= i < self.order.len() ==> (#[trigger] self.nodes[self.order[i]]).id
                == self.order[i]
        &&& self.nodes[ROOT_ID].parents is None
        &&& self.nodes[ROOT_ID].timestamp == 0
        &&& self.depth(ROOT_ID) == 0
        &&& forall|i: int| 1 <= i < self.order.len() ==> #[trigger] self.parents_ok(i)
        &&& forall|i: int| 0 <= i < self.order.len() ==> #[trigger] self.depth(self.order[i]) <= i
        &&& forall|id: u32| #[trigger]
            self.nodes.contains_key(id) ==> self.in_reference(id) == ref_count(
                self.nodes,
                self.order,
                id,
            )
        &&& self.last_ok()
        &&& self.most_ok()
    }

    /// Why inserting `t` is rejected, if it is.
    pub open spec fn insert_error(self, t: Transaction) -> Option<GraphError> {
        if self.nodes.contains_key(t.id) {
            Some(GraphError::DuplicatedIdFound(t.id))
        } else if t.parents is None {
            Some(GraphError::ParentNotSpecified)
        } else if !self.nodes.contains_key(left_parent(t)) || !self.nodes.contains_key(
            right_parent(t),
        ) {
            Some(GraphError::ParentNotFound)
        } else {
            None
        }
    }

    /// `id` cited once more.
    pub open spec fn bump(self, id: u32) -> GraphView {
        let n = self.nodes[id];
        GraphView {
            nodes: self.nodes.insert(
                id,
                Transaction {
                    metrics: TransactionMetrics {
                        in_reference: (n.metrics.in_reference + 1) as u32,
                        ..n.metrics
                    },
                    ..n
                },
            ),
            ..self
        }
    }

    pub open spec fn with_last(self, id: u32) -> GraphView {
        GraphView { metrics: GeneralMetrics { last_transaction: id, ..self.metrics }, ..self }
    }

    pub open spec fn with_most(self, id: u32) -> GraphView {
        GraphView {
            metrics: GeneralMetrics { most_in_reference_transaction: id, ..self.metrics },
            ..self
        }
    }

    /// The holder of `last_transaction` once `t` is considered: `t` wins
    /// when there is no holder yet or its timestamp is strictly greater.
    pub open spec fn next_last(self, t: Transaction) -> u32 {
        if self.order.len() == 1 || self.timestamp(self.metrics.last_transaction) < t.timestamp {
            t.id
        } else {
            self.metrics.last_transaction
        }
    }

    /// The holder of `most_in_reference_transaction` once node `id`, now
    /// cited `count` times, is considered: it wins when there is no holder
    /// yet or its count is strictly greater than the holder's.
    pub open spec fn next_most(self, has_holder: bool, id: u32, count: u32) -> u32 {
        let m = self.metrics.most_in_reference_transaction;
        if !has_holder || self.in_reference(m) < count {
            id
        } else {
            m
        }
    }

    /// Both parents of `t` cited once more, left then right.
    pub open spec fn cited(self, t: Transaction) -> GraphView {
        self.bump(left_parent(t)).bump(right_parent(t))
    }

    /// `t` as it is stored: its depth is one more than its shallower parent's.
    pub open spec fn stored(self, t: Transaction) -> Transaction {
        let c = self.cited(t);
        committed(t, (min_u32(c.depth(left_parent(t)), c.depth(right_parent(t))) + 1) as u32)
    }

    /// The graph once the metrics for `t` are updated, before `t` is stored.
    pub open spec fn prepared(self, t: Transaction) -> GraphView {
        let l = left_parent(t);
        let r = right_parent(t);
        let left_count = self.bump(l).in_reference(l);
        let c = self.cited(t);
        let g1 = c.with_last(c.next_last(self.stored(t)));
        let g2 = g1.with_most(g1.next_most(self.order.len() > 1, l, left_count));
        g2.with_most(g2.next_most(true, r, c.in_reference(r)))
    }

    /// The graph once `t` is inserted.
    pub open spec fn insert_result(self, t: Transaction) -> GraphView {
        let p = self.prepared(t);
        GraphView { nodes: p.nodes.insert(t.id, self.stored(t)), order: p.order.push(t.id), ..p }
    }
}

/// Only the parents of the nodes `ids` matter to `ref_count`.
proof fn lemma_ref_count_frame(
    n1: Map<u32, Transaction>,
    n2: Map<u32, Transaction>,
    ids: Seq<u32>,
    x: u32,
)
    requires
        forall|i: int| 0 <= i < ids.len() ==> #[trigger] n1[ids[i]].parents == n2[ids[i]].parents,
    ensures
        ref_count(n1, ids, x) == ref_count(n2, ids, x),
    decreases ids.len(),
{
    if ids.len() > 0 {
        let rest = ids.drop_last();
        assert forall|i: int| 0 <= i < rest.len() implies #[trigger] n1[rest[i]].parents
            == n2[rest[i]].parents by {
            assert(rest[i] == ids[i]);
        }
        lemma_ref_count_frame(n1, n2, rest, x);
        assert(n1[ids.last()].parents == n2[ids[ids.len() - 1]].parents);
    }
}

/// Each node holds two parent slots.
proof fn lemma_ref_count_bound(nodes: Map<u32, Transaction>, ids: Seq<u32>, x: u32)
    ensures
        ref_count(nodes, ids, x) <= 2 * ids.len(),
    decreases ids.len(),
{
    if ids.len() > 0 {
        lemma_ref_count_bound(nodes, ids.drop_last(), x);
    }
}

/// Appending a node adds its slots.
proof fn lemma_ref_count_push(nodes: Map<u32, Transaction>, ids: Seq<u32>, id: u32, x: u32)
    ensures
        ref_count(nodes, ids.push(id), x) == ref_count(nodes, ids, x) + slots(nodes[id], x),
{
    assert(ids.push(id).drop_last() =~= ids);
}

/// A node whose parents are not `x`, over a prefix of the insertion
/// order, contributes nothing.
proof fn lemma_ref_count_absent(g: GraphView, k: int, x: u32)
    requires
        g.wf(),
        0 <= k <= g.order.len(),
        !g.nodes.contains_key(x),
    ensures
        ref_count(g.nodes, g.order.take(k), x) == 0,
    decreases k,
{
    if k > 0 {
        lemma_ref_count_absent(g, k - 1, x);
        assert(g.order.take(k).drop_last() =~= g.order.take(k - 1));
        let id = g.order[k - 1];
        if k - 1 >= 1 {
            assert(g.parents_ok(k - 1));
            let n = g.nodes[id];
            let jl = choose|j: int| 0 <= j < k - 1 && g.order[j] == left_parent(n);
            let jr = choose|j: int| 0 <= j < k - 1 && g.order[j] == right_parent(n);
            assert(g.order.contains(g.order[jl]));
            assert(g.order.contains(g.order[jr]));
        }
    }
}

/// A rejected-free insertion keeps the graph's invariants.
proof fn lemma_insert_wf(g: GraphView, t: Transaction)
    requires
        g.wf(),
        g.insert_error(t) is None,
        g.order.len() < MAX_NODES,
    ensures
        g.insert_result(t).wf(),
{
    let l = left_parent(t);
    let r = right_parent(t);
    let n = g.order.len();
    let c = g.cited(t);
    let s = g.stored(t);
    let p = g.prepared(t);
    let h = g.insert_result(t);
    assert(g.order.contains(l));
    assert(g.order.contains(r));
    assert(!g.order.contains(t.id));
    let jl = choose|j: int| 0 <= j < n && g.order[j] == l;
    let jr = choose|j: int| 0 <= j < n && g.order[j] == r;
    assert(g.depth(g.order[jl]) <= jl);
    assert(g.depth(g.order[jr]) <= jr);
    // in-reference counts stay in range
    lemma_ref_count_bound(g.nodes, g.order, l);
    lemma_ref_count_bound(g.nodes, g.order, r);
    // the nodes that were there keep everything but their in-reference count
    assert forall|id: u32| #[trigger] g.nodes.contains_key(id) implies h.nodes.contains_key(id)
        && h.nodes[id].id == g.nodes[id].id && h.nodes[id].parents == g.nodes[id].parents
        && h.nodes[id].timestamp == g.nodes[id].timestamp && h.depth(id) == g.depth(id)
        && h.in_reference(id) == g.in_reference(id) + slots(t, id) by {}
    assert(h.nodes[t.id] == s);
    assert(h.order =~= g.order.push(t.id));
    // order and domain
    assert forall|id: u32| #[trigger] h.nodes.contains_key(id) <==> h.order.contains(id) by {
        if h.order.contains(id) {
            let j = choose|j: int| 0 <= j < h.order.len() && h.order[j] == id;
            if j < n {
                assert(g.order.contains(id));
            }
        }
        if g.order.contains(id) {
            let j = choose|j: int| 0 <= j < n && g.order[j] == id;
            assert(h.order[j] == id);
        }
        if id == t.id {
            assert(h.order[n as int] == id);
        }
    }
    assert forall|i: int| 0 <= i < h.order.len() implies (#[trigger] h.nodes[h.order[i]]).id
        == h.order[i] by {
        if i < n {
            assert(g.order.contains(g.order[i]));
            assert(g.nodes.contains_key(g.order[i]));
        }
    }
    assert(g.order.contains(g.order[0]));
    // parents and depth
    assert forall|i: int| 1 <= i < h.order.len() implies #[trigger] h.parents_ok(i) by {
        if i < n {
            assert(g.parents_ok(i));
            let m = g.nodes[g.order[i]];
            assert(g.order.contains(g.order[i]));
            let a = choose|j: int| 0 <= j < i && g.order[j] == left_parent(m);
            let b = choose|j: int| 0 <= j < i && g.order[j] == right_parent(m);
            assert(g.order.contains(g.order[a]));
            assert(g.order.contains(g.order[b]));
            assert(h.order[a] == left_parent(m));
            assert(h.order[b] == right_parent(m));
        } else {
            assert(h.order[jl] == l);
            assert(h.order[jr] == r);
        }
    }
    assert forall|i: int| 0 <= i < h.order.len() implies #[trigger] h.depth(h.order[i]) <= i by {
        if i < n {
            assert(g.depth(g.order[i]) <= i);
            assert(g.order.contains(g.order[i]));
        }
    }
    // in-reference counts
    lemma_ref_count_push(h.nodes, g.order, t.id, 0);
    assert forall|id: u32| #[trigger] h.nodes.contains_key(id) implies h.in_reference(id)
        == ref_count(h.nodes, h.order, id) by {
        lemma_ref_count_push(h.nodes, g.order, t.id, id);
        assert forall|i: int| 0 <= i < g.order.len() implies #[trigger] h.nodes[g.order[i]].parents
            == g.nodes[g.order[i]].parents by {
            assert(g.order.contains(g.order[i]));
        }
        lemma_ref_count_frame(h.nodes, g.nodes, g.order, id);
        if id == t.id {
            lemma_ref_count_absent(g, n as int, id);
            assert(g.order.take(n as int) =~= g.order);
        }
    }
    // last transaction
    let last = c.next_last(s);
    assert(h.metrics.last_transaction == last);
    if n == 1 {
        assert(h.is_last_at(1));
    } else {
        let k = choose|k: int| g.is_last_at(k);
        assert(g.order.contains(g.order[k]));
        if g.timestamp(g.metrics.last_transaction) < t.timestamp {
            assert forall|j: int| 1 <= j < h.order.len() implies #[trigger] h.timestamp(h.order[j])
                <= h.timestamp(h.order[n as int]) by {
                if j < n {
                    assert(g.timestamp(g.order[j]) <= g.timestamp(g.order[k]));
                    assert(g.order.contains(g.order[j]));
                }
            }
            assert forall|j: int| 1 <= j < n implies #[trigger] h.timestamp(h.order[j])
                < h.timestamp(h.order[n as int]) by {
                assert(g.timestamp(g.order[j]) <= g.timestamp(g.order[k]));
                assert(g.order.contains(g.order[j]));
            }
            assert(h.is_last_at(n as int));
        } else {
            assert forall|j: int| 1 <= j < h.order.len() implies #[trigger] h.timestamp(h.order[j])
                <= h.timestamp(h.order[k]) by {
                if j < n {
                    assert(g.timestamp(g.order[j]) <= g.timestamp(g.order[k]));
                    assert(g.order.contains(g.order[j]));
                }
            }
            assert forall|j: int| 1 <= j < k implies #[trigger] h.timestamp(h.order[j])
                < h.timestamp(h.order[k]) by {
                assert(g.timestamp(g.order[j]) < g.timestamp(g.order[k]));
                assert(g.order.contains(g.order[j]));
            }
            assert(h.is_last_at(k));
        }
    }
    // most referenced transaction
    let m = g.metrics.most_in_reference_transaction;
    let m1 = c.next_most(n > 1, l, g.bump(l).in_reference(l));
    let m2 = h.metrics.most_in_reference_transaction;
    assert(g.bump(l).in_reference(l) <= h.in_reference(l));
    assert(l != r ==> g.bump(l).in_reference(l) == h.in_reference(l));
    if n == 1 {
        assert(g.order.contains(g.order[0]));
        assert forall|id: u32| g.nodes.contains_key(id) implies id == ROOT_ID by {
            assert(g.order.contains(id));
        }
    } else {
        assert(g.in_reference(m) <= h.in_reference(m));
    }
    assert(h.nodes.contains_key(m1));
    assert(h.in_reference(m1) >= g.bump(l).in_reference(l));
    assert(n > 1 ==> h.in_reference(m1) >= h.in_reference(m));
    assert(h.nodes.contains_key(m2));
    assert(h.in_reference(m2) >= h.in_reference(m1));
    assert(h.in_reference(m2) >= h.in_reference(r));
    assert forall|id: u32| #[trigger] h.nodes.contains_key(id) implies h.in_reference(id)
        <= h.in_reference(m2) by {
        if id != t.id && id != l && id != r {
            assert(g.nodes.contains_key(id));
        }
    }
}

impl Graph {
    /// The graph's invariants hold.
    pub open spec fn wf(&self) -> bool {
        self@.wf()
    }

    /// A graph holding only the root, sized for `num_child` insertions:
    /// its declared capacity is `num_child + 1`, its rollup neutral.
    pub fn with_capacity(num_child: u32) -> (g: Self)
        requires
            num_child < u32::MAX,
        ensures
            g@ == GraphView::initial(num_child),
            g.wf(),
    {
        let num_nodes = num_child + 1;
        let mut nodes: HashMap<u32, Transaction> = HashMap::with_capacity(num_nodes as usize);
        nodes.insert(ROOT_ID, Transaction::new_root());
        let mut order: Vec<u32> = Vec::new();
        order.push(ROOT_ID);
        let g = Graph {
            num_nodes,
            nodes,
            metrics: GeneralMetrics { last_transaction: 0, most_in_reference_transaction: 0 },
            order,
        };
        proof {
            let v = g@;
            assert(v.nodes =~= GraphView::initial(num_child).nodes);
            assert(v.order =~= seq![ROOT_ID]);
            assert forall|id: u32| #[trigger] v.nodes.contains_key(id) <==> v.order.contains(
                id,
            ) by {
                if v.order.contains(id) {
                    let j = choose|j: int| 0 <= j < v.order.len() && v.order[j] == id;
                    assert(j == 0);
                }
                if id == ROOT_ID {
                    assert(v.order[0] == id);
                }
            }
            assert(ref_count(v.nodes, v.order.drop_last(), ROOT_ID) == 0);
        }
        g
    }

    fn exists_node(&self, id: u32) -> (b: bool)
        ensures
            b == self@.nodes.contains_key(id),
    {
        self.nodes.contains_key(&id)
    }

    fn add_vertex(&mut self, node: &Transaction)
        requires
            old(self)@.order.len() < MAX_NODES,
        ensures
            final(self)@ == (GraphView {
                nodes: old(self)@.nodes.insert(node.id, *node),
                order: old(self)@.order.push(node.id),
                ..old(self)@
            }),
    {
        self.nodes.insert(node.id, *node);
        self.order.push(node.id);
    }

    /// Inserts `node` into the graph.
    ///
    /// Rejected, with the graph and `node` unchanged: an identifier already
    /// present (`DuplicatedIdFound`), no parent pair (`ParentNotSpecified`),
    /// a parent that is not in the graph (`ParentNotFound`), checked in that
    /// order. Otherwise both parents are cited once more, `node` gets the
    /// depth of its shallower parent plus one and no references, the rollup
    /// metrics are updated, and `node` is stored.
    pub fn add_node(&mut self, node: &mut Transaction) -> (r: Result<(), GraphError>)
        requires
            old(self).wf(),
            old(self)@.order.len() < MAX_NODES,
        ensures
            final(self).wf(),
            match old(self)@.insert_error(*old(node)) {
                Some(e) => r == Err::<(), GraphError>(e) && final(self)@ == old(self)@
                    && *final(node) == *old(node),
                None => r is Ok && final(self)@ == old(self)@.insert_result(*old(node))
                    && *final(node) == old(self)@.stored(*old(node)),
            },
    {
        if self.exists_node(node.id) {
            return Err(GraphError::DuplicatedIdFound(node.id));
        }
        let parents = match node.parents {
            Some(p) => p,
            None => {
                return Err(GraphError::ParentNotSpecified);
            },
        };
        if !self.exists_node(parents.0) || !self.exists_node(parents.1) {
            return Err(GraphError::ParentNotFound);
        }
        proof {
            lemma_insert_wf(self@, *node);
        }
        self.update_metrics(node, parents);
        self.add_vertex(node);
        Ok(())
    }

    /// Cites both parents once more, sets the depth of `node` and updates
    /// the rollup metrics, leaving `node` to be stored.
    fn update_metrics(&mut self, node: &mut Transaction, parents: (u32, u32))
        requires
            old(self).wf(),
            old(self)@.order.len() < MAX_NODES,
            old(self)@.insert_error(*old(node)) is None,
            old(node).parents == Some(parents),
        ensures
            final(self)@ == old(self)@.prepared(*old(node)),
            *final(node) == old(self)@.stored(*old(node)),
    {
        let ghost g = self@;
        let (l, r) = parents;
        proof {
            lemma_insert_wf(g, *node);
            assert(g.order.contains(l));
            let jl = choose|j: int| 0 <= j < g.order.len() && g.order[j] == l;
            assert(g.depth(g.order[jl]) <= jl);
            assert(g.order.contains(r));
            let jr = choose|j: int| 0 <= j < g.order.len() && g.order[j] == r;
            assert(g.depth(g.order[jr]) <= jr);
            lemma_ref_count_bound(g.nodes, g.order, l);
            lemma_ref_count_bound(g.nodes, g.order, r);
        }
        let mut left_parent = *self.nodes.get(&l).unwrap();
        left_parent.metrics.in_reference = left_parent.metrics.in_reference + 1;
        self.nodes.insert(l, left_parent);
        let left_parent_metrics = (left_parent.id, left_parent.metrics);

        let mut right_parent = *self.nodes.get(&r).unwrap();
        right_parent.metrics.in_reference = right_parent.metrics.in_reference + 1;
        self.nodes.insert(r, right_parent);
        let right_parent_metrics = (right_parent.id, right_parent.metrics);
        assert(self@ == g.cited(*node));

        let depth = if left_parent_metrics.1.depth <= right_parent_metrics.1.depth {
            left_parent_metrics.1.depth
        } else {
            right_parent_metrics.1.depth
        };
        node.metrics = TransactionMetrics { depth: depth + 1, in_reference: 0 };

        let has_holder = self.order.len() > 1;
        self.update_last_transaction(node);
        self.update_most_in_reference_transaction(has_holder, left_parent_metrics);
        self.update_most_in_reference_transaction(true, right_parent_metrics);
    }

    /// `node` becomes the last transaction when there is no holder yet or
    /// its timestamp is strictly greater than the holder's.
    fn update_last_transaction(&mut self, node: &Transaction)
        requires
            old(self)@.order.len() >= 1,
            old(self)@.order.len() > 1 ==> old(self)@.nodes.contains_key(
                old(self)@.metrics.last_transaction,
            ),
        ensures
            final(self)@ == old(self)@.with_last(old(self)@.next_last(*node)),
    {
        if self.order.len() == 1
            || self.nodes.get(&self.metrics.last_transaction).unwrap().timestamp < node.timestamp {
            self.metrics.last_transaction = node.id;
        }
    }

    /// The node of `to_compare` (its identifier and metrics) becomes the most
    /// referenced transaction when there is no holder yet or its count is
    /// strictly greater than the holder's.
    fn update_most_in_reference_transaction(
        &mut self,
        has_holder: bool,
        to_compare: (u32, TransactionMetrics),
    )
        requires
            has_holder ==> old(self)@.nodes.contains_key(
                old(self)@.metrics.most_in_reference_transaction,
            ),
        ensures
            final(self)@ == old(self)@.with_most(
                old(self)@.next_most(has_holder, to_compare.0, to_compare.1.in_reference),
            ),
    {
        if !has_holder || self.nodes.get(
            &self.metrics.most_in_reference_transaction,
        ).unwrap().metrics.in_reference < to_compare.1.in_reference {
            self.metrics.most_in_reference_transaction = to_compare.0;
        }
    }
}

/// The transaction that the `i`-th tuple of a batch stands for: it gets
/// the identifier `ROOT_ID + 1 + i`.
pub open spec fn batch_candidate(values: Seq<(u32, u32, u32)>, i: int) -> Transaction {
    Transaction {
        id: (ROOT_ID + 1 + i) as u32,
        timestamp: values[i].2,
        parents: Some((values[i].0, values[i].1)),
        metrics: TransactionMetrics::zero(),
    }
}

/// The outcome of inserting the first `n` tuples of a batch, in order, into
/// a graph sized for the whole batch: the first rejection, or the graph.
pub open spec fn replay(values: Seq<(u32, u32, u32)>, n: nat) -> Result<GraphView, GraphError>
    decreases n,
{
    if n == 0 {
        Ok(GraphView::initial(values.len() as u32))
    } else {
        match replay(values, (n - 1) as nat) {
            Err(e) => Err(e),
            Ok(g) => {
                let t = batch_candidate(values, n - 1);
                match g.insert_error(t) {
                    Some(e) => Err(e),
                    None => Ok(g.insert_result(t)),
                }
            },
        }
    }
}

/// The outcome of building a graph from a whole batch.
pub open spec fn built(values: Seq<(u32, u32, u32)>) -> Result<GraphView, GraphError> {
    replay(values, values.len())
}

/// A rejection ends the batch: later tuples change nothing.
proof fn lemma_replay_err_stays(values: Seq<(u32, u32, u32)>, n: nat, m: nat)
    requires
        n <= m,
        replay(values, n) is Err,
    ensures
        replay(values, m) == replay(values, n),
    decreases m - n,
{
    if n < m {
        lemma_replay_err_stays(values, n, (m - 1) as nat);
    }
}

/// The nodes of a well-formed graph are those of its insertion order.
proof fn lemma_node_count(g: GraphView)
    requires
        g.wf(),
    ensures
        g.nodes.len() == g.order.len(),
{
    assert(g.nodes.dom() =~= g.order.to_set());
    g.order.unique_seq_to_set();
}

/// Every prefix of a batch that was accepted leaves a well-formed graph
/// holding the root and one node per tuple.
proof fn lemma_replay_wf(values: Seq<(u32, u32, u32)>, n: nat)
    requires
        values.len() < MAX_NODES,
        n <= values.len(),
        replay(values, n) is Ok,
    ensures
        replay(values, n)->Ok_0.wf(),
        replay(values, n)->Ok_0.order.len() == n + 1,
    decreases n,
{
    if n == 0 {
        let g = GraphView::initial(values.len() as u32);
        assert(g.order =~= seq![ROOT_ID]);
        assert forall|id: u32| #[trigger] g.nodes.contains_key(id) <==> g.order.contains(id) by {
            if g.order.contains(id) {
                let j = choose|j: int| 0 <= j < g.order.len() && g.order[j] == id;
                assert(j == 0);
            }
            if id == ROOT_ID {
                assert(g.order[0] == id);
            }
        }
        assert(ref_count(g.nodes, g.order.drop_last(), ROOT_ID) == 0);
    } else {
        lemma_replay_wf(values, (n - 1) as nat);
        let g = replay(values, (n - 1) as nat)->Ok_0;
        lemma_insert_wf(g, batch_candidate(values, n - 1));
    }
}

/// Building a graph from a batch that is accepted yields the root plus one
/// node per tuple.
pub proof fn lemma_batch_node_count(values: Seq<(u32, u32, u32)>)
    requires
        values.len() < MAX_NODES,
        built(values) is Ok,
    ensures
        built(values)->Ok_0.nodes.len() == values.len() + 1,
        built(values)->Ok_0.wf(),
{
    lemma_replay_wf(values, values.len());
    lemma_node_count(built(values)->Ok_0);
}

impl Graph {
    /// Builds a graph from a batch of `(left_parent, right_parent, timestamp)`
    /// tuples: the `i`-th tuple becomes transaction `ROOT_ID + 1 + i`, and the
    /// tuples are inserted in order into a graph sized for the batch. The
    /// first rejection is returned and the build abandoned.
    pub fn try_from(values: Vec<(u32, u32, u32)>) -> (r: Result<Graph, GraphError>)
        requires
            values.len() < MAX_NODES,
        ensures
            match (r, built(values@)) {
                (Ok(g), Ok(v)) => g@ == v && g.wf() && g.nodes@.len() == values.len() + 1,
                (Err(e), Err(f)) => e == f,
                _ => false,
            },
    {
        let mut graph = Graph::with_capacity(values.len() as u32);
        let mut i: usize = 0;
        while i < values.len()
            invariant
                0 <= i <= values.len() < MAX_NODES,
                replay(values@, i as nat) == Ok::<GraphView, GraphError>(graph@),
                graph.wf(),
                graph@.order.len() == i + 1,
            decreases values.len() - i,
        {
            let (left_parent, right_parent, timestamp) = values[i];
            let mut node = Transaction::new((i as u32) + 2, left_parent, right_parent, timestamp);
            assert(node == batch_candidate(values@, i as int));
            match graph.add_node(&mut node) {
                Ok(()) => {},
                Err(e) => {
                    proof {
                        lemma_replay_err_stays(values@, (i + 1) as nat, values.len() as nat);
                    }
                    return Err(e);
                },
            }
            i = i + 1;
        }
        proof {
            lemma_node_count(graph@);
        }
        Ok(graph)
    }
}

/// An insertion never changes the depth of a node already in the graph.
pub proof fn lemma_depth_kept(g: GraphView, t: Transaction)
    requires
        g.wf(),
        g.insert_error(t) is None,
    ensures
        forall|id: u32| #[trigger]
            g.nodes.contains_key(id) ==> g.insert_result(t).nodes.contains_key(id)
                && g.insert_result(t).depth(id) == g.depth(id),
{
}

/// Every node's in-reference count is the number of parent slots, over all
/// nodes of the graph, that hold its identifier.
pub proof fn lemma_in_reference_is_citation_count(g: GraphView)
    requires
        g.wf(),
    ensures
        forall|id: u32| #[trigger]
            g.nodes.contains_key(id) ==> g.in_reference(id) == ref_count(g.nodes, g.order, id),
{
}

/// Once a node other than the root is in the graph, `last_transaction` is a
/// node whose timestamp is at least every node's, and every node inserted
/// before it has a strictly smaller timestamp.
pub proof fn lemma_last_transaction_is_latest(g: GraphView)
    requires
        g.wf(),
        g.order.len() > 1,
    ensures
        g.nodes.contains_key(g.metrics.last_transaction),
        forall|id: u32| #[trigger]
            g.nodes.contains_key(id) ==> g.timestamp(id) <= g.timestamp(
                g.metrics.last_transaction,
            ),
        exists|k: int|
            1 <= k < g.order.len() && g.order[k] == g.metrics.last_transaction && forall|j: int|
                1 <= j < k ==> #[trigger] g.timestamp(g.order[j]) < g.timestamp(
                    g.metrics.last_transaction,
                ),
{
    let k = choose|k: int| g.is_last_at(k);
    assert(g.order.contains(g.order[k]));
    assert forall|id: u32| #[trigger] g.nodes.contains_key(id) implies g.timestamp(id)
        <= g.timestamp(g.metrics.last_transaction) by {
        assert(g.order.contains(id));
        let j = choose|j: int| 0 <= j < g.order.len() && g.order[j] == id;
        if j > 0 {
            assert(g.timestamp(g.order[j]) <= g.timestamp(g.order[k]));
        }
    }
}

/// Once a node other than the root is in the graph,
/// `most_in_reference_transaction` is a node whose in-reference count is at
/// least every node's.
pub proof fn lemma_most_referenced_is_maximal(g: GraphView)
    requires
        g.wf(),
        g.order.len() > 1,
    ensures
        g.nodes.contains_key(g.metrics.most_in_reference_transaction),
        forall|id: u32| #[trigger]
            g.nodes.contains_key(id) ==> g.in_reference(id) <= g.in_reference(
                g.metrics.most_in_reference_transaction,
            ),
{
}

/// Across an insertion, the most referenced transaction is taken over only
/// by a parent of the new node whose count then strictly exceeds the
/// former holder's; a parent that merely ties leaves the holder in place.
pub proof fn lemma_most_referenced_first_wins(g: GraphView, t: Transaction)
    requires
        g.wf(),
        g.insert_error(t) is None,
        1 < g.order.len() < MAX_NODES,
    ensures
        ({
            let h = g.insert_result(t);
            let m = g.metrics.most_in_reference_transaction;
            let m2 = h.metrics.most_in_reference_transaction;
            &&& m2 != m ==> (m2 == left_parent(t) || m2 == right_parent(t)) && h.in_reference(m2)
                > h.in_reference(m)
            &&& h.in_reference(left_parent(t)) <= h.in_reference(m) && h.in_reference(
                right_parent(t),
            ) <= h.in_reference(m) ==> m2 == m
        }),
{
    let h = g.insert_result(t);
    let l = left_parent(t);
    let r = right_parent(t);
    let m = g.metrics.most_in_reference_transaction;
    let c = g.cited(t);
    assert(g.nodes.contains_key(l) && g.nodes.contains_key(r) && !g.nodes.contains_key(t.id));
    assert(h.nodes[l] == c.nodes[l] && h.nodes[r] == c.nodes[r] && h.nodes[m] == c.nodes[m]);
    lemma_ref_count_bound(g.nodes, g.order, l);
    lemma_ref_count_bound(g.nodes, g.order, r);
    assert(g.bump(l).in_reference(l) <= c.in_reference(l));
}

} // verus!
