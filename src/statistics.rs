//! The statistics engine: read-only measures over a finished graph.
//!
//! Averages are given as exact fractions; turning one into a decimal is
//! left to whoever displays it.
use std::collections::HashSet;
use vstd::prelude::*;

use crate::graph::{Graph, GraphView};

verus! {

broadcast use vstd::std_specs::hash::group_hash_axioms;

/// Width of a timestamp bucket.
pub const TIMESTAMP_RANGE: u32 = 10;

/// An exact fraction `numerator / denominator`; the denominator may be `0`
/// when there is nothing to average over.
#[derive(Debug, Clone, Copy, PartialEq, Eq)]
pub struct Ratio {
    pub numerator: u64,
    pub denominator: u64,
}

/// The statistics of a graph.
///
/// - `average_depth`: sum of all depths over the declared capacity.
/// - `average_nodes_by_depth`: non-root nodes over the number of distinct
///   depths among them.
/// - `average_in_references`: sum of all in-reference counts over the
///   declared capacity.
/// - `last_transaction`, `most_referenced_transaction`: the rollup metrics.
/// - `range_timestamps`: `(bucket, count)` for every non-empty bucket of
///   width `TIMESTAMP_RANGE`, by ascending bucket.
#[derive(Debug, PartialEq, Eq)]
pub struct Statistics {
    pub average_depth: Ratio,
    pub average_nodes_by_depth: Ratio,
    pub average_in_references: Ratio,
    pub last_transaction: u32,
    pub most_referenced_transaction: u32,
    pub range_timestamps: Vec<(u32, u64)>,
}

/// Sum of the depths of the nodes `ids`.
pub open spec fn depth_sum(g: GraphView, ids: Seq<u32>) -> nat
    decreases ids.len(),
{
    if ids.len() == 0 {
        0
    } else {
        depth_sum(g, ids.drop_last()) + g.depth(ids.last()) as nat
    }
}

/// Sum of the in-reference counts of the nodes `ids`.
pub open spec fn in_reference_sum(g: GraphView, ids: Seq<u32>) -> nat
    decreases ids.len(),
{
    if ids.len() == 0 {
        0
    } else {
        in_reference_sum(g, ids.drop_last()) + g.in_reference(ids.last()) as nat
    }
}

/// The nodes other than the root.
pub open spec fn non_root(g: GraphView) -> Seq<u32> {
    g.order.drop_first()
}

/// The distinct depths of the nodes `ids`.
pub open spec fn levels_of(g: GraphView, ids: Seq<u32>) -> Set<u32> {
    ids.map_values(|id: u32| g.depth(id)).to_set()
}

/// The distinct depths among the nodes other than the root.
pub open spec fn depth_levels(g: GraphView) -> Set<u32> {
    levels_of(g, non_root(g))
}

/// The bucket of a timestamp.
pub open spec fn bucket(ts: u32) -> u32 {
    ts / TIMESTAMP_RANGE
}

/// How many of the nodes `ids` have their timestamp in bucket `b`.
pub open spec fn bucket_count(g: GraphView, ids: Seq<u32>, b: u32) -> nat
    decreases ids.len(),
{
    if ids.len() == 0 {
        0
    } else {
        bucket_count(g, ids.drop_last(), b) + if bucket(g.timestamp(ids.last())) == b {
            1nat
        } else {
            0nat
        }
    }
}

/// `h` lists its buckets in strictly ascending order.
pub open spec fn ascending(h: Seq<(u32, u64)>) -> bool {
    forall|i: int, j: int| 0 <= i < j < h.len() ==> h[i].0 < h[j].0
}

/// `h` has an entry for bucket `b`.
pub open spec fn has_bucket(h: Seq<(u32, u64)>, b: u32) -> bool {
    exists|i: int| 0 <= i < h.len() && h[i].0 == b
}

/// `h` is the histogram of the timestamps of the nodes `ids`: ascending,
/// one entry with its exact count for every non-empty bucket, no other.
pub open spec fn is_histogram(g: GraphView, ids: Seq<u32>, h: Seq<(u32, u64)>) -> bool {
    &&& ascending(h)
    &&& forall|i: int|
        0 <= i < h.len() ==> #[trigger] h[i].1 == bucket_count(g, ids, h[i].0) && h[i].1 > 0
    &&& forall|b: u32| #[trigger] bucket_count(g, ids, b) > 0 ==> has_bucket(h, b)
}

/// The statistics that `s` gives are those of `g`.
pub open spec fn describes(s: Statistics, g: GraphView) -> bool {
    &&& s.average_depth == (Ratio {
        numerator: depth_sum(g, g.order) as u64,
        denominator: g.num_nodes as u64,
    })
    &&& s.average_nodes_by_depth == (Ratio {
        numerator: non_root(g).len() as u64,
        denominator: depth_levels(g).len() as u64,
    })
    &&& s.average_in_references == (Ratio {
        numerator: in_reference_sum(g, g.order) as u64,
        denominator: g.num_nodes as u64,
    })
    &&& s.last_transaction == g.metrics.last_transaction
    &&& s.most_referenced_transaction == g.metrics.most_in_reference_transaction
    &&& is_histogram(g, g.order, s.range_timestamps@)
}

proof fn lemma_take_step(s: Seq<u32>, i: int)
    requires
        0 <= i < s.len(),
    ensures
        s.take(i + 1).drop_last() == s.take(i),
        s.take(i + 1).last() == s[i],
{
    assert(s.take(i + 1).drop_last() =~= s.take(i));
}

proof fn lemma_levels_push(g: GraphView, ids: Seq<u32>, id: u32)
    ensures
        levels_of(g, ids.push(id)) == levels_of(g, ids).insert(g.depth(id)),
{
    let f = |x: u32| g.depth(x);
    assert(ids.push(id).map_values(f) =~= ids.map_values(f).push(g.depth(id)));
    assert(levels_of(g, ids.push(id)) =~= levels_of(g, ids).insert(g.depth(id))) by {
        assert forall|d: u32| levels_of(g, ids).insert(g.depth(id)).contains(d) implies levels_of(
            g,
            ids.push(id),
        ).contains(d) by {
            if d == g.depth(id) {
                assert(ids.push(id).map_values(f)[ids.len() as int] == d);
            } else {
                let k = choose|k: int| 0 <= k < ids.len() && ids.map_values(f)[k] == d;
                assert(ids.push(id).map_values(f)[k] == d);
            }
        }
    }
}

impl Graph {
    /// Sum of the depths of all nodes, root included, over the declared
    /// capacity.
    pub fn average_depth(&self) -> (r: Ratio)
        requires
            self.wf(),
        ensures
            r == (Ratio {
                numerator: depth_sum(self@, self@.order) as u64,
                denominator: self.num_nodes as u64,
            }),
    {
        let ghost g = self@;
        let mut sum: u64 = 0;
        let mut i: usize = 0;
        while i < self.order.len()
            invariant
                g == self@,
                g.wf(),
                0 <= i <= g.order.len(),
                sum == depth_sum(g, g.order.take(i as int)),
                sum <= i * 0x8000_0000,
            decreases g.order.len() - i,
        {
            let id = self.order[i];
            proof {
                lemma_take_step(g.order, i as int);
                assert(g.order.contains(id));
                assert(g.depth(g.order[i as int]) <= i);
            }
            let depth = self.nodes.get(&id).unwrap().metrics.depth;
            sum = sum + depth as u64;
            i = i + 1;
        }
        assert(g.order.take(i as int) =~= g.order);
        Ratio { numerator: sum, denominator: self.num_nodes as u64 }
    }

    /// Number of nodes other than the root over the number of distinct
    /// depths among them.
    pub fn average_nodes_by_depth(&self) -> (r: Ratio)
        requires
            self.wf(),
        ensures
            r == (Ratio {
                numerator: non_root(self@).len() as u64,
                denominator: depth_levels(self@).len() as u64,
            }),
    {
        let ghost g = self@;
        let mut levels: HashSet<u32> = HashSet::new();
        let mut count: u64 = 0;
        let mut i: usize = 1;
        assert(g.order.subrange(1, 1) =~= Seq::<u32>::empty());
        assert(levels_of(g, Seq::<u32>::empty()) =~= Set::<u32>::empty());
        while i < self.order.len()
            invariant
                g == self@,
                g.wf(),
                1 <= i <= g.order.len(),
                levels@ == levels_of(g, g.order.subrange(1, i as int)),
                count == i - 1,
            decreases g.order.len() - i,
        {
            let id = self.order[i];
            proof {
                assert(g.order.contains(id));
                assert(g.order.subrange(1, i + 1) =~= g.order.subrange(1, i as int).push(id));
                lemma_levels_push(g, g.order.subrange(1, i as int), id);
            }
            let depth = self.nodes.get(&id).unwrap().metrics.depth;
            levels.insert(depth);
            count = count + 1;
            i = i + 1;
        }
        assert(g.order.subrange(1, i as int) =~= non_root(g));
        Ratio { numerator: count, denominator: levels.len() as u64 }
    }

    /// Sum of the in-reference counts of all nodes over the declared
    /// capacity.
    pub fn average_in_references(&self) -> (r: Ratio)
        requires
            self.wf(),
        ensures
            r == (Ratio {
                numerator: in_reference_sum(self@, self@.order) as u64,
                denominator: self.num_nodes as u64,
            }),
    {
        let ghost g = self@;
        let mut sum: u64 = 0;
        let mut i: usize = 0;
        while i < self.order.len()
            invariant
                g == self@,
                g.wf(),
                0 <= i <= g.order.len(),
                sum == in_reference_sum(g, g.order.take(i as int)),
                sum <= i * 0x1_0000_0000,
            decreases g.order.len() - i,
        {
            let id = self.order[i];
            proof {
                lemma_take_step(g.order, i as int);
                assert(g.order.contains(id));
            }
            let in_reference = self.nodes.get(&id).unwrap().metrics.in_reference;
            sum = sum + in_reference as u64;
            i = i + 1;
        }
        assert(g.order.take(i as int) =~= g.order);
        Ratio { numerator: sum, denominator: self.num_nodes as u64 }
    }
}

/// One more node in bucket `b` adds one to that bucket's count only.
proof fn lemma_bucket_count_step(g: GraphView, ids: Seq<u32>, i: int, b: u32)
    requires
        0 <= i < ids.len(),
    ensures
        bucket_count(g, ids.take(i + 1), b) == bucket_count(g, ids.take(i), b) + if bucket(
            g.timestamp(ids[i]),
        ) == b {
            1nat
        } else {
            0nat
        },
{
    lemma_take_step(ids, i);
}

proof fn lemma_bucket_count_bound(g: GraphView, ids: Seq<u32>, b: u32)
    ensures
        bucket_count(g, ids, b) <= ids.len(),
    decreases ids.len(),
{
    if ids.len() > 0 {
        lemma_bucket_count_bound(g, ids.drop_last(), b);
    }
}

/// Two ascending histograms with the same buckets, and the same count for
/// each, are the same.
proof fn lemma_histogram_unique(a: Seq<(u32, u64)>, c: Seq<(u32, u64)>)
    requires
        ascending(a),
        ascending(c),
        forall|b: u32| has_bucket(a, b) <==> has_bucket(c, b),
        forall|i: int, j: int|
            0 <= i < a.len() && 0 <= j < c.len() && a[i].0 == c[j].0 ==> a[i].1 == c[j].1,
    ensures
        a == c,
    decreases a.len(),
{
    if a.len() == 0 {
        if c.len() > 0 {
            assert(has_bucket(c, c[0].0));
        }
        assert(a =~= c);
    } else {
        assert(has_bucket(a, a[0].0));
        let j = choose|j: int| 0 <= j < c.len() && c[j].0 == a[0].0;
        assert(has_bucket(c, c[0].0));
        let k = choose|k: int| 0 <= k < a.len() && a[k].0 == c[0].0;
        assert(j == 0) by {
            if j > 0 {
                assert(c[0].0 < c[j].0);
                if k > 0 {
                    assert(a[0].0 < a[k].0);
                }
            }
        }
        let a1 = a.drop_first();
        let c1 = c.drop_first();
        assert forall|b: u32| has_bucket(a1, b) <==> has_bucket(c1, b) by {
            if has_bucket(a1, b) {
                let i = choose|i: int| 0 <= i < a1.len() && a1[i].0 == b;
                assert(a[i + 1].0 == b && a[0].0 < b);
                assert(has_bucket(a, b));
                let m = choose|m: int| 0 <= m < c.len() && c[m].0 == b;
                assert(m != 0);
                assert(c1[m - 1].0 == b);
            }
            if has_bucket(c1, b) {
                let i = choose|i: int| 0 <= i < c1.len() && c1[i].0 == b;
                assert(c[i + 1].0 == b && c[0].0 < b);
                assert(has_bucket(c, b));
                let m = choose|m: int| 0 <= m < a.len() && a[m].0 == b;
                assert(m != 0);
                assert(a1[m - 1].0 == b);
            }
        }
        assert forall|i: int, j: int|
            0 <= i < a1.len() && 0 <= j < c1.len() && a1[i].0 == c1[j].0 implies a1[i].1
            == c1[j].1 by {
            assert(a[i + 1].0 == c[j + 1].0);
        }
        lemma_histogram_unique(a1, c1);
        assert(a =~= c) by {
            assert forall|i: int| 0 <= i < a.len() implies a[i] == c[i] by {
                if i > 0 {
                    assert(a[i] == a1[i - 1]);
                }
            }
        }
    }
}

impl Graph {
    /// The number of nodes in each non-empty timestamp bucket, as
    /// `(bucket, count)` pairs by ascending bucket.
    pub fn range_timestamps(&self) -> (h: Vec<(u32, u64)>)
        requires
            self.wf(),
        ensures
            is_histogram(self@, self@.order, h@),
    {
        let ghost g = self@;
        let mut h: Vec<(u32, u64)> = Vec::new();
        let mut i: usize = 0;
        while i < self.order.len()
            invariant
                g == self@,
                g.wf(),
                0 <= i <= g.order.len(),
                is_histogram(g, g.order.take(i as int), h@),
            decreases g.order.len() - i,
        {
            let ghost before = h@;
            let ghost ids = g.order.take(i as int);
            let ghost next = g.order.take(i + 1);
            let id = self.order[i];
            proof {
                assert(g.order.contains(id));
            }
            let b = self.nodes.get(&id).unwrap().timestamp / TIMESTAMP_RANGE;
            proof {
                assert forall|x: u32| #[trigger] bucket_count(g, next, x) == bucket_count(g, ids, x)
                    + if x == b {
                    1nat
                } else {
                    0nat
                } by {
                    lemma_bucket_count_step(g, g.order, i as int, x);
                }
                lemma_bucket_count_bound(g, next, b);
            }
            let mut pos: usize = 0;
            while pos < h.len() && h[pos].0 < b
                invariant
                    h@ == before,
                    0 <= pos <= h.len(),
                    forall|k: int| 0 <= k < pos ==> h@[k].0 < b,
                decreases h.len() - pos,
            {
                pos = pos + 1;
            }
            if pos < h.len() && h[pos].0 == b {
                let count = h[pos].1;
                h.set(pos, (b, count + 1));
                proof {
                    assert forall|b2: u32| #[trigger]
                        bucket_count(g, next, b2) > 0 implies has_bucket(h@, b2) by {
                        if b2 != b {
                            assert(has_bucket(before, b2));
                            let k = choose|k: int| 0 <= k < before.len() && before[k].0 == b2;
                            assert(h@[k].0 == b2);
                        } else {
                            assert(h@[pos as int].0 == b2);
                        }
                    }
                }
            } else {
                h.insert(pos, (b, 1));
                proof {
                    assert(bucket_count(g, ids, b) == 0) by {
                        if bucket_count(g, ids, b) > 0 {
                            let k = choose|k: int| 0 <= k < before.len() && before[k].0 == b;
                            if k >= pos {
                                if k > pos {
                                    assert(before[pos as int].0 < before[k].0);
                                }
                            }
                        }
                    }
                    assert forall|k1: int, k2: int| 0 <= k1 < k2 < h@.len() implies h@[k1].0
                        < h@[k2].0 by {
                        if k1 < pos && k2 > pos {
                            assert(before[k2 - 1].0 > b) by {
                                if k2 - 1 > pos {
                                    assert(before[pos as int].0 < before[k2 - 1].0);
                                }
                            }
                        } else if k1 > pos {
                            assert(before[k1 - 1].0 < before[k2 - 1].0);
                        } else if k1 == pos {
                            assert(before[k2 - 1].0 > b) by {
                                if k2 - 1 > pos {
                                    assert(before[pos as int].0 < before[k2 - 1].0);
                                }
                            }
                        } else if k2 < pos {
                            assert(h@[k1] == before[k1] && h@[k2] == before[k2]);
                        } else {
                            assert(h@[k1] == before[k1]);
                        }
                    }
                    assert forall|k: int| 0 <= k < h@.len() implies #[trigger] h@[k].1
                        == bucket_count(g, next, h@[k].0) && h@[k].1 > 0 by {
                        if k < pos {
                            assert(h@[k] == before[k]);
                        } else if k > pos {
                            assert(h@[k] == before[k - 1]);
                            assert(before[k - 1].0 != b) by {
                                if k - 1 > pos {
                                    assert(before[pos as int].0 < before[k - 1].0);
                                }
                            }
                        }
                    }
                    assert forall|b2: u32| #[trigger]
                        bucket_count(g, next, b2) > 0 implies has_bucket(h@, b2) by {
                        if b2 != b {
                            assert(has_bucket(before, b2));
                            let k = choose|k: int| 0 <= k < before.len() && before[k].0 == b2;
                            if k < pos {
                                assert(h@[k].0 == b2);
                            } else {
                                assert(h@[k + 1].0 == b2);
                            }
                        } else {
                            assert(h@[pos as int].0 == b2);
                        }
                    }
                }
            }
            i = i + 1;
        }
        assert(g.order.take(i as int) =~= g.order);
        h
    }
}

/// The statistics of `graph`: the three averages as exact fractions, the
/// rollup metrics as the graph holds them, and the timestamp histogram.
pub fn stats(graph: &Graph) -> (s: Statistics)
    requires
        graph.wf(),
    ensures
        describes(s, graph@),
{
    let average_depth = graph.average_depth();
    let average_nodes_by_depth = graph.average_nodes_by_depth();
    let average_in_references = graph.average_in_references();
    let range_timestamps = graph.range_timestamps();
    Statistics {
        average_depth,
        average_nodes_by_depth,
        average_in_references,
        last_transaction: graph.metrics.last_transaction,
        most_referenced_transaction: graph.metrics.most_in_reference_transaction,
        range_timestamps,
    }
}

/// Statistics are a function of the graph: any two records that describe
/// the same graph are identical, field by field.
pub proof fn lemma_stats_reproducible(g: GraphView, s1: Statistics, s2: Statistics)
    requires
        describes(s1, g),
        describes(s2, g),
    ensures
        s1.average_depth == s2.average_depth,
        s1.average_nodes_by_depth == s2.average_nodes_by_depth,
        s1.average_in_references == s2.average_in_references,
        s1.last_transaction == s2.last_transaction,
        s1.most_referenced_transaction == s2.most_referenced_transaction,
        s1.range_timestamps@ == s2.range_timestamps@,
{
    let a = s1.range_timestamps@;
    let c = s2.range_timestamps@;
    assert forall|b: u32| has_bucket(a, b) <==> has_bucket(c, b) by {
        if has_bucket(a, b) {
            let i = choose|i: int| 0 <= i < a.len() && a[i].0 == b;
            assert(a[i].1 > 0);
        }
        if has_bucket(c, b) {
            let i = choose|i: int| 0 <= i < c.len() && c[i].0 == b;
            assert(c[i].1 > 0);
        }
    }
    assert forall|i: int, j: int|
        0 <= i < a.len() && 0 <= j < c.len() && a[i].0 == c[j].0 implies a[i].1 == c[j].1 by {
        assert(a[i].1 == bucket_count(g, g.order, a[i].0));
        assert(c[j].1 == bucket_count(g, g.order, c[j].0));
    }
    lemma_histogram_unique(a, c);
}

} // verus!
