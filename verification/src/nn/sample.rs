//! Picking nodes and connections: by rank, and at random.
use rand::Rng;
use vstd::prelude::*;
use crate::nn::addressable;
use crate::nn::has_node;
use crate::nn::lemma_layer_view_update;
use crate::nn::lemma_layers_view_update;
use crate::nn::node_at;
use crate::nn::with_connections;
use crate::nn::GraphEdge;
use crate::nn::GraphLocation;
use crate::nn::GraphSize;
use crate::nn::Layers;
use crate::nn::NeuralGraph;
use crate::nn::GRAPH_LIMIT;

verus! {

/// The number of nodes in the layers `lo` to `hi - 1` of `g`.
pub open spec fn nodes_between(g: Layers, lo: int, hi: int) -> int
    decreases hi - lo,
{
    if lo >= hi || lo >= g.len() || lo < 0 {
        0
    } else {
        g[lo].len() + nodes_between(g, lo + 1, hi)
    }
}

/// The location of the node of rank `k` among the nodes in the layers `lo`
/// to `hi - 1` of `g`, counted layer by layer from rank `0`.
pub open spec fn nth_node(g: Layers, lo: int, hi: int, k: int) -> GraphLocation
    decreases hi - lo,
{
    if lo >= hi || lo >= g.len() || lo < 0 {
        GraphLocation { layer: 0, node: 0 }
    } else if k < g[lo].len() {
        GraphLocation { layer: lo as GraphSize, node: k as GraphSize }
    } else {
        nth_node(g, lo + 1, hi, k - g[lo].len())
    }
}

/// The number of connections that leave the nodes of `g` from the node at
/// layer `l`, index `n` on, counted layer by layer.
pub open spec fn edges_from(g: Layers, l: int, n: int) -> int
    decreases g.len() - l, (if 0 <= l < g.len() {
        g[l].len() - n
    } else {
        0
    }),
{
    if l >= g.len() || l < 0 || n < 0 {
        0
    } else if n >= g[l].len() {
        edges_from(g, l + 1, 0)
    } else {
        g[l][n].connections.len() + edges_from(g, l, n + 1)
    }
}

/// The connection of rank `k` among those that leave the nodes of `g` from
/// the node at layer `l`, index `n` on: the location of its source, and its
/// index among the connections of its source.
pub open spec fn nth_edge(g: Layers, l: int, n: int, k: int) -> (GraphLocation, int)
    decreases g.len() - l, (if 0 <= l < g.len() {
        g[l].len() - n
    } else {
        0
    }),
{
    if l >= g.len() || l < 0 || n < 0 {
        (GraphLocation { layer: 0, node: 0 }, 0)
    } else if n >= g[l].len() {
        nth_edge(g, l + 1, 0, k)
    } else if k < g[l][n].connections.len() {
        (GraphLocation { layer: l as GraphSize, node: n as GraphSize }, k)
    } else {
        nth_edge(g, l, n + 1, k - g[l][n].connections.len())
    }
}

/// The number of connections of `g`.
pub open spec fn edge_count(g: Layers) -> int {
    edges_from(g, 0, 0)
}

/// Counts are not negative, and the nodes in a range of layers are at most
/// as many as locations can tell apart.
pub proof fn lemma_nodes_between(g: Layers, lo: int, hi: int)
    requires
        addressable(g),
    ensures
        0 <= nodes_between(g, lo, hi),
        0 <= lo <= hi <= g.len() ==> nodes_between(g, lo, hi) <= (hi - lo) * GRAPH_LIMIT,
    decreases hi - lo,
{
    if !(lo >= hi || lo >= g.len() || lo < 0) {
        lemma_nodes_between(g, lo + 1, hi);
        assert(g[lo].len() <= GRAPH_LIMIT);
        assert((hi - lo) * GRAPH_LIMIT == (hi - lo - 1) * GRAPH_LIMIT + GRAPH_LIMIT)
            by (nonlinear_arith);
    }
}

/// A rank below the count names a node that the graph holds, in one of the
/// layers counted.
pub proof fn lemma_nth_node(g: Layers, lo: int, hi: int, k: int)
    requires
        addressable(g),
        0 <= lo,
        hi <= g.len(),
        0 <= k < nodes_between(g, lo, hi),
    ensures
        has_node(g, nth_node(g, lo, hi, k)),
        lo <= nth_node(g, lo, hi, k).layer < hi,
    decreases hi - lo,
{
    if !(lo >= hi || lo >= g.len() || lo < 0) {
        if k >= g[lo].len() {
            lemma_nth_node(g, lo + 1, hi, k - g[lo].len());
        } else {
            assert(g[lo].len() <= GRAPH_LIMIT);
        }
    }
}

/// Every node in the layers counted has a rank below the count, and that
/// rank names it: its index plus the number of nodes in the layers in
/// front of it.
pub proof fn lemma_node_rank(g: Layers, lo: int, hi: int, loc: GraphLocation)
    requires
        addressable(g),
        0 <= lo <= loc.layer < hi <= g.len(),
        has_node(g, loc),
    ensures
        0 <= nodes_between(g, lo, loc.layer as int) + loc.node < nodes_between(g, lo, hi),
        nth_node(g, lo, hi, nodes_between(g, lo, loc.layer as int) + loc.node) == loc,
    decreases hi - lo,
{
    if lo < loc.layer {
        lemma_node_rank(g, lo + 1, hi, loc);
        lemma_nodes_between(g, lo + 1, loc.layer as int);
    } else {
        lemma_nodes_between(g, lo + 1, hi);
        assert(nodes_between(g, lo, lo) == 0);
    }
}

/// The count of connections is not negative.
pub proof fn lemma_edges_from(g: Layers, l: int, n: int)
    ensures
        0 <= edges_from(g, l, n),
    decreases g.len() - l, (if 0 <= l < g.len() {
        g[l].len() - n
    } else {
        0
    }),
{
    if !(l >= g.len() || l < 0 || n < 0) {
        if n >= g[l].len() {
            lemma_edges_from(g, l + 1, 0);
        } else {
            lemma_edges_from(g, l, n + 1);
        }
    }
}

/// A rank below the count names a connection that the graph holds.
pub proof fn lemma_nth_edge(g: Layers, l: int, n: int, k: int)
    requires
        addressable(g),
        0 <= l,
        0 <= n,
        0 <= k < edges_from(g, l, n),
    ensures
        has_node(g, nth_edge(g, l, n, k).0),
        0 <= nth_edge(g, l, n, k).1 < node_at(g, nth_edge(g, l, n, k).0).connections.len(),
    decreases g.len() - l, (if 0 <= l < g.len() {
        g[l].len() - n
    } else {
        0
    }),
{
    if !(l >= g.len() || l < 0 || n < 0) {
        if n >= g[l].len() {
            lemma_nth_edge(g, l + 1, 0, k);
        } else if k >= g[l][n].connections.len() {
            lemma_nth_edge(g, l, n + 1, k - g[l][n].connections.len());
        } else {
            assert(g[l].len() <= GRAPH_LIMIT);
        }
    }
}

/// The rank of connection `k` of the node at `loc`, counted from the node
/// at layer `l`, index `n` on: its index plus the number of connections
/// that leave the nodes in front of `loc`.
pub open spec fn edge_rank(g: Layers, l: int, n: int, loc: GraphLocation, k: int) -> int {
    edges_from(g, l, n) - edges_from(g, loc.layer as int, loc.node as int) + k
}

/// Every connection has a rank below the count, and that rank names it.
pub proof fn lemma_edge_rank(g: Layers, l: int, n: int, loc: GraphLocation, k: int)
    requires
        addressable(g),
        0 <= l,
        0 <= n,
        has_node(g, loc),
        l < loc.layer || (l == loc.layer && n <= loc.node),
        0 <= k < node_at(g, loc).connections.len(),
    ensures
        0 <= edge_rank(g, l, n, loc, k) < edges_from(g, l, n),
        nth_edge(g, l, n, edge_rank(g, l, n, loc, k)) == (loc, k),
    decreases g.len() - l, (if 0 <= l < g.len() {
        g[l].len() - n
    } else {
        0
    }),
{
    lemma_edges_from(g, loc.layer as int, loc.node as int + 1);
    if l == loc.layer && n == loc.node {
    } else if n >= g[l].len() {
        lemma_edge_rank(g, l + 1, 0, loc, k);
    } else {
        lemma_edge_rank(g, l, n + 1, loc, k);
    }
}

/// A number below `n`, from `rand::Rng::gen_range` on the thread-local
/// generator with the range `0..n`. The contract claims only that the
/// number is in that range. The call does not return for an empty range,
/// which `requires` leaves out.
#[verifier::external_body]
pub(crate) fn random_below(n: u128) -> (r: u128)
    requires
        0 < n,
    ensures
        r < n,
{
    rand::thread_rng().gen_range(0..n)
}

/// A coin flip, from `rand::random`. Nothing is claimed of the outcome.
#[verifier::external_body]
pub(crate) fn random_flag() -> (r: bool) {
    rand::random::<bool>()
}

impl NeuralGraph {
    /// The number of nodes in the layers `lo` to `hi - 1`.
    pub fn count_nodes(&self, lo: usize, hi: usize) -> (r: u128)
        requires
            addressable(self@),
        ensures
            r == nodes_between(self@, lo as int, hi as int),
    {
        let end = if hi < self.layers.len() {
            hi
        } else {
            self.layers.len()
        };
        let mut total: u128 = 0;
        let mut l: usize = lo;
        proof {
            lemma_count_clamped(self@, lo as int, hi as int);
        }
        while l < end
            invariant
                addressable(self@),
                end <= self.layers.len(),
                lo <= l,
                l <= end || l == lo,
                total + nodes_between(self@, l as int, end as int) == nodes_between(
                    self@,
                    lo as int,
                    end as int,
                ),
                total <= (l - lo) * GRAPH_LIMIT,
            decreases end - l,
        {
            proof {
                assert(self@[l as int].len() <= GRAPH_LIMIT);
                assert((l + 1 - lo) * GRAPH_LIMIT == (l - lo) * GRAPH_LIMIT + GRAPH_LIMIT)
                    by (nonlinear_arith);
                assert((l - lo) * GRAPH_LIMIT <= GRAPH_LIMIT * GRAPH_LIMIT) by (nonlinear_arith)
                    requires
                        0 <= l - lo <= GRAPH_LIMIT,
                ;
            }
            total = total + self.layers[l].len() as u128;
            l += 1;
        }
        total
    }

    /// The node of rank `k` among the nodes in the layers `lo` to `hi - 1`,
    /// counted layer by layer from rank `0`.
    pub fn node_by_rank(&self, lo: usize, hi: usize, k: u128) -> (r: GraphLocation)
        requires
            addressable(self@),
            k < nodes_between(self@, lo as int, hi as int),
        ensures
            r == nth_node(self@, lo as int, hi as int, k as int),
            has_node(self@, r),
            lo <= r.layer < hi,
    {
        let end = if hi < self.layers.len() {
            hi
        } else {
            self.layers.len()
        };
        let mut rest: u128 = k;
        let mut l: usize = lo;
        proof {
            lemma_count_clamped(self@, lo as int, hi as int);
            lemma_nth_clamped(self@, lo as int, hi as int, k as int);
            lemma_nth_node(self@, lo as int, end as int, k as int);
        }
        while l < end
            invariant
                addressable(self@),
                end <= self.layers.len(),
                lo <= l,
                end <= hi,
                rest < nodes_between(self@, l as int, end as int),
                nth_node(self@, l as int, end as int, rest as int) == nth_node(
                    self@,
                    lo as int,
                    end as int,
                    k as int,
                ),
                nth_node(self@, lo as int, end as int, k as int) == nth_node(
                    self@,
                    lo as int,
                    hi as int,
                    k as int,
                ),
            decreases end - l,
        {
            let width = self.layers[l].len() as u128;
            if rest < width {
                proof {
                    assert(self@[l as int].len() <= GRAPH_LIMIT);
                }
                return GraphLocation { layer: l as GraphSize, node: rest as GraphSize };
            }
            rest = rest - width;
            l += 1;
        }
        GraphLocation { layer: 0, node: 0 }
    }

    /// A node drawn from the layers `lo` to `hi - 1`, each node of them as
    /// likely as any other; nothing if they hold no node.
    fn random_from(&self, lo: usize, hi: usize) -> (r: Option<GraphLocation>)
        requires
            addressable(self@),
        ensures
            r is None <==> nodes_between(self@, lo as int, hi as int) == 0,
            r matches Some(loc) ==> has_node(self@, loc) && lo <= loc.layer < hi,
    {
        let count = self.count_nodes(lo, hi);
        if count == 0 {
            return None;
        }
        let k = random_below(count);
        Some(self.node_by_rank(lo, hi, k))
    }

    /// A node drawn from the input layer and the hidden layers, or nothing
    /// if they hold no node.
    pub fn random_input_or_hidden(&self) -> (r: Option<GraphLocation>)
        requires
            addressable(self@),
        ensures
            r is None <==> nodes_between(self@, 0, self@.len() - 1) == 0,
            r matches Some(loc) ==> has_node(self@, loc) && loc.layer < self@.len() - 1,
    {
        let count = self.layers.len();
        if count == 0 {
            return None;
        }
        self.random_from(0, count - 1)
    }

    /// A node drawn from the layers behind layer `greater_than`, or behind
    /// the first layer where none is given; nothing if they hold no node.
    pub fn random_output_or_hidden(&self, greater_than: Option<GraphSize>) -> (r: Option<
        GraphLocation,
    >)
        requires
            addressable(self@),
        ensures
            r is None <==> nodes_between(
                self@,
                first_behind(greater_than),
                self@.len() as int,
            ) == 0,
            r matches Some(loc) ==> has_node(self@, loc) && first_behind(greater_than)
                <= loc.layer,
    {
        let lo: usize = match greater_than {
            Some(layer) => layer as usize + 1,
            None => 1,
        };
        self.random_from(lo, self.layers.len())
    }

    /// A node drawn from the hidden layers, or nothing if they hold no
    /// node.
    pub fn random_hidden(&self) -> (r: Option<GraphLocation>)
        requires
            addressable(self@),
        ensures
            r is None <==> nodes_between(self@, 1, self@.len() - 1) == 0,
            r matches Some(loc) ==> has_node(self@, loc) && 1 <= loc.layer < self@.len() - 1,
    {
        let count = self.layers.len();
        if count == 0 {
            return None;
        }
        self.random_from(1, count - 1)
    }

    /// The number of connections of the graph.
    pub fn count_edges(&self) -> (r: u128)
        requires
            addressable(self@),
        ensures
            r == edge_count(self@),
    {
        let mut total: u128 = 0;
        let mut l: usize = 0;
        while l < self.layers.len()
            invariant
                addressable(self@),
                l <= self.layers.len(),
                total + edges_from(self@, l as int, 0) == edges_from(self@, 0, 0),
                total <= l * GRAPH_LIMIT * usize::MAX,
            decreases self.layers.len() - l,
        {
            let row = &self.layers[l];
            let ghost base = total;
            let mut n: usize = 0;
            proof {
                assert(self@[l as int].len() <= GRAPH_LIMIT);
            }
            while n < row.len()
                invariant
                    addressable(self@),
                    l < self.layers.len(),
                    row == self.layers[l as int],
                    row.len() <= GRAPH_LIMIT,
                    n <= row.len(),
                    total + edges_from(self@, l as int, n as int) == edges_from(self@, 0, 0),
                    base <= l * GRAPH_LIMIT * usize::MAX,
                    total <= base + n * usize::MAX,
                decreases row.len() - n,
            {
                proof {
                    assert(l * GRAPH_LIMIT * usize::MAX <= GRAPH_LIMIT * GRAPH_LIMIT * usize::MAX)
                        by (nonlinear_arith)
                        requires
                            0 <= l <= GRAPH_LIMIT,
                    ;
                    assert(n * usize::MAX + usize::MAX <= GRAPH_LIMIT * usize::MAX)
                        by (nonlinear_arith)
                        requires
                            0 <= n < GRAPH_LIMIT,
                    ;
                    assert((n + 1) * usize::MAX == n * usize::MAX + usize::MAX)
                        by (nonlinear_arith);
                    assert(GRAPH_LIMIT * GRAPH_LIMIT * usize::MAX + GRAPH_LIMIT * usize::MAX
                        < u128::MAX) by (nonlinear_arith)
                        requires
                            usize::MAX <= u64::MAX,
                    ;
                }
                total = total + row[n].connections.len() as u128;
                n += 1;
            }
            proof {
                assert((l + 1) * GRAPH_LIMIT * usize::MAX == l * GRAPH_LIMIT * usize::MAX
                    + GRAPH_LIMIT * usize::MAX) by (nonlinear_arith);
                assert(n * usize::MAX <= GRAPH_LIMIT * usize::MAX) by (nonlinear_arith)
                    requires
                        0 <= n <= GRAPH_LIMIT,
                ;
            }
            l += 1;
        }
        total
    }

    /// The connection of rank `k`, counted layer by layer, node by node and
    /// connection by connection from rank `0`: the location of its source,
    /// and its index among the connections of its source.
    pub fn edge_by_rank(&self, k: u128) -> (r: (GraphLocation, usize))
        requires
            addressable(self@),
            k < edge_count(self@),
        ensures
            (r.0, r.1 as int) == nth_edge(self@, 0, 0, k as int),
            has_node(self@, r.0),
            r.1 < node_at(self@, r.0).connections.len(),
    {
        let mut rest: u128 = k;
        let mut l: usize = 0;
        proof {
            lemma_nth_edge(self@, 0, 0, k as int);
        }
        while l < self.layers.len()
            invariant
                addressable(self@),
                l <= self.layers.len(),
                rest < edges_from(self@, l as int, 0),
                nth_edge(self@, l as int, 0, rest as int) == nth_edge(self@, 0, 0, k as int),
            decreases self.layers.len() - l,
        {
            let row = &self.layers[l];
            let mut n: usize = 0;
            proof {
                assert(self@[l as int].len() <= GRAPH_LIMIT);
            }
            while n < row.len()
                invariant
                    addressable(self@),
                    l < self.layers.len(),
                    row == self.layers[l as int],
                    row.len() <= GRAPH_LIMIT,
                    n <= row.len(),
                    rest < edges_from(self@, l as int, n as int),
                    nth_edge(self@, l as int, n as int, rest as int) == nth_edge(
                        self@,
                        0,
                        0,
                        k as int,
                    ),
                decreases row.len() - n,
            {
                let width = row[n].connections.len() as u128;
                if rest < width {
                    return (GraphLocation { layer: l as GraphSize, node: n as GraphSize }, rest as usize);
                }
                rest = rest - width;
                n += 1;
            }
            l += 1;
        }
        (GraphLocation { layer: 0, node: 0 }, 0)
    }

    /// A connection drawn from all connections of the graph, each as likely
    /// as any other, with the location of its source; nothing if the graph
    /// has no connection.
    pub fn random_edge(&self) -> (r: Option<(GraphLocation, GraphEdge)>)
        requires
            addressable(self@),
        ensures
            r is None <==> edge_count(self@) == 0,
            r matches Some((from, e)) ==> has_node(self@, from) && node_at(
                self@,
                from,
            ).connections.contains(e),
    {
        let count = self.count_edges();
        if count == 0 {
            return None;
        }
        let k = random_below(count);
        let (from, i) = self.edge_by_rank(k);
        let e = self.layers[from.layer as usize][from.node as usize].connections[i];
        proof {
            assert(node_at(self@, from).connections[i as int] == e);
        }
        Some((from, e))
    }

    /// A connection drawn from all connections of the graph, each as likely
    /// as any other, with the location of its source, for editing; nothing
    /// if the graph has no connection. What the caller leaves in it replaces
    /// that connection; nothing else changes.
    pub fn random_edge_mut(&mut self) -> (r: Option<(GraphLocation, &mut GraphEdge)>)
        requires
            addressable(old(self)@),
        ensures
            r is None <==> edge_count(old(self)@) == 0,
            r is None ==> final(self)@ == old(self)@,
            r matches Some((from, e)) ==> {
                let conns = node_at(old(self)@, from).connections;
                &&& has_node(old(self)@, from)
                &&& exists|i: int|
                    0 <= i < conns.len() && #[trigger] conns[i] == *e && final(self)@
                        == with_connections(old(self)@, from, conns.update(i, *final(e)))
            },
    {
        let count = self.count_edges();
        if count == 0 {
            return None;
        }
        let k = random_below(count);
        let (from, i) = self.edge_by_rank(k);
        proof {
            lemma_layers_view_update(self.layers@, from.layer as int);
            lemma_layer_view_update(self.layers@[from.layer as int]@, from.node as int);
        }
        let row = &mut self.layers[from.layer as usize];
        let node = &mut row[from.node as usize];
        let e = &mut node.connections[i];
        Some((from, e))
    }
}

/// The first layer behind layer `greater_than`, or behind the first layer
/// where none is given.
pub open spec fn first_behind(greater_than: Option<GraphSize>) -> int {
    match greater_than {
        Some(layer) => layer + 1,
        None => 1,
    }
}

/// Layers that the graph does not have hold no nodes.
proof fn lemma_count_clamped(g: Layers, lo: int, hi: int)
    requires
        0 <= lo,
    ensures
        hi >= g.len() ==> nodes_between(g, lo, hi) == nodes_between(g, lo, g.len() as int),
    decreases g.len() - lo,
{
    if hi >= g.len() && lo < g.len() && lo < hi {
        lemma_count_clamped(g, lo + 1, hi);
    }
}

/// Layers that the graph does not have do not change what a rank names.
proof fn lemma_nth_clamped(g: Layers, lo: int, hi: int, k: int)
    requires
        0 <= lo,
    ensures
        hi >= g.len() ==> nth_node(g, lo, hi, k) == nth_node(g, lo, g.len() as int, k),
    decreases g.len() - lo,
{
    if hi >= g.len() && lo < g.len() && lo < hi {
        lemma_nth_clamped(g, lo + 1, hi, k - g[lo].len());
    }
}

} // verus!
