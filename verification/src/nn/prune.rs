//! Removing placeholders from a graph.
use vstd::prelude::*;
use crate::nn::has_node;
use crate::nn::layers::forward_only;
use crate::nn::layers::well_formed;
use crate::nn::layer_view;
use crate::nn::node_at;
use crate::nn::GraphEdge;
use crate::nn::GraphLocation;
use crate::nn::GraphNode;
use crate::nn::GraphNodeView;
use crate::nn::GraphSize;
use crate::nn::Layers;
use crate::nn::NeuralGraph;
use crate::nn::Node;
use crate::nn::GRAPH_LIMIT;

verus! {

/// The number of placeholders among the first `n` nodes of `row`.
pub open spec fn blanks_before(row: Seq<GraphNodeView>, n: int) -> int
    decreases n,
{
    if n <= 0 {
        0
    } else {
        blanks_before(row, n - 1) + if n - 1 < row.len() && row[n - 1].value is Blank {
            1int
        } else {
            0int
        }
    }
}

/// Whether the connection `e` leads to a placeholder of `g`.
pub open spec fn leads_to_blank(g: Layers, e: GraphEdge) -> bool {
    has_node(g, e.to) && node_at(g, e.to).value is Blank
}

/// The connection `e` of `g` as it stands once the placeholders are gone:
/// its target index is lowered by the number of placeholders that stood in
/// front of the target in its layer.
pub open spec fn closed_up(g: Layers, e: GraphEdge) -> GraphEdge {
    if e.to.layer < g.len() {
        GraphEdge {
            to: GraphLocation {
                layer: e.to.layer,
                node: (e.to.node - blanks_before(g[e.to.layer as int], e.to.node as int)) as GraphSize,
            },
            value: e.value,
        }
    } else {
        e
    }
}

/// The connections `conns` of `g` once the placeholders are gone: those
/// that lead to a placeholder are dropped, the others are closed up, in
/// order.
pub open spec fn pruned_connections(g: Layers, conns: Seq<GraphEdge>) -> Seq<GraphEdge>
    decreases conns.len(),
{
    if conns.len() == 0 {
        conns
    } else if leads_to_blank(g, conns.last()) {
        pruned_connections(g, conns.drop_last())
    } else {
        pruned_connections(g, conns.drop_last()).push(closed_up(g, conns.last()))
    }
}

/// The layer `row` of `g` once the placeholders are gone, in order.
pub open spec fn pruned_row(g: Layers, row: Seq<GraphNodeView>) -> Seq<GraphNodeView>
    decreases row.len(),
{
    if row.len() == 0 {
        row
    } else if row.last().value is Blank {
        pruned_row(g, row.drop_last())
    } else {
        pruned_row(g, row.drop_last()).push(
            GraphNodeView {
                value: row.last().value,
                connections: pruned_connections(g, row.last().connections),
            },
        )
    }
}

/// The graph `g` once the placeholders are gone.
pub open spec fn pruned(g: Layers) -> Layers {
    g.map_values(|row: Seq<GraphNodeView>| pruned_row(g, row))
}

/// No node of `g` is a placeholder.
pub open spec fn no_blanks(g: Layers) -> bool {
    forall|l: int, n: int| 0 <= l < g.len() && 0 <= n < g[l].len() ==> !((#[trigger] g[l][n]).value is Blank)
}

/// The placeholders in front of an index are at most as many as the nodes
/// in front of it, and no more are counted past the end of the layer.
pub proof fn lemma_blanks_before(row: Seq<GraphNodeView>, n: int)
    requires
        0 <= n,
    ensures
        0 <= blanks_before(row, n) <= n,
        blanks_before(row, n) <= row.len(),
        n >= row.len() ==> blanks_before(row, n) == blanks_before(row, row.len() as int),
        n < row.len() && !(row[n].value is Blank) ==> blanks_before(row, n) < n + 1,
    decreases n,
{
    if n > 0 {
        lemma_blanks_before(row, n - 1);
    }
}

/// Dropping the last node of a layer does not change the count of
/// placeholders in front of an earlier index.
proof fn lemma_blanks_before_prefix(row: Seq<GraphNodeView>, n: int)
    requires
        0 <= n < row.len(),
    ensures
        blanks_before(row.drop_last(), n) == blanks_before(row, n),
    decreases n,
{
    if n > 0 {
        lemma_blanks_before_prefix(row, n - 1);
    }
}

/// A pruned layer holds the nodes that were not placeholders: as many as
/// there were, none of them a placeholder, and the one that stood at index
/// `n` stands at `n` less the placeholders in front of it, with its
/// connections pruned.
pub proof fn lemma_pruned_row(g: Layers, row: Seq<GraphNodeView>)
    ensures
        pruned_row(g, row).len() == row.len() - blanks_before(row, row.len() as int),
        forall|i: int|
            0 <= i < pruned_row(g, row).len() ==> !((#[trigger] pruned_row(g, row)[i]).value is Blank),
        forall|n: int|
            0 <= n < row.len() && !((#[trigger] row[n]).value is Blank) ==> {
                let i = n - blanks_before(row, n);
                &&& 0 <= i < pruned_row(g, row).len()
                &&& pruned_row(g, row)[i].value == row[n].value
                &&& pruned_row(g, row)[i].connections == pruned_connections(g, row[n].connections)
            },
    decreases row.len(),
{
    if row.len() > 0 {
        let init = row.drop_last();
        lemma_pruned_row(g, init);
        lemma_blanks_before(row, row.len() as int);
        lemma_blanks_before(init, init.len() as int);
        assert(blanks_before(init, init.len() as int) == blanks_before(row, init.len() as int)) by {
            if init.len() > 0 {
                lemma_blanks_before_prefix(row, init.len() - 1);
                assert(init[init.len() - 1] == row[init.len() - 1]);
            }
        }
        let out = pruned_row(g, row);
        let inner = pruned_row(g, init);
        assert forall|n: int| 0 <= n < row.len() && !((#[trigger] row[n]).value is Blank) implies {
            let i = n - blanks_before(row, n);
            &&& 0 <= i < out.len()
            &&& out[i].value == row[n].value
            &&& out[i].connections == pruned_connections(g, row[n].connections)
        } by {
            lemma_blanks_before(row, n);
            if n < init.len() {
                lemma_blanks_before_prefix(row, n);
                assert(init[n] == row[n]);
                let i = n - blanks_before(init, n);
                assert(inner[i].value == init[n].value);
            }
        }
    }
}

/// Pruned connections are closed-up connections of `conns`, and none of
/// them led to a placeholder.
pub proof fn lemma_pruned_connections(g: Layers, conns: Seq<GraphEdge>)
    ensures
        pruned_connections(g, conns).len() <= conns.len(),
        forall|i: int|
            0 <= i < pruned_connections(g, conns).len() ==> exists|k: int|
                0 <= k < conns.len() && !leads_to_blank(g, conns[k]) && (
                #[trigger] pruned_connections(g, conns)[i]) == closed_up(g, conns[k]),
    decreases conns.len(),
{
    if conns.len() > 0 {
        let init = conns.drop_last();
        lemma_pruned_connections(g, init);
        let out = pruned_connections(g, conns);
        let inner = pruned_connections(g, init);
        assert forall|i: int| 0 <= i < out.len() implies exists|k: int|
            0 <= k < conns.len() && !leads_to_blank(g, conns[k]) && (#[trigger] out[i])
                == closed_up(g, conns[k]) by {
            if i < inner.len() {
                assert(out[i] == inner[i]);
                let k = choose|k: int|
                    0 <= k < init.len() && !leads_to_blank(g, init[k]) && inner[i] == closed_up(
                        g,
                        init[k],
                    );
                assert(conns[k] == init[k]);
            } else {
                let k = conns.len() - 1;
                assert(!leads_to_blank(g, conns[k]) && out[i] == closed_up(g, conns[k]));
            }
        }
    }
}

/// After pruning, no node is a placeholder; every layer keeps its nodes
/// that were none, in order; and a connection that led to such a node
/// leads to it still, at the index it has moved to.
pub proof fn lemma_pruned(g: Layers)
    ensures
        pruned(g).len() == g.len(),
        no_blanks(pruned(g)),
        forall|l: int|
            0 <= l < g.len() ==> (#[trigger] pruned(g)[l]).len() == g[l].len() - blanks_before(
                g[l],
                g[l].len() as int,
            ),
        forall|e: GraphEdge|
            has_node(g, e.to) && !leads_to_blank(g, e) ==> has_node(
                pruned(g),
                (#[trigger] closed_up(g, e)).to,
            ) && node_at(pruned(g), closed_up(g, e).to).value == node_at(g, e.to).value,
{
    let h = pruned(g);
    assert forall|l: int, n: int| 0 <= l < h.len() && 0 <= n < h[l].len() implies !((
    #[trigger] h[l][n]).value is Blank) by {
        lemma_pruned_row(g, g[l]);
    }
    assert forall|l: int| 0 <= l < g.len() implies (#[trigger] h[l]).len() == g[l].len()
        - blanks_before(g[l], g[l].len() as int) by {
        lemma_pruned_row(g, g[l]);
    }
    assert forall|e: GraphEdge| has_node(g, e.to) && !leads_to_blank(g, e) implies has_node(
        h,
        (#[trigger] closed_up(g, e)).to,
    ) && node_at(h, closed_up(g, e).to).value == node_at(g, e.to).value by {
        let row = g[e.to.layer as int];
        lemma_pruned_row(g, row);
        lemma_blanks_before(row, e.to.node as int);
        assert(!(row[e.to.node as int].value is Blank));
    }
}

/// Every node of a pruned layer is a node of the layer that was none of
/// its placeholders, with its connections pruned.
pub proof fn lemma_pruned_row_sources(g: Layers, row: Seq<GraphNodeView>)
    ensures
        pruned_row(g, row).len() <= row.len(),
        forall|i: int|
            0 <= i < pruned_row(g, row).len() ==> exists|n: int|
                0 <= n < row.len() && !(row[n].value is Blank) && (#[trigger] pruned_row(
                    g,
                    row,
                )[i]).value == row[n].value && pruned_row(g, row)[i].connections
                    == pruned_connections(g, row[n].connections),
    decreases row.len(),
{
    if row.len() > 0 {
        let init = row.drop_last();
        lemma_pruned_row_sources(g, init);
        let out = pruned_row(g, row);
        let inner = pruned_row(g, init);
        assert forall|i: int| 0 <= i < out.len() implies exists|n: int|
            0 <= n < row.len() && !(row[n].value is Blank) && (#[trigger] out[i]).value
                == row[n].value && out[i].connections == pruned_connections(
                g,
                row[n].connections,
            ) by {
            if i < inner.len() {
                assert(out[i] == inner[i]);
                let n = choose|n: int|
                    0 <= n < init.len() && !(init[n].value is Blank) && inner[i].value
                        == init[n].value && inner[i].connections == pruned_connections(
                        g,
                        init[n].connections,
                    );
                assert(row[n] == init[n]);
            } else {
                let n = row.len() - 1;
                assert(!(row[n].value is Blank) && out[i].value == row[n].value);
            }
        }
    }
}

/// Pruning keeps a well-formed graph well-formed.
pub proof fn lemma_pruned_well_formed(g: Layers)
    requires
        well_formed(g),
    ensures
        well_formed(pruned(g)),
{
    let h = pruned(g);
    assert forall|l: int| 0 <= l < h.len() implies (#[trigger] h[l]).len()
        <= GRAPH_LIMIT by {
        lemma_pruned_row_sources(g, g[l]);
        assert(g[l].len() <= GRAPH_LIMIT);
    }
    assert forall|l: int, n: int, k: int|
        0 <= l < h.len() && 0 <= n < h[l].len() && 0 <= k < h[l][n].connections.len() implies (
    #[trigger] h[l][n].connections[k]).to.layer < h.len() by {
        lemma_pruned_row_sources(g, g[l]);
        let m = choose|m: int|
            0 <= m < g[l].len() && !(g[l][m].value is Blank) && h[l][n].value == g[l][m].value
                && h[l][n].connections == pruned_connections(g, g[l][m].connections);
        lemma_pruned_connections(g, g[l][m].connections);
        let conns = g[l][m].connections;
        let j = choose|j: int|
            0 <= j < conns.len() && !leads_to_blank(g, conns[j]) && pruned_connections(
                g,
                conns,
            )[k] == closed_up(g, conns[j]);
        assert(g[l][m].connections[j].to.layer < g.len());
    }
}

/// Pruning keeps a forward-only graph forward-only.
pub proof fn lemma_pruned_forward(g: Layers)
    requires
        forward_only(g),
    ensures
        forward_only(pruned(g)),
{
    let h = pruned(g);
    assert forall|l: int, n: int, k: int|
        0 <= l < h.len() && 0 <= n < h[l].len() && 0 <= k < h[l][n].connections.len() implies l < (
    #[trigger] h[l][n].connections[k]).to.layer by {
        lemma_pruned_row_sources(g, g[l]);
        let m = choose|m: int|
            0 <= m < g[l].len() && !(g[l][m].value is Blank) && h[l][n].value == g[l][m].value
                && h[l][n].connections == pruned_connections(g, g[l][m].connections);
        lemma_pruned_connections(g, g[l][m].connections);
        let conns = g[l][m].connections;
        let j = choose|j: int|
            0 <= j < conns.len() && !leads_to_blank(g, conns[j]) && pruned_connections(
                g,
                conns,
            )[k] == closed_up(g, conns[j]);
        assert(l < g[l][m].connections[j].to.layer);
    }
}

/// For each index `n` up to the length of `row`, the number of placeholders
/// among the first `n` nodes.
fn blank_counts(row: &Vec<GraphNode>) -> (r: Vec<usize>)
    ensures
        r.len() == row.len() + 1,
        forall|n: int| 0 <= n <= row.len() ==> r[n] == blanks_before(layer_view(row@), n),
{
    let mut counts: Vec<usize> = Vec::new();
    counts.push(0);
    let mut n: usize = 0;
    let mut seen: usize = 0;
    while n < row.len()
        invariant
            n <= row.len(),
            counts.len() == n + 1,
            seen == blanks_before(layer_view(row@), n as int),
            seen <= n,
            forall|i: int| 0 <= i <= n ==> counts[i] == blanks_before(layer_view(row@), i),
        decreases row.len() - n,
    {
        if let Node::Blank = row[n].value {
            seen += 1;
        }
        counts.push(seen);
        n += 1;
    }
    counts
}

/// Whether `counts` holds, for every layer of `g`, the placeholder counts
/// of that layer.
spec fn counts_of(counts: Seq<Vec<usize>>, g: Layers) -> bool {
    &&& counts.len() == g.len()
    &&& forall|l: int|
        0 <= l < g.len() ==> {
            &&& (#[trigger] counts[l]).len() == g[l].len() + 1
            &&& forall|n: int| 0 <= n <= g[l].len() ==> counts[l][n] == blanks_before(g[l], n)
        }
}

impl NeuralGraph {
    /// The connection `e` once the placeholders are gone, or nothing if it
    /// leads to a placeholder.
    fn prune_edge(&self, counts: &Vec<Vec<usize>>, e: GraphEdge) -> (r: Option<GraphEdge>)
        requires
            counts_of(counts@, self@),
        ensures
            r == if leads_to_blank(self@, e) {
                None
            } else {
                Some(closed_up(self@, e))
            },
    {
        if e.to.layer as usize >= self.layers.len() {
            return Some(e);
        }
        let row = &self.layers[e.to.layer as usize];
        let table = &counts[e.to.layer as usize];
        proof {
            lemma_blanks_before(self@[e.to.layer as int], e.to.node as int);
        }
        if (e.to.node as usize) < row.len() {
            if let Node::Blank = row[e.to.node as usize].value {
                return None;
            }
            let skipped = table[e.to.node as usize];
            Some(
                GraphEdge {
                    to: GraphLocation {
                        layer: e.to.layer,
                        node: (e.to.node as usize - skipped) as GraphSize,
                    },
                    value: e.value,
                },
            )
        } else {
            let skipped = table[row.len()];
            Some(
                GraphEdge {
                    to: GraphLocation {
                        layer: e.to.layer,
                        node: (e.to.node as usize - skipped) as GraphSize,
                    },
                    value: e.value,
                },
            )
        }
    }

    /// The connections `conns` once the placeholders are gone.
    fn prune_connections(&self, counts: &Vec<Vec<usize>>, conns: &Vec<GraphEdge>) -> (r: Vec<
        GraphEdge,
    >)
        requires
            counts_of(counts@, self@),
        ensures
            r@ == pruned_connections(self@, conns@),
    {
        let mut out: Vec<GraphEdge> = Vec::new();
        let mut k: usize = 0;
        while k < conns.len()
            invariant
                k <= conns.len(),
                counts_of(counts@, self@),
                out@ == pruned_connections(self@, conns@.take(k as int)),
            decreases conns.len() - k,
        {
            proof {
                assert(conns@.take(k + 1).drop_last() =~= conns@.take(k as int));
            }
            match self.prune_edge(counts, conns[k]) {
                Some(e) => {
                    out.push(e);
                },
                None => {},
            }
            k += 1;
        }
        proof {
            assert(conns@.take(k as int) =~= conns@);
        }
        out
    }

    /// The layer `row` once the placeholders are gone.
    fn prune_row(&self, counts: &Vec<Vec<usize>>, row: &Vec<GraphNode>) -> (r: Vec<GraphNode>)
        requires
            counts_of(counts@, self@),
        ensures
            layer_view(r@) == pruned_row(self@, layer_view(row@)),
    {
        let mut out: Vec<GraphNode> = Vec::new();
        let mut n: usize = 0;
        proof {
            assert(layer_view(out@) =~= pruned_row(self@, layer_view(row@).take(0)));
        }
        while n < row.len()
            invariant
                n <= row.len(),
                counts_of(counts@, self@),
                layer_view(out@) == pruned_row(self@, layer_view(row@).take(n as int)),
            decreases row.len() - n,
        {
            proof {
                assert(layer_view(row@).take(n + 1).drop_last() =~= layer_view(row@).take(
                    n as int,
                ));
            }
            let ghost before = out@;
            match row[n].value {
                Node::Blank => {},
                value => {
                    let connections = self.prune_connections(counts, &row[n].connections);
                    let node = GraphNode { value, connections };
                    out.push(node);
                    proof {
                        assert(layer_view(out@) =~= layer_view(before).push(node@));
                    }
                },
            }
            n += 1;
        }
        proof {
            assert(layer_view(row@).take(n as int) =~= layer_view(row@));
        }
        out
    }

    /// Removes every placeholder. A connection that led to a placeholder is
    /// dropped; every other connection has its target index lowered by the
    /// number of placeholders that stood in front of the target in its
    /// layer.
    pub fn prune(&mut self)
        ensures
            final(self)@ == pruned(old(self)@),
            no_blanks(final(self)@),
    {
        let mut counts: Vec<Vec<usize>> = Vec::new();
        let mut l: usize = 0;
        while l < self.layers.len()
            invariant
                l <= self.layers.len(),
                counts.len() == l,
                forall|i: int|
                    0 <= i < l ==> {
                        &&& (#[trigger] counts[i]).len() == self@[i].len() + 1
                        &&& forall|n: int|
                            0 <= n <= self@[i].len() ==> counts[i][n] == blanks_before(self@[i], n)
                    },
            decreases self.layers.len() - l,
        {
            let table = blank_counts(&self.layers[l]);
            counts.push(table);
            l += 1;
        }
        let mut fresh: Vec<Vec<GraphNode>> = Vec::new();
        let mut l: usize = 0;
        while l < self.layers.len()
            invariant
                l <= self.layers.len(),
                fresh.len() == l,
                counts_of(counts@, self@),
                forall|i: int|
                    0 <= i < l ==> layer_view((#[trigger] fresh[i])@) == pruned_row(self@, self@[i]),
            decreases self.layers.len() - l,
        {
            let row = self.prune_row(&counts, &self.layers[l]);
            fresh.push(row);
            l += 1;
        }
        let ghost before = self@;
        self.layers = fresh;
        proof {
            assert(self@ =~= pruned(before));
            lemma_pruned(before);
        }
    }
}

} // verus!
