//! The connections of a graph as a whole, each with its two ends, and what
//! the insertion of a neuron into a connection does to them.
use vstd::multiset::Multiset;
use vstd::prelude::*;
use crate::nn::add_edge_outcome;
use crate::nn::consistency::distinct_targets;
use crate::nn::has_edge;
use crate::nn::has_node;
use crate::nn::layers::lifted;
use crate::nn::layers::rewired_node;
use crate::nn::layers::rewired_row;
use crate::nn::layers::well_formed;
use crate::nn::layers::with_layer_at;
use crate::nn::layers::Rewire;
use crate::nn::leads_to;
use crate::nn::lemma_without_target;
use crate::nn::mutate::needs_layer;
use crate::nn::mutate::split;
use crate::nn::mutate::with_node_pushed;
use crate::nn::mutate::without_edge;
use crate::nn::node_at;
use crate::nn::with_edge;
use crate::nn::without_target;
use crate::nn::Edge;
use crate::nn::GraphEdge;
use crate::nn::GraphLocation;
use crate::nn::GraphNodeView;
use crate::nn::GraphSize;
use crate::nn::Layers;
use crate::nn::Neuron;
use crate::nn::Node;
use crate::nn::GRAPH_LIMIT;

verus! {

/// A connection with both its ends.
pub struct Wire {
    /// Where the connection starts.
    pub from: GraphLocation,
    /// Where it leads.
    pub to: GraphLocation,
    /// What it carries.
    pub value: Edge,
}

/// The location `loc` as it is once a layer was opened at `opened`: one
/// layer up, if it is in that layer or behind it. Unchanged where no layer
/// was opened.
pub open spec fn raised(loc: GraphLocation, opened: Option<GraphSize>) -> GraphLocation {
    match opened {
        Some(at) => if loc.layer >= at {
            GraphLocation { layer: (loc.layer + 1) as GraphSize, node: loc.node }
        } else {
            loc
        },
        None => loc,
    }
}

/// The connection `e` out of node `n` of layer `l`, with both ends as they
/// are once a layer was opened at `opened`.
pub open spec fn wire_of(l: int, n: int, e: GraphEdge, opened: Option<GraphSize>) -> Wire {
    Wire {
        from: raised(GraphLocation { layer: l as GraphSize, node: n as GraphSize }, opened),
        to: raised(e.to, opened),
        value: e.value,
    }
}

/// The first `k` connections of `conns`, which leave node `n` of layer `l`,
/// each as often as it occurs.
pub open spec fn node_wires(
    conns: Seq<GraphEdge>,
    l: int,
    n: int,
    k: int,
    opened: Option<GraphSize>,
) -> Multiset<Wire>
    decreases k,
{
    if k <= 0 {
        Multiset::empty()
    } else {
        node_wires(conns, l, n, k - 1, opened).insert(wire_of(l, n, conns[k - 1], opened))
    }
}

/// All connections of `conns`, which leave node `n` of layer `l`.
pub open spec fn all_node_wires(conns: Seq<GraphEdge>, l: int, n: int, opened: Option<GraphSize>) -> Multiset<
    Wire,
> {
    node_wires(conns, l, n, conns.len() as int, opened)
}

/// The connections of the first `n` nodes of `row`, which is layer `l`.
pub open spec fn row_wires(row: Seq<GraphNodeView>, l: int, n: int, opened: Option<GraphSize>) -> Multiset<
    Wire,
>
    decreases n,
{
    if n <= 0 {
        Multiset::empty()
    } else {
        row_wires(row, l, n - 1, opened).add(all_node_wires(row[n - 1].connections, l, n - 1, opened))
    }
}

/// The connections of the first `l` layers of `g`.
pub open spec fn wires_upto(g: Layers, l: int, opened: Option<GraphSize>) -> Multiset<Wire>
    decreases l,
{
    if l <= 0 {
        Multiset::empty()
    } else {
        wires_upto(g, l - 1, opened).add(row_wires(g[l - 1], l - 1, g[l - 1].len() as int, opened))
    }
}

/// The connections of `g`, each with both its ends, each as often as it
/// occurs.
pub open spec fn wires(g: Layers) -> Multiset<Wire> {
    wires_upto(g, g.len() as int, None)
}

/// The connections of `g` with their ends as they are once a layer was
/// opened at `at`.
pub open spec fn wires_raised(g: Layers, at: GraphSize) -> Multiset<Wire> {
    wires_upto(g, g.len() as int, Some(at))
}

/// The first connections of a node do not depend on those behind them.
proof fn lemma_node_prefix(conns: Seq<GraphEdge>, l: int, n: int, k: int, opened: Option<GraphSize>)
    requires
        0 <= k < conns.len(),
    ensures
        node_wires(conns.drop_last(), l, n, k, opened) == node_wires(conns, l, n, k, opened),
    decreases k,
{
    if k > 0 {
        lemma_node_prefix(conns, l, n, k - 1, opened);
    }
}

/// The connections of the first nodes of a layer do not depend on the
/// nodes behind them.
proof fn lemma_row_prefix(row: Seq<GraphNodeView>, l: int, n: int, opened: Option<GraphSize>)
    requires
        0 <= n < row.len(),
    ensures
        row_wires(row.drop_last(), l, n, opened) == row_wires(row, l, n, opened),
    decreases n,
{
    if n > 0 {
        lemma_row_prefix(row, l, n - 1, opened);
    }
}

/// A node that gets one more connection has that connection besides those
/// it had.
proof fn lemma_node_pushed(conns: Seq<GraphEdge>, e: GraphEdge, l: int, n: int, opened: Option<GraphSize>)
    ensures
        all_node_wires(conns.push(e), l, n, opened) == all_node_wires(conns, l, n, opened).insert(
            wire_of(l, n, e, opened),
        ),
{
    let more = conns.push(e);
    assert(more.drop_last() =~= conns);
    lemma_node_prefix(more, l, n, conns.len() as int, opened);
}

/// Dropping the connections to a target from connections that lead to
/// distinct targets takes away the one connection that leads there.
proof fn lemma_node_without(
    conns: Seq<GraphEdge>,
    to: GraphLocation,
    i: int,
    l: int,
    n: int,
    opened: Option<GraphSize>,
)
    requires
        0 <= i < conns.len(),
        conns[i].to == to,
        distinct_targets(conns),
    ensures
        all_node_wires(conns, l, n, opened) == all_node_wires(
            without_target(conns, to),
            l,
            n,
            opened,
        ).insert(wire_of(l, n, conns[i], opened)),
    decreases conns.len(),
{
    let init = conns.drop_last();
    let last = conns.last();
    let m = init.len() as int;
    lemma_node_prefix(conns, l, n, m, opened);
    assert(all_node_wires(conns, l, n, opened) == all_node_wires(init, l, n, opened).insert(
        wire_of(l, n, last, opened),
    ));
    assert(distinct_targets(init)) by {
        assert forall|x: int, y: int| 0 <= x < y < init.len() implies (#[trigger] init[x]).to != (
        #[trigger] init[y]).to by {
            assert(conns[x].to != conns[y].to);
        }
    }
    if last.to == to {
        assert(i == m) by {
            if i < m {
                assert(conns[i].to != conns[m].to);
            }
        }
        assert(!leads_to(init, to)) by {
            if leads_to(init, to) {
                let j = choose|j: int| 0 <= j < init.len() && (#[trigger] init[j]).to == to;
                assert(conns[j].to != conns[m].to);
            }
        }
        lemma_without_target(init, to);
    } else {
        assert(i < m);
        assert(init[i] == conns[i]);
        lemma_node_without(init, to, i, l, n, opened);
        let kept = without_target(init, to);
        lemma_node_pushed(kept, last, l, n, opened);
        assert(all_node_wires(kept, l, n, opened).insert(wire_of(l, n, conns[i], opened)).insert(
            wire_of(l, n, last, opened),
        ) =~= all_node_wires(kept, l, n, opened).insert(wire_of(l, n, last, opened)).insert(
            wire_of(l, n, conns[i], opened),
        ));
    }
}

/// Where a node of a layer is replaced by one whose connections, with those
/// of `minus`, are those of the old node with those of `plus`, the same
/// holds of the layer.
proof fn lemma_row_update(
    row: Seq<GraphNodeView>,
    at: int,
    node: GraphNodeView,
    minus: Multiset<Wire>,
    plus: Multiset<Wire>,
    l: int,
    n: int,
    opened: Option<GraphSize>,
)
    requires
        0 <= at < row.len(),
        0 <= n <= row.len(),
        all_node_wires(node.connections, l, at, opened).add(minus) == all_node_wires(
            row[at].connections,
            l,
            at,
            opened,
        ).add(plus),
    ensures
        at < n ==> row_wires(row.update(at, node), l, n, opened).add(minus) == row_wires(
            row,
            l,
            n,
            opened,
        ).add(plus),
        at >= n ==> row_wires(row.update(at, node), l, n, opened) == row_wires(row, l, n, opened),
    decreases n,
{
    if n > 0 {
        lemma_row_update(row, at, node, minus, plus, l, n - 1, opened);
        let more = row.update(at, node);
        let before = row_wires(row, l, n - 1, opened);
        let last = all_node_wires(row[n - 1].connections, l, n - 1, opened);
        if at < n - 1 {
            assert(more[n - 1] == row[n - 1]);
            let changed = row_wires(more, l, n - 1, opened);
            assert(changed.add(last).add(minus) =~= changed.add(minus).add(last));
            assert(before.add(plus).add(last) =~= before.add(last).add(plus));
        } else if at == n - 1 {
            let fresh = all_node_wires(node.connections, l, at, opened);
            assert(more[n - 1] == node);
            assert(before.add(fresh).add(minus) =~= before.add(fresh.add(minus)));
            assert(before.add(last).add(plus) =~= before.add(last.add(plus)));
        } else {
            assert(more[n - 1] == row[n - 1]);
        }
    }
}

/// Where a layer of a graph is replaced by one whose connections, with
/// those of `minus`, are those of the old layer with those of `plus`, the
/// same holds of the graph.
proof fn lemma_wires_update(
    g: Layers,
    at: int,
    row: Seq<GraphNodeView>,
    minus: Multiset<Wire>,
    plus: Multiset<Wire>,
    l: int,
    opened: Option<GraphSize>,
)
    requires
        0 <= at < g.len(),
        0 <= l <= g.len(),
        row_wires(row, at, row.len() as int, opened).add(minus) == row_wires(
            g[at],
            at,
            g[at].len() as int,
            opened,
        ).add(plus),
    ensures
        at < l ==> wires_upto(g.update(at, row), l, opened).add(minus) == wires_upto(
            g,
            l,
            opened,
        ).add(plus),
        at >= l ==> wires_upto(g.update(at, row), l, opened) == wires_upto(g, l, opened),
    decreases l,
{
    if l > 0 {
        lemma_wires_update(g, at, row, minus, plus, l - 1, opened);
        let h = g.update(at, row);
        let before = wires_upto(g, l - 1, opened);
        let last = row_wires(g[l - 1], l - 1, g[l - 1].len() as int, opened);
        if at < l - 1 {
            assert(h[l - 1] == g[l - 1]);
            let changed = wires_upto(h, l - 1, opened);
            assert(changed.add(last).add(minus) =~= changed.add(minus).add(last));
            assert(before.add(plus).add(last) =~= before.add(last).add(plus));
        } else if at == l - 1 {
            let fresh = row_wires(row, at, row.len() as int, opened);
            assert(h[l - 1] == row);
            assert(before.add(fresh).add(minus) =~= before.add(fresh.add(minus)));
            assert(before.add(last).add(plus) =~= before.add(last.add(plus)));
        } else {
            assert(h[l - 1] == g[l - 1]);
        }
    }
}

/// Where the connections of a node are replaced by connections that, with
/// those of `minus`, are the old ones with those of `plus`, the same holds
/// of the graph.
proof fn lemma_wires_rewired(
    g: Layers,
    loc: GraphLocation,
    conns: Seq<GraphEdge>,
    minus: Multiset<Wire>,
    plus: Multiset<Wire>,
    opened: Option<GraphSize>,
)
    requires
        has_node(g, loc),
        all_node_wires(conns, loc.layer as int, loc.node as int, opened).add(minus)
            == all_node_wires(
            node_at(g, loc).connections,
            loc.layer as int,
            loc.node as int,
            opened,
        ).add(plus),
    ensures
        wires_upto(
            g.update(
                loc.layer as int,
                g[loc.layer as int].update(
                    loc.node as int,
                    GraphNodeView { value: node_at(g, loc).value, connections: conns },
                ),
            ),
            g.len() as int,
            opened,
        ).add(minus) == wires_upto(g, g.len() as int, opened).add(plus),
{
    let row = g[loc.layer as int];
    let node = GraphNodeView { value: node_at(g, loc).value, connections: conns };
    lemma_row_update(
        row,
        loc.node as int,
        node,
        minus,
        plus,
        loc.layer as int,
        row.len() as int,
        opened,
    );
    lemma_wires_update(
        g,
        loc.layer as int,
        row.update(loc.node as int, node),
        minus,
        plus,
        g.len() as int,
        opened,
    );
}

/// Removing the connections to one target from a node whose connections
/// lead to distinct targets takes one connection from the graph: the one
/// that led there.
pub proof fn lemma_without_edge_wires(
    g: Layers,
    from: GraphLocation,
    to: GraphLocation,
    i: int,
    opened: Option<GraphSize>,
)
    requires
        has_node(g, from),
        0 <= i < node_at(g, from).connections.len(),
        node_at(g, from).connections[i].to == to,
        distinct_targets(node_at(g, from).connections),
    ensures
        without_edge(g, from, to).len() == g.len(),
        wires_upto(g, g.len() as int, opened) == wires_upto(
            without_edge(g, from, to),
            g.len() as int,
            opened,
        ).insert(
            wire_of(from.layer as int, from.node as int, node_at(g, from).connections[i], opened),
        ),
{
    let conns = node_at(g, from).connections;
    let kept = without_target(conns, to);
    let w = wire_of(from.layer as int, from.node as int, conns[i], opened);
    lemma_node_without(conns, to, i, from.layer as int, from.node as int, opened);
    let here = all_node_wires(kept, from.layer as int, from.node as int, opened);
    assert(here.add(Multiset::singleton(w)) =~= here.insert(w));
    assert(here.insert(w).add(Multiset::empty()) =~= here.insert(w));
    lemma_wires_rewired(g, from, kept, Multiset::singleton(w), Multiset::empty(), opened);
    let h = without_edge(g, from, to);
    let all = wires_upto(h, g.len() as int, opened);
    assert(all.add(Multiset::singleton(w)) =~= all.insert(w));
    assert(wires_upto(g, g.len() as int, opened).add(Multiset::empty()) =~= wires_upto(
        g,
        g.len() as int,
        opened,
    ));
}

/// Adding a connection adds it to the connections of the graph, and
/// nothing else.
pub proof fn lemma_with_edge_wires(
    g: Layers,
    from: GraphLocation,
    to: GraphLocation,
    value: Edge,
    opened: Option<GraphSize>,
)
    requires
        has_node(g, from),
    ensures
        with_edge(g, from, to, value).len() == g.len(),
        wires_upto(with_edge(g, from, to, value), g.len() as int, opened) == wires_upto(
            g,
            g.len() as int,
            opened,
        ).insert(wire_of(from.layer as int, from.node as int, GraphEdge { to, value }, opened)),
{
    let conns = node_at(g, from).connections;
    let e = GraphEdge { to, value };
    let w = wire_of(from.layer as int, from.node as int, e, opened);
    lemma_node_pushed(conns, e, from.layer as int, from.node as int, opened);
    let here = all_node_wires(conns, from.layer as int, from.node as int, opened);
    assert(here.insert(w).add(Multiset::empty()) =~= here.add(Multiset::singleton(w)));
    lemma_wires_rewired(g, from, conns.push(e), Multiset::empty(), Multiset::singleton(w), opened);
    let h = with_edge(g, from, to, value);
    let all = wires_upto(g, g.len() as int, opened);
    assert(all.add(Multiset::singleton(w)) =~= all.insert(w));
    assert(wires_upto(h, g.len() as int, opened).add(Multiset::empty()) =~= wires_upto(
        h,
        g.len() as int,
        opened,
    ));
}

/// Appending a node without connections leaves the connections of the
/// graph as they are.
pub proof fn lemma_with_node_pushed_wires(
    g: Layers,
    layer: GraphSize,
    value: Node,
    opened: Option<GraphSize>,
)
    requires
        layer < g.len(),
    ensures
        with_node_pushed(g, layer, value).len() == g.len(),
        wires_upto(with_node_pushed(g, layer, value), g.len() as int, opened) == wires_upto(
            g,
            g.len() as int,
            opened,
        ),
{
    let row = g[layer as int];
    let node = GraphNodeView { value, connections: Seq::empty() };
    let more = row.push(node);
    let l = layer as int;
    assert(more.drop_last() =~= row);
    lemma_row_prefix(more, l, row.len() as int, opened);
    let before = row_wires(row, l, row.len() as int, opened);
    assert(before.add(Multiset::empty()) =~= before);
    lemma_wires_update(g, l, more, Multiset::empty(), Multiset::empty(), g.len() as int, opened);
    let h = with_node_pushed(g, layer, value);
    assert(wires_upto(h, g.len() as int, opened).add(Multiset::empty()) =~= wires_upto(
        h,
        g.len() as int,
        opened,
    ));
    assert(wires_upto(g, g.len() as int, opened).add(Multiset::empty()) =~= wires_upto(
        g,
        g.len() as int,
        opened,
    ));
}

/// The layer index `l` as it is once a layer was opened at `p`.
pub open spec fn raised_index(l: int, p: GraphSize) -> int {
    if l >= p {
        l + 1
    } else {
        l
    }
}

/// The connections of a node whose targets were moved for a layer opened at
/// `p` are its connections with their ends as they are once that layer was
/// opened.
proof fn lemma_node_lifted(conns: Seq<GraphEdge>, p: GraphSize, l: int, n: int, k: int)
    requires
        0 <= l,
        raised_index(l, p) < GRAPH_LIMIT,
        0 <= k <= conns.len(),
    ensures
        node_wires(conns.map_values(|e: GraphEdge| lifted(e, p)), raised_index(l, p), n, k, None)
            == node_wires(conns, l, n, k, Some(p)),
    decreases k,
{
    if k > 0 {
        lemma_node_lifted(conns, p, l, n, k - 1);
        let moved = conns.map_values(|e: GraphEdge| lifted(e, p));
        assert(moved[k - 1] == lifted(conns[k - 1], p));
        assert(wire_of(raised_index(l, p), n, moved[k - 1], None) == wire_of(
            l,
            n,
            conns[k - 1],
            Some(p),
        ));
    }
}

/// The same of the nodes of a layer.
proof fn lemma_row_lifted(row: Seq<GraphNodeView>, p: GraphSize, l: int, n: int)
    requires
        0 <= l,
        raised_index(l, p) < GRAPH_LIMIT,
        0 <= n <= row.len(),
    ensures
        row_wires(rewired_row(row, Rewire::Lift { at: p }), raised_index(l, p), n, None)
            == row_wires(row, l, n, Some(p)),
    decreases n,
{
    if n > 0 {
        lemma_row_lifted(row, p, l, n - 1);
        let how = Rewire::Lift { at: p };
        let moved = rewired_row(row, how);
        assert(moved[n - 1] == rewired_node(row[n - 1], how));
        let conns = row[n - 1].connections;
        lemma_node_lifted(conns, p, l, n - 1, conns.len() as int);
    }
}

/// The connections of a graph in which a layer was opened are its
/// connections with their ends as they are once that layer was opened: no
/// connection is lost, none is new, and each keeps what it carries.
pub proof fn lemma_with_layer_at_wires(g: Layers, p: GraphSize, l: int)
    requires
        p <= g.len(),
        g.len() < GRAPH_LIMIT,
        0 <= l <= g.len() + 1,
    ensures
        with_layer_at(g, p).len() == g.len() + 1,
        wires_upto(with_layer_at(g, p), l, None) == wires_upto(
            g,
            if l <= p {
                l
            } else {
                l - 1
            },
            Some(p),
        ),
    decreases l,
{
    let h = with_layer_at(g, p);
    let how = Rewire::Lift { at: p };
    if l > 0 {
        lemma_with_layer_at_wires(g, p, l - 1);
        let j = l - 1;
        if j == p {
            assert(h[j].len() == 0);
            assert(wires_upto(h, j, None).add(Multiset::empty()) =~= wires_upto(h, j, None));
        } else {
            let src = if j < p {
                j
            } else {
                j - 1
            };
            assert(h[j] == rewired_row(g[src], how));
            lemma_row_lifted(g[src], p, src, g[src].len() as int);
        }
    }
}

/// What the insertion of a neuron into a connection does to the
/// connections of a graph, where it succeeds and the connections of the
/// source lead to distinct targets: the connection that was split is gone,
/// the two new ones are there, and every other connection is kept, with
/// what it carries and between the nodes it joined, one layer up where it
/// starts from or leads to the layer that was opened or a later one. So the
/// graph has one connection more than it had.
pub proof fn lemma_split_wires(
    g: Layers,
    from: GraphLocation,
    i: int,
    neuron: Neuron,
)
    requires
        well_formed(g),
        has_node(g, from),
        0 <= i < node_at(g, from).connections.len(),
        distinct_targets(node_at(g, from).connections),
        split(g, from, node_at(g, from).connections[i], neuron).failure is None,
    ensures
        ({
            let link = node_at(g, from).connections[i];
            let st = split(g, from, link, neuron);
            let layer = (from.layer + 1) as GraphSize;
            let opened = if needs_layer(from, link.to) {
                Some(layer)
            } else {
                None
            };
            let at = GraphLocation {
                layer,
                node: (st.graph[layer as int].len() - 1) as GraphSize,
            };
            let old_wires = wires_upto(g, g.len() as int, opened);
            &&& st.graph.len() == g.len() + if needs_layer(from, link.to) {
                1int
            } else {
                0int
            }
            &&& layer < st.graph.len()
            &&& st.graph[layer as int].len() > 0
            &&& node_at(st.graph, at).value == Node::Neuron(neuron)
            &&& wires(st.graph).insert(wire_of(from.layer as int, from.node as int, link, opened))
                == old_wires.insert(Wire { from, to: at, value: link.value }).insert(
                Wire { from: at, to: raised(link.to, opened), value: Edge { weight: 0, enabled: false } },
            )
            &&& wires(st.graph).len() == old_wires.len() + 1
        }),
{
    let link = node_at(g, from).connections[i];
    let st = split(g, from, link, neuron);
    let layer = (from.layer + 1) as GraphSize;
    let opened = if needs_layer(from, link.to) {
        Some(layer)
    } else {
        None
    };
    let w0 = wire_of(from.layer as int, from.node as int, link, opened);
    let g1 = without_edge(g, from, link.to);
    lemma_without_edge_wires(g, from, link.to, i, opened);
    let g2 = if needs_layer(from, link.to) {
        with_layer_at(g1, layer)
    } else {
        g1
    };
    if needs_layer(from, link.to) {
        lemma_with_layer_at_wires(g1, layer, g1.len() as int + 1);
    }
    assert(wires(g2) == wires_upto(g1, g1.len() as int, opened));
    let target = raised(link.to, opened);
    let slot = GraphLocation { layer, node: g2[layer as int].len() as GraphSize };
    let g3 = with_node_pushed(g2, layer, Node::Neuron(neuron));
    lemma_with_node_pushed_wires(g2, layer, Node::Neuron(neuron), None);
    let g4 = with_edge(g3, from, slot, link.value);
    assert(add_edge_outcome(g3, from, slot) is Ok);
    lemma_with_edge_wires(g3, from, slot, link.value, None);
    let inert = Edge { weight: 0, enabled: false };
    assert(add_edge_outcome(g4, slot, target) is Ok);
    lemma_with_edge_wires(g4, slot, target, inert, None);
    assert(st.graph == with_edge(g4, slot, target, inert));
    let w1 = Wire { from, to: slot, value: link.value };
    let w2 = Wire { from: slot, to: target, value: inert };
    assert(wire_of(from.layer as int, from.node as int, GraphEdge { to: slot, value: link.value }, None)
        == w1);
    assert(wire_of(slot.layer as int, slot.node as int, GraphEdge { to: target, value: inert }, None)
        == w2);
    let rest = wires_upto(g1, g1.len() as int, opened);
    assert(rest.insert(w1).insert(w2).insert(w0) =~= rest.insert(w0).insert(w1).insert(w2));
}

/// After the insertion of a neuron into a connection, the source of the
/// connection is not connected to its target any more: the only way from
/// the one to the other leads through the new neuron.
pub proof fn lemma_split_unlinks(g: Layers, from: GraphLocation, link: GraphEdge, neuron: Neuron)
    requires
        well_formed(g),
        has_node(g, from),
        split(g, from, link, neuron).failure is None,
    ensures
        ({
            let opened = if needs_layer(from, link.to) {
                Some((from.layer + 1) as GraphSize)
            } else {
                None
            };
            !has_edge(split(g, from, link, neuron).graph, from, raised(link.to, opened))
        }),
{
    let layer = (from.layer + 1) as GraphSize;
    let opened = if needs_layer(from, link.to) {
        Some(layer)
    } else {
        None
    };
    let target = raised(link.to, opened);
    let conns = node_at(g, from).connections;
    let kept = without_target(conns, link.to);
    lemma_without_target(conns, link.to);
    let g1 = without_edge(g, from, link.to);
    assert(node_at(g1, from).connections == kept);
    assert forall|k: int| 0 <= k < kept.len() implies (#[trigger] kept[k]).to.layer < g.len() by {
        assert(kept.contains(kept[k]));
        assert(conns.contains(kept[k]));
        let j = choose|j: int| 0 <= j < conns.len() && conns[j] == kept[k];
        assert(g[from.layer as int][from.node as int].connections[j].to.layer < g.len());
    }
    let g2 = if needs_layer(from, link.to) {
        with_layer_at(g1, layer)
    } else {
        g1
    };
    let moved = node_at(g2, from).connections;
    assert(!leads_to(moved, target)) by {
        if needs_layer(from, link.to) {
            let how = Rewire::Lift { at: layer };
            assert(g2[from.layer as int] == rewired_row(g1[from.layer as int], how));
            assert(moved == kept.map_values(|e: GraphEdge| lifted(e, layer)));
            if leads_to(moved, target) {
                let k = choose|k: int| 0 <= k < moved.len() && (#[trigger] moved[k]).to == target;
                assert(moved[k] == lifted(kept[k], layer));
                assert(kept[k].to.layer < g.len());
                assert(kept[k].to == link.to);
            }
        }
    }
    let slot = GraphLocation { layer, node: g2[layer as int].len() as GraphSize };
    let g3 = with_node_pushed(g2, layer, Node::Neuron(neuron));
    assert(node_at(g3, from).connections == moved);
    let g4 = with_edge(g3, from, slot, link.value);
    assert(add_edge_outcome(g3, from, slot) is Ok);
    let joined = node_at(g4, from).connections;
    assert(joined == moved.push(GraphEdge { to: slot, value: link.value }));
    assert(!leads_to(joined, target)) by {
        if leads_to(joined, target) {
            let k = choose|k: int| 0 <= k < joined.len() && (#[trigger] joined[k]).to == target;
            if k < moved.len() {
                assert(moved[k].to == target);
            }
        }
    }
    let inert = Edge { weight: 0, enabled: false };
    assert(add_edge_outcome(g4, slot, target) is Ok);
    let g5 = with_edge(g4, slot, target, inert);
    assert(node_at(g5, from).connections == joined);
}

} // verus!
