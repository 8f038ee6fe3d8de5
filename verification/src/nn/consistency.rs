//! What holds of every graph that the engine has made, and which edit keeps
//! it: each kind of node stands in the layers meant for it, and a node has
//! at most one connection to a target.
use vstd::prelude::*;
use crate::nn::has_edge;
use crate::nn::has_node;
use crate::nn::layers::blank_node;
use crate::nn::layers::forward_only;
use crate::nn::layers::grown;
use crate::nn::layers::lemma_grown;
use crate::nn::layers::lemma_with_layer_at;
use crate::nn::layers::lifted;
use crate::nn::layers::opening;
use crate::nn::layers::padded;
use crate::nn::layers::rewired_node;
use crate::nn::layers::rewired_row;
use crate::nn::layers::room_for;
use crate::nn::layers::targets_in_layers;
use crate::nn::layers::well_formed;
use crate::nn::layers::with_layer_at;
use crate::nn::layers::with_node_created;
use crate::nn::layers::without_node;
use crate::nn::layers::Rewire;
use crate::nn::lemma_edge_index;
use crate::nn::lemma_without_target;
use crate::nn::mutate::with_edge_enabled;
use crate::nn::mutate::with_node_pushed;
use crate::nn::mutate::without_edge;
use crate::nn::node_at;
use crate::nn::prune::blanks_before;
use crate::nn::prune::closed_up;
use crate::nn::prune::leads_to_blank;
use crate::nn::prune::lemma_blanks_before;
use crate::nn::prune::lemma_pruned;
use crate::nn::prune::no_blanks;
use crate::nn::prune::lemma_pruned_row_sources;
use crate::nn::prune::pruned;
use crate::nn::prune::pruned_connections;
use crate::nn::synth::basic_layers;
use crate::nn::with_edge;
use crate::nn::without_target;
use crate::nn::Edge;
use crate::nn::GraphEdge;
use crate::nn::GraphLocation;
use crate::nn::GraphNodeView;
use crate::nn::GraphSize;
use crate::nn::Layers;
use crate::nn::Net;
use crate::nn::Node;
use crate::nn::GRAPH_LIMIT;

verus! {

/// No two connections of `conns` lead to the same target.
pub open spec fn distinct_targets(conns: Seq<GraphEdge>) -> bool {
    forall|i: int, j: int|
        0 <= i < j < conns.len() ==> (#[trigger] conns[i]).to != (#[trigger] conns[j]).to
}

/// No node of `g` has two connections to the same target.
pub open spec fn unique_edges(g: Layers) -> bool {
    forall|l: int, n: int|
        0 <= l < g.len() && 0 <= n < g[l].len() ==> distinct_targets(
            (#[trigger] g[l][n]).connections,
        )
}

/// Whether a node that holds `value` may stand in layer `l` of a graph of
/// `depth` layers: an input neuron in the first layer, an output neuron in
/// the last, a hidden neuron or a placeholder in between.
pub open spec fn fits_role(depth: int, l: int, value: Node) -> bool {
    if l == 0 {
        value is Input
    } else if l == depth - 1 {
        value is Output
    } else {
        value is Neuron || value is Blank
    }
}

/// The graph `g` has at least two layers, and each of its nodes stands in a
/// layer meant for it.
pub open spec fn roles_hold(g: Layers) -> bool {
    &&& g.len() >= 2
    &&& forall|l: int, n: int|
        0 <= l < g.len() && 0 <= n < g[l].len() ==> fits_role(
            g.len() as int,
            l,
            (#[trigger] g[l][n]).value,
        )
}

/// The graph `g` is as every graph of the engine is meant to be: every
/// index fits a location, every connection leads to a later layer that `g`
/// has, no node has two connections to the same target, and each node
/// stands in a layer meant for it.
pub open spec fn consistent(g: Layers) -> bool {
    &&& well_formed(g)
    &&& forward_only(g)
    &&& unique_edges(g)
    &&& roles_hold(g)
}

impl Net {
    /// The net names its first layer as its input layer and its last as its
    /// output layer, its graph is consistent, and no node of it is a
    /// placeholder.
    pub open spec fn valid(&self) -> bool {
        self.shaped() && consistent(self.graph@) && no_blanks(self.graph@)
    }
}

/// Two graphs whose nodes hold the same values in the same places have
/// their nodes in the same roles.
pub proof fn lemma_same_values(g: Layers, h: Layers)
    requires
        h.len() == g.len(),
        forall|l: int| 0 <= l < g.len() ==> (#[trigger] h[l]).len() == g[l].len(),
        forall|l: int, n: int|
            0 <= l < g.len() && 0 <= n < g[l].len() ==> (#[trigger] h[l][n]).value
                == g[l][n].value,
    ensures
        roles_hold(g) ==> roles_hold(h),
        no_blanks(g) ==> no_blanks(h),
{
    if roles_hold(g) {
        assert forall|l: int, n: int| 0 <= l < h.len() && 0 <= n < h[l].len() implies fits_role(
            h.len() as int,
            l,
            (#[trigger] h[l][n]).value,
        ) by {
            assert(h[l].len() == g[l].len());
            assert(fits_role(g.len() as int, l, g[l][n].value));
        }
    }
    if no_blanks(g) {
        assert forall|l: int, n: int| 0 <= l < h.len() && 0 <= n < h[l].len() implies !((
        #[trigger] h[l][n]).value is Blank) by {
            assert(h[l].len() == g[l].len());
            assert(!(g[l][n].value is Blank));
        }
    }
}

/// The connections that are left when those to one target are dropped
/// lead to distinct targets, if all did.
pub proof fn lemma_without_target_distinct(conns: Seq<GraphEdge>, to: GraphLocation)
    requires
        distinct_targets(conns),
    ensures
        distinct_targets(without_target(conns, to)),
    decreases conns.len(),
{
    if conns.len() > 0 {
        let init = conns.drop_last();
        assert(distinct_targets(init)) by {
            assert forall|i: int, j: int| 0 <= i < j < init.len() implies (#[trigger] init[i]).to != (
            #[trigger] init[j]).to by {
                assert(conns[i].to != conns[j].to);
            }
        }
        lemma_without_target_distinct(init, to);
        lemma_without_target(init, to);
        let out = without_target(conns, to);
        let inner = without_target(init, to);
        assert forall|i: int, j: int| 0 <= i < j < out.len() implies (#[trigger] out[i]).to != (
        #[trigger] out[j]).to by {
            if j < inner.len() {
                assert(inner[i].to != inner[j].to);
            } else {
                assert(inner.contains(inner[i]));
                assert(init.contains(inner[i]));
                let k = choose|k: int| 0 <= k < init.len() && init[k] == inner[i];
                assert(conns[k].to != conns[conns.len() - 1].to);
            }
        }
    }
}

/// Adding a connection to a target that the node has none to keeps the
/// roles, and keeps the connections unique.
pub proof fn lemma_with_edge_keeps(g: Layers, from: GraphLocation, to: GraphLocation, value: Edge)
    requires
        has_node(g, from),
        !has_edge(g, from, to),
    ensures
        unique_edges(g) ==> unique_edges(with_edge(g, from, to, value)),
        roles_hold(g) ==> roles_hold(with_edge(g, from, to, value)),
        no_blanks(g) ==> no_blanks(with_edge(g, from, to, value)),
{
    let h = with_edge(g, from, to, value);
    lemma_same_values(g, h);
    if unique_edges(g) {
        assert forall|l: int, n: int| 0 <= l < h.len() && 0 <= n < h[l].len() implies distinct_targets(
            (#[trigger] h[l][n]).connections,
        ) by {
            let old_conns = g[l][n].connections;
            assert(distinct_targets(old_conns));
            if l == from.layer && n == from.node {
                let conns = h[l][n].connections;
                assert forall|i: int, j: int| 0 <= i < j < conns.len() implies (#[trigger] conns[i]).to
                    != (#[trigger] conns[j]).to by {
                    if j < old_conns.len() {
                        assert(old_conns[i].to != old_conns[j].to);
                    } else {
                        assert(old_conns[i].to != to);
                    }
                }
            } else {
                assert(h[l][n] == g[l][n]);
            }
        }
    }
}

/// Dropping the connections to one target keeps the roles, and keeps the
/// connections unique.
pub proof fn lemma_without_edge_keeps(g: Layers, from: GraphLocation, to: GraphLocation)
    ensures
        unique_edges(g) ==> unique_edges(without_edge(g, from, to)),
        roles_hold(g) ==> roles_hold(without_edge(g, from, to)),
        no_blanks(g) ==> no_blanks(without_edge(g, from, to)),
{
    let h = without_edge(g, from, to);
    if has_node(g, from) {
        lemma_same_values(g, h);
        if unique_edges(g) {
            assert forall|l: int, n: int|
                0 <= l < h.len() && 0 <= n < h[l].len() implies distinct_targets(
                (#[trigger] h[l][n]).connections,
            ) by {
                assert(distinct_targets(g[l][n].connections));
                if l == from.layer && n == from.node {
                    lemma_without_target_distinct(g[l][n].connections, to);
                } else {
                    assert(h[l][n] == g[l][n]);
                }
            }
        }
    }
}

/// Enabling a connection keeps the roles, and keeps the connections
/// unique.
pub proof fn lemma_with_edge_enabled_keeps(g: Layers, from: GraphLocation, to: GraphLocation)
    requires
        has_edge(g, from, to),
    ensures
        unique_edges(g) ==> unique_edges(with_edge_enabled(g, from, to)),
        roles_hold(g) ==> roles_hold(with_edge_enabled(g, from, to)),
        no_blanks(g) ==> no_blanks(with_edge_enabled(g, from, to)),
{
    let h = with_edge_enabled(g, from, to);
    lemma_edge_index(node_at(g, from).connections, to);
    lemma_same_values(g, h);
    if unique_edges(g) {
        assert forall|l: int, n: int| 0 <= l < h.len() && 0 <= n < h[l].len() implies distinct_targets(
            (#[trigger] h[l][n]).connections,
        ) by {
            let old_conns = g[l][n].connections;
            assert(distinct_targets(old_conns));
            let conns = h[l][n].connections;
            assert forall|i: int, j: int| 0 <= i < j < conns.len() implies (#[trigger] conns[i]).to != (
            #[trigger] conns[j]).to by {
                assert(old_conns[i].to != old_conns[j].to);
                assert(conns[i].to == old_conns[i].to);
                assert(conns[j].to == old_conns[j].to);
            }
        }
    }
}

/// Opening a layer keeps the connections unique; and it keeps the roles,
/// where the layer is opened behind the first layer and in front of the
/// last.
pub proof fn lemma_with_layer_at_keeps(g: Layers, p: GraphSize)
    requires
        p <= g.len(),
        g.len() < GRAPH_LIMIT,
        targets_in_layers(g),
    ensures
        unique_edges(g) ==> unique_edges(with_layer_at(g, p)),
        roles_hold(g) && 1 <= p < g.len() ==> roles_hold(with_layer_at(g, p)),
        no_blanks(g) ==> no_blanks(with_layer_at(g, p)),
{
    let h = with_layer_at(g, p);
    let how = Rewire::Lift { at: p };
    if no_blanks(g) {
        assert forall|l: int, n: int| 0 <= l < h.len() && 0 <= n < h[l].len() implies !((
        #[trigger] h[l][n]).value is Blank) by {
            let src = if l < p {
                l
            } else {
                l - 1
            };
            assert(h[l] == rewired_row(g[src], how));
            assert(h[l][n].value == g[src][n].value);
            assert(!(g[src][n].value is Blank));
        }
    }
    if unique_edges(g) {
        assert forall|l: int, n: int| 0 <= l < h.len() && 0 <= n < h[l].len() implies distinct_targets(
            (#[trigger] h[l][n]).connections,
        ) by {
            let src = if l < p {
                l
            } else {
                l - 1
            };
            assert(h[l] == rewired_row(g[src], how));
            assert(h[l][n] == rewired_node(g[src][n], how));
            let old_conns = g[src][n].connections;
            assert(distinct_targets(old_conns));
            let conns = h[l][n].connections;
            assert forall|i: int, j: int| 0 <= i < j < conns.len() implies (#[trigger] conns[i]).to != (
            #[trigger] conns[j]).to by {
                assert(conns[i] == lifted(old_conns[i], p));
                assert(conns[j] == lifted(old_conns[j], p));
                assert(old_conns[i].to != old_conns[j].to);
                assert(g[src][n].connections[i].to.layer < g.len());
                assert(g[src][n].connections[j].to.layer < g.len());
            }
        }
    }
    if roles_hold(g) && 1 <= p < g.len() {
        assert forall|l: int, n: int| 0 <= l < h.len() && 0 <= n < h[l].len() implies fits_role(
            h.len() as int,
            l,
            (#[trigger] h[l][n]).value,
        ) by {
            let src = if l < p {
                l
            } else {
                l - 1
            };
            assert(h[l] == rewired_row(g[src], how));
            assert(h[l][n].value == g[src][n].value);
            assert(fits_role(g.len() as int, src, g[src][n].value));
        }
    }
}

/// Growing a graph keeps the connections unique; and it keeps the roles,
/// where it is grown for a layer behind the first.
pub proof fn lemma_grown_keeps(g: Layers, at: GraphSize)
    requires
        well_formed(g),
        at < GraphSize::MAX,
    ensures
        unique_edges(g) ==> unique_edges(grown(g, at)),
        roles_hold(g) && 1 <= at ==> roles_hold(grown(g, at)),
        no_blanks(g) ==> no_blanks(grown(g, at)),
    decreases at + 2 - g.len(),
{
    if at + 2 > g.len() {
        let p = opening(g, at);
        lemma_with_layer_at(g, p);
        lemma_with_layer_at_keeps(g, p);
        let h = with_layer_at(g, p);
        assert forall|l: int| 0 <= l < h.len() implies (#[trigger] h[l]).len() <= GRAPH_LIMIT by {
            if l < p {
                assert(h[l].len() == g[l].len());
            } else if l > p {
                assert(h[l].len() == g[l - 1].len());
            }
        }
        lemma_grown_keeps(h, at);
    }
}

/// Appending a node without connections keeps the connections unique; and
/// it keeps the roles, where the node may stand in the layer.
pub proof fn lemma_with_node_pushed_keeps(g: Layers, layer: GraphSize, value: Node)
    requires
        layer < g.len(),
    ensures
        unique_edges(g) ==> unique_edges(with_node_pushed(g, layer, value)),
        roles_hold(g) && fits_role(g.len() as int, layer as int, value) ==> roles_hold(
            with_node_pushed(g, layer, value),
        ),
        no_blanks(g) && !(value is Blank) ==> no_blanks(with_node_pushed(g, layer, value)),
{
    let h = with_node_pushed(g, layer, value);
    if no_blanks(g) && !(value is Blank) {
        assert forall|l: int, n: int| 0 <= l < h.len() && 0 <= n < h[l].len() implies !((
        #[trigger] h[l][n]).value is Blank) by {
            if l == layer && n == g[l].len() {
            } else {
                assert(h[l][n] == g[l][n]);
                assert(!(g[l][n].value is Blank));
            }
        }
    }
    if unique_edges(g) {
        assert forall|l: int, n: int| 0 <= l < h.len() && 0 <= n < h[l].len() implies distinct_targets(
            (#[trigger] h[l][n]).connections,
        ) by {
            if l == layer && n == g[l].len() {
            } else {
                assert(h[l][n] == g[l][n]);
                assert(distinct_targets(g[l][n].connections));
            }
        }
    }
    if roles_hold(g) && fits_role(g.len() as int, layer as int, value) {
        assert forall|l: int, n: int| 0 <= l < h.len() && 0 <= n < h[l].len() implies fits_role(
            h.len() as int,
            l,
            (#[trigger] h[l][n]).value,
        ) by {
            if l == layer && n == g[l].len() {
            } else {
                assert(h[l][n] == g[l][n]);
                assert(fits_role(g.len() as int, l, g[l][n].value));
            }
        }
    }
}

/// Removing a node keeps the roles, and keeps the connections unique.
pub proof fn lemma_without_node_keeps(g: Layers, loc: GraphLocation)
    ensures
        unique_edges(g) ==> unique_edges(without_node(g, loc)),
        roles_hold(g) ==> roles_hold(without_node(g, loc)),
        no_blanks(g) ==> no_blanks(without_node(g, loc)),
{
    let rest = if has_node(g, loc) {
        g.update(loc.layer as int, g[loc.layer as int].remove(loc.node as int))
    } else {
        g
    };
    let h = without_node(g, loc);
    let how = Rewire::Cut { target: loc };
    assert forall|l: int, n: int| 0 <= l < h.len() && 0 <= n < h[l].len() implies {
        let m = if has_node(g, loc) && l == loc.layer && n >= loc.node {
            n + 1
        } else {
            n
        };
        &&& 0 <= m < g[l].len()
        &&& (#[trigger] h[l][n]).value == g[l][m].value
        &&& h[l][n].connections == without_target(g[l][m].connections, loc)
    } by {
        let m = if has_node(g, loc) && l == loc.layer && n >= loc.node {
            n + 1
        } else {
            n
        };
        assert(h[l] == rewired_row(rest[l], how));
        assert(h[l][n] == rewired_node(rest[l][n], how));
        assert(rest[l][n] == g[l][m]);
    }
    if unique_edges(g) {
        assert forall|l: int, n: int| 0 <= l < h.len() && 0 <= n < h[l].len() implies distinct_targets(
            (#[trigger] h[l][n]).connections,
        ) by {
            let m = if has_node(g, loc) && l == loc.layer && n >= loc.node {
                n + 1
            } else {
                n
            };
            assert(h[l][n].connections == without_target(g[l][m].connections, loc));
            assert(distinct_targets(g[l][m].connections));
            lemma_without_target_distinct(g[l][m].connections, loc);
        }
    }
    if roles_hold(g) {
        assert forall|l: int, n: int| 0 <= l < h.len() && 0 <= n < h[l].len() implies fits_role(
            h.len() as int,
            l,
            (#[trigger] h[l][n]).value,
        ) by {
            let m = if has_node(g, loc) && l == loc.layer && n >= loc.node {
                n + 1
            } else {
                n
            };
            assert(h[l][n].value == g[l][m].value);
            assert(fits_role(g.len() as int, l, g[l][m].value));
        }
    }
    if no_blanks(g) {
        assert forall|l: int, n: int| 0 <= l < h.len() && 0 <= n < h[l].len() implies !((
        #[trigger] h[l][n]).value is Blank) by {
            let m = if has_node(g, loc) && l == loc.layer && n >= loc.node {
                n + 1
            } else {
                n
            };
            assert(h[l][n].value == g[l][m].value);
            assert(!(g[l][m].value is Blank));
        }
    }
}

/// Creating a node keeps the connections unique; and it keeps the roles,
/// where a hidden neuron or a placeholder is created behind the first
/// layer.
pub proof fn lemma_with_node_created_keeps(g: Layers, loc: GraphLocation, value: Node)
    requires
        well_formed(g),
        room_for(g, loc),
    ensures
        unique_edges(g) ==> unique_edges(with_node_created(g, loc, value)),
        roles_hold(g) && 1 <= loc.layer && (value is Neuron || value is Blank) ==> roles_hold(
            with_node_created(g, loc, value),
        ),
{
    lemma_grown(g, loc.layer);
    lemma_grown_keeps(g, loc.layer);
    let g1 = grown(g, loc.layer);
    let h = with_node_created(g, loc, value);
    let row = padded(g1[loc.layer as int], loc.node as int);
    assert forall|l: int, n: int| 0 <= l < h.len() && 0 <= n < h[l].len() implies {
        ||| (l == loc.layer && n == loc.node && (#[trigger] h[l][n]) == (GraphNodeView {
            value,
            connections: Seq::empty(),
        }))
        ||| h[l][n] == blank_node()
        ||| exists|m: int| 0 <= m < g1[l].len() && h[l][n] == g1[l][m]
    } by {
        if l == loc.layer {
            if n < loc.node {
                if n < g1[l].len() {
                    assert(h[l][n] == g1[l][n]);
                } else {
                    assert(h[l][n] == blank_node());
                }
            } else if n > loc.node {
                assert(h[l][n] == row[n - 1]);
                if n - 1 < g1[l].len() {
                    assert(row[n - 1] == g1[l][n - 1]);
                } else {
                    assert(h[l][n] == blank_node());
                }
            }
        } else {
            assert(h[l][n] == g1[l][n]);
        }
    }
    if unique_edges(g) {
        assert forall|l: int, n: int| 0 <= l < h.len() && 0 <= n < h[l].len() implies distinct_targets(
            (#[trigger] h[l][n]).connections,
        ) by {
            if exists|m: int| 0 <= m < g1[l].len() && h[l][n] == g1[l][m] {
                let m = choose|m: int| 0 <= m < g1[l].len() && h[l][n] == g1[l][m];
                assert(distinct_targets(g1[l][m].connections));
            }
        }
    }
    if roles_hold(g) && 1 <= loc.layer && (value is Neuron || value is Blank) {
        assert forall|l: int, n: int| 0 <= l < h.len() && 0 <= n < h[l].len() implies fits_role(
            h.len() as int,
            l,
            (#[trigger] h[l][n]).value,
        ) by {
            if exists|m: int| 0 <= m < g1[l].len() && h[l][n] == g1[l][m] {
                let m = choose|m: int| 0 <= m < g1[l].len() && h[l][n] == g1[l][m];
                assert(fits_role(g1.len() as int, l, g1[l][m].value));
            } else if l == 0 || l == h.len() - 1 {
                assert(l != loc.layer);
                assert(h[l][n] == g1[l][n]);
                assert(fits_role(g1.len() as int, l, g1[l][n].value));
            }
        }
    }
}

/// The placeholders between two indices of a layer are at most as many as
/// the nodes between them, and fewer if the node at the first index is no
/// placeholder; past the end of the layer there are none.
proof fn lemma_blanks_between(row: Seq<GraphNodeView>, lo: int, hi: int)
    requires
        0 <= lo <= hi,
    ensures
        0 <= blanks_before(row, hi) - blanks_before(row, lo) <= hi - lo,
        lo < hi && !(lo < row.len() && row[lo].value is Blank) ==> blanks_before(row, hi)
            - blanks_before(row, lo) < hi - lo,
    decreases hi - lo,
{
    if lo < hi {
        lemma_blanks_between(row, lo, hi - 1);
    }
}

/// Connections to distinct targets that are no placeholders close up to
/// connections to distinct targets.
proof fn lemma_closed_up_distinct(g: Layers, x: GraphEdge, y: GraphEdge)
    requires
        x.to != y.to,
        !leads_to_blank(g, x),
        !leads_to_blank(g, y),
    ensures
        closed_up(g, x).to != closed_up(g, y).to,
{
    if x.to.layer == y.to.layer && x.to.layer < g.len() {
        let row = g[x.to.layer as int];
        let a = x.to.node as int;
        let b = y.to.node as int;
        lemma_blanks_before(row, a);
        lemma_blanks_before(row, b);
        if a < b {
            lemma_blanks_between(row, a, b);
        } else {
            lemma_blanks_between(row, b, a);
        }
    }
}

/// Pruned connections lead to distinct targets, if the connections did.
proof fn lemma_pruned_connections_distinct(g: Layers, conns: Seq<GraphEdge>)
    requires
        distinct_targets(conns),
    ensures
        distinct_targets(pruned_connections(g, conns)),
        forall|i: int|
            0 <= i < pruned_connections(g, conns).len() ==> exists|k: int|
                0 <= k < conns.len() && !leads_to_blank(g, conns[k]) && (
                #[trigger] pruned_connections(g, conns)[i]) == closed_up(g, conns[k]),
    decreases conns.len(),
{
    if conns.len() > 0 {
        let init = conns.drop_last();
        assert(distinct_targets(init)) by {
            assert forall|i: int, j: int| 0 <= i < j < init.len() implies (#[trigger] init[i]).to != (
            #[trigger] init[j]).to by {
                assert(conns[i].to != conns[j].to);
            }
        }
        lemma_pruned_connections_distinct(g, init);
        let out = pruned_connections(g, conns);
        let inner = pruned_connections(g, init);
        assert forall|i: int| 0 <= i < out.len() implies exists|k: int|
            0 <= k < conns.len() && !leads_to_blank(g, conns[k]) && (#[trigger] out[i])
                == closed_up(g, conns[k]) by {
            if i < inner.len() {
                assert(out[i] == inner[i]);
                let k = choose|k: int|
                    0 <= k < init.len() && !leads_to_blank(g, init[k]) && inner[i] == closed_up(
                        g,
                        init[k],
                    );
                assert(conns[k] == init[k]);
            } else {
                let k = conns.len() - 1;
                assert(!leads_to_blank(g, conns[k]) && out[i] == closed_up(g, conns[k]));
            }
        }
        assert forall|i: int, j: int| 0 <= i < j < out.len() implies (#[trigger] out[i]).to != (
        #[trigger] out[j]).to by {
            if j < inner.len() {
                assert(inner[i].to != inner[j].to);
            } else {
                let k = choose|k: int|
                    0 <= k < init.len() && !leads_to_blank(g, init[k]) && inner[i] == closed_up(
                        g,
                        init[k],
                    );
                let last = conns.len() - 1;
                assert(conns[k].to != conns[last].to);
                lemma_closed_up_distinct(g, conns[k], conns[last]);
            }
        }
    }
}

/// Pruning keeps the roles, and keeps the connections unique.
pub proof fn lemma_pruned_keeps(g: Layers)
    ensures
        unique_edges(g) ==> unique_edges(pruned(g)),
        roles_hold(g) ==> roles_hold(pruned(g)),
        no_blanks(pruned(g)),
{
    let h = pruned(g);
    lemma_pruned(g);
    if unique_edges(g) {
        assert forall|l: int, n: int| 0 <= l < h.len() && 0 <= n < h[l].len() implies distinct_targets(
            (#[trigger] h[l][n]).connections,
        ) by {
            lemma_pruned_row_sources(g, g[l]);
            let m = choose|m: int|
                0 <= m < g[l].len() && !(g[l][m].value is Blank) && h[l][n].value == g[l][m].value
                    && h[l][n].connections == pruned_connections(g, g[l][m].connections);
            assert(distinct_targets(g[l][m].connections));
            lemma_pruned_connections_distinct(g, g[l][m].connections);
        }
    }
    if roles_hold(g) {
        assert forall|l: int, n: int| 0 <= l < h.len() && 0 <= n < h[l].len() implies fits_role(
            h.len() as int,
            l,
            (#[trigger] h[l][n]).value,
        ) by {
            lemma_pruned_row_sources(g, g[l]);
            let m = choose|m: int|
                0 <= m < g[l].len() && !(g[l][m].value is Blank) && h[l][n].value == g[l][m].value
                    && h[l][n].connections == pruned_connections(g, g[l][m].connections);
            assert(fits_role(g.len() as int, l, g[l][m].value));
        }
    }
}

/// A net of the input and output nodes of a net whose roles hold has no
/// two connections to the same target, and its roles hold.
pub proof fn lemma_basic_keeps(g: Layers)
    requires
        roles_hold(g),
    ensures
        unique_edges(basic_layers(g[0], g[g.len() - 1])),
        roles_hold(basic_layers(g[0], g[g.len() - 1])),
        no_blanks(basic_layers(g[0], g[g.len() - 1])),
{
    let h = basic_layers(g[0], g[g.len() - 1]);
    assert forall|l: int, n: int| 0 <= l < h.len() && 0 <= n < h[l].len() implies fits_role(
        h.len() as int,
        l,
        (#[trigger] h[l][n]).value,
    ) && distinct_targets(h[l][n].connections) && !(h[l][n].value is Blank) by {
        if l == 0 {
            assert(fits_role(g.len() as int, 0, g[0][n].value));
        } else {
            assert(fits_role(g.len() as int, g.len() - 1, g[g.len() - 1][n].value));
        }
    }
}

} // verus!
