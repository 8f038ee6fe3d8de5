//! Alignment of two graphs: which of their hidden neurons and connections
//! are the same genes.
use vstd::prelude::*;
use vstd::string::StringSliceAdditionalSpecFns;
use crate::nn::addressable;
use crate::nn::has_edge;
use crate::nn::has_node;
use crate::nn::kind_eq;
use crate::nn::layer_view;
use crate::nn::layers::forward_only;
use crate::nn::node_at;
use crate::nn::same_kind;
use crate::nn::GraphEdge;
use crate::nn::GraphLocation;
use crate::nn::GraphNode;
use crate::nn::GraphNodeView;
use crate::nn::GraphSize;
use crate::nn::Layers;
use crate::nn::Net;
use crate::nn::NeuralGraph;
use crate::nn::Node;
use crate::nn::GRAPH_LIMIT;
use crate::NeuronInfo;

verus! {

/// A connection together with the identity of the neuron at one of its
/// ends: of its source where connections into a node are compared, of its
/// target where connections out of a node are.
#[derive(Debug, Clone, Copy, PartialEq)]
pub struct ConnectionInfo {
    pub from: GraphLocation,
    pub to: GraphLocation,
    pub _type: &'static str,
    pub id: usize,
}

/// On which side of the aligned node an aligned connection stands.
#[derive(Debug, Clone, Copy, PartialEq, Eq, Structural)]
pub enum EdgeType {
    Incoming,
    Outgoing,
}

/// A gene that two graphs share.
#[derive(Debug, Clone, Copy, PartialEq)]
pub enum AlignedItem {
    /// The same neuron, with its location in the first and in the second
    /// graph.
    Node(GraphLocation, GraphLocation),
    /// The same connection, as the first and as the second graph hold it.
    Edge { data: (ConnectionInfo, ConnectionInfo), _type: EdgeType },
}

/// Whether the nodes `x` and `y` hold the same neuron: neither is a
/// placeholder, and kind and number agree.
pub open spec fn same_gene(x: Node, y: Node) -> bool {
    &&& !(x is Blank)
    &&& !(y is Blank)
    &&& same_kind(x.tag().spec_bytes(), y.tag().spec_bytes())
    &&& x.ident() == y.ident()
}

/// Whether the identities that `x` and `y` carry agree.
pub open spec fn info_matches(x: ConnectionInfo, y: ConnectionInfo) -> bool {
    same_kind(x._type.spec_bytes(), y._type.spec_bytes()) && x.id == y.id
}

/// Whether some item of `b` carries the identity that `x` carries.
pub open spec fn has_partner(b: Seq<ConnectionInfo>, x: ConnectionInfo) -> bool {
    exists|j: int| 0 <= j < b.len() && info_matches(x, #[trigger] b[j])
}

/// Whether `j` is the index of the first item of `b` that carries the
/// identity that `x` carries.
pub open spec fn is_first_partner(b: Seq<ConnectionInfo>, x: ConnectionInfo, j: int) -> bool {
    &&& 0 <= j < b.len()
    &&& info_matches(x, b[j])
    &&& forall|i: int| 0 <= i < j ==> !info_matches(x, #[trigger] b[i])
}

/// The index of the first item of `b` that carries the identity that `x`
/// carries, or the length of `b` if there is none.
pub open spec fn partner_index(b: Seq<ConnectionInfo>, x: ConnectionInfo) -> int {
    if has_partner(b, x) {
        choose|j: int| is_first_partner(b, x, j)
    } else {
        b.len() as int
    }
}

/// Each item of `a` that has a partner in `b`, with its first partner, in
/// the order of `a`.
pub open spec fn paired(a: Seq<ConnectionInfo>, b: Seq<ConnectionInfo>) -> Seq<
    (ConnectionInfo, ConnectionInfo),
>
    decreases a.len(),
{
    if a.len() == 0 {
        Seq::empty()
    } else if has_partner(b, a.last()) {
        paired(a.drop_last(), b).push((a.last(), b[partner_index(b, a.last())]))
    } else {
        paired(a.drop_last(), b)
    }
}

/// The items of `conns` that lead to `to`, in order.
pub open spec fn arriving_at(conns: Seq<ConnectionInfo>, to: GraphLocation) -> Seq<ConnectionInfo>
    decreases conns.len(),
{
    if conns.len() == 0 {
        conns
    } else if conns.last().to == to {
        arriving_at(conns.drop_last(), to).push(conns.last())
    } else {
        arriving_at(conns.drop_last(), to)
    }
}

/// The connection `e` out of `from`, with the identity of `node`.
pub open spec fn info_of(from: GraphLocation, e: GraphEdge, node: Node) -> ConnectionInfo {
    ConnectionInfo { from, to: e.to, _type: node.tag(), id: node.ident() }
}

/// The connections `conns` out of `from`, each with the identity of its
/// target in `g`, in order. A connection whose target is missing or a
/// placeholder has no such identity and is left out.
pub open spec fn leaving_with_targets(g: Layers, from: GraphLocation, conns: Seq<GraphEdge>) -> Seq<
    ConnectionInfo,
>
    decreases conns.len(),
{
    if conns.len() == 0 {
        Seq::empty()
    } else {
        let rest = leaving_with_targets(g, from, conns.drop_last());
        let e = conns.last();
        if has_node(g, e.to) && !(node_at(g, e.to).value is Blank) {
            rest.push(info_of(from, e, node_at(g, e.to).value))
        } else {
            rest
        }
    }
}

/// The connections out of `node`, which stands at `from`, each with the
/// identity of `node`, in order. A placeholder has no identity and gives
/// none.
pub open spec fn leaving_node(node: GraphNodeView, from: GraphLocation) -> Seq<ConnectionInfo> {
    if node.value is Blank {
        Seq::empty()
    } else {
        node.connections.map_values(|e: GraphEdge| info_of(from, e, node.value))
    }
}

/// The connections out of the first `count` nodes of `row`, which is layer
/// `layer`, each with the identity of its source, node by node.
pub open spec fn leaving_layer(row: Seq<GraphNodeView>, layer: GraphSize, count: int) -> Seq<
    ConnectionInfo,
>
    decreases count,
{
    if count <= 0 {
        Seq::empty()
    } else {
        leaving_layer(row, layer, count - 1) + leaving_node(
            row[count - 1],
            GraphLocation { layer, node: (count - 1) as GraphSize },
        )
    }
}

/// The pairs `pairs` as aligned connections on the side `side`.
pub open spec fn as_items(pairs: Seq<(ConnectionInfo, ConnectionInfo)>, side: EdgeType) -> Seq<
    AlignedItem,
> {
    pairs.map_values(
        |p: (ConnectionInfo, ConnectionInfo)| (AlignedItem::Edge { data: p, _type: side }),
    )
}

/// What the node at `a_loc` in `a` and the node at `b_loc` in `b` have in
/// common, where `a_prev` and `b_prev` are the connections out of the
/// layers in front of them. Nothing, unless they hold the same neuron. If
/// they do: the connections into them whose sources are the same neuron,
/// and the connections out of them whose targets are; in front of these,
/// if there is any, the pair of nodes itself.
pub open spec fn pair_items(
    a: Layers,
    b: Layers,
    a_prev: Seq<ConnectionInfo>,
    b_prev: Seq<ConnectionInfo>,
    a_loc: GraphLocation,
    b_loc: GraphLocation,
) -> Seq<AlignedItem> {
    if !same_gene(node_at(a, a_loc).value, node_at(b, b_loc).value) {
        Seq::empty()
    } else {
        let incoming = paired(arriving_at(a_prev, a_loc), arriving_at(b_prev, b_loc));
        let outgoing = paired(
            leaving_with_targets(a, a_loc, node_at(a, a_loc).connections),
            leaving_with_targets(b, b_loc, node_at(b, b_loc).connections),
        );
        let head = if incoming.len() > 0 || outgoing.len() > 0 {
            seq![AlignedItem::Node(a_loc, b_loc)]
        } else {
            Seq::empty()
        };
        head + as_items(incoming, EdgeType::Incoming) + as_items(outgoing, EdgeType::Outgoing)
    }
}

/// What node `a_idx` of layer `layer` of `a` has in common with the first
/// `b_count` nodes of that layer of `b`, node by node.
pub open spec fn node_items(
    a: Layers,
    b: Layers,
    a_prev: Seq<ConnectionInfo>,
    b_prev: Seq<ConnectionInfo>,
    layer: GraphSize,
    a_idx: GraphSize,
    b_count: int,
) -> Seq<AlignedItem>
    decreases b_count,
{
    if b_count <= 0 {
        Seq::empty()
    } else {
        node_items(a, b, a_prev, b_prev, layer, a_idx, b_count - 1) + pair_items(
            a,
            b,
            a_prev,
            b_prev,
            GraphLocation { layer, node: a_idx },
            GraphLocation { layer, node: (b_count - 1) as GraphSize },
        )
    }
}

/// What the first `a_count` nodes of layer `layer` of `a` have in common
/// with the nodes of that layer of `b`, node by node.
pub open spec fn layer_items(
    a: Layers,
    b: Layers,
    a_prev: Seq<ConnectionInfo>,
    b_prev: Seq<ConnectionInfo>,
    layer: GraphSize,
    a_count: int,
) -> Seq<AlignedItem>
    decreases a_count,
{
    if a_count <= 0 {
        Seq::empty()
    } else {
        layer_items(a, b, a_prev, b_prev, layer, a_count - 1) + node_items(
            a,
            b,
            a_prev,
            b_prev,
            layer,
            (a_count - 1) as GraphSize,
            b[layer as int].len() as int,
        )
    }
}

/// What the layers `1` to `upto - 1` of `a` have in common with the layers
/// of `b` at the same indices, layer by layer. Connections into a node are
/// considered only where they come from the layer just in front of it.
pub open spec fn aligned_upto(a: Layers, b: Layers, upto: int) -> Seq<AlignedItem>
    decreases upto,
{
    if upto <= 1 {
        Seq::empty()
    } else {
        let l = upto - 1;
        aligned_upto(a, b, l) + layer_items(
            a,
            b,
            leaving_layer(a[l - 1], (l - 1) as GraphSize, a[l - 1].len() as int),
            leaving_layer(b[l - 1], (l - 1) as GraphSize, b[l - 1].len() as int),
            l as GraphSize,
            a[l].len() as int,
        )
    }
}

/// The number of leading layers in which `a` and `b` are compared: the
/// last layer of each is left out, and so is what the other does not have.
pub open spec fn compared_layers(a: Layers, b: Layers) -> int {
    if a.len() < b.len() {
        a.len() - 1
    } else {
        b.len() - 1
    }
}

/// The genes that `a` and `b` share. None where either has exactly two
/// layers: such a graph has no hidden layer.
pub open spec fn aligned(a: Layers, b: Layers) -> Seq<AlignedItem> {
    if a.len() == 2 || b.len() == 2 {
        Seq::empty()
    } else {
        aligned_upto(a, b, compared_layers(a, b))
    }
}

/// Whether the connection `x` leads to a later layer.
pub open spec fn info_forward(x: ConnectionInfo) -> bool {
    x.from.layer < x.to.layer
}

/// Whether the gene `item` respects the layers: a shared neuron stands in
/// the same layer in both graphs, and a shared connection leads to a later
/// layer in both.
pub open spec fn item_forward(item: AlignedItem) -> bool {
    match item {
        AlignedItem::Node(x, y) => x.layer == y.layer,
        AlignedItem::Edge { data, _type } => info_forward(data.0) && info_forward(data.1),
    }
}

/// Whether every gene of `items` respects the layers.
pub open spec fn all_forward(items: Seq<AlignedItem>) -> bool {
    forall|i: int| 0 <= i < items.len() ==> item_forward(#[trigger] items[i])
}

/// Whether `x` is a connection of `g`.
pub open spec fn info_in(g: Layers, x: ConnectionInfo) -> bool {
    has_edge(g, x.from, x.to)
}

/// Whether `item` is a gene that `a` and `b` share: a neuron that both
/// hold in the same hidden layer, or a connection that both have.
pub open spec fn item_fits(a: Layers, b: Layers, item: AlignedItem) -> bool {
    match item {
        AlignedItem::Node(x, y) => {
            &&& has_node(a, x)
            &&& has_node(b, y)
            &&& x.layer == y.layer
            &&& 1 <= x.layer
            &&& x.layer + 1 < a.len()
            &&& y.layer + 1 < b.len()
            &&& same_gene(node_at(a, x).value, node_at(b, y).value)
        },
        AlignedItem::Edge { data, _type } => {
            &&& info_in(a, data.0)
            &&& info_in(b, data.1)
            &&& has_node(a, data.0.to)
            &&& has_node(b, data.1.to)
            &&& same_gene(node_at(a, data.0.from).value, node_at(b, data.1.from).value)
            &&& same_gene(node_at(a, data.0.to).value, node_at(b, data.1.to).value)
        },
    }
}

/// Whether `x` is a connection of `g` and carries the identity of the
/// neuron at its source.
pub open spec fn sourced(g: Layers, x: ConnectionInfo) -> bool {
    &&& info_in(g, x)
    &&& !(node_at(g, x.from).value is Blank)
    &&& x._type == node_at(g, x.from).value.tag()
    &&& x.id == node_at(g, x.from).value.ident()
}

/// Whether `x` is a connection of `g` and carries the identity of the
/// neuron at its target.
pub open spec fn targeted(g: Layers, x: ConnectionInfo) -> bool {
    &&& info_in(g, x)
    &&& has_node(g, x.to)
    &&& !(node_at(g, x.to).value is Blank)
    &&& x._type == node_at(g, x.to).value.tag()
    &&& x.id == node_at(g, x.to).value.ident()
}

/// The two parts of every pair carry the same identity.
proof fn lemma_paired_matches(a: Seq<ConnectionInfo>, b: Seq<ConnectionInfo>)
    ensures
        forall|i: int|
            0 <= i < paired(a, b).len() ==> info_matches(
                (#[trigger] paired(a, b)[i]).0,
                paired(a, b)[i].1,
            ),
    decreases a.len(),
{
    if a.len() > 0 {
        lemma_paired_matches(a.drop_last(), b);
        lemma_partner_index(b, a.last());
        let out = paired(a, b);
        let inner = paired(a.drop_last(), b);
        assert forall|i: int| 0 <= i < out.len() implies info_matches(
            (#[trigger] out[i]).0,
            out[i].1,
        ) by {
            if i < inner.len() {
                assert(out[i] == inner[i]);
            }
        }
    }
}

/// The connections that arrive at a location lead to it.
proof fn lemma_arriving_to(conns: Seq<ConnectionInfo>, to: GraphLocation)
    ensures
        forall|i: int|
            0 <= i < arriving_at(conns, to).len() ==> (#[trigger] arriving_at(conns, to)[i]).to
                == to,
    decreases conns.len(),
{
    if conns.len() > 0 {
        lemma_arriving_to(conns.drop_last(), to);
        let out = arriving_at(conns, to);
        let inner = arriving_at(conns.drop_last(), to);
        assert forall|i: int| 0 <= i < out.len() implies (#[trigger] out[i]).to == to by {
            if i < inner.len() {
                assert(out[i] == inner[i]);
            }
        }
    }
}

/// Whether every item of `items` is a gene that `a` and `b` share.
pub open spec fn items_fit(a: Layers, b: Layers, items: Seq<AlignedItem>) -> bool {
    forall|i: int| 0 <= i < items.len() ==> item_fits(a, b, #[trigger] items[i])
}

/// What holds of every item of two lists holds of the parts of every pair
/// of them.
proof fn lemma_paired_all(
    a: Seq<ConnectionInfo>,
    b: Seq<ConnectionInfo>,
    first: spec_fn(ConnectionInfo) -> bool,
    second: spec_fn(ConnectionInfo) -> bool,
)
    requires
        forall|i: int| 0 <= i < a.len() ==> first(#[trigger] a[i]),
        forall|i: int| 0 <= i < b.len() ==> second(#[trigger] b[i]),
    ensures
        forall|i: int|
            0 <= i < paired(a, b).len() ==> first((#[trigger] paired(a, b)[i]).0) && second(
                paired(a, b)[i].1,
            ),
    decreases a.len(),
{
    if a.len() > 0 {
        lemma_paired_all(a.drop_last(), b, first, second);
        lemma_partner_index(b, a.last());
        let out = paired(a, b);
        let inner = paired(a.drop_last(), b);
        assert forall|i: int| 0 <= i < out.len() implies first((#[trigger] out[i]).0) && second(
            out[i].1,
        ) by {
            if i < inner.len() {
                assert(out[i] == inner[i]);
            } else {
                assert(first(a[a.len() - 1]));
                assert(second(b[partner_index(b, a.last())]));
            }
        }
    }
}

/// What holds of every connection of a list holds of those that arrive at
/// a location.
proof fn lemma_arriving_all(
    conns: Seq<ConnectionInfo>,
    to: GraphLocation,
    holds: spec_fn(ConnectionInfo) -> bool,
)
    requires
        forall|i: int| 0 <= i < conns.len() ==> holds(#[trigger] conns[i]),
    ensures
        forall|i: int|
            0 <= i < arriving_at(conns, to).len() ==> holds(#[trigger] arriving_at(conns, to)[i]),
    decreases conns.len(),
{
    if conns.len() > 0 {
        lemma_arriving_all(conns.drop_last(), to, holds);
        let out = arriving_at(conns, to);
        let inner = arriving_at(conns.drop_last(), to);
        assert forall|i: int| 0 <= i < out.len() implies holds(#[trigger] out[i]) by {
            if i < inner.len() {
                assert(out[i] == inner[i]);
            } else {
                assert(holds(conns[conns.len() - 1]));
            }
        }
    }
}

/// The connections out of the leading nodes of a layer are connections of
/// the graph.
proof fn lemma_leaving_layer(g: Layers, layer: GraphSize, count: int)
    requires
        addressable(g),
        layer < g.len(),
        count <= g[layer as int].len(),
    ensures
        forall|i: int|
            0 <= i < leaving_layer(g[layer as int], layer, count).len() ==> sourced(
                g,
                #[trigger] leaving_layer(g[layer as int], layer, count)[i],
            ),
    decreases count,
{
    if count > 0 {
        lemma_leaving_layer(g, layer, count - 1);
        let row = g[layer as int];
        assert(row.len() <= GRAPH_LIMIT);
        let head = leaving_layer(row, layer, count - 1);
        let from = GraphLocation { layer, node: (count - 1) as GraphSize };
        let tail = leaving_node(row[count - 1], from);
        let out = leaving_layer(row, layer, count);
        assert forall|i: int| 0 <= i < out.len() implies sourced(g, #[trigger] out[i]) by {
            if i < head.len() {
                assert(out[i] == head[i]);
            } else {
                let k = i - head.len();
                assert(out[i] == tail[k]);
                assert(!(row[count - 1].value is Blank));
                assert(out[i] == info_of(from, row[count - 1].connections[k], row[count - 1].value));
                assert(node_at(g, from).connections[k].to == out[i].to);
            }
        }
    }
}

/// The connections out of a node with the identities of their targets are
/// connections out of that node.
proof fn lemma_leaving_targets(g: Layers, from: GraphLocation, conns: Seq<GraphEdge>)
    ensures
        forall|i: int|
            0 <= i < leaving_with_targets(g, from, conns).len() ==> {
                let x = #[trigger] leaving_with_targets(g, from, conns)[i];
                &&& x.from == from
                &&& exists|k: int| 0 <= k < conns.len() && (#[trigger] conns[k]).to == x.to
                &&& has_node(g, x.to)
                &&& !(node_at(g, x.to).value is Blank)
                &&& x._type == node_at(g, x.to).value.tag()
                &&& x.id == node_at(g, x.to).value.ident()
            },
    decreases conns.len(),
{
    if conns.len() > 0 {
        let init = conns.drop_last();
        lemma_leaving_targets(g, from, init);
        let out = leaving_with_targets(g, from, conns);
        let inner = leaving_with_targets(g, from, init);
        assert forall|i: int| 0 <= i < out.len() implies {
            let x = #[trigger] out[i];
            &&& x.from == from
            &&& exists|k: int| 0 <= k < conns.len() && (#[trigger] conns[k]).to == x.to
            &&& has_node(g, x.to)
            &&& !(node_at(g, x.to).value is Blank)
            &&& x._type == node_at(g, x.to).value.tag()
            &&& x.id == node_at(g, x.to).value.ident()
        } by {
            if i < inner.len() {
                assert(out[i] == inner[i]);
                let k = choose|k: int| 0 <= k < init.len() && (#[trigger] init[k]).to == inner[i].to;
                assert(conns[k].to == out[i].to);
            } else {
                assert(conns[conns.len() - 1].to == out[i].to);
            }
        }
    }
}

/// What two hidden nodes of the same layer have in common are genes that
/// the graphs share.
proof fn lemma_pair_fits(
    a: Layers,
    b: Layers,
    a_prev: Seq<ConnectionInfo>,
    b_prev: Seq<ConnectionInfo>,
    a_loc: GraphLocation,
    b_loc: GraphLocation,
)
    requires
        has_node(a, a_loc),
        has_node(b, b_loc),
        a_loc.layer == b_loc.layer,
        1 <= a_loc.layer,
        a_loc.layer + 1 < a.len(),
        b_loc.layer + 1 < b.len(),
        forall|i: int| 0 <= i < a_prev.len() ==> sourced(a, #[trigger] a_prev[i]),
        forall|i: int| 0 <= i < b_prev.len() ==> sourced(b, #[trigger] b_prev[i]),
    ensures
        items_fit(a, b, pair_items(a, b, a_prev, b_prev, a_loc, b_loc)),
{
    let items = pair_items(a, b, a_prev, b_prev, a_loc, b_loc);
    if same_gene(node_at(a, a_loc).value, node_at(b, b_loc).value) {
        let from_a = |x: ConnectionInfo| sourced(a, x);
        let from_b = |x: ConnectionInfo| sourced(b, x);
        let to_a = |x: ConnectionInfo| targeted(a, x) && x.from == a_loc;
        let to_b = |x: ConnectionInfo| targeted(b, x) && x.from == b_loc;
        let a_in = arriving_at(a_prev, a_loc);
        let b_in = arriving_at(b_prev, b_loc);
        let a_conns = node_at(a, a_loc).connections;
        let b_conns = node_at(b, b_loc).connections;
        let a_out = leaving_with_targets(a, a_loc, a_conns);
        let b_out = leaving_with_targets(b, b_loc, b_conns);
        lemma_arriving_all(a_prev, a_loc, from_a);
        lemma_arriving_all(b_prev, b_loc, from_b);
        lemma_arriving_to(a_prev, a_loc);
        lemma_arriving_to(b_prev, b_loc);
        lemma_leaving_targets(a, a_loc, a_conns);
        lemma_leaving_targets(b, b_loc, b_conns);
        assert forall|i: int| 0 <= i < a_out.len() implies to_a(#[trigger] a_out[i]) by {
            let k = choose|k: int| 0 <= k < a_conns.len() && (#[trigger] a_conns[k]).to == a_out[i].to;
            assert(a_conns[k].to == a_out[i].to);
        }
        assert forall|i: int| 0 <= i < b_out.len() implies to_b(#[trigger] b_out[i]) by {
            let k = choose|k: int| 0 <= k < b_conns.len() && (#[trigger] b_conns[k]).to == b_out[i].to;
            assert(b_conns[k].to == b_out[i].to);
        }
        lemma_paired_all(a_in, b_in, from_a, from_b);
        lemma_paired_all(a_out, b_out, to_a, to_b);
        lemma_paired_matches(a_in, b_in);
        lemma_paired_matches(a_out, b_out);
        let incoming = paired(a_in, b_in);
        let outgoing = paired(a_out, b_out);
        assert forall|i: int| 0 <= i < incoming.len() implies (#[trigger] incoming[i]).0.to == a_loc
            && incoming[i].1.to == b_loc by {
            lemma_paired_ends(a_in, b_in, a_loc, b_loc);
        }
        let head = if incoming.len() > 0 || outgoing.len() > 0 {
            seq![AlignedItem::Node(a_loc, b_loc)]
        } else {
            Seq::empty()
        };
        let first = head + as_items(incoming, EdgeType::Incoming);
        assert forall|i: int| 0 <= i < items.len() implies item_fits(a, b, #[trigger] items[i]) by {
            if i < head.len() {
                assert(items[i] == head[i]);
            } else if i < first.len() {
                let p = incoming[i - head.len()];
                assert(items[i] == as_items(incoming, EdgeType::Incoming)[i - head.len()]);
                assert(from_a(p.0) && from_b(p.1));
                assert(info_matches(p.0, p.1));
                assert(p.0.to == a_loc && p.1.to == b_loc);
            } else {
                let p = outgoing[i - first.len()];
                assert(items[i] == as_items(outgoing, EdgeType::Outgoing)[i - first.len()]);
                assert(to_a(p.0) && to_b(p.1));
                assert(info_matches(p.0, p.1));
            }
        }
    }
}

/// The parts of the pairs of connections that lead to two locations lead
/// to those locations.
proof fn lemma_paired_ends(
    a: Seq<ConnectionInfo>,
    b: Seq<ConnectionInfo>,
    a_loc: GraphLocation,
    b_loc: GraphLocation,
)
    requires
        forall|i: int| 0 <= i < a.len() ==> (#[trigger] a[i]).to == a_loc,
        forall|i: int| 0 <= i < b.len() ==> (#[trigger] b[i]).to == b_loc,
    ensures
        forall|i: int|
            0 <= i < paired(a, b).len() ==> (#[trigger] paired(a, b)[i]).0.to == a_loc && paired(
                a,
                b,
            )[i].1.to == b_loc,
{
    let first = |x: ConnectionInfo| x.to == a_loc;
    let second = |x: ConnectionInfo| x.to == b_loc;
    lemma_paired_all(a, b, first, second);
}

/// Genes that the graphs share, followed by genes that they share, are
/// genes that they share.
proof fn lemma_items_fit_append(a: Layers, b: Layers, x: Seq<AlignedItem>, y: Seq<AlignedItem>)
    requires
        items_fit(a, b, x),
        items_fit(a, b, y),
    ensures
        items_fit(a, b, x + y),
{
    assert forall|i: int| 0 <= i < (x + y).len() implies item_fits(a, b, #[trigger] (x + y)[i]) by {
        if i < x.len() {
            assert((x + y)[i] == x[i]);
        } else {
            assert((x + y)[i] == y[i - x.len()]);
        }
    }
}

/// What a hidden node has in common with the nodes of the same layer of
/// another graph are genes that the graphs share.
proof fn lemma_node_fits(
    a: Layers,
    b: Layers,
    a_prev: Seq<ConnectionInfo>,
    b_prev: Seq<ConnectionInfo>,
    layer: GraphSize,
    a_idx: GraphSize,
    b_count: int,
)
    requires
        addressable(b),
        has_node(a, GraphLocation { layer, node: a_idx }),
        1 <= layer,
        layer + 1 < a.len(),
        layer + 1 < b.len(),
        b_count <= b[layer as int].len(),
        forall|i: int| 0 <= i < a_prev.len() ==> sourced(a, #[trigger] a_prev[i]),
        forall|i: int| 0 <= i < b_prev.len() ==> sourced(b, #[trigger] b_prev[i]),
    ensures
        items_fit(a, b, node_items(a, b, a_prev, b_prev, layer, a_idx, b_count)),
    decreases b_count,
{
    if b_count > 0 {
        lemma_node_fits(a, b, a_prev, b_prev, layer, a_idx, b_count - 1);
        assert(b[layer as int].len() <= GRAPH_LIMIT);
        let a_loc = GraphLocation { layer, node: a_idx };
        let b_loc = GraphLocation { layer, node: (b_count - 1) as GraphSize };
        lemma_pair_fits(a, b, a_prev, b_prev, a_loc, b_loc);
        lemma_items_fit_append(
            a,
            b,
            node_items(a, b, a_prev, b_prev, layer, a_idx, b_count - 1),
            pair_items(a, b, a_prev, b_prev, a_loc, b_loc),
        );
    }
}

/// What the nodes of a hidden layer have in common with the nodes of the
/// same layer of another graph are genes that the graphs share.
proof fn lemma_layer_fits(
    a: Layers,
    b: Layers,
    a_prev: Seq<ConnectionInfo>,
    b_prev: Seq<ConnectionInfo>,
    layer: GraphSize,
    a_count: int,
)
    requires
        addressable(a),
        addressable(b),
        1 <= layer,
        layer + 1 < a.len(),
        layer + 1 < b.len(),
        a_count <= a[layer as int].len(),
        forall|i: int| 0 <= i < a_prev.len() ==> sourced(a, #[trigger] a_prev[i]),
        forall|i: int| 0 <= i < b_prev.len() ==> sourced(b, #[trigger] b_prev[i]),
    ensures
        items_fit(a, b, layer_items(a, b, a_prev, b_prev, layer, a_count)),
    decreases a_count,
{
    if a_count > 0 {
        lemma_layer_fits(a, b, a_prev, b_prev, layer, a_count - 1);
        assert(a[layer as int].len() <= GRAPH_LIMIT);
        lemma_node_fits(
            a,
            b,
            a_prev,
            b_prev,
            layer,
            (a_count - 1) as GraphSize,
            b[layer as int].len() as int,
        );
        lemma_items_fit_append(
            a,
            b,
            layer_items(a, b, a_prev, b_prev, layer, a_count - 1),
            node_items(
                a,
                b,
                a_prev,
                b_prev,
                layer,
                (a_count - 1) as GraphSize,
                b[layer as int].len() as int,
            ),
        );
    }
}

/// What the leading hidden layers of two graphs have in common are genes
/// that the graphs share.
proof fn lemma_aligned_upto_fits(a: Layers, b: Layers, upto: int)
    requires
        addressable(a),
        addressable(b),
        upto < a.len(),
        upto < b.len(),
    ensures
        items_fit(a, b, aligned_upto(a, b, upto)),
    decreases upto,
{
    if upto > 1 {
        let l = upto - 1;
        lemma_aligned_upto_fits(a, b, l);
        let a_prev = leaving_layer(a[l - 1], (l - 1) as GraphSize, a[l - 1].len() as int);
        let b_prev = leaving_layer(b[l - 1], (l - 1) as GraphSize, b[l - 1].len() as int);
        lemma_leaving_layer(a, (l - 1) as GraphSize, a[l - 1].len() as int);
        lemma_leaving_layer(b, (l - 1) as GraphSize, b[l - 1].len() as int);
        lemma_layer_fits(a, b, a_prev, b_prev, l as GraphSize, a[l].len() as int);
        lemma_items_fit_append(
            a,
            b,
            aligned_upto(a, b, l),
            layer_items(a, b, a_prev, b_prev, l as GraphSize, a[l].len() as int),
        );
    }
}

/// What is aligned is shared. Every neuron reported for two graphs is a
/// neuron that both hold, in the same hidden layer, with the same identity.
/// Every connection reported is a connection that both have, between
/// neurons of the same identities: the neurons at its source in the two
/// graphs are the same gene, and so are the neurons at its target.
pub proof fn lemma_aligned_fits(a: Layers, b: Layers)
    requires
        addressable(a),
        addressable(b),
    ensures
        items_fit(a, b, aligned(a, b)),
{
    if !(a.len() == 2 || b.len() == 2) {
        lemma_aligned_upto_fits(a, b, compared_layers(a, b));
    }
}

/// Genes that two forward-only graphs share respect the layers.
pub proof fn lemma_fits_forward(a: Layers, b: Layers, items: Seq<AlignedItem>)
    requires
        forward_only(a),
        forward_only(b),
        items_fit(a, b, items),
    ensures
        all_forward(items),
{
    assert forall|i: int| 0 <= i < items.len() implies item_forward(#[trigger] items[i]) by {
        assert(item_fits(a, b, items[i]));
        match items[i] {
            AlignedItem::Node(x, y) => {},
            AlignedItem::Edge { data, _type } => {
                lemma_edge_forward(a, data.0.from, data.0.to);
                lemma_edge_forward(b, data.1.from, data.1.to);
            },
        }
    }
}

/// A connection of a forward-only graph leads to a later layer.
pub proof fn lemma_edge_forward(g: Layers, from: GraphLocation, to: GraphLocation)
    requires
        forward_only(g),
        has_edge(g, from, to),
    ensures
        from.layer < to.layer,
{
    let conns = node_at(g, from).connections;
    let k = choose|k: int| 0 <= k < conns.len() && (#[trigger] conns[k]).to == to;
    assert(from.layer < g[from.layer as int][from.node as int].connections[k].to.layer);
}

/// The genes that two forward-only graphs share respect the layers: a
/// shared neuron stands in the same layer in both, and a shared connection
/// leads to a later layer in both.
pub proof fn lemma_aligned_forward(a: Layers, b: Layers)
    requires
        forward_only(a),
        forward_only(b),
        addressable(a),
        addressable(b),
    ensures
        all_forward(aligned(a, b)),
{
    lemma_aligned_fits(a, b);
    lemma_fits_forward(a, b, aligned(a, b));
}

/// The first partner is unique, and it exists when any partner does.
pub proof fn lemma_partner_index(b: Seq<ConnectionInfo>, x: ConnectionInfo)
    ensures
        has_partner(b, x) ==> is_first_partner(b, x, partner_index(b, x)),
        !has_partner(b, x) ==> partner_index(b, x) == b.len(),
        forall|j: int| is_first_partner(b, x, j) ==> partner_index(b, x) == j,
{
    if has_partner(b, x) {
        let w = choose|j: int| 0 <= j < b.len() && info_matches(x, #[trigger] b[j]);
        lemma_first_partner_exists(b, x, w);
    }
    assert forall|j: int| is_first_partner(b, x, j) implies partner_index(b, x) == j by {
        assert(info_matches(x, b[j]));
        let c = partner_index(b, x);
        assert(is_first_partner(b, x, c));
        if c < j {
            assert(!info_matches(x, b[c]));
        }
        if j < c {
            assert(!info_matches(x, b[j]));
        }
    }
}

proof fn lemma_first_partner_exists(b: Seq<ConnectionInfo>, x: ConnectionInfo, w: int)
    requires
        0 <= w < b.len(),
        info_matches(x, b[w]),
    ensures
        exists|j: int| is_first_partner(b, x, j),
    decreases w,
{
    if forall|i: int| 0 <= i < w ==> !info_matches(x, #[trigger] b[i]) {
        assert(is_first_partner(b, x, w));
    } else {
        let i = choose|i: int| 0 <= i < w && info_matches(x, #[trigger] b[i]);
        lemma_first_partner_exists(b, x, i);
    }
}

/// Whether `pairs` holds the pair `(from, to)` in either direction.
pub fn connection_pair_exists(
    pairs: &[(GraphLocation, GraphLocation)],
    from: &GraphLocation,
    to: &GraphLocation,
) -> (r: bool)
    ensures
        r == exists|i: int|
            0 <= i < pairs@.len() && (#[trigger] pairs@[i] == (*from, *to) || pairs@[i] == (
                *to,
                *from,
            )),
{
    let mut i: usize = 0;
    while i < pairs.len()
        invariant
            i <= pairs.len(),
            forall|j: int|
                0 <= j < i ==> !(#[trigger] pairs@[j] == (*from, *to) || pairs@[j] == (*to, *from)),
        decreases pairs.len() - i,
    {
        let x = pairs[i];
        if (x.0 == *from && x.1 == *to) || (x.0 == *to && x.1 == *from) {
            return true;
        }
        i += 1;
    }
    false
}

/// Whether the nodes `x` and `y` hold the same neuron.
pub fn is_same_gene(x: &Node, y: &Node) -> (r: bool)
    ensures
        r == same_gene(*x, *y),
{
    match (x, y) {
        (Node::Blank, _) => false,
        (_, Node::Blank) => false,
        _ => kind_eq(x._type(), y._type()) && x.id() == y.id(),
    }
}

/// The index of the first item of `b` that carries the identity that `x`
/// carries.
fn find_partner(b: &Vec<ConnectionInfo>, x: &ConnectionInfo) -> (r: Option<usize>)
    ensures
        r is Some <==> has_partner(b@, *x),
        r matches Some(j) ==> j == partner_index(b@, *x) && j < b.len(),
{
    let mut j: usize = 0;
    while j < b.len()
        invariant
            j <= b.len(),
            forall|i: int| 0 <= i < j ==> !info_matches(*x, #[trigger] b@[i]),
        decreases b.len() - j,
    {
        if kind_eq(x._type, b[j]._type) && x.id == b[j].id {
            proof {
                assert(is_first_partner(b@, *x, j as int));
                lemma_partner_index(b@, *x);
            }
            return Some(j);
        }
        j += 1;
    }
    None
}

/// Each item of `a` whose identity some item of `b` carries too, with the
/// first such item of `b`, in the order of `a`.
pub fn connection_intersection(a: Vec<ConnectionInfo>, b: Vec<ConnectionInfo>) -> (r: Vec<
    (ConnectionInfo, ConnectionInfo),
>)
    ensures
        r@ == paired(a@, b@),
{
    let mut res: Vec<(ConnectionInfo, ConnectionInfo)> = Vec::new();
    let mut i: usize = 0;
    while i < a.len()
        invariant
            i <= a.len(),
            res@ == paired(a@.take(i as int), b@),
        decreases a.len() - i,
    {
        proof {
            assert(a@.take(i + 1).drop_last() =~= a@.take(i as int));
        }
        match find_partner(&b, &a[i]) {
            Some(j) => {
                res.push((a[i], b[j]));
            },
            None => {},
        }
        i += 1;
    }
    proof {
        assert(a@.take(i as int) =~= a@);
    }
    res
}

/// The items of `conns` that lead to `to`, in order.
fn arriving(conns: &Vec<ConnectionInfo>, to: GraphLocation) -> (r: Vec<ConnectionInfo>)
    ensures
        r@ == arriving_at(conns@, to),
{
    let mut res: Vec<ConnectionInfo> = Vec::new();
    let mut i: usize = 0;
    while i < conns.len()
        invariant
            i <= conns.len(),
            res@ == arriving_at(conns@.take(i as int), to),
        decreases conns.len() - i,
    {
        proof {
            assert(conns@.take(i + 1).drop_last() =~= conns@.take(i as int));
        }
        if conns[i].to == to {
            res.push(conns[i]);
        }
        i += 1;
    }
    proof {
        assert(conns@.take(i as int) =~= conns@);
    }
    res
}

/// The connections out of the node at `from`, each with the identity of
/// its target.
fn leaving(g: &NeuralGraph, from: GraphLocation, conns: &Vec<GraphEdge>) -> (r: Vec<ConnectionInfo>)
    ensures
        r@ == leaving_with_targets(g@, from, conns@),
{
    let mut res: Vec<ConnectionInfo> = Vec::new();
    let mut i: usize = 0;
    while i < conns.len()
        invariant
            i <= conns.len(),
            res@ == leaving_with_targets(g@, from, conns@.take(i as int)),
        decreases conns.len() - i,
    {
        proof {
            assert(conns@.take(i + 1).drop_last() =~= conns@.take(i as int));
        }
        let e = conns[i];
        match g.get_node(&e.to) {
            Some(target) => {
                match target.value {
                    Node::Blank => {},
                    value => {
                        res.push(
                            ConnectionInfo { from, to: e.to, _type: value._type(), id: value.id() },
                        );
                    },
                }
            },
            None => {},
        }
        i += 1;
    }
    proof {
        assert(conns@.take(i as int) =~= conns@);
    }
    res
}

/// The connections out of the nodes of `row`, which is layer `layer`, each
/// with the identity of its source.
fn leaving_row(layer: GraphSize, row: &Vec<GraphNode>) -> (r: Vec<ConnectionInfo>)
    requires
        row.len() <= GRAPH_LIMIT,
    ensures
        r@ == leaving_layer(layer_view(row@), layer, row.len() as int),
{
    let mut res: Vec<ConnectionInfo> = Vec::new();
    let mut n: usize = 0;
    while n < row.len()
        invariant
            n <= row.len(),
            row.len() <= GRAPH_LIMIT,
            res@ == leaving_layer(layer_view(row@), layer, n as int),
        decreases row.len() - n,
    {
        let node = &row[n];
        let from = GraphLocation { layer, node: n as GraphSize };
        let ghost before = res@;
        match node.value {
            Node::Blank => {
                proof {
                    assert(before + leaving_node(node@, from) =~= before);
                }
            },
            value => {
                let mut k: usize = 0;
                while k < node.connections.len()
                    invariant
                        k <= node.connections.len(),
                        !(value is Blank),
                        value == node.value,
                        res@ == before + leaving_node(node@, from).take(k as int),
                    decreases node.connections.len() - k,
                {
                    let e = node.connections[k];
                    res.push(ConnectionInfo { from, to: e.to, _type: value._type(), id: value.id() });
                    proof {
                        assert(res@ =~= before + leaving_node(node@, from).take(k + 1));
                    }
                    k += 1;
                }
                proof {
                    assert(leaving_node(node@, from).take(k as int) =~= leaving_node(node@, from));
                }
            },
        }
        n += 1;
    }
    res
}

/// The connections out of layer `a.0` of one graph and out of layer `b.0`
/// of another, each with the identity of its source.
fn extend_prev_connections(a: (usize, &Vec<GraphNode>), b: (usize, &Vec<GraphNode>)) -> (r: (
    Vec<ConnectionInfo>,
    Vec<ConnectionInfo>,
))
    requires
        a.0 < GRAPH_LIMIT,
        b.0 < GRAPH_LIMIT,
        a.1.len() <= GRAPH_LIMIT,
        b.1.len() <= GRAPH_LIMIT,
    ensures
        r.0@ == leaving_layer(layer_view(a.1@), a.0 as GraphSize, a.1.len() as int),
        r.1@ == leaving_layer(layer_view(b.1@), b.0 as GraphSize, b.1.len() as int),
{
    (leaving_row(a.0 as GraphSize, a.1), leaving_row(b.0 as GraphSize, b.1))
}

/// What the node at `a_loc` in `a` and the node at `b_loc` in `b` have in
/// common.
fn pair_of(
    a: &NeuralGraph,
    b: &NeuralGraph,
    a_prev: &Vec<ConnectionInfo>,
    b_prev: &Vec<ConnectionInfo>,
    a_loc: GraphLocation,
    b_loc: GraphLocation,
) -> (r: Vec<AlignedItem>)
    requires
        has_node(a@, a_loc),
        has_node(b@, b_loc),
    ensures
        r@ == pair_items(a@, b@, a_prev@, b_prev@, a_loc, b_loc),
{
    let mut res: Vec<AlignedItem> = Vec::new();
    let a_node = &a.layers[a_loc.layer as usize][a_loc.node as usize];
    let b_node = &b.layers[b_loc.layer as usize][b_loc.node as usize];
    if !is_same_gene(&a_node.value, &b_node.value) {
        return res;
    }
    let incoming = connection_intersection(arriving(a_prev, a_loc), arriving(b_prev, b_loc));
    let outgoing = connection_intersection(
        leaving(a, a_loc, &a_node.connections),
        leaving(b, b_loc, &b_node.connections),
    );
    if incoming.len() > 0 || outgoing.len() > 0 {
        res.push(AlignedItem::Node(a_loc, b_loc));
    }
    let ghost head = res@;
    let mut i: usize = 0;
    while i < incoming.len()
        invariant
            i <= incoming.len(),
            res@ == head + as_items(incoming@, EdgeType::Incoming).take(i as int),
        decreases incoming.len() - i,
    {
        res.push(AlignedItem::Edge { data: incoming[i], _type: EdgeType::Incoming });
        proof {
            assert(res@ =~= head + as_items(incoming@, EdgeType::Incoming).take(i + 1));
        }
        i += 1;
    }
    let ghost mid = res@;
    proof {
        assert(as_items(incoming@, EdgeType::Incoming).take(i as int) =~= as_items(
            incoming@,
            EdgeType::Incoming,
        ));
    }
    let mut i: usize = 0;
    while i < outgoing.len()
        invariant
            i <= outgoing.len(),
            res@ == mid + as_items(outgoing@, EdgeType::Outgoing).take(i as int),
        decreases outgoing.len() - i,
    {
        res.push(AlignedItem::Edge { data: outgoing[i], _type: EdgeType::Outgoing });
        proof {
            assert(res@ =~= mid + as_items(outgoing@, EdgeType::Outgoing).take(i + 1));
        }
        i += 1;
    }
    proof {
        assert(as_items(outgoing@, EdgeType::Outgoing).take(i as int) =~= as_items(
            outgoing@,
            EdgeType::Outgoing,
        ));
    }
    res
}

/// The genes that `a` and `b` share, layer by layer and node by node: for
/// each hidden neuron that both hold, the connections into it from the
/// layer in front of it and the connections out of it that both graphs
/// have, by the identities at their other ends; and the neuron itself where
/// there is such a connection.
pub fn intersection(a: &Net, b: &Net) -> (r: Vec<AlignedItem>)
    requires
        addressable(a.graph@),
        addressable(b.graph@),
    ensures
        r@ == aligned(a.graph@, b.graph@),
{
    let mut res: Vec<AlignedItem> = Vec::new();
    let a_len = a.graph.layers.len();
    let b_len = b.graph.layers.len();
    if a_len == 2 || b_len == 2 || a_len == 0 || b_len == 0 {
        return res;
    }
    let upto = if a_len < b_len {
        a_len - 1
    } else {
        b_len - 1
    };
    let mut l: usize = 1;
    while l < upto
        invariant
            1 <= l,
            l <= upto || l == 1,
            upto == compared_layers(a.graph@, b.graph@),
            a.graph@.len() != 2,
            b.graph@.len() != 2,
            upto < a.graph.layers.len(),
            upto < b.graph.layers.len(),
            addressable(a.graph@),
            addressable(b.graph@),
            res@ == aligned_upto(a.graph@, b.graph@, l as int),
        decreases upto - l,
    {
        let a_row = &a.graph.layers[l];
        let b_row = &b.graph.layers[l];
        proof {
            assert(a.graph@[l - 1].len() <= GRAPH_LIMIT);
            assert(b.graph@[l - 1].len() <= GRAPH_LIMIT);
            assert(a.graph@[l as int].len() <= GRAPH_LIMIT);
            assert(b.graph@[l as int].len() <= GRAPH_LIMIT);
        }
        let (a_prev, b_prev) = extend_prev_connections(
            (l - 1, &a.graph.layers[l - 1]),
            (l - 1, &b.graph.layers[l - 1]),
        );
        let layer = l as GraphSize;
        let ghost done = res@;
        let mut a_idx: usize = 0;
        while a_idx < a_row.len()
            invariant
                a_idx <= a_row.len(),
                1 <= l < a.graph.layers.len(),
                l < b.graph.layers.len(),
                layer == l,
                a_row == a.graph.layers[l as int],
                b_row == b.graph.layers[l as int],
                a_row.len() <= GRAPH_LIMIT,
                b_row.len() <= GRAPH_LIMIT,
                res@ == done + layer_items(
                    a.graph@,
                    b.graph@,
                    a_prev@,
                    b_prev@,
                    layer,
                    a_idx as int,
                ),
            decreases a_row.len() - a_idx,
        {
            let ghost row_done = res@;
            let mut b_idx: usize = 0;
            while b_idx < b_row.len()
                invariant
                    b_idx <= b_row.len(),
                    a_idx < a_row.len(),
                    1 <= l < a.graph.layers.len(),
                    l < b.graph.layers.len(),
                    layer == l,
                    a_row == a.graph.layers[l as int],
                    b_row == b.graph.layers[l as int],
                    a_row.len() <= GRAPH_LIMIT,
                    b_row.len() <= GRAPH_LIMIT,
                    res@ == row_done + node_items(
                        a.graph@,
                        b.graph@,
                        a_prev@,
                        b_prev@,
                        layer,
                        a_idx as GraphSize,
                        b_idx as int,
                    ),
                decreases b_row.len() - b_idx,
            {
                let mut items = pair_of(
                    &a.graph,
                    &b.graph,
                    &a_prev,
                    &b_prev,
                    GraphLocation { layer, node: a_idx as GraphSize },
                    GraphLocation { layer, node: b_idx as GraphSize },
                );
                res.append(&mut items);
                proof {
                    assert(res@ =~= row_done + node_items(
                        a.graph@,
                        b.graph@,
                        a_prev@,
                        b_prev@,
                        layer,
                        a_idx as GraphSize,
                        b_idx + 1,
                    ));
                }
                b_idx += 1;
            }
            proof {
                assert(res@ =~= done + layer_items(
                    a.graph@,
                    b.graph@,
                    a_prev@,
                    b_prev@,
                    layer,
                    a_idx + 1,
                ));
            }
            a_idx += 1;
        }
        l += 1;
    }
    proof {
        if upto <= 1 {
            assert(aligned_upto(a.graph@, b.graph@, upto as int) =~= Seq::empty());
            assert(aligned_upto(a.graph@, b.graph@, 1) =~= Seq::empty());
        }
    }
    res
}

} // verus!
