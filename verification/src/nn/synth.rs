//! Making nets: from the input and output layers of another, and at random.
use vstd::prelude::*;
use vstd::string::StringSliceAdditionalSpecFns;
use crate::nn::add_edge_outcome;
use crate::nn::addressable;
use crate::nn::consistency::distinct_targets;
use crate::nn::consistency::fits_role;
use crate::nn::consistency::lemma_with_edge_keeps;
use crate::nn::consistency::roles_hold;
use crate::nn::consistency::unique_edges;
use crate::nn::has_edge;
use crate::nn::has_node;
use crate::nn::layer_view;
use crate::nn::layers::forward_only;
use crate::nn::layers::well_formed;
use crate::nn::mutate::lemma_with_edge_forward;
use crate::nn::node_at;
use crate::nn::reproduce::lemma_with_edge_well_formed;
use crate::nn::sample::random_below;
use crate::nn::util::connection_pair_exists;
use crate::nn::with_edge;
use crate::nn::BasicNeuron;
use crate::nn::Edge;
use crate::nn::GraphEdge;
use crate::nn::GraphLocation;
use crate::nn::GraphNode;
use crate::nn::GraphNodeView;
use crate::nn::GraphSize;
use crate::nn::Layers;
use crate::nn::Net;
use crate::nn::NeuralGraph;
use crate::nn::NeuralGraphError;
use crate::nn::Neuron;
use crate::nn::Node;
use crate::nn::Scalar;
use crate::nn::GRAPH_LIMIT;

verus! {

/// The layer `row` with the connections of every node taken away.
pub open spec fn stripped(row: Seq<GraphNodeView>) -> Seq<GraphNodeView> {
    row.map_values(
        |node: GraphNodeView| (GraphNodeView { value: node.value, connections: Seq::empty() }),
    )
}

/// The two-layer graph that holds the nodes of `inputs` and of `outputs`,
/// without connections.
pub open spec fn basic_layers(inputs: Seq<GraphNodeView>, outputs: Seq<GraphNodeView>) -> Layers {
    seq![stripped(inputs), stripped(outputs)]
}

/// A copy of the nodes of `row`, without their connections.
fn strip(row: &Vec<GraphNode>) -> (r: Vec<GraphNode>)
    ensures
        layer_view(r@) == stripped(layer_view(row@)),
{
    let mut out: Vec<GraphNode> = Vec::new();
    let mut n: usize = 0;
    while n < row.len()
        invariant
            n <= row.len(),
            out.len() == n,
            forall|i: int|
                0 <= i < n ==> (#[trigger] out[i])@ == (GraphNodeView {
                    value: row[i].value,
                    connections: Seq::empty(),
                }),
        decreases row.len() - n,
    {
        out.push(GraphNode::new(row[n].value));
        n += 1;
    }
    proof {
        assert(layer_view(out@) =~= stripped(layer_view(row@)));
    }
    out
}

impl Net {
    /// Whether the net has at least an input and an output layer, the
    /// input layer first and the output layer last.
    pub open spec fn shaped(&self) -> bool {
        &&& self.graph@.len() >= 2
        &&& self.input_layer == 0
        &&& self.output_layer == self.graph@.len() - 1
    }

    /// A net that has the input and the output nodes of `from` and nothing
    /// else: two layers, no connections. Refused with `LayerNotFound`,
    /// carrying the number of layers of `from`, exactly when `from` does not
    /// have the layers that it names as its input and output layer.
    pub fn from_preserving_basic(from: &Net) -> (r: Result<Net, NeuralGraphError>)
        requires
            addressable(from.graph@),
        ensures
            from.input_layer < from.graph@.len() && from.output_layer < from.graph@.len() ==> {
                &&& r matches Ok(net)
                &&& net.graph@ == basic_layers(
                    from.graph@[from.input_layer as int],
                    from.graph@[from.output_layer as int],
                )
                &&& net.input_layer == 0
                &&& net.output_layer == 1
            },
            !(from.input_layer < from.graph@.len() && from.output_layer < from.graph@.len()) ==> r
                == Err::<Net, NeuralGraphError>(
                NeuralGraphError::LayerNotFound(from.graph@.len() as GraphSize),
            ),
    {
        let count = from.graph.layers.len();
        if from.input_layer as usize >= count || from.output_layer as usize >= count {
            return Err(NeuralGraphError::LayerNotFound(count as GraphSize));
        }
        let mut layers: Vec<Vec<GraphNode>> = Vec::new();
        layers.push(strip(&from.graph.layers[from.input_layer as usize]));
        layers.push(strip(&from.graph.layers[from.output_layer as usize]));
        let g = NeuralGraph { layers };
        proof {
            assert(g@ =~= basic_layers(
                from.graph@[from.input_layer as int],
                from.graph@[from.output_layer as int],
            ));
        }
        Ok(Net { graph: g, input_layer: 0, output_layer: 1 })
    }
}


/// A connection to be made: its ends and its value.
#[derive(Debug, Clone, Copy, PartialEq)]
pub struct Link {
    pub from: GraphLocation,
    pub to: GraphLocation,
    pub value: Edge,
}

/// One more than the largest number of hidden layers that `gen` makes.
pub const HIDDEN_LAYERS_BOUND: usize = 5;

/// One more than the largest number of neurons that `gen` puts in a hidden
/// layer.
pub const LAYER_NODES_BOUND: usize = 10;

/// The number of connections that `gen` may make for each layer behind the
/// first, less one in all.
pub const LINKS_PER_LAYER: usize = 4;

/// The number of proposals that `gen` makes for each connection that it
/// wants, before it gives up.
pub const PROPOSALS_PER_LINK: usize = 64;

/// A node that holds `value` and has no connections.
pub open spec fn bare(value: Node) -> GraphNodeView {
    GraphNodeView { value, connections: Seq::empty() }
}

/// A layer of nodes that hold `values` and have no connections.
pub open spec fn bare_row(values: Seq<Node>) -> Seq<GraphNodeView> {
    values.map_values(|value: Node| bare(value))
}

/// A layer of the hidden neurons `row`, without connections.
pub open spec fn neuron_row(row: Seq<Neuron>) -> Seq<GraphNodeView> {
    row.map_values(|neuron: Neuron| bare(Node::Neuron(neuron)))
}

/// The graph without connections that has the layer of `inputs`, then the
/// layers of `hidden`, then the layer of `outputs`.
pub open spec fn skeleton(inputs: Seq<Node>, hidden: Seq<Seq<Neuron>>, outputs: Seq<Node>) -> Layers {
    seq![bare_row(inputs)] + hidden.map_values(|row: Seq<Neuron>| neuron_row(row)) + seq![
        bare_row(outputs),
    ]
}

/// How far the making of connections has come.
pub struct Linking {
    /// The graph.
    pub graph: Layers,
    /// What the graph refused, if it refused anything.
    pub failure: Option<NeuralGraphError>,
}

/// The graph `g` after the first `n` of `links` were added in order, up to
/// the first that the graph refused.
pub open spec fn linked(g: Layers, links: Seq<Link>, n: int) -> Linking
    decreases n,
{
    if n <= 0 {
        Linking { graph: g, failure: None }
    } else {
        let st = linked(g, links, n - 1);
        let link = links[n - 1];
        if st.failure is Some {
            st
        } else {
            match add_edge_outcome(st.graph, link.from, link.to) {
                Ok(_) => Linking {
                    graph: with_edge(st.graph, link.from, link.to, link.value),
                    failure: None,
                },
                Err(e) => Linking { failure: Some(e), ..st },
            }
        }
    }
}

/// Whether `hidden` has room for an input and an output layer beside it,
/// and every layer fits what a location can address.
pub open spec fn fits(inputs: Seq<Node>, hidden: Seq<Seq<Neuron>>, outputs: Seq<Node>) -> bool {
    &&& inputs.len() <= GRAPH_LIMIT
    &&& outputs.len() <= GRAPH_LIMIT
    &&& hidden.len() + 2 <= GRAPH_LIMIT
    &&& forall|l: int| 0 <= l < hidden.len() ==> (#[trigger] hidden[l]).len() <= GRAPH_LIMIT
}

/// Whether the first `n` of `links` lead from a node of `g` to a node of
/// `g` in a later layer, no two of them between the same nodes.
pub open spec fn links_fit(g: Layers, links: Seq<Link>, n: int) -> bool {
    &&& forall|i: int|
        0 <= i < n ==> has_node(g, (#[trigger] links[i]).from) && has_node(g, links[i].to)
            && links[i].from.layer < links[i].to.layer
    &&& forall|i: int, j: int|
        0 <= i < j < n ==> !((#[trigger] links[i]).from == (#[trigger] links[j]).from
            && links[i].to == links[j].to)
}

/// Whether `g` holds no connection.
pub open spec fn unconnected(g: Layers) -> bool {
    forall|l: int, n: int| 0 <= l < g.len() && 0 <= n < g[l].len() ==> (#[trigger] g[l][n]).connections.len() == 0
}

/// Links that fit a graph without connections are all accepted. The graph
/// that they give holds the nodes that it held, connected exactly as the
/// links say; it is forward-only, and well-formed if the graph was.
pub proof fn lemma_linked(g: Layers, links: Seq<Link>, n: int)
    requires
        0 <= n <= links.len(),
        unconnected(g),
        links_fit(g, links, n),
    ensures
        linked(g, links, n).failure is None,
        linked(g, links, n).graph.len() == g.len(),
        forall|l: int|
            0 <= l < g.len() ==> (#[trigger] linked(g, links, n).graph[l]).len() == g[l].len(),
        forall|l: int, m: int|
            0 <= l < g.len() && 0 <= m < g[l].len() ==> (#[trigger] linked(
                g,
                links,
                n,
            ).graph[l][m]).value == g[l][m].value,
        forall|from: GraphLocation, to: GraphLocation|
            #![trigger has_edge(linked(g, links, n).graph, from, to)]
            has_edge(linked(g, links, n).graph, from, to) <==> exists|i: int|
                0 <= i < n && (#[trigger] links[i]).from == from && links[i].to == to,
        forward_only(linked(g, links, n).graph),
        well_formed(g) ==> well_formed(linked(g, links, n).graph),
        unique_edges(linked(g, links, n).graph),
        roles_hold(g) ==> roles_hold(linked(g, links, n).graph),
    decreases n,
{
    if n == 0 {
        assert forall|l: int, m: int| 0 <= l < g.len() && 0 <= m < g[l].len() implies distinct_targets(
            (#[trigger] g[l][m]).connections,
        ) by {
            assert(g[l][m].connections.len() == 0);
        }
        assert forall|from: GraphLocation, to: GraphLocation|
            #![trigger has_edge(g, from, to)]
            !has_edge(g, from, to) by {
            if has_node(g, from) {
                assert(g[from.layer as int][from.node as int].connections.len() == 0);
            }
        }
    } else {
        lemma_linked(g, links, n - 1);
        let before = linked(g, links, n - 1).graph;
        let link = links[n - 1];
        assert(!has_edge(before, link.from, link.to)) by {
            if has_edge(before, link.from, link.to) {
                let i = choose|i: int|
                    0 <= i < n - 1 && (#[trigger] links[i]).from == link.from && links[i].to
                        == link.to;
                assert(false);
            }
        }
        assert(has_node(before, link.from) && has_node(before, link.to));
        let after = with_edge(before, link.from, link.to, link.value);
        assert(linked(g, links, n).graph == after);
        lemma_with_edge_forward(before, link.from, link.to, link.value);
        lemma_with_edge_keeps(before, link.from, link.to, link.value);
        if well_formed(g) {
            lemma_with_edge_well_formed(before, link.from, link.to, link.value);
        }
        assert forall|from: GraphLocation, to: GraphLocation|
            #![trigger has_edge(after, from, to)]
            has_edge(after, from, to) <==> exists|i: int|
                0 <= i < n && (#[trigger] links[i]).from == from && links[i].to == to by {
            let old_conns = node_at(before, link.from).connections;
            let new_conns = old_conns.push(GraphEdge { to: link.to, value: link.value });
            if has_edge(after, from, to) {
                if from == link.from {
                    let k = choose|k: int|
                        0 <= k < new_conns.len() && (#[trigger] new_conns[k]).to == to;
                    if k < old_conns.len() {
                        assert(old_conns[k].to == to);
                        assert(has_edge(before, from, to));
                        let i = choose|i: int|
                            0 <= i < n - 1 && (#[trigger] links[i]).from == from && links[i].to
                                == to;
                        assert(links[i].from == from && links[i].to == to);
                    } else {
                        assert(links[n - 1].from == from && links[n - 1].to == to);
                    }
                } else {
                    assert(node_at(after, from) == node_at(before, from));
                    assert(has_edge(before, from, to));
                    let i = choose|i: int|
                        0 <= i < n - 1 && (#[trigger] links[i]).from == from && links[i].to == to;
                    assert(links[i].from == from && links[i].to == to);
                }
            }
            if exists|i: int| 0 <= i < n && (#[trigger] links[i]).from == from && links[i].to == to {
                let i = choose|i: int|
                    0 <= i < n && (#[trigger] links[i]).from == from && links[i].to == to;
                if i < n - 1 {
                    assert(has_edge(before, from, to));
                    let conns = node_at(before, from).connections;
                    let k = choose|k: int| 0 <= k < conns.len() && (#[trigger] conns[k]).to == to;
                    if from == link.from {
                        assert(new_conns[k].to == to);
                    } else {
                        assert(node_at(after, from) == node_at(before, from));
                    }
                } else {
                    assert(new_conns[new_conns.len() - 1].to == to);
                }
            }
        }
    }
}

/// A layer of nodes that hold `values` and have no connections.
fn bare_nodes(values: &[Node]) -> (r: Vec<GraphNode>)
    ensures
        layer_view(r@) == bare_row(values@),
{
    let mut out: Vec<GraphNode> = Vec::new();
    let mut n: usize = 0;
    while n < values.len()
        invariant
            n <= values.len(),
            out.len() == n,
            forall|i: int| 0 <= i < n ==> (#[trigger] out[i])@ == bare(values[i]),
        decreases values.len() - n,
    {
        out.push(GraphNode::new(values[n]));
        n += 1;
    }
    proof {
        assert(layer_view(out@) =~= bare_row(values@));
    }
    out
}

/// A layer of the hidden neurons `row`, without connections.
fn neuron_nodes(row: &Vec<Neuron>) -> (r: Vec<GraphNode>)
    ensures
        layer_view(r@) == neuron_row(row@),
{
    let mut out: Vec<GraphNode> = Vec::new();
    let mut n: usize = 0;
    while n < row.len()
        invariant
            n <= row.len(),
            out.len() == n,
            forall|i: int| 0 <= i < n ==> (#[trigger] out[i])@ == bare(Node::Neuron(row[i])),
        decreases row.len() - n,
    {
        out.push(GraphNode::new(Node::Neuron(row[n])));
        n += 1;
    }
    proof {
        assert(layer_view(out@) =~= neuron_row(row@));
    }
    out
}

/// The views of the rows of `hidden`.
pub open spec fn hidden_view(hidden: Seq<Vec<Neuron>>) -> Seq<Seq<Neuron>> {
    hidden.map_values(|row: Vec<Neuron>| row@)
}

/// The number of neurons in the first `l` rows of `hidden`.
pub open spec fn neurons_before(hidden: Seq<Seq<Neuron>>, l: int) -> int
    decreases l,
{
    if l <= 0 {
        0
    } else {
        neurons_before(hidden, l - 1) + hidden[l - 1].len()
    }
}

/// Whether the neurons of `hidden` are basic neurons, numbered from `0`
/// row by row.
pub open spec fn numbered(hidden: Seq<Seq<Neuron>>) -> bool {
    forall|l: int, n: int|
        0 <= l < hidden.len() && 0 <= n < hidden[l].len() ==> {
            let neuron = #[trigger] hidden[l][n];
            &&& neuron.kind.spec_bytes() == BasicNeuron::tag()
            &&& neuron.id == neurons_before(hidden, l) + n
        }
}

/// Whether the biases of `hidden` are values that `bias_source` gives and
/// the values of `links` are values that `edge_source` gives.
pub open spec fn drawn<B: Fn() -> Scalar, E: Fn() -> Edge>(
    hidden: Seq<Seq<Neuron>>,
    links: Seq<Link>,
    bias_source: B,
    edge_source: E,
) -> bool {
    &&& forall|l: int, n: int|
        0 <= l < hidden.len() && 0 <= n < hidden[l].len() ==> call_ensures(
            bias_source,
            (),
            (#[trigger] hidden[l][n]).bias,
        )
    &&& forall|i: int|
        0 <= i < links.len() ==> call_ensures(edge_source, (), (#[trigger] links[i]).value)
}

/// Whether `g` is a graph that `gen` can make from `inputs` and `outputs`:
/// a skeleton with fewer hidden layers than `HIDDEN_LAYERS_BOUND`, each of
/// at least one neuron and fewer than `LAYER_NODES_BOUND`, the neurons
/// basic, numbered from `0` and with biases from `bias_source`; connected
/// by links that fit it, with values from `edge_source`.
pub open spec fn generated<B: Fn() -> Scalar, E: Fn() -> Edge>(
    inputs: Seq<Node>,
    outputs: Seq<Node>,
    bias_source: B,
    edge_source: E,
    g: Layers,
) -> bool {
    exists|hidden: Seq<Seq<Neuron>>, links: Seq<Link>|
        {
            &&& hidden.len() < HIDDEN_LAYERS_BOUND
            &&& forall|l: int|
                0 <= l < hidden.len() ==> 0 < (#[trigger] hidden[l]).len() < LAYER_NODES_BOUND
            &&& numbered(hidden)
            &&& drawn(hidden, links, bias_source, edge_source)
            &&& links.len() < LINKS_PER_LAYER * (hidden.len() + 1)
            &&& links_fit(skeleton(inputs, hidden, outputs), links, links.len() as int)
            &&& #[trigger] linked(skeleton(inputs, hidden, outputs), links, links.len() as int).graph
                == g
        }
}

/// The count of the neurons in the leading rows depends on those rows
/// alone.
proof fn lemma_neurons_before(a: Seq<Seq<Neuron>>, b: Seq<Seq<Neuron>>, l: int)
    requires
        l <= a.len(),
        l <= b.len(),
        forall|i: int| 0 <= i < l ==> a[i] == b[i],
    ensures
        neurons_before(a, l) == neurons_before(b, l),
    decreases l,
{
    if l > 0 {
        lemma_neurons_before(a, b, l - 1);
    }
}

/// Whether every node of `values` is an input neuron.
pub open spec fn all_inputs(values: Seq<Node>) -> bool {
    forall|i: int| 0 <= i < values.len() ==> (#[trigger] values[i]) is Input
}

/// Whether every node of `values` is an output neuron.
pub open spec fn all_outputs(values: Seq<Node>) -> bool {
    forall|i: int| 0 <= i < values.len() ==> (#[trigger] values[i]) is Output
}

/// In a skeleton of input neurons, hidden neurons and output neurons each
/// node stands in a layer meant for it.
pub proof fn lemma_skeleton_roles(inputs: Seq<Node>, hidden: Seq<Seq<Neuron>>, outputs: Seq<Node>)
    requires
        all_inputs(inputs),
        all_outputs(outputs),
    ensures
        roles_hold(skeleton(inputs, hidden, outputs)),
{
    let g = skeleton(inputs, hidden, outputs);
    lemma_skeleton(inputs, hidden, outputs);
    assert forall|l: int, n: int| 0 <= l < g.len() && 0 <= n < g[l].len() implies fits_role(
        g.len() as int,
        l,
        (#[trigger] g[l][n]).value,
    ) by {
        if l == 0 {
            assert(g[l][n].value == inputs[n]);
        } else if l == hidden.len() + 1 {
            assert(g[l][n].value == outputs[n]);
        } else {
            assert(g[l] == neuron_row(hidden[l - 1]));
        }
    }
}

/// A skeleton holds no connection, and it is well-formed where it fits.
pub proof fn lemma_skeleton(inputs: Seq<Node>, hidden: Seq<Seq<Neuron>>, outputs: Seq<Node>)
    ensures
        skeleton(inputs, hidden, outputs).len() == hidden.len() + 2,
        unconnected(skeleton(inputs, hidden, outputs)),
        skeleton(inputs, hidden, outputs)[0] == bare_row(inputs),
        skeleton(inputs, hidden, outputs)[hidden.len() as int + 1] == bare_row(outputs),
        forall|l: int|
            0 <= l < hidden.len() ==> (#[trigger] skeleton(inputs, hidden, outputs)[l + 1])
                == neuron_row(hidden[l]),
        fits(inputs, hidden, outputs) ==> well_formed(skeleton(inputs, hidden, outputs)),
{
    let g = skeleton(inputs, hidden, outputs);
    assert forall|l: int| 0 <= l < hidden.len() implies (#[trigger] g[l + 1]) == neuron_row(
        hidden[l],
    ) by {}
    assert forall|l: int, n: int| 0 <= l < g.len() && 0 <= n < g[l].len() implies (#[trigger] g[l][n]).connections.len()
        == 0 by {
        if l == 0 {
        } else if l == hidden.len() + 1 {
        } else {
            assert(g[l] == neuron_row(hidden[l - 1]));
        }
    }
    if fits(inputs, hidden, outputs) {
        assert forall|l: int| 0 <= l < g.len() implies (#[trigger] g[l]).len() <= GRAPH_LIMIT by {
            if l == 0 {
            } else if l == hidden.len() + 1 {
            } else {
                assert(g[l] == neuron_row(hidden[l - 1]));
                assert(hidden[l - 1].len() <= GRAPH_LIMIT);
            }
        }
    }
}

impl Net {
    /// The net that has the layer of `input_nodes`, then the layers of
    /// `hidden`, then the layer of `output_nodes`, connected by `links`,
    /// which are added in order. Refused with what the graph answers to the
    /// first link that it refuses.
    pub fn assemble(
        input_nodes: &[Node],
        hidden: &Vec<Vec<Neuron>>,
        output_nodes: &[Node],
        links: &Vec<Link>,
    ) -> (r: Result<Net, NeuralGraphError>)
        requires
            fits(input_nodes@, hidden_view(hidden@), output_nodes@),
        ensures
            ({
                let end = linked(
                    skeleton(input_nodes@, hidden_view(hidden@), output_nodes@),
                    links@,
                    links@.len() as int,
                );
                match end.failure {
                    None => {
                        &&& r matches Ok(net)
                        &&& net.graph@ == end.graph
                        &&& net.input_layer == 0
                        &&& net.output_layer == hidden@.len() + 1
                    },
                    Some(e) => r == Err::<Net, NeuralGraphError>(e),
                }
            }),
    {
        let ghost start = skeleton(input_nodes@, hidden_view(hidden@), output_nodes@);
        let mut layers: Vec<Vec<GraphNode>> = Vec::new();
        layers.push(bare_nodes(input_nodes));
        let mut l: usize = 0;
        while l < hidden.len()
            invariant
                l <= hidden.len(),
                layers.len() == l + 1,
                layer_view(layers[0]@) == bare_row(input_nodes@),
                forall|i: int|
                    0 <= i < l ==> layer_view((#[trigger] layers[i + 1])@) == neuron_row(hidden[i]@),
            decreases hidden.len() - l,
        {
            layers.push(neuron_nodes(&hidden[l]));
            l += 1;
        }
        layers.push(bare_nodes(output_nodes));
        let mut g = NeuralGraph { layers };
        proof {
            assert(g@ =~= start) by {
                assert forall|i: int| 0 <= i < g@.len() implies g@[i] == start[i] by {
                    if 0 < i <= hidden.len() {
                        assert(g.layers[(i - 1) + 1] == g.layers[i]);
                    }
                }
            }
        }
        let mut k: usize = 0;
        while k < links.len()
            invariant
                k <= links.len(),
                start == skeleton(input_nodes@, hidden_view(hidden@), output_nodes@),
                linked(start, links@, k as int) == (Linking { graph: g@, failure: None }),
            decreases links.len() - k,
        {
            let link = links[k];
            match g.add_edge(link.from, link.to, link.value) {
                Ok(_) => {},
                Err(e) => {
                    proof {
                        lemma_linked_failed(start, links@, k + 1, links@.len() as int);
                    }
                    return Err(e);
                },
            }
            k += 1;
        }
        Ok(Net { graph: g, input_layer: 0, output_layer: (hidden.len() + 1) as GraphSize })
    }

    /// A net made at random from the nodes `input_nodes` and
    /// `output_nodes`: fewer than `HIDDEN_LAYERS_BOUND` hidden layers of
    /// basic neurons, each of at least one and fewer than
    /// `LAYER_NODES_BOUND`, numbered from `0` and with biases from
    /// `bias_source`; and at most as many connections as were wanted, each
    /// from a node to a node in a later layer, no two between the same
    /// nodes in either direction, with values from `edge_source`.
    pub fn gen<B: Fn() -> Scalar, E: Fn() -> Edge>(
        input_nodes: &[Node],
        output_nodes: &[Node],
        bias_source: &B,
        edge_source: &E,
    ) -> (r: Result<Net, NeuralGraphError>)
        requires
            input_nodes@.len() <= GRAPH_LIMIT,
            output_nodes@.len() <= GRAPH_LIMIT,
            call_requires(bias_source, ()),
            call_requires(edge_source, ()),
        ensures
            r matches Ok(net) && {
                &&& generated(input_nodes@, output_nodes@, *bias_source, *edge_source, net.graph@)
                &&& net.shaped()
                &&& well_formed(net.graph@)
                &&& forward_only(net.graph@)
                &&& unique_edges(net.graph@)
                &&& all_inputs(input_nodes@) && all_outputs(output_nodes@) ==> net.valid()
            },
    {
        let mut hidden: Vec<Vec<Neuron>> = Vec::new();
        let wanted_layers = random_below(HIDDEN_LAYERS_BOUND as u128) as usize;
        let mut id: usize = 0;
        let mut i: usize = 0;
        while i < wanted_layers
            invariant
                i <= wanted_layers < HIDDEN_LAYERS_BOUND,
                hidden.len() <= i,
                id <= i * LAYER_NODES_BOUND,
                call_requires(bias_source, ()),
                forall|l: int|
                    0 <= l < hidden.len() ==> 0 < (#[trigger] hidden[l]).len() < LAYER_NODES_BOUND,
                id == neurons_before(hidden_view(hidden@), hidden.len() as int),
                numbered(hidden_view(hidden@)),
                forall|l: int, n: int|
                    0 <= l < hidden.len() && 0 <= n < hidden[l].len() ==> call_ensures(
                        *bias_source,
                        (),
                        (#[trigger] hidden[l][n]).bias,
                    ),
            decreases wanted_layers - i,
        {
            let count = random_below(LAYER_NODES_BOUND as u128) as usize;
            if count > 0 {
                let mut row: Vec<Neuron> = Vec::new();
                let ghost first = id;
                while row.len() < count
                    invariant
                        row.len() <= count < LAYER_NODES_BOUND,
                        i < HIDDEN_LAYERS_BOUND,
                        id + (count - row.len()) <= (i + 1) * LAYER_NODES_BOUND,
                        call_requires(bias_source, ()),
                        id == first + row.len(),
                        forall|n: int|
                            0 <= n < row.len() ==> {
                                let neuron = #[trigger] row[n];
                                &&& neuron.kind.spec_bytes() == BasicNeuron::tag()
                                &&& neuron.id == first + n
                                &&& call_ensures(*bias_source, (), neuron.bias)
                            },
                    decreases count - row.len(),
                {
                    row.push(BasicNeuron::new(bias_source(), id));
                    id += 1;
                }
                let ghost before = hidden_view(hidden@);
                hidden.push(row);
                proof {
                    let after = hidden_view(hidden@);
                    assert forall|l: int, n: int|
                        0 <= l < after.len() && 0 <= n < after[l].len() implies {
                        let neuron = #[trigger] after[l][n];
                        &&& neuron.kind.spec_bytes() == BasicNeuron::tag()
                        &&& neuron.id == neurons_before(after, l) + n
                    } by {
                        lemma_neurons_before(before, after, l);
                        if l < before.len() {
                            assert(after[l] == before[l]);
                            assert(before[l][n] == after[l][n]);
                        } else {
                            assert(after[l] == row@);
                        }
                    }
                    lemma_neurons_before(before, after, before.len() as int);
                }
            }
            i += 1;
        }
        let ghost rows = hidden_view(hidden@);
        let ghost start = skeleton(input_nodes@, rows, output_nodes@);
        proof {
            lemma_skeleton(input_nodes@, rows, output_nodes@);
            assert(fits(input_nodes@, rows, output_nodes@));
        }
        let depth = hidden.len() + 2;
        let wanted = random_below((LINKS_PER_LAYER * (hidden.len() + 1)) as u128) as usize;
        let mut links: Vec<Link> = Vec::new();
        let mut pairs: Vec<(GraphLocation, GraphLocation)> = Vec::new();
        let mut budget: usize = wanted * PROPOSALS_PER_LINK;
        while links.len() < wanted && budget > 0
            invariant
                hidden.len() < HIDDEN_LAYERS_BOUND,
                depth == hidden.len() + 2,
                rows == hidden_view(hidden@),
                start == skeleton(input_nodes@, rows, output_nodes@),
                start.len() == depth,
                start[0] == bare_row(input_nodes@),
                start[depth - 1] == bare_row(output_nodes@),
                forall|l: int| 0 <= l < rows.len() ==> (#[trigger] start[l + 1]) == neuron_row(rows[l]),
                input_nodes@.len() <= GRAPH_LIMIT,
                output_nodes@.len() <= GRAPH_LIMIT,
                forall|l: int|
                    0 <= l < hidden.len() ==> 0 < (#[trigger] hidden[l]).len() < LAYER_NODES_BOUND,
                wanted < LINKS_PER_LAYER * (hidden.len() + 1),
                links.len() <= wanted,
                pairs.len() == links.len(),
                forall|j: int|
                    0 <= j < links.len() ==> (#[trigger] pairs[j]) == (links[j].from, links[j].to),
                links_fit(start, links@, links@.len() as int),
                call_requires(edge_source, ()),
                forall|j: int|
                    0 <= j < links.len() ==> call_ensures(
                        *edge_source,
                        (),
                        (#[trigger] links[j]).value,
                    ),
            decreases budget,
        {
            budget -= 1;
            let from_layer = random_below(depth as u128) as usize;
            let to_layer = random_below(depth as u128) as usize;
            if from_layer < to_layer {
                let from_width = Self::width_of(input_nodes, &hidden, output_nodes, from_layer);
                let to_width = Self::width_of(input_nodes, &hidden, output_nodes, to_layer);
                if from_width > 0 && to_width > 0 {
                    let from = GraphLocation {
                        layer: from_layer as GraphSize,
                        node: random_below(from_width as u128) as GraphSize,
                    };
                    let to = GraphLocation {
                        layer: to_layer as GraphSize,
                        node: random_below(to_width as u128) as GraphSize,
                    };
                    let taken = connection_pair_exists(pairs.as_slice(), &from, &to);
                    if !taken {
                        let value = edge_source();
                        let ghost before = links@;
                        let ghost earlier = pairs@;
                        pairs.push((from, to));
                        links.push(Link { from, to, value });
                        proof {
                            assert forall|a: int, b: int| 0 <= a < b < links@.len() implies !((
                            #[trigger] links@[a]).from == (#[trigger] links@[b]).from && links@[a].to
                                == links@[b].to) by {
                                if b == links@.len() - 1 {
                                    assert(earlier[a] == (before[a].from, before[a].to));
                                    assert(!(earlier[a] == (from, to)));
                                    assert(before[a] == links@[a]);
                                } else {
                                    assert(before[a] == links@[a] && before[b] == links@[b]);
                                }
                            }
                            assert forall|a: int| 0 <= a < links@.len() implies has_node(
                                start,
                                (#[trigger] links@[a]).from,
                            ) && has_node(start, links@[a].to) && links@[a].from.layer
                                < links@[a].to.layer by {
                                if a < links@.len() - 1 {
                                    assert(before[a] == links@[a]);
                                }
                            }
                        }
                    }
                }
            }
        }
        proof {
            if all_inputs(input_nodes@) && all_outputs(output_nodes@) {
                lemma_skeleton_roles(input_nodes@, rows, output_nodes@);
            }
            lemma_linked(start, links@, links@.len() as int);
        }
        let r = Net::assemble(input_nodes, &hidden, output_nodes, &links);
        proof {
            let end = linked(start, links@, links@.len() as int);
            assert(forall|l: int|
                0 <= l < rows.len() ==> 0 < (#[trigger] rows[l]).len() < LAYER_NODES_BOUND) by {
                assert forall|l: int| 0 <= l < rows.len() implies 0 < (#[trigger] rows[l]).len()
                    < LAYER_NODES_BOUND by {
                    assert(rows[l] == hidden[l]@);
                }
            }
            assert(drawn(rows, links@, *bias_source, *edge_source)) by {
                assert forall|l: int, n: int|
                    0 <= l < rows.len() && 0 <= n < rows[l].len() implies call_ensures(
                    *bias_source,
                    (),
                    (#[trigger] rows[l][n]).bias,
                ) by {
                    assert(rows[l][n] == hidden[l][n]);
                }
            }
            assert(generated(input_nodes@, output_nodes@, *bias_source, *edge_source, end.graph));
        }
        r
    }

    /// The number of nodes of layer `layer` of the skeleton.
    fn width_of(input_nodes: &[Node], hidden: &Vec<Vec<Neuron>>, output_nodes: &[Node], layer: usize) -> (r:
        usize)
        requires
            layer < hidden.len() + 2,
        ensures
            r == skeleton(input_nodes@, hidden_view(hidden@), output_nodes@)[layer as int].len(),
    {
        proof {
            lemma_skeleton(input_nodes@, hidden_view(hidden@), output_nodes@);
        }
        if layer == 0 {
            input_nodes.len()
        } else if layer > hidden.len() {
            output_nodes.len()
        } else {
            hidden[layer - 1].len()
        }
    }
}

/// Once the graph has refused a link, no later link changes anything.
proof fn lemma_linked_failed(g: Layers, links: Seq<Link>, i: int, n: int)
    requires
        0 <= i <= n,
        linked(g, links, i).failure is Some,
    ensures
        linked(g, links, n) == linked(g, links, i),
    decreases n - i,
{
    if i < n {
        lemma_linked_failed(g, links, i, n - 1);
    }
}

} // verus!
