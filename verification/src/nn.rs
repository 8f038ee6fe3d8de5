//! The graph store: nodes, weighted connections and the layered container
//! that holds them, with the operations that read and edit it.
use vstd::prelude::*;
use vstd::string::StringSliceAdditionalSpecFns;
use crate::NeuronInfo;

pub mod census;
pub mod cycle;
pub mod descent;
pub mod consistency;
pub mod layers;
pub mod mutate;
pub mod prune;
pub mod reproduce;
pub mod sample;
pub mod synth;
pub mod tick;
pub mod util;
pub mod wiring;

verus! {

/// The integer type of layer and node indices.
pub type GraphSize = u16;

/// The bit pattern of a single-precision number.
pub type Scalar = u32;

/// One more than the largest index a location can hold.
pub const GRAPH_LIMIT: usize = 0x10000;

/// An input neuron: it holds the value that a tick starts from.
#[derive(Debug, Clone, Copy, PartialEq)]
pub struct InputNeuron {
    pub kind: &'static str,
    pub id: usize,
    pub value: Scalar,
}

/// An output neuron: it holds the value that the last tick left in it.
#[derive(Debug, Clone, Copy, PartialEq)]
pub struct OutputNeuron {
    pub kind: &'static str,
    pub id: usize,
    pub value: Scalar,
    pub label: &'static str,
}

/// A hidden neuron. It stores no value between ticks.
#[derive(Debug, Clone, Copy, PartialEq)]
pub struct Neuron {
    pub kind: &'static str,
    pub id: usize,
    pub bias: Scalar,
}

/// The built-in hidden kind, which adds its bias to what it receives.
#[derive(Debug, Clone, Copy)]
pub struct BasicNeuron;

/// What a slot of the graph holds.
#[derive(Debug, Clone, Copy, PartialEq, Default)]
pub enum Node {
    /// A placeholder that keeps a layer densely indexed while a graph is
    /// being put together.
    #[default]
    Blank,
    /// A neuron of the first layer.
    Input(InputNeuron),
    /// A neuron of the last layer.
    Output(OutputNeuron),
    /// A neuron of a layer in between.
    Neuron(Neuron),
}

/// The weight of a connection and whether it takes part in a tick.
#[derive(Debug, Clone, Copy, PartialEq, Eq, Structural)]
pub struct Edge {
    pub weight: Scalar,
    pub enabled: bool,
}

/// The position of a node: its layer, and its index in that layer.
#[derive(Debug, Clone, Copy, PartialEq, Eq, Structural, Hash, Default)]
pub struct GraphLocation {
    pub layer: GraphSize,
    pub node: GraphSize,
}

/// A connection as its source node stores it.
#[derive(Debug, Clone, Copy, PartialEq, Eq, Structural)]
pub struct GraphEdge {
    pub to: GraphLocation,
    pub value: Edge,
}

/// A node with its outgoing connections.
#[derive(Debug, Clone, PartialEq, Default)]
pub struct GraphNode {
    pub value: Node,
    pub connections: Vec<GraphEdge>,
}

/// The layered graph. Layer `l`, index `n` is the node at location `(l, n)`.
#[derive(Debug, Clone, PartialEq, Default)]
pub struct NeuralGraph {
    pub layers: Vec<Vec<GraphNode>>,
}

/// A graph together with the indices of its input and output layers.
#[derive(Debug, Clone, PartialEq, Default)]
pub struct Net {
    pub graph: NeuralGraph,
    pub input_layer: GraphSize,
    pub output_layer: GraphSize,
}

/// Why an operation of the graph store was refused.
#[derive(Debug, Clone, Copy, PartialEq, Eq, Structural)]
pub enum NeuralGraphError {
    /// The layer does not exist. Carries the number of layers.
    LayerNotFound(GraphSize),
    /// No node is stored at the location.
    NodeNotFound(GraphLocation),
    /// The source already has a connection to the target.
    ConnectionExists { from: GraphLocation, to: GraphLocation },
}

/// The mathematical value of a [`GraphNode`].
pub struct GraphNodeView {
    pub value: Node,
    pub connections: Seq<GraphEdge>,
}

/// The mathematical value of a [`NeuralGraph`]: its layers, each a sequence
/// of nodes.
pub type Layers = Seq<Seq<GraphNodeView>>;

impl View for GraphNode {
    type V = GraphNodeView;

    open spec fn view(&self) -> GraphNodeView {
        GraphNodeView { value: self.value, connections: self.connections@ }
    }
}

/// The mathematical value of one layer.
pub open spec fn layer_view(layer: Seq<GraphNode>) -> Seq<GraphNodeView> {
    Seq::new(layer.len(), |n: int| layer[n]@)
}

/// The mathematical value of a sequence of layers.
pub open spec fn layers_view(layers: Seq<Vec<GraphNode>>) -> Layers {
    Seq::new(layers.len(), |l: int| layer_view(layers[l]@))
}

impl View for NeuralGraph {
    type V = Layers;

    open spec fn view(&self) -> Layers {
        layers_view(self.layers@)
    }
}

/// Whether two kind tags are the same tag.
pub open spec fn same_kind(a: Seq<u8>, b: Seq<u8>) -> bool {
    a == b
}

/// Whether a node is stored at `loc`.
pub open spec fn has_node(g: Layers, loc: GraphLocation) -> bool {
    loc.layer < g.len() && loc.node < g[loc.layer as int].len()
}

/// The node stored at `loc`.
pub open spec fn node_at(g: Layers, loc: GraphLocation) -> GraphNodeView
    recommends
        has_node(g, loc),
{
    g[loc.layer as int][loc.node as int]
}

/// Whether `i` is the index of the first connection in `conns` that leads
/// to `to`.
pub open spec fn is_first_edge(conns: Seq<GraphEdge>, to: GraphLocation, i: int) -> bool {
    &&& 0 <= i < conns.len()
    &&& conns[i].to == to
    &&& forall|j: int| 0 <= j < i ==> (#[trigger] conns[j]).to != to
}

/// Whether some connection in `conns` leads to `to`.
pub open spec fn leads_to(conns: Seq<GraphEdge>, to: GraphLocation) -> bool {
    exists|i: int| 0 <= i < conns.len() && (#[trigger] conns[i]).to == to
}

/// The index of the first connection in `conns` that leads to `to`, or the
/// length of `conns` if there is none.
pub open spec fn edge_index(conns: Seq<GraphEdge>, to: GraphLocation) -> int {
    if leads_to(conns, to) {
        choose|i: int| is_first_edge(conns, to, i)
    } else {
        conns.len() as int
    }
}

/// Whether the graph holds a connection from `from` to `to`.
pub open spec fn has_edge(g: Layers, from: GraphLocation, to: GraphLocation) -> bool {
    has_node(g, from) && leads_to(node_at(g, from).connections, to)
}

/// The first connection from `from` to `to`, if there is one.
pub open spec fn edge_between(g: Layers, from: GraphLocation, to: GraphLocation) -> Option<
    GraphEdge,
> {
    if has_edge(g, from, to) {
        let conns = node_at(g, from).connections;
        Some(conns[edge_index(conns, to)])
    } else {
        None
    }
}

/// The graph `g` with the node at `loc` replaced by `node`.
pub open spec fn with_node(g: Layers, loc: GraphLocation, node: GraphNodeView) -> Layers
    recommends
        has_node(g, loc),
{
    g.update(loc.layer as int, g[loc.layer as int].update(loc.node as int, node))
}

/// The graph `g` with the connections of the node at `loc` replaced by
/// `conns`.
pub open spec fn with_connections(g: Layers, loc: GraphLocation, conns: Seq<GraphEdge>) -> Layers
    recommends
        has_node(g, loc),
{
    with_node(g, loc, GraphNodeView { value: node_at(g, loc).value, connections: conns })
}

/// The connections in `conns` that do not lead to `to`, in order.
pub open spec fn without_target(conns: Seq<GraphEdge>, to: GraphLocation) -> Seq<GraphEdge>
    decreases conns.len(),
{
    if conns.len() == 0 {
        conns
    } else if conns.last().to == to {
        without_target(conns.drop_last(), to)
    } else {
        without_target(conns.drop_last(), to).push(conns.last())
    }
}

/// Every layer and every node of `g` has an index that fits a location.
pub open spec fn addressable(g: Layers) -> bool {
    &&& g.len() <= GRAPH_LIMIT
    &&& forall|l: int| 0 <= l < g.len() ==> (#[trigger] g[l]).len() <= GRAPH_LIMIT
}

/// What `add_edge` answers on the graph `g`.
pub open spec fn add_edge_outcome(g: Layers, from: GraphLocation, to: GraphLocation) -> Result<
    (),
    NeuralGraphError,
> {
    if !has_node(g, to) {
        Err(NeuralGraphError::NodeNotFound(to))
    } else if !has_node(g, from) {
        Err(NeuralGraphError::NodeNotFound(from))
    } else if has_edge(g, from, to) {
        Err((NeuralGraphError::ConnectionExists { from, to }))
    } else {
        Ok(())
    }
}

/// The graph `g` with a connection from `from` to `to` appended to the
/// connections of `from`.
pub open spec fn with_edge(g: Layers, from: GraphLocation, to: GraphLocation, value: Edge) -> Layers
    recommends
        has_node(g, from),
{
    with_connections(g, from, node_at(g, from).connections.push(GraphEdge { to, value }))
}

/// The graph with a new connection holds the nodes that it held, and the
/// new connection is the one between its ends.
pub proof fn lemma_with_edge(g: Layers, from: GraphLocation, to: GraphLocation, value: Edge)
    requires
        has_node(g, from),
        !has_edge(g, from, to),
    ensures
        forall|loc: GraphLocation| has_node(with_edge(g, from, to, value), loc) == has_node(g, loc),
        edge_between(with_edge(g, from, to, value), from, to) == Some(GraphEdge { to, value }),
{
    let h = with_edge(g, from, to, value);
    let conns = node_at(g, from).connections;
    let added = conns.push(GraphEdge { to, value });
    assert(node_at(h, from).connections == added);
    assert(added[conns.len() as int].to == to);
    assert(is_first_edge(added, to, conns.len() as int)) by {
        assert forall|j: int| 0 <= j < conns.len() implies (#[trigger] added[j]).to != to by {
            assert(conns[j].to != to);
        }
    }
    lemma_edge_index(added, to);
}

/// The first matching index is unique, and it exists when any match does.
pub proof fn lemma_edge_index(conns: Seq<GraphEdge>, to: GraphLocation)
    ensures
        leads_to(conns, to) ==> is_first_edge(conns, to, edge_index(conns, to)),
        !leads_to(conns, to) ==> edge_index(conns, to) == conns.len(),
        forall|i: int| is_first_edge(conns, to, i) ==> edge_index(conns, to) == i,
{
    if leads_to(conns, to) {
        let w = choose|i: int| 0 <= i < conns.len() && (#[trigger] conns[i]).to == to;
        lemma_first_edge_exists(conns, to, w);
    }
    assert forall|i: int| is_first_edge(conns, to, i) implies edge_index(conns, to) == i by {
        assert(conns[i].to == to);
        let c = edge_index(conns, to);
        assert(is_first_edge(conns, to, c));
        if c < i {
            assert(conns[c].to != to);
        }
        if i < c {
            assert(conns[i].to != to);
        }
    }
}

proof fn lemma_first_edge_exists(conns: Seq<GraphEdge>, to: GraphLocation, w: int)
    requires
        0 <= w < conns.len(),
        conns[w].to == to,
    ensures
        exists|i: int| is_first_edge(conns, to, i),
    decreases w,
{
    if forall|j: int| 0 <= j < w ==> (#[trigger] conns[j]).to != to {
        assert(is_first_edge(conns, to, w));
    } else {
        let j = choose|j: int| 0 <= j < w && (#[trigger] conns[j]).to == to;
        lemma_first_edge_exists(conns, to, j);
    }
}

/// `without_target` keeps exactly the connections that lead elsewhere, and
/// it keeps all of them when none leads to `to`.
pub proof fn lemma_without_target(conns: Seq<GraphEdge>, to: GraphLocation)
    ensures
        without_target(conns, to).len() <= conns.len(),
        without_target(conns, to).len() == conns.len() <==> !leads_to(conns, to),
        !leads_to(conns, to) ==> without_target(conns, to) == conns,
        !leads_to(without_target(conns, to), to),
        forall|c: GraphEdge|
            without_target(conns, to).contains(c) <==> (conns.contains(c) && c.to != to),
    decreases conns.len(),
{
    let out = without_target(conns, to);
    if conns.len() == 0 {
        assert forall|c: GraphEdge| out.contains(c) <==> (conns.contains(c) && c.to != to) by {}
    } else {
        let init = conns.drop_last();
        let last = conns.last();
        lemma_without_target(init, to);
        let inner = without_target(init, to);
        assert(leads_to(conns, to) <==> (leads_to(init, to) || last.to == to)) by {
            if leads_to(conns, to) {
                let i = choose|i: int| 0 <= i < conns.len() && (#[trigger] conns[i]).to == to;
                if i < init.len() {
                    assert(init[i].to == to);
                }
            }
            if leads_to(init, to) {
                let i = choose|i: int| 0 <= i < init.len() && (#[trigger] init[i]).to == to;
                assert(conns[i].to == to);
            }
            if last.to == to {
                assert(conns[conns.len() - 1].to == to);
            }
        }
        if !leads_to(conns, to) {
            assert(inner == init);
            assert(out =~= conns);
        }
        assert(!leads_to(out, to)) by {
            if leads_to(out, to) {
                let i = choose|i: int| 0 <= i < out.len() && (#[trigger] out[i]).to == to;
                if i < inner.len() {
                    assert(inner[i].to == to);
                }
            }
        }
        assert forall|c: GraphEdge| out.contains(c) <==> (conns.contains(c) && c.to != to) by {
            if out.contains(c) {
                let i = choose|i: int| 0 <= i < out.len() && out[i] == c;
                if i < inner.len() {
                    assert(inner[i] == c);
                    assert(inner.contains(c));
                    assert(init.contains(c) && c.to != to);
                    let k = choose|k: int| 0 <= k < init.len() && init[k] == c;
                    assert(conns[k] == c);
                } else {
                    assert(conns[conns.len() - 1] == c);
                }
            }
            if conns.contains(c) && c.to != to {
                let k = choose|k: int| 0 <= k < conns.len() && conns[k] == c;
                if k < init.len() {
                    assert(init[k] == c);
                    assert(init.contains(c));
                    assert(inner.contains(c));
                    let i = choose|i: int| 0 <= i < inner.len() && inner[i] == c;
                    assert(out[i] == c);
                } else {
                    assert(out[out.len() - 1] == c);
                }
            }
        }
    }
}

/// Replacing one layer of the stored layers replaces that layer of the
/// view, whatever the new layer is.
pub proof fn lemma_layers_view_update(layers: Seq<Vec<GraphNode>>, l: int)
    requires
        0 <= l < layers.len(),
    ensures
        forall|layer: Vec<GraphNode>|
            layers_view(#[trigger] layers.update(l, layer)) == layers_view(layers).update(
                l,
                layer_view(layer@),
            ),
{
    assert forall|layer: Vec<GraphNode>|
        layers_view(#[trigger] layers.update(l, layer)) == layers_view(layers).update(
            l,
            layer_view(layer@),
        ) by {
        assert(layers_view(layers.update(l, layer)) =~= layers_view(layers).update(
            l,
            layer_view(layer@),
        ));
    }
}

/// Replacing one node of a layer replaces that node of the layer's view,
/// whatever the new node is.
pub proof fn lemma_layer_view_update(layer: Seq<GraphNode>, n: int)
    requires
        0 <= n < layer.len(),
    ensures
        forall|node: GraphNode|
            layer_view(#[trigger] layer.update(n, node)) == layer_view(layer).update(n, node@),
{
    assert forall|node: GraphNode|
        layer_view(#[trigger] layer.update(n, node)) == layer_view(layer).update(n, node@) by {
        assert(layer_view(layer.update(n, node)) =~= layer_view(layer).update(n, node@));
    }
}

/// Appending a node to a layer appends its view to the layer's view.
pub proof fn lemma_layer_view_push(layer: Seq<GraphNode>, node: GraphNode)
    ensures
        layer_view(layer.push(node)) == layer_view(layer).push(node@),
{
    assert(layer_view(layer.push(node)) =~= layer_view(layer).push(node@));
}

/// Whether two kind tags are the same tag.
pub fn kind_eq(a: &str, b: &str) -> (r: bool)
    ensures
        r == same_kind(a.spec_bytes(), b.spec_bytes()),
{
    let x = a.as_bytes();
    let y = b.as_bytes();
    if x.len() != y.len() {
        return false;
    }
    let mut i: usize = 0;
    while i < x.len()
        invariant
            i <= x.len(),
            x.len() == y.len(),
            x@ == a.spec_bytes(),
            y@ == b.spec_bytes(),
            forall|k: int| 0 <= k < i ==> x@[k] == y@[k],
        decreases x.len() - i,
    {
        if x[i] != y[i] {
            return false;
        }
        i += 1;
    }
    assert(x@ =~= y@);
    true
}

/// What every neuron has, whatever its role: an identity, and a value that
/// can be copied and handed between threads.
pub trait NeuronSubTraits: NeuronInfo + Copy + Send + Sync {

}

impl NeuronSubTraits for InputNeuron {

}

impl NeuronSubTraits for OutputNeuron {

}

impl NeuronSubTraits for Neuron {

}

impl NeuronInfo for InputNeuron {
    open spec fn has_identity(&self) -> bool {
        true
    }

    open spec fn kind(&self) -> Seq<u8> {
        self.kind.spec_bytes()
    }

    open spec fn ident(&self) -> usize {
        self.id
    }

    fn _type(&self) -> (r: &'static str) {
        self.kind
    }

    fn id(&self) -> (r: usize) {
        self.id
    }
}

impl NeuronInfo for OutputNeuron {
    open spec fn has_identity(&self) -> bool {
        true
    }

    open spec fn kind(&self) -> Seq<u8> {
        self.kind.spec_bytes()
    }

    open spec fn ident(&self) -> usize {
        self.id
    }

    fn _type(&self) -> (r: &'static str) {
        self.kind
    }

    fn id(&self) -> (r: usize) {
        self.id
    }
}

impl NeuronInfo for Neuron {
    open spec fn has_identity(&self) -> bool {
        true
    }

    open spec fn kind(&self) -> Seq<u8> {
        self.kind.spec_bytes()
    }

    open spec fn ident(&self) -> usize {
        self.id
    }

    fn _type(&self) -> (r: &'static str) {
        self.kind
    }

    fn id(&self) -> (r: usize) {
        self.id
    }
}

impl Node {
    /// The kind tag of the neuron that the node holds.
    pub open spec fn tag(&self) -> &'static str {
        match self {
            Node::Blank => "",
            Node::Input(n) => n.kind,
            Node::Output(n) => n.kind,
            Node::Neuron(n) => n.kind,
        }
    }
}

impl NeuronInfo for Node {
    open spec fn has_identity(&self) -> bool {
        !(self is Blank)
    }

    open spec fn kind(&self) -> Seq<u8> {
        self.tag().spec_bytes()
    }

    open spec fn ident(&self) -> usize {
        match self {
            Node::Blank => 0,
            Node::Input(n) => n.id,
            Node::Output(n) => n.id,
            Node::Neuron(n) => n.id,
        }
    }

    fn _type(&self) -> (r: &'static str)
        ensures
            r == self.tag(),
    {
        match self {
            Node::Blank => "",
            Node::Input(n) => n.kind,
            Node::Output(n) => n.kind,
            Node::Neuron(n) => n.kind,
        }
    }

    fn id(&self) -> (r: usize) {
        match self {
            Node::Blank => 0,
            Node::Input(n) => n.id,
            Node::Output(n) => n.id,
            Node::Neuron(n) => n.id,
        }
    }
}

impl BasicNeuron {
    /// The kind tag of basic hidden neurons.
    pub open spec fn tag() -> Seq<u8> {
        "BasicNeuron".spec_bytes()
    }

    /// A hidden neuron of the basic kind.
    pub fn new(bias: Scalar, id: usize) -> (r: Neuron)
        ensures
            r.kind.spec_bytes() == Self::tag(),
            r.id == id,
            r.bias == bias,
    {
        Neuron { kind: "BasicNeuron", id, bias }
    }
}

impl Default for Edge {
    /// The inert connection: weight zero, not enabled.
    fn default() -> (r: Edge)
        ensures
            r == (Edge { weight: 0, enabled: false }),
    {
        Edge { weight: 0, enabled: false }
    }
}

impl GraphLocation {
    pub fn new(layer: GraphSize, node: GraphSize) -> (r: GraphLocation)
        ensures
            r.layer == layer,
            r.node == node,
    {
        GraphLocation { layer, node }
    }
}

impl GraphNode {
    /// A node that holds `value` and has no connections.
    pub fn new(value: Node) -> (r: GraphNode)
        ensures
            r@ == (GraphNodeView { value, connections: Seq::empty() }),
    {
        GraphNode { value, connections: Vec::new() }
    }

    /// A placeholder without connections.
    pub fn blank() -> (r: GraphNode)
        ensures
            r@ == (GraphNodeView { value: Node::Blank, connections: Seq::empty() }),
    {
        GraphNode { value: Node::Blank, connections: Vec::new() }
    }
}

impl NeuralGraph {
    /// The graph without layers.
    pub fn new() -> (r: NeuralGraph)
        ensures
            r@ == Seq::<Seq<GraphNodeView>>::empty(),
    {
        let r = NeuralGraph { layers: Vec::new() };
        assert(r@ =~= Seq::<Seq<GraphNodeView>>::empty());
        r
    }

    /// Appends an empty layer and returns its index.
    pub fn add_layer_to_end(&mut self) -> (r: GraphSize)
        requires
            old(self)@.len() < GRAPH_LIMIT,
        ensures
            final(self)@ == old(self)@.push(Seq::empty()),
            r == old(self)@.len(),
    {
        self.layers.push(Vec::new());
        proof {
            assert(layer_view(Seq::<GraphNode>::empty()) =~= Seq::<GraphNodeView>::empty());
            assert(self@ =~= old(self)@.push(Seq::empty()));
        }
        (self.layers.len() - 1) as GraphSize
    }

    /// Appends `graph_node` to layer `layer_num` and returns where it
    /// stands. Refused with `LayerNotFound`, carrying the number of layers,
    /// exactly when there is no such layer.
    pub fn add_node(&mut self, layer_num: GraphSize, graph_node: GraphNode) -> (r: Result<
        GraphLocation,
        NeuralGraphError,
    >)
        requires
            old(self)@.len() <= GRAPH_LIMIT,
            layer_num < old(self)@.len() ==> old(self)@[layer_num as int].len() < GRAPH_LIMIT,
        ensures
            layer_num < old(self)@.len() ==> {
                &&& r == Ok::<GraphLocation, NeuralGraphError>(
                    GraphLocation {
                        layer: layer_num,
                        node: old(self)@[layer_num as int].len() as GraphSize,
                    },
                )
                &&& final(self)@ == old(self)@.update(
                    layer_num as int,
                    old(self)@[layer_num as int].push(graph_node@),
                )
            },
            layer_num >= old(self)@.len() ==> {
                &&& r matches Err(NeuralGraphError::LayerNotFound(n))
                &&& n == old(self)@.len() as GraphSize
                &&& final(self)@ == old(self)@
            },
    {
        let count = self.layers.len();
        if layer_num as usize >= count {
            return Err(NeuralGraphError::LayerNotFound(count as GraphSize));
        }
        let ghost before = self.layers@;
        let layer = &mut self.layers[layer_num as usize];
        let ghost row = layer@;
        layer.push(graph_node);
        let node = (layer.len() - 1) as GraphSize;
        proof {
            lemma_layers_view_update(before, layer_num as int);
            lemma_layer_view_push(row, graph_node);
            assert(self.layers@ =~= before.update(layer_num as int, self.layers@[layer_num as int]));
        }
        Ok(GraphLocation { layer: layer_num, node })
    }

    /// The node at `location`, if one is stored there.
    pub fn get_node(&self, location: &GraphLocation) -> (r: Option<&GraphNode>)
        ensures
            r is Some <==> has_node(self@, *location),
            r matches Some(node) ==> node@ == node_at(self@, *location)
                && *node == self.layers[location.layer as int][location.node as int],
    {
        if (location.layer as usize) < self.layers.len() {
            let layer = &self.layers[location.layer as usize];
            if (location.node as usize) < layer.len() {
                Some(&layer[location.node as usize])
            } else {
                None
            }
        } else {
            None
        }
    }

    /// The node at `location`, if one is stored there, for editing. What the
    /// caller leaves in it is what the graph then holds at `location`;
    /// nothing else changes.
    pub fn get_node_mut(&mut self, location: &GraphLocation) -> (r: Option<&mut GraphNode>)
        ensures
            r is Some <==> has_node(old(self)@, *location),
            r is None ==> final(self)@ == old(self)@,
            r matches Some(node) ==> {
                &&& *node == old(self).layers[location.layer as int][location.node as int]
                &&& final(self)@ == with_node(old(self)@, *location, final(node)@)
            },
    {
        if (location.layer as usize) < self.layers.len() {
            if (location.node as usize) < self.layers[location.layer as usize].len() {
                proof {
                    lemma_layers_view_update(self.layers@, location.layer as int);
                    lemma_layer_view_update(
                        self.layers@[location.layer as int]@,
                        location.node as int,
                    );
                }
                let layer = &mut self.layers[location.layer as usize];
                let node = &mut layer[location.node as usize];
                Some(node)
            } else {
                None
            }
        } else {
            None
        }
    }

    /// The first connection from `from` to `to`, if both the node and such a
    /// connection exist.
    pub fn get_edge(&self, from: &GraphLocation, to: &GraphLocation) -> (r: Option<&GraphEdge>)
        ensures
            r is Some <==> has_edge(self@, *from, *to),
            r matches Some(e) ==> Some(*e) == edge_between(self@, *from, *to),
    {
        match self.find_edge(from, to) {
            None => None,
            Some(i) => {
                let node = &self.layers[from.layer as usize][from.node as usize];
                proof {
                    assert(node@ == node_at(self@, *from));
                }
                Some(&node.connections[i])
            },
        }
    }

    /// The first connection from `from` to `to`, if both the node and such a
    /// connection exist, for editing. What the caller leaves in it replaces
    /// that connection; nothing else changes.
    pub fn get_edge_mut(&mut self, from: &GraphLocation, to: &GraphLocation) -> (r: Option<
        &mut GraphEdge,
    >)
        ensures
            r is Some <==> has_edge(old(self)@, *from, *to),
            r is None ==> final(self)@ == old(self)@,
            r matches Some(e) ==> {
                let conns = node_at(old(self)@, *from).connections;
                &&& Some(*e) == edge_between(old(self)@, *from, *to)
                &&& final(self)@ == with_connections(
                    old(self)@,
                    *from,
                    conns.update(edge_index(conns, *to), *final(e)),
                )
            },
    {
        let found = self.find_edge(from, to);
        match found {
            None => None,
            Some(i) => {
                proof {
                    lemma_layers_view_update(self.layers@, from.layer as int);
                    lemma_layer_view_update(self.layers@[from.layer as int]@, from.node as int);
                }
                let layer = &mut self.layers[from.layer as usize];
                let node = &mut layer[from.node as usize];
                let e = &mut node.connections[i];
                Some(e)
            },
        }
    }

    /// The index, among the connections of `from`, of the first one that
    /// leads to `to`.
    pub fn find_edge(&self, from: &GraphLocation, to: &GraphLocation) -> (r: Option<usize>)
        ensures
            r is Some <==> has_edge(self@, *from, *to),
            r matches Some(i) ==> i == edge_index(node_at(self@, *from).connections, *to)
                && i < node_at(self@, *from).connections.len(),
    {
        match self.get_node(from) {
            None => None,
            Some(node) => {
                let mut i: usize = 0;
                while i < node.connections.len()
                    invariant
                        i <= node.connections.len(),
                        has_node(self@, *from),
                        node@ == node_at(self@, *from),
                        forall|j: int| 0 <= j < i ==> (#[trigger] node.connections@[j]).to != *to,
                    decreases node.connections.len() - i,
                {
                    if node.connections[i].to == *to {
                        proof {
                            let conns = node_at(self@, *from).connections;
                            assert(conns == node.connections@);
                            assert(conns[i as int].to == *to);
                            assert(leads_to(conns, *to));
                            assert(is_first_edge(conns, *to, i as int));
                            lemma_edge_index(conns, *to);
                        }
                        return Some(i);
                    }
                    i += 1;
                }
                None
            },
        }
    }

    /// Appends a connection from `from` to `to`. Refused, with the graph
    /// unchanged, when `to` is not stored (`NodeNotFound(to)`), else when
    /// `from` is not stored (`NodeNotFound(from)`), else when `from` already
    /// has a connection to `to` (`ConnectionExists`).
    pub fn add_edge(&mut self, from: GraphLocation, to: GraphLocation, value: Edge) -> (r: Result<
        (),
        NeuralGraphError,
    >)
        ensures
            r == add_edge_outcome(old(self)@, from, to),
            r is Ok ==> final(self)@ == with_edge(old(self)@, from, to, value),
            r is Err ==> final(self)@ == old(self)@,
            r is Ok ==> edge_between(final(self)@, from, to) == Some(GraphEdge { to, value }),
            forall|loc: GraphLocation| has_node(final(self)@, loc) == has_node(old(self)@, loc),
    {
        proof {
            if add_edge_outcome(self@, from, to) is Ok {
                lemma_with_edge(self@, from, to, value);
            }
        }
        if self.get_node(&to).is_none() {
            return Err(NeuralGraphError::NodeNotFound(to));
        }
        if self.get_node(&from).is_none() {
            return Err(NeuralGraphError::NodeNotFound(from));
        }
        if self.find_edge(&from, &to).is_some() {
            return Err(NeuralGraphError::ConnectionExists { from, to });
        }
        match self.get_node_mut(&from) {
            Some(node) => {
                node.connections.push(GraphEdge { to, value });
            },
            None => {},
        }
        Ok(())
    }

    /// Removes every connection from `from` to `to` and tells whether there
    /// was one.
    pub fn remove_edge(&mut self, from: &GraphLocation, to: &GraphLocation) -> (r: bool)
        ensures
            r == has_edge(old(self)@, *from, *to),
            has_node(old(self)@, *from) ==> final(self)@ == with_connections(
                old(self)@,
                *from,
                without_target(node_at(old(self)@, *from).connections, *to),
            ),
            !has_node(old(self)@, *from) ==> final(self)@ == old(self)@,
            !has_edge(final(self)@, *from, *to),
            forall|loc: GraphLocation| has_node(final(self)@, loc) == has_node(old(self)@, loc),
    {
        proof {
            if has_node(self@, *from) {
                lemma_without_target(node_at(self@, *from).connections, *to);
            }
        }
        match self.get_node_mut(from) {
            None => false,
            Some(node) => {
                let before = node.connections.len();
                let kept = drop_target(&node.connections, to);
                proof {
                    lemma_without_target(node.connections@, *to);
                }
                let after = kept.len();
                node.connections = kept;
                after != before
            },
        }
    }

    /// Appends a node that holds `value` to layer `layer` and returns where
    /// it stands.
    pub fn push_node_at(&mut self, layer: GraphSize, value: Node) -> (r: GraphLocation)
        requires
            layer < old(self)@.len(),
            old(self)@[layer as int].len() < GRAPH_LIMIT,
        ensures
            r == (GraphLocation { layer, node: old(self)@[layer as int].len() as GraphSize }),
            final(self)@ == old(self)@.update(
                layer as int,
                old(self)@[layer as int].push(
                    GraphNodeView { value, connections: Seq::empty() },
                ),
            ),
    {
        let ghost before = self.layers@;
        let row = &mut self.layers[layer as usize];
        let ghost nodes = row@;
        let node = GraphNode::new(value);
        row.push(node);
        let index = (row.len() - 1) as GraphSize;
        proof {
            lemma_layers_view_update(before, layer as int);
            lemma_layer_view_push(nodes, node);
            assert(self.layers@ =~= before.update(layer as int, self.layers@[layer as int]));
        }
        GraphLocation::new(layer, index)
    }
}

/// The connections of `conns` that do not lead to `to`, in order.
pub fn drop_target(conns: &Vec<GraphEdge>, to: &GraphLocation) -> (r: Vec<GraphEdge>)
    ensures
        r@ == without_target(conns@, *to),
{
    let mut kept: Vec<GraphEdge> = Vec::new();
    let mut i: usize = 0;
    while i < conns.len()
        invariant
            i <= conns.len(),
            kept@ == without_target(conns@.take(i as int), *to),
        decreases conns.len() - i,
    {
        proof {
            assert(conns@.take(i + 1).drop_last() =~= conns@.take(i as int));
        }
        if conns[i].to != *to {
            kept.push(conns[i]);
        }
        i += 1;
    }
    proof {
        assert(conns@.take(i as int) =~= conns@);
    }
    kept
}

} // verus!
