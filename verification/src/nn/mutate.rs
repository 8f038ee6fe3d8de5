//! The four operators that edit a net, and the driver that applies a
//! sequence of them.
use vstd::prelude::*;
use crate::nn::add_edge_outcome;
use crate::nn::consistency::lemma_with_edge_enabled_keeps;
use crate::nn::consistency::lemma_with_edge_keeps;
use crate::nn::consistency::lemma_with_layer_at_keeps;
use crate::nn::consistency::lemma_with_node_pushed_keeps;
use crate::nn::consistency::lemma_without_edge_keeps;
use crate::nn::consistency::lemma_without_node_keeps;
use crate::nn::consistency::roles_hold;
use crate::nn::consistency::unique_edges;
use crate::nn::cycle::cycle_found;
use crate::nn::edge_index;
use crate::nn::has_edge;
use crate::nn::has_node;
use crate::nn::layers::forward_only;
use crate::nn::prune::no_blanks;
use crate::nn::layers::lemma_with_layer_at;
use crate::nn::layers::lemma_with_layer_at_forward;
use crate::nn::layers::lemma_with_layer_at_well_formed;
use crate::nn::layers::well_formed;
use crate::nn::layers::with_layer_at;
use crate::nn::layers::without_node;
use crate::nn::lemma_edge_index;
use crate::nn::lemma_without_target;
use crate::nn::node_at;
use crate::nn::reproduce::last_layer;
use crate::nn::reproduce::lemma_with_edge_well_formed;
use crate::nn::layers::rewired_node;
use crate::nn::layers::rewired_row;
use crate::nn::layers::Rewire;
use crate::nn::sample::edge_count;
use crate::nn::sample::lemma_edges_from;
use crate::nn::sample::lemma_nodes_between;
use crate::nn::sample::nodes_between;
use crate::nn::with_connections;
use crate::nn::with_edge;
use crate::nn::without_target;
use crate::nn::Edge;
use crate::nn::GraphEdge;
use crate::nn::GraphLocation;
use crate::nn::GraphNodeView;
use crate::nn::GraphSize;
use crate::nn::Layers;
use crate::nn::Net;
use crate::nn::NeuralGraph;
use crate::nn::NeuralGraphError;
use crate::nn::Neuron;
use crate::nn::Node;
use crate::nn::GRAPH_LIMIT;

verus! {

/// Why no operator was applied at the word of a generator.
#[derive(Debug, Clone, Copy, PartialEq, Eq, Structural)]
pub enum GeneratorError {
    /// The generator has nothing left to offer: it failed, or the index
    /// that it gave is that of no operator on offer.
    Exhausted,
}

/// Why a mutation was given up.
#[derive(Debug, Clone, Copy, PartialEq, Eq)]
pub enum MutateError {
    /// The generator failed.
    GeneratorError(GeneratorError),
    /// The graph refused a connection that was to be added.
    AddLinkError(NeuralGraphError),
    /// The choice among the candidate neurons was not the index of one.
    /// Carries the number of candidates.
    NeuronSelectorOutOfRange(usize),
    /// The graph refused the removal of a connection.
    RemoveLinkError(NeuralGraphError),
    /// The graph refused a step of the insertion of a neuron.
    AddNeuronError(NeuralGraphError),
    /// The graph refused the removal of a neuron.
    RemoveNeuronError(NeuralGraphError),
}

/// An operator that edits the connections of a net. `fresh` is the
/// connection value that it may use for a new connection. The answer tells
/// whether the net was changed.
pub trait LinkMutator {
    /// Whether the operator may leave the net `after` and answer `r` where
    /// it is applied to the net `before` with the value `fresh`.
    spec fn yields(&self, before: Net, fresh: Edge, after: Net, r: Result<bool, MutateError>) -> bool;

    fn mutate(&self, net: &mut Net, fresh: Edge) -> (r: Result<bool, MutateError>)
        requires
            well_formed(old(net).graph@),
        ensures
            self.yields(*old(net), fresh, *final(net), r),
            well_formed(final(net).graph@),
            forward_only(old(net).graph@) ==> forward_only(final(net).graph@),
            unique_edges(old(net).graph@) ==> unique_edges(final(net).graph@),
            roles_hold(old(net).graph@) ==> roles_hold(final(net).graph@),
            no_blanks(old(net).graph@) ==> no_blanks(final(net).graph@),
            old(net).shaped() ==> final(net).shaped(),
    ;
}

/// An operator that edits the neurons of a net. `neurons` are the
/// candidates for a new neuron and `selected` is the choice among them. The
/// answer tells whether the net was changed.
pub trait NeuronMutator {
    /// Whether the operator may leave the net `after` and answer `r` where
    /// it is applied to the net `before` with the candidates `neurons` and
    /// the choice `selected`.
    spec fn yields(
        &self,
        before: Net,
        neurons: Seq<Neuron>,
        selected: usize,
        after: Net,
        r: Result<bool, MutateError>,
    ) -> bool;

    fn mutate(&self, net: &mut Net, neurons: &[Neuron], selected: usize) -> (r: Result<
        bool,
        MutateError,
    >)
        requires
            well_formed(old(net).graph@),
        ensures
            self.yields(*old(net), neurons@, selected, *final(net), r),
            well_formed(final(net).graph@),
            forward_only(old(net).graph@) ==> forward_only(final(net).graph@),
            unique_edges(old(net).graph@) ==> unique_edges(final(net).graph@),
            forward_only(old(net).graph@) && roles_hold(old(net).graph@) ==> roles_hold(
                final(net).graph@,
            ),
            no_blanks(old(net).graph@) ==> no_blanks(final(net).graph@),
            old(net).shaped() ==> final(net).shaped(),
    ;
}

/// The source of the order in which the operators are applied.
pub trait Generator: Sized {
    /// An upper bound on the number of operators still to apply.
    spec fn pending(&self) -> nat;

    /// Whether the generator may answer `r` and be left as `after` where it
    /// is asked for the next operator on the graph `g`, with the operators
    /// `link_mutators` and `neuron_mutators` on offer.
    spec fn gives(
        &self,
        g: NeuralGraph,
        link_mutators: Seq<Box<dyn LinkMutator>>,
        neuron_mutators: Seq<Box<dyn NeuronMutator>>,
        after: Self,
        r: Result<(bool, usize, bool), GeneratorError>,
    ) -> bool;

    /// Whether the next operator is one of `link_mutators`, its index among
    /// them or among `neuron_mutators`, and whether it is the last. The
    /// index need not be that of an operator on offer.
    fn generate(
        &mut self,
        g: &NeuralGraph,
        link_mutators: &[Box<dyn LinkMutator>],
        neuron_mutators: &[Box<dyn NeuronMutator>],
    ) -> (r: Result<(bool, usize, bool), GeneratorError>)
        ensures
            old(self).gives(*g, link_mutators@, neuron_mutators@, *final(self), r),
            r matches Ok((is_link, idx, done)) ==> (!done ==> final(self).pending() < old(
                self,
            ).pending()),
    ;
}

/// The operator that adds a connection, or enables the one that is there.
#[derive(Debug, Clone, Copy, Default)]
pub struct AddEdge;

/// The operator that removes a connection.
#[derive(Debug, Clone, Copy, Default)]
pub struct RemoveEdge;

/// The operator that splits a connection by a new neuron.
#[derive(Debug, Clone, Copy, Default)]
pub struct AddNeuron;

/// The operator that removes a hidden neuron.
#[derive(Debug, Clone, Copy, Default)]
pub struct RemoveNeuron;

/// The connection `e`, enabled.
pub open spec fn enabled(e: GraphEdge) -> GraphEdge {
    GraphEdge { to: e.to, value: Edge { weight: e.value.weight, enabled: true } }
}

/// The graph `g` with the first connection from `from` to `to` enabled.
pub open spec fn with_edge_enabled(g: Layers, from: GraphLocation, to: GraphLocation) -> Layers
    recommends
        has_edge(g, from, to),
{
    let conns = node_at(g, from).connections;
    let i = edge_index(conns, to);
    with_connections(g, from, conns.update(i, enabled(conns[i])))
}

/// The graph that `AddEdge` leaves where it is to connect `from` to `to` in
/// `g`, with `fresh` as the value of a new connection. A connection that is
/// there is enabled. Else the connection is added, unless the graph refuses
/// it or the walk from `from` then comes to a location twice: the graph is
/// then as it was.
pub open spec fn connected(g: Layers, from: GraphLocation, to: GraphLocation, fresh: Edge) -> Layers {
    if has_edge(g, from, to) {
        with_edge_enabled(g, from, to)
    } else if add_edge_outcome(g, from, to) is Err {
        g
    } else if cycle_found(with_edge(g, from, to, fresh), Some(from)) {
        g
    } else {
        with_edge(g, from, to, fresh)
    }
}

/// What `AddEdge` answers where it is to connect `from` to `to` in `g`:
/// that it changed the graph, where it enabled or added a connection; that
/// it did not, where it took the new connection back; the refusal of the
/// graph, where the graph refused.
pub open spec fn connect_answer(g: Layers, from: GraphLocation, to: GraphLocation, fresh: Edge) -> Result<
    bool,
    MutateError,
> {
    if has_edge(g, from, to) {
        Ok(true)
    } else {
        match add_edge_outcome(g, from, to) {
            Err(e) => Err(MutateError::AddLinkError(e)),
            Ok(_) => Ok(!cycle_found(with_edge(g, from, to, fresh), Some(from))),
        }
    }
}

/// What `AddEdge` may do with the graph `g` once it has drawn the source
/// `from`: nothing, with the answer that it changed nothing, where no node
/// stands in a layer behind `from`; else what `connect` does for `from`
/// and a node `to` of a later layer.
pub open spec fn connected_from(
    g: Layers,
    from: GraphLocation,
    fresh: Edge,
    h: Layers,
    r: Result<bool, MutateError>,
) -> bool {
    if nodes_between(g, from.layer + 1, g.len() as int) == 0 {
        r == Ok::<bool, MutateError>(false) && h == g
    } else {
        exists|to: GraphLocation|
            #![trigger connected(g, from, to, fresh)]
            {
                &&& has_node(g, to)
                &&& from.layer < to.layer
                &&& h == connected(g, from, to, fresh)
                &&& r == connect_answer(g, from, to, fresh)
            }
    }
}

/// What `AddEdge` may do with the graph `g`: nothing, with the answer that
/// it changed nothing, where the input and hidden layers hold no node; else
/// what it does once it has drawn a source among the nodes of those layers.
pub open spec fn connected_at_random(g: Layers, fresh: Edge, h: Layers, r: Result<bool, MutateError>) -> bool {
    if nodes_between(g, 0, g.len() - 1) == 0 {
        r == Ok::<bool, MutateError>(false) && h == g
    } else {
        exists|from: GraphLocation|
            #![trigger connected_from(g, from, fresh, h, r)]
            has_node(g, from) && from.layer < g.len() - 1 && connected_from(g, from, fresh, h, r)
    }
}

/// What `RemoveEdge` may do with the graph `g`: nothing, where `g` has no
/// connection; else it removes the connections from a node to one of its
/// targets. The answer tells which.
pub open spec fn disconnected_at_random(g: Layers, h: Layers, r: Result<bool, MutateError>) -> bool {
    &&& r == Ok::<bool, MutateError>(edge_count(g) > 0)
    &&& edge_count(g) == 0 ==> h == g
    &&& edge_count(g) > 0 ==> exists|from: GraphLocation, to: GraphLocation|
        #![trigger without_edge(g, from, to)]
        has_edge(g, from, to) && h == without_edge(g, from, to)
}

/// What `AddNeuron` may do with the graph `g`, the candidates `neurons`
/// and the choice `selected`: nothing, where `g` has no connection; a
/// refusal, where the choice is not the index of a candidate; else the
/// insertion of the chosen candidate into a connection of `g`.
pub open spec fn split_at_random(
    g: Layers,
    neurons: Seq<Neuron>,
    selected: usize,
    h: Layers,
    r: Result<bool, MutateError>,
) -> bool {
    &&& edge_count(g) == 0 ==> r == Ok::<bool, MutateError>(false) && h == g
    &&& edge_count(g) > 0 && selected >= neurons.len() ==> r == Err::<bool, MutateError>(
        MutateError::NeuronSelectorOutOfRange(neurons.len() as usize),
    ) && h == g
    &&& edge_count(g) > 0 && selected < neurons.len() ==> exists|
        from: GraphLocation,
        link: GraphEdge,
    |
        #![trigger split(g, from, link, neurons[selected as int])]
        {
            let st = split(g, from, link, neurons[selected as int]);
            &&& has_node(g, from)
            &&& node_at(g, from).connections.contains(link)
            &&& h == st.graph
            &&& r == match st.failure {
                None => Ok::<bool, MutateError>(true),
                Some(e) => Err::<bool, MutateError>(MutateError::AddNeuronError(e)),
            }
        }
}

/// What `RemoveNeuron` may do with the graph `g`: nothing, where the
/// hidden layers hold no node; else it removes a node of a hidden layer.
/// The answer tells which.
pub open spec fn removed_at_random(g: Layers, h: Layers, r: Result<bool, MutateError>) -> bool {
    &&& r == Ok::<bool, MutateError>(nodes_between(g, 1, g.len() - 1) > 0)
    &&& r == Ok::<bool, MutateError>(false) ==> h == g
    &&& r == Ok::<bool, MutateError>(true) ==> exists|loc: GraphLocation|
        #![trigger without_node(g, loc)]
        {
            &&& has_node(g, loc)
            &&& 1 <= loc.layer < g.len() - 1
            &&& h == without_node(g, loc)
        }
}

/// How far the insertion of a neuron has come.
pub struct Splitting {
    /// The graph.
    pub graph: Layers,
    /// What the graph refused, if it refused anything.
    pub failure: Option<NeuralGraphError>,
}

/// The graph `g` without the connections from `from` to `to`.
pub open spec fn without_edge(g: Layers, from: GraphLocation, to: GraphLocation) -> Layers {
    if has_node(g, from) {
        with_connections(g, from, without_target(node_at(g, from).connections, to))
    } else {
        g
    }
}

/// Whether the layer behind that of `from` is the layer of `to`, so that a
/// layer has to be opened between them.
pub open spec fn needs_layer(from: GraphLocation, to: GraphLocation) -> bool {
    to.layer == from.layer + 1
}

/// The graph `g` with a node that holds `value` appended to layer `layer`.
pub open spec fn with_node_pushed(g: Layers, layer: GraphSize, value: Node) -> Layers {
    g.update(
        layer as int,
        g[layer as int].push(GraphNodeView { value, connections: Seq::empty() }),
    )
}

/// The insertion of `neuron` into the connection `link` out of `from`, step
/// by step: the connections from `from` to the target are removed; where the
/// target is in the layer just behind `from`, a layer is opened between
/// them; the neuron is appended to the layer behind `from`; `from` is
/// connected to it with the value of `link`, and it is connected to the
/// target with the inert value. The insertion stops, with `LayerNotFound`
/// and the number of layers, where no layer can be opened or the layer
/// behind `from` is missing or full, and with the refusal of the graph
/// where the graph refuses a connection.
pub open spec fn split(g: Layers, from: GraphLocation, link: GraphEdge, neuron: Neuron) -> Splitting {
    let g1 = without_edge(g, from, link.to);
    let layer = (from.layer + 1) as GraphSize;
    if from.layer == GraphSize::MAX || (needs_layer(from, link.to) && (g1.len() >= GRAPH_LIMIT
        || layer == GraphSize::MAX || layer > g1.len())) {
        Splitting { graph: g1, failure: Some(NeuralGraphError::LayerNotFound(layer_total(g1))) }
    } else {
        let g2 = if needs_layer(from, link.to) {
            with_layer_at(g1, layer)
        } else {
            g1
        };
        let target = if needs_layer(from, link.to) {
            GraphLocation { layer: (layer + 1) as GraphSize, node: link.to.node }
        } else {
            link.to
        };
        if layer >= g2.len() || g2[layer as int].len() >= GRAPH_LIMIT {
            Splitting { graph: g2, failure: Some(NeuralGraphError::LayerNotFound(layer_total(g2))) }
        } else {
            let at = GraphLocation { layer, node: g2[layer as int].len() as GraphSize };
            let g3 = with_node_pushed(g2, layer, Node::Neuron(neuron));
            match add_edge_outcome(g3, from, at) {
                Err(e) => Splitting { graph: g3, failure: Some(e) },
                Ok(_) => {
                    let g4 = with_edge(g3, from, at, link.value);
                    match add_edge_outcome(g4, at, target) {
                        Err(e) => Splitting { graph: g4, failure: Some(e) },
                        Ok(_) => Splitting {
                            graph: with_edge(g4, at, target, Edge { weight: 0, enabled: false }),
                            failure: None,
                        },
                    }
                },
            }
        }
    }
}

/// The number of layers of `g`, or the largest number that a location can
/// hold if there are more.
pub open spec fn layer_total(g: Layers) -> GraphSize {
    if g.len() > GraphSize::MAX {
        GraphSize::MAX
    } else {
        g.len() as GraphSize
    }
}

/// What an insertion that ended in `st` answers.
pub open spec fn split_answer(st: Splitting) -> Result<(), MutateError> {
    match st.failure {
        None => Ok(()),
        Some(e) => Err(MutateError::AddNeuronError(e)),
    }
}

/// Removing the connections to one target keeps a well-formed graph
/// well-formed and a forward-only graph forward-only.
pub proof fn lemma_without_edge(g: Layers, from: GraphLocation, to: GraphLocation)
    ensures
        without_edge(g, from, to).len() == g.len(),
        well_formed(g) ==> well_formed(without_edge(g, from, to)),
        forward_only(g) ==> forward_only(without_edge(g, from, to)),
        forall|l: int| 0 <= l < g.len() ==> (#[trigger] without_edge(g, from, to)[l]).len() == g[l].len(),
{
    let h = without_edge(g, from, to);
    if has_node(g, from) {
        let conns = node_at(g, from).connections;
        lemma_without_target(conns, to);
        let kept = without_target(conns, to);
        assert forall|k: int| 0 <= k < kept.len() implies conns.contains(#[trigger] kept[k]) by {
            assert(kept.contains(kept[k]));
        }
        if well_formed(g) {
            assert forall|l: int, n: int, k: int|
                0 <= l < h.len() && 0 <= n < h[l].len() && 0 <= k
                    < h[l][n].connections.len() implies (#[trigger] h[l][n].connections[k]).to.layer
                < h.len() by {
                if l == from.layer && n == from.node {
                    assert(conns.contains(kept[k]));
                    let j = choose|j: int| 0 <= j < conns.len() && conns[j] == kept[k];
                    assert(g[l][n].connections[j].to.layer < g.len());
                } else {
                    assert(h[l][n] == g[l][n]);
                    assert(g[l][n].connections[k].to.layer < g.len());
                }
            }
            assert forall|l: int| 0 <= l < h.len() implies (#[trigger] h[l]).len() <= GRAPH_LIMIT by {
                assert(g[l].len() <= GRAPH_LIMIT);
            }
        }
        if forward_only(g) {
            assert forall|l: int, n: int, k: int|
                0 <= l < h.len() && 0 <= n < h[l].len() && 0 <= k
                    < h[l][n].connections.len() implies l < (
            #[trigger] h[l][n].connections[k]).to.layer by {
                if l == from.layer && n == from.node {
                    assert(conns.contains(kept[k]));
                    let j = choose|j: int| 0 <= j < conns.len() && conns[j] == kept[k];
                    assert(l < g[l][n].connections[j].to.layer);
                } else {
                    assert(h[l][n] == g[l][n]);
                    assert(l < g[l][n].connections[k].to.layer);
                }
            }
        }
    }
}

/// Adding a connection that leads to a later layer keeps a forward-only
/// graph forward-only.
pub proof fn lemma_with_edge_forward(g: Layers, from: GraphLocation, to: GraphLocation, value: Edge)
    requires
        forward_only(g),
        has_node(g, from),
        from.layer < to.layer,
    ensures
        forward_only(with_edge(g, from, to, value)),
{
    let h = with_edge(g, from, to, value);
    assert forall|l: int, n: int, k: int|
        0 <= l < h.len() && 0 <= n < h[l].len() && 0 <= k < h[l][n].connections.len() implies l
        < (#[trigger] h[l][n].connections[k]).to.layer by {
        if l == from.layer && n == from.node {
            if k < g[l][n].connections.len() {
                assert(l < g[l][n].connections[k].to.layer);
            }
        } else {
            assert(h[l][n] == g[l][n]);
            assert(l < g[l][n].connections[k].to.layer);
        }
    }
}

/// Enabling a connection keeps a well-formed graph well-formed and a
/// forward-only graph forward-only.
pub proof fn lemma_with_edge_enabled(g: Layers, from: GraphLocation, to: GraphLocation)
    requires
        has_edge(g, from, to),
    ensures
        well_formed(g) ==> well_formed(with_edge_enabled(g, from, to)),
        forward_only(g) ==> forward_only(with_edge_enabled(g, from, to)),
{
    let h = with_edge_enabled(g, from, to);
    let conns = node_at(g, from).connections;
    lemma_edge_index(conns, to);
    let i = edge_index(conns, to);
    if well_formed(g) {
        assert forall|l: int, n: int, k: int|
            0 <= l < h.len() && 0 <= n < h[l].len() && 0 <= k < h[l][n].connections.len() implies (
        #[trigger] h[l][n].connections[k]).to.layer < h.len() by {
            assert(g[l][n].connections[k].to.layer < g.len());
        }
        assert forall|l: int| 0 <= l < h.len() implies (#[trigger] h[l]).len() <= GRAPH_LIMIT by {
            assert(g[l].len() <= GRAPH_LIMIT);
        }
    }
    if forward_only(g) {
        assert forall|l: int, n: int, k: int|
            0 <= l < h.len() && 0 <= n < h[l].len() && 0 <= k < h[l][n].connections.len() implies l
            < (#[trigger] h[l][n].connections[k]).to.layer by {
            assert(l < g[l][n].connections[k].to.layer);
        }
    }
}

/// Removing a node keeps a well-formed graph well-formed.
pub proof fn lemma_without_node(g: Layers, loc: GraphLocation)
    requires
        well_formed(g),
    ensures
        well_formed(without_node(g, loc)),
        without_node(g, loc).len() == g.len(),
        forward_only(g) ==> forward_only(without_node(g, loc)),
{
    let rest = if has_node(g, loc) {
        g.update(loc.layer as int, g[loc.layer as int].remove(loc.node as int))
    } else {
        g
    };
    let h = without_node(g, loc);
    assert forall|l: int| 0 <= l < h.len() implies (#[trigger] h[l]).len() <= GRAPH_LIMIT by {
        assert(g[l].len() <= GRAPH_LIMIT);
    }
    assert forall|l: int, n: int, k: int|
        0 <= l < h.len() && 0 <= n < h[l].len() && 0 <= k < h[l][n].connections.len() implies (
    #[trigger] h[l][n].connections[k]).to.layer < h.len() by {
        let source = rest[l][n];
        let how = Rewire::Cut { target: loc };
        assert(h[l] == rewired_row(rest[l], how));
        assert(h[l][n] == rewired_node(source, how));
        lemma_without_target(source.connections, loc);
        let kept = without_target(source.connections, loc);
        assert(kept.contains(kept[k]));
        assert(source.connections.contains(kept[k]));
        let j = choose|j: int| 0 <= j < source.connections.len() && source.connections[j] == kept[k];
        let m = if has_node(g, loc) && l == loc.layer && n >= loc.node {
            n + 1
        } else {
            n
        };
        assert(rest[l][n] == g[l][m]);
        assert(g[l][m].connections[j].to.layer < g.len());
    }
    if forward_only(g) {
        assert forall|l: int, n: int, k: int|
            0 <= l < h.len() && 0 <= n < h[l].len() && 0 <= k < h[l][n].connections.len() implies l
            < (#[trigger] h[l][n].connections[k]).to.layer by {
            let source = rest[l][n];
            let how = Rewire::Cut { target: loc };
            assert(h[l] == rewired_row(rest[l], how));
            assert(h[l][n] == rewired_node(source, how));
            lemma_without_target(source.connections, loc);
            let kept = without_target(source.connections, loc);
            assert(kept.contains(kept[k]));
            assert(source.connections.contains(kept[k]));
            let j = choose|j: int|
                0 <= j < source.connections.len() && source.connections[j] == kept[k];
            let m = if has_node(g, loc) && l == loc.layer && n >= loc.node {
                n + 1
            } else {
                n
            };
            assert(rest[l][n] == g[l][m]);
            assert(l < g[l][m].connections[j].to.layer);
        }
    }
}

impl AddEdge {
    /// Connects `from` to `to`. A connection that is there is enabled and
    /// nothing else is done. Else a connection with the value `fresh` is
    /// added; if the walk from `from` then comes to a location twice, the
    /// connection is taken back and the net is as it was.
    pub fn connect(&self, net: &mut Net, from: GraphLocation, to: GraphLocation, fresh: Edge) -> (r:
        Result<bool, MutateError>)
        ensures
            final(net).graph@ == connected(old(net).graph@, from, to, fresh),
            r == connect_answer(old(net).graph@, from, to, fresh),
            final(net).input_layer == old(net).input_layer,
            final(net).output_layer == old(net).output_layer,
            has_edge(old(net).graph@, from, to) ==> r == Ok::<bool, MutateError>(true),
            r == Ok::<bool, MutateError>(true) && !has_edge(old(net).graph@, from, to)
                ==> !cycle_found(final(net).graph@, Some(from)),
            well_formed(old(net).graph@) ==> well_formed(final(net).graph@),
            forward_only(old(net).graph@) && from.layer < to.layer ==> forward_only(
                final(net).graph@,
            ),
            unique_edges(old(net).graph@) ==> unique_edges(final(net).graph@),
            roles_hold(old(net).graph@) ==> roles_hold(final(net).graph@),
            no_blanks(old(net).graph@) ==> no_blanks(final(net).graph@),
            final(net).graph@.len() == old(net).graph@.len(),
    {
        let ghost g = net.graph@;
        proof {
            if has_edge(g, from, to) {
                lemma_with_edge_enabled(g, from, to);
                lemma_with_edge_enabled_keeps(g, from, to);
            } else if add_edge_outcome(g, from, to) is Ok {
                lemma_with_edge_keeps(g, from, to, fresh);
                if well_formed(g) {
                    lemma_with_edge_well_formed(g, from, to, fresh);
                }
                if forward_only(g) && from.layer < to.layer {
                    lemma_with_edge_forward(g, from, to, fresh);
                }
            }
        }
        match net.graph.get_edge_mut(&from, &to) {
            Some(e) => {
                e.value.enabled = true;
                return Ok(true);
            },
            None => {},
        }
        match net.graph.add_edge(from, to, fresh) {
            Ok(_) => {},
            Err(e) => {
                return Err(MutateError::AddLinkError(e));
            },
        }
        if net.graph.has_cycle(Some(from)) {
            net.graph.remove_edge(&from, &to);
            proof {
                let conns = node_at(g, from).connections;
                let added = conns.push(GraphEdge { to, value: fresh });
                lemma_without_target(conns, to);
                assert(added.drop_last() =~= conns);
                assert(without_target(added, to) == conns);
                let h = with_edge(g, from, to, fresh);
                let l = from.layer as int;
                let n = from.node as int;
                assert(node_at(h, from).connections == added);
                let node = GraphNodeView { value: node_at(h, from).value, connections: conns };
                assert(node == g[l][n]);
                assert(h[l].update(n, node) =~= g[l]);
                assert(net.graph@ =~= g);
            }
            return Ok(false);
        }
        Ok(true)
    }
}

impl LinkMutator for AddEdge {
    open spec fn yields(&self, before: Net, fresh: Edge, after: Net, r: Result<bool, MutateError>) -> bool {
        &&& connected_at_random(before.graph@, fresh, after.graph@, r)
        &&& after.input_layer == before.input_layer
        &&& after.output_layer == before.output_layer
    }

    /// Draws a source among the nodes of the input and hidden layers and a
    /// target among the nodes of the layers behind the source, and connects
    /// them as `connect` does. Where the input and hidden layers hold no
    /// node, or no node stands behind the source that was drawn, nothing is
    /// done and the answer is that nothing was changed.
    fn mutate(&self, net: &mut Net, fresh: Edge) -> (r: Result<bool, MutateError>)
        ensures
            connected_at_random(old(net).graph@, fresh, final(net).graph@, r),
            r is Ok,
            final(net).input_layer == old(net).input_layer,
            final(net).output_layer == old(net).output_layer,
    {
        let ghost g = net.graph@;
        let input = match net.graph.random_input_or_hidden() {
            Some(s) => s,
            None => {
                return Ok(false);
            },
        };
        let output = match net.graph.random_output_or_hidden(Some(input.layer)) {
            Some(s) => s,
            None => {
                proof {
                    assert(connected_from(g, input, fresh, g, Ok::<bool, MutateError>(false)));
                }
                return Ok(false);
            },
        };
        let r = self.connect(net, input, output, fresh);
        proof {
            assert(net.graph@ == connected(g, input, output, fresh));
            assert(connected_from(g, input, fresh, net.graph@, r));
        }
        r
    }
}

impl LinkMutator for RemoveEdge {
    open spec fn yields(&self, before: Net, fresh: Edge, after: Net, r: Result<bool, MutateError>) -> bool {
        &&& disconnected_at_random(before.graph@, after.graph@, r)
        &&& after.input_layer == before.input_layer
        &&& after.output_layer == before.output_layer
    }

    /// Removes a connection drawn from all connections of the net, and
    /// with it every other connection from the same source to the same
    /// target. Nothing is done where the net has no connection.
    fn mutate(&self, net: &mut Net, fresh: Edge) -> (r: Result<bool, MutateError>)
        ensures
            r == Ok::<bool, MutateError>(edge_count(old(net).graph@) > 0),
            edge_count(old(net).graph@) == 0 ==> final(net).graph@ == old(net).graph@,
            edge_count(old(net).graph@) > 0 ==> exists|from: GraphLocation, to: GraphLocation|
                #![trigger without_edge(old(net).graph@, from, to)]
                has_edge(old(net).graph@, from, to) && final(net).graph@ == without_edge(
                    old(net).graph@,
                    from,
                    to,
                ),
            final(net).input_layer == old(net).input_layer,
            final(net).output_layer == old(net).output_layer,
    {
        match net.graph.random_edge() {
            Some((pos, e)) => {
                let to = e.to;
                proof {
                    let conns = node_at(net.graph@, pos).connections;
                    let i = choose|i: int| 0 <= i < conns.len() && conns[i] == e;
                    assert(conns[i].to == to);
                    assert(has_edge(net.graph@, pos, to));
                    lemma_without_edge(net.graph@, pos, to);
                    lemma_without_edge_keeps(net.graph@, pos, to);
                    lemma_edges_from(net.graph@, 0, 0);
                }
                let removed = net.graph.remove_edge(&pos, &to);
                Ok(removed)
            },
            None => Ok(false),
        }
    }
}

impl AddNeuron {
    /// Puts `neuron` into the connection `link_to_split` out of `from`: the
    /// connection is removed, the neuron is appended to the layer behind
    /// `from`, which is opened first where the target is in that layer,
    /// `from` is connected to the neuron with the value of the connection,
    /// and the neuron is connected to the target with the inert value. Where
    /// a step cannot be done, the insertion stops and the net stays as it
    /// then is.
    pub fn run(&self, from: GraphLocation, link_to_split: GraphEdge, net: &mut Net, neuron: Neuron) -> (r:
        Result<(), MutateError>)
        requires
            well_formed(old(net).graph@),
        ensures
            final(net).graph@ == split(old(net).graph@, from, link_to_split, neuron).graph,
            r == split_answer(split(old(net).graph@, from, link_to_split, neuron)),
            well_formed(final(net).graph@),
            final(net).input_layer == old(net).input_layer,
            final(net).output_layer == last_layer(final(net).graph@, old(net).output_layer),
            forward_only(old(net).graph@) && from.layer < link_to_split.to.layer ==> forward_only(
                final(net).graph@,
            ),
            unique_edges(old(net).graph@) ==> unique_edges(final(net).graph@),
            roles_hold(old(net).graph@) && from.layer < link_to_split.to.layer
                && link_to_split.to.layer < old(net).graph@.len() ==> roles_hold(
                final(net).graph@,
            ),
            old(net).graph@.len() <= final(net).graph@.len(),
            no_blanks(old(net).graph@) ==> no_blanks(final(net).graph@),
    {
        let to = link_to_split.to;
        let ghost keeps = forward_only(net.graph@) && from.layer < link_to_split.to.layer;
        let ghost start = net.graph@;
        let ghost single = unique_edges(start);
        let ghost placed = roles_hold(start) && from.layer < to.layer && to.layer < start.len();
        proof {
            lemma_without_edge_keeps(start, from, to);
        }
        proof {
            lemma_without_edge(net.graph@, from, to);
        }
        net.graph.remove_edge(&from, &to);
        let ghost g1 = net.graph@;
        let count = net.graph.layers.len();
        let total: GraphSize = if count > GraphSize::MAX as usize {
            GraphSize::MAX
        } else {
            count as GraphSize
        };
        if from.layer == GraphSize::MAX {
            net.settle_output_layer();
            return Err(MutateError::AddNeuronError(NeuralGraphError::LayerNotFound(total)));
        }
        let layer: GraphSize = from.layer + 1;
        let mut target = to;
        if to.layer == layer {
            if count >= GRAPH_LIMIT || layer == GraphSize::MAX || layer as usize > count {
                net.settle_output_layer();
                return Err(MutateError::AddNeuronError(NeuralGraphError::LayerNotFound(total)));
            }
            proof {
                lemma_with_layer_at(g1, layer);
                lemma_with_layer_at_well_formed(g1, layer);
                lemma_with_layer_at_keeps(g1, layer);
                if keeps {
                    lemma_with_layer_at_forward(g1, layer);
                }
            }
            net.graph.open_layer(layer);
            target = GraphLocation { layer: layer + 1, node: to.node };
        }
        let ghost g2 = net.graph@;
        let count = net.graph.layers.len();
        let total: GraphSize = if count > GraphSize::MAX as usize {
            GraphSize::MAX
        } else {
            count as GraphSize
        };
        if layer as usize >= count || net.graph.layers[layer as usize].len() >= GRAPH_LIMIT {
            net.settle_output_layer();
            return Err(MutateError::AddNeuronError(NeuralGraphError::LayerNotFound(total)));
        }
        let at = net.graph.push_node_at(layer, Node::Neuron(neuron));
        let ghost g3 = net.graph@;
        proof {
            lemma_with_node_pushed(g2, layer, Node::Neuron(neuron));
            lemma_with_node_pushed_keeps(g2, layer, Node::Neuron(neuron));
        }
        assert(keeps ==> forward_only(g3));
        assert(single ==> unique_edges(g3));
        assert(placed ==> roles_hold(g3));
        assert(no_blanks(start) ==> no_blanks(g3));
        match net.graph.add_edge(from, at, link_to_split.value) {
            Ok(_) => {},
            Err(e) => {
                net.settle_output_layer();
                return Err(MutateError::AddNeuronError(e));
            },
        }
        let ghost g4 = net.graph@;
        proof {
            lemma_with_edge_well_formed(g3, from, at, link_to_split.value);
            lemma_with_edge_keeps(g3, from, at, link_to_split.value);
            if keeps {
                lemma_with_edge_forward(g3, from, at, link_to_split.value);
            }
        }
        match net.graph.add_edge(at, target, Edge::default()) {
            Ok(_) => {},
            Err(e) => {
                net.settle_output_layer();
                return Err(MutateError::AddNeuronError(e));
            },
        }
        proof {
            lemma_with_edge_well_formed(g4, at, target, Edge { weight: 0, enabled: false });
            lemma_with_edge_keeps(g4, at, target, Edge { weight: 0, enabled: false });
            if keeps {
                lemma_with_edge_forward(g4, at, target, Edge { weight: 0, enabled: false });
            }
        }
        net.settle_output_layer();
        Ok(())
    }
}

/// Appending a node without connections keeps a well-formed graph
/// well-formed, where the layer has room.
pub proof fn lemma_with_node_pushed(g: Layers, layer: GraphSize, value: Node)
    requires
        well_formed(g),
        layer < g.len(),
        g[layer as int].len() < GRAPH_LIMIT,
    ensures
        well_formed(with_node_pushed(g, layer, value)),
        forward_only(g) ==> forward_only(with_node_pushed(g, layer, value)),
{
    let h = with_node_pushed(g, layer, value);
    if forward_only(g) {
        assert forall|l: int, n: int, k: int|
            0 <= l < h.len() && 0 <= n < h[l].len() && 0 <= k < h[l][n].connections.len() implies l
            < (#[trigger] h[l][n].connections[k]).to.layer by {
            if l == layer && n == g[l].len() {
            } else {
                assert(h[l][n] == g[l][n]);
                assert(l < g[l][n].connections[k].to.layer);
            }
        }
    }
    assert forall|l: int| 0 <= l < h.len() implies (#[trigger] h[l]).len() <= GRAPH_LIMIT by {
        assert(g[l].len() <= GRAPH_LIMIT);
    }
    assert forall|l: int, n: int, k: int|
        0 <= l < h.len() && 0 <= n < h[l].len() && 0 <= k < h[l][n].connections.len() implies (
    #[trigger] h[l][n].connections[k]).to.layer < h.len() by {
        if l == layer && n == g[l].len() {
        } else {
            assert(h[l][n] == g[l][n]);
            assert(g[l][n].connections[k].to.layer < g.len());
        }
    }
}

impl NeuronMutator for AddNeuron {
    open spec fn yields(
        &self,
        before: Net,
        neurons: Seq<Neuron>,
        selected: usize,
        after: Net,
        r: Result<bool, MutateError>,
    ) -> bool {
        &&& split_at_random(before.graph@, neurons, selected, after.graph@, r)
        &&& after.input_layer == before.input_layer
        &&& after.output_layer == if edge_count(before.graph@) == 0 || selected >= neurons.len() {
            before.output_layer
        } else {
            last_layer(after.graph@, before.output_layer)
        }
    }

    /// Splits a connection drawn from all connections of the net by the
    /// candidate `neurons[selected]`, as `run` does. Nothing is done where
    /// the net has no connection. Refused with `NeuronSelectorOutOfRange`,
    /// carrying the number of candidates, where the net has a connection
    /// and `selected` is not the index of a candidate. Where a connection
    /// was split, or the split was begun, the output layer is the last
    /// layer; else it is the one it was.
    fn mutate(&self, net: &mut Net, neurons: &[Neuron], selected: usize) -> (r: Result<
        bool,
        MutateError,
    >)
        ensures
            edge_count(old(net).graph@) == 0 ==> r == Ok::<bool, MutateError>(false)
                && final(net).graph@ == old(net).graph@,
            edge_count(old(net).graph@) > 0 && selected >= neurons@.len() ==> r == Err::<
                bool,
                MutateError,
            >(MutateError::NeuronSelectorOutOfRange(neurons@.len() as usize)) && final(net).graph@
                == old(net).graph@,
            edge_count(old(net).graph@) > 0 && selected < neurons@.len() ==> exists|
                from: GraphLocation,
                link: GraphEdge,
            |
                #![trigger split(old(net).graph@, from, link, neurons@[selected as int])]
                {
                    let st = split(old(net).graph@, from, link, neurons@[selected as int]);
                    &&& has_node(old(net).graph@, from)
                    &&& node_at(old(net).graph@, from).connections.contains(link)
                    &&& final(net).graph@ == st.graph
                    &&& r == match st.failure {
                        None => Ok::<bool, MutateError>(true),
                        Some(e) => Err::<bool, MutateError>(MutateError::AddNeuronError(e)),
                    }
                },
            final(net).input_layer == old(net).input_layer,
            final(net).output_layer == if edge_count(old(net).graph@) == 0 || selected
                >= neurons@.len() {
                old(net).output_layer
            } else {
                last_layer(final(net).graph@, old(net).output_layer)
            },
    {
        let (from, link_to_split) = match net.graph.random_edge() {
            Some(s) => s,
            None => {
                return Ok(false);
            },
        };
        if selected >= neurons.len() {
            return Err(MutateError::NeuronSelectorOutOfRange(neurons.len()));
        }
        proof {
            let conns = node_at(net.graph@, from).connections;
            let i = choose|i: int| 0 <= i < conns.len() && conns[i] == link_to_split;
            assert(net.graph@[from.layer as int][from.node as int].connections[i].to.layer
                < net.graph@.len());
            if forward_only(net.graph@) {
                assert(from.layer < net.graph@[from.layer as int][from.node as int].connections[i].to.layer);
            }
        }
        match self.run(from, link_to_split, net, neurons[selected]) {
            Ok(_) => Ok(true),
            Err(e) => Err(e),
        }
    }
}

impl NeuronMutator for RemoveNeuron {
    open spec fn yields(
        &self,
        before: Net,
        neurons: Seq<Neuron>,
        selected: usize,
        after: Net,
        r: Result<bool, MutateError>,
    ) -> bool {
        &&& removed_at_random(before.graph@, after.graph@, r)
        &&& after.input_layer == before.input_layer
        &&& after.output_layer == before.output_layer
    }

    /// Removes a node drawn from the hidden layers, with the connections
    /// that lead to it. Nothing is done where the hidden layers hold no
    /// node.
    fn mutate(&self, net: &mut Net, neurons: &[Neuron], selected: usize) -> (r: Result<
        bool,
        MutateError,
    >)
        ensures
            r == Ok::<bool, MutateError>(
                nodes_between(old(net).graph@, 1, old(net).graph@.len() - 1) > 0,
            ),
            r == Ok::<bool, MutateError>(false) ==> final(net).graph@ == old(net).graph@,
            r == Ok::<bool, MutateError>(true) ==> exists|loc: GraphLocation|
                #![trigger without_node(old(net).graph@, loc)]
                {
                    &&& has_node(old(net).graph@, loc)
                    &&& 1 <= loc.layer < old(net).graph@.len() - 1
                    &&& final(net).graph@ == without_node(old(net).graph@, loc)
                },
            final(net).input_layer == old(net).input_layer,
            final(net).output_layer == old(net).output_layer,
    {
        if net.graph.layers.len() == 2 {
            proof {
                assert(nodes_between(net.graph@, 1, 1) == 0);
            }
            return Ok(false);
        }
        match net.graph.random_hidden() {
            Some(n) => {
                proof {
                    lemma_without_node(net.graph@, n);
                    lemma_without_node_keeps(net.graph@, n);
                    lemma_nodes_between(net.graph@, 1, net.graph@.len() - 1);
                }
                net.graph.removed_node(n);
                Ok(true)
            },
            None => Ok(false),
        }
    }
}

/// One turn of a run of operators.
pub struct Turn {
    /// Whether the operator was a link operator.
    pub is_link: bool,
    /// The index of the operator among those of its kind.
    pub idx: usize,
    /// Whether the generator said that the operator was the last.
    pub done: bool,
    /// The connection value that a link operator was given.
    pub fresh: Edge,
    /// The choice that a neuron operator was given.
    pub selected: usize,
    /// The net that the operator was applied to.
    pub before: Net,
    /// The net that the operator left.
    pub after: Net,
    /// What the operator answered.
    pub answer: Result<bool, MutateError>,
}

/// The net that a run has reached after the turns `turns` from the net
/// `start`.
#[verifier::opaque]
pub open spec fn reached(start: Net, turns: Seq<Turn>) -> Net {
    if turns.len() == 0 {
        start
    } else {
        turns.last().after
    }
}

/// Turns reach the net that the last of them left, and no turns reach the
/// net as it was.
pub proof fn lemma_reached(start: Net, turns: Seq<Turn>)
    ensures
        turns.len() == 0 ==> reached(start, turns) == start,
        turns.len() > 0 ==> reached(start, turns) == turns.last().after,
{
    reveal(reached);
}

/// Whether `t` is a turn that the generator `asked`, left as `left`, named
/// among the operators on offer: a link operator that was applied with a
/// value from `edge_source`, or a neuron operator that was applied with the
/// candidates `pool` and the choice that `neuron_selector` made for their
/// number.
pub open spec fn turn_fits<S: Fn(usize) -> usize, E: Fn() -> Edge, G: Generator>(
    link_mutators: Seq<Box<dyn LinkMutator>>,
    neuron_mutators: Seq<Box<dyn NeuronMutator>>,
    pool: Seq<Neuron>,
    neuron_selector: S,
    edge_source: E,
    asked: G,
    left: G,
    t: Turn,
) -> bool {
    &&& asked.gives(
        t.before.graph,
        link_mutators,
        neuron_mutators,
        left,
        Ok((t.is_link, t.idx, t.done)),
    )
    &&& if t.is_link {
        &&& t.idx < link_mutators.len()
        &&& call_ensures(edge_source, (), t.fresh)
        &&& link_mutators[t.idx as int].yields(t.before, t.fresh, t.after, t.answer)
    } else {
        &&& t.idx < neuron_mutators.len()
        &&& call_ensures(neuron_selector, (pool.len() as usize,), t.selected)
        &&& neuron_mutators[t.idx as int].yields(t.before, pool, t.selected, t.after, t.answer)
    }
}

/// Whether `turns` are the turns of a run of operators on the net `start`,
/// with `gens` the generator before each turn and after the last. Each
/// turn fits what the generator named; each operator was applied to the net
/// that the turn before had left; and every turn but the last succeeded and
/// was not said to be the last.
pub open spec fn is_run<S: Fn(usize) -> usize, E: Fn() -> Edge, G: Generator>(
    link_mutators: Seq<Box<dyn LinkMutator>>,
    neuron_mutators: Seq<Box<dyn NeuronMutator>>,
    pool: Seq<Neuron>,
    neuron_selector: S,
    edge_source: E,
    start: Net,
    gens: Seq<G>,
    turns: Seq<Turn>,
) -> bool {
    &&& gens.len() == turns.len() + 1
    &&& forall|i: int|
        0 <= i < turns.len() ==> {
            let t = #[trigger] turns[i];
            &&& t.before == reached(start, turns.take(i))
            &&& turn_fits(
                link_mutators,
                neuron_mutators,
                pool,
                neuron_selector,
                edge_source,
                gens[i],
                gens[i + 1],
                t,
            )
            &&& i < turns.len() - 1 ==> t.answer is Ok && !t.done
        }
}

/// Whether the run of the turns `turns` ends with the answer `r`: with
/// success, where the last turn succeeded and was said to be the last; with
/// the error of the last turn, where that turn failed; with the error of
/// the generator, where the generator, asked for a further operator, failed
/// and was left as `stopped`; with `Exhausted`, where the generator, asked
/// for a further operator, was left as `stopped` and gave `named`, whose
/// index is that of no operator of its kind.
pub open spec fn run_ends<G: Generator>(
    link_mutators: Seq<Box<dyn LinkMutator>>,
    neuron_mutators: Seq<Box<dyn NeuronMutator>>,
    start: Net,
    gens: Seq<G>,
    turns: Seq<Turn>,
    stopped: G,
    named: (bool, usize, bool),
    r: Result<(), MutateError>,
) -> bool {
    match r {
        Ok(_) => turns.len() > 0 && turns.last().answer is Ok && turns.last().done,
        Err(MutateError::GeneratorError(e)) => {
            ||| turns.len() > 0 && turns.last().answer == Err::<bool, MutateError>(
                MutateError::GeneratorError(e),
            )
            ||| {
                &&& turns.len() > 0 ==> turns.last().answer is Ok && !turns.last().done
                &&& gens.last().gives(
                    reached(start, turns).graph,
                    link_mutators,
                    neuron_mutators,
                    stopped,
                    Err(e),
                )
            }
            ||| {
                &&& turns.len() > 0 ==> turns.last().answer is Ok && !turns.last().done
                &&& gens.last().gives(
                    reached(start, turns).graph,
                    link_mutators,
                    neuron_mutators,
                    stopped,
                    Ok(named),
                )
                &&& named.1 >= if named.0 {
                    link_mutators.len()
                } else {
                    neuron_mutators.len()
                }
                &&& e == GeneratorError::Exhausted
            }
        },
        Err(e) => turns.len() > 0 && turns.last().answer == Err::<bool, MutateError>(e),
    }
}

/// Whether `Net::mutate` may leave the net `end` and answer `r` where it
/// is called on the net `start` with the generator `generator`: there is a
/// run of operators on `start` that begins with `generator`, reaches `end`
/// and ends with `r`.
pub open spec fn mutated<S: Fn(usize) -> usize, E: Fn() -> Edge, G: Generator>(
    link_mutators: Seq<Box<dyn LinkMutator>>,
    neuron_mutators: Seq<Box<dyn NeuronMutator>>,
    pool: Seq<Neuron>,
    neuron_selector: S,
    edge_source: E,
    generator: G,
    start: Net,
    end: Net,
    r: Result<(), MutateError>,
) -> bool {
    exists|gens: Seq<G>, turns: Seq<Turn>, stopped: G, named: (bool, usize, bool)|
        {
            &&& #[trigger] is_run(
                link_mutators,
                neuron_mutators,
                pool,
                neuron_selector,
                edge_source,
                start,
                gens,
                turns,
            )
            &&& gens[0] == generator
            &&& end == reached(start, turns)
            &&& #[trigger] run_ends(
                link_mutators,
                neuron_mutators,
                start,
                gens,
                turns,
                stopped,
                named,
                r,
            )
        }
}

/// A run that is followed by one more turn that fits what the generator
/// named, of an operator that was applied to the net that the run had
/// reached, is a run.
proof fn lemma_run_extended<S: Fn(usize) -> usize, E: Fn() -> Edge, G: Generator>(
    link_mutators: Seq<Box<dyn LinkMutator>>,
    neuron_mutators: Seq<Box<dyn NeuronMutator>>,
    pool: Seq<Neuron>,
    neuron_selector: S,
    edge_source: E,
    start: Net,
    gens: Seq<G>,
    turns: Seq<Turn>,
    next: G,
    t: Turn,
)
    requires
        is_run(link_mutators, neuron_mutators, pool, neuron_selector, edge_source, start, gens, turns),
        turns.len() > 0 ==> turns.last().answer is Ok && !turns.last().done,
        t.before == reached(start, turns),
        turn_fits(
            link_mutators,
            neuron_mutators,
            pool,
            neuron_selector,
            edge_source,
            gens.last(),
            next,
            t,
        ),
    ensures
        is_run(
            link_mutators,
            neuron_mutators,
            pool,
            neuron_selector,
            edge_source,
            start,
            gens.push(next),
            turns.push(t),
        ),
        reached(start, turns.push(t)) == t.after,
{
    let more = turns.push(t);
    let states = gens.push(next);
    lemma_reached(start, more);
    assert forall|i: int| 0 <= i < more.len() implies {
        let x = #[trigger] more[i];
        &&& x.before == reached(start, more.take(i))
        &&& turn_fits(
            link_mutators,
            neuron_mutators,
            pool,
            neuron_selector,
            edge_source,
            states[i],
            states[i + 1],
            x,
        )
        &&& i < more.len() - 1 ==> x.answer is Ok && !x.done
    } by {
        if i < turns.len() {
            assert(more[i] == turns[i]);
            assert(states[i] == gens[i]);
            assert(states[i + 1] == gens[i + 1]);
            assert(more.take(i) =~= turns.take(i));
        } else {
            assert(more.take(i) =~= turns);
            assert(states[i] == gens.last());
            assert(states[i + 1] == next);
        }
    }
}

impl Net {
    /// Applies operators to the net, in the order that `generator` gives,
    /// until it says that one is the last. A link operator gets a
    /// connection value from `edge_source`; a neuron operator gets the
    /// candidates `neurons` and the choice that `neuron_selector` makes
    /// among them. The first operator that fails ends the run with its
    /// error, and so does the generator where it fails. An index that is
    /// that of no operator ends the run with `Exhausted`. The net is left as
    /// the last operator that was applied left it.
    pub fn mutate<S: Fn(usize) -> usize, E: Fn() -> Edge, G: Generator>(
        &mut self,
        link_mutators: &[Box<dyn LinkMutator>],
        neuron_mutators: &[Box<dyn NeuronMutator>],
        neurons: &[Neuron],
        neuron_selector: &S,
        edge_source: &E,
        generator: G,
    ) -> (r: Result<(), MutateError>)
        requires
            well_formed(old(self).graph@),
            forall|n: usize| call_requires(neuron_selector, (n,)),
            call_requires(edge_source, ()),
        ensures
            mutated(
                link_mutators@,
                neuron_mutators@,
                neurons@,
                *neuron_selector,
                *edge_source,
                generator,
                *old(self),
                *final(self),
                r,
            ),
            well_formed(final(self).graph@),
            forward_only(old(self).graph@) ==> forward_only(final(self).graph@),
            unique_edges(old(self).graph@) ==> unique_edges(final(self).graph@),
            old(self).valid() ==> final(self).valid(),
    {
        let ghost start = *self;
        let mut state = generator;
        let ghost mut gens: Seq<G> = seq![state];
        let ghost mut turns: Seq<Turn> = Seq::empty();
        proof {
            lemma_reached(start, turns);
        }
        loop
            invariant_except_break
                turns.len() > 0 ==> turns.last().answer is Ok && !turns.last().done,
            invariant
                start == *old(self),
                well_formed(self.graph@),
                forward_only(old(self).graph@) ==> forward_only(self.graph@),
                unique_edges(old(self).graph@) ==> unique_edges(self.graph@),
                old(self).valid() ==> self.valid(),
                forall|n: usize| call_requires(neuron_selector, (n,)),
                call_requires(edge_source, ()),
                is_run(
                    link_mutators@,
                    neuron_mutators@,
                    neurons@,
                    *neuron_selector,
                    *edge_source,
                    start,
                    gens,
                    turns,
                ),
                gens[0] == generator,
                gens.last() == state,
                *self == reached(start, turns),
            ensures
                turns.len() > 0,
                turns.last().answer is Ok,
                turns.last().done,
            decreases state.pending(),
        {
            let ghost before = *self;
            let (is_link, idx, done) = match state.generate(
                &self.graph,
                link_mutators,
                neuron_mutators,
            ) {
                Ok(next) => next,
                Err(e) => {
                    proof {
                        assert(run_ends(
                            link_mutators@,
                            neuron_mutators@,
                            start,
                            gens,
                            turns,
                            state,
                            (false, 0usize, false),
                            Err::<(), MutateError>(MutateError::GeneratorError(e)),
                        ));
                    }
                    return Err(MutateError::GeneratorError(e));
                },
            };
            let ghost given = state;
            let offered = if is_link {
                link_mutators.len()
            } else {
                neuron_mutators.len()
            };
            if idx >= offered {
                proof {
                    assert(run_ends(
                        link_mutators@,
                        neuron_mutators@,
                        start,
                        gens,
                        turns,
                        state,
                        (is_link, idx, done),
                        Err::<(), MutateError>(
                            MutateError::GeneratorError(GeneratorError::Exhausted),
                        ),
                    ));
                }
                return Err(MutateError::GeneratorError(GeneratorError::Exhausted));
            }
            if is_link {
                let fresh = edge_source();
                let answer = link_mutators[idx].mutate(self, fresh);
                proof {
                    let t = Turn {
                        is_link,
                        idx,
                        done,
                        fresh,
                        selected: 0,
                        before,
                        after: *self,
                        answer,
                    };
                    assert(turn_fits(
                        link_mutators@,
                        neuron_mutators@,
                        neurons@,
                        *neuron_selector,
                        *edge_source,
                        gens.last(),
                        given,
                        t,
                    ));
                    lemma_run_extended(
                        link_mutators@,
                        neuron_mutators@,
                        neurons@,
                        *neuron_selector,
                        *edge_source,
                        start,
                        gens,
                        turns,
                        given,
                        t,
                    );
                    gens = gens.push(given);
                    turns = turns.push(t);
                }
                match answer {
                    Ok(_) => {},
                    Err(e) => {
                        proof {
                            assert(run_ends(
                                link_mutators@,
                                neuron_mutators@,
                                start,
                                gens,
                                turns,
                                state,
                                (is_link, idx, done),
                                Err::<(), MutateError>(e),
                            ));
                        }
                        return Err(e);
                    },
                }
            } else {
                let selected = neuron_selector(neurons.len());
                let answer = neuron_mutators[idx].mutate(self, neurons, selected);
                proof {
                    let t = Turn {
                        is_link,
                        idx,
                        done,
                        fresh: Edge { weight: 0, enabled: false },
                        selected,
                        before,
                        after: *self,
                        answer,
                    };
                    assert(turn_fits(
                        link_mutators@,
                        neuron_mutators@,
                        neurons@,
                        *neuron_selector,
                        *edge_source,
                        gens.last(),
                        given,
                        t,
                    ));
                    lemma_run_extended(
                        link_mutators@,
                        neuron_mutators@,
                        neurons@,
                        *neuron_selector,
                        *edge_source,
                        start,
                        gens,
                        turns,
                        given,
                        t,
                    );
                    gens = gens.push(given);
                    turns = turns.push(t);
                }
                match answer {
                    Ok(_) => {},
                    Err(e) => {
                        proof {
                            assert(run_ends(
                                link_mutators@,
                                neuron_mutators@,
                                start,
                                gens,
                                turns,
                                state,
                                (is_link, idx, done),
                                Err::<(), MutateError>(e),
                            ));
                        }
                        return Err(e);
                    },
                }
            }
            if done {
                break ;
            }
        }
        proof {
            assert(run_ends(
                link_mutators@,
                neuron_mutators@,
                start,
                gens,
                turns,
                state,
                (false, 0usize, true),
                Ok::<(), MutateError>(()),
            ));
        }
        Ok(())
    }
}

impl From<GeneratorError> for MutateError {
    fn from(value: GeneratorError) -> (r: MutateError) {
        MutateError::GeneratorError(value)
    }
}

impl vstd::std_specs::convert::FromSpecImpl<GeneratorError> for MutateError {
    open spec fn obeys_from_spec() -> bool {
        true
    }

    open spec fn from_spec(value: GeneratorError) -> MutateError {
        MutateError::GeneratorError(value)
    }
}

/// A generator that replays a fixed sequence of operators.
#[derive(Debug, Clone, Default)]
pub struct Script {
    /// For each step, whether it is a link operator, and its index.
    pub steps: Vec<(bool, usize)>,
    /// The number of steps replayed.
    pub next: usize,
}

impl Script {
    /// The generator that is going to replay `steps`.
    pub fn new(steps: Vec<(bool, usize)>) -> (r: Script)
        ensures
            r.steps == steps,
            r.next == 0,
    {
        Script { steps, next: 0 }
    }
}

impl Generator for Script {
    open spec fn pending(&self) -> nat {
        if self.next < self.steps@.len() {
            (self.steps@.len() - self.next) as nat
        } else {
            0
        }
    }

    open spec fn gives(
        &self,
        g: NeuralGraph,
        link_mutators: Seq<Box<dyn LinkMutator>>,
        neuron_mutators: Seq<Box<dyn NeuronMutator>>,
        after: Self,
        r: Result<(bool, usize, bool), GeneratorError>,
    ) -> bool {
        let at = self.next as int;
        let steps = self.steps@;
        &&& after.steps == self.steps
        &&& if at < steps.len() {
            &&& r == Ok::<(bool, usize, bool), GeneratorError>(
                (steps[at].0, steps[at].1, at + 1 >= steps.len()),
            )
            &&& after.next == at + 1
        } else {
            &&& r == Err::<(bool, usize, bool), GeneratorError>(GeneratorError::Exhausted)
            &&& after.next == at
        }
    }

    /// The next step of the script, which is the last if none follows it,
    /// whatever operators are on offer. Refused with `Exhausted` where the
    /// script has no step left.
    fn generate(
        &mut self,
        g: &NeuralGraph,
        link_mutators: &[Box<dyn LinkMutator>],
        neuron_mutators: &[Box<dyn NeuronMutator>],
    ) -> (r: Result<(bool, usize, bool), GeneratorError>)
        ensures
            final(self).steps == old(self).steps,
            ({
                let at = old(self).next as int;
                let steps = old(self).steps@;
                if at < steps.len() {
                    &&& r == Ok::<(bool, usize, bool), GeneratorError>(
                        (steps[at].0, steps[at].1, at + 1 >= steps.len()),
                    )
                    &&& final(self).next == at + 1
                } else {
                    &&& r == Err::<(bool, usize, bool), GeneratorError>(GeneratorError::Exhausted)
                    &&& final(self).next == at
                }
            }),
    {
        if self.next >= self.steps.len() {
            return Err(GeneratorError::Exhausted);
        }
        let (is_link, idx) = self.steps[self.next];
        self.next += 1;
        Ok((is_link, idx, self.next >= self.steps.len()))
    }
}

} // verus!
