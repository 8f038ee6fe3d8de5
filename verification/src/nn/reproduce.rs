//! Making a child from two parents: the crossover of their shared genes,
//! and the driver that runs a sequence of such strategies.
use vstd::prelude::*;
use crate::nn::add_edge_outcome;
use crate::nn::addressable;
use crate::nn::consistency::fits_role;
use crate::nn::consistency::lemma_basic_keeps;
use crate::nn::consistency::lemma_pruned_keeps;
use crate::nn::consistency::lemma_with_edge_keeps;
use crate::nn::consistency::lemma_with_node_created_keeps;
use crate::nn::consistency::roles_hold;
use crate::nn::consistency::unique_edges;
use crate::nn::edge_between;
use crate::nn::has_node;
use crate::nn::layers::forward_only;
use crate::nn::layers::lemma_with_node_created;
use crate::nn::layers::lemma_with_node_created_forward;
use crate::nn::mutate::lemma_with_edge_forward;
use crate::nn::prune::lemma_pruned_forward;
use crate::nn::prune::no_blanks;
use crate::nn::util::all_forward;
use crate::nn::util::item_fits;
use crate::nn::util::item_forward;
use crate::nn::util::items_fit;
use crate::nn::util::lemma_aligned_fits;
use crate::nn::util::lemma_aligned_forward;
use crate::nn::layers::room_for;
use crate::nn::layers::well_formed;
use crate::nn::layers::with_node_created;
use crate::nn::node_at;
use crate::nn::prune::lemma_pruned_well_formed;
use crate::nn::prune::pruned;
use crate::nn::sample::random_flag;
use crate::nn::synth::basic_layers;
use crate::nn::util::aligned;
use crate::nn::util::intersection;
use crate::nn::util::AlignedItem;
use crate::nn::util::ConnectionInfo;
use crate::nn::util::EdgeType;
use crate::nn::with_edge;
use crate::nn::GraphLocation;
use crate::nn::GraphNodeView;
use crate::nn::Edge;
use crate::nn::GraphSize;
use crate::nn::Layers;
use crate::nn::Net;
use crate::nn::NeuralGraph;
use crate::nn::NeuralGraphError;
use crate::nn::GRAPH_LIMIT;

verus! {

/// Why no strategy was run at the word of a generator.
#[derive(Debug, Clone, Copy, PartialEq, Eq, Structural)]
pub enum GeneratorError {
    /// The generator has nothing left to offer: it failed, or the index
    /// that it gave is that of no strategy on offer.
    Exhausted,
}

/// Why no child was made.
#[derive(Debug, Clone, Copy, PartialEq, Eq)]
pub enum ReproduceError {
    /// The generator failed.
    GeneratorError(GeneratorError),
    /// The graph of the child refused an edit.
    ChildNetError(NeuralGraphError),
}

/// A strategy that adds to a child what it takes from two parents.
pub trait Reproducer {
    /// Whether the strategy may leave the child `after` and answer `r`
    /// where it is applied to the parents `a` and `b` and the child
    /// `before`.
    spec fn yields(&self, a: Net, b: Net, before: Net, after: Net, r: Result<(), ReproduceError>) -> bool;

    fn reproduce(&self, a: &Net, b: &Net, output: &mut Net) -> (r: Result<(), ReproduceError>)
        requires
            addressable(a.graph@),
            addressable(b.graph@),
            well_formed(old(output).graph@),
        ensures
            self.yields(*a, *b, *old(output), *final(output), r),
            well_formed(final(output).graph@),
            forward_only(a.graph@) && forward_only(b.graph@) && forward_only(old(output).graph@)
                ==> forward_only(final(output).graph@),
            unique_edges(old(output).graph@) ==> unique_edges(final(output).graph@),
            roles_hold(a.graph@) && roles_hold(b.graph@) && roles_hold(old(output).graph@)
                ==> roles_hold(final(output).graph@),
            r is Ok && no_blanks(old(output).graph@) ==> no_blanks(final(output).graph@),
            final(output).input_layer == old(output).input_layer,
            final(output).output_layer == last_layer(
                final(output).graph@,
                old(output).output_layer,
            ),
    ;
}

/// The source of the order in which the strategies run.
pub trait Generator: Sized {
    /// An upper bound on the number of strategies still to run, the next
    /// one included, where `count` strategies are on offer.
    spec fn pending(&self, count: usize) -> nat;

    /// Whether the generator can be asked once more: what it counts has
    /// room for one more request.
    spec fn ready(&self) -> bool;

    /// Whether the generator may answer `r` and be left as `after` where it
    /// is asked for the next strategy for the parents `a` and `b`, with
    /// `count` strategies on offer.
    spec fn gives(
        &self,
        a: NeuralGraph,
        b: NeuralGraph,
        count: usize,
        after: Self,
        r: Result<(usize, bool), GeneratorError>,
    ) -> bool;

    /// The index of the strategy to run next, and whether it is the last.
    /// The index need not be that of a strategy on offer. A generator that
    /// says that more is to come can be asked once more.
    fn generate<R: Reproducer>(&mut self, a: &NeuralGraph, b: &NeuralGraph, _types: &[R]) -> (r:
        Result<(usize, bool), GeneratorError>)
        requires
            old(self).ready(),
        ensures
            old(self).gives(*a, *b, _types@.len() as usize, *final(self), r),
            r matches Ok((idx, done)) ==> (!done ==> {
                &&& final(self).ready()
                &&& final(self).pending(_types@.len() as usize) < old(self).pending(
                    _types@.len() as usize,
                )
            }),
    ;
}

/// The recombination of the genes that two parents share.
#[derive(Debug, Clone, Copy, Default)]
pub struct Crossover;

/// Where a shared neuron stands in the parent whose copy was not taken,
/// and where the copy that was taken stands.
#[derive(Debug, Clone, Copy)]
pub struct NodeReplacement {
    pub from: GraphLocation,
    pub to: GraphLocation,
}

/// How far a crossover has come.
pub struct Crossing {
    /// The graph of the child.
    pub graph: Layers,
    /// The neurons placed so far.
    pub moved: Seq<NodeReplacement>,
    /// What stopped the crossover, if anything did.
    pub failure: Option<NeuralGraphError>,
}

/// Where the neuron that one parent holds at `loc` stands in the child:
/// where the first replacement for `loc` leads, or at `loc` itself if there
/// is none.
pub open spec fn resolved(moved: Seq<NodeReplacement>, loc: GraphLocation) -> GraphLocation
    decreases moved.len(),
{
    if moved.len() == 0 {
        loc
    } else if moved.first().from == loc {
        moved.first().to
    } else {
        resolved(moved.drop_first(), loc)
    }
}

/// The ends, in the child, of the connection `conn` of a parent: the end at
/// the shared neuron is resolved, the other end is taken as it is.
pub open spec fn ends_of(moved: Seq<NodeReplacement>, conn: ConnectionInfo, side: EdgeType) -> (
    GraphLocation,
    GraphLocation,
) {
    match side {
        EdgeType::Incoming => (conn.from, resolved(moved, conn.to)),
        EdgeType::Outgoing => (resolved(moved, conn.from), conn.to),
    }
}

/// The crossover `st` after the item `item`, if that is a shared neuron:
/// the copy of the first parent is created in the child where the coin says
/// so, else the copy of the second, at the place it has in its parent. The
/// crossover fails with `NodeNotFound` where that parent holds no node at
/// the place or the child has no room for one.
pub open spec fn node_placed(a: Layers, b: Layers, st: Crossing, item: AlignedItem, coin: bool) -> Crossing {
    match item {
        AlignedItem::Node(x, y) => {
            let src = if coin {
                a
            } else {
                b
            };
            let loc = if coin {
                x
            } else {
                y
            };
            let other = if coin {
                y
            } else {
                x
            };
            if st.failure is Some {
                st
            } else if !has_node(src, loc) || !room_for(st.graph, loc) {
                Crossing { failure: Some(NeuralGraphError::NodeNotFound(loc)), ..st }
            } else {
                Crossing {
                    graph: with_node_created(st.graph, loc, node_at(src, loc).value),
                    moved: st.moved.push(NodeReplacement { from: other, to: loc }),
                    failure: None,
                }
            }
        },
        AlignedItem::Edge { .. } => st,
    }
}

/// The crossover `st` after the item `item`, if that is a shared
/// connection: the connection is added to the child between its resolved
/// ends, with the weight that the first parent gives it where the coin says
/// so, else with that of the second. The crossover fails with
/// `NodeNotFound` where that parent has no such connection, and with what
/// the child answers where the child refuses the connection.
pub open spec fn edge_placed(a: Layers, b: Layers, st: Crossing, item: AlignedItem, coin: bool) -> Crossing {
    match item {
        AlignedItem::Node(..) => st,
        AlignedItem::Edge { data, _type } => {
            let src = if coin {
                a
            } else {
                b
            };
            let conn = if coin {
                data.0
            } else {
                data.1
            };
            let ends = ends_of(st.moved, conn, _type);
            if st.failure is Some {
                st
            } else if edge_between(src, conn.from, conn.to) is None {
                Crossing { failure: Some(NeuralGraphError::NodeNotFound(conn.from)), ..st }
            } else {
                match add_edge_outcome(st.graph, ends.0, ends.1) {
                    Ok(_) => Crossing {
                        graph: with_edge(
                            st.graph,
                            ends.0,
                            ends.1,
                            edge_between(src, conn.from, conn.to)->0.value,
                        ),
                        ..st
                    },
                    Err(e) => Crossing { failure: Some(e), ..st },
                }
            }
        },
    }
}

/// The crossover after the shared neurons among the first `n` items were
/// placed in the graph `out`.
pub open spec fn nodes_placed(
    a: Layers,
    b: Layers,
    items: Seq<AlignedItem>,
    coins: Seq<bool>,
    out: Layers,
    n: int,
) -> Crossing
    decreases n,
{
    if n <= 0 {
        Crossing { graph: out, moved: Seq::empty(), failure: None }
    } else {
        node_placed(a, b, nodes_placed(a, b, items, coins, out, n - 1), items[n - 1], coins[n - 1])
    }
}

/// The crossover `start` after the shared connections among the first `n`
/// items were placed.
pub open spec fn edges_placed(
    a: Layers,
    b: Layers,
    items: Seq<AlignedItem>,
    coins: Seq<bool>,
    start: Crossing,
    n: int,
) -> Crossing
    decreases n,
{
    if n <= 0 {
        start
    } else {
        edge_placed(a, b, edges_placed(a, b, items, coins, start, n - 1), items[n - 1], coins[n - 1])
    }
}

/// The whole crossover of `items` into the graph `out`: the shared neurons
/// are placed, then the shared connections, then the placeholders are
/// pruned. Coin `i` decides for item `i`. A crossover that fails stops
/// where it fails.
pub open spec fn crossed(a: Layers, b: Layers, items: Seq<AlignedItem>, coins: Seq<bool>, out: Layers) -> Crossing {
    let nodes = nodes_placed(a, b, items, coins, out, items.len() as int);
    let st = edges_placed(a, b, items, coins, nodes, items.len() as int);
    if st.failure is None {
        Crossing { graph: pruned(st.graph), ..st }
    } else {
        st
    }
}

/// Whether the crossover of the genes that `a` and `b` share into `out`,
/// with the coins `coins`, one for each gene, leaves the graph `child` and
/// the answer `r`.
pub open spec fn crossover_with(
    a: Layers,
    b: Layers,
    out: Layers,
    coins: Seq<bool>,
    child: Layers,
    r: Result<(), ReproduceError>,
) -> bool {
    let items = aligned(a, b);
    let end = crossed(a, b, items, coins, out);
    &&& coins.len() == items.len()
    &&& child == end.graph
    &&& r == answer_of(end)
}

/// What a crossover that ended in `st` answers.
pub open spec fn answer_of(st: Crossing) -> Result<(), ReproduceError> {
    match st.failure {
        None => Ok(()),
        Some(e) => Err(ReproduceError::ChildNetError(e)),
    }
}

/// The index of the last layer of `g`, or `kept` if `g` has no layer.
pub open spec fn last_layer(g: Layers, kept: GraphSize) -> GraphSize {
    if 0 < g.len() <= GRAPH_LIMIT {
        (g.len() - 1) as GraphSize
    } else {
        kept
    }
}

/// A crossover that has failed stays as it is while neurons are placed.
proof fn lemma_nodes_failed(
    a: Layers,
    b: Layers,
    items: Seq<AlignedItem>,
    coins: Seq<bool>,
    out: Layers,
    i: int,
    n: int,
)
    requires
        0 <= i <= n,
        nodes_placed(a, b, items, coins, out, i).failure is Some,
    ensures
        nodes_placed(a, b, items, coins, out, n) == nodes_placed(a, b, items, coins, out, i),
    decreases n - i,
{
    if i < n {
        lemma_nodes_failed(a, b, items, coins, out, i, n - 1);
    }
}

/// A crossover that has failed stays as it is while connections are placed.
proof fn lemma_edges_failed(
    a: Layers,
    b: Layers,
    items: Seq<AlignedItem>,
    coins: Seq<bool>,
    start: Crossing,
    i: int,
    n: int,
)
    requires
        0 <= i <= n,
        edges_placed(a, b, items, coins, start, i).failure is Some,
    ensures
        edges_placed(a, b, items, coins, start, n) == edges_placed(a, b, items, coins, start, i),
    decreases n - i,
{
    if i < n {
        lemma_edges_failed(a, b, items, coins, start, i, n - 1);
    }
}

/// Whether every replacement of `moved` stays within a layer.
pub open spec fn level(moved: Seq<NodeReplacement>) -> bool {
    forall|i: int| 0 <= i < moved.len() ==> (#[trigger] moved[i]).from.layer == moved[i].to.layer
}

/// Replacements that stay within a layer resolve a location to one of the
/// same layer.
pub proof fn lemma_resolved_level(moved: Seq<NodeReplacement>, loc: GraphLocation)
    requires
        level(moved),
    ensures
        resolved(moved, loc).layer == loc.layer,
    decreases moved.len(),
{
    if moved.len() > 0 {
        assert(moved[0].from.layer == moved[0].to.layer);
        assert forall|i: int| 0 <= i < moved.drop_first().len() implies (
        #[trigger] moved.drop_first()[i]).from.layer == moved.drop_first()[i].to.layer by {
            assert(moved.drop_first()[i] == moved[i + 1]);
        }
        lemma_resolved_level(moved.drop_first(), loc);
    }
}

/// Where the neuron that one parent holds at `loc` stands in the child.
fn resolve(moved: &Vec<NodeReplacement>, loc: GraphLocation) -> (r: GraphLocation)
    ensures
        r == resolved(moved@, loc),
{
    let mut i: usize = 0;
    proof {
        assert(moved@.skip(0) =~= moved@);
    }
    while i < moved.len()
        invariant
            i <= moved.len(),
            resolved(moved@.skip(i as int), loc) == resolved(moved@, loc),
        decreases moved.len() - i,
    {
        proof {
            assert(moved@.skip(i as int).drop_first() =~= moved@.skip(i + 1));
        }
        if moved[i].from == loc {
            return moved[i].to;
        }
        i += 1;
    }
    loc
}

impl Net {
    /// Sets the index of the output layer to that of the last layer.
    pub fn settle_output_layer(&mut self)
        ensures
            final(self).graph == old(self).graph,
            final(self).input_layer == old(self).input_layer,
            final(self).output_layer == last_layer(old(self).graph@, old(self).output_layer),
    {
        let count = self.graph.layers.len();
        if 0 < count && count <= GRAPH_LIMIT {
            self.output_layer = (count - 1) as GraphSize;
        }
    }
}

impl Crossover {
    /// Recombines the shared genes `items` of `a` and `b` into `output`,
    /// with coin `i` deciding from which parent item `i` is taken: for each
    /// shared neuron the copy of one parent is created in `output` at the
    /// place it has in that parent; then each shared connection is added
    /// between its ends, the end at a shared neuron moved to where that
    /// neuron was placed; then the placeholders are pruned. A step that
    /// cannot be done stops the crossover, and `output` stays as it then
    /// is.
    pub fn cross(
        &self,
        a: &Net,
        b: &Net,
        output: &mut Net,
        items: &Vec<AlignedItem>,
        coins: &Vec<bool>,
    ) -> (r: Result<(), ReproduceError>)
        requires
            coins.len() == items.len(),
            well_formed(old(output).graph@),
        ensures
            ({
                let end = crossed(a.graph@, b.graph@, items@, coins@, old(output).graph@);
                &&& final(output).graph@ == end.graph
                &&& r == answer_of(end)
            }),
            well_formed(final(output).graph@),
            final(output).input_layer == old(output).input_layer,
            final(output).output_layer == last_layer(
                final(output).graph@,
                old(output).output_layer,
            ),
            forward_only(old(output).graph@) && all_forward(items@) ==> forward_only(
                final(output).graph@,
            ),
            r is Ok ==> no_blanks(final(output).graph@),
            unique_edges(old(output).graph@) ==> unique_edges(final(output).graph@),
            roles_hold(a.graph@) && roles_hold(b.graph@) && roles_hold(old(output).graph@)
                && items_fit(a.graph@, b.graph@, items@) ==> roles_hold(final(output).graph@),
    {
        let ghost out = output.graph@;
        let ghost keeps = forward_only(out) && all_forward(items@);
        let ghost single = unique_edges(out);
        let ghost placed = roles_hold(a.graph@) && roles_hold(b.graph@) && roles_hold(out)
            && items_fit(a.graph@, b.graph@, items@);
        let ghost kept = output.output_layer;
        let mut moved: Vec<NodeReplacement> = Vec::new();
        let mut i: usize = 0;
        while i < items.len()
            invariant
                i <= items.len(),
                coins.len() == items.len(),
                well_formed(output.graph@),
                output.input_layer == old(output).input_layer,
                output.output_layer == kept,
                kept == old(output).output_layer,
                out == old(output).graph@,
                keeps == (forward_only(out) && all_forward(items@)),
                keeps ==> forward_only(output.graph@) && level(moved@),
                single == unique_edges(out),
                single ==> unique_edges(output.graph@),
                placed == (roles_hold(a.graph@) && roles_hold(b.graph@) && roles_hold(out)
                    && items_fit(a.graph@, b.graph@, items@)),
                placed ==> roles_hold(output.graph@),
                nodes_placed(a.graph@, b.graph@, items@, coins@, out, i as int) == (Crossing {
                    graph: output.graph@,
                    moved: moved@,
                    failure: None,
                }),
            decreases items.len() - i,
        {
            match items[i] {
                AlignedItem::Node(x, y) => {
                    let (src, loc, other) = if coins[i] {
                        (&a.graph, x, y)
                    } else {
                        (&b.graph, y, x)
                    };
                    let found = src.get_node(&loc);
                    if found.is_none() || !output.graph.has_room_for(&loc) {
                        proof {
                            let n = items.len() as int;
                            lemma_nodes_failed(a.graph@, b.graph@, items@, coins@, out, i + 1, n);
                            let nodes = nodes_placed(a.graph@, b.graph@, items@, coins@, out, n);
                            lemma_edges_failed(a.graph@, b.graph@, items@, coins@, nodes, 0, n);
                        }
                        output.settle_output_layer();
                        return Err(
                            ReproduceError::ChildNetError(NeuralGraphError::NodeNotFound(loc)),
                        );
                    }
                    let value = found.unwrap().value;
                    proof {
                        lemma_with_node_created(output.graph@, loc, value);
                        lemma_with_node_created_keeps(output.graph@, loc, value);
                        if placed {
                            assert(item_fits(a.graph@, b.graph@, items@[i as int]));
                            assert(fits_role(src@.len() as int, loc.layer as int, value));
                        }
                        if keeps {
                            lemma_with_node_created_forward(output.graph@, loc, value);
                            assert(item_forward(items@[i as int]));
                        }
                    }
                    output.graph.create_node_at(&loc, value);
                    moved.push(NodeReplacement { from: other, to: loc });
                },
                AlignedItem::Edge { .. } => {},
            }
            i += 1;
        }
        let ghost nodes = nodes_placed(
            a.graph@,
            b.graph@,
            items@,
            coins@,
            out,
            items.len() as int,
        );
        let mut i: usize = 0;
        while i < items.len()
            invariant
                i <= items.len(),
                coins.len() == items.len(),
                well_formed(output.graph@),
                output.input_layer == old(output).input_layer,
                output.output_layer == kept,
                kept == old(output).output_layer,
                out == old(output).graph@,
                keeps == (forward_only(out) && all_forward(items@)),
                keeps ==> forward_only(output.graph@) && level(moved@),
                single == unique_edges(out),
                single ==> unique_edges(output.graph@),
                placed == (roles_hold(a.graph@) && roles_hold(b.graph@) && roles_hold(out)
                    && items_fit(a.graph@, b.graph@, items@)),
                placed ==> roles_hold(output.graph@),
                nodes == nodes_placed(a.graph@, b.graph@, items@, coins@, out, items.len() as int),
                nodes.moved == moved@,
                edges_placed(a.graph@, b.graph@, items@, coins@, nodes, i as int) == (Crossing {
                    graph: output.graph@,
                    moved: moved@,
                    failure: None,
                }),
            decreases items.len() - i,
        {
            match items[i] {
                AlignedItem::Node(..) => {},
                AlignedItem::Edge { data, _type } => {
                    let (src, conn) = if coins[i] {
                        (&a.graph, data.0)
                    } else {
                        (&b.graph, data.1)
                    };
                    let (from, to) = match _type {
                        EdgeType::Incoming => (conn.from, resolve(&moved, conn.to)),
                        EdgeType::Outgoing => (resolve(&moved, conn.from), conn.to),
                    };
                    let answer = match src.get_edge(&conn.from, &conn.to) {
                        None => Err(NeuralGraphError::NodeNotFound(conn.from)),
                        Some(e) => {
                            let ghost before = output.graph@;
                            let added = output.graph.add_edge(from, to, e.value);
                            proof {
                                if added is Ok {
                                    lemma_with_edge_well_formed(before, from, to, e.value);
                                    lemma_with_edge_keeps(before, from, to, e.value);
                                    if keeps {
                                        assert(item_forward(items@[i as int]));
                                        lemma_resolved_level(moved@, conn.to);
                                        lemma_resolved_level(moved@, conn.from);
                                        lemma_with_edge_forward(before, from, to, e.value);
                                    }
                                }
                            }
                            added
                        },
                    };
                    match answer {
                        Ok(_) => {},
                        Err(e) => {
                            proof {
                                let n = items.len() as int;
                                lemma_edges_failed(
                                    a.graph@,
                                    b.graph@,
                                    items@,
                                    coins@,
                                    nodes,
                                    i + 1,
                                    n,
                                );
                            }
                            output.settle_output_layer();
                            return Err(ReproduceError::ChildNetError(e));
                        },
                    }
                },
            }
            i += 1;
        }
        proof {
            lemma_pruned_well_formed(output.graph@);
            lemma_pruned_keeps(output.graph@);
            if keeps {
                lemma_pruned_forward(output.graph@);
            }
        }
        output.graph.prune();
        output.settle_output_layer();
        Ok(())
    }
}

/// Adding a connection to a node that the graph holds keeps a well-formed
/// graph well-formed.
pub proof fn lemma_with_edge_well_formed(
    g: Layers,
    from: GraphLocation,
    to: GraphLocation,
    value: Edge,
)
    requires
        well_formed(g),
        has_node(g, from),
        has_node(g, to),
    ensures
        well_formed(with_edge(g, from, to, value)),
{
    let h = with_edge(g, from, to, value);
    assert forall|l: int, n: int, k: int|
        0 <= l < h.len() && 0 <= n < h[l].len() && 0 <= k < h[l][n].connections.len() implies (
    #[trigger] h[l][n].connections[k]).to.layer < h.len() by {
        if l == from.layer && n == from.node {
            if k < g[l][n].connections.len() {
                assert(g[l][n].connections[k].to.layer < g.len());
            }
        } else {
            assert(h[l][n] == g[l][n]);
            assert(g[l][n].connections[k].to.layer < g.len());
        }
    }
    assert forall|l: int| 0 <= l < h.len() implies (#[trigger] h[l]).len() <= GRAPH_LIMIT by {
        assert(g[l].len() <= GRAPH_LIMIT);
    }
}

impl Reproducer for Crossover {
    open spec fn yields(&self, a: Net, b: Net, before: Net, after: Net, r: Result<(), ReproduceError>) -> bool {
        &&& exists|coins: Seq<bool>| #[trigger]
            crossover_with(a.graph@, b.graph@, before.graph@, coins, after.graph@, r)
        &&& after.input_layer == before.input_layer
        &&& after.output_layer == last_layer(after.graph@, before.output_layer)
    }

    /// Recombines the genes that `a` and `b` share into `output`, with a
    /// coin flipped for each of them.
    fn reproduce(&self, a: &Net, b: &Net, output: &mut Net) -> (r: Result<(), ReproduceError>)
        ensures
            exists|coins: Seq<bool>| #[trigger]
                crossover_with(a.graph@, b.graph@, old(output).graph@, coins, final(output).graph@, r),
            final(output).input_layer == old(output).input_layer,
            final(output).output_layer == last_layer(
                final(output).graph@,
                old(output).output_layer,
            ),
            r is Ok ==> no_blanks(final(output).graph@),
    {
        let items = intersection(a, b);
        proof {
            lemma_aligned_fits(a.graph@, b.graph@);
            if forward_only(a.graph@) && forward_only(b.graph@) {
                lemma_aligned_forward(a.graph@, b.graph@);
            }
        }
        let mut coins: Vec<bool> = Vec::new();
        while coins.len() < items.len()
            invariant
                coins.len() <= items.len(),
            decreases items.len() - coins.len(),
        {
            coins.push(random_flag());
        }
        let r = self.cross(a, b, output, &items, &coins);
        proof {
            assert(crossover_with(a.graph@, b.graph@, old(output).graph@, coins@, output.graph@, r));
        }
        r
    }
}

/// The generator that runs every strategy once, in the order given.
#[derive(Debug, Clone, Copy, Default)]
pub struct DefaultIterator(pub usize);

impl DefaultIterator {
    /// The generator that has run nothing yet.
    pub fn new() -> (r: DefaultIterator)
        ensures
            r.0 == 0,
    {
        DefaultIterator(0)
    }
}

impl Generator for DefaultIterator {
    open spec fn pending(&self, count: usize) -> nat {
        if self.0 < count {
            (count - self.0) as nat
        } else {
            0
        }
    }

    open spec fn ready(&self) -> bool {
        self.0 < usize::MAX
    }

    open spec fn gives(
        &self,
        a: NeuralGraph,
        b: NeuralGraph,
        count: usize,
        after: Self,
        r: Result<(usize, bool), GeneratorError>,
    ) -> bool {
        &&& r == Ok::<(usize, bool), GeneratorError>((self.0, self.0 + 1 >= count))
        &&& after.0 == self.0 + 1
    }

    /// The number of requests so far as the index of the next strategy,
    /// which is the last if the strategies on offer are no more than the
    /// requests with this one. The generator never fails, and it counts
    /// on where it is asked for more than there is.
    fn generate<R: Reproducer>(&mut self, a: &NeuralGraph, b: &NeuralGraph, _types: &[R]) -> (r:
        Result<(usize, bool), GeneratorError>)
        ensures
            r == Ok::<(usize, bool), GeneratorError>(
                (old(self).0, old(self).0 + 1 >= _types@.len()),
            ),
            final(self).0 == old(self).0 + 1,
    {
        self.0 += 1;
        Ok((self.0 - 1, self.0 >= _types.len()))
    }
}

/// One round of the making of a child.
pub struct Round {
    /// The index of the strategy.
    pub idx: usize,
    /// Whether the generator said that the strategy was the last.
    pub done: bool,
    /// The child that the strategy was applied to.
    pub before: Net,
    /// The child that the strategy left.
    pub after: Net,
    /// What the strategy answered.
    pub answer: Result<(), ReproduceError>,
}

/// The child that the rounds `rounds` have left of the child `start`.
#[verifier::opaque]
pub open spec fn child_after(start: Net, rounds: Seq<Round>) -> Net {
    if rounds.len() == 0 {
        start
    } else {
        rounds.last().after
    }
}

/// Rounds leave the child that the last of them left, and no rounds leave
/// the child as it was.
pub proof fn lemma_child_after(start: Net, rounds: Seq<Round>)
    ensures
        rounds.len() == 0 ==> child_after(start, rounds) == start,
        rounds.len() > 0 ==> child_after(start, rounds) == rounds.last().after,
{
    reveal(child_after);
}

/// Whether `start` is the net that has the input and the output nodes of
/// `a` and nothing else.
pub open spec fn is_basic_of(a: Net, start: Net) -> bool {
    &&& a.input_layer < a.graph@.len()
    &&& a.output_layer < a.graph@.len()
    &&& start.graph@ == basic_layers(
        a.graph@[a.input_layer as int],
        a.graph@[a.output_layer as int],
    )
    &&& start.input_layer == 0
    &&& start.output_layer == 1
}

/// Whether `rounds` are the rounds of the making of a child of `a` and `b`
/// from the child `start`, with `gens` the generator before each round and
/// after the last. In each round the generator named a strategy that was
/// on offer; the strategy was applied to the parents and to the child that
/// the round before had left; and every round but the last succeeded and
/// was not said to be the last.
pub open spec fn is_breeding<R: Reproducer, G: Generator>(
    a: Net,
    b: Net,
    strategies: Seq<R>,
    start: Net,
    gens: Seq<G>,
    rounds: Seq<Round>,
) -> bool {
    &&& gens.len() == rounds.len() + 1
    &&& forall|i: int|
        0 <= i < rounds.len() ==> {
            let t = #[trigger] rounds[i];
            &&& t.before == child_after(start, rounds.take(i))
            &&& gens[i].gives(a.graph, b.graph, strategies.len() as usize, gens[i + 1], Ok((t.idx, t.done)))
            &&& t.idx < strategies.len()
            &&& strategies[t.idx as int].yields(a, b, t.before, t.after, t.answer)
            &&& i < rounds.len() - 1 ==> t.answer is Ok && !t.done
        }
}

/// Whether the making of a child in the rounds `rounds` ends with the
/// answer `r`: with the child that the last round left, where that round
/// succeeded and was said to be the last; with the error of the last
/// round, where that round failed; with the error of the generator, where
/// the generator, asked for a further strategy, failed and was left as
/// `stopped`; with `Exhausted`, where the generator, asked for a further
/// strategy, was left as `stopped` and gave `named`, whose index is that
/// of no strategy.
pub open spec fn breeding_ends<R: Reproducer, G: Generator>(
    a: Net,
    b: Net,
    strategies: Seq<R>,
    start: Net,
    gens: Seq<G>,
    rounds: Seq<Round>,
    stopped: G,
    named: (usize, bool),
    r: Result<Net, ReproduceError>,
) -> bool {
    match r {
        Ok(net) => rounds.len() > 0 && rounds.last().answer is Ok && rounds.last().done && net
            == rounds.last().after,
        Err(ReproduceError::GeneratorError(e)) => {
            ||| rounds.len() > 0 && rounds.last().answer == Err::<(), ReproduceError>(
                ReproduceError::GeneratorError(e),
            )
            ||| {
                &&& rounds.len() > 0 ==> rounds.last().answer is Ok && !rounds.last().done
                &&& gens.last().gives(a.graph, b.graph, strategies.len() as usize, stopped, Err(e))
            }
            ||| {
                &&& rounds.len() > 0 ==> rounds.last().answer is Ok && !rounds.last().done
                &&& gens.last().gives(a.graph, b.graph, strategies.len() as usize, stopped, Ok(named))
                &&& named.0 >= strategies.len()
                &&& e == GeneratorError::Exhausted
            }
        },
        Err(e) => rounds.len() > 0 && rounds.last().answer == Err::<(), ReproduceError>(e),
    }
}

/// Whether `Net::reproduce` may answer `r` for the parents `a` and `b`,
/// the strategies `strategies` and the generator `generator`. Where `a`
/// lacks the layer that it names as its input or output layer, the answer
/// is `LayerNotFound` with the number of layers of `a`. Else there is a
/// making of a child that starts from the net of the input and output nodes
/// of `a` and from `generator`, and ends with `r`: every strategy that the
/// generator named was run, but for an index that is that of no strategy,
/// which ends the making with `Exhausted`.
pub open spec fn reproduced<R: Reproducer, G: Generator>(
    a: Net,
    b: Net,
    strategies: Seq<R>,
    generator: G,
    r: Result<Net, ReproduceError>,
) -> bool {
    if !(a.input_layer < a.graph@.len() && a.output_layer < a.graph@.len()) {
        r == Err::<Net, ReproduceError>(
            ReproduceError::ChildNetError(
                NeuralGraphError::LayerNotFound(a.graph@.len() as GraphSize),
            ),
        )
    } else {
        exists|start: Net, gens: Seq<G>, rounds: Seq<Round>, stopped: G, named: (usize, bool)|
            {
                &&& is_basic_of(a, start)
                &&& #[trigger] is_breeding(a, b, strategies, start, gens, rounds)
                &&& gens[0] == generator
                &&& #[trigger] breeding_ends(a, b, strategies, start, gens, rounds, stopped, named, r)
            }
    }
}

/// A making of a child that is followed by one more round of a strategy
/// that the generator named and that was applied to the child that the
/// rounds had left is a making of a child.

proof fn lemma_breeding_extended<R: Reproducer, G: Generator>(
    a: Net,
    b: Net,
    strategies: Seq<R>,
    start: Net,
    gens: Seq<G>,
    rounds: Seq<Round>,
    next: G,
    t: Round,
)
    requires
        is_breeding(a, b, strategies, start, gens, rounds),
        rounds.len() > 0 ==> rounds.last().answer is Ok && !rounds.last().done,
        t.before == child_after(start, rounds),
        gens.last().gives(a.graph, b.graph, strategies.len() as usize, next, Ok((t.idx, t.done))),
        t.idx < strategies.len(),
        strategies[t.idx as int].yields(a, b, t.before, t.after, t.answer),
    ensures
        is_breeding(a, b, strategies, start, gens.push(next), rounds.push(t)),
        child_after(start, rounds.push(t)) == t.after,
{
    let more = rounds.push(t);
    let states = gens.push(next);
    lemma_child_after(start, more);
    assert forall|i: int| 0 <= i < more.len() implies {
        let x = #[trigger] more[i];
        &&& x.before == child_after(start, more.take(i))
        &&& states[i].gives(a.graph, b.graph, strategies.len() as usize, states[i + 1], Ok((x.idx, x.done)))
        &&& x.idx < strategies.len()
        &&& strategies[x.idx as int].yields(a, b, x.before, x.after, x.answer)
        &&& i < more.len() - 1 ==> x.answer is Ok && !x.done
    } by {
        if i < rounds.len() {
            assert(more[i] == rounds[i]);
            assert(states[i] == gens[i]);
            assert(states[i + 1] == gens[i + 1]);
            assert(more.take(i) =~= rounds.take(i));
        } else {
            assert(more.take(i) =~= rounds);
            assert(states[i] == gens.last());
        }
    }
}

impl Net {
    /// Makes a child of `a` and `b`: a net with the input and output nodes
    /// of `a`, to which the strategies of `_types` add, in the order that
    /// `generator` gives, until it says that one is the last. The first
    /// strategy that fails ends the making with its error, and so does the
    /// generator where it fails. An index that is that of no strategy ends
    /// the making with `Exhausted`.
    pub fn reproduce<R: Reproducer, G: Generator>(a: &Net, b: &Net, _types: &[R], generator: G) -> (r:
        Result<Net, ReproduceError>)
        requires
            addressable(a.graph@),
            addressable(b.graph@),
            generator.ready(),
        ensures
            reproduced(*a, *b, _types@, generator, r),
            !(a.input_layer < a.graph@.len() && a.output_layer < a.graph@.len()) ==> r == Err::<
                Net,
                ReproduceError,
            >(
                ReproduceError::ChildNetError(
                    NeuralGraphError::LayerNotFound(a.graph@.len() as GraphSize),
                ),
            ),
            r matches Ok(net) ==> well_formed(net.graph@),
            r matches Ok(net) ==> (forward_only(a.graph@) && forward_only(b.graph@)
                ==> forward_only(net.graph@)),
            r matches Ok(net) ==> unique_edges(net.graph@),
            r matches Ok(net) ==> (a.valid() && b.valid() ==> net.valid()),
    {
        let mut state = generator;
        let mut net = match Net::from_preserving_basic(a) {
            Ok(net) => net,
            Err(e) => {
                return Err(ReproduceError::ChildNetError(e));
            },
        };
        let ghost start = net;
        let ghost mut gens: Seq<G> = seq![state];
        let ghost mut rounds: Seq<Round> = Seq::empty();
        proof {
            lemma_child_after(start, rounds);
            lemma_basic_well_formed(
                a.graph@[a.input_layer as int],
                a.graph@[a.output_layer as int],
            );
            if a.valid() {
                lemma_basic_keeps(a.graph@);
            }
        }
        loop
            invariant_except_break
                rounds.len() > 0 ==> rounds.last().answer is Ok && !rounds.last().done,
                state.ready(),
            invariant
                addressable(a.graph@),
                addressable(b.graph@),
                a.input_layer < a.graph@.len() && a.output_layer < a.graph@.len(),
                well_formed(net.graph@),
                forward_only(a.graph@) && forward_only(b.graph@) ==> forward_only(net.graph@),
                unique_edges(net.graph@),
                a.valid() && b.valid() ==> net.valid(),
                is_basic_of(*a, start),
                is_breeding(*a, *b, _types@, start, gens, rounds),
                gens[0] == generator,
                gens.last() == state,
                net == child_after(start, rounds),
            ensures
                rounds.len() > 0,
                rounds.last().answer is Ok,
                rounds.last().done,
            decreases state.pending(_types@.len() as usize),
        {
            let ghost before = net;
            let (idx, done) = match state.generate(&a.graph, &b.graph, _types) {
                Ok(next) => next,
                Err(e) => {
                    proof {
                        assert(breeding_ends(
                            *a,
                            *b,
                            _types@,
                            start,
                            gens,
                            rounds,
                            state,
                            (0usize, false),
                            Err::<Net, ReproduceError>(ReproduceError::GeneratorError(e)),
                        ));
                    }
                    return Err(ReproduceError::GeneratorError(e));
                },
            };
            if idx >= _types.len() {
                proof {
                    assert(breeding_ends(
                        *a,
                        *b,
                        _types@,
                        start,
                        gens,
                        rounds,
                        state,
                        (idx, done),
                        Err::<Net, ReproduceError>(
                            ReproduceError::GeneratorError(GeneratorError::Exhausted),
                        ),
                    ));
                }
                return Err(ReproduceError::GeneratorError(GeneratorError::Exhausted));
            }
            let answer = _types[idx].reproduce(a, b, &mut net);
            proof {
                let t = Round { idx, done, before, after: net, answer };
                lemma_breeding_extended(*a, *b, _types@, start, gens, rounds, state, t);
                gens = gens.push(state);
                rounds = rounds.push(t);
            }
            match answer {
                Ok(_) => {},
                Err(e) => {
                    proof {
                        assert(breeding_ends(
                            *a,
                            *b,
                            _types@,
                            start,
                            gens,
                            rounds,
                            state,
                            (idx, done),
                            Err::<Net, ReproduceError>(e),
                        ));
                    }
                    return Err(e);
                },
            }
            if done {
                break ;
            }
        }
        proof {
            lemma_child_after(start, rounds);
            assert(breeding_ends(
                *a,
                *b,
                _types@,
                start,
                gens,
                rounds,
                state,
                (0usize, true),
                Ok::<Net, ReproduceError>(net),
            ));
        }
        Ok(net)
    }
}

/// A net of input and output nodes without connections is well-formed.
pub proof fn lemma_basic_well_formed(
    inputs: Seq<GraphNodeView>,
    outputs: Seq<GraphNodeView>,
)
    requires
        inputs.len() <= GRAPH_LIMIT,
        outputs.len() <= GRAPH_LIMIT,
    ensures
        well_formed(basic_layers(inputs, outputs)),
        forward_only(basic_layers(inputs, outputs)),
        unique_edges(basic_layers(inputs, outputs)),
{
    let g = basic_layers(inputs, outputs);
    assert forall|l: int| 0 <= l < g.len() implies (#[trigger] g[l]).len() <= GRAPH_LIMIT by {}
}


impl From<GeneratorError> for ReproduceError {
    fn from(value: GeneratorError) -> (r: ReproduceError) {
        ReproduceError::GeneratorError(value)
    }
}

impl vstd::std_specs::convert::FromSpecImpl<GeneratorError> for ReproduceError {
    open spec fn obeys_from_spec() -> bool {
        true
    }

    open spec fn from_spec(value: GeneratorError) -> ReproduceError {
        ReproduceError::GeneratorError(value)
    }
}

impl From<NeuralGraphError> for ReproduceError {
    fn from(value: NeuralGraphError) -> (r: ReproduceError) {
        ReproduceError::ChildNetError(value)
    }
}

impl vstd::std_specs::convert::FromSpecImpl<NeuralGraphError> for ReproduceError {
    open spec fn obeys_from_spec() -> bool {
        true
    }

    open spec fn from_spec(value: NeuralGraphError) -> ReproduceError {
        ReproduceError::ChildNetError(value)
    }
}

} // verus!
