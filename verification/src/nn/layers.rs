//! Structural edits that renumber connections: opening new layers, removing
//! a node, creating a node at a given position.
use vstd::prelude::*;
use crate::nn::addressable;
use crate::nn::drop_target;
use crate::nn::has_node;
use crate::nn::layer_view;
use crate::nn::lemma_layer_view_push;
use crate::nn::lemma_layers_view_update;
use crate::nn::without_target;
use crate::nn::GraphEdge;
use crate::nn::GraphLocation;
use crate::nn::GraphNode;
use crate::nn::GraphNodeView;
use crate::nn::GraphSize;
use crate::nn::Layers;
use crate::nn::NeuralGraph;
use crate::nn::Node;
use crate::nn::GRAPH_LIMIT;

verus! {

/// An edit that is applied to every connection of a graph.
#[derive(Debug, Clone, Copy)]
pub enum Rewire {
    /// Targets in layer `at` or later move one layer up.
    Lift { at: GraphSize },
    /// Connections that lead to `target` are dropped.
    Cut { target: GraphLocation },
}

/// The connection `e` after layer `at` was opened.
pub open spec fn lifted(e: GraphEdge, at: GraphSize) -> GraphEdge {
    if e.to.layer >= at {
        GraphEdge {
            to: GraphLocation { layer: (e.to.layer + 1) as GraphSize, node: e.to.node },
            value: e.value,
        }
    } else {
        e
    }
}

/// The connections `conns` after the edit `how`.
pub open spec fn rewired(conns: Seq<GraphEdge>, how: Rewire) -> Seq<GraphEdge> {
    match how {
        Rewire::Lift { at } => conns.map_values(|e: GraphEdge| lifted(e, at)),
        Rewire::Cut { target } => without_target(conns, target),
    }
}

/// The node `node` after the edit `how` was applied to its connections.
pub open spec fn rewired_node(node: GraphNodeView, how: Rewire) -> GraphNodeView {
    GraphNodeView { value: node.value, connections: rewired(node.connections, how) }
}

/// The layer `row` after the edit `how` was applied to each of its nodes.
pub open spec fn rewired_row(row: Seq<GraphNodeView>, how: Rewire) -> Seq<GraphNodeView> {
    row.map_values(|node: GraphNodeView| rewired_node(node, how))
}

/// The graph `g` after the edit `how` was applied to every connection.
pub open spec fn rewired_layers(g: Layers, how: Rewire) -> Layers {
    g.map_values(|row: Seq<GraphNodeView>| rewired_row(row, how))
}

/// Every connection of `g` leads to a layer below `bound`.
pub open spec fn targets_below(g: Layers, bound: int) -> bool {
    forall|l: int, n: int, k: int|
        0 <= l < g.len() && 0 <= n < g[l].len() && 0 <= k < g[l][n].connections.len() ==> (
        #[trigger] g[l][n].connections[k]).to.layer < bound
}

/// Every connection of `g` leads to a layer that `g` has.
pub open spec fn targets_in_layers(g: Layers) -> bool {
    targets_below(g, g.len() as int)
}

/// Every index of `g` fits a location, and every connection leads to a
/// layer that `g` has.
pub open spec fn well_formed(g: Layers) -> bool {
    addressable(g) && targets_in_layers(g)
}

/// Every connection of `g` leads from its layer to a later one.
pub open spec fn forward_only(g: Layers) -> bool {
    forall|l: int, n: int, k: int|
        0 <= l < g.len() && 0 <= n < g[l].len() && 0 <= k < g[l][n].connections.len() ==> l < (
        #[trigger] g[l][n].connections[k]).to.layer
}

/// Where a new layer is opened so that index `at` comes to exist: at `at`
/// itself where that is an existing layer, else in front of the last layer.
pub open spec fn opening(g: Layers, at: GraphSize) -> GraphSize {
    if g.len() == 0 {
        0
    } else if at < g.len() {
        at
    } else {
        (g.len() - 1) as GraphSize
    }
}

/// The graph `g` with an empty layer opened at index `p`: later layers move
/// up by one, and so does every connection that leads to one of them.
pub open spec fn with_layer_at(g: Layers, p: GraphSize) -> Layers {
    rewired_layers(g, Rewire::Lift { at: p }).insert(p as int, Seq::empty())
}

/// The graph `g` with as many layers opened as it takes for `at` to be the
/// index of a layer that is not the last one. Nothing changes if it
/// already is.
pub open spec fn grown(g: Layers, at: GraphSize) -> Layers
    decreases at + 2 - g.len(),
{
    if at + 2 <= g.len() {
        g
    } else {
        grown(with_layer_at(g, opening(g, at)), at)
    }
}

/// The graph `g` without the node at `loc`, if there is one, and without
/// the connections that lead to `loc`. Other connections are left as they
/// are.
pub open spec fn without_node(g: Layers, loc: GraphLocation) -> Layers {
    let rest = if has_node(g, loc) {
        g.update(loc.layer as int, g[loc.layer as int].remove(loc.node as int))
    } else {
        g
    };
    rewired_layers(rest, Rewire::Cut { target: loc })
}

/// A placeholder without connections.
pub open spec fn blank_node() -> GraphNodeView {
    GraphNodeView { value: Node::Blank, connections: Seq::empty() }
}

/// The layer `row` followed by as many placeholders as it takes to reach
/// the length `len`.
pub open spec fn padded(row: Seq<GraphNodeView>, len: int) -> Seq<GraphNodeView> {
    if row.len() < len {
        row + Seq::new((len - row.len()) as nat, |i: int| blank_node())
    } else {
        row
    }
}

/// The graph `g` grown for layer `loc.layer`, that layer padded with
/// placeholders up to index `loc.node`, and a node that holds `value`
/// inserted at that index.
pub open spec fn with_node_created(g: Layers, loc: GraphLocation, value: Node) -> Layers {
    let g1 = grown(g, loc.layer);
    let row = padded(g1[loc.layer as int], loc.node as int);
    g1.update(
        loc.layer as int,
        row.insert(loc.node as int, GraphNodeView { value, connections: Seq::empty() }),
    )
}

/// Whether a node can be created at `loc`: the layer index leaves room for
/// a layer behind it, and the layer, once padded, has room for one more
/// node.
pub open spec fn room_for(g: Layers, loc: GraphLocation) -> bool {
    &&& loc.layer < GraphSize::MAX
    &&& padded(grown(g, loc.layer)[loc.layer as int], loc.node as int).len() < GRAPH_LIMIT
}

/// Opening a layer adds one layer, leaves every layer's nodes in place and
/// keeps every connection within the layers.
pub proof fn lemma_with_layer_at(g: Layers, p: GraphSize)
    requires
        p <= g.len(),
        targets_in_layers(g),
    ensures
        with_layer_at(g, p).len() == g.len() + 1,
        targets_in_layers(with_layer_at(g, p)),
        with_layer_at(g, p)[p as int].len() == 0,
        forall|l: int| 0 <= l < p ==> (#[trigger] with_layer_at(g, p)[l]).len() == g[l].len(),
        forall|l: int|
            p < l <= g.len() ==> (#[trigger] with_layer_at(g, p)[l]).len() == g[l - 1].len(),
{
    let h = with_layer_at(g, p);
    let how = Rewire::Lift { at: p };
    assert forall|l: int, n: int, k: int|
        0 <= l < h.len() && 0 <= n < h[l].len() && 0 <= k < h[l][n].connections.len() implies (
    #[trigger] h[l][n].connections[k]).to.layer < h.len() by {
        let src = if l < p {
            l
        } else {
            l - 1
        };
        assert(h[l] == rewired_row(g[src], how));
        assert(h[l][n].connections[k] == lifted(g[src][n].connections[k], p));
        assert(g[src][n].connections[k].to.layer < g.len());
    }
}

/// Opening a layer keeps a well-formed graph well-formed, where the graph
/// has room for one more layer.
pub proof fn lemma_with_layer_at_well_formed(g: Layers, p: GraphSize)
    requires
        p <= g.len(),
        g.len() < GRAPH_LIMIT,
        well_formed(g),
    ensures
        well_formed(with_layer_at(g, p)),
{
    lemma_with_layer_at(g, p);
    let h = with_layer_at(g, p);
    assert forall|l: int| 0 <= l < h.len() implies (#[trigger] h[l]).len() <= GRAPH_LIMIT by {
        if l < p {
            assert(h[l].len() == g[l].len());
        } else if l > p {
            assert(h[l].len() == g[l - 1].len());
        }
    }
}

/// Growing a graph makes `at` the index of a layer that is not the last
/// one, never removes a layer and keeps every connection within the layers.
pub proof fn lemma_grown(g: Layers, at: GraphSize)
    requires
        targets_in_layers(g),
    ensures
        grown(g, at).len() == if at + 2 <= g.len() {
            g.len() as int
        } else {
            at + 2
        },
        targets_in_layers(grown(g, at)),
    decreases at + 2 - g.len(),
{
    if at + 2 > g.len() {
        lemma_with_layer_at(g, opening(g, at));
        lemma_grown(with_layer_at(g, opening(g, at)), at);
    }
}

/// The layer that a graph is grown for is the one it had at that index, or
/// a new and empty one.
pub proof fn lemma_grown_row(g: Layers, at: GraphSize)
    requires
        targets_in_layers(g),
    ensures
        at + 2 <= g.len() ==> grown(g, at) == g,
        at + 2 > g.len() ==> grown(g, at)[at as int].len() == 0,
    decreases at + 2 - g.len(),
{
    if at + 2 > g.len() {
        let p = opening(g, at);
        lemma_with_layer_at(g, p);
        lemma_grown_row(with_layer_at(g, p), at);
    }
}

/// Creating a node keeps a well-formed graph well-formed.
pub proof fn lemma_with_node_created(g: Layers, loc: GraphLocation, value: Node)
    requires
        well_formed(g),
        room_for(g, loc),
    ensures
        well_formed(with_node_created(g, loc, value)),
{
    lemma_grown(g, loc.layer);
    lemma_grown_sizes(g, loc.layer);
    let g1 = grown(g, loc.layer);
    let h = with_node_created(g, loc, value);
    let row = padded(g1[loc.layer as int], loc.node as int);
    assert forall|l: int, n: int, k: int|
        0 <= l < h.len() && 0 <= n < h[l].len() && 0 <= k < h[l][n].connections.len() implies (
    #[trigger] h[l][n].connections[k]).to.layer < h.len() by {
        if l == loc.layer {
            if n < loc.node {
                if n < g1[l].len() {
                    assert(h[l][n] == g1[l][n]);
                    assert(g1[l][n].connections[k].to.layer < g1.len());
                }
            } else if n > loc.node {
                assert(h[l][n] == row[n - 1]);
                if n - 1 < g1[l].len() {
                    assert(row[n - 1] == g1[l][n - 1]);
                    assert(g1[l][n - 1].connections[k].to.layer < g1.len());
                }
            }
        } else {
            assert(g1[l][n].connections[k].to.layer < g1.len());
        }
    }
}

/// Growing a graph keeps every layer within what a location can address.
pub proof fn lemma_grown_sizes(g: Layers, at: GraphSize)
    requires
        well_formed(g),
        at < GraphSize::MAX,
    ensures
        addressable(grown(g, at)),
    decreases at + 2 - g.len(),
{
    if at + 2 > g.len() {
        let p = opening(g, at);
        lemma_with_layer_at(g, p);
        let h = with_layer_at(g, p);
        assert forall|l: int| 0 <= l < h.len() implies (#[trigger] h[l]).len() <= GRAPH_LIMIT by {
            if l < p {
                assert(h[l].len() == g[l].len());
            } else if l > p {
                assert(h[l].len() == g[l - 1].len());
            }
        }
        lemma_grown_sizes(h, at);
    }
}

/// Opening a layer keeps a forward-only graph forward-only.
pub proof fn lemma_with_layer_at_forward(g: Layers, p: GraphSize)
    requires
        p <= g.len(),
        g.len() < GRAPH_LIMIT,
        targets_in_layers(g),
        forward_only(g),
    ensures
        forward_only(with_layer_at(g, p)),
{
    let h = with_layer_at(g, p);
    let how = Rewire::Lift { at: p };
    assert forall|l: int, n: int, k: int|
        0 <= l < h.len() && 0 <= n < h[l].len() && 0 <= k < h[l][n].connections.len() implies l < (
    #[trigger] h[l][n].connections[k]).to.layer by {
        let src = if l < p {
            l
        } else {
            l - 1
        };
        assert(h[l] == rewired_row(g[src], how));
        assert(h[l][n].connections[k] == lifted(g[src][n].connections[k], p));
        assert(g[src][n].connections[k].to.layer < g.len());
        assert(src < g[src][n].connections[k].to.layer);
    }
}

/// Growing a graph keeps a forward-only graph forward-only.
pub proof fn lemma_grown_forward(g: Layers, at: GraphSize)
    requires
        well_formed(g),
        at < GraphSize::MAX,
        forward_only(g),
    ensures
        forward_only(grown(g, at)),
    decreases at + 2 - g.len(),
{
    if at + 2 > g.len() {
        let p = opening(g, at);
        lemma_with_layer_at(g, p);
        lemma_with_layer_at_forward(g, p);
        let h = with_layer_at(g, p);
        assert forall|l: int| 0 <= l < h.len() implies (#[trigger] h[l]).len() <= GRAPH_LIMIT by {
            if l < p {
                assert(h[l].len() == g[l].len());
            } else if l > p {
                assert(h[l].len() == g[l - 1].len());
            }
        }
        lemma_grown_forward(h, at);
    }
}

/// Creating a node keeps a forward-only graph forward-only.
pub proof fn lemma_with_node_created_forward(g: Layers, loc: GraphLocation, value: Node)
    requires
        well_formed(g),
        room_for(g, loc),
        forward_only(g),
    ensures
        forward_only(with_node_created(g, loc, value)),
{
    lemma_grown(g, loc.layer);
    lemma_grown_forward(g, loc.layer);
    let g1 = grown(g, loc.layer);
    let h = with_node_created(g, loc, value);
    let row = padded(g1[loc.layer as int], loc.node as int);
    assert forall|l: int, n: int, k: int|
        0 <= l < h.len() && 0 <= n < h[l].len() && 0 <= k < h[l][n].connections.len() implies l < (
    #[trigger] h[l][n].connections[k]).to.layer by {
        if l == loc.layer {
            if n < loc.node {
                if n < g1[l].len() {
                    assert(h[l][n] == g1[l][n]);
                    assert(l < g1[l][n].connections[k].to.layer);
                }
            } else if n > loc.node {
                assert(h[l][n] == row[n - 1]);
                if n - 1 < g1[l].len() {
                    assert(row[n - 1] == g1[l][n - 1]);
                    assert(l < g1[l][n - 1].connections[k].to.layer);
                }
            }
        } else {
            assert(l < g1[l][n].connections[k].to.layer);
        }
    }
}

/// The connections `conns` after the edit `how`.
pub fn rewire(conns: &Vec<GraphEdge>, how: &Rewire) -> (r: Vec<GraphEdge>)
    requires
        how is Lift ==> forall|k: int|
            0 <= k < conns.len() ==> (#[trigger] conns[k]).to.layer < GraphSize::MAX,
    ensures
        r@ == rewired(conns@, *how),
{
    match how {
        Rewire::Cut { target } => drop_target(conns, target),
        Rewire::Lift { at } => {
            let mut out: Vec<GraphEdge> = Vec::new();
            let mut k: usize = 0;
            while k < conns.len()
                invariant
                    k <= conns.len(),
                    out.len() == k,
                    forall|j: int|
                        0 <= j < conns.len() ==> (#[trigger] conns[j]).to.layer < GraphSize::MAX,
                    forall|j: int| 0 <= j < k ==> out[j] == lifted(conns[j], *at),
                decreases conns.len() - k,
            {
                let e = conns[k];
                if e.to.layer >= *at {
                    out.push(
                        GraphEdge {
                            to: GraphLocation { layer: e.to.layer + 1, node: e.to.node },
                            value: e.value,
                        },
                    );
                } else {
                    out.push(e);
                }
                k += 1;
            }
            proof {
                assert(out@ =~= conns@.map_values(|e: GraphEdge| lifted(e, *at)));
            }
            out
        },
    }
}

/// Applies the edit `how` to the connections of every node of `row`.
pub fn rewire_row(row: &mut Vec<GraphNode>, how: &Rewire)
    requires
        how is Lift ==> forall|n: int, k: int|
            0 <= n < old(row).len() && 0 <= k < old(row)[n].connections.len() ==> (
            #[trigger] old(row)[n].connections[k]).to.layer < GraphSize::MAX,
    ensures
        layer_view(final(row)@) == rewired_row(layer_view(old(row)@), *how),
{
    let mut n: usize = 0;
    while n < row.len()
        invariant
            n <= row.len(),
            row.len() == old(row).len(),
            forall|i: int| 0 <= i < n ==> (#[trigger] row[i])@ == rewired_node(old(row)[i]@, *how),
            forall|i: int| n <= i < row.len() ==> row[i] == old(row)[i],
            how is Lift ==> forall|i: int, k: int|
                0 <= i < old(row).len() && 0 <= k < old(row)[i].connections.len() ==> (
                #[trigger] old(row)[i].connections[k]).to.layer < GraphSize::MAX,
        decreases row.len() - n,
    {
        let node = &mut row[n];
        let fresh = rewire(&node.connections, how);
        node.connections = fresh;
        n += 1;
    }
    proof {
        assert(layer_view(row@) =~= rewired_row(layer_view(old(row)@), *how));
    }
}

impl NeuralGraph {
    /// Whether every layer and every node has an index that fits a
    /// location.
    pub fn is_addressable(&self) -> (r: bool)
        ensures
            r == addressable(self@),
    {
        if self.layers.len() > GRAPH_LIMIT {
            return false;
        }
        let mut l: usize = 0;
        while l < self.layers.len()
            invariant
                l <= self.layers.len(),
                self.layers.len() <= GRAPH_LIMIT,
                forall|i: int| 0 <= i < l ==> (#[trigger] self@[i]).len() <= GRAPH_LIMIT,
            decreases self.layers.len() - l,
        {
            if self.layers[l].len() > GRAPH_LIMIT {
                proof {
                    assert(self@[l as int].len() > GRAPH_LIMIT);
                }
                return false;
            }
            l += 1;
        }
        true
    }

    /// Whether every index fits a location and every connection leads to a
    /// layer that the graph has.
    pub fn is_well_formed(&self) -> (r: bool)
        ensures
            r == well_formed(self@),
    {
        if !self.is_addressable() {
            return false;
        }
        let depth = self.layers.len();
        let mut l: usize = 0;
        while l < depth
            invariant
                l <= depth,
                depth == self.layers.len(),
                addressable(self@),
                forall|i: int, n: int, k: int|
                    0 <= i < l && 0 <= n < self@[i].len() && 0 <= k < self@[i][n].connections.len()
                        ==> (#[trigger] self@[i][n].connections[k]).to.layer < depth,
            decreases depth - l,
        {
            let row = &self.layers[l];
            let mut n: usize = 0;
            while n < row.len()
                invariant
                    n <= row.len(),
                    l < depth,
                    depth == self.layers.len(),
                    row == self.layers[l as int],
                    forall|m: int, k: int|
                        0 <= m < n && 0 <= k < self@[l as int][m].connections.len() ==> (
                        #[trigger] self@[l as int][m].connections[k]).to.layer < depth,
                decreases row.len() - n,
            {
                let conns = &row[n].connections;
                let mut k: usize = 0;
                while k < conns.len()
                    invariant
                        k <= conns.len(),
                        l < depth,
                        n < row.len(),
                        depth == self.layers.len(),
                        row == self.layers[l as int],
                        conns@ == self@[l as int][n as int].connections,
                        forall|j: int| 0 <= j < k ==> (#[trigger] conns@[j]).to.layer < depth,
                    decreases conns.len() - k,
                {
                    if conns[k].to.layer as usize >= depth {
                        proof {
                            assert(self@[l as int][n as int].connections[k as int].to.layer
                                >= self@.len());
                        }
                        return false;
                    }
                    k += 1;
                }
                n += 1;
            }
            l += 1;
        }
        true
    }

    /// Applies the edit `how` to every connection of the graph.
    pub fn rewire_all(&mut self, how: &Rewire)
        requires
            how is Lift ==> targets_below(old(self)@, GraphSize::MAX as int),
        ensures
            final(self)@ == rewired_layers(old(self)@, *how),
    {
        let mut l: usize = 0;
        while l < self.layers.len()
            invariant
                l <= self.layers.len(),
                self.layers.len() == old(self).layers.len(),
                forall|i: int|
                    0 <= i < l ==> layer_view((#[trigger] self.layers[i])@) == rewired_row(
                        old(self)@[i],
                        *how,
                    ),
                forall|i: int| l <= i < self.layers.len() ==> self.layers[i] == old(self).layers[i],
                how is Lift ==> targets_below(old(self)@, GraphSize::MAX as int),
            decreases self.layers.len() - l,
        {
            proof {
                let g = old(self)@;
                assert forall|n: int, k: int|
                    0 <= n < self.layers[l as int].len() && 0 <= k
                        < self.layers[l as int][n].connections.len() && how is Lift implies (
                #[trigger] self.layers[l as int][n].connections[k]).to.layer
                    < GraphSize::MAX by {
                    assert(g[l as int][n].connections[k].to.layer < GraphSize::MAX);
                }
            }
            let row = &mut self.layers[l];
            rewire_row(row, how);
            l += 1;
        }
        proof {
            assert(self@ =~= rewired_layers(old(self)@, *how));
        }
    }

    /// Opens an empty layer at index `p`.
    pub fn open_layer(&mut self, p: GraphSize)
        requires
            p <= old(self)@.len(),
            old(self)@.len() < GRAPH_LIMIT,
            targets_in_layers(old(self)@),
        ensures
            final(self)@ == with_layer_at(old(self)@, p),
    {
        self.rewire_all(&Rewire::Lift { at: p });
        assert(self@.len() == old(self)@.len());
        self.layers.insert(p as usize, Vec::new());
        proof {
            assert(layer_view(Seq::<GraphNode>::empty()) =~= Seq::<GraphNodeView>::empty());
            assert(self@ =~= with_layer_at(old(self)@, p));
        }
    }

    /// Opens layers until `at` is the index of a layer that is not the last
    /// one. Each new layer is opened at `at` where that is an existing
    /// layer, else in front of the last layer, and every connection into a
    /// layer that moves is renumbered. Nothing changes if `at` already is
    /// such an index.
    pub fn add_layer(&mut self, at: GraphSize)
        requires
            at < GraphSize::MAX,
            old(self)@.len() <= GRAPH_LIMIT,
            targets_in_layers(old(self)@),
        ensures
            final(self)@ == grown(old(self)@, at),
    {
        while at as usize + 2 > self.layers.len()
            invariant
                at < GraphSize::MAX,
                self@.len() <= GRAPH_LIMIT,
                targets_in_layers(self@),
                grown(self@, at) == grown(old(self)@, at),
            decreases at + 2 - self.layers.len(),
        {
            let count = self.layers.len();
            let p: GraphSize = if count == 0 {
                0
            } else if (at as usize) < count {
                at
            } else {
                (count - 1) as GraphSize
            };
            proof {
                lemma_with_layer_at(self@, p);
            }
            self.open_layer(p);
        }
    }

    /// Removes the node at `remove`, if there is one, and every connection
    /// that leads to `remove`. Connections to other nodes are not
    /// renumbered.
    pub fn removed_node(&mut self, remove: GraphLocation)
        ensures
            final(self)@ == without_node(old(self)@, remove),
    {
        if (remove.layer as usize) < self.layers.len() {
            if (remove.node as usize) < self.layers[remove.layer as usize].len() {
                proof {
                    lemma_layers_view_update(self.layers@, remove.layer as int);
                }
                let row = &mut self.layers[remove.layer as usize];
                let ghost nodes = row@;
                row.remove(remove.node as usize);
                proof {
                    assert(layer_view(row@) =~= layer_view(nodes).remove(remove.node as int));
                }
            }
        }
        self.rewire_all(&Rewire::Cut { target: remove });
    }

    /// Whether a node can be created at `location`.
    pub fn has_room_for(&self, location: &GraphLocation) -> (r: bool)
        requires
            targets_in_layers(self@),
        ensures
            r == room_for(self@, *location),
    {
        proof {
            lemma_grown_row(self@, location.layer);
        }
        if location.layer == GraphSize::MAX {
            return false;
        }
        if location.layer as usize + 2 <= self.layers.len() {
            self.layers[location.layer as usize].len() < GRAPH_LIMIT
        } else {
            true
        }
    }

    /// Makes room for a node at `location` and puts one that holds `value`
    /// there: the graph is grown until the layer exists and is not the last
    /// one, the layer is padded with placeholders up to the index, and the
    /// node is inserted at the index, in front of what the layer holds from
    /// there on.
    pub fn create_node_at(&mut self, location: &GraphLocation, value: Node)
        requires
            old(self)@.len() <= GRAPH_LIMIT,
            targets_in_layers(old(self)@),
            room_for(old(self)@, *location),
        ensures
            final(self)@ == with_node_created(old(self)@, *location, value),
    {
        proof {
            lemma_grown(self@, location.layer);
        }
        self.add_layer(location.layer);
        proof {
            lemma_layers_view_update(self.layers@, location.layer as int);
        }
        let row = &mut self.layers[location.layer as usize];
        let ghost nodes = row@;
        while (location.node as usize) > row.len()
            invariant
                nodes.len() <= row.len(),
                row.len() <= nodes.len() || row.len() <= location.node,
                layer_view(row@) == padded(layer_view(nodes), row.len() as int),
            decreases location.node - row.len(),
        {
            let ghost before = row@;
            let filler = GraphNode::blank();
            row.push(filler);
            proof {
                lemma_layer_view_push(before, filler);
                assert(layer_view(before) == padded(layer_view(nodes), before.len() as int));
                assert(layer_view(row@) =~= padded(layer_view(nodes), row.len() as int));
            }
        }
        proof {
            assert(layer_view(row@) =~= padded(layer_view(nodes), location.node as int));
        }
        let ghost full = row@;
        let node = GraphNode::new(value);
        row.insert(location.node as usize, node);
        proof {
            assert(layer_view(row@) =~= layer_view(full).insert(location.node as int, node@));
        }
    }
}

} // verus!
