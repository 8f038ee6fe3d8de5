//! What the child of a crossover has of its parents: the neurons it holds
//! and the weights of its connections are those of genes that both parents
//! have.
use vstd::prelude::*;
use crate::nn::add_edge_outcome;
use crate::nn::addressable;
use crate::nn::edge_between;
use crate::nn::has_edge;
use crate::nn::has_node;
use crate::nn::layers::blank_node;
use crate::nn::layers::grown;
use crate::nn::layers::lemma_grown;
use crate::nn::layers::lemma_with_node_created;
use crate::nn::layers::lifted;
use crate::nn::layers::opening;
use crate::nn::layers::padded;
use crate::nn::layers::rewired_node;
use crate::nn::layers::rewired_row;
use crate::nn::layers::room_for;
use crate::nn::layers::well_formed;
use crate::nn::layers::with_layer_at;
use crate::nn::layers::with_node_created;
use crate::nn::layers::Rewire;
use crate::nn::node_at;
use crate::nn::prune::closed_up;
use crate::nn::prune::lemma_pruned;
use crate::nn::prune::lemma_pruned_connections;
use crate::nn::prune::lemma_pruned_well_formed;
use crate::nn::prune::no_blanks;
use crate::nn::prune::lemma_pruned_row_sources;
use crate::nn::prune::pruned;
use crate::nn::prune::pruned_connections;
use crate::nn::prune::pruned_row;
use crate::nn::synth::basic_layers;
use crate::nn::reproduce::breeding_ends;
use crate::nn::reproduce::child_after;
use crate::nn::reproduce::crossover_with;
use crate::nn::reproduce::edges_placed;
use crate::nn::reproduce::ends_of;
use crate::nn::reproduce::is_basic_of;
use crate::nn::reproduce::is_breeding;
use crate::nn::reproduce::lemma_basic_well_formed;
use crate::nn::reproduce::lemma_child_after;
use crate::nn::reproduce::lemma_with_edge_well_formed;
use crate::nn::reproduce::nodes_placed;
use crate::nn::reproduce::reproduced;
use crate::nn::reproduce::Crossing;
use crate::nn::reproduce::Crossover;
use crate::nn::reproduce::Generator;
use crate::nn::reproduce::Reproducer;
use crate::nn::reproduce::Round;
use crate::nn::reproduce::ReproduceError;
use crate::nn::util::aligned;
use crate::nn::util::item_fits;
use crate::nn::util::items_fit;
use crate::nn::util::lemma_aligned_fits;
use crate::nn::util::same_gene;
use crate::nn::util::AlignedItem;
use crate::nn::util::ConnectionInfo;
use crate::nn::with_edge;
use crate::nn::Edge;
use crate::nn::GraphNodeView;
use crate::nn::GraphLocation;
use crate::nn::GraphSize;
use crate::nn::Layers;
use crate::nn::Net;
use crate::nn::Node;

verus! {

/// Every node of `g` is a placeholder or holds a value of `pool`.
pub open spec fn nodes_from(g: Layers, pool: Set<Node>) -> bool {
    forall|l: int, n: int|
        0 <= l < g.len() && 0 <= n < g[l].len() ==> (#[trigger] g[l][n]).value is Blank
            || pool.contains(g[l][n].value)
}

/// Every connection of `g` carries a value of `pool`.
pub open spec fn links_from(g: Layers, pool: Set<Edge>) -> bool {
    forall|l: int, n: int, k: int|
        0 <= l < g.len() && 0 <= n < g[l].len() && 0 <= k < g[l][n].connections.len()
            ==> pool.contains((#[trigger] g[l][n].connections[k]).value)
}

/// Opening a layer brings no new value into a graph.
pub proof fn lemma_with_layer_at_from(g: Layers, p: GraphSize, nodes: Set<Node>, links: Set<Edge>)
    requires
        p <= g.len(),
    ensures
        with_layer_at(g, p).len() == g.len() + 1,
        nodes_from(g, nodes) ==> nodes_from(with_layer_at(g, p), nodes),
        links_from(g, links) ==> links_from(with_layer_at(g, p), links),
{
    let h = with_layer_at(g, p);
    let how = Rewire::Lift { at: p };
    if nodes_from(g, nodes) {
        assert forall|l: int, n: int| 0 <= l < h.len() && 0 <= n < h[l].len() implies (
        #[trigger] h[l][n]).value is Blank || nodes.contains(h[l][n].value) by {
            let src = if l < p {
                l
            } else {
                l - 1
            };
            assert(h[l] == rewired_row(g[src], how));
            assert(h[l][n].value == g[src][n].value);
        }
    }
    if links_from(g, links) {
        assert forall|l: int, n: int, k: int|
            0 <= l < h.len() && 0 <= n < h[l].len() && 0 <= k
                < h[l][n].connections.len() implies links.contains(
            (#[trigger] h[l][n].connections[k]).value,
        ) by {
            let src = if l < p {
                l
            } else {
                l - 1
            };
            assert(h[l] == rewired_row(g[src], how));
            assert(h[l][n] == rewired_node(g[src][n], how));
            assert(h[l][n].connections[k] == lifted(g[src][n].connections[k], p));
            assert(links.contains(g[src][n].connections[k].value));
        }
    }
}

/// Growing a graph brings no new value into it.
pub proof fn lemma_grown_from(g: Layers, at: GraphSize, nodes: Set<Node>, links: Set<Edge>)
    ensures
        nodes_from(g, nodes) ==> nodes_from(grown(g, at), nodes),
        links_from(g, links) ==> links_from(grown(g, at), links),
    decreases at + 2 - g.len(),
{
    if at + 2 > g.len() {
        let p = opening(g, at);
        lemma_with_layer_at_from(g, p, nodes, links);
        lemma_grown_from(with_layer_at(g, p), at, nodes, links);
    }
}

/// Creating a node brings its value into a graph, and nothing else.
pub proof fn lemma_with_node_created_from(
    g: Layers,
    loc: GraphLocation,
    value: Node,
    nodes: Set<Node>,
    links: Set<Edge>,
)
    requires
        well_formed(g),
        room_for(g, loc),
        value is Blank || nodes.contains(value),
    ensures
        nodes_from(g, nodes) ==> nodes_from(with_node_created(g, loc, value), nodes),
        links_from(g, links) ==> links_from(with_node_created(g, loc, value), links),
{
    lemma_grown(g, loc.layer);
    lemma_grown_from(g, loc.layer, nodes, links);
    let g1 = grown(g, loc.layer);
    let h = with_node_created(g, loc, value);
    let row = padded(g1[loc.layer as int], loc.node as int);
    assert forall|l: int, n: int| 0 <= l < h.len() && 0 <= n < h[l].len() implies {
        ||| (#[trigger] h[l][n]) == (GraphNodeView { value, connections: Seq::empty() })
        ||| h[l][n] == blank_node()
        ||| 0 <= n < g1[l].len() && h[l][n] == g1[l][n]
        ||| 0 <= n - 1 < g1[l].len() && h[l][n] == g1[l][n - 1]
    } by {
        if l == loc.layer {
            if n < loc.node {
                if n < g1[l].len() {
                    assert(h[l][n] == g1[l][n]);
                } else {
                    assert(h[l][n] == blank_node());
                }
            } else if n > loc.node {
                assert(h[l][n] == row[n - 1]);
                if n - 1 < g1[l].len() {
                    assert(row[n - 1] == g1[l][n - 1]);
                } else {
                    assert(h[l][n] == blank_node());
                }
            }
        } else {
            assert(h[l][n] == g1[l][n]);
        }
    }
    if links_from(g, links) {
        assert forall|l: int, n: int, k: int|
            0 <= l < h.len() && 0 <= n < h[l].len() && 0 <= k
                < h[l][n].connections.len() implies links.contains(
            (#[trigger] h[l][n].connections[k]).value,
        ) by {
            if 0 <= n < g1[l].len() && h[l][n] == g1[l][n] {
                assert(links.contains(g1[l][n].connections[k].value));
            } else if 0 <= n - 1 < g1[l].len() && h[l][n] == g1[l][n - 1] {
                assert(links.contains(g1[l][n - 1].connections[k].value));
            }
        }
    }
}

/// Adding a connection brings its value into a graph, and nothing else.
pub proof fn lemma_with_edge_from(
    g: Layers,
    from: GraphLocation,
    to: GraphLocation,
    value: Edge,
    nodes: Set<Node>,
    links: Set<Edge>,
)
    requires
        has_node(g, from),
        links.contains(value),
    ensures
        nodes_from(g, nodes) ==> nodes_from(with_edge(g, from, to, value), nodes),
        links_from(g, links) ==> links_from(with_edge(g, from, to, value), links),
{
    let h = with_edge(g, from, to, value);
    if nodes_from(g, nodes) {
        assert forall|l: int, n: int| 0 <= l < h.len() && 0 <= n < h[l].len() implies (
        #[trigger] h[l][n]).value is Blank || nodes.contains(h[l][n].value) by {
            assert(h[l][n].value == g[l][n].value);
        }
    }
    if links_from(g, links) {
        assert forall|l: int, n: int, k: int|
            0 <= l < h.len() && 0 <= n < h[l].len() && 0 <= k
                < h[l][n].connections.len() implies links.contains(
            (#[trigger] h[l][n].connections[k]).value,
        ) by {
            if l == from.layer && n == from.node {
                if k < g[l][n].connections.len() {
                    assert(h[l][n].connections[k] == g[l][n].connections[k]);
                    assert(links.contains(g[l][n].connections[k].value));
                }
            } else {
                assert(h[l][n] == g[l][n]);
                assert(links.contains(g[l][n].connections[k].value));
            }
        }
    }
}

/// Pruning brings no new value into a graph.
pub proof fn lemma_pruned_from(g: Layers, nodes: Set<Node>, links: Set<Edge>)
    ensures
        nodes_from(g, nodes) ==> nodes_from(pruned(g), nodes),
        links_from(g, links) ==> links_from(pruned(g), links),
{
    let h = pruned(g);
    assert forall|l: int, n: int| 0 <= l < h.len() && 0 <= n < h[l].len() implies exists|m: int|
        0 <= m < g[l].len() && (#[trigger] h[l][n]).value == g[l][m].value && h[l][n].connections
            == pruned_connections(g, g[l][m].connections) by {
        assert(h[l] == pruned_row(g, g[l]));
        lemma_pruned_row_sources(g, g[l]);
    }
    if nodes_from(g, nodes) {
        assert forall|l: int, n: int| 0 <= l < h.len() && 0 <= n < h[l].len() implies (
        #[trigger] h[l][n]).value is Blank || nodes.contains(h[l][n].value) by {
            let m = choose|m: int|
                0 <= m < g[l].len() && h[l][n].value == g[l][m].value && h[l][n].connections
                    == pruned_connections(g, g[l][m].connections);
            assert(g[l][m].value is Blank || nodes.contains(g[l][m].value));
        }
    }
    if links_from(g, links) {
        assert forall|l: int, n: int, k: int|
            0 <= l < h.len() && 0 <= n < h[l].len() && 0 <= k
                < h[l][n].connections.len() implies links.contains(
            (#[trigger] h[l][n].connections[k]).value,
        ) by {
            let m = choose|m: int|
                0 <= m < g[l].len() && h[l][n].value == g[l][m].value && h[l][n].connections
                    == pruned_connections(g, g[l][m].connections);
            let conns = g[l][m].connections;
            lemma_pruned_connections(g, conns);
            let j = choose|j: int|
                0 <= j < conns.len() && pruned_connections(g, conns)[k] == closed_up(g, conns[j]);
            assert(links.contains(g[l][m].connections[j].value));
        }
    }
}

/// Whether some node of `g` holds `v`.
pub open spec fn held_in(g: Layers, v: Node) -> bool {
    exists|l: int, n: int| 0 <= l < g.len() && 0 <= n < g[l].len() && (#[trigger] g[l][n]).value == v
}

/// Whether some connection of `g` carries `e`.
pub open spec fn carried_in(g: Layers, e: Edge) -> bool {
    exists|l: int, n: int, k: int|
        0 <= l < g.len() && 0 <= n < g[l].len() && 0 <= k < g[l][n].connections.len() && (
        #[trigger] g[l][n].connections[k]).value == e
}

/// Whether `v` is a neuron that `a` and `b` share, as one of them holds
/// it: both hold a neuron of its identity in the same hidden layer, and
/// `v` is the copy of `a` or the copy of `b`.
pub open spec fn shared_neuron(a: Layers, b: Layers, v: Node) -> bool {
    exists|x: GraphLocation, y: GraphLocation| #[trigger]
        item_fits(a, b, AlignedItem::Node(x, y)) && (v == node_at(a, x).value || v == node_at(
            b,
            y,
        ).value)
}

/// Whether `p` is a connection of `a` and `q` a connection of `b` between
/// neurons of the same identities: the neurons at their sources are the
/// same gene, and so are the neurons at their targets.
pub open spec fn linked_alike(a: Layers, b: Layers, p: ConnectionInfo, q: ConnectionInfo) -> bool {
    &&& has_edge(a, p.from, p.to)
    &&& has_edge(b, q.from, q.to)
    &&& has_node(a, p.to)
    &&& has_node(b, q.to)
    &&& same_gene(node_at(a, p.from).value, node_at(b, q.from).value)
    &&& same_gene(node_at(a, p.to).value, node_at(b, q.to).value)
}

/// Whether `e` is what a connection that `a` and `b` share carries in one
/// of them: both connect neurons of the same identities, and `e` is what
/// the connection of `a` carries or what the connection of `b` carries.
pub open spec fn shared_link(a: Layers, b: Layers, e: Edge) -> bool {
    exists|p: ConnectionInfo, q: ConnectionInfo| #[trigger]
        linked_alike(a, b, p, q) && (e == edge_between(a, p.from, p.to)->0.value || e
            == edge_between(b, q.from, q.to)->0.value)
}

/// The values that a crossover of `a` and `b` into `out` may leave in the
/// nodes of the child: those that `out` holds and the neurons that `a` and
/// `b` share.
pub open spec fn node_pool(a: Layers, b: Layers, out: Layers) -> Set<Node> {
    Set::new(|v: Node| held_in(out, v) || shared_neuron(a, b, v))
}

/// The values that a crossover of `a` and `b` into `out` may leave in the
/// connections of the child: those that `out` carries and those of the
/// connections that `a` and `b` share.
pub open spec fn link_pool(a: Layers, b: Layers, out: Layers) -> Set<Edge> {
    Set::new(|e: Edge| carried_in(out, e) || shared_link(a, b, e))
}

/// Placing shared neurons brings nothing else into the child.
proof fn lemma_nodes_placed_from(
    a: Layers,
    b: Layers,
    items: Seq<AlignedItem>,
    coins: Seq<bool>,
    out: Layers,
    n: int,
    nodes: Set<Node>,
    links: Set<Edge>,
)
    requires
        0 <= n <= items.len(),
        coins.len() == items.len(),
        items_fit(a, b, items),
        well_formed(out),
        nodes_from(out, nodes),
        links_from(out, links),
        forall|v: Node| shared_neuron(a, b, v) ==> nodes.contains(v),
    ensures
        well_formed(nodes_placed(a, b, items, coins, out, n).graph),
        nodes_from(nodes_placed(a, b, items, coins, out, n).graph, nodes),
        links_from(nodes_placed(a, b, items, coins, out, n).graph, links),
    decreases n,
{
    if n > 0 {
        lemma_nodes_placed_from(a, b, items, coins, out, n - 1, nodes, links);
        let st = nodes_placed(a, b, items, coins, out, n - 1);
        assert(item_fits(a, b, items[n - 1]));
        match items[n - 1] {
            AlignedItem::Node(x, y) => {
                let src = if coins[n - 1] {
                    a
                } else {
                    b
                };
                let loc = if coins[n - 1] {
                    x
                } else {
                    y
                };
                if st.failure is None && has_node(src, loc) && room_for(st.graph, loc) {
                    let value = node_at(src, loc).value;
                    assert(item_fits(a, b, AlignedItem::Node(x, y)));
                    assert(shared_neuron(a, b, value));
                    lemma_with_node_created(st.graph, loc, value);
                    lemma_with_node_created_from(st.graph, loc, value, nodes, links);
                }
            },
            AlignedItem::Edge { .. } => {},
        }
    }
}

/// Placing shared connections brings nothing else into the child.
proof fn lemma_edges_placed_from(
    a: Layers,
    b: Layers,
    items: Seq<AlignedItem>,
    coins: Seq<bool>,
    start: Crossing,
    n: int,
    nodes: Set<Node>,
    links: Set<Edge>,
)
    requires
        0 <= n <= items.len(),
        coins.len() == items.len(),
        items_fit(a, b, items),
        well_formed(start.graph),
        nodes_from(start.graph, nodes),
        links_from(start.graph, links),
        forall|e: Edge| shared_link(a, b, e) ==> links.contains(e),
    ensures
        well_formed(edges_placed(a, b, items, coins, start, n).graph),
        nodes_from(edges_placed(a, b, items, coins, start, n).graph, nodes),
        links_from(edges_placed(a, b, items, coins, start, n).graph, links),
    decreases n,
{
    if n > 0 {
        lemma_edges_placed_from(a, b, items, coins, start, n - 1, nodes, links);
        let st = edges_placed(a, b, items, coins, start, n - 1);
        assert(item_fits(a, b, items[n - 1]));
        match items[n - 1] {
            AlignedItem::Node(..) => {},
            AlignedItem::Edge { data, _type } => {
                let src = if coins[n - 1] {
                    a
                } else {
                    b
                };
                let conn = if coins[n - 1] {
                    data.0
                } else {
                    data.1
                };
                let ends = ends_of(st.moved, conn, _type);
                if st.failure is None && edge_between(src, conn.from, conn.to) is Some
                    && add_edge_outcome(st.graph, ends.0, ends.1) is Ok {
                    let value = edge_between(src, conn.from, conn.to)->0.value;
                    assert(linked_alike(a, b, data.0, data.1));
                    assert(shared_link(a, b, value));
                    lemma_with_edge_well_formed(st.graph, ends.0, ends.1, value);
                    lemma_with_edge_from(st.graph, ends.0, ends.1, value, nodes, links);
                }
            },
        }
    }
}

/// A crossover takes nothing but shared genes. Every node of the child is
/// a node that the child held before, or the copy that one parent holds of
/// a neuron that both hold in the same hidden layer; a neuron that only one
/// parent holds is not taken. Every connection of the child carries what a
/// connection of the child carried before, or what one parent's connection
/// carries where both parents connect neurons of the same two identities.
/// A crossover that succeeds leaves no placeholder.
pub proof fn lemma_crossover_inherits(
    a: Layers,
    b: Layers,
    out: Layers,
    coins: Seq<bool>,
    child: Layers,
    r: Result<(), ReproduceError>,
)
    requires
        addressable(a),
        addressable(b),
        well_formed(out),
        crossover_with(a, b, out, coins, child, r),
    ensures
        well_formed(child),
        nodes_from(child, node_pool(a, b, out)),
        links_from(child, link_pool(a, b, out)),
        r is Ok ==> no_blanks(child),
{
    let items = aligned(a, b);
    let nodes = node_pool(a, b, out);
    let links = link_pool(a, b, out);
    let n = items.len() as int;
    lemma_aligned_fits(a, b);
    assert forall|l: int, m: int| 0 <= l < out.len() && 0 <= m < out[l].len() implies nodes.contains(
        (#[trigger] out[l][m]).value,
    ) by {
        assert(held_in(out, out[l][m].value));
    }
    assert forall|l: int, m: int, k: int|
        0 <= l < out.len() && 0 <= m < out[l].len() && 0 <= k
            < out[l][m].connections.len() implies links.contains(
        (#[trigger] out[l][m].connections[k]).value,
    ) by {
        assert(carried_in(out, out[l][m].connections[k].value));
    }
    lemma_nodes_placed_from(a, b, items, coins, out, n, nodes, links);
    let placed = nodes_placed(a, b, items, coins, out, n);
    lemma_edges_placed_from(a, b, items, coins, placed, n, nodes, links);
    let st = edges_placed(a, b, items, coins, placed, n);
    if st.failure is None {
        lemma_pruned_well_formed(st.graph);
        lemma_pruned_from(st.graph, nodes, links);
        lemma_pruned(st.graph);
    }
}

/// A making of a child less its last round is a making of a child.
proof fn lemma_breeding_shortened<R: Reproducer, G: Generator>(
    a: Net,
    b: Net,
    strategies: Seq<R>,
    start: Net,
    gens: Seq<G>,
    rounds: Seq<Round>,
)
    requires
        is_breeding(a, b, strategies, start, gens, rounds),
        rounds.len() > 0,
    ensures
        is_breeding(a, b, strategies, start, gens.drop_last(), rounds.drop_last()),
        rounds.last().before == child_after(start, rounds.drop_last()),
{
    let fewer = rounds.drop_last();
    let states = gens.drop_last();
    assert forall|i: int| 0 <= i < fewer.len() implies {
        let t = #[trigger] fewer[i];
        &&& t.before == child_after(start, fewer.take(i))
        &&& states[i].gives(a.graph, b.graph, strategies.len() as usize, states[i + 1], Ok((t.idx, t.done)))
        &&& t.idx < strategies.len()
        &&& strategies[t.idx as int].yields(a, b, t.before, t.after, t.answer)
        &&& i < fewer.len() - 1 ==> t.answer is Ok && !t.done
    } by {
        assert(fewer[i] == rounds[i]);
        assert(fewer.take(i) =~= rounds.take(i));
    }
    assert(rounds.take(rounds.len() - 1) =~= fewer);
}

/// Rounds of crossover take nothing but shared genes: whatever the rounds
/// were, every node of the child they leave is a node of the child they
/// started from or the copy that one parent holds of a neuron that both
/// hold, and every connection carries what a connection of the first child
/// carried or what one parent's connection carries where both parents
/// connect neurons of the same two identities.
pub proof fn lemma_bred_inherits<G: Generator>(
    a: Net,
    b: Net,
    strategies: Seq<Crossover>,
    start: Net,
    gens: Seq<G>,
    rounds: Seq<Round>,
)
    requires
        addressable(a.graph@),
        addressable(b.graph@),
        well_formed(start.graph@),
        is_breeding(a, b, strategies, start, gens, rounds),
    ensures
        well_formed(child_after(start, rounds).graph@),
        nodes_from(child_after(start, rounds).graph@, node_pool(a.graph@, b.graph@, start.graph@)),
        links_from(child_after(start, rounds).graph@, link_pool(a.graph@, b.graph@, start.graph@)),
        rounds.len() > 0 && rounds.last().answer is Ok ==> no_blanks(
            child_after(start, rounds).graph@,
        ),
    decreases rounds.len(),
{
    let out = start.graph@;
    let nodes = node_pool(a.graph@, b.graph@, out);
    let links = link_pool(a.graph@, b.graph@, out);
    lemma_child_after(start, rounds);
    if rounds.len() == 0 {
        assert forall|l: int, m: int| 0 <= l < out.len() && 0 <= m < out[l].len() implies nodes.contains(
            (#[trigger] out[l][m]).value,
        ) by {
            assert(held_in(out, out[l][m].value));
        }
        assert forall|l: int, m: int, k: int|
            0 <= l < out.len() && 0 <= m < out[l].len() && 0 <= k
                < out[l][m].connections.len() implies links.contains(
            (#[trigger] out[l][m].connections[k]).value,
        ) by {
            assert(carried_in(out, out[l][m].connections[k].value));
        }
    } else {
        lemma_breeding_shortened(a, b, strategies, start, gens, rounds);
        lemma_bred_inherits(a, b, strategies, start, gens.drop_last(), rounds.drop_last());
        let t = rounds.last();
        let before = t.before.graph@;
        let after = t.after.graph@;
        assert(strategies[t.idx as int].yields(a, b, t.before, t.after, t.answer));
        let coins = choose|coins: Seq<bool>| #[trigger]
            crossover_with(a.graph@, b.graph@, before, coins, after, t.answer);
        lemma_crossover_inherits(a.graph@, b.graph@, before, coins, after, t.answer);
        assert forall|l: int, m: int| 0 <= l < after.len() && 0 <= m < after[l].len() implies (
        #[trigger] after[l][m]).value is Blank || nodes.contains(after[l][m].value) by {
            let v = after[l][m].value;
            if held_in(before, v) {
                let (p, q) = choose|p: int, q: int|
                    0 <= p < before.len() && 0 <= q < before[p].len() && (
                    #[trigger] before[p][q]).value == v;
                assert(before[p][q].value is Blank || nodes.contains(before[p][q].value));
            }
        }
        assert forall|l: int, m: int, k: int|
            0 <= l < after.len() && 0 <= m < after[l].len() && 0 <= k
                < after[l][m].connections.len() implies links.contains(
            (#[trigger] after[l][m].connections[k]).value,
        ) by {
            let e = after[l][m].connections[k].value;
            if carried_in(before, e) {
                let (p, q, j) = choose|p: int, q: int, j: int|
                    0 <= p < before.len() && 0 <= q < before[p].len() && 0 <= j
                        < before[p][q].connections.len() && (
                    #[trigger] before[p][q].connections[j]).value == e;
                assert(links.contains(before[p][q].connections[j].value));
            }
        }
    }
}

/// The child of two parents that was made by crossover has nothing but
/// the input and output nodes of the first parent and genes that both
/// parents have. Every node of the child holds what an input or output
/// node of the first parent holds, or is the copy that one parent holds of
/// a neuron that both hold in the same hidden layer: a neuron that only one
/// parent holds is not in the child. Every connection of the child carries
/// what one parent's connection carries where both parents connect neurons
/// of the same two identities. No node of the child is a placeholder.
pub proof fn lemma_child_inherits<G: Generator>(
    a: Net,
    b: Net,
    strategies: Seq<Crossover>,
    generator: G,
    child: Net,
)
    requires
        addressable(a.graph@),
        addressable(b.graph@),
        reproduced(a, b, strategies, generator, Ok::<Net, ReproduceError>(child)),
    ensures
        a.input_layer < a.graph@.len(),
        a.output_layer < a.graph@.len(),
        no_blanks(child.graph@),
        forall|l: int, n: int|
            0 <= l < child.graph@.len() && 0 <= n < child.graph@[l].len() ==> {
                let v = (#[trigger] child.graph@[l][n]).value;
                ||| held_in(
                    basic_layers(a.graph@[a.input_layer as int], a.graph@[a.output_layer as int]),
                    v,
                )
                ||| shared_neuron(a.graph@, b.graph@, v)
            },
        forall|l: int, n: int, k: int|
            0 <= l < child.graph@.len() && 0 <= n < child.graph@[l].len() && 0 <= k
                < child.graph@[l][n].connections.len() ==> shared_link(
                a.graph@,
                b.graph@,
                (#[trigger] child.graph@[l][n].connections[k]).value,
            ),
{
    let r = Ok::<Net, ReproduceError>(child);
    let (start, gens, rounds, stopped, named) = choose|
        start: Net,
        gens: Seq<G>,
        rounds: Seq<Round>,
        stopped: G,
        named: (usize, bool),
    |
        {
            &&& is_basic_of(a, start)
            &&& #[trigger] is_breeding(a, b, strategies, start, gens, rounds)
            &&& gens[0] == generator
            &&& #[trigger] breeding_ends(a, b, strategies, start, gens, rounds, stopped, named, r)
        };
    let inputs = a.graph@[a.input_layer as int];
    let outputs = a.graph@[a.output_layer as int];
    let basic = basic_layers(inputs, outputs);
    lemma_basic_well_formed(inputs, outputs);
    lemma_bred_inherits(a, b, strategies, start, gens, rounds);
    lemma_child_after(start, rounds);
    let g = child.graph@;
    assert(g == child_after(start, rounds).graph@);
    let nodes = node_pool(a.graph@, b.graph@, basic);
    let links = link_pool(a.graph@, b.graph@, basic);
    assert forall|l: int, n: int| 0 <= l < g.len() && 0 <= n < g[l].len() implies held_in(
        basic,
        (#[trigger] g[l][n]).value,
    ) || shared_neuron(a.graph@, b.graph@, g[l][n].value) by {
        assert(g[l][n].value is Blank || nodes.contains(g[l][n].value));
    }
    assert forall|l: int, n: int, k: int|
        0 <= l < g.len() && 0 <= n < g[l].len() && 0 <= k
            < g[l][n].connections.len() implies shared_link(
        a.graph@,
        b.graph@,
        (#[trigger] g[l][n].connections[k]).value,
    ) by {
        let e = g[l][n].connections[k].value;
        assert(links.contains(e));
        if carried_in(basic, e) {
            let (p, q, j) = choose|p: int, q: int, j: int|
                0 <= p < basic.len() && 0 <= q < basic[p].len() && 0 <= j
                    < basic[p][q].connections.len() && (#[trigger] basic[p][q].connections[j]).value
                    == e;
            assert(basic[p][q].connections.len() == 0);
        }
    }
}

} // verus!
