//! Which neurons a crossover leaves in the child: one for each neuron that
//! the parents share, the copy of the parent that the coin picked.
use vstd::multiset::Multiset;
use vstd::prelude::*;
use crate::nn::add_edge_outcome;
use crate::nn::addressable;
use crate::nn::edge_between;
use crate::nn::has_node;
use crate::nn::layers::grown;
use crate::nn::layers::lemma_grown;
use crate::nn::layers::lemma_with_node_created;
use crate::nn::layers::opening;
use crate::nn::layers::padded;
use crate::nn::layers::rewired_row;
use crate::nn::layers::room_for;
use crate::nn::layers::well_formed;
use crate::nn::layers::with_layer_at;
use crate::nn::layers::with_node_created;
use crate::nn::layers::Rewire;
use crate::nn::node_at;
use crate::nn::prune::pruned;
use crate::nn::prune::pruned_row;
use crate::nn::reproduce::breeding_ends;
use crate::nn::reproduce::crossover_with;
use crate::nn::reproduce::is_basic_of;
use crate::nn::reproduce::is_breeding;
use crate::nn::reproduce::lemma_basic_well_formed;
use crate::nn::reproduce::lemma_child_after;
use crate::nn::reproduce::reproduced;
use crate::nn::reproduce::Crossover;
use crate::nn::reproduce::DefaultIterator;
use crate::nn::reproduce::Generator;
use crate::nn::reproduce::Reproducer;
use crate::nn::reproduce::Round;
use crate::nn::synth::basic_layers;
use crate::nn::reproduce::edges_placed;
use crate::nn::reproduce::ends_of;
use crate::nn::reproduce::lemma_with_edge_well_formed;
use crate::nn::reproduce::nodes_placed;
use crate::nn::reproduce::Crossing;
use crate::nn::reproduce::ReproduceError;
use crate::nn::util::aligned;
use crate::nn::util::aligned_upto;
use crate::nn::util::arriving_at;
use crate::nn::util::as_items;
use crate::nn::util::compared_layers;
use crate::nn::util::layer_items;
use crate::nn::util::leaving_layer;
use crate::nn::util::leaving_with_targets;
use crate::nn::util::node_items;
use crate::nn::util::pair_items;
use crate::nn::util::paired;
use crate::nn::util::same_gene;
use crate::nn::util::ConnectionInfo;
use crate::nn::util::EdgeType;
use crate::nn::util::item_fits;
use crate::nn::util::items_fit;
use crate::nn::util::lemma_aligned_fits;
use crate::nn::util::AlignedItem;
use crate::nn::with_edge;
use crate::nn::Edge;
use crate::nn::GraphLocation;
use crate::nn::GraphNodeView;
use crate::nn::GraphSize;
use crate::nn::Layers;
use crate::nn::Net;
use crate::nn::Node;
use crate::nn::GRAPH_LIMIT;

verus! {

/// What the node `node` holds, unless it is a placeholder.
pub open spec fn held(node: GraphNodeView) -> Multiset<Node> {
    if node.value is Blank {
        Multiset::empty()
    } else {
        Multiset::singleton(node.value)
    }
}

/// What the first `n` nodes of `row` hold, placeholders left out, each
/// value as often as it is held.
pub open spec fn row_census(row: Seq<GraphNodeView>, n: int) -> Multiset<Node>
    decreases n,
{
    if n <= 0 {
        Multiset::empty()
    } else {
        row_census(row, n - 1).add(held(row[n - 1]))
    }
}

/// What the nodes of the first `n` layers of `g` hold, placeholders left
/// out, each value as often as it is held.
pub open spec fn census_upto(g: Layers, n: int) -> Multiset<Node>
    decreases n,
{
    if n <= 0 {
        Multiset::empty()
    } else {
        census_upto(g, n - 1).add(row_census(g[n - 1], g[n - 1].len() as int))
    }
}

/// What the nodes of `g` hold, placeholders left out, each value as often
/// as it is held.
pub open spec fn census(g: Layers) -> Multiset<Node> {
    census_upto(g, g.len() as int)
}

/// What the gene `item` gives to a child where the coin is `coin`: for a
/// shared neuron the copy of the first parent where the coin says so, else
/// the copy of the second; for a shared connection no neuron.
pub open spec fn copy_of(a: Layers, b: Layers, item: AlignedItem, coin: bool) -> Multiset<Node> {
    match item {
        AlignedItem::Node(x, y) => Multiset::singleton(
            if coin {
                node_at(a, x).value
            } else {
                node_at(b, y).value
            },
        ),
        AlignedItem::Edge { .. } => Multiset::empty(),
    }
}

/// What the first `n` genes of `items` give to a child, with coin `i`
/// deciding for gene `i`.
pub open spec fn copies(a: Layers, b: Layers, items: Seq<AlignedItem>, coins: Seq<bool>, n: int) -> Multiset<
    Node,
>
    decreases n,
{
    if n <= 0 {
        Multiset::empty()
    } else {
        copies(a, b, items, coins, n - 1).add(copy_of(a, b, items[n - 1], coins[n - 1]))
    }
}

/// Layers that hold the same values in the same places hold the same.
proof fn lemma_rows_alike(r1: Seq<GraphNodeView>, r2: Seq<GraphNodeView>, n: int)
    requires
        n <= r1.len(),
        r1.len() == r2.len(),
        forall|i: int| 0 <= i < r1.len() ==> (#[trigger] r1[i]).value == r2[i].value,
    ensures
        row_census(r1, n) == row_census(r2, n),
    decreases n,
{
    if n > 0 {
        lemma_rows_alike(r1, r2, n - 1);
        assert(r1[n - 1].value == r2[n - 1].value);
    }
}

/// Padding a layer adds placeholders only.
proof fn lemma_row_padded(row: Seq<GraphNodeView>, len: int, n: int)
    requires
        0 <= n <= padded(row, len).len(),
    ensures
        row_census(padded(row, len), n) == if n <= row.len() {
            row_census(row, n)
        } else {
            row_census(row, row.len() as int)
        },
    decreases n,
{
    if n > 0 {
        lemma_row_padded(row, len, n - 1);
        let more = padded(row, len);
        if n - 1 < row.len() {
            assert(more[n - 1] == row[n - 1]);
        } else {
            assert(more[n - 1].value is Blank);
            assert(row_census(more, n - 1).add(Multiset::empty()) =~= row_census(more, n - 1));
        }
    }
}

/// A node that is inserted into a layer is held once more, and the nodes
/// behind it are held as before.
proof fn lemma_row_inserted(row: Seq<GraphNodeView>, at: int, node: GraphNodeView, n: int)
    requires
        0 <= at <= row.len(),
        0 <= n <= row.len() + 1,
    ensures
        row_census(row.insert(at, node), n) == if n <= at {
            row_census(row, n)
        } else {
            row_census(row, n - 1).add(held(node))
        },
    decreases n,
{
    if n > 0 {
        lemma_row_inserted(row, at, node, n - 1);
        let more = row.insert(at, node);
        if n - 1 < at {
            assert(more[n - 1] == row[n - 1]);
        } else if n - 1 > at {
            assert(more[n - 1] == row[n - 2]);
            assert(row_census(row, n - 2).add(held(node)).add(held(row[n - 2])) =~= row_census(
                row,
                n - 2,
            ).add(held(row[n - 2])).add(held(node)));
        } else {
            assert(more[n - 1] == node);
        }
    }
}

/// Replacing a layer by one that holds `extra` besides what the layer held
/// adds `extra` to what the graph holds.
proof fn lemma_census_update(
    g: Layers,
    l: int,
    row: Seq<GraphNodeView>,
    extra: Multiset<Node>,
    n: int,
)
    requires
        0 <= l < g.len(),
        0 <= n <= g.len(),
        row_census(row, row.len() as int) == row_census(g[l], g[l].len() as int).add(extra),
    ensures
        census_upto(g.update(l, row), n) == if l < n {
            census_upto(g, n).add(extra)
        } else {
            census_upto(g, n)
        },
    decreases n,
{
    if n > 0 {
        lemma_census_update(g, l, row, extra, n - 1);
        let h = g.update(l, row);
        let last = row_census(g[n - 1], g[n - 1].len() as int);
        if l < n - 1 {
            assert(h[n - 1] == g[n - 1]);
            assert(census_upto(g, n - 1).add(extra).add(last) =~= census_upto(g, n - 1).add(
                last,
            ).add(extra));
        } else if l == n - 1 {
            assert(h[n - 1] == row);
            assert(census_upto(g, n - 1).add(last.add(extra)) =~= census_upto(g, n - 1).add(
                last,
            ).add(extra));
        } else {
            assert(h[n - 1] == g[n - 1]);
        }
    }
}

/// Graphs whose layers hold the same hold the same in all.
proof fn lemma_census_alike(g: Layers, h: Layers, n: int)
    requires
        0 <= n <= g.len(),
        g.len() == h.len(),
        forall|l: int|
            0 <= l < g.len() ==> row_census(#[trigger] g[l], g[l].len() as int) == row_census(
                h[l],
                h[l].len() as int,
            ),
    ensures
        census_upto(g, n) == census_upto(h, n),
    decreases n,
{
    if n > 0 {
        lemma_census_alike(g, h, n - 1);
        assert(row_census(g[n - 1], g[n - 1].len() as int) == row_census(
            h[n - 1],
            h[n - 1].len() as int,
        ));
    }
}

/// Opening a layer leaves what the graph holds as it is.
proof fn lemma_with_layer_at_census(g: Layers, p: GraphSize, n: int)
    requires
        p <= g.len(),
        0 <= n <= g.len() + 1,
    ensures
        with_layer_at(g, p).len() == g.len() + 1,
        census_upto(with_layer_at(g, p), n) == if n <= p {
            census_upto(g, n)
        } else {
            census_upto(g, n - 1)
        },
    decreases n,
{
    let h = with_layer_at(g, p);
    let how = Rewire::Lift { at: p };
    if n > 0 {
        lemma_with_layer_at_census(g, p, n - 1);
        let l = n - 1;
        if l != p {
            let src = if l < p {
                l
            } else {
                l - 1
            };
            assert(h[l] == rewired_row(g[src], how));
            lemma_rows_alike(h[l], g[src], g[src].len() as int);
        } else {
            assert(h[l].len() == 0);
            assert(census_upto(h, n - 1).add(Multiset::empty()) =~= census_upto(h, n - 1));
        }
    }
}

/// Growing a graph leaves what it holds as it is.
proof fn lemma_grown_census(g: Layers, at: GraphSize)
    ensures
        census(grown(g, at)) == census(g),
    decreases at + 2 - g.len(),
{
    if at + 2 > g.len() {
        let p = opening(g, at);
        lemma_with_layer_at_census(g, p, g.len() as int + 1);
        lemma_grown_census(with_layer_at(g, p), at);
    }
}

/// Creating a node adds its value, once, to what the graph holds, unless
/// it is a placeholder.
proof fn lemma_with_node_created_census(g: Layers, loc: GraphLocation, value: Node)
    requires
        well_formed(g),
        room_for(g, loc),
    ensures
        census(with_node_created(g, loc, value)) == census(g).add(
            held(GraphNodeView { value, connections: Seq::empty() }),
        ),
{
    lemma_grown(g, loc.layer);
    lemma_grown_census(g, loc.layer);
    let g1 = grown(g, loc.layer);
    let old_row = g1[loc.layer as int];
    let row = padded(old_row, loc.node as int);
    let node = GraphNodeView { value, connections: Seq::empty() };
    let new_row = row.insert(loc.node as int, node);
    lemma_row_padded(old_row, loc.node as int, row.len() as int);
    lemma_row_inserted(row, loc.node as int, node, row.len() as int + 1);
    lemma_census_update(g1, loc.layer as int, new_row, held(node), g1.len() as int);
}

/// Adding a connection leaves what the graph holds as it is.
proof fn lemma_with_edge_census(g: Layers, from: GraphLocation, to: GraphLocation, value: Edge)
    requires
        has_node(g, from),
    ensures
        census(with_edge(g, from, to, value)) == census(g),
{
    let h = with_edge(g, from, to, value);
    assert forall|l: int| 0 <= l < g.len() implies row_census(#[trigger] g[l], g[l].len() as int)
        == row_census(h[l], h[l].len() as int) by {
        lemma_rows_alike(g[l], h[l], g[l].len() as int);
    }
    lemma_census_alike(g, h, g.len() as int);
}

/// What a layer holds does not depend on the nodes behind those counted.
proof fn lemma_row_prefix(row: Seq<GraphNodeView>, n: int)
    requires
        0 <= n < row.len(),
    ensures
        row_census(row.drop_last(), n) == row_census(row, n),
    decreases n,
{
    if n > 0 {
        lemma_row_prefix(row, n - 1);
    }
}

/// A pruned layer holds what the layer held.
proof fn lemma_pruned_row_census(g: Layers, row: Seq<GraphNodeView>)
    ensures
        row_census(pruned_row(g, row), pruned_row(g, row).len() as int) == row_census(
            row,
            row.len() as int,
        ),
    decreases row.len(),
{
    if row.len() > 0 {
        let init = row.drop_last();
        lemma_pruned_row_census(g, init);
        lemma_row_prefix(row, init.len() as int);
        let out = pruned_row(g, row);
        let inner = pruned_row(g, init);
        let m = init.len() as int;
        assert(row_census(row, m + 1) == row_census(row, m).add(held(row[m])));
        if row.last().value is Blank {
            assert(row_census(row, m).add(Multiset::empty()) =~= row_census(row, m));
        } else {
            let k = inner.len() as int;
            assert(out.drop_last() =~= inner);
            lemma_row_prefix(out, k);
            assert(row_census(out, k + 1) == row_census(out, k).add(held(out[k])));
            assert(held(out[k]) == held(row[m]));
        }
    }
}

/// Pruning leaves what the graph holds as it is.
proof fn lemma_pruned_census(g: Layers)
    ensures
        census(pruned(g)) == census(g),
{
    let h = pruned(g);
    assert forall|l: int| 0 <= l < g.len() implies row_census(#[trigger] g[l], g[l].len() as int)
        == row_census(h[l], h[l].len() as int) by {
        assert(h[l] == pruned_row(g, g[l]));
        lemma_pruned_row_census(g, g[l]);
    }
    lemma_census_alike(g, h, g.len() as int);
}

/// Placing shared neurons adds to the child, for each of them, the copy
/// that the coin picked.
proof fn lemma_nodes_placed_census(
    a: Layers,
    b: Layers,
    items: Seq<AlignedItem>,
    coins: Seq<bool>,
    out: Layers,
    n: int,
)
    requires
        0 <= n <= items.len(),
        coins.len() == items.len(),
        items_fit(a, b, items),
        well_formed(out),
    ensures
        well_formed(nodes_placed(a, b, items, coins, out, n).graph),
        nodes_placed(a, b, items, coins, out, n).failure is None ==> census(
            nodes_placed(a, b, items, coins, out, n).graph,
        ) == census(out).add(copies(a, b, items, coins, n)),
    decreases n,
{
    if n > 0 {
        lemma_nodes_placed_census(a, b, items, coins, out, n - 1);
        let st = nodes_placed(a, b, items, coins, out, n - 1);
        let before = copies(a, b, items, coins, n - 1);
        let more = copy_of(a, b, items[n - 1], coins[n - 1]);
        assert(item_fits(a, b, items[n - 1]));
        assert(census(out).add(before).add(more) =~= census(out).add(before.add(more)));
        match items[n - 1] {
            AlignedItem::Node(x, y) => {
                let src = if coins[n - 1] {
                    a
                } else {
                    b
                };
                let loc = if coins[n - 1] {
                    x
                } else {
                    y
                };
                if st.failure is None && has_node(src, loc) && room_for(st.graph, loc) {
                    let value = node_at(src, loc).value;
                    lemma_with_node_created(st.graph, loc, value);
                    lemma_with_node_created_census(st.graph, loc, value);
                }
            },
            AlignedItem::Edge { .. } => {
                assert(census(out).add(before).add(Multiset::empty()) =~= census(out).add(before));
            },
        }
    }
}

/// Placing shared connections leaves what the child holds as it is.
proof fn lemma_edges_placed_census(
    a: Layers,
    b: Layers,
    items: Seq<AlignedItem>,
    coins: Seq<bool>,
    start: Crossing,
    n: int,
)
    requires
        0 <= n <= items.len(),
        coins.len() == items.len(),
        well_formed(start.graph),
    ensures
        well_formed(edges_placed(a, b, items, coins, start, n).graph),
        census(edges_placed(a, b, items, coins, start, n).graph) == census(start.graph),
        edges_placed(a, b, items, coins, start, n).failure is None ==> start.failure is None,
    decreases n,
{
    if n > 0 {
        lemma_edges_placed_census(a, b, items, coins, start, n - 1);
        let st = edges_placed(a, b, items, coins, start, n - 1);
        match items[n - 1] {
            AlignedItem::Node(..) => {},
            AlignedItem::Edge { data, _type } => {
                let src = if coins[n - 1] {
                    a
                } else {
                    b
                };
                let conn = if coins[n - 1] {
                    data.0
                } else {
                    data.1
                };
                let ends = ends_of(st.moved, conn, _type);
                if st.failure is None && edge_between(src, conn.from, conn.to) is Some
                    && add_edge_outcome(st.graph, ends.0, ends.1) is Ok {
                    let value = edge_between(src, conn.from, conn.to)->0.value;
                    lemma_with_edge_well_formed(st.graph, ends.0, ends.1, value);
                    lemma_with_edge_census(st.graph, ends.0, ends.1, value);
                }
            },
        }
    }
}

/// A crossover that succeeds leaves in the child one copy of each neuron
/// that is among the shared genes, and no other node: what the nodes of the
/// child hold is what they held before and, once for each shared neuron,
/// the copy of the first parent where the coin says so, else the copy of
/// the second.
pub proof fn lemma_crossover_census(
    a: Layers,
    b: Layers,
    out: Layers,
    coins: Seq<bool>,
    child: Layers,
    r: Result<(), ReproduceError>,
)
    requires
        addressable(a),
        addressable(b),
        well_formed(out),
        crossover_with(a, b, out, coins, child, r),
        r is Ok,
    ensures
        census(child) == census(out).add(
            copies(a, b, aligned(a, b), coins, aligned(a, b).len() as int),
        ),
{
    let items = aligned(a, b);
    let n = items.len() as int;
    lemma_aligned_fits(a, b);
    lemma_nodes_placed_census(a, b, items, coins, out, n);
    let placed = nodes_placed(a, b, items, coins, out, n);
    lemma_edges_placed_census(a, b, items, coins, placed, n);
    let st = edges_placed(a, b, items, coins, placed, n);
    lemma_pruned_census(st.graph);
}

/// Whether the gene `p` is listed in front of the gene `q` by rights, if
/// both are shared neurons: `p` stands in an earlier layer of the first
/// parent, or in the same layer at an earlier index, or at the same place
/// and at an earlier index of the second parent.
pub open spec fn comes_before(p: AlignedItem, q: AlignedItem) -> bool {
    match (p, q) {
        (AlignedItem::Node(x1, y1), AlignedItem::Node(x2, y2)) => {
            ||| x1.layer < x2.layer
            ||| x1.layer == x2.layer && x1.node < x2.node
            ||| x1.layer == x2.layer && x1.node == x2.node && y1.node < y2.node
        },
        _ => true,
    }
}

/// Whether the shared neurons among `items` are listed in the order of
/// their places.
pub open spec fn in_order(items: Seq<AlignedItem>) -> bool {
    forall|i: int, j: int|
        0 <= i < j < items.len() ==> comes_before(#[trigger] items[i], #[trigger] items[j])
}

/// Genes in order that are followed by genes in order are in order, where
/// each of the first comes before each of the second.
proof fn lemma_in_order_append(s1: Seq<AlignedItem>, s2: Seq<AlignedItem>)
    requires
        in_order(s1),
        in_order(s2),
        forall|i: int, j: int|
            0 <= i < s1.len() && 0 <= j < s2.len() ==> comes_before(
                #[trigger] s1[i],
                #[trigger] s2[j],
            ),
    ensures
        in_order(s1 + s2),
{
    let s = s1 + s2;
    assert forall|i: int, j: int| 0 <= i < j < s.len() implies comes_before(
        #[trigger] s[i],
        #[trigger] s[j],
    ) by {
        if j < s1.len() {
            assert(s[i] == s1[i] && s[j] == s1[j]);
        } else if i < s1.len() {
            assert(s[i] == s1[i] && s[j] == s2[j - s1.len()]);
        } else {
            assert(s[i] == s2[i - s1.len()] && s[j] == s2[j - s1.len()]);
        }
    }
}

/// What two nodes have in common holds at most one shared neuron: the
/// pair of them, in front of everything else.
proof fn lemma_pair_once(
    a: Layers,
    b: Layers,
    a_prev: Seq<ConnectionInfo>,
    b_prev: Seq<ConnectionInfo>,
    a_loc: GraphLocation,
    b_loc: GraphLocation,
)
    ensures
        forall|i: int|
            0 <= i < pair_items(a, b, a_prev, b_prev, a_loc, b_loc).len() && (#[trigger] pair_items(
                a,
                b,
                a_prev,
                b_prev,
                a_loc,
                b_loc,
            )[i]) is Node ==> i == 0 && pair_items(a, b, a_prev, b_prev, a_loc, b_loc)[i]
                == AlignedItem::Node(a_loc, b_loc),
{
    let items = pair_items(a, b, a_prev, b_prev, a_loc, b_loc);
    if same_gene(node_at(a, a_loc).value, node_at(b, b_loc).value) {
        let incoming = paired(arriving_at(a_prev, a_loc), arriving_at(b_prev, b_loc));
        let outgoing = paired(
            leaving_with_targets(a, a_loc, node_at(a, a_loc).connections),
            leaving_with_targets(b, b_loc, node_at(b, b_loc).connections),
        );
        let head = if incoming.len() > 0 || outgoing.len() > 0 {
            seq![AlignedItem::Node(a_loc, b_loc)]
        } else {
            Seq::empty()
        };
        let first = head + as_items(incoming, EdgeType::Incoming);
        assert forall|i: int| 0 <= i < items.len() && (#[trigger] items[i]) is Node implies i == 0
            && items[i] == AlignedItem::Node(a_loc, b_loc) by {
            if i < head.len() {
                assert(items[i] == head[i]);
            } else if i < first.len() {
                assert(items[i] == as_items(incoming, EdgeType::Incoming)[i - head.len()]);
            } else {
                assert(items[i] == as_items(outgoing, EdgeType::Outgoing)[i - first.len()]);
            }
        }
    }
}

/// What one node has in common with the nodes of a layer lists each pair
/// once, in the order of the second parent's nodes.
proof fn lemma_node_once(
    a: Layers,
    b: Layers,
    a_prev: Seq<ConnectionInfo>,
    b_prev: Seq<ConnectionInfo>,
    layer: GraphSize,
    a_idx: GraphSize,
    b_count: int,
)
    requires
        0 <= b_count <= GRAPH_LIMIT,
    ensures
        in_order(node_items(a, b, a_prev, b_prev, layer, a_idx, b_count)),
        forall|i: int|
            0 <= i < node_items(a, b, a_prev, b_prev, layer, a_idx, b_count).len() ==> match (
            #[trigger] node_items(a, b, a_prev, b_prev, layer, a_idx, b_count)[i]) {
                AlignedItem::Node(x, y) => x == (GraphLocation { layer, node: a_idx }) && y.node
                    < b_count,
                AlignedItem::Edge { .. } => true,
            },
    decreases b_count,
{
    if b_count > 0 {
        lemma_node_once(a, b, a_prev, b_prev, layer, a_idx, b_count - 1);
        let a_loc = GraphLocation { layer, node: a_idx };
        let b_loc = GraphLocation { layer, node: (b_count - 1) as GraphSize };
        lemma_pair_once(a, b, a_prev, b_prev, a_loc, b_loc);
        let s1 = node_items(a, b, a_prev, b_prev, layer, a_idx, b_count - 1);
        let s2 = pair_items(a, b, a_prev, b_prev, a_loc, b_loc);
        let s = node_items(a, b, a_prev, b_prev, layer, a_idx, b_count);
        assert(s == s1 + s2);
        assert(in_order(s2)) by {
            assert forall|i: int, j: int| 0 <= i < j < s2.len() implies comes_before(
                #[trigger] s2[i],
                #[trigger] s2[j],
            ) by {
                if s2[j] is Node {
                    assert(j == 0);
                }
            }
        }
        assert forall|i: int, j: int| 0 <= i < s1.len() && 0 <= j < s2.len() implies comes_before(
            #[trigger] s1[i],
            #[trigger] s2[j],
        ) by {
            if s1[i] is Node && s2[j] is Node {
                assert(s2[j] == AlignedItem::Node(a_loc, b_loc));
            }
        }
        lemma_in_order_append(s1, s2);
        assert forall|i: int| 0 <= i < s.len() implies match #[trigger] s[i] {
            AlignedItem::Node(x, y) => x == a_loc && y.node < b_count,
            AlignedItem::Edge { .. } => true,
        } by {
            if i < s1.len() {
                assert(s[i] == s1[i]);
            } else {
                assert(s[i] == s2[i - s1.len()]);
                if s[i] is Node {
                    assert(s2[i - s1.len()] == AlignedItem::Node(a_loc, b_loc));
                }
            }
        }
    }
}

/// What the nodes of a layer have in common with the nodes of a layer
/// lists each pair once, in the order of the first parent's nodes.
proof fn lemma_layer_once(
    a: Layers,
    b: Layers,
    a_prev: Seq<ConnectionInfo>,
    b_prev: Seq<ConnectionInfo>,
    layer: GraphSize,
    a_count: int,
)
    requires
        0 <= a_count <= GRAPH_LIMIT,
        layer < b.len(),
        b[layer as int].len() <= GRAPH_LIMIT,
    ensures
        in_order(layer_items(a, b, a_prev, b_prev, layer, a_count)),
        forall|i: int|
            0 <= i < layer_items(a, b, a_prev, b_prev, layer, a_count).len() ==> match (
            #[trigger] layer_items(a, b, a_prev, b_prev, layer, a_count)[i]) {
                AlignedItem::Node(x, y) => x.layer == layer && x.node < a_count,
                AlignedItem::Edge { .. } => true,
            },
    decreases a_count,
{
    if a_count > 0 {
        lemma_layer_once(a, b, a_prev, b_prev, layer, a_count - 1);
        let a_idx = (a_count - 1) as GraphSize;
        let width = b[layer as int].len() as int;
        lemma_node_once(a, b, a_prev, b_prev, layer, a_idx, width);
        let s1 = layer_items(a, b, a_prev, b_prev, layer, a_count - 1);
        let s2 = node_items(a, b, a_prev, b_prev, layer, a_idx, width);
        let s = layer_items(a, b, a_prev, b_prev, layer, a_count);
        assert(s == s1 + s2);
        lemma_in_order_append(s1, s2);
        assert forall|i: int| 0 <= i < s.len() implies match #[trigger] s[i] {
            AlignedItem::Node(x, y) => x.layer == layer && x.node < a_count,
            AlignedItem::Edge { .. } => true,
        } by {
            if i < s1.len() {
                assert(s[i] == s1[i]);
            } else {
                assert(s[i] == s2[i - s1.len()]);
            }
        }
    }
}

/// What the leading layers of two graphs have in common lists each pair of
/// nodes once, layer by layer.
proof fn lemma_aligned_upto_once(a: Layers, b: Layers, upto: int)
    requires
        addressable(a),
        addressable(b),
        upto <= a.len(),
        upto <= b.len(),
    ensures
        in_order(aligned_upto(a, b, upto)),
        forall|i: int|
            0 <= i < aligned_upto(a, b, upto).len() ==> match #[trigger] aligned_upto(a, b, upto)[i] {
                AlignedItem::Node(x, y) => x.layer < upto,
                AlignedItem::Edge { .. } => true,
            },
    decreases upto,
{
    if upto > 1 {
        let l = upto - 1;
        lemma_aligned_upto_once(a, b, l);
        let a_prev = leaving_layer(a[l - 1], (l - 1) as GraphSize, a[l - 1].len() as int);
        let b_prev = leaving_layer(b[l - 1], (l - 1) as GraphSize, b[l - 1].len() as int);
        lemma_layer_once(a, b, a_prev, b_prev, l as GraphSize, a[l].len() as int);
        let s1 = aligned_upto(a, b, l);
        let s2 = layer_items(a, b, a_prev, b_prev, l as GraphSize, a[l].len() as int);
        let s = aligned_upto(a, b, upto);
        assert(s == s1 + s2);
        lemma_in_order_append(s1, s2);
        assert forall|i: int| 0 <= i < s.len() implies match #[trigger] s[i] {
            AlignedItem::Node(x, y) => x.layer < upto,
            AlignedItem::Edge { .. } => true,
        } by {
            if i < s1.len() {
                assert(s[i] == s1[i]);
            } else {
                assert(s[i] == s2[i - s1.len()]);
            }
        }
    }
}

/// No shared neuron is listed twice: the pairs of nodes among the genes
/// that two graphs share are listed in the order of their places, so that
/// no two of them are the same pair.
pub proof fn lemma_aligned_once(a: Layers, b: Layers)
    requires
        addressable(a),
        addressable(b),
    ensures
        in_order(aligned(a, b)),
        forall|i: int, j: int|
            0 <= i < j < aligned(a, b).len() && (#[trigger] aligned(a, b)[i]) is Node ==> aligned(
                a,
                b,
            )[i] != #[trigger] aligned(a, b)[j],
{
    if !(a.len() == 2 || b.len() == 2) {
        lemma_aligned_upto_once(a, b, compared_layers(a, b));
    }
    let s = aligned(a, b);
    assert forall|i: int, j: int| 0 <= i < j < s.len() && (#[trigger] s[i]) is Node implies s[i]
        != #[trigger] s[j] by {
        assert(comes_before(s[i], s[j]));
    }
}

/// Whether the nodes of `child` hold what the nodes of `basic` hold and,
/// once for each neuron among the genes that `a` and `b` share, the copy
/// that the coins `coins` pick, one coin for each gene.
pub open spec fn holds_copies(a: Layers, b: Layers, basic: Layers, coins: Seq<bool>, child: Layers) -> bool {
    &&& coins.len() == aligned(a, b).len()
    &&& census(child) == census(basic).add(
        copies(a, b, aligned(a, b), coins, aligned(a, b).len() as int),
    )
}

/// The child that one crossover makes of two parents holds the input and
/// output nodes of the first parent and exactly one copy of each neuron
/// that is among their shared genes: for some coins, one for each gene,
/// the copy of the first parent where the coin says so, else the copy of
/// the second.
pub proof fn lemma_child_census(
    a: Net,
    b: Net,
    strategies: Seq<Crossover>,
    generator: DefaultIterator,
    child: Net,
)
    requires
        addressable(a.graph@),
        addressable(b.graph@),
        strategies.len() == 1,
        generator.0 == 0,
        reproduced(a, b, strategies, generator, Ok::<Net, ReproduceError>(child)),
    ensures
        a.input_layer < a.graph@.len(),
        a.output_layer < a.graph@.len(),
        exists|coins: Seq<bool>| #[trigger]
            holds_copies(
                a.graph@,
                b.graph@,
                basic_layers(a.graph@[a.input_layer as int], a.graph@[a.output_layer as int]),
                coins,
                child.graph@,
            ),
{
    let r = Ok::<Net, ReproduceError>(child);
    let (start, gens, rounds, stopped, named) = choose|
        start: Net,
        gens: Seq<DefaultIterator>,
        rounds: Seq<Round>,
        stopped: DefaultIterator,
        named: (usize, bool),
    |
        {
            &&& is_basic_of(a, start)
            &&& #[trigger] is_breeding(a, b, strategies, start, gens, rounds)
            &&& gens[0] == generator
            &&& #[trigger] breeding_ends(a, b, strategies, start, gens, rounds, stopped, named, r)
        };
    let inputs = a.graph@[a.input_layer as int];
    let outputs = a.graph@[a.output_layer as int];
    let basic = basic_layers(inputs, outputs);
    lemma_basic_well_formed(inputs, outputs);
    let t = rounds[0];
    assert(rounds.take(0) =~= Seq::<Round>::empty());
    lemma_child_after(start, rounds.take(0));
    lemma_child_after(start, rounds);
    assert(t.before == start);
    assert(t.done);
    assert(rounds.len() == 1);
    assert(strategies[t.idx as int].yields(a, b, t.before, t.after, t.answer));
    let coins = choose|coins: Seq<bool>| #[trigger]
        crossover_with(a.graph@, b.graph@, basic, coins, t.after.graph@, t.answer);
    lemma_crossover_census(a.graph@, b.graph@, basic, coins, child.graph@, t.answer);
    assert(holds_copies(a.graph@, b.graph@, basic, coins, child.graph@));
}

/// The connections out of the layer in front of layer `l` of `g`, each
/// with the identity of its source.
pub open spec fn leaving_before(g: Layers, l: int) -> Seq<ConnectionInfo> {
    leaving_layer(g[l - 1], (l - 1) as GraphSize, g[l - 1].len() as int)
}

/// Whether the node at `x` in `a` and the node at `y` in `b` are a neuron
/// that both graphs hold, in the same hidden layer among the layers that
/// are compared, with at least one connection that both have: one into it
/// from the layer just in front, or one out of it.
pub open spec fn shared_with_connection(a: Layers, b: Layers, x: GraphLocation, y: GraphLocation) -> bool {
    &&& has_node(a, x)
    &&& has_node(b, y)
    &&& x.layer == y.layer
    &&& 1 <= x.layer < compared_layers(a, b)
    &&& pair_items(
        a,
        b,
        leaving_before(a, x.layer as int),
        leaving_before(b, x.layer as int),
        x,
        y,
    ).len() > 0
}

/// What two nodes have in common starts with the pair of them, if there
/// is anything.
proof fn lemma_pair_listed(
    a: Layers,
    b: Layers,
    a_prev: Seq<ConnectionInfo>,
    b_prev: Seq<ConnectionInfo>,
    a_loc: GraphLocation,
    b_loc: GraphLocation,
)
    requires
        pair_items(a, b, a_prev, b_prev, a_loc, b_loc).len() > 0,
    ensures
        pair_items(a, b, a_prev, b_prev, a_loc, b_loc)[0] == AlignedItem::Node(a_loc, b_loc),
{
    let incoming = paired(arriving_at(a_prev, a_loc), arriving_at(b_prev, b_loc));
    let outgoing = paired(
        leaving_with_targets(a, a_loc, node_at(a, a_loc).connections),
        leaving_with_targets(b, b_loc, node_at(b, b_loc).connections),
    );
    let head = if incoming.len() > 0 || outgoing.len() > 0 {
        seq![AlignedItem::Node(a_loc, b_loc)]
    } else {
        Seq::<AlignedItem>::empty()
    };
    assert(as_items(incoming, EdgeType::Incoming).len() == incoming.len());
    assert(as_items(outgoing, EdgeType::Outgoing).len() == outgoing.len());
    assert(head.len() > 0);
    assert(head[0] == AlignedItem::Node(a_loc, b_loc));
}

/// A pair of nodes that have something in common is listed among what one
/// node has in common with the nodes of a layer.
proof fn lemma_node_listed(
    a: Layers,
    b: Layers,
    a_prev: Seq<ConnectionInfo>,
    b_prev: Seq<ConnectionInfo>,
    layer: GraphSize,
    a_idx: GraphSize,
    b_count: int,
    y: GraphLocation,
)
    requires
        0 <= b_count <= GRAPH_LIMIT,
        y.layer == layer,
        y.node < b_count,
        pair_items(a, b, a_prev, b_prev, GraphLocation { layer, node: a_idx }, y).len() > 0,
    ensures
        node_items(a, b, a_prev, b_prev, layer, a_idx, b_count).contains(
            AlignedItem::Node(GraphLocation { layer, node: a_idx }, y),
        ),
    decreases b_count,
{
    let x = GraphLocation { layer, node: a_idx };
    let item = AlignedItem::Node(x, y);
    let b_loc = GraphLocation { layer, node: (b_count - 1) as GraphSize };
    let s1 = node_items(a, b, a_prev, b_prev, layer, a_idx, b_count - 1);
    let s2 = pair_items(a, b, a_prev, b_prev, x, b_loc);
    let s = node_items(a, b, a_prev, b_prev, layer, a_idx, b_count);
    assert(s == s1 + s2);
    if y.node == b_count - 1 {
        assert(b_loc == y);
        lemma_pair_listed(a, b, a_prev, b_prev, x, y);
        assert(s[s1.len() as int] == s2[0]);
    } else {
        lemma_node_listed(a, b, a_prev, b_prev, layer, a_idx, b_count - 1, y);
        let i = choose|i: int| 0 <= i < s1.len() && s1[i] == item;
        assert(s[i] == s1[i]);
    }
}

/// A pair of nodes that have something in common is listed among what the
/// nodes of two layers have in common.
proof fn lemma_layer_listed(
    a: Layers,
    b: Layers,
    a_prev: Seq<ConnectionInfo>,
    b_prev: Seq<ConnectionInfo>,
    layer: GraphSize,
    a_count: int,
    x: GraphLocation,
    y: GraphLocation,
)
    requires
        0 <= a_count <= GRAPH_LIMIT,
        layer < b.len(),
        b[layer as int].len() <= GRAPH_LIMIT,
        x.layer == layer,
        y.layer == layer,
        x.node < a_count,
        y.node < b[layer as int].len(),
        pair_items(a, b, a_prev, b_prev, x, y).len() > 0,
    ensures
        layer_items(a, b, a_prev, b_prev, layer, a_count).contains(AlignedItem::Node(x, y)),
    decreases a_count,
{
    let item = AlignedItem::Node(x, y);
    let a_idx = (a_count - 1) as GraphSize;
    let width = b[layer as int].len() as int;
    let s1 = layer_items(a, b, a_prev, b_prev, layer, a_count - 1);
    let s2 = node_items(a, b, a_prev, b_prev, layer, a_idx, width);
    let s = layer_items(a, b, a_prev, b_prev, layer, a_count);
    assert(s == s1 + s2);
    if x.node == a_count - 1 {
        assert(x == GraphLocation { layer, node: a_idx });
        lemma_node_listed(a, b, a_prev, b_prev, layer, a_idx, width, y);
        let i = choose|i: int| 0 <= i < s2.len() && s2[i] == item;
        assert(s[s1.len() + i] == s2[i]);
    } else {
        lemma_layer_listed(a, b, a_prev, b_prev, layer, a_count - 1, x, y);
        let i = choose|i: int| 0 <= i < s1.len() && s1[i] == item;
        assert(s[i] == s1[i]);
    }
}

/// A pair of nodes that have something in common is listed among what the
/// leading layers of two graphs have in common.
proof fn lemma_upto_listed(a: Layers, b: Layers, upto: int, x: GraphLocation, y: GraphLocation)
    requires
        addressable(a),
        addressable(b),
        upto <= a.len(),
        upto <= b.len(),
        has_node(a, x),
        has_node(b, y),
        x.layer == y.layer,
        1 <= x.layer < upto,
        pair_items(
            a,
            b,
            leaving_before(a, x.layer as int),
            leaving_before(b, x.layer as int),
            x,
            y,
        ).len() > 0,
    ensures
        aligned_upto(a, b, upto).contains(AlignedItem::Node(x, y)),
    decreases upto,
{
    let item = AlignedItem::Node(x, y);
    let l = upto - 1;
    let a_prev = leaving_layer(a[l - 1], (l - 1) as GraphSize, a[l - 1].len() as int);
    let b_prev = leaving_layer(b[l - 1], (l - 1) as GraphSize, b[l - 1].len() as int);
    let s1 = aligned_upto(a, b, l);
    let s2 = layer_items(a, b, a_prev, b_prev, l as GraphSize, a[l].len() as int);
    let s = aligned_upto(a, b, upto);
    assert(s == s1 + s2);
    if x.layer == l {
        lemma_layer_listed(a, b, a_prev, b_prev, l as GraphSize, a[l].len() as int, x, y);
        let i = choose|i: int| 0 <= i < s2.len() && s2[i] == item;
        assert(s[s1.len() + i] == s2[i]);
    } else {
        lemma_upto_listed(a, b, l, x, y);
        let i = choose|i: int| 0 <= i < s1.len() && s1[i] == item;
        assert(s[i] == s1[i]);
    }
}

/// A neuron that two graphs hold in the same hidden layer, with a
/// connection that both have, is among the genes that they share.
pub proof fn lemma_shared_is_listed(a: Layers, b: Layers, x: GraphLocation, y: GraphLocation)
    requires
        addressable(a),
        addressable(b),
        shared_with_connection(a, b, x, y),
    ensures
        aligned(a, b).contains(AlignedItem::Node(x, y)),
{
    lemma_upto_listed(a, b, compared_layers(a, b), x, y);
}

/// What a graph is counted to hold, some node of it holds.
proof fn lemma_row_census_held(row: Seq<GraphNodeView>, n: int, v: Node)
    requires
        n <= row.len(),
        row_census(row, n).count(v) > 0,
    ensures
        exists|i: int| 0 <= i < n && (#[trigger] row[i]).value == v,
    decreases n,
{
    if n > 0 {
        if row_census(row, n - 1).count(v) > 0 {
            lemma_row_census_held(row, n - 1, v);
        } else {
            assert(row[n - 1].value == v);
        }
    }
}

/// What a graph is counted to hold, some node of it holds.
proof fn lemma_census_held(g: Layers, l: int, v: Node)
    requires
        l <= g.len(),
        census_upto(g, l).count(v) > 0,
    ensures
        exists|j: int, i: int| 0 <= j < l && 0 <= i < g[j].len() && (#[trigger] g[j][i]).value == v,
    decreases l,
{
    if l > 0 {
        if census_upto(g, l - 1).count(v) > 0 {
            lemma_census_held(g, l - 1, v);
        } else {
            lemma_row_census_held(g[l - 1], g[l - 1].len() as int, v);
            let i = choose|i: int| 0 <= i < g[l - 1].len() && (#[trigger] g[l - 1][i]).value == v;
            assert(g[l - 1][i].value == v);
        }
    }
}

/// Where one gene among `items` is the neuron at `x` and `y`, and no other
/// gene is a neuron of its identity, the genes give a child one node of
/// that identity: the copy that the coin of that gene picks.
proof fn lemma_copies_once(
    a: Layers,
    b: Layers,
    items: Seq<AlignedItem>,
    coins: Seq<bool>,
    n: int,
    at: int,
    x: GraphLocation,
    y: GraphLocation,
    v: Node,
)
    requires
        0 <= n <= items.len(),
        coins.len() == items.len(),
        0 <= at < items.len(),
        items[at] == AlignedItem::Node(x, y),
        same_gene(v, node_at(a, x).value),
        same_gene(node_at(a, x).value, node_at(b, y).value),
        forall|i: int|
            0 <= i < items.len() && i != at ==> match #[trigger] items[i] {
                AlignedItem::Node(p, q) => !same_gene(node_at(a, p).value, node_at(a, x).value)
                    && !same_gene(node_at(b, q).value, node_at(a, x).value),
                AlignedItem::Edge { .. } => true,
            },
    ensures
        copies(a, b, items, coins, n).count(v) == if at < n && v == (if coins[at] {
            node_at(a, x).value
        } else {
            node_at(b, y).value
        }) {
            1nat
        } else {
            0nat
        },
    decreases n,
{
    if n > 0 {
        lemma_copies_once(a, b, items, coins, n - 1, at, x, y, v);
        let item = items[n - 1];
        if n - 1 != at {
            match item {
                AlignedItem::Node(p, q) => {
                    assert(v != node_at(a, p).value);
                    assert(v != node_at(b, q).value);
                },
                AlignedItem::Edge { .. } => {},
            }
        }
    }
}

/// Exactly one copy of a shared neuron. Where each parent holds one neuron
/// of an identity, both in the same hidden layer and with a connection that
/// both have, and the child holds no node of that identity before, a
/// crossover that succeeds leaves exactly one node of that identity in the
/// child: the copy of the first parent or the copy of the second.
pub proof fn lemma_shared_neuron_once(
    a: Layers,
    b: Layers,
    out: Layers,
    coins: Seq<bool>,
    child: Layers,
    r: Result<(), ReproduceError>,
    x: GraphLocation,
    y: GraphLocation,
)
    requires
        addressable(a),
        addressable(b),
        well_formed(out),
        crossover_with(a, b, out, coins, child, r),
        r is Ok,
        shared_with_connection(a, b, x, y),
        forall|p: GraphLocation|
            has_node(a, p) && same_gene(#[trigger] node_at(a, p).value, node_at(a, x).value) ==> p
                == x,
        forall|q: GraphLocation|
            has_node(b, q) && same_gene(#[trigger] node_at(b, q).value, node_at(b, y).value) ==> q
                == y,
        forall|l: int, n: int|
            0 <= l < out.len() && 0 <= n < out[l].len() ==> !same_gene(
                (#[trigger] out[l][n]).value,
                node_at(a, x).value,
            ),
    ensures
        same_gene(node_at(a, x).value, node_at(b, y).value),
        forall|v: Node|
            same_gene(v, node_at(a, x).value) && #[trigger] census(child).count(v) > 0 ==> v
                == node_at(a, x).value || v == node_at(b, y).value,
        census(child).count(node_at(a, x).value) + (if node_at(b, y).value == node_at(a, x).value {
            0nat
        } else {
            census(child).count(node_at(b, y).value)
        }) == 1,
{
    let items = aligned(a, b);
    let n = items.len() as int;
    let va = node_at(a, x).value;
    let vb = node_at(b, y).value;
    lemma_aligned_fits(a, b);
    lemma_aligned_once(a, b);
    lemma_shared_is_listed(a, b, x, y);
    let at = choose|i: int| 0 <= i < items.len() && items[i] == AlignedItem::Node(x, y);
    assert(item_fits(a, b, items[at]));
    assert forall|i: int| 0 <= i < items.len() && i != at implies match #[trigger] items[i] {
        AlignedItem::Node(p, q) => !same_gene(node_at(a, p).value, va) && !same_gene(
            node_at(b, q).value,
            va,
        ),
        AlignedItem::Edge { .. } => true,
    } by {
        assert(item_fits(a, b, items[i]));
        match items[i] {
            AlignedItem::Node(p, q) => {
                if same_gene(node_at(a, p).value, va) || same_gene(node_at(b, q).value, va) {
                    assert(same_gene(node_at(a, p).value, va));
                    assert(same_gene(node_at(b, q).value, vb));
                    assert(p == x && q == y);
                    if i < at {
                        assert(items[i] != items[at]);
                    } else {
                        assert(items[at] != items[i]);
                    }
                }
            },
            AlignedItem::Edge { .. } => {},
        }
    }
    lemma_crossover_census(a, b, out, coins, child, r);
    let given = copies(a, b, items, coins, n);
    assert forall|v: Node| same_gene(v, va) implies census(child).count(v) == given.count(v) by {
        if census(out).count(v) > 0 {
            lemma_census_held(out, out.len() as int, v);
            let (j, i) = choose|j: int, i: int|
                0 <= j < out.len() && 0 <= i < out[j].len() && (#[trigger] out[j][i]).value == v;
            assert(!same_gene(out[j][i].value, va));
        }
        lemma_copies_once(a, b, items, coins, n, at, x, y, v);
    }
    lemma_copies_once(a, b, items, coins, n, at, x, y, va);
    lemma_copies_once(a, b, items, coins, n, at, x, y, vb);
    assert forall|v: Node|
        same_gene(v, va) && #[trigger] census(child).count(v) > 0 implies v == va || v == vb by {
        lemma_copies_once(a, b, items, coins, n, at, x, y, v);
    }
}

} // verus!
