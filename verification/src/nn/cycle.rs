//! The walk that looks for a location that can be reached twice.
use vstd::prelude::*;
use vstd::relations::injective_on;
use vstd::set_lib::lemma_int_range;
use vstd::set_lib::lemma_len_subset;
use vstd::set_lib::lemma_map_size;
use vstd::set_lib::set_int_range;
use crate::nn::has_edge;
use crate::nn::has_node;
use crate::nn::layers::forward_only;
use crate::nn::util::lemma_edge_forward;
use crate::nn::node_at;
use crate::nn::GraphEdge;
use crate::nn::GraphLocation;
use crate::nn::GraphSize;
use crate::nn::Layers;
use crate::nn::NeuralGraph;

verus! {

/// The locations that a walk has been at, held in a `hashbrown::HashSet` of
/// pairs of layer and node index.
#[verifier::external_body]
pub struct Visited {
    set: hashbrown::HashSet<(GraphSize, GraphSize)>,
}

/// The pairs that `v` holds.
pub uninterp spec fn visited_pairs(v: Visited) -> Set<(GraphSize, GraphSize)>;

/// The empty set, from `hashbrown::HashSet::new`.
#[verifier::external_body]
fn visited_new() -> (v: Visited)
    ensures
        visited_pairs(v) == Set::<(GraphSize, GraphSize)>::empty(),
{
    Visited { set: hashbrown::HashSet::new() }
}

/// Whether `v` holds `pair`, from `hashbrown::HashSet::contains`.
#[verifier::external_body]
fn visited_contains(v: &Visited, pair: (GraphSize, GraphSize)) -> (r: bool)
    ensures
        r == visited_pairs(*v).contains(pair),
{
    v.set.contains(&pair)
}

/// Adds `pair` to `v`, from `hashbrown::HashSet::insert`: afterwards `v`
/// holds `pair` and what it held before, and the answer tells whether
/// `pair` was new.
#[verifier::external_body]
fn visited_insert(v: &mut Visited, pair: (GraphSize, GraphSize)) -> (r: bool)
    ensures
        visited_pairs(*final(v)) == visited_pairs(*old(v)).insert(pair),
        r == !visited_pairs(*old(v)).contains(pair),
{
    v.set.insert(pair)
}

/// The number of locations that there are.
pub open spec fn location_count() -> int {
    0x1_0000_0000
}

/// The location `loc` as a pair.
pub open spec fn pair_of(loc: GraphLocation) -> (GraphSize, GraphSize) {
    (loc.layer, loc.node)
}

/// The targets of the connections `conns`, in order.
pub open spec fn targets_of(conns: Seq<GraphEdge>) -> Seq<GraphLocation> {
    conns.map_values(|e: GraphEdge| e.to)
}

/// Where the connections of the node at `loc` lead, in order. Nowhere, if
/// `g` holds no node at `loc`.
pub open spec fn successors(g: Layers, loc: GraphLocation) -> Seq<GraphLocation> {
    if has_node(g, loc) {
        targets_of(node_at(g, loc).connections)
    } else {
        Seq::empty()
    }
}

/// Whether the walk that has `stack` still to go to, last first, and has
/// been at `visited`, comes to a location that it has been at. At each step
/// it takes the last location off the stack; if it was there before, it has
/// found one; else it notes the location and puts its successors on the
/// stack.
pub open spec fn walk_revisits(
    g: Layers,
    stack: Seq<GraphLocation>,
    visited: Set<(GraphSize, GraphSize)>,
) -> bool
    decreases location_count() - visited.len(),
    when visited.finite() && visited.len() <= location_count()
    via walk_decreases
{
    if stack.len() == 0 {
        false
    } else if visited.contains(pair_of(stack.last())) {
        true
    } else {
        walk_revisits(
            g,
            stack.drop_last() + successors(g, stack.last()),
            visited.insert(pair_of(stack.last())),
        )
    }
}

#[via_fn]
proof fn walk_decreases(g: Layers, stack: Seq<GraphLocation>, visited: Set<(GraphSize, GraphSize)>) {
    if stack.len() != 0 && !visited.contains(pair_of(stack.last())) {
        vstd::set::axiom_set_insert_len(visited, pair_of(stack.last()));
        lemma_visited_bound(visited.insert(pair_of(stack.last())));
    }
}

/// Whether the walk from `start` over the connections of `g` comes to a
/// location twice.
pub open spec fn revisits(g: Layers, start: GraphLocation) -> bool {
    walk_revisits(g, seq![start], Set::empty())
}

/// What `has_cycle` answers on `g`: no on a graph without layers, else
/// whether the walk from `start_from`, or from the first node of the first
/// layer where none is given, comes to a location twice.
pub open spec fn cycle_found(g: Layers, start_from: Option<GraphLocation>) -> bool {
    if g.len() == 0 {
        false
    } else {
        match start_from {
            Some(start) => revisits(g, start),
            None => revisits(g, GraphLocation { layer: 0, node: 0 }),
        }
    }
}

/// Whether `path` goes from node to node over connections of `g`.
pub open spec fn is_walk(g: Layers, path: Seq<GraphLocation>) -> bool {
    forall|i: int| 0 <= i < path.len() - 1 ==> has_edge(g, #[trigger] path[i], path[i + 1])
}

/// In a forward-only graph every walk ends in a later layer than it starts
/// in: no walk comes back to where it started.
pub proof fn lemma_walks_go_forward(g: Layers, path: Seq<GraphLocation>)
    requires
        forward_only(g),
        is_walk(g, path),
        path.len() >= 2,
    ensures
        path.first().layer < path.last().layer,
        path.first() != path.last(),
    decreases path.len(),
{
    let n = path.len() as int;
    assert(has_edge(g, path[n - 2], path[n - 2 + 1]));
    lemma_edge_forward(g, path[n - 2], path[n - 1]);
    if n > 2 {
        let init = path.drop_last();
        assert forall|i: int| 0 <= i < init.len() - 1 implies has_edge(
            g,
            #[trigger] init[i],
            init[i + 1],
        ) by {
            assert(has_edge(g, path[i], path[i + 1]));
        }
        lemma_walks_go_forward(g, init);
    }
}

/// The number that stands for a pair.
pub open spec fn code_of(pair: (GraphSize, GraphSize)) -> int {
    pair.0 * 0x1_0000 + pair.1
}

/// A finite set of pairs holds at most as many as there are locations.
pub proof fn lemma_visited_bound(visited: Set<(GraphSize, GraphSize)>)
    requires
        visited.finite(),
    ensures
        visited.len() <= location_count(),
{
    let f = |pair: (GraphSize, GraphSize)| code_of(pair);
    let codes = visited.map(f);
    assert(injective_on(f, visited)) by {
        assert forall|x: (GraphSize, GraphSize), y: (GraphSize, GraphSize)|
            visited.contains(x) && visited.contains(y) && #[trigger] f(x) == #[trigger] f(
                y,
            ) implies x == y by {
            assert(x.0 * 0x1_0000 + x.1 == y.0 * 0x1_0000 + y.1);
        }
    }
    lemma_map_size(visited, codes, f);
    lemma_int_range(0, location_count());
    assert(codes.subset_of(set_int_range(0, location_count()))) by {
        assert forall|c: int| codes.contains(c) implies set_int_range(
            0,
            location_count(),
        ).contains(c) by {
            let pair = choose|pair: (GraphSize, GraphSize)| visited.contains(pair) && f(pair) == c;
            assert(c == pair.0 * 0x1_0000 + pair.1);
        }
    }
    lemma_len_subset(codes, set_int_range(0, location_count()));
}

impl NeuralGraph {
    /// Walks the graph from `start_from`, or from the first node of the
    /// first layer where none is given, and tells whether it came to a
    /// location twice. A graph without layers has no such location.
    pub fn has_cycle(&self, start_from: Option<GraphLocation>) -> (r: bool)
        ensures
            r == cycle_found(self@, start_from),
    {
        if self.layers.len() == 0 {
            return false;
        }
        let start = match start_from {
            Some(start) => start,
            None => GraphLocation { layer: 0, node: 0 },
        };
        let mut visited = visited_new();
        let mut stack: Vec<GraphLocation> = Vec::new();
        stack.push(start);
        proof {
            assert(stack@ =~= seq![start]);
        }
        loop
            invariant
                visited_pairs(visited).finite(),
                cycle_found(self@, start_from) == revisits(self@, start),
                walk_revisits(self@, stack@, visited_pairs(visited)) == revisits(self@, start),
            decreases location_count() - visited_pairs(visited).len(),
        {
            proof {
                lemma_visited_bound(visited_pairs(visited));
            }
            let ghost seen = visited_pairs(visited);
            let loc = match stack.pop() {
                None => {
                    return false;
                },
                Some(loc) => loc,
            };
            if visited_contains(&visited, (loc.layer, loc.node)) {
                return true;
            }
            visited_insert(&mut visited, (loc.layer, loc.node));
            proof {
                vstd::set::axiom_set_insert_len(seen, pair_of(loc));
                lemma_visited_bound(visited_pairs(visited));
            }
            let ghost rest = stack@;
            match self.get_node(&loc) {
                None => {
                    proof {
                        assert(rest + successors(self@, loc) =~= rest);
                    }
                },
                Some(node) => {
                    let mut k: usize = 0;
                    while k < node.connections.len()
                        invariant
                            k <= node.connections.len(),
                            stack@ == rest + targets_of(node.connections@).take(k as int),
                        decreases node.connections.len() - k,
                    {
                        stack.push(node.connections[k].to);
                        proof {
                            assert(stack@ =~= rest + targets_of(node.connections@).take(k + 1));
                        }
                        k += 1;
                    }
                    proof {
                        assert(targets_of(node.connections@).take(k as int) =~= targets_of(
                            node.connections@,
                        ));
                    }
                },
            }
        }
    }
}

} // verus!
