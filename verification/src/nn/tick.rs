//! The order of a tick: which values go over which connections, and when
//! each node has received all that it is going to receive.
//!
//! A tick works through the layers in increasing order. The values that are
//! under way are queued by the layer they go to, in an `indexmap::IndexMap`
//! keyed by the layer index; the layer with the least index is taken next.
//! The arithmetic on the values is not done here: the plan says in which
//! order it has to be done.
use vstd::prelude::*;
use crate::nn::has_node;
use crate::nn::node_at;
use crate::nn::GraphEdge;
use crate::nn::GraphLocation;
use crate::nn::GraphSize;
use crate::nn::Layers;
use crate::nn::Net;
use crate::nn::NeuralGraph;
use crate::nn::Node;

verus! {

#[verifier::external_type_specification]
#[verifier::external_body]
#[verifier::reject_recursive_types(K)]
#[verifier::reject_recursive_types(V)]
#[verifier::reject_recursive_types(S)]
pub struct ExIndexMap<K, V, S>(indexmap::IndexMap<K, V, S>);

/// A value under way: the node that emitted it and the connection that it
/// goes over.
#[derive(Debug, Clone, Copy, PartialEq)]
pub struct Signal {
    pub from: GraphLocation,
    pub edge: GraphEdge,
}

/// One step of a tick.
#[derive(Debug, Clone, Copy, PartialEq)]
pub enum TickStep {
    /// The target of the connection takes in what the source emitted, over
    /// the connection, and adds it to what it has received.
    Feed(Signal),
    /// The node has received everything: an output stores its value, a
    /// hidden neuron emits.
    Fire(GraphLocation),
}

/// The queues of a tick, in the order in which the map holds them: each a
/// layer index and the values under way to that layer.
pub uninterp spec fn pending_entries(m: indexmap::IndexMap<GraphSize, Vec<Signal>>) -> Seq<
    (GraphSize, Seq<Signal>),
>;

/// Whether entry `i` of `entries` is for layer `layer`.
pub open spec fn is_slot(entries: Seq<(GraphSize, Seq<Signal>)>, layer: GraphSize, i: int) -> bool {
    0 <= i < entries.len() && entries[i].0 == layer
}

/// Whether `entries` has an entry for layer `layer`.
pub open spec fn has_key(entries: Seq<(GraphSize, Seq<Signal>)>, layer: GraphSize) -> bool {
    exists|i: int| is_slot(entries, layer, i)
}

/// The index of an entry of `entries` for layer `layer`.
pub open spec fn slot_of(entries: Seq<(GraphSize, Seq<Signal>)>, layer: GraphSize) -> int {
    choose|i: int| is_slot(entries, layer, i)
}

/// No two entries of `entries` are for the same layer.
pub open spec fn keys_distinct(entries: Seq<(GraphSize, Seq<Signal>)>) -> bool {
    forall|i: int, j: int|
        0 <= i < j < entries.len() ==> (#[trigger] entries[i]).0 != (#[trigger] entries[j]).0
}

/// The queue that `entries` has for layer `layer`: empty, if it has none.
pub open spec fn queue_at(entries: Seq<(GraphSize, Seq<Signal>)>, layer: GraphSize) -> Seq<Signal> {
    if has_key(entries, layer) {
        entries[slot_of(entries, layer)].1
    } else {
        Seq::empty()
    }
}

/// The map without queues, from `indexmap::IndexMap::new`.
#[verifier::external_body]
fn pending_new() -> (m: indexmap::IndexMap<GraphSize, Vec<Signal>>)
    ensures
        pending_entries(m) == Seq::<(GraphSize, Seq<Signal>)>::empty(),
{
    indexmap::IndexMap::new()
}

/// The queue for layer `layer`, for editing, from
/// `indexmap::IndexMap::get_mut`: there is one exactly if the map has an
/// entry for the layer. What the caller leaves in the queue is what that
/// entry then holds; the order of the entries and the other entries stay.
#[verifier::external_body]
fn pending_get_mut(m: &mut indexmap::IndexMap<GraphSize, Vec<Signal>>, layer: GraphSize) -> (r:
    Option<&mut Vec<Signal>>)
    requires
        keys_distinct(pending_entries(*old(m))),
    ensures
        r is Some <==> has_key(pending_entries(*old(m)), layer),
        r is None ==> pending_entries(*final(m)) == pending_entries(*old(m)),
        r matches Some(queue) ==> {
            let i = slot_of(pending_entries(*old(m)), layer);
            &&& queue@ == pending_entries(*old(m))[i].1
            &&& pending_entries(*final(m)) == pending_entries(*old(m)).update(
                i,
                (layer, final(queue)@),
            )
        },
{
    m.get_mut(&layer)
}

/// Puts `queue` in as the queue for layer `layer`, from
/// `indexmap::IndexMap::insert`, where the map has no entry for the layer:
/// the new entry is the last, the others stay, and nothing is handed back.
#[verifier::external_body]
fn pending_insert(
    m: &mut indexmap::IndexMap<GraphSize, Vec<Signal>>,
    layer: GraphSize,
    queue: Vec<Signal>,
) -> (r: Option<Vec<Signal>>)
    requires
        !has_key(pending_entries(*old(m)), layer),
    ensures
        r is None,
        pending_entries(*final(m)) == pending_entries(*old(m)).push((layer, queue@)),
{
    m.insert(layer, queue)
}

/// Sorts the entries by layer index, from `indexmap::IndexMap::sort_keys`,
/// where no two entries are for the same layer: afterwards the indices
/// ascend, and the map has the same layers with the same queues.
#[verifier::external_body]
fn pending_sort_keys(m: &mut indexmap::IndexMap<GraphSize, Vec<Signal>>)
    requires
        keys_distinct(pending_entries(*old(m))),
    ensures
        pending_entries(*final(m)).len() == pending_entries(*old(m)).len(),
        forall|i: int, j: int|
            0 <= i < j < pending_entries(*final(m)).len() ==> (#[trigger] pending_entries(
                *final(m),
            )[i]).0 < (#[trigger] pending_entries(*final(m))[j]).0,
        forall|layer: GraphSize|
            has_key(pending_entries(*final(m)), layer) == has_key(pending_entries(*old(m)), layer),
        forall|layer: GraphSize|
            #[trigger] queue_at(pending_entries(*final(m)), layer) == queue_at(
                pending_entries(*old(m)),
                layer,
            ),
{
    m.sort_keys()
}

/// The first entry, from `indexmap::IndexMap::first`: its layer index and
/// its queue; nothing, if the map has no entry.
#[verifier::external_body]
fn pending_first(m: &indexmap::IndexMap<GraphSize, Vec<Signal>>) -> (r: Option<
    (GraphSize, &Vec<Signal>),
>)
    ensures
        r is Some <==> pending_entries(*m).len() > 0,
        r matches Some((layer, queue)) ==> layer == pending_entries(*m)[0].0 && queue@
            == pending_entries(*m)[0].1,
{
    m.first().map(|(layer, queue)| (*layer, queue))
}

/// Takes out the entry for layer `layer`, from
/// `indexmap::IndexMap::shift_remove`, where no two entries are for the
/// same layer: the entries behind it move up and keep their order, and its
/// queue is handed back. Nothing changes and nothing is handed back if the
/// map has no entry for the layer.
#[verifier::external_body]
fn pending_shift_remove(m: &mut indexmap::IndexMap<GraphSize, Vec<Signal>>, layer: GraphSize) -> (r:
    Option<Vec<Signal>>)
    requires
        keys_distinct(pending_entries(*old(m))),
    ensures
        r is Some <==> has_key(pending_entries(*old(m)), layer),
        r is None ==> pending_entries(*final(m)) == pending_entries(*old(m)),
        r matches Some(queue) ==> {
            let i = slot_of(pending_entries(*old(m)), layer);
            &&& queue@ == pending_entries(*old(m))[i].1
            &&& pending_entries(*final(m)) == pending_entries(*old(m)).remove(i)
        },
{
    m.shift_remove(&layer)
}

/// Whether a value that the node at `from` emits goes over the connection
/// `e`: the connection is enabled, it leads to a later layer, and it leads
/// to an output or a hidden neuron that `g` holds.
pub open spec fn carries(g: Layers, from: GraphLocation, e: GraphEdge) -> bool {
    &&& e.value.enabled
    &&& from.layer < e.to.layer
    &&& has_node(g, e.to)
    &&& (node_at(g, e.to).value is Output || node_at(g, e.to).value is Neuron)
}

/// The values that go from the node at `from` over its connections `conns`
/// to layer `layer`, in the order of the connections.
pub open spec fn signals_of(
    g: Layers,
    from: GraphLocation,
    conns: Seq<GraphEdge>,
    layer: GraphSize,
) -> Seq<Signal>
    decreases conns.len(),
{
    if conns.len() == 0 {
        Seq::empty()
    } else {
        let rest = signals_of(g, from, conns.drop_last(), layer);
        let e = conns.last();
        if carries(g, from, e) && e.to.layer == layer {
            rest.push(Signal { from, edge: e })
        } else {
            rest
        }
    }
}

/// The values that go from the nodes at `sources` to layer `layer`, source
/// by source.
pub open spec fn sent_to(g: Layers, sources: Seq<GraphLocation>, layer: GraphSize) -> Seq<Signal>
    decreases sources.len(),
{
    if sources.len() == 0 {
        Seq::empty()
    } else {
        sent_to(g, sources.drop_last(), layer) + signals_of(
            g,
            sources.last(),
            node_at(g, sources.last()).connections,
            layer,
        )
    }
}

/// The locations of the input neurons among the first `count` nodes of the
/// first layer, in order.
pub open spec fn input_sources(g: Layers, count: int) -> Seq<GraphLocation>
    decreases count,
{
    if count <= 0 || g.len() == 0 {
        Seq::empty()
    } else {
        let rest = input_sources(g, count - 1);
        if count - 1 < g[0].len() && g[0][count - 1].value is Input {
            rest.push(GraphLocation { layer: 0, node: (count - 1) as GraphSize })
        } else {
            rest
        }
    }
}

/// The targets of the values `queue`, each once, in the order in which
/// they first occur.
pub open spec fn targets_in_order(queue: Seq<Signal>) -> Seq<GraphLocation>
    decreases queue.len(),
{
    if queue.len() == 0 {
        Seq::empty()
    } else {
        let rest = targets_in_order(queue.drop_last());
        if rest.contains(queue.last().edge.to) {
            rest
        } else {
            rest.push(queue.last().edge.to)
        }
    }
}

/// The locations among `locs` at which `g` holds a hidden neuron, in
/// order.
pub open spec fn neurons_among(g: Layers, locs: Seq<GraphLocation>) -> Seq<GraphLocation>
    decreases locs.len(),
{
    if locs.len() == 0 {
        Seq::empty()
    } else {
        let rest = neurons_among(g, locs.drop_last());
        if has_node(g, locs.last()) && node_at(g, locs.last()).value is Neuron {
            rest.push(locs.last())
        } else {
            rest
        }
    }
}

/// The nodes that have emitted before layer `layer` is worked on, in the
/// order in which they emitted: the input neurons, then the hidden neurons
/// that fired in the layers in front of `layer`.
pub open spec fn sources_before(g: Layers, layer: int) -> Seq<GraphLocation>
    decreases layer, 0int,
{
    if layer <= 0 {
        Seq::empty()
    } else if layer == 1 {
        if g.len() == 0 {
            Seq::empty()
        } else {
            input_sources(g, addressed(g[0].len() as int))
        }
    } else {
        sources_before(g, layer - 1) + neurons_among(g, fired_in(g, layer - 1))
    }
}

/// The values that arrive at layer `layer`, in the order in which they were
/// emitted.
pub open spec fn queue_of(g: Layers, layer: int) -> Seq<Signal>
    decreases layer, 1int,
{
    if layer <= 0 {
        Seq::empty()
    } else {
        sent_to(g, sources_before(g, layer), layer as GraphSize)
    }
}

/// The nodes of layer `layer` that fire, in the order in which they fire:
/// that in which a value first arrives at them.
pub open spec fn fired_in(g: Layers, layer: int) -> Seq<GraphLocation>
    decreases layer, 2int,
{
    if layer <= 0 {
        Seq::empty()
    } else {
        targets_in_order(queue_of(g, layer))
    }
}

/// The values `queue` as steps that feed them.
pub open spec fn feeds(queue: Seq<Signal>) -> Seq<TickStep> {
    queue.map_values(|s: Signal| TickStep::Feed(s))
}

/// The locations `locs` as steps that fire them.
pub open spec fn fires(locs: Seq<GraphLocation>) -> Seq<TickStep> {
    locs.map_values(|loc: GraphLocation| TickStep::Fire(loc))
}

/// The steps of a tick for the layers in front of layer `layer`: layer by
/// layer, the values that arrive are fed, then the nodes that they arrived
/// at fire.
pub open spec fn plan_before(g: Layers, layer: int) -> Seq<TickStep>
    decreases layer,
{
    if layer <= 1 {
        Seq::empty()
    } else {
        plan_before(g, layer - 1) + feeds(queue_of(g, layer - 1)) + fires(fired_in(g, layer - 1))
    }
}

/// The count `n`, or the number of indices that a location can hold if
/// that is less.
pub open spec fn addressed(n: int) -> int {
    if n < 0x10000 {
        n
    } else {
        0x10000
    }
}

/// The steps of a tick of `g`.
pub open spec fn tick_plan(g: Layers) -> Seq<TickStep> {
    plan_before(g, addressed(g.len() as int))
}

/// Whether the step `step` is a step on the graph `g`: a value is fed over
/// a connection of a node of `g` that carries it, and the node that fires is
/// an output or a hidden neuron of `g`.
pub open spec fn step_fits(g: Layers, step: TickStep) -> bool {
    match step {
        TickStep::Feed(s) => {
            &&& has_node(g, s.from)
            &&& node_at(g, s.from).connections.contains(s.edge)
            &&& carries(g, s.from, s.edge)
        },
        TickStep::Fire(at) => {
            &&& has_node(g, at)
            &&& (node_at(g, at).value is Output || node_at(g, at).value is Neuron)
        },
    }
}

/// Whether the value `s` goes over a connection of a node of `g` that
/// carries it.
pub open spec fn signal_fits(g: Layers, s: Signal) -> bool {
    step_fits(g, TickStep::Feed(s))
}

/// The values that a node sends go over connections of that node.
proof fn lemma_signals_fit(g: Layers, from: GraphLocation, conns: Seq<GraphEdge>, layer: GraphSize)
    ensures
        forall|i: int|
            0 <= i < signals_of(g, from, conns, layer).len() ==> {
                let s = #[trigger] signals_of(g, from, conns, layer)[i];
                &&& s.from == from
                &&& conns.contains(s.edge)
                &&& carries(g, from, s.edge)
            },
    decreases conns.len(),
{
    if conns.len() > 0 {
        let init = conns.drop_last();
        lemma_signals_fit(g, from, init, layer);
        let out = signals_of(g, from, conns, layer);
        let inner = signals_of(g, from, init, layer);
        assert forall|i: int| 0 <= i < out.len() implies {
            let s = #[trigger] out[i];
            &&& s.from == from
            &&& conns.contains(s.edge)
            &&& carries(g, from, s.edge)
        } by {
            if i < inner.len() {
                assert(out[i] == inner[i]);
                let k = choose|k: int| 0 <= k < init.len() && init[k] == inner[i].edge;
                assert(conns[k] == init[k]);
            } else {
                assert(conns[conns.len() - 1] == out[i].edge);
            }
        }
    }
}

/// The values that nodes of the graph send go over connections of those
/// nodes.
proof fn lemma_sent_fits(g: Layers, sources: Seq<GraphLocation>, layer: GraphSize)
    requires
        forall|i: int| 0 <= i < sources.len() ==> has_node(g, #[trigger] sources[i]),
    ensures
        forall|i: int|
            0 <= i < sent_to(g, sources, layer).len() ==> signal_fits(
                g,
                #[trigger] sent_to(g, sources, layer)[i],
            ),
    decreases sources.len(),
{
    if sources.len() > 0 {
        let init = sources.drop_last();
        assert forall|i: int| 0 <= i < init.len() implies has_node(g, #[trigger] init[i]) by {
            assert(init[i] == sources[i]);
        }
        lemma_sent_fits(g, init, layer);
        let last = sources.last();
        assert(has_node(g, sources[sources.len() - 1]));
        lemma_signals_fit(g, last, node_at(g, last).connections, layer);
        let head = sent_to(g, init, layer);
        let tail = signals_of(g, last, node_at(g, last).connections, layer);
        let out = sent_to(g, sources, layer);
        assert forall|i: int| 0 <= i < out.len() implies signal_fits(g, #[trigger] out[i]) by {
            if i < head.len() {
                assert(out[i] == head[i]);
            } else {
                assert(out[i] == tail[i - head.len()]);
            }
        }
    }
}

/// The input neurons that emit are nodes of the graph.
proof fn lemma_input_sources(g: Layers, count: int)
    requires
        count <= 0x10000,
    ensures
        forall|i: int|
            0 <= i < input_sources(g, count).len() ==> has_node(
                g,
                #[trigger] input_sources(g, count)[i],
            ),
    decreases count,
{
    if count > 0 && g.len() > 0 {
        lemma_input_sources(g, count - 1);
        let out = input_sources(g, count);
        let inner = input_sources(g, count - 1);
        assert forall|i: int| 0 <= i < out.len() implies has_node(g, #[trigger] out[i]) by {
            if i < inner.len() {
                assert(out[i] == inner[i]);
            }
        }
    }
}

/// The hidden neurons among locations are nodes of the graph.
proof fn lemma_neurons_in_graph(g: Layers, locs: Seq<GraphLocation>)
    ensures
        forall|i: int|
            0 <= i < neurons_among(g, locs).len() ==> has_node(
                g,
                #[trigger] neurons_among(g, locs)[i],
            ),
    decreases locs.len(),
{
    if locs.len() > 0 {
        lemma_neurons_in_graph(g, locs.drop_last());
        let out = neurons_among(g, locs);
        let inner = neurons_among(g, locs.drop_last());
        assert forall|i: int| 0 <= i < out.len() implies has_node(g, #[trigger] out[i]) by {
            if i < inner.len() {
                assert(out[i] == inner[i]);
            }
        }
    }
}

/// The nodes that emit are nodes of the graph.
proof fn lemma_sources_in_graph(g: Layers, layer: int)
    ensures
        forall|i: int|
            0 <= i < sources_before(g, layer).len() ==> has_node(
                g,
                #[trigger] sources_before(g, layer)[i],
            ),
    decreases layer,
{
    if layer == 1 {
        if g.len() > 0 {
            lemma_input_sources(g, addressed(g[0].len() as int));
        }
    } else if layer > 1 {
        lemma_sources_in_graph(g, layer - 1);
        lemma_neurons_in_graph(g, fired_in(g, layer - 1));
        let head = sources_before(g, layer - 1);
        let out = sources_before(g, layer);
        assert forall|i: int| 0 <= i < out.len() implies has_node(g, #[trigger] out[i]) by {
            if i < head.len() {
                assert(out[i] == head[i]);
            } else {
                assert(out[i] == neurons_among(g, fired_in(g, layer - 1))[i - head.len()]);
            }
        }
    }
}

/// Every step of the plan for the leading layers is a step on the graph.
proof fn lemma_plan_before_fits(g: Layers, layer: int)
    ensures
        forall|i: int|
            0 <= i < plan_before(g, layer).len() ==> step_fits(
                g,
                #[trigger] plan_before(g, layer)[i],
            ),
    decreases layer,
{
    if layer > 1 {
        lemma_plan_before_fits(g, layer - 1);
        lemma_sources_in_graph(g, layer - 1);
        let queue = queue_of(g, layer - 1);
        let targets = fired_in(g, layer - 1);
        lemma_sent_fits(g, sources_before(g, layer - 1), (layer - 1) as GraphSize);
        lemma_targets_in_graph(queue);
        let head = plan_before(g, layer - 1);
        let fed = head + feeds(queue);
        let out = plan_before(g, layer);
        assert forall|i: int| 0 <= i < out.len() implies step_fits(g, #[trigger] out[i]) by {
            if i < head.len() {
                assert(out[i] == head[i]);
            } else if i < fed.len() {
                assert(out[i] == feeds(queue)[i - head.len()]);
                assert(signal_fits(g, queue[i - head.len()]));
            } else {
                let at = targets[i - fed.len()];
                assert(out[i] == fires(targets)[i - fed.len()]);
                let y = choose|y: int| 0 <= y < queue.len() && at == queue[y].edge.to;
                assert(signal_fits(g, queue[y]));
            }
        }
    }
}

/// Every step of a tick is a step on the graph: each value is fed over an
/// enabled connection of a node of the graph, to a later layer; and each
/// node that fires is an output or a hidden neuron of the graph.
pub proof fn lemma_tick_plan_fits(g: Layers)
    ensures
        forall|i: int| 0 <= i < tick_plan(g).len() ==> step_fits(g, #[trigger] tick_plan(g)[i]),
{
    lemma_plan_before_fits(g, addressed(g.len() as int));
}

/// The targets in order have every target of the queue among them, each
/// once.
proof fn lemma_targets_cover(queue: Seq<Signal>)
    ensures
        forall|y: int|
            0 <= y < queue.len() ==> targets_in_order(queue).contains((#[trigger] queue[y]).edge.to),
        forall|i: int, j: int|
            0 <= i < j < targets_in_order(queue).len() ==> (#[trigger] targets_in_order(queue)[i])
                != (#[trigger] targets_in_order(queue)[j]),
    decreases queue.len(),
{
    if queue.len() > 0 {
        let init = queue.drop_last();
        lemma_targets_cover(init);
        let out = targets_in_order(queue);
        let inner = targets_in_order(init);
        assert forall|y: int| 0 <= y < queue.len() implies out.contains(
            (#[trigger] queue[y]).edge.to,
        ) by {
            if y < init.len() {
                assert(inner.contains(init[y].edge.to));
                let x = choose|x: int| 0 <= x < inner.len() && inner[x] == init[y].edge.to;
                assert(out[x] == queue[y].edge.to);
            } else if inner.contains(queue.last().edge.to) {
            } else {
                assert(out[out.len() - 1] == queue[y].edge.to);
            }
        }
        assert forall|i: int, j: int| 0 <= i < j < out.len() implies (#[trigger] out[i]) != (
        #[trigger] out[j]) by {
            if j < inner.len() {
                assert(inner[i] != inner[j]);
            } else {
                assert(inner[i] == out[i]);
                assert(inner.contains(inner[i]));
            }
        }
    }
}

/// What is sent by sources comes from one of them.
proof fn lemma_sent_from(g: Layers, sources: Seq<GraphLocation>, layer: GraphSize)
    ensures
        forall|i: int|
            0 <= i < sent_to(g, sources, layer).len() ==> sources.contains(
                (#[trigger] sent_to(g, sources, layer)[i]).from,
            ),
    decreases sources.len(),
{
    if sources.len() > 0 {
        let init = sources.drop_last();
        lemma_sent_from(g, init, layer);
        let last = sources.last();
        lemma_signals_fit(g, last, node_at(g, last).connections, layer);
        let head = sent_to(g, init, layer);
        let tail = signals_of(g, last, node_at(g, last).connections, layer);
        let out = sent_to(g, sources, layer);
        assert forall|i: int| 0 <= i < out.len() implies sources.contains((#[trigger] out[i]).from) by {
            if i < head.len() {
                assert(out[i] == head[i]);
                let k = choose|k: int| 0 <= k < init.len() && init[k] == head[i].from;
                assert(sources[k] == head[i].from);
            } else {
                assert(out[i] == tail[i - head.len()]);
                assert(sources[sources.len() - 1] == out[i].from);
            }
        }
    }
}

/// Whether the node at `at` has emitted before layer `layer` is worked on:
/// it is an input neuron, or a hidden neuron that fired in a layer in front
/// of `layer`.
pub open spec fn has_emitted(g: Layers, layer: int, at: GraphLocation) -> bool {
    ||| at.layer == 0 && has_node(g, at) && node_at(g, at).value is Input
    ||| exists|k: int| 1 <= k < layer && #[trigger] fired_in(g, k).contains(at)
}

/// The input neurons that emit are input neurons of the first layer.
proof fn lemma_input_sources_origin(g: Layers, count: int)
    requires
        count <= 0x10000,
    ensures
        forall|i: int|
            0 <= i < input_sources(g, count).len() ==> {
                let at = #[trigger] input_sources(g, count)[i];
                at.layer == 0 && has_node(g, at) && node_at(g, at).value is Input
            },
    decreases count,
{
    if count > 0 && g.len() > 0 {
        lemma_input_sources_origin(g, count - 1);
        let out = input_sources(g, count);
        let inner = input_sources(g, count - 1);
        assert forall|i: int| 0 <= i < out.len() implies {
            let at = #[trigger] out[i];
            at.layer == 0 && has_node(g, at) && node_at(g, at).value is Input
        } by {
            if i < inner.len() {
                assert(out[i] == inner[i]);
            }
        }
    }
}

/// The hidden neurons among locations are among those locations.
proof fn lemma_neurons_among_subset(g: Layers, locs: Seq<GraphLocation>)
    ensures
        forall|i: int|
            0 <= i < neurons_among(g, locs).len() ==> locs.contains(
                #[trigger] neurons_among(g, locs)[i],
            ),
    decreases locs.len(),
{
    if locs.len() > 0 {
        let init = locs.drop_last();
        lemma_neurons_among_subset(g, init);
        let out = neurons_among(g, locs);
        let inner = neurons_among(g, init);
        assert forall|i: int| 0 <= i < out.len() implies locs.contains(#[trigger] out[i]) by {
            if i < inner.len() {
                assert(out[i] == inner[i]);
                let k = choose|k: int| 0 <= k < init.len() && init[k] == inner[i];
                assert(locs[k] == inner[i]);
            } else {
                assert(locs[locs.len() - 1] == out[i]);
            }
        }
    }
}

/// Every node that has emitted before a layer is worked on is an input
/// neuron or has fired in a layer in front of it.
proof fn lemma_sources_origin(g: Layers, layer: int)
    ensures
        forall|i: int|
            0 <= i < sources_before(g, layer).len() ==> has_emitted(
                g,
                layer,
                #[trigger] sources_before(g, layer)[i],
            ),
    decreases layer,
{
    if layer == 1 {
        if g.len() > 0 {
            lemma_input_sources_origin(g, addressed(g[0].len() as int));
        }
    } else if layer > 1 {
        lemma_sources_origin(g, layer - 1);
        lemma_neurons_among_subset(g, fired_in(g, layer - 1));
        let head = sources_before(g, layer - 1);
        let tail = neurons_among(g, fired_in(g, layer - 1));
        let out = sources_before(g, layer);
        assert forall|i: int| 0 <= i < out.len() implies has_emitted(g, layer, #[trigger] out[i]) by {
            if i < head.len() {
                assert(out[i] == head[i]);
                assert(has_emitted(g, layer - 1, head[i]));
                if !(head[i].layer == 0 && has_node(g, head[i]) && node_at(g, head[i]).value is Input) {
                    let k = choose|k: int| 1 <= k < layer - 1 && #[trigger] fired_in(g, k).contains(head[i]);
                    assert(fired_in(g, k).contains(out[i]));
                }
            } else {
                assert(out[i] == tail[i - head.len()]);
                assert(fired_in(g, layer - 1).contains(out[i]));
            }
        }
    }
}

/// The order of a tick. The plan works through the layers in increasing
/// order, and in each layer it first feeds what arrives and then fires.
/// Of what arrives at layer `layer`: every value goes to a node of that
/// layer, and that node is among those that fire there; no node fires
/// twice; and every value comes from a node that has emitted before: an
/// input neuron, or a hidden neuron that fired in an earlier layer.
pub proof fn lemma_tick_order(g: Layers, layer: int)
    requires
        1 <= layer < 0x10000,
    ensures
        forall|i: int|
            0 <= i < queue_of(g, layer).len() ==> {
                let s = #[trigger] queue_of(g, layer)[i];
                &&& s.edge.to.layer == layer
                &&& fired_in(g, layer).contains(s.edge.to)
                &&& has_emitted(g, layer, s.from)
            },
        forall|i: int|
            0 <= i < fired_in(g, layer).len() ==> (#[trigger] fired_in(g, layer)[i]).layer
                == layer,
        forall|i: int, j: int|
            0 <= i < j < fired_in(g, layer).len() ==> (#[trigger] fired_in(g, layer)[i]) != (
            #[trigger] fired_in(g, layer)[j]),
{
    let sources = sources_before(g, layer);
    let queue = queue_of(g, layer);
    let targets = fired_in(g, layer);
    lemma_sent_in_graph(g, sources, layer as GraphSize);
    lemma_sent_from(g, sources, layer as GraphSize);
    lemma_sources_origin(g, layer);
    lemma_targets_cover(queue);
    lemma_targets_in_graph(queue);
    assert forall|i: int| 0 <= i < queue.len() implies {
        let s = #[trigger] queue[i];
        &&& s.edge.to.layer == layer
        &&& fired_in(g, layer).contains(s.edge.to)
        &&& has_emitted(g, layer, s.from)
    } by {
        let k = choose|k: int| 0 <= k < sources.len() && sources[k] == queue[i].from;
        assert(has_emitted(g, layer, sources[k]));
    }
    assert forall|i: int| 0 <= i < targets.len() implies (#[trigger] targets[i]).layer == layer by {
        let y = choose|y: int| 0 <= y < queue.len() && targets[i] == queue[y].edge.to;
        assert(queue[y].edge.to.layer == layer);
    }
}

/// Whether the nodes `x` and `y` have the same role.
pub open spec fn same_role(x: Node, y: Node) -> bool {
    &&& x is Blank <==> y is Blank
    &&& x is Input <==> y is Input
    &&& x is Output <==> y is Output
    &&& x is Neuron <==> y is Neuron
}

/// Whether `g` and `h` are wired alike: they have nodes of the same roles
/// at the same places, with the same connections. The values that the
/// neurons hold may differ.
pub open spec fn same_wiring(g: Layers, h: Layers) -> bool {
    &&& g.len() == h.len()
    &&& forall|l: int| 0 <= l < g.len() ==> (#[trigger] g[l]).len() == h[l].len()
    &&& forall|l: int, n: int|
        0 <= l < g.len() && 0 <= n < g[l].len() ==> same_role(
            (#[trigger] g[l][n]).value,
            h[l][n].value,
        ) && g[l][n].connections == h[l][n].connections
}

/// Graphs that are wired alike let the same values through.
proof fn lemma_carries_alike(g: Layers, h: Layers, from: GraphLocation, e: GraphEdge)
    requires
        same_wiring(g, h),
    ensures
        carries(g, from, e) == carries(h, from, e),
{
    if has_node(g, e.to) {
        assert(g[e.to.layer as int].len() == h[e.to.layer as int].len());
        assert(same_role(
            g[e.to.layer as int][e.to.node as int].value,
            h[e.to.layer as int][e.to.node as int].value,
        ));
    }
    if has_node(h, e.to) {
        assert(g[e.to.layer as int].len() == h[e.to.layer as int].len());
        assert(same_role(
            g[e.to.layer as int][e.to.node as int].value,
            h[e.to.layer as int][e.to.node as int].value,
        ));
    }
}

/// In graphs that are wired alike a node sends the same values.
proof fn lemma_signals_alike(
    g: Layers,
    h: Layers,
    from: GraphLocation,
    conns: Seq<GraphEdge>,
    layer: GraphSize,
)
    requires
        same_wiring(g, h),
    ensures
        signals_of(g, from, conns, layer) == signals_of(h, from, conns, layer),
    decreases conns.len(),
{
    if conns.len() > 0 {
        lemma_signals_alike(g, h, from, conns.drop_last(), layer);
        lemma_carries_alike(g, h, from, conns.last());
    }
}

/// In graphs that are wired alike nodes of the graphs send the same
/// values.
proof fn lemma_sent_alike(g: Layers, h: Layers, sources: Seq<GraphLocation>, layer: GraphSize)
    requires
        same_wiring(g, h),
        forall|i: int| 0 <= i < sources.len() ==> has_node(g, #[trigger] sources[i]),
    ensures
        sent_to(g, sources, layer) == sent_to(h, sources, layer),
    decreases sources.len(),
{
    if sources.len() > 0 {
        let init = sources.drop_last();
        assert forall|i: int| 0 <= i < init.len() implies has_node(g, #[trigger] init[i]) by {
            assert(init[i] == sources[i]);
        }
        lemma_sent_alike(g, h, init, layer);
        let last = sources.last();
        assert(has_node(g, sources[sources.len() - 1]));
        assert(g[last.layer as int][last.node as int].connections
            == h[last.layer as int][last.node as int].connections);
        lemma_signals_alike(g, h, last, node_at(g, last).connections, layer);
    }
}

/// Graphs that are wired alike have the same input neurons.
proof fn lemma_inputs_alike(g: Layers, h: Layers, count: int)
    requires
        same_wiring(g, h),
    ensures
        input_sources(g, count) == input_sources(h, count),
    decreases count,
{
    if count > 0 && g.len() > 0 {
        lemma_inputs_alike(g, h, count - 1);
        if count - 1 < g[0].len() {
            assert(same_role(g[0][count - 1].value, h[0][count - 1].value));
        }
    }
}

/// Graphs that are wired alike have the same hidden neurons among given
/// locations.
proof fn lemma_neurons_alike(g: Layers, h: Layers, locs: Seq<GraphLocation>)
    requires
        same_wiring(g, h),
    ensures
        neurons_among(g, locs) == neurons_among(h, locs),
    decreases locs.len(),
{
    if locs.len() > 0 {
        lemma_neurons_alike(g, h, locs.drop_last());
        let at = locs.last();
        if has_node(g, at) || has_node(h, at) {
            assert(g[at.layer as int].len() == h[at.layer as int].len());
            assert(same_role(
                g[at.layer as int][at.node as int].value,
                h[at.layer as int][at.node as int].value,
            ));
        }
    }
}

/// In graphs that are wired alike the same nodes emit, the same values
/// arrive and the same nodes fire, layer by layer.
proof fn lemma_layers_alike(g: Layers, h: Layers, layer: int)
    requires
        same_wiring(g, h),
    ensures
        sources_before(g, layer) == sources_before(h, layer),
        queue_of(g, layer) == queue_of(h, layer),
        fired_in(g, layer) == fired_in(h, layer),
        plan_before(g, layer) == plan_before(h, layer),
    decreases layer,
{
    if layer >= 1 {
        lemma_layers_alike(g, h, layer - 1);
        if layer == 1 {
            if g.len() > 0 {
                assert(g[0].len() == h[0].len());
                lemma_inputs_alike(g, h, addressed(g[0].len() as int));
            }
        } else {
            lemma_neurons_alike(g, h, fired_in(g, layer - 1));
        }
        lemma_sources_in_graph(g, layer);
        lemma_sent_alike(g, h, sources_before(g, layer), layer as GraphSize);
    }
}

/// The plan of a tick depends on the wiring alone: on which nodes there
/// are, of which roles, and on their connections, not on the values that
/// the neurons hold. A tick changes such values only, so the next tick of
/// the same net takes the same steps.
pub proof fn lemma_plan_of_wiring(g: Layers, h: Layers)
    requires
        same_wiring(g, h),
    ensures
        tick_plan(g) == tick_plan(h),
{
    lemma_layers_alike(g, h, addressed(g.len() as int));
}

/// A layer at which nothing arrives adds nothing: neither sources nor
/// steps.
proof fn lemma_idle_layers(g: Layers, from: int, to: int)
    requires
        1 <= from <= to,
        forall|k: int|
            from <= k < to ==> sent_to(g, sources_before(g, from), #[trigger] (k as GraphSize)).len()
                == 0,
        to <= 0x10000,
    ensures
        sources_before(g, to) == sources_before(g, from),
        plan_before(g, to) == plan_before(g, from),
    decreases to - from,
{
    if from < to {
        lemma_idle_layers(g, from, to - 1);
        let k = to - 1;
        assert(sent_to(g, sources_before(g, from), k as GraphSize).len() == 0);
        assert(queue_of(g, k) =~= Seq::<Signal>::empty());
        assert(fired_in(g, k) =~= Seq::<GraphLocation>::empty());
        assert(neurons_among(g, fired_in(g, k)) =~= Seq::<GraphLocation>::empty());
        assert(sources_before(g, to) =~= sources_before(g, from));
        assert(plan_before(g, to) =~= plan_before(g, from));
    }
}

/// Values that arrive at a layer lead to a layer that the graph has.
proof fn lemma_signals_in_graph(g: Layers, from: GraphLocation, conns: Seq<GraphEdge>, layer: GraphSize)
    ensures
        signals_of(g, from, conns, layer).len() > 0 ==> layer < g.len() && from.layer < layer,
        forall|i: int|
            0 <= i < signals_of(g, from, conns, layer).len() ==> {
                let s = #[trigger] signals_of(g, from, conns, layer)[i];
                &&& s.from == from
                &&& s.edge.to.layer == layer
                &&& carries(g, from, s.edge)
            },
    decreases conns.len(),
{
    if conns.len() > 0 {
        lemma_signals_in_graph(g, from, conns.drop_last(), layer);
    }
}

/// Values that arrive at a layer lead to a layer that the graph has, to an
/// output or a hidden neuron.
proof fn lemma_sent_in_graph(g: Layers, sources: Seq<GraphLocation>, layer: GraphSize)
    ensures
        sent_to(g, sources, layer).len() > 0 ==> layer < g.len() && layer > 0,
        forall|i: int|
            0 <= i < sent_to(g, sources, layer).len() ==> {
                let s = #[trigger] sent_to(g, sources, layer)[i];
                &&& s.edge.to.layer == layer
                &&& has_node(g, s.edge.to)
            },
    decreases sources.len(),
{
    if sources.len() > 0 {
        lemma_sent_in_graph(g, sources.drop_last(), layer);
        lemma_signals_in_graph(g, sources.last(), node_at(g, sources.last()).connections, layer);
        let head = sent_to(g, sources.drop_last(), layer);
        let tail = signals_of(g, sources.last(), node_at(g, sources.last()).connections, layer);
        assert forall|i: int| 0 <= i < sent_to(g, sources, layer).len() implies {
            let s = #[trigger] sent_to(g, sources, layer)[i];
            &&& s.edge.to.layer == layer
            &&& has_node(g, s.edge.to)
        } by {
            if i < head.len() {
                assert(sent_to(g, sources, layer)[i] == head[i]);
            } else {
                assert(sent_to(g, sources, layer)[i] == tail[i - head.len()]);
            }
        }
    }
}

/// Changing the queue of one entry changes that queue and nothing else.
proof fn lemma_entry_updated(
    entries: Seq<(GraphSize, Seq<Signal>)>,
    layer: GraphSize,
    i: int,
    queue: Seq<Signal>,
)
    requires
        keys_distinct(entries),
        is_slot(entries, layer, i),
    ensures
        keys_distinct(entries.update(i, (layer, queue))),
        queue_at(entries, layer) == entries[i].1,
        queue_at(entries.update(i, (layer, queue)), layer) == queue,
        forall|k: GraphSize|
            has_key(entries.update(i, (layer, queue)), k) == has_key(entries, k),
        forall|k: GraphSize|
            k != layer ==> #[trigger] queue_at(entries.update(i, (layer, queue)), k) == queue_at(
                entries,
                k,
            ),
{
    let after = entries.update(i, (layer, queue));
    lemma_slot(entries, layer, i);
    assert(is_slot(after, layer, i));
    lemma_slot(after, layer, i);
    assert forall|k: GraphSize| has_key(after, k) == has_key(entries, k) by {
        if has_key(after, k) {
            let j = choose|j: int| is_slot(after, k, j);
            assert(is_slot(entries, k, j));
        }
        if has_key(entries, k) {
            let j = choose|j: int| is_slot(entries, k, j);
            assert(is_slot(after, k, j));
        }
    }
    assert forall|k: GraphSize| k != layer implies #[trigger] queue_at(after, k) == queue_at(
        entries,
        k,
    ) by {
        if has_key(entries, k) {
            let j = slot_of(entries, k);
            assert(is_slot(after, k, j));
            lemma_slot(after, k, j);
        }
    }
}

/// Where no two entries are for the same layer, an entry for a layer is
/// the entry for that layer.
proof fn lemma_slot(entries: Seq<(GraphSize, Seq<Signal>)>, layer: GraphSize, i: int)
    requires
        keys_distinct(entries),
        is_slot(entries, layer, i),
    ensures
        has_key(entries, layer),
        slot_of(entries, layer) == i,
{
    let j = slot_of(entries, layer);
    assert(is_slot(entries, layer, j));
    if i < j {
        assert(entries[i].0 != entries[j].0);
    }
    if j < i {
        assert(entries[j].0 != entries[i].0);
    }
}

/// A new entry adds its queue and changes nothing else.
proof fn lemma_entry_pushed(entries: Seq<(GraphSize, Seq<Signal>)>, layer: GraphSize, queue: Seq<Signal>)
    requires
        keys_distinct(entries),
        !has_key(entries, layer),
    ensures
        keys_distinct(entries.push((layer, queue))),
        queue_at(entries.push((layer, queue)), layer) == queue,
        forall|k: GraphSize|
            has_key(entries.push((layer, queue)), k) == (has_key(entries, k) || k == layer),
        forall|k: GraphSize|
            k != layer ==> #[trigger] queue_at(entries.push((layer, queue)), k) == queue_at(
                entries,
                k,
            ),
{
    let after = entries.push((layer, queue));
    assert forall|i: int, j: int| 0 <= i < j < after.len() implies (#[trigger] after[i]).0 != (
    #[trigger] after[j]).0 by {
        if j == entries.len() {
            assert(!is_slot(entries, layer, i));
        } else {
            assert(entries[i].0 != entries[j].0);
        }
    }
    assert(is_slot(after, layer, entries.len() as int));
    lemma_slot(after, layer, entries.len() as int);
    assert forall|k: GraphSize| has_key(after, k) == (has_key(entries, k) || k == layer) by {
        if has_key(after, k) && k != layer {
            let j = choose|j: int| is_slot(after, k, j);
            assert(is_slot(entries, k, j));
        }
        if has_key(entries, k) {
            let j = choose|j: int| is_slot(entries, k, j);
            assert(is_slot(after, k, j));
        }
    }
    assert forall|k: GraphSize| k != layer implies #[trigger] queue_at(after, k) == queue_at(
        entries,
        k,
    ) by {
        if has_key(entries, k) {
            let j = slot_of(entries, k);
            assert(is_slot(after, k, j));
            lemma_slot(after, k, j);
        }
    }
}

/// Taking out an entry takes out its layer and changes nothing else.
proof fn lemma_entry_removed(entries: Seq<(GraphSize, Seq<Signal>)>, layer: GraphSize, i: int)
    requires
        keys_distinct(entries),
        is_slot(entries, layer, i),
    ensures
        keys_distinct(entries.remove(i)),
        !has_key(entries.remove(i), layer),
        forall|k: GraphSize| k != layer ==> has_key(entries.remove(i), k) == has_key(entries, k),
        forall|k: GraphSize|
            k != layer ==> #[trigger] queue_at(entries.remove(i), k) == queue_at(entries, k),
{
    let after = entries.remove(i);
    assert forall|a: int, b: int| 0 <= a < b < after.len() implies (#[trigger] after[a]).0 != (
    #[trigger] after[b]).0 by {
        let x = if a < i {
            a
        } else {
            a + 1
        };
        let y = if b < i {
            b
        } else {
            b + 1
        };
        assert(entries[x].0 != entries[y].0);
    }
    assert(!has_key(after, layer)) by {
        if has_key(after, layer) {
            let j = choose|j: int| is_slot(after, layer, j);
            let x = if j < i {
                j
            } else {
                j + 1
            };
            assert(is_slot(entries, layer, x));
            if x < i {
                assert(entries[x].0 != entries[i].0);
            } else {
                assert(entries[i].0 != entries[x].0);
            }
        }
    }
    assert forall|k: GraphSize| k != layer implies has_key(after, k) == has_key(entries, k) by {
        if has_key(after, k) {
            let j = choose|j: int| is_slot(after, k, j);
            let x = if j < i {
                j
            } else {
                j + 1
            };
            assert(is_slot(entries, k, x));
        }
        if has_key(entries, k) {
            let j = choose|j: int| is_slot(entries, k, j);
            let x = if j < i {
                j
            } else {
                j - 1
            };
            assert(is_slot(after, k, x));
        }
    }
    assert forall|k: GraphSize| k != layer implies #[trigger] queue_at(after, k) == queue_at(
        entries,
        k,
    ) by {
        if has_key(entries, k) {
            let j = slot_of(entries, k);
            let x = if j < i {
                j
            } else {
                j - 1
            };
            assert(is_slot(after, k, x));
            lemma_slot(after, k, x);
        }
    }
}

/// Queues `signal` for the layer that it goes to.
fn enqueue(pending: &mut indexmap::IndexMap<GraphSize, Vec<Signal>>, signal: Signal)
    requires
        keys_distinct(pending_entries(*old(pending))),
    ensures
        keys_distinct(pending_entries(*final(pending))),
        forall|k: GraphSize|
            has_key(pending_entries(*final(pending)), k) == (has_key(
                pending_entries(*old(pending)),
                k,
            ) || k == signal.edge.to.layer),
        forall|k: GraphSize|
            #[trigger] queue_at(pending_entries(*final(pending)), k) == if k
                == signal.edge.to.layer {
                queue_at(pending_entries(*old(pending)), k).push(signal)
            } else {
                queue_at(pending_entries(*old(pending)), k)
            },
{
    let layer = signal.edge.to.layer;
    let ghost before = pending_entries(*pending);
    let mut found = false;
    match pending_get_mut(pending, layer) {
        Some(queue) => {
            proof {
                let i = slot_of(before, layer);
                assert(is_slot(before, layer, i));
                lemma_entry_updated(before, layer, i, queue@.push(signal));
            }
            queue.push(signal);
            found = true;
        },
        None => {},
    }
    if !found {
        let mut queue: Vec<Signal> = Vec::new();
        queue.push(signal);
        proof {
            lemma_entry_pushed(before, layer, queue@);
            assert(queue@ =~= queue_at(before, layer).push(signal));
        }
        pending_insert(pending, layer, queue);
    }
}

impl NeuralGraph {
    /// Whether a value that the node at `from` emits goes over the
    /// connection `e`.
    fn lets_through(&self, from: GraphLocation, e: &GraphEdge) -> (r: bool)
        ensures
            r == carries(self@, from, *e),
    {
        if !e.value.enabled || from.layer >= e.to.layer {
            return false;
        }
        match self.get_node(&e.to) {
            Some(node) => match node.value {
                Node::Output(_) => true,
                Node::Neuron(_) => true,
                _ => false,
            },
            None => false,
        }
    }

    /// Queues the values that the node at `from` emits, each for the layer
    /// that it goes to.
    fn emit(&self, pending: &mut indexmap::IndexMap<GraphSize, Vec<Signal>>, from: GraphLocation)
        requires
            has_node(self@, from),
            keys_distinct(pending_entries(*old(pending))),
        ensures
            keys_distinct(pending_entries(*final(pending))),
            forall|k: GraphSize|
                has_key(pending_entries(*final(pending)), k) == (has_key(
                    pending_entries(*old(pending)),
                    k,
                ) || signals_of(self@, from, node_at(self@, from).connections, k).len() > 0),
            forall|k: GraphSize|
                #[trigger] queue_at(pending_entries(*final(pending)), k) == queue_at(
                    pending_entries(*old(pending)),
                    k,
                ) + signals_of(self@, from, node_at(self@, from).connections, k),
    {
        let node = &self.layers[from.layer as usize][from.node as usize];
        let ghost start = pending_entries(*pending);
        let ghost conns = node_at(self@, from).connections;
        let mut j: usize = 0;
        proof {
            assert forall|k: GraphSize| #[trigger]
                queue_at(start, k) == queue_at(start, k) + signals_of(
                    self@,
                    from,
                    conns.take(0),
                    k,
                ) by {
                assert(queue_at(start, k) + Seq::<Signal>::empty() =~= queue_at(start, k));
            }
        }
        while j < node.connections.len()
            invariant
                j <= node.connections.len(),
                node.connections@ == conns,
                keys_distinct(pending_entries(*pending)),
                forall|k: GraphSize|
                    #![trigger has_key(pending_entries(*pending), k)]
                    has_key(pending_entries(*pending), k) == (has_key(start, k) || signals_of(
                        self@,
                        from,
                        conns.take(j as int),
                        k,
                    ).len() > 0),
                forall|k: GraphSize|
                    #[trigger] queue_at(pending_entries(*pending), k) == queue_at(start, k)
                        + signals_of(self@, from, conns.take(j as int), k),
            decreases node.connections.len() - j,
        {
            let e = node.connections[j];
            let ghost before = pending_entries(*pending);
            proof {
                assert(conns.take(j + 1).drop_last() =~= conns.take(j as int));
                assert(conns.take(j + 1).last() == e);
            }
            if self.lets_through(from, &e) {
                enqueue(pending, Signal { from, edge: e });
                proof {
                    assert forall|k: GraphSize|
                        #![trigger has_key(pending_entries(*pending), k)]
                        has_key(pending_entries(*pending), k) == (has_key(start, k) || signals_of(
                            self@,
                            from,
                            conns.take(j + 1),
                            k,
                        ).len() > 0) by {
                        let rest = signals_of(self@, from, conns.take(j as int), k);
                        assert(has_key(before, k) == (has_key(start, k) || rest.len() > 0));
                        assert(signals_of(self@, from, conns.take(j + 1), k) == if e.to.layer == k {
                            rest.push(Signal { from, edge: e })
                        } else {
                            rest
                        });
                        assert(has_key(pending_entries(*pending), k) == (has_key(before, k) || k
                            == e.to.layer));
                    }
                    assert forall|k: GraphSize| #[trigger]
                        queue_at(pending_entries(*pending), k) == queue_at(start, k) + signals_of(
                            self@,
                            from,
                            conns.take(j + 1),
                            k,
                        ) by {
                        assert(queue_at(before, k) == queue_at(start, k) + signals_of(
                            self@,
                            from,
                            conns.take(j as int),
                            k,
                        ));
                        if k == e.to.layer {
                            assert((queue_at(start, k) + signals_of(
                                self@,
                                from,
                                conns.take(j as int),
                                k,
                            )).push(Signal { from, edge: e }) =~= queue_at(start, k) + signals_of(
                                self@,
                                from,
                                conns.take(j as int),
                                k,
                            ).push(Signal { from, edge: e }));
                        }
                    }
                }
            } else {
                proof {
                    assert forall|k: GraphSize|
                        signals_of(self@, from, conns.take(j + 1), k) == signals_of(
                            self@,
                            from,
                            conns.take(j as int),
                            k,
                        ) by {}
                    assert forall|k: GraphSize|
                        #![trigger has_key(pending_entries(*pending), k)]
                        has_key(pending_entries(*pending), k) == (has_key(start, k) || signals_of(
                            self@,
                            from,
                            conns.take(j + 1),
                            k,
                        ).len() > 0) by {
                        assert(signals_of(self@, from, conns.take(j + 1), k) == signals_of(
                            self@,
                            from,
                            conns.take(j as int),
                            k,
                        ));
                    }
                }
            }
            j += 1;
        }
        proof {
            assert(conns.take(j as int) =~= conns);
        }
    }
}

/// The targets of `queue`, each once, in the order in which they first
/// occur.
fn distinct_targets(queue: &Vec<Signal>) -> (r: Vec<GraphLocation>)
    ensures
        r@ == targets_in_order(queue@),
{
    let mut out: Vec<GraphLocation> = Vec::new();
    let mut i: usize = 0;
    while i < queue.len()
        invariant
            i <= queue.len(),
            out@ == targets_in_order(queue@.take(i as int)),
        decreases queue.len() - i,
    {
        proof {
            assert(queue@.take(i + 1).drop_last() =~= queue@.take(i as int));
        }
        let to = queue[i].edge.to;
        let mut seen = false;
        let mut j: usize = 0;
        while j < out.len()
            invariant
                j <= out.len(),
                seen == exists|x: int| 0 <= x < j && out@[x] == to,
            decreases out.len() - j,
        {
            if out[j] == to {
                seen = true;
            }
            j += 1;
        }
        if !seen {
            out.push(to);
        }
        i += 1;
    }
    proof {
        assert(queue@.take(i as int) =~= queue@);
    }
    out
}

/// What is sent by one sequence of sources and then by another is what is
/// sent by both in a row.
proof fn lemma_sent_append(g: Layers, a: Seq<GraphLocation>, b: Seq<GraphLocation>, layer: GraphSize)
    ensures
        sent_to(g, a + b, layer) == sent_to(g, a, layer) + sent_to(g, b, layer),
    decreases b.len(),
{
    if b.len() == 0 {
        assert(a + b =~= a);
        assert(sent_to(g, a, layer) + sent_to(g, b, layer) =~= sent_to(g, a, layer));
    } else {
        lemma_sent_append(g, a, b.drop_last(), layer);
        assert((a + b).drop_last() =~= a + b.drop_last());
        assert((a + b).last() == b.last());
        let tail = signals_of(g, b.last(), node_at(g, b.last()).connections, layer);
        assert((sent_to(g, a, layer) + sent_to(g, b.drop_last(), layer)) + tail =~= sent_to(
            g,
            a,
            layer,
        ) + (sent_to(g, b.drop_last(), layer) + tail));
    }
}

/// What hidden neurons of one layer send goes to later layers.
proof fn lemma_sent_later(g: Layers, sources: Seq<GraphLocation>, from_layer: GraphSize, layer: GraphSize)
    requires
        forall|i: int| 0 <= i < sources.len() ==> (#[trigger] sources[i]).layer == from_layer,
    ensures
        sent_to(g, sources, layer).len() > 0 ==> layer > from_layer,
    decreases sources.len(),
{
    if sources.len() > 0 {
        lemma_sent_later(g, sources.drop_last(), from_layer, layer);
        lemma_signals_in_graph(g, sources.last(), node_at(g, sources.last()).connections, layer);
        assert(sources[sources.len() - 1].layer == from_layer);
    }
}

/// The hidden neurons among locations of one layer are in that layer, and
/// the graph holds them.
proof fn lemma_neurons_among(g: Layers, locs: Seq<GraphLocation>, layer: GraphSize)
    requires
        forall|i: int| 0 <= i < locs.len() ==> (#[trigger] locs[i]).layer == layer,
    ensures
        forall|i: int|
            0 <= i < neurons_among(g, locs).len() ==> (#[trigger] neurons_among(g, locs)[i]).layer
                == layer,
    decreases locs.len(),
{
    if locs.len() > 0 {
        lemma_neurons_among(g, locs.drop_last(), layer);
        assert(locs[locs.len() - 1].layer == layer);
        let out = neurons_among(g, locs);
        let inner = neurons_among(g, locs.drop_last());
        assert forall|i: int| 0 <= i < out.len() implies (#[trigger] out[i]).layer == layer by {
            if i < inner.len() {
                assert(out[i] == inner[i]);
            } else {
                assert(out[i] == locs.last());
            }
        }
    }
}

impl NeuralGraph {
    /// Queues what the input neurons emit.
    fn seed(&self, pending: &mut indexmap::IndexMap<GraphSize, Vec<Signal>>)
        requires
            self@.len() > 0,
            pending_entries(*old(pending)).len() == 0,
        ensures
            keys_distinct(pending_entries(*final(pending))),
            forall|k: GraphSize|
                has_key(pending_entries(*final(pending)), k) == (sent_to(
                    self@,
                    sources_before(self@, 1),
                    k,
                ).len() > 0),
            forall|k: GraphSize|
                #[trigger] queue_at(pending_entries(*final(pending)), k) == sent_to(
                    self@,
                    sources_before(self@, 1),
                    k,
                ),
    {
        let ghost mut sources: Seq<GraphLocation> = Seq::empty();
        let first_row = &self.layers[0];
        let mut n: usize = 0;
        proof {
            assert forall|k: GraphSize| !has_key(pending_entries(*pending), k) by {
                if has_key(pending_entries(*pending), k) {
                    let i = choose|i: int| is_slot(pending_entries(*pending), k, i);
                }
            }
        }
        while n < first_row.len() && n < 0x10000
            invariant
                self@.len() > 0,
                first_row == self.layers[0],
                n <= first_row.len(),
                n <= 0x10000,
                sources == input_sources(self@, n as int),
                keys_distinct(pending_entries(*pending)),
                forall|k: GraphSize|
                    has_key(pending_entries(*pending), k) == (sent_to(self@, sources, k).len() > 0),
                forall|k: GraphSize|
                    #[trigger] queue_at(pending_entries(*pending), k) == sent_to(self@, sources, k),
            decreases first_row.len() - n,
        {
            let from = GraphLocation { layer: 0, node: n as GraphSize };
            if let Node::Input(_) = first_row[n].value {
                let ghost before = sources;
                let ghost held = pending_entries(*pending);
                self.emit(pending, from);
                proof {
                    sources = sources.push(from);
                    assert(sources.drop_last() =~= before);
                    assert forall|k: GraphSize|
                        has_key(pending_entries(*pending), k) == (sent_to(self@, sources, k).len()
                            > 0) by {
                        assert(has_key(held, k) == (sent_to(self@, before, k).len() > 0));
                    }
                    assert forall|k: GraphSize| #[trigger]
                        queue_at(pending_entries(*pending), k) == sent_to(self@, sources, k) by {
                        assert(queue_at(held, k) == sent_to(self@, before, k));
                    }
                }
            }
            n += 1;
        }
    }

    /// Adds a step for each node of `targets`, which are in layer `layer`,
    /// and queues what the hidden neurons among them emit.
    fn fire_all(
        &self,
        pending: &mut indexmap::IndexMap<GraphSize, Vec<Signal>>,
        plan: &mut Vec<TickStep>,
        targets: &Vec<GraphLocation>,
        layer: GraphSize,
    )
        requires
            keys_distinct(pending_entries(*old(pending))),
            forall|i: int|
                0 <= i < targets@.len() ==> has_node(self@, #[trigger] targets@[i]) && targets@[i].layer
                    == layer,
        ensures
            final(plan)@ == old(plan)@ + fires(targets@),
            keys_distinct(pending_entries(*final(pending))),
            forall|k: GraphSize|
                has_key(pending_entries(*final(pending)), k) == (has_key(
                    pending_entries(*old(pending)),
                    k,
                ) || sent_to(self@, neurons_among(self@, targets@), k).len() > 0),
            forall|k: GraphSize|
                #[trigger] queue_at(pending_entries(*final(pending)), k) == queue_at(
                    pending_entries(*old(pending)),
                    k,
                ) + sent_to(self@, neurons_among(self@, targets@), k),
    {
        let ghost start = pending_entries(*pending);
        let ghost base = plan@;
        let ghost mut sources: Seq<GraphLocation> = Seq::empty();
        let mut t: usize = 0;
        proof {
            assert(neurons_among(self@, targets@.take(0)) =~= Seq::<GraphLocation>::empty());
            assert(plan@ =~= base + fires(targets@).take(0));
            assert forall|k: GraphSize| #[trigger]
                queue_at(start, k) == queue_at(start, k) + sent_to(self@, sources, k) by {
                assert(queue_at(start, k) + Seq::<Signal>::empty() =~= queue_at(start, k));
            }
        }
        while t < targets.len()
            invariant
                t <= targets.len(),
                forall|i: int|
                    0 <= i < targets@.len() ==> has_node(self@, #[trigger] targets@[i])
                        && targets@[i].layer == layer,
                plan@ == base + fires(targets@).take(t as int),
                sources == neurons_among(self@, targets@.take(t as int)),
                keys_distinct(pending_entries(*pending)),
                forall|k: GraphSize|
                    has_key(pending_entries(*pending), k) == (has_key(start, k) || sent_to(
                        self@,
                        sources,
                        k,
                    ).len() > 0),
                forall|k: GraphSize|
                    #[trigger] queue_at(pending_entries(*pending), k) == queue_at(start, k)
                        + sent_to(self@, sources, k),
            decreases targets.len() - t,
        {
            let loc = targets[t];
            plan.push(TickStep::Fire(loc));
            proof {
                assert(plan@ =~= base + fires(targets@).take(t + 1));
                assert(targets@.take(t + 1).drop_last() =~= targets@.take(t as int));
                assert(has_node(self@, targets@[t as int]));
            }
            let node = &self.layers[loc.layer as usize][loc.node as usize];
            if let Node::Neuron(_) = node.value {
                let ghost before = sources;
                let ghost held = pending_entries(*pending);
                self.emit(pending, loc);
                proof {
                    sources = sources.push(loc);
                    assert(sources.drop_last() =~= before);
                    assert forall|k: GraphSize|
                        has_key(pending_entries(*pending), k) == (has_key(start, k) || sent_to(
                            self@,
                            sources,
                            k,
                        ).len() > 0) by {
                        assert(has_key(held, k) == (has_key(start, k) || sent_to(
                            self@,
                            before,
                            k,
                        ).len() > 0));
                    }
                    assert forall|k: GraphSize| #[trigger]
                        queue_at(pending_entries(*pending), k) == queue_at(start, k) + sent_to(
                            self@,
                            sources,
                            k,
                        ) by {
                        let tail = signals_of(self@, loc, node_at(self@, loc).connections, k);
                        assert(queue_at(held, k) == queue_at(start, k) + sent_to(self@, before, k));
                        assert((queue_at(start, k) + sent_to(self@, before, k)) + tail
                            =~= queue_at(start, k) + (sent_to(self@, before, k) + tail));
                    }
                }
            }
            t += 1;
        }
        proof {
            assert(targets@.take(t as int) =~= targets@);
            assert(fires(targets@).take(t as int) =~= fires(targets@));
        }
    }
}

/// A copy of `queue`.
fn copy_queue(queue: &Vec<Signal>) -> (r: Vec<Signal>)
    ensures
        r@ == queue@,
{
    let mut out: Vec<Signal> = Vec::new();
    let mut i: usize = 0;
    while i < queue.len()
        invariant
            i <= queue.len(),
            out@ == queue@.take(i as int),
        decreases queue.len() - i,
    {
        out.push(queue[i]);
        proof {
            assert(out@ =~= queue@.take(i + 1));
        }
        i += 1;
    }
    proof {
        assert(queue@.take(i as int) =~= queue@);
    }
    out
}

/// Adds a step for each value of `queue`.
fn feed_all(plan: &mut Vec<TickStep>, queue: &Vec<Signal>)
    ensures
        final(plan)@ == old(plan)@ + feeds(queue@),
{
    let ghost base = plan@;
    let mut i: usize = 0;
    proof {
        assert(plan@ =~= base + feeds(queue@).take(0));
    }
    while i < queue.len()
        invariant
            i <= queue.len(),
            plan@ == base + feeds(queue@).take(i as int),
        decreases queue.len() - i,
    {
        plan.push(TickStep::Feed(queue[i]));
        proof {
            assert(plan@ =~= base + feeds(queue@).take(i + 1));
        }
        i += 1;
    }
    proof {
        assert(feeds(queue@).take(i as int) =~= feeds(queue@));
    }
}

/// The queue for the least layer, with that layer.
fn next_queue(pending: &mut indexmap::IndexMap<GraphSize, Vec<Signal>>) -> (r: Option<
    (GraphSize, Vec<Signal>),
>)
    requires
        keys_distinct(pending_entries(*old(pending))),
    ensures
        keys_distinct(pending_entries(*final(pending))),
        forall|k: GraphSize|
            has_key(pending_entries(*final(pending)), k) == has_key(
                pending_entries(*old(pending)),
                k,
            ),
        forall|k: GraphSize|
            #[trigger] queue_at(pending_entries(*final(pending)), k) == queue_at(
                pending_entries(*old(pending)),
                k,
            ),
        r is None <==> pending_entries(*old(pending)).len() == 0,
        r matches Some((layer, queue)) ==> {
            &&& has_key(pending_entries(*old(pending)), layer)
            &&& queue@ == queue_at(pending_entries(*old(pending)), layer)
            &&& forall|k: GraphSize| k < layer ==> !has_key(pending_entries(*old(pending)), k)
        },
{
    let ghost unsorted = pending_entries(*pending);
    pending_sort_keys(pending);
    let ghost entries = pending_entries(*pending);
    proof {
        assert(keys_distinct(entries)) by {
            assert forall|a: int, b: int| 0 <= a < b < entries.len() implies (#[trigger] entries[a]).0
                != (#[trigger] entries[b]).0 by {
                assert(entries[a].0 < entries[b].0);
            }
        }
    }
    match pending_first(pending) {
        Some((layer, found)) => {
            let queue = copy_queue(found);
            proof {
                assert(is_slot(entries, layer, 0));
                lemma_slot(entries, layer, 0);
                assert(has_key(entries, layer) == has_key(unsorted, layer));
                assert(queue_at(entries, layer) == entries[0].1);
                assert(queue_at(entries, layer) == queue_at(unsorted, layer));
                assert forall|k: GraphSize| k < layer implies !has_key(unsorted, k) by {
                    assert(has_key(entries, k) == has_key(unsorted, k));
                    if has_key(entries, k) {
                        let j = slot_of(entries, k);
                        assert(is_slot(entries, k, j));
                        if j > 0 {
                            assert(entries[0].0 < entries[j].0);
                        }
                    }
                }
            }
            Some((layer, queue))
        },
        None => None,
    }
}

impl Net {
    /// The steps of one tick, in order. The values of the input neurons
    /// go over the enabled connections of the input neurons. Then the layers
    /// at which values arrive are worked on in increasing order: each value
    /// that arrives at the layer is fed to its target, in the order in which
    /// the values were emitted; then each node that a value arrived at
    /// fires, in the order in which the first value arrived at it, and what
    /// a hidden neuron emits goes over its enabled connections. A connection
    /// that is not enabled, that does not lead to a later layer, or that
    /// does not lead to an output or a hidden neuron of the graph carries
    /// nothing.
    pub fn tick_plan(&self) -> (r: Vec<TickStep>)
        ensures
            r@ == tick_plan(self.graph@),
    {
        let mut plan: Vec<TickStep> = Vec::new();
        let g = &self.graph;
        if g.layers.len() == 0 {
            return plan;
        }
        let mut pending = pending_new();
        g.seed(&mut pending);
        let mut done: usize = 1;
        proof {
            assert(plan@ =~= plan_before(g@, 1));
            assert forall|k: GraphSize|
                has_key(pending_entries(pending), k) == (k >= 1 && sent_to(
                    g@,
                    sources_before(g@, 1),
                    k,
                ).len() > 0) by {
                lemma_sent_in_graph(g@, sources_before(g@, 1), k);
            }
        }
        loop
            invariant
                g == &self.graph,
                g@.len() > 0,
                1 <= done <= 0x10000,
                plan@ == plan_before(g@, done as int),
                keys_distinct(pending_entries(pending)),
                forall|k: GraphSize|
                    has_key(pending_entries(pending), k) == (k >= done && sent_to(
                        g@,
                        sources_before(g@, done as int),
                        k,
                    ).len() > 0),
                forall|k: GraphSize|
                    k >= done ==> #[trigger] queue_at(pending_entries(pending), k) == sent_to(
                        g@,
                        sources_before(g@, done as int),
                        k,
                    ),
            decreases 0x10000 - done,
        {
            let ghost earlier = sources_before(g@, done as int);
            let ghost unsorted = pending_entries(pending);
            let (layer, queue) = match next_queue(&mut pending) {
                Some(next) => next,
                None => {
                    proof {
                        lemma_finished(g@, done as int, unsorted);
                    }
                    return plan;
                },
            };
            let ghost entries = pending_entries(pending);
            proof {
                assert(layer >= done);
                assert(queue_at(unsorted, layer) == sent_to(g@, earlier, layer));
                lemma_sent_in_graph(g@, earlier, layer);
                assert forall|k: int| done <= k < layer implies sent_to(
                    g@,
                    sources_before(g@, done as int),
                    #[trigger] (k as GraphSize),
                ).len() == 0 by {
                    assert(!has_key(unsorted, k as GraphSize));
                }
                lemma_idle_layers(g@, done as int, layer as int);
            }
            feed_all(&mut plan, &queue);
            let targets = distinct_targets(&queue);
            proof {
                lemma_targets_in_graph(queue@);
                assert forall|i: int| 0 <= i < targets@.len() implies has_node(
                    g@,
                    #[trigger] targets@[i],
                ) && targets@[i].layer == layer by {
                    let y = choose|y: int| 0 <= y < queue@.len() && targets@[i] == queue@[y].edge.to;
                    assert(sent_to(g@, earlier, layer)[y].edge.to == targets@[i]);
                }
            }
            g.fire_all(&mut pending, &mut plan, &targets, layer);
            let ghost held = pending_entries(pending);
            let ghost emitted = neurons_among(g@, targets@);
            proof {
                assert(queue_of(g@, layer as int) == queue@);
                assert(fired_in(g@, layer as int) == targets@);
                assert(plan@ =~= plan_before(g@, layer + 1));
                assert(sources_before(g@, layer + 1) == earlier + emitted);
                lemma_neurons_among(g@, targets@, layer);
                assert(has_key(held, layer));
                let i = slot_of(held, layer);
                assert(is_slot(held, layer, i));
                lemma_entry_removed(held, layer, i);
            }
            pending_shift_remove(&mut pending, layer);
            proof {
                assert forall|k: GraphSize|
                    has_key(pending_entries(pending), k) == (k >= layer + 1 && sent_to(
                        g@,
                        earlier + emitted,
                        k,
                    ).len() > 0) by {
                    lemma_sent_append(g@, earlier, emitted, k);
                    lemma_sent_later(g@, emitted, layer, k);
                    if k != layer {
                        assert(has_key(held, k) == (has_key(entries, k) || sent_to(
                            g@,
                            emitted,
                            k,
                        ).len() > 0));
                        assert(has_key(entries, k) == has_key(unsorted, k));
                    }
                }
                assert forall|k: GraphSize| k >= layer + 1 implies #[trigger] queue_at(
                    pending_entries(pending),
                    k,
                ) == sent_to(g@, earlier + emitted, k) by {
                    lemma_sent_append(g@, earlier, emitted, k);
                    assert(queue_at(held, k) == queue_at(entries, k) + sent_to(g@, emitted, k));
                    assert(queue_at(entries, k) == queue_at(unsorted, k));
                }
            }
            done = layer as usize + 1;
        }
    }
}

/// The targets in order are targets of the queue.
proof fn lemma_targets_in_graph(queue: Seq<Signal>)
    ensures
        forall|x: int|
            0 <= x < targets_in_order(queue).len() ==> exists|y: int|
                0 <= y < queue.len() && (#[trigger] targets_in_order(queue)[x]) == queue[y].edge.to,
    decreases queue.len(),
{
    if queue.len() > 0 {
        let init = queue.drop_last();
        lemma_targets_in_graph(init);
        let out = targets_in_order(queue);
        let inner = targets_in_order(init);
        assert forall|x: int| 0 <= x < out.len() implies exists|y: int|
            0 <= y < queue.len() && (#[trigger] out[x]) == queue[y].edge.to by {
            if x < inner.len() {
                assert(out[x] == inner[x]);
                let y = choose|y: int| 0 <= y < init.len() && inner[x] == init[y].edge.to;
                assert(queue[y] == init[y]);
            } else {
                assert(out[x] == queue[queue.len() - 1].edge.to);
            }
        }
    }
}

/// When no value is under way, the layers that are left add nothing.
proof fn lemma_finished(g: Layers, done: int, entries: Seq<(GraphSize, Seq<Signal>)>)
    requires
        1 <= done <= 0x10000,
        g.len() > 0,
        entries.len() == 0,
        forall|k: GraphSize|
            has_key(entries, k) == (k >= done && sent_to(g, sources_before(g, done), k).len() > 0),
    ensures
        plan_before(g, done) == tick_plan(g),
{
    assert forall|k: GraphSize| !has_key(entries, k) by {
        if has_key(entries, k) {
            let i = choose|i: int| is_slot(entries, k, i);
        }
    }
    let end = addressed(g.len() as int);
    if done <= end {
        assert forall|k: int| done <= k < end implies sent_to(
            g,
            sources_before(g, done),
            #[trigger] (k as GraphSize),
        ).len() == 0 by {
            assert(!has_key(entries, k as GraphSize));
        }
        lemma_idle_layers(g, done, end);
    } else {
        lemma_short(g, end, done);
    }
}

/// Layers that the graph does not have receive nothing.
proof fn lemma_short(g: Layers, from: int, to: int)
    requires
        1 <= from <= to <= 0x10000,
        from == g.len(),
    ensures
        plan_before(g, to) == plan_before(g, from),
    decreases to - from,
{
    if from < to {
        let k = to - 1;
        lemma_short(g, from, k);
        lemma_sent_in_graph(g, sources_before(g, k), k as GraphSize);
        assert(queue_of(g, k) =~= Seq::<Signal>::empty());
        assert(fired_in(g, k) =~= Seq::<GraphLocation>::empty());
        assert(plan_before(g, to) =~= plan_before(g, k));
    }
}

} // verus!
