use engine::activations::Sigmoid;
use engine::nn::tick::{Signal, TickStep};
use engine::nn::{
    BasicNeuron, Edge, GraphEdge, GraphLocation, GraphNode, InputNeuron, Net, NeuralGraph, Node,
    Scalar,
};

fn bits(x: f32) -> Scalar {
    x.to_bits()
}

fn loc(layer: u16, node: u16) -> GraphLocation {
    GraphLocation::new(layer, node)
}

fn on(weight: f32) -> Edge {
    Edge { weight: bits(weight), enabled: true }
}

fn off(weight: f32) -> Edge {
    Edge { weight: bits(weight), enabled: false }
}

fn feed(from: GraphLocation, to: GraphLocation, value: Edge) -> TickStep {
    TickStep::Feed(Signal { from, edge: GraphEdge { to, value } })
}

fn net(hidden: &[usize]) -> Net {
    let mut g = NeuralGraph::new();
    g.add_layer_to_end();
    g.add_node(0, GraphNode::new(Node::Input(InputNeuron { kind: "BlankInput", id: 0, value: bits(1.0) }))).unwrap();
    g.add_node(0, GraphNode::new(Node::Input(InputNeuron { kind: "BlankInput", id: 1, value: bits(2.0) }))).unwrap();
    let mut id = 10;
    for count in hidden {
        let l = g.add_layer_to_end();
        for _ in 0..*count {
            g.add_node(l, GraphNode::new(Node::Neuron(BasicNeuron::new(bits(0.0), id)))).unwrap();
            id += 1;
        }
    }
    let l = g.add_layer_to_end();
    g.add_node(l, GraphNode::new(Node::Output(Sigmoid::new(bits(0.0), 2, "a")))).unwrap();
    g.add_node(l, GraphNode::new(Node::Output(Sigmoid::new(bits(0.0), 3, "b")))).unwrap();
    Net { graph: g, input_layer: 0, output_layer: l }
}

#[test]
fn tick_plan_of_a_net_without_connections_is_empty() {
    assert_eq!(net(&[]).tick_plan(), vec![]);
    assert_eq!(net(&[2, 2]).tick_plan(), vec![]);
    let empty = Net { graph: NeuralGraph::new(), input_layer: 0, output_layer: 0 };
    assert_eq!(empty.tick_plan(), vec![]);
}

#[test]
fn tick_plan_works_through_the_layers_in_order() {
    let mut n = net(&[1]);
    let (i0, i1, h0, o0, o1) = (loc(0, 0), loc(0, 1), loc(1, 0), loc(2, 0), loc(2, 1));
    // the first value to be queued goes to the last layer
    n.graph.add_edge(i0, o0, on(1.0)).unwrap();
    n.graph.add_edge(i0, h0, on(2.0)).unwrap();
    n.graph.add_edge(i0, o1, off(3.0)).unwrap();
    n.graph.add_edge(i1, h0, on(4.0)).unwrap();
    n.graph.add_edge(h0, o1, on(5.0)).unwrap();
    n.graph.add_edge(h0, o0, on(6.0)).unwrap();
    assert_eq!(
        n.tick_plan(),
        vec![
            feed(i0, h0, on(2.0)),
            feed(i1, h0, on(4.0)),
            TickStep::Fire(h0),
            feed(i0, o0, on(1.0)),
            feed(h0, o1, on(5.0)),
            feed(h0, o0, on(6.0)),
            TickStep::Fire(o0),
            TickStep::Fire(o1),
        ]
    );
    // the plan depends on the graph alone
    assert_eq!(n.tick_plan(), n.tick_plan());
}

#[test]
fn tick_plan_skips_layers_at_which_nothing_arrives() {
    let mut n = net(&[1, 1, 1]);
    let (i1, h1, o0) = (loc(0, 1), loc(2, 0), loc(4, 0));
    n.graph.add_edge(i1, h1, on(1.0)).unwrap();
    n.graph.add_edge(h1, o0, on(2.0)).unwrap();
    // a hidden neuron that receives nothing emits nothing
    n.graph.add_edge(loc(1, 0), loc(4, 1), on(3.0)).unwrap();
    assert_eq!(
        n.tick_plan(),
        vec![feed(i1, h1, on(1.0)), TickStep::Fire(h1), feed(h1, o0, on(2.0)), TickStep::Fire(o0)]
    );
}

#[test]
fn tick_plan_leaves_out_what_is_not_enabled() {
    let mut n = net(&[2]);
    n.graph.add_edge(loc(0, 0), loc(1, 0), off(1.0)).unwrap();
    n.graph.add_edge(loc(0, 1), loc(1, 1), on(2.0)).unwrap();
    n.graph.add_edge(loc(1, 0), loc(2, 0), on(3.0)).unwrap();
    n.graph.add_edge(loc(1, 1), loc(2, 1), off(4.0)).unwrap();
    assert_eq!(n.tick_plan(), vec![feed(loc(0, 1), loc(1, 1), on(2.0)), TickStep::Fire(loc(1, 1))]);
}

#[test]
fn tick_plan_leaves_out_what_does_not_lead_forward_to_a_node() {
    let mut n = net(&[2]);
    // to the same layer, backwards, to a placeholder, and to nowhere
    n.graph.add_node(1, GraphNode::blank()).unwrap();
    n.graph.add_edge(loc(0, 0), loc(0, 1), on(1.0)).unwrap();
    n.graph.add_edge(loc(0, 0), loc(1, 2), on(2.0)).unwrap();
    n.graph.add_edge(loc(0, 0), loc(1, 0), on(3.0)).unwrap();
    n.graph.add_edge(loc(1, 0), loc(0, 0), on(4.0)).unwrap();
    n.graph.add_edge(loc(1, 0), loc(1, 1), on(5.0)).unwrap();
    n.graph.add_edge(loc(1, 0), loc(2, 1), on(6.0)).unwrap();
    n.graph.get_node_mut(&loc(1, 0)).unwrap().connections.push(GraphEdge { to: loc(2, 9), value: on(7.0) });
    assert_eq!(
        n.tick_plan(),
        vec![
            feed(loc(0, 0), loc(1, 0), on(3.0)),
            TickStep::Fire(loc(1, 0)),
            feed(loc(1, 0), loc(2, 1), on(6.0)),
            TickStep::Fire(loc(2, 1)),
        ]
    );
}

#[test]
fn tick_plan_fires_each_node_once_in_the_order_of_arrival() {
    let mut n = net(&[2]);
    n.graph.add_edge(loc(0, 0), loc(1, 1), on(1.0)).unwrap();
    n.graph.add_edge(loc(0, 0), loc(1, 0), on(2.0)).unwrap();
    n.graph.add_edge(loc(0, 1), loc(1, 1), on(3.0)).unwrap();
    assert_eq!(
        n.tick_plan(),
        vec![
            feed(loc(0, 0), loc(1, 1), on(1.0)),
            feed(loc(0, 0), loc(1, 0), on(2.0)),
            feed(loc(0, 1), loc(1, 1), on(3.0)),
            TickStep::Fire(loc(1, 1)),
            TickStep::Fire(loc(1, 0)),
        ]
    );
}

#[test]
fn tick_plan_takes_values_from_input_neurons_only() {
    let mut n = net(&[1]);
    n.graph.get_node_mut(&loc(0, 0)).unwrap().value = Node::Neuron(BasicNeuron::new(bits(0.0), 0));
    n.graph.add_edge(loc(0, 0), loc(1, 0), on(1.0)).unwrap();
    assert_eq!(n.tick_plan(), vec![]);
    n.graph.add_edge(loc(0, 1), loc(2, 0), on(2.0)).unwrap();
    assert_eq!(n.tick_plan(), vec![feed(loc(0, 1), loc(2, 0), on(2.0)), TickStep::Fire(loc(2, 0))]);
}

#[test]
fn tick_plan_does_not_depend_on_the_values_held() {
    let mut n = net(&[1]);
    n.graph.add_edge(loc(0, 0), loc(1, 0), on(1.0)).unwrap();
    n.graph.add_edge(loc(0, 1), loc(2, 1), on(2.0)).unwrap();
    n.graph.add_edge(loc(1, 0), loc(2, 0), on(3.0)).unwrap();
    let before = n.tick_plan();
    assert_eq!(before.len(), 6);
    if let Node::Input(i) = &mut n.graph.get_node_mut(&loc(0, 0)).unwrap().value {
        i.value = bits(17.0);
    }
    if let Node::Output(o) = &mut n.graph.get_node_mut(&loc(2, 0)).unwrap().value {
        o.value = bits(0.75);
    }
    if let Node::Neuron(h) = &mut n.graph.get_node_mut(&loc(1, 0)).unwrap().value {
        h.bias = bits(-3.0);
    }
    assert_eq!(n.tick_plan(), before);
}
