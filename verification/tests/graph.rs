use engine::activations::Sigmoid;
use engine::nn::mutate::AddNeuron;
use engine::nn::reproduce::{Crossover, Reproducer};
use engine::nn::{
    kind_eq, BasicNeuron, Edge, GraphEdge, GraphLocation, GraphNode, InputNeuron, Net, NeuralGraph,
    NeuralGraphError, Neuron, Node, Scalar,
};
use engine::NeuronInfo;

fn bits(x: f32) -> Scalar {
    x.to_bits()
}

fn blank_input(value: f32, id: usize) -> Node {
    Node::Input(InputNeuron { kind: "BlankInput", id, value: bits(value) })
}

fn test_neuron_a(value: f32, id: usize) -> Node {
    Node::Neuron(Neuron { kind: "TestNeuronA", id, bias: bits(value) })
}

fn test_neuron_b(value: f32, id: usize) -> Node {
    Node::Neuron(Neuron { kind: "TestNeuronB", id, bias: bits(value) })
}

fn basic(bias: f32, id: usize) -> Node {
    Node::Neuron(BasicNeuron::new(bits(bias), id))
}

fn create_graph(inputs: &[Node], outputs: &[Node]) -> NeuralGraph {
    let mut g = NeuralGraph::new();
    g.add_layer_to_end();
    for item in inputs.to_vec() {
        g.add_node(0, GraphNode::new(item)).unwrap();
    }

    g.add_layer_to_end();
    for item in outputs.to_vec() {
        g.add_node(1, GraphNode::new(item)).unwrap();
    }
    g
}

#[test]
fn has_cycle() {
    let input_nodes = [blank_input(0.0, 0), blank_input(0.0, 1), blank_input(0.0, 2)];

    let output_nodes = [
        Node::Output(Sigmoid::new(bits(0.0), 3, "a")),
        Node::Output(Sigmoid::new(bits(0.0), 4, "b")),
    ];

    let mut g = create_graph(&input_nodes, &output_nodes);
    g.add_layer(1);
    g.add_node(1, GraphNode::blank()).unwrap();
    g.add_node(1, GraphNode::blank()).unwrap();

    g.add_layer(2);
    g.add_node(2, GraphNode::blank()).unwrap();
    g.add_node(2, GraphNode::blank()).unwrap();

    g.add_edge(GraphLocation::new(0, 1), GraphLocation::new(1, 0), Edge::default()).unwrap();
    g.add_edge(GraphLocation::new(0, 2), GraphLocation::new(1, 1), Edge::default()).unwrap();
    g.add_edge(GraphLocation::new(1, 0), GraphLocation::new(2, 1), Edge::default()).unwrap();
    g.add_edge(GraphLocation::new(1, 1), GraphLocation::new(2, 0), Edge::default()).unwrap();
    g.add_edge(GraphLocation::new(1, 1), GraphLocation::new(2, 1), Edge::default()).unwrap();
    g.add_edge(GraphLocation::new(2, 0), GraphLocation::new(3, 0), Edge::default()).unwrap();
    g.add_edge(GraphLocation::new(2, 1), GraphLocation::new(3, 0), Edge::default()).unwrap();

    // should not be a cycle since 0,0 is not connected to anything
    assert!(!g.has_cycle(None));
    assert!(!g.has_cycle(Some(GraphLocation::new(0, 1))));

    g.add_edge(GraphLocation::new(3, 0), GraphLocation::new(1, 0), Edge::default()).unwrap();

    assert!(g.has_cycle(Some(GraphLocation::new(0, 1))));
}

#[test]
fn add_neuron() {
    let input_nodes = [blank_input(0.0, 0), blank_input(0.0, 1)];

    let output_nodes = [
        Node::Output(Sigmoid::new(bits(0.0), 2, "a")),
        Node::Output(Sigmoid::new(bits(0.0), 3, "b")),
    ];

    let mut graph_mutation = create_graph(&input_nodes, &output_nodes);
    let mut graph_verify = create_graph(&input_nodes, &output_nodes);

    graph_mutation.add_layer(1);
    graph_verify.add_layer(1);
    graph_verify.open_layer(1);
    graph_mutation.add_node(1, GraphNode::new(basic(0.0, 0))).unwrap();
    graph_verify.add_node(1, GraphNode::new(basic(0.0, 0))).unwrap();
    graph_verify.add_node(2, GraphNode::new(basic(0.0, 0))).unwrap();

    let e = Edge { weight: bits(1.3), enabled: true };
    graph_verify.add_edge(GraphLocation::new(0, 0), GraphLocation::new(1, 0), e.clone()).unwrap();
    graph_verify.add_edge(GraphLocation::new(0, 1), GraphLocation::new(2, 0), Edge::default()).unwrap();

    graph_verify.add_edge(GraphLocation::new(1, 0), GraphLocation::new(2, 0), Edge::default()).unwrap();

    graph_verify.add_edge(GraphLocation::new(2, 0), GraphLocation::new(3, 0), Edge::default()).unwrap();
    graph_verify.add_edge(GraphLocation::new(2, 0), GraphLocation::new(3, 1), Edge::default()).unwrap();

    graph_mutation.add_edge(GraphLocation::new(0, 0), GraphLocation::new(1, 0), Edge::default()).unwrap();
    graph_mutation.add_edge(GraphLocation::new(0, 1), GraphLocation::new(1, 0), Edge::default()).unwrap();

    graph_mutation.add_edge(GraphLocation::new(1, 0), GraphLocation::new(2, 0), Edge::default()).unwrap();
    graph_mutation.add_edge(GraphLocation::new(1, 0), GraphLocation::new(2, 1), Edge::default()).unwrap();

    let mut m = Net { graph: graph_mutation, input_layer: 0, output_layer: 2 };

    let v = Net { graph: graph_verify, input_layer: 0, output_layer: 3 };

    AddNeuron {}
        .run(
            GraphLocation::new(0, 0),
            GraphEdge { to: GraphLocation::new(1, 0), value: e.clone() },
            &mut m,
            BasicNeuron::new(bits(0.0), 0),
        )
        .unwrap();

    assert_eq!(m.graph, v.graph);
}

#[test]
fn basic_test() {
    let input_nodes = [blank_input(0.0, 0), blank_input(0.0, 1), blank_input(0.0, 2)];

    let output_nodes = [
        Node::Output(Sigmoid::new(bits(0.0), 3, "a")),
        Node::Output(Sigmoid::new(bits(0.0), 4, "b")),
    ];

    let mut graph_a = create_graph(&input_nodes, &output_nodes);

    graph_a.add_layer(1);
    graph_a.add_node(1, GraphNode::new(basic(0.0, 5))).unwrap();
    graph_a.add_node(1, GraphNode::new(test_neuron_a(0.0, 6))).unwrap();

    graph_a.add_edge(GraphLocation::new(0, 0), GraphLocation::new(1, 0), Edge::default()).unwrap();
    graph_a.add_edge(GraphLocation::new(0, 1), GraphLocation::new(1, 0), Edge::default()).unwrap();
    graph_a.add_edge(GraphLocation::new(0, 2), GraphLocation::new(1, 0), Edge::default()).unwrap();
    graph_a.add_edge(GraphLocation::new(0, 2), GraphLocation::new(1, 1), Edge::default()).unwrap();

    graph_a.add_edge(GraphLocation::new(1, 0), GraphLocation::new(2, 0), Edge::default()).unwrap();
    graph_a.add_edge(GraphLocation::new(1, 0), GraphLocation::new(2, 1), Edge::default()).unwrap();

    graph_a.add_edge(GraphLocation::new(1, 1), GraphLocation::new(2, 1), Edge::default()).unwrap();

    let a = Net { graph: graph_a, input_layer: 0, output_layer: 2 };

    let mut graph_b = create_graph(&input_nodes, &output_nodes);

    graph_b.add_layer(1);
    graph_b.add_node(1, GraphNode::new(test_neuron_b(0.0, 6))).unwrap();
    graph_b.add_node(1, GraphNode::new(basic(0.0, 5))).unwrap();

    graph_b.add_edge(GraphLocation::new(0, 0), GraphLocation::new(1, 1), Edge::default()).unwrap();
    graph_b.add_edge(GraphLocation::new(0, 1), GraphLocation::new(1, 1), Edge::default()).unwrap();
    graph_b.add_edge(GraphLocation::new(0, 2), GraphLocation::new(1, 1), Edge::default()).unwrap();
    graph_b.add_edge(GraphLocation::new(0, 0), GraphLocation::new(1, 0), Edge::default()).unwrap();

    graph_b.add_edge(GraphLocation::new(1, 1), GraphLocation::new(2, 0), Edge::default()).unwrap();
    graph_b.add_edge(GraphLocation::new(1, 1), GraphLocation::new(2, 1), Edge::default()).unwrap();
    graph_b.add_edge(GraphLocation::new(1, 0), GraphLocation::new(2, 0), Edge::default()).unwrap();
    graph_b.add_edge(GraphLocation::new(1, 0), GraphLocation::new(2, 1), Edge::default()).unwrap();

    let b = Net { graph: graph_b, input_layer: 0, output_layer: 2 };

    let mut output = Net::from_preserving_basic(&a).expect("Could not create neural net from A");
    Crossover::default().reproduce(&a, &b, &mut output).expect("Could not crossover");

    let mut compose_output = create_graph(&input_nodes, &output_nodes);

    compose_output.add_layer(1);
    compose_output.add_node(1, GraphNode::new(basic(0.0, 5))).unwrap();

    compose_output.add_edge(GraphLocation::new(0, 0), GraphLocation::new(1, 0), Edge::default()).unwrap();
    compose_output.add_edge(GraphLocation::new(0, 1), GraphLocation::new(1, 0), Edge::default()).unwrap();
    compose_output.add_edge(GraphLocation::new(0, 2), GraphLocation::new(1, 0), Edge::default()).unwrap();

    compose_output.add_edge(GraphLocation::new(1, 0), GraphLocation::new(2, 0), Edge::default()).unwrap();
    compose_output.add_edge(GraphLocation::new(1, 0), GraphLocation::new(2, 1), Edge::default()).unwrap();

    assert_eq!(compose_output, output.graph);
}

fn loc(layer: u16, node: u16) -> GraphLocation {
    GraphLocation::new(layer, node)
}

fn on() -> Edge {
    Edge { weight: bits(0.5), enabled: true }
}

fn small_graph() -> NeuralGraph {
    let inputs = [blank_input(0.0, 0), blank_input(0.0, 1)];
    let outputs = [Node::Output(Sigmoid::new(bits(0.0), 2, "a"))];
    let mut g = create_graph(&inputs, &outputs);
    g.add_layer(1);
    g.add_node(1, GraphNode::new(basic(0.0, 7))).unwrap();
    g
}

#[test]
fn new_graph_has_no_layers() {
    let g = NeuralGraph::new();
    assert_eq!(g.layers.len(), 0);
    assert!(!g.has_cycle(None));
}

#[test]
fn add_layer_to_end_returns_the_index() {
    let mut g = NeuralGraph::new();
    assert_eq!(g.add_layer_to_end(), 0);
    assert_eq!(g.add_layer_to_end(), 1);
    assert_eq!(g.add_layer_to_end(), 2);
    assert_eq!(g.layers.len(), 3);
}

#[test]
fn add_node_returns_the_location() {
    let mut g = NeuralGraph::new();
    g.add_layer_to_end();
    assert_eq!(g.add_node(0, GraphNode::blank()), Ok(loc(0, 0)));
    assert_eq!(g.add_node(0, GraphNode::blank()), Ok(loc(0, 1)));
}

#[test]
fn add_node_refuses_a_missing_layer() {
    let mut g = NeuralGraph::new();
    g.add_layer_to_end();
    g.add_layer_to_end();
    let before = g.clone();
    assert_eq!(
        g.add_node(2, GraphNode::blank()),
        Err(NeuralGraphError::LayerNotFound(2))
    );
    assert_eq!(
        g.add_node(9, GraphNode::blank()),
        Err(NeuralGraphError::LayerNotFound(2))
    );
    assert_eq!(g, before);
}

#[test]
fn get_node_tolerates_absent_locations() {
    let mut g = small_graph();
    assert!(g.get_node(&loc(0, 1)).is_some());
    assert!(g.get_node(&loc(0, 2)).is_none());
    assert!(g.get_node(&loc(3, 0)).is_none());
    assert!(g.get_node_mut(&loc(3, 0)).is_none());
    assert_eq!(g.get_node(&loc(1, 0)).unwrap().value, basic(0.0, 7));
}

#[test]
fn get_node_mut_edits_in_place() {
    let mut g = small_graph();
    g.get_node_mut(&loc(0, 1)).unwrap().value = blank_input(2.0, 9);
    assert_eq!(g.get_node(&loc(0, 1)).unwrap().value, blank_input(2.0, 9));
    assert_eq!(g.get_node(&loc(0, 0)).unwrap().value, blank_input(0.0, 0));
}

#[test]
fn add_edge_appends_to_the_source() {
    let mut g = small_graph();
    assert_eq!(g.add_edge(loc(0, 0), loc(1, 0), on()), Ok(()));
    assert_eq!(g.add_edge(loc(0, 0), loc(2, 0), Edge::default()), Ok(()));
    let node = g.get_node(&loc(0, 0)).unwrap();
    assert_eq!(
        node.connections,
        vec![
            GraphEdge { to: loc(1, 0), value: on() },
            GraphEdge { to: loc(2, 0), value: Edge::default() },
        ]
    );
    assert!(g.get_node(&loc(0, 1)).unwrap().connections.is_empty());
}

#[test]
fn add_edge_refusals() {
    let mut g = small_graph();
    g.add_edge(loc(0, 0), loc(1, 0), on()).unwrap();
    let before = g.clone();
    // the target is looked at first
    assert_eq!(g.add_edge(loc(5, 5), loc(6, 6), on()), Err(NeuralGraphError::NodeNotFound(loc(6, 6))));
    assert_eq!(g.add_edge(loc(5, 5), loc(1, 0), on()), Err(NeuralGraphError::NodeNotFound(loc(5, 5))));
    assert_eq!(g.add_edge(loc(0, 0), loc(1, 1), on()), Err(NeuralGraphError::NodeNotFound(loc(1, 1))));
    assert_eq!(
        g.add_edge(loc(0, 0), loc(1, 0), Edge::default()),
        Err(NeuralGraphError::ConnectionExists { from: loc(0, 0), to: loc(1, 0) })
    );
    assert_eq!(g, before);
}

#[test]
fn add_edge_one_past_the_last_layer_is_refused() {
    let mut g = small_graph();
    assert_eq!(g.layers.len(), 3);
    assert_eq!(g.add_edge(loc(0, 0), loc(3, 0), on()), Err(NeuralGraphError::NodeNotFound(loc(3, 0))));
    assert_eq!(g.layers.len(), 3);
}

#[test]
fn get_edge_finds_the_connection() {
    let mut g = small_graph();
    g.add_edge(loc(0, 0), loc(2, 0), Edge::default()).unwrap();
    g.add_edge(loc(0, 0), loc(1, 0), on()).unwrap();
    assert_eq!(g.get_edge(&loc(0, 0), &loc(1, 0)), Some(&GraphEdge { to: loc(1, 0), value: on() }));
    assert_eq!(g.find_edge(&loc(0, 0), &loc(1, 0)), Some(1));
    assert_eq!(g.get_edge(&loc(0, 1), &loc(1, 0)), None);
    assert_eq!(g.get_edge(&loc(7, 0), &loc(1, 0)), None);
    assert!(g.get_edge_mut(&loc(7, 0), &loc(1, 0)).is_none());
}

#[test]
fn get_edge_mut_edits_in_place() {
    let mut g = small_graph();
    g.add_edge(loc(0, 0), loc(2, 0), Edge::default()).unwrap();
    g.add_edge(loc(0, 0), loc(1, 0), Edge::default()).unwrap();
    g.get_edge_mut(&loc(0, 0), &loc(1, 0)).unwrap().value.enabled = true;
    assert!(g.get_edge(&loc(0, 0), &loc(1, 0)).unwrap().value.enabled);
    assert!(!g.get_edge(&loc(0, 0), &loc(2, 0)).unwrap().value.enabled);
}

#[test]
fn remove_edge_tells_whether_it_removed() {
    let mut g = small_graph();
    g.add_edge(loc(0, 0), loc(1, 0), on()).unwrap();
    g.add_edge(loc(0, 0), loc(2, 0), on()).unwrap();
    assert!(g.remove_edge(&loc(0, 0), &loc(1, 0)));
    assert_eq!(g.get_node(&loc(0, 0)).unwrap().connections, vec![GraphEdge { to: loc(2, 0), value: on() }]);
    assert!(!g.remove_edge(&loc(0, 0), &loc(1, 0)));
    assert!(!g.remove_edge(&loc(9, 9), &loc(1, 0)));
    assert_eq!(g.get_node(&loc(0, 0)).unwrap().connections.len(), 1);
}

#[test]
fn push_node_at_appends() {
    let mut g = small_graph();
    assert_eq!(g.push_node_at(1, basic(1.0, 8)), loc(1, 1));
    assert_eq!(g.get_node(&loc(1, 1)).unwrap().value, basic(1.0, 8));
    assert!(g.get_node(&loc(1, 1)).unwrap().connections.is_empty());
}

#[test]
fn open_layer_always_opens_a_layer_and_renumbers() {
    let mut g = small_graph();
    g.add_edge(loc(0, 0), loc(1, 0), on()).unwrap();
    g.add_edge(loc(0, 1), loc(2, 0), on()).unwrap();
    g.add_edge(loc(1, 0), loc(2, 0), on()).unwrap();
    g.open_layer(1);
    assert_eq!(g.layers.len(), 4);
    assert!(g.layers[1].is_empty());
    assert_eq!(g.get_node(&loc(2, 0)).unwrap().value, basic(0.0, 7));
    assert_eq!(g.get_node(&loc(0, 0)).unwrap().connections[0].to, loc(2, 0));
    assert_eq!(g.get_node(&loc(0, 1)).unwrap().connections[0].to, loc(3, 0));
    assert_eq!(g.get_node(&loc(2, 0)).unwrap().connections[0].to, loc(3, 0));
}

#[test]
fn add_layer_behind_lower_targets_leaves_them() {
    let mut g = small_graph();
    g.add_edge(loc(0, 0), loc(1, 0), on()).unwrap();
    g.add_edge(loc(0, 1), loc(2, 0), on()).unwrap();
    g.add_layer(2);
    assert_eq!(g.layers.len(), 4);
    assert!(g.layers[2].is_empty());
    assert_eq!(g.get_node(&loc(0, 0)).unwrap().connections[0].to, loc(1, 0));
    assert_eq!(g.get_node(&loc(0, 1)).unwrap().connections[0].to, loc(3, 0));
}

#[test]
fn add_layer_past_the_end_keeps_the_last_layer_last() {
    let mut g = small_graph();
    g.add_edge(loc(0, 1), loc(2, 0), on()).unwrap();
    g.add_layer(3);
    // two layers, so that index 3 is that of a layer that is not the last
    assert_eq!(g.layers.len(), 5);
    assert_eq!(g.layers[4].len(), 1);
    assert!(g.layers[2].is_empty());
    assert!(g.layers[3].is_empty());
    assert_eq!(g.get_node(&loc(0, 1)).unwrap().connections[0].to, loc(4, 0));
}

#[test]
fn add_layer_changes_nothing_where_the_index_is_there() {
    let mut g = small_graph();
    g.add_edge(loc(0, 1), loc(2, 0), on()).unwrap();
    let before = g.clone();
    g.add_layer(1);
    assert_eq!(g, before);
    g.add_layer(0);
    assert_eq!(g, before);
    // the last slot: a layer is opened in front of it
    g.add_layer(2);
    assert_eq!(g.layers.len(), 4);
    assert!(g.layers[2].is_empty());
    assert_eq!(g.get_node(&loc(0, 1)).unwrap().connections[0].to, loc(3, 0));
    let grown = g.clone();
    g.add_layer(2);
    assert_eq!(g, grown);
}

#[test]
fn add_layer_on_an_empty_graph() {
    let mut g = NeuralGraph::new();
    g.add_layer(0);
    assert_eq!(g.layers.len(), 2);
    let mut h = NeuralGraph::new();
    h.add_layer(3);
    assert_eq!(h.layers.len(), 5);
}

#[test]
fn create_node_at_pads_with_placeholders() {
    let inputs = [blank_input(0.0, 0)];
    let outputs = [Node::Output(Sigmoid::new(bits(0.0), 1, "a"))];
    let mut g = create_graph(&inputs, &outputs);
    assert!(g.has_room_for(&loc(1, 2)));
    g.create_node_at(&loc(1, 2), basic(0.0, 5));
    assert_eq!(g.layers.len(), 3);
    assert_eq!(g.layers[1].len(), 3);
    assert_eq!(g.layers[1][0].value, Node::Blank);
    assert_eq!(g.layers[1][1].value, Node::Blank);
    assert_eq!(g.layers[1][2].value, basic(0.0, 5));
    assert_eq!(g.layers[2][0].value, outputs[0]);
    // the layer is there now: a second node goes into it
    g.create_node_at(&loc(1, 0), basic(0.0, 6));
    assert_eq!(g.layers.len(), 3);
    assert_eq!(g.layers[1].len(), 4);
    assert_eq!(g.layers[1][0].value, basic(0.0, 6));
    assert_eq!(g.layers[1][3].value, basic(0.0, 5));
}

#[test]
fn create_node_at_has_no_room_behind_the_last_index() {
    let g = small_graph();
    assert!(!g.has_room_for(&loc(u16::MAX, 0)));
    assert!(g.has_room_for(&loc(u16::MAX - 1, u16::MAX)));
}

#[test]
fn removed_node_drops_the_connections_to_it() {
    let mut g = small_graph();
    g.push_node_at(1, basic(0.0, 8));
    g.add_edge(loc(0, 0), loc(1, 0), on()).unwrap();
    g.add_edge(loc(0, 0), loc(1, 1), on()).unwrap();
    g.add_edge(loc(0, 1), loc(1, 0), on()).unwrap();
    g.add_edge(loc(1, 0), loc(2, 0), on()).unwrap();
    g.removed_node(loc(1, 0));
    assert_eq!(g.layers[1].len(), 1);
    assert_eq!(g.layers[1][0].value, basic(0.0, 8));
    // connections to other nodes are left as they are
    assert_eq!(g.get_node(&loc(0, 0)).unwrap().connections, vec![GraphEdge { to: loc(1, 1), value: on() }]);
    assert!(g.get_node(&loc(0, 1)).unwrap().connections.is_empty());
}

#[test]
fn removed_node_of_an_absent_location() {
    let mut g = small_graph();
    g.add_edge(loc(0, 0), loc(1, 0), on()).unwrap();
    let before = g.clone();
    g.removed_node(loc(1, 4));
    assert_eq!(g, before);
}

#[test]
fn prune_removes_placeholders_and_closes_up() {
    let inputs = [blank_input(0.0, 0)];
    let outputs = [Node::Output(Sigmoid::new(bits(0.0), 1, "a"))];
    let mut g = create_graph(&inputs, &outputs);
    g.add_layer(1);
    g.add_node(1, GraphNode::blank()).unwrap();
    g.add_node(1, GraphNode::new(basic(0.0, 5))).unwrap();
    g.add_node(1, GraphNode::blank()).unwrap();
    g.add_node(1, GraphNode::new(basic(0.0, 6))).unwrap();
    g.add_edge(loc(0, 0), loc(1, 0), on()).unwrap();
    g.add_edge(loc(0, 0), loc(1, 1), on()).unwrap();
    g.add_edge(loc(0, 0), loc(1, 2), on()).unwrap();
    g.add_edge(loc(0, 0), loc(1, 3), Edge::default()).unwrap();
    g.add_edge(loc(0, 0), loc(2, 0), on()).unwrap();
    g.add_edge(loc(1, 3), loc(2, 0), on()).unwrap();
    g.add_edge(loc(1, 0), loc(2, 0), on()).unwrap();
    g.prune();
    assert_eq!(g.layers[1].len(), 2);
    assert_eq!(g.layers[1][0].value, basic(0.0, 5));
    assert_eq!(g.layers[1][1].value, basic(0.0, 6));
    assert_eq!(
        g.layers[0][0].connections,
        vec![
            GraphEdge { to: loc(1, 0), value: on() },
            GraphEdge { to: loc(1, 1), value: Edge::default() },
            GraphEdge { to: loc(2, 0), value: on() },
        ]
    );
    assert_eq!(g.layers[1][1].connections, vec![GraphEdge { to: loc(2, 0), value: on() }]);
    for layer in &g.layers {
        for node in layer {
            assert_ne!(node.value, Node::Blank);
        }
    }
}

#[test]
fn prune_without_placeholders_changes_nothing() {
    let mut g = small_graph();
    g.add_edge(loc(0, 0), loc(1, 0), on()).unwrap();
    g.add_edge(loc(1, 0), loc(2, 0), on()).unwrap();
    let before = g.clone();
    g.prune();
    assert_eq!(g, before);
}

#[test]
fn prune_keeps_connections_that_lead_nowhere() {
    let mut g = small_graph();
    g.add_node(1, GraphNode::blank()).unwrap();
    g.push_node_at(1, basic(0.0, 9));
    g.add_edge(loc(0, 0), loc(1, 2), on()).unwrap();
    g.removed_node(loc(1, 0));
    // the connection now leads past the placeholder at (1, 0) to (1, 2), which is gone
    g.prune();
    assert_eq!(g.layers[1].len(), 1);
    assert_eq!(g.layers[0][0].connections, vec![GraphEdge { to: loc(1, 1), value: on() }]);
}

#[test]
fn has_cycle_answers_for_a_location_reached_twice() {
    let mut g = small_graph();
    g.add_edge(loc(0, 0), loc(1, 0), on()).unwrap();
    g.add_edge(loc(1, 0), loc(2, 0), on()).unwrap();
    assert!(!g.has_cycle(None));
    g.add_edge(loc(0, 0), loc(2, 0), on()).unwrap();
    // two ways lead from (0, 0) to (2, 0)
    assert!(g.has_cycle(None));
    assert!(g.has_cycle(Some(loc(0, 0))));
    assert!(!g.has_cycle(Some(loc(1, 0))));
    assert!(!g.has_cycle(Some(loc(0, 1))));
}

#[test]
fn has_cycle_from_an_absent_location() {
    let g = small_graph();
    assert!(!g.has_cycle(Some(loc(9, 9))));
}

#[test]
fn has_cycle_on_a_loop() {
    let mut g = small_graph();
    g.add_edge(loc(1, 0), loc(1, 0), on()).unwrap();
    assert!(g.has_cycle(Some(loc(1, 0))));
    assert!(!g.has_cycle(Some(loc(0, 0))));
}

#[test]
fn count_and_rank_of_nodes() {
    let mut g = small_graph();
    g.push_node_at(1, basic(0.0, 8));
    assert_eq!(g.count_nodes(0, 3), 5);
    assert_eq!(g.count_nodes(0, 2), 4);
    assert_eq!(g.count_nodes(1, 2), 2);
    assert_eq!(g.count_nodes(1, 9), 3);
    assert_eq!(g.count_nodes(2, 1), 0);
    assert_eq!(g.node_by_rank(0, 3, 0), loc(0, 0));
    assert_eq!(g.node_by_rank(0, 3, 1), loc(0, 1));
    assert_eq!(g.node_by_rank(0, 3, 2), loc(1, 0));
    assert_eq!(g.node_by_rank(0, 3, 3), loc(1, 1));
    assert_eq!(g.node_by_rank(0, 3, 4), loc(2, 0));
    assert_eq!(g.node_by_rank(1, 3, 2), loc(2, 0));
}

#[test]
fn count_and_rank_of_edges() {
    let mut g = small_graph();
    assert_eq!(g.count_edges(), 0);
    g.add_edge(loc(0, 0), loc(1, 0), on()).unwrap();
    g.add_edge(loc(0, 0), loc(2, 0), on()).unwrap();
    g.add_edge(loc(1, 0), loc(2, 0), on()).unwrap();
    assert_eq!(g.count_edges(), 3);
    assert_eq!(g.edge_by_rank(0), (loc(0, 0), 0));
    assert_eq!(g.edge_by_rank(1), (loc(0, 0), 1));
    assert_eq!(g.edge_by_rank(2), (loc(1, 0), 0));
}

#[test]
fn random_nodes_come_from_the_layers_asked_for() {
    let mut g = small_graph();
    g.push_node_at(1, basic(0.0, 8));
    for _ in 0..200 {
        let a = g.random_input_or_hidden().unwrap();
        assert!(a.layer < 2);
        assert!(g.get_node(&a).is_some());
        let b = g.random_output_or_hidden(Some(a.layer)).unwrap();
        assert!(b.layer > a.layer);
        assert!(g.get_node(&b).is_some());
        let c = g.random_output_or_hidden(None).unwrap();
        assert!(c.layer >= 1);
        assert!(g.get_node(&c).is_some());
        let h = g.random_hidden().unwrap();
        assert_eq!(h.layer, 1);
        assert!(h.node < 2);
    }
}

#[test]
fn random_nodes_reach_every_candidate() {
    let mut g = small_graph();
    g.push_node_at(1, basic(0.0, 8));
    let mut seen = [false; 4];
    for _ in 0..2000 {
        let a = g.random_input_or_hidden().unwrap();
        seen[(a.layer * 2 + a.node) as usize] = true;
    }
    assert_eq!(seen, [true; 4]);
}

#[test]
fn random_nodes_of_empty_candidate_sets() {
    let inputs = [blank_input(0.0, 0)];
    let outputs = [Node::Output(Sigmoid::new(bits(0.0), 1, "a"))];
    let g = create_graph(&inputs, &outputs);
    assert_eq!(g.random_hidden(), None);
    assert_eq!(g.random_output_or_hidden(Some(1)), None);
    assert_eq!(g.random_input_or_hidden(), Some(loc(0, 0)));
    assert_eq!(g.random_output_or_hidden(None), Some(loc(1, 0)));
    let empty = NeuralGraph::new();
    assert_eq!(empty.random_input_or_hidden(), None);
    assert_eq!(empty.random_hidden(), None);
    assert_eq!(empty.random_output_or_hidden(None), None);
    assert_eq!(empty.random_edge(), None);
}

#[test]
fn random_edges_are_edges_of_the_graph() {
    let mut g = small_graph();
    assert_eq!(g.random_edge(), None);
    assert!(g.random_edge_mut().is_none());
    g.add_edge(loc(0, 0), loc(1, 0), on()).unwrap();
    g.add_edge(loc(0, 1), loc(2, 0), Edge::default()).unwrap();
    for _ in 0..100 {
        let (from, e) = g.random_edge().unwrap();
        assert_eq!(g.get_edge(&from, &e.to), Some(&e));
    }
    let (from, e) = g.random_edge_mut().unwrap();
    e.value.weight = bits(9.0);
    let to = e.to;
    assert_eq!(g.get_edge(&from, &to).unwrap().value.weight, bits(9.0));
}

#[test]
fn from_preserving_basic_keeps_inputs_and_outputs() {
    let mut g = small_graph();
    g.add_edge(loc(0, 0), loc(1, 0), on()).unwrap();
    g.add_edge(loc(0, 1), loc(2, 0), on()).unwrap();
    let net = Net { graph: g, input_layer: 0, output_layer: 2 };
    let basic_net = Net::from_preserving_basic(&net).unwrap();
    assert_eq!(basic_net.input_layer, 0);
    assert_eq!(basic_net.output_layer, 1);
    let inputs = [blank_input(0.0, 0), blank_input(0.0, 1)];
    let outputs = [Node::Output(Sigmoid::new(bits(0.0), 2, "a"))];
    assert_eq!(basic_net.graph, create_graph(&inputs, &outputs));
}

#[test]
fn from_preserving_basic_refuses_missing_layers() {
    let net = Net { graph: small_graph(), input_layer: 0, output_layer: 3 };
    assert_eq!(Net::from_preserving_basic(&net), Err(NeuralGraphError::LayerNotFound(3)));
    let net = Net { graph: NeuralGraph::new(), input_layer: 0, output_layer: 0 };
    assert_eq!(Net::from_preserving_basic(&net), Err(NeuralGraphError::LayerNotFound(0)));
}

#[test]
fn identities() {
    let node = basic(0.0, 5);
    assert_eq!(node._type(), "BasicNeuron");
    assert_eq!(node.id(), 5);
    let out = Sigmoid::new(bits(0.25), 3, "a");
    assert_eq!(out._type(), "Sigmoid");
    assert_eq!(out.id(), 3);
    assert_eq!(out.value, bits(0.25));
    assert_eq!(out.label, "a");
    assert_eq!(blank_input(0.0, 4)._type(), "BlankInput");
    assert_eq!(blank_input(0.0, 4).id(), 4);
    assert!(kind_eq("Sigmoid", "Sigmoid"));
    assert!(!kind_eq("Sigmoid", "Sigmoi"));
    assert!(!kind_eq("TestNeuronA", "TestNeuronB"));
    assert!(kind_eq("", ""));
}

#[test]
fn the_default_edge_is_inert() {
    assert_eq!(Edge::default(), Edge { weight: 0, enabled: false });
    assert_eq!(Edge::default().weight, bits(0.0));
    assert_eq!(GraphNode::blank().value, Node::Blank);
    assert!(GraphNode::new(basic(0.0, 1)).connections.is_empty());
    assert_eq!(GraphLocation::new(3, 4), GraphLocation { layer: 3, node: 4 });
}

#[test]
fn well_formed_graphs_are_told_from_others() {
    let mut g = small_graph();
    assert!(g.is_addressable());
    assert!(g.is_well_formed());
    g.add_edge(loc(0, 0), loc(2, 0), on()).unwrap();
    assert!(g.is_well_formed());
    // a connection into a layer that the graph lacks
    g.get_node_mut(&loc(1, 0)).unwrap().connections.push(GraphEdge { to: loc(3, 0), value: on() });
    assert!(g.is_addressable());
    assert!(!g.is_well_formed());
    g.add_layer_to_end();
    assert!(g.is_well_formed());
    // a connection to a node that the layer lacks is no fault of the layers
    g.get_node_mut(&loc(0, 1)).unwrap().connections.push(GraphEdge { to: loc(1, 9), value: on() });
    assert!(g.is_well_formed());
    assert!(NeuralGraph::new().is_well_formed());
}
