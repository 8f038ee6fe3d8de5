use engine::activations::Sigmoid;
use engine::nn::mutate::{
    AddEdge, AddNeuron, LinkMutator, MutateError, NeuronMutator, RemoveEdge, RemoveNeuron, Script,
};
use engine::nn::reproduce::{
    Crossover, DefaultIterator, Generator, ReproduceError, Reproducer,
};
use engine::nn::synth::Link;
use engine::nn::util::{
    connection_intersection, connection_pair_exists, intersection, is_same_gene, AlignedItem,
    ConnectionInfo, EdgeType,
};
use engine::nn::{
    BasicNeuron, Edge, GraphEdge, GraphLocation, GraphNode, InputNeuron, Net, NeuralGraph,
    NeuralGraphError, Neuron, Node, Scalar,
};
use engine::sim::Simulation;

fn bits(x: f32) -> Scalar {
    x.to_bits()
}

fn loc(layer: u16, node: u16) -> GraphLocation {
    GraphLocation::new(layer, node)
}

fn on() -> Edge {
    Edge { weight: bits(0.5), enabled: true }
}

fn blank_input(value: f32, id: usize) -> Node {
    Node::Input(InputNeuron { kind: "BlankInput", id, value: bits(value) })
}

fn output(id: usize) -> Node {
    Node::Output(Sigmoid::new(bits(0.0), id, "out"))
}

fn basic(bias: f32, id: usize) -> Node {
    Node::Neuron(BasicNeuron::new(bits(bias), id))
}

fn other(kind: &'static str, id: usize) -> Node {
    Node::Neuron(Neuron { kind, id, bias: bits(0.0) })
}

fn create_graph(inputs: &[Node], outputs: &[Node]) -> NeuralGraph {
    let mut g = NeuralGraph::new();
    g.add_layer_to_end();
    for item in inputs.to_vec() {
        g.add_node(0, GraphNode::new(item)).unwrap();
    }
    g.add_layer_to_end();
    for item in outputs.to_vec() {
        g.add_node(1, GraphNode::new(item)).unwrap();
    }
    g
}

fn two_layer_net() -> Net {
    let g = create_graph(&[blank_input(0.0, 0)], &[output(1)]);
    Net { graph: g, input_layer: 0, output_layer: 1 }
}

fn three_layer_net() -> Net {
    let mut g = create_graph(&[blank_input(0.0, 0), blank_input(0.0, 1)], &[output(2)]);
    g.add_layer(1);
    g.add_node(1, GraphNode::new(basic(0.0, 7))).unwrap();
    Net { graph: g, input_layer: 0, output_layer: 2 }
}

fn parent_a() -> Net {
    let inputs = [blank_input(0.0, 0), blank_input(0.0, 1), blank_input(0.0, 2)];
    let outputs = [output(3), output(4)];
    let mut g = create_graph(&inputs, &outputs);
    g.add_layer(1);
    g.add_node(1, GraphNode::new(basic(0.0, 5))).unwrap();
    g.add_node(1, GraphNode::new(other("TestNeuronA", 6))).unwrap();
    g.add_edge(loc(0, 0), loc(1, 0), Edge { weight: bits(1.0), enabled: true }).unwrap();
    g.add_edge(loc(0, 1), loc(1, 0), Edge { weight: bits(2.0), enabled: true }).unwrap();
    g.add_edge(loc(0, 2), loc(1, 0), Edge { weight: bits(3.0), enabled: true }).unwrap();
    g.add_edge(loc(0, 2), loc(1, 1), Edge::default()).unwrap();
    g.add_edge(loc(1, 0), loc(2, 0), Edge { weight: bits(4.0), enabled: true }).unwrap();
    g.add_edge(loc(1, 0), loc(2, 1), Edge { weight: bits(5.0), enabled: true }).unwrap();
    g.add_edge(loc(1, 1), loc(2, 1), Edge::default()).unwrap();
    Net { graph: g, input_layer: 0, output_layer: 2 }
}

fn parent_b() -> Net {
    let inputs = [blank_input(0.0, 0), blank_input(0.0, 1), blank_input(0.0, 2)];
    let outputs = [output(3), output(4)];
    let mut g = create_graph(&inputs, &outputs);
    g.add_layer(1);
    g.add_node(1, GraphNode::new(other("TestNeuronB", 6))).unwrap();
    g.add_node(1, GraphNode::new(basic(0.5, 5))).unwrap();
    g.add_edge(loc(0, 0), loc(1, 1), Edge { weight: bits(-1.0), enabled: false }).unwrap();
    g.add_edge(loc(0, 1), loc(1, 1), Edge { weight: bits(-2.0), enabled: false }).unwrap();
    g.add_edge(loc(0, 2), loc(1, 1), Edge { weight: bits(-3.0), enabled: false }).unwrap();
    g.add_edge(loc(0, 0), loc(1, 0), Edge::default()).unwrap();
    g.add_edge(loc(1, 1), loc(2, 0), Edge { weight: bits(-4.0), enabled: false }).unwrap();
    g.add_edge(loc(1, 1), loc(2, 1), Edge { weight: bits(-5.0), enabled: false }).unwrap();
    g.add_edge(loc(1, 0), loc(2, 0), Edge::default()).unwrap();
    g.add_edge(loc(1, 0), loc(2, 1), Edge::default()).unwrap();
    Net { graph: g, input_layer: 0, output_layer: 2 }
}

fn info(from: GraphLocation, to: GraphLocation, kind: &'static str, id: usize) -> ConnectionInfo {
    ConnectionInfo { from, to, _type: kind, id }
}

fn shared_items() -> Vec<AlignedItem> {
    vec![
        AlignedItem::Node(loc(1, 0), loc(1, 1)),
        AlignedItem::Edge {
            data: (
                info(loc(0, 0), loc(1, 0), "BlankInput", 0),
                info(loc(0, 0), loc(1, 1), "BlankInput", 0),
            ),
            _type: EdgeType::Incoming,
        },
        AlignedItem::Edge {
            data: (
                info(loc(0, 1), loc(1, 0), "BlankInput", 1),
                info(loc(0, 1), loc(1, 1), "BlankInput", 1),
            ),
            _type: EdgeType::Incoming,
        },
        AlignedItem::Edge {
            data: (
                info(loc(0, 2), loc(1, 0), "BlankInput", 2),
                info(loc(0, 2), loc(1, 1), "BlankInput", 2),
            ),
            _type: EdgeType::Incoming,
        },
        AlignedItem::Edge {
            data: (
                info(loc(1, 0), loc(2, 0), "Sigmoid", 3),
                info(loc(1, 1), loc(2, 0), "Sigmoid", 3),
            ),
            _type: EdgeType::Outgoing,
        },
        AlignedItem::Edge {
            data: (
                info(loc(1, 0), loc(2, 1), "Sigmoid", 4),
                info(loc(1, 1), loc(2, 1), "Sigmoid", 4),
            ),
            _type: EdgeType::Outgoing,
        },
    ]
}

fn is_forward_only(g: &NeuralGraph) -> bool {
    g.layers.iter().enumerate().all(|(l, layer)| {
        layer.iter().all(|node| node.connections.iter().all(|c| (c.to.layer as usize) > l))
    })
}

#[test]
fn connect_adds_a_new_connection() {
    let mut net = three_layer_net();
    let fresh = Edge { weight: bits(0.75), enabled: false };
    assert_eq!(AddEdge.connect(&mut net, loc(0, 0), loc(1, 0), fresh), Ok(true));
    assert_eq!(net.graph.get_edge(&loc(0, 0), &loc(1, 0)), Some(&GraphEdge { to: loc(1, 0), value: fresh }));
    assert!(!net.graph.has_cycle(Some(loc(0, 0))));
}

#[test]
fn connect_enables_a_connection_that_is_there() {
    let mut net = three_layer_net();
    let stored = Edge { weight: bits(0.25), enabled: false };
    net.graph.add_edge(loc(0, 0), loc(1, 0), stored).unwrap();
    assert_eq!(AddEdge.connect(&mut net, loc(0, 0), loc(1, 0), on()), Ok(true));
    assert_eq!(net.graph.layers[0][0].connections.len(), 1);
    assert_eq!(
        net.graph.get_edge(&loc(0, 0), &loc(1, 0)),
        Some(&GraphEdge { to: loc(1, 0), value: Edge { weight: bits(0.25), enabled: true } })
    );
    // once more: still one connection, still enabled
    assert_eq!(AddEdge.connect(&mut net, loc(0, 0), loc(1, 0), on()), Ok(true));
    assert_eq!(net.graph.layers[0][0].connections.len(), 1);
}

#[test]
fn connect_takes_back_what_closes_a_second_way() {
    let mut net = three_layer_net();
    net.graph.add_edge(loc(0, 0), loc(1, 0), on()).unwrap();
    net.graph.add_edge(loc(1, 0), loc(2, 0), on()).unwrap();
    let before = net.graph.clone();
    assert_eq!(AddEdge.connect(&mut net, loc(0, 0), loc(2, 0), on()), Ok(false));
    assert_eq!(net.graph, before);
}

#[test]
fn connect_passes_the_refusal_on() {
    let mut net = three_layer_net();
    let before = net.graph.clone();
    assert_eq!(
        AddEdge.connect(&mut net, loc(0, 0), loc(1, 5), on()),
        Err(MutateError::AddLinkError(NeuralGraphError::NodeNotFound(loc(1, 5))))
    );
    assert_eq!(
        AddEdge.connect(&mut net, loc(0, 9), loc(1, 0), on()),
        Err(MutateError::AddLinkError(NeuralGraphError::NodeNotFound(loc(0, 9))))
    );
    assert_eq!(net.graph, before);
}

#[test]
fn add_edge_mutation_connects_forward() {
    for _ in 0..100 {
        let mut net = three_layer_net();
        let r = AddEdge.mutate(&mut net, on());
        assert_eq!(r, Ok(true));
        assert_eq!(net.graph.count_edges(), 1);
        assert!(is_forward_only(&net.graph));
        let (from, e) = net.graph.random_edge().unwrap();
        assert!(from.layer < 2);
        assert_eq!(e.value, on());
    }
}

#[test]
fn add_edge_mutation_on_a_graph_without_nodes() {
    let mut net = Net { graph: NeuralGraph::new(), input_layer: 0, output_layer: 0 };
    assert_eq!(AddEdge.mutate(&mut net, on()), Ok(false));
    let mut g = NeuralGraph::new();
    g.add_layer_to_end();
    g.add_layer_to_end();
    let mut net = Net { graph: g, input_layer: 0, output_layer: 1 };
    assert_eq!(AddEdge.mutate(&mut net, on()), Ok(false));
}

#[test]
fn remove_edge_mutation() {
    let mut net = two_layer_net();
    assert_eq!(RemoveEdge.mutate(&mut net, on()), Ok(false));
    net.graph.add_edge(loc(0, 0), loc(1, 0), on()).unwrap();
    assert_eq!(RemoveEdge.mutate(&mut net, on()), Ok(true));
    assert_eq!(net.graph.count_edges(), 0);
    assert_eq!(RemoveEdge.mutate(&mut net, on()), Ok(false));
}

#[test]
fn add_neuron_between_distant_layers_opens_no_layer() {
    let mut net = three_layer_net();
    let link = Edge { weight: bits(1.3), enabled: true };
    net.graph.add_edge(loc(0, 1), loc(2, 0), link).unwrap();
    AddNeuron
        .run(loc(0, 1), GraphEdge { to: loc(2, 0), value: link }, &mut net, BasicNeuron::new(bits(0.0), 9))
        .unwrap();
    assert_eq!(net.graph.layers.len(), 3);
    assert_eq!(net.output_layer, 2);
    assert_eq!(net.graph.layers[1].len(), 2);
    assert_eq!(net.graph.layers[1][1].value, basic(0.0, 9));
    assert_eq!(net.graph.layers[0][1].connections, vec![GraphEdge { to: loc(1, 1), value: link }]);
    assert_eq!(net.graph.layers[1][1].connections, vec![GraphEdge { to: loc(2, 0), value: Edge::default() }]);
}

#[test]
fn add_neuron_opens_a_layer_and_moves_the_output_layer() {
    let mut net = two_layer_net();
    let link = Edge { weight: bits(1.3), enabled: true };
    net.graph.add_edge(loc(0, 0), loc(1, 0), link).unwrap();
    AddNeuron
        .run(loc(0, 0), GraphEdge { to: loc(1, 0), value: link }, &mut net, BasicNeuron::new(bits(0.0), 9))
        .unwrap();
    assert_eq!(net.graph.layers.len(), 3);
    assert_eq!(net.input_layer, 0);
    assert_eq!(net.output_layer, 2);
    assert_eq!(net.graph.layers[0][0].connections, vec![GraphEdge { to: loc(1, 0), value: link }]);
    assert_eq!(net.graph.layers[1][0].connections, vec![GraphEdge { to: loc(2, 0), value: Edge::default() }]);
    assert_eq!(net.graph.layers[2][0].value, output(1));
}

#[test]
fn add_neuron_refusals() {
    let mut net = three_layer_net();
    let r = AddNeuron.run(
        loc(0, 5),
        GraphEdge { to: loc(2, 0), value: on() },
        &mut net,
        BasicNeuron::new(bits(0.0), 9),
    );
    assert_eq!(r, Err(MutateError::AddNeuronError(NeuralGraphError::NodeNotFound(loc(0, 5)))));
    let mut net = three_layer_net();
    let r = AddNeuron.run(
        loc(2, 0),
        GraphEdge { to: loc(1, 0), value: on() },
        &mut net,
        BasicNeuron::new(bits(0.0), 9),
    );
    assert_eq!(r, Err(MutateError::AddNeuronError(NeuralGraphError::LayerNotFound(3))));
    let mut net = three_layer_net();
    let r = AddNeuron.run(
        loc(u16::MAX, 0),
        GraphEdge { to: loc(1, 0), value: on() },
        &mut net,
        BasicNeuron::new(bits(0.0), 9),
    );
    assert_eq!(r, Err(MutateError::AddNeuronError(NeuralGraphError::LayerNotFound(3))));
}

#[test]
fn add_neuron_mutation() {
    let pool = [BasicNeuron::new(bits(0.0), 20), BasicNeuron::new(bits(1.0), 21)];
    let mut net = two_layer_net();
    // nothing to split: the choice is not looked at
    assert_eq!(AddNeuron.mutate(&mut net, &pool, 7), Ok(false));
    assert_eq!(net.output_layer, 1);
    net.graph.add_edge(loc(0, 0), loc(1, 0), on()).unwrap();
    let before = net.graph.clone();
    assert_eq!(AddNeuron.mutate(&mut net, &pool, 2), Err(MutateError::NeuronSelectorOutOfRange(2)));
    assert_eq!(net.graph, before);
    assert_eq!(net.output_layer, 1);
    assert_eq!(AddNeuron.mutate(&mut net, &pool, 1), Ok(true));
    assert_eq!(net.graph.layers.len(), 3);
    assert_eq!(net.output_layer, 2);
    assert_eq!(net.graph.layers[1][0].value, Node::Neuron(pool[1]));
    assert_eq!(net.graph.layers[0][0].connections, vec![GraphEdge { to: loc(1, 0), value: on() }]);
    assert!(is_forward_only(&net.graph));
}

#[test]
fn remove_neuron_mutation() {
    let pool: [Neuron; 0] = [];
    let mut net = two_layer_net();
    assert_eq!(RemoveNeuron.mutate(&mut net, &pool, 0), Ok(false));
    let mut net = three_layer_net();
    net.graph.add_edge(loc(0, 0), loc(1, 0), on()).unwrap();
    net.graph.add_edge(loc(0, 0), loc(2, 0), on()).unwrap();
    net.graph.add_edge(loc(1, 0), loc(2, 0), on()).unwrap();
    assert_eq!(RemoveNeuron.mutate(&mut net, &pool, 0), Ok(true));
    assert_eq!(net.graph.layers.len(), 3);
    assert!(net.graph.layers[1].is_empty());
    assert_eq!(net.graph.layers[0][0].connections, vec![GraphEdge { to: loc(2, 0), value: on() }]);
    // the hidden layer is empty now
    assert_eq!(RemoveNeuron.mutate(&mut net, &pool, 0), Ok(false));
}

#[test]
fn mutate_runs_the_script() {
    let links: Vec<Box<dyn LinkMutator>> = vec![Box::new(AddEdge), Box::new(RemoveEdge)];
    let neurons: Vec<Box<dyn NeuronMutator>> = vec![Box::new(AddNeuron), Box::new(RemoveNeuron)];
    let pool = [BasicNeuron::new(bits(0.0), 20)];
    let fresh = Edge { weight: bits(0.125), enabled: true };
    let mut net = two_layer_net();
    let script = Script::new(vec![(true, 0), (false, 0)]);
    let r = net.mutate(&links, &neurons, &pool, &|count: usize| count - 1, &|| fresh, script);
    assert_eq!(r, Ok(()));
    assert_eq!(net.graph.layers.len(), 3);
    assert_eq!(net.output_layer, 2);
    assert_eq!(net.graph.layers[1][0].value, Node::Neuron(pool[0]));
    assert_eq!(net.graph.layers[0][0].connections, vec![GraphEdge { to: loc(1, 0), value: fresh }]);
    assert_eq!(net.graph.layers[1][0].connections, vec![GraphEdge { to: loc(2, 0), value: Edge::default() }]);
    assert!(!net.graph.has_cycle(None));
    let script = Script::new(vec![(false, 1), (true, 1)]);
    let r = net.mutate(&links, &neurons, &pool, &|count: usize| count - 1, &|| fresh, script);
    assert_eq!(r, Ok(()));
    assert!(net.graph.layers[1].is_empty());
    assert_eq!(net.graph.count_edges(), 0);
}

#[test]
fn mutate_stops_at_the_first_error() {
    let links: Vec<Box<dyn LinkMutator>> = vec![Box::new(AddEdge)];
    let neurons: Vec<Box<dyn NeuronMutator>> = vec![Box::new(AddNeuron)];
    let pool = [BasicNeuron::new(bits(0.0), 20)];
    let mut net = two_layer_net();
    let script = Script::new(vec![(true, 0), (false, 0), (true, 0)]);
    let r = net.mutate(&links, &neurons, &pool, &|count: usize| count, &|| on(), script);
    assert_eq!(r, Err(MutateError::NeuronSelectorOutOfRange(1)));
    assert_eq!(net.graph.count_edges(), 1);
}

#[test]
fn mutate_with_a_script_that_runs_out() {
    let links: Vec<Box<dyn LinkMutator>> = vec![Box::new(AddEdge)];
    let neurons: Vec<Box<dyn NeuronMutator>> = Vec::new();
    let pool: [Neuron; 0] = [];
    let exhausted = MutateError::GeneratorError(engine::nn::mutate::GeneratorError::Exhausted);
    let mut net = two_layer_net();
    let r = net.mutate(&links, &neurons, &pool, &|count: usize| count, &|| on(), Script::new(vec![]));
    assert_eq!(r, Err(exhausted));
    // a step that names an operator that is not on offer
    let r = net.mutate(&links, &neurons, &pool, &|count: usize| count, &|| on(), Script::new(vec![(false, 0)]));
    assert_eq!(r, Err(exhausted));
    let r = net.mutate(&links, &neurons, &pool, &|count: usize| count, &|| on(), Script::new(vec![(true, 1)]));
    assert_eq!(r, Err(exhausted));
    assert_eq!(net.graph.count_edges(), 0);
}

#[test]
fn errors_convert() {
    assert_eq!(
        MutateError::from(engine::nn::mutate::GeneratorError::Exhausted),
        MutateError::GeneratorError(engine::nn::mutate::GeneratorError::Exhausted)
    );
    assert_eq!(
        ReproduceError::from(engine::nn::reproduce::GeneratorError::Exhausted),
        ReproduceError::GeneratorError(engine::nn::reproduce::GeneratorError::Exhausted)
    );
    assert_eq!(
        ReproduceError::from(NeuralGraphError::LayerNotFound(4)),
        ReproduceError::ChildNetError(NeuralGraphError::LayerNotFound(4))
    );
}

#[test]
fn connection_pairs_match_in_either_direction() {
    let pairs = [(loc(0, 0), loc(1, 0)), (loc(0, 1), loc(2, 0))];
    assert!(connection_pair_exists(&pairs, &loc(0, 0), &loc(1, 0)));
    assert!(connection_pair_exists(&pairs, &loc(1, 0), &loc(0, 0)));
    assert!(connection_pair_exists(&pairs, &loc(2, 0), &loc(0, 1)));
    assert!(!connection_pair_exists(&pairs, &loc(0, 0), &loc(2, 0)));
    assert!(!connection_pair_exists(&[], &loc(0, 0), &loc(1, 0)));
}

#[test]
fn connections_pair_with_their_first_partner() {
    let a = vec![
        info(loc(0, 0), loc(1, 0), "X", 1),
        info(loc(0, 1), loc(1, 0), "Y", 1),
        info(loc(0, 2), loc(1, 0), "X", 2),
        info(loc(0, 3), loc(1, 0), "X", 1),
    ];
    let b = vec![
        info(loc(0, 5), loc(1, 1), "X", 2),
        info(loc(0, 6), loc(1, 1), "X", 1),
        info(loc(0, 7), loc(1, 1), "X", 1),
    ];
    let r = connection_intersection(a.clone(), b.clone());
    assert_eq!(r, vec![(a[0], b[1]), (a[2], b[0]), (a[3], b[1])]);
    assert_eq!(connection_intersection(a, vec![]), vec![]);
    assert_eq!(connection_intersection(vec![], b), vec![]);
}

#[test]
fn genes_are_the_same_by_kind_and_number() {
    assert!(is_same_gene(&basic(0.0, 5), &basic(1.0, 5)));
    assert!(!is_same_gene(&basic(0.0, 5), &basic(0.0, 6)));
    assert!(!is_same_gene(&other("TestNeuronA", 6), &other("TestNeuronB", 6)));
    assert!(!is_same_gene(&Node::Blank, &Node::Blank));
    assert!(!is_same_gene(&basic(0.0, 5), &Node::Blank));
}

#[test]
fn intersection_finds_the_shared_genes() {
    assert_eq!(intersection(&parent_a(), &parent_b()), shared_items());
}

#[test]
fn intersection_without_hidden_layers_is_empty() {
    assert_eq!(intersection(&two_layer_net(), &parent_b()), vec![]);
    assert_eq!(intersection(&parent_a(), &two_layer_net()), vec![]);
    let empty = Net { graph: NeuralGraph::new(), input_layer: 0, output_layer: 0 };
    assert_eq!(intersection(&empty, &parent_b()), vec![]);
    assert_eq!(intersection(&parent_a(), &empty), vec![]);
}

#[test]
fn intersection_reports_no_neuron_without_a_shared_connection() {
    let mut a = three_layer_net();
    let mut b = three_layer_net();
    assert_eq!(intersection(&a, &b), vec![]);
    a.graph.add_edge(loc(0, 0), loc(1, 0), on()).unwrap();
    b.graph.add_edge(loc(0, 1), loc(1, 0), on()).unwrap();
    assert_eq!(intersection(&a, &b), vec![]);
    b.graph.add_edge(loc(0, 0), loc(1, 0), Edge::default()).unwrap();
    assert_eq!(
        intersection(&a, &b),
        vec![
            AlignedItem::Node(loc(1, 0), loc(1, 0)),
            AlignedItem::Edge {
                data: (
                    info(loc(0, 0), loc(1, 0), "BlankInput", 0),
                    info(loc(0, 0), loc(1, 0), "BlankInput", 0),
                ),
                _type: EdgeType::Incoming,
            },
        ]
    );
}

fn expected_child(from_a: bool) -> NeuralGraph {
    let inputs = [blank_input(0.0, 0), blank_input(0.0, 1), blank_input(0.0, 2)];
    let outputs = [output(3), output(4)];
    let sign = if from_a { 1.0 } else { -1.0 };
    let mut g = create_graph(&inputs, &outputs);
    g.add_layer(1);
    g.add_node(1, GraphNode::new(basic(if from_a { 0.0 } else { 0.5 }, 5))).unwrap();
    g.add_edge(loc(0, 0), loc(1, 0), Edge { weight: bits(sign * 1.0), enabled: from_a }).unwrap();
    g.add_edge(loc(0, 1), loc(1, 0), Edge { weight: bits(sign * 2.0), enabled: from_a }).unwrap();
    g.add_edge(loc(0, 2), loc(1, 0), Edge { weight: bits(sign * 3.0), enabled: from_a }).unwrap();
    g.add_edge(loc(1, 0), loc(2, 0), Edge { weight: bits(sign * 4.0), enabled: from_a }).unwrap();
    g.add_edge(loc(1, 0), loc(2, 1), Edge { weight: bits(sign * 5.0), enabled: from_a }).unwrap();
    g
}

#[test]
fn cross_takes_each_gene_from_the_parent_that_the_coin_names() {
    let (a, b) = (parent_a(), parent_b());
    let items = intersection(&a, &b);
    let mut child = Net::from_preserving_basic(&a).unwrap();
    assert_eq!(Crossover.cross(&a, &b, &mut child, &items, &vec![true; 6]), Ok(()));
    assert_eq!(child.graph, expected_child(true));
    assert_eq!(child.input_layer, 0);
    assert_eq!(child.output_layer, 2);
    let mut child = Net::from_preserving_basic(&a).unwrap();
    assert_eq!(Crossover.cross(&a, &b, &mut child, &items, &vec![false; 6]), Ok(()));
    assert_eq!(child.graph, expected_child(false));
    assert_eq!(child.output_layer, 2);
}

#[test]
fn cross_mixes_the_parents() {
    let (a, b) = (parent_a(), parent_b());
    let items = intersection(&a, &b);
    let mut child = Net::from_preserving_basic(&a).unwrap();
    let coins = vec![false, true, false, true, false, true];
    assert_eq!(Crossover.cross(&a, &b, &mut child, &items, &coins), Ok(()));
    let mut g = expected_child(false);
    g.get_edge_mut(&loc(0, 0), &loc(1, 0)).unwrap().value = Edge { weight: bits(1.0), enabled: true };
    g.get_edge_mut(&loc(0, 2), &loc(1, 0)).unwrap().value = Edge { weight: bits(3.0), enabled: true };
    g.get_edge_mut(&loc(1, 0), &loc(2, 1)).unwrap().value = Edge { weight: bits(5.0), enabled: true };
    assert_eq!(child.graph, g);
    assert!(is_forward_only(&child.graph));
}

#[test]
fn cross_stops_where_the_child_refuses() {
    let (a, b) = (parent_a(), parent_b());
    let mut items = intersection(&a, &b);
    items.push(items[1]);
    let mut child = Net::from_preserving_basic(&a).unwrap();
    let r = Crossover.cross(&a, &b, &mut child, &items, &vec![true; 7]);
    assert_eq!(
        r,
        Err(ReproduceError::ChildNetError(NeuralGraphError::ConnectionExists {
            from: loc(0, 0),
            to: loc(1, 0)
        }))
    );
    // the child stays as it was when it refused: nothing was pruned, every other gene is in
    assert_eq!(child.graph, expected_child(true));
}

#[test]
fn cross_stops_at_a_gene_that_a_parent_does_not_have() {
    let (a, b) = (parent_a(), parent_b());
    let mut child = Net::from_preserving_basic(&a).unwrap();
    let before = child.graph.clone();
    let items = vec![AlignedItem::Node(loc(1, 7), loc(1, 1))];
    let r = Crossover.cross(&a, &b, &mut child, &items, &vec![true]);
    assert_eq!(r, Err(ReproduceError::ChildNetError(NeuralGraphError::NodeNotFound(loc(1, 7)))));
    assert_eq!(child.graph, before);
    let items = vec![AlignedItem::Edge {
        data: (info(loc(0, 0), loc(2, 0), "Sigmoid", 3), info(loc(0, 0), loc(2, 0), "Sigmoid", 3)),
        _type: EdgeType::Outgoing,
    }];
    let r = Crossover.cross(&a, &b, &mut child, &items, &vec![false]);
    assert_eq!(r, Err(ReproduceError::ChildNetError(NeuralGraphError::NodeNotFound(loc(0, 0)))));
    assert_eq!(child.graph, before);
}

#[test]
fn cross_stops_where_an_end_is_missing_in_the_child() {
    let (a, b) = (parent_a(), parent_b());
    let mut child = Net::from_preserving_basic(&a).unwrap();
    let before = child.graph.clone();
    // the connection is shared, the neuron at its end was not placed
    let items = vec![shared_items()[4]];
    let r = Crossover.cross(&a, &b, &mut child, &items, &vec![true]);
    assert_eq!(r, Err(ReproduceError::ChildNetError(NeuralGraphError::NodeNotFound(loc(2, 0)))));
    assert_eq!(child.graph, before);
}

#[test]
fn reproduce_with_any_coins_gives_a_child_of_the_shared_genes() {
    let (a, b) = (parent_a(), parent_b());
    for _ in 0..50 {
        let mut child = Net::from_preserving_basic(&a).unwrap();
        assert_eq!(Crossover::default().reproduce(&a, &b, &mut child), Ok(()));
        assert_eq!(child.graph.layers.len(), 3);
        assert_eq!(child.graph.layers[1].len(), 1);
        assert_eq!(child.graph.count_edges(), 5);
        assert!(is_forward_only(&child.graph));
        let bias = match child.graph.layers[1][0].value {
            Node::Neuron(n) => n.bias,
            _ => panic!("the shared neuron is a hidden neuron"),
        };
        assert!(bias == bits(0.0) || bias == bits(0.5));
        for k in 0..3u16 {
            let w = child.graph.get_edge(&loc(0, k), &loc(1, 0)).unwrap().value.weight;
            let x = (k + 1) as f32;
            assert!(w == bits(x) || w == bits(-x));
        }
    }
}

#[test]
fn reproduce_flips_coins() {
    let (a, b) = (parent_a(), parent_b());
    let mut seen_a = false;
    let mut seen_b = false;
    for _ in 0..200 {
        let mut child = Net::from_preserving_basic(&a).unwrap();
        Crossover.reproduce(&a, &b, &mut child).unwrap();
        let w = child.graph.get_edge(&loc(0, 0), &loc(1, 0)).unwrap().value.weight;
        seen_a = seen_a || w == bits(1.0);
        seen_b = seen_b || w == bits(-1.0);
    }
    assert!(seen_a && seen_b);
}

#[test]
fn default_iterator_runs_each_strategy_once() {
    let (a, b) = (parent_a(), parent_b());
    let strategies = [Crossover, Crossover, Crossover];
    let mut it = DefaultIterator::new();
    assert_eq!(it.generate(&a.graph, &b.graph, &strategies), Ok((0, false)));
    assert_eq!(it.generate(&a.graph, &b.graph, &strategies), Ok((1, false)));
    assert_eq!(it.generate(&a.graph, &b.graph, &strategies), Ok((2, true)));
    // asked for more than there is, it counts on
    assert_eq!(it.generate(&a.graph, &b.graph, &strategies), Ok((3, true)));
    assert_eq!(it.generate(&a.graph, &b.graph, &strategies), Ok((4, true)));
    assert_eq!(it.0, 5);
    let mut single = DefaultIterator::new();
    assert_eq!(single.generate(&a.graph, &b.graph, &[Crossover]), Ok((0, true)));
    let none: [Crossover; 0] = [];
    let mut idle = DefaultIterator::new();
    assert_eq!(idle.generate(&a.graph, &b.graph, &none), Ok((0, true)));
}

#[test]
fn net_reproduce_refuses_an_index_of_no_strategy() {
    let (a, b) = (parent_a(), parent_b());
    // the generator has counted two requests: it names the third of two strategies
    assert_eq!(
        Net::reproduce(&a, &b, &[Crossover, Crossover], DefaultIterator(2)),
        Err(ReproduceError::GeneratorError(engine::nn::reproduce::GeneratorError::Exhausted))
    );
}

#[test]
fn net_reproduce_makes_a_child() {
    let (a, b) = (parent_a(), parent_b());
    let child = Net::reproduce(&a, &b, &[Crossover], DefaultIterator::new()).unwrap();
    assert_eq!(child.graph.layers.len(), 3);
    assert_eq!(child.output_layer, 2);
    assert_eq!(child.graph.layers[0].len(), 3);
    assert_eq!(child.graph.layers[1].len(), 1);
    assert_eq!(child.graph.layers[2].len(), 2);
    assert_eq!(child.graph.count_edges(), 5);
}

#[test]
fn net_reproduce_refusals() {
    let (a, b) = (parent_a(), parent_b());
    let none: [Crossover; 0] = [];
    assert_eq!(
        Net::reproduce(&a, &b, &none, DefaultIterator::new()),
        Err(ReproduceError::GeneratorError(engine::nn::reproduce::GeneratorError::Exhausted))
    );
    let broken = Net { graph: a.graph.clone(), input_layer: 0, output_layer: 5 };
    assert_eq!(
        Net::reproduce(&broken, &b, &[Crossover], DefaultIterator::new()),
        Err(ReproduceError::ChildNetError(NeuralGraphError::LayerNotFound(3)))
    );
}

#[test]
fn net_reproduce_runs_every_strategy() {
    let (a, b) = (parent_a(), parent_b());
    for _ in 0..50 {
        // where the second crossover places the neuron on the first, it finds the
        // connections of the first in its way; else it adds the genes once more
        match Net::reproduce(&a, &b, &[Crossover, Crossover], DefaultIterator::new()) {
            Ok(child) => {
                assert_eq!(child.graph.layers[1].len(), 2);
                assert_eq!(child.graph.count_edges(), 10);
            }
            Err(e) => assert_eq!(
                e,
                ReproduceError::ChildNetError(NeuralGraphError::ConnectionExists {
                    from: loc(0, 0),
                    to: loc(1, 0)
                })
            ),
        }
    }
}

#[test]
fn assemble_builds_the_net_that_the_plan_describes() {
    let inputs = [blank_input(0.0, 0), blank_input(0.0, 1)];
    let outputs = [output(2)];
    let hidden = vec![vec![BasicNeuron::new(bits(0.5), 0)], vec![BasicNeuron::new(bits(0.25), 1)]];
    let links = vec![
        Link { from: loc(0, 1), to: loc(2, 0), value: on() },
        Link { from: loc(1, 0), to: loc(3, 0), value: Edge::default() },
        Link { from: loc(0, 1), to: loc(1, 0), value: on() },
    ];
    let net = Net::assemble(&inputs, &hidden, &outputs, &links).unwrap();
    let mut g = create_graph(&inputs, &outputs);
    g.add_layer(1);
    g.add_layer(2);
    g.add_node(1, GraphNode::new(basic(0.5, 0))).unwrap();
    g.add_node(2, GraphNode::new(basic(0.25, 1))).unwrap();
    g.add_edge(loc(0, 1), loc(2, 0), on()).unwrap();
    g.add_edge(loc(1, 0), loc(3, 0), Edge::default()).unwrap();
    g.add_edge(loc(0, 1), loc(1, 0), on()).unwrap();
    assert_eq!(net, Net { graph: g, input_layer: 0, output_layer: 3 });
}

#[test]
fn assemble_refusals() {
    let inputs = [blank_input(0.0, 0)];
    let outputs = [output(2)];
    let hidden: Vec<Vec<Neuron>> = Vec::new();
    let links = vec![
        Link { from: loc(0, 0), to: loc(1, 0), value: on() },
        Link { from: loc(0, 0), to: loc(1, 0), value: on() },
    ];
    assert_eq!(
        Net::assemble(&inputs, &hidden, &outputs, &links),
        Err(NeuralGraphError::ConnectionExists { from: loc(0, 0), to: loc(1, 0) })
    );
    let links = vec![Link { from: loc(0, 0), to: loc(2, 0), value: on() }];
    assert_eq!(
        Net::assemble(&inputs, &hidden, &outputs, &links),
        Err(NeuralGraphError::NodeNotFound(loc(2, 0)))
    );
}

#[test]
fn gen_makes_forward_nets() {
    let inputs = [blank_input(0.0, 0), blank_input(0.0, 1), blank_input(0.0, 2)];
    let outputs = [output(3), output(4)];
    let mut deepest = 0;
    let mut most_links = 0;
    for _ in 0..300 {
        let net = Net::gen(&inputs, &outputs, &|| bits(0.5), &|| on()).unwrap();
        let depth = net.graph.layers.len();
        assert!(2 <= depth && depth <= 6);
        assert_eq!(net.input_layer, 0);
        assert_eq!(net.output_layer as usize, depth - 1);
        let firsts: Vec<Node> = net.graph.layers[0].iter().map(|n| n.value).collect();
        let lasts: Vec<Node> = net.graph.layers[depth - 1].iter().map(|n| n.value).collect();
        assert_eq!(firsts, inputs.to_vec());
        assert_eq!(lasts, outputs.to_vec());
        let mut id = 0;
        for layer in &net.graph.layers[1..depth - 1] {
            assert!(1 <= layer.len() && layer.len() <= 9);
            for node in layer {
                assert_eq!(node.value, basic(0.5, id));
                id += 1;
            }
        }
        assert!(is_forward_only(&net.graph));
        let links = net.graph.count_edges() as usize;
        assert!(links < 4 * (depth - 1));
        for (l, layer) in net.graph.layers.iter().enumerate() {
            for (n, node) in layer.iter().enumerate() {
                for (k, c) in node.connections.iter().enumerate() {
                    assert_eq!(c.value, on());
                    assert!(net.graph.get_node(&c.to).is_some());
                    assert_eq!(net.graph.find_edge(&loc(l as u16, n as u16), &c.to), Some(k));
                }
            }
        }
        deepest = deepest.max(depth);
        most_links = most_links.max(links);
    }
    assert!(deepest > 2);
    assert!(most_links > 0);
}

#[test]
fn gen_without_inputs_makes_no_connection_from_nowhere() {
    let outputs = [output(3)];
    for _ in 0..50 {
        let net = Net::gen(&[], &outputs, &|| bits(0.5), &|| on()).unwrap();
        assert!(net.graph.layers[0].is_empty());
        assert!(is_forward_only(&net.graph));
    }
}

#[test]
fn simulation_has_the_creatures_asked_for() {
    let inputs = [blank_input(0.0, 0)];
    let outputs = [output(1)];
    let sim = Simulation::new((bits(10.0), bits(20.0)), 4, &inputs, &outputs, &|| bits(0.0), &|| on()).unwrap();
    assert_eq!(sim.world_dim, (bits(10.0), bits(20.0)));
    assert_eq!(sim.creatures.len(), 4);
    for c in &sim.creatures {
        assert!(c.brain.graph.layers.len() >= 2);
        assert!(is_forward_only(&c.brain.graph));
    }
    let none = Simulation::new((0, 0), 0, &inputs, &outputs, &|| bits(0.0), &|| on()).unwrap();
    assert!(none.creatures.is_empty());
}

#[test]
fn connect_looks_for_a_second_way_from_its_source_only() {
    let mut g = create_graph(&[blank_input(0.0, 0)], &[output(1)]);
    g.add_layer(1);
    g.add_node(1, GraphNode::new(basic(0.0, 7))).unwrap();
    g.add_node(1, GraphNode::new(basic(0.0, 8))).unwrap();
    g.add_edge(loc(0, 0), loc(1, 0), on()).unwrap();
    g.add_edge(loc(0, 0), loc(1, 1), on()).unwrap();
    g.add_edge(loc(1, 0), loc(2, 0), on()).unwrap();
    let mut net = Net { graph: g, input_layer: 0, output_layer: 2 };
    assert!(!net.graph.has_cycle(None));
    assert_eq!(AddEdge.connect(&mut net, loc(1, 1), loc(2, 0), on()), Ok(true));
    assert!(!net.graph.has_cycle(Some(loc(1, 1))));
    // from the first input two ways lead to the output now
    assert!(net.graph.has_cycle(None));
    assert!(is_forward_only(&net.graph));
}

#[test]
fn intersection_compares_the_hidden_layers_of_both() {
    // the second layer of the deeper net stands beside the output layer of the other
    let mut deep = three_layer_net();
    deep.graph.add_layer(2);
    deep.graph.add_node(2, GraphNode::new(other("Sigmoid", 2))).unwrap();
    deep.graph.add_edge(loc(1, 0), loc(2, 0), on()).unwrap();
    deep.output_layer = 3;
    let mut shallow = three_layer_net();
    shallow.graph.add_edge(loc(1, 0), loc(2, 0), on()).unwrap();
    deep.graph.add_edge(loc(0, 0), loc(1, 0), on()).unwrap();
    shallow.graph.add_edge(loc(0, 0), loc(1, 0), on()).unwrap();
    let expected = vec![
        AlignedItem::Node(loc(1, 0), loc(1, 0)),
        AlignedItem::Edge {
            data: (
                info(loc(0, 0), loc(1, 0), "BlankInput", 0),
                info(loc(0, 0), loc(1, 0), "BlankInput", 0),
            ),
            _type: EdgeType::Incoming,
        },
        AlignedItem::Edge {
            data: (info(loc(1, 0), loc(2, 0), "Sigmoid", 2), info(loc(1, 0), loc(2, 0), "Sigmoid", 2)),
            _type: EdgeType::Outgoing,
        },
    ];
    assert_eq!(intersection(&deep, &shallow), expected);
    assert_eq!(intersection(&shallow, &deep), expected);
}

#[test]
fn mutations_keep_a_net_in_order() {
    let links: Vec<Box<dyn LinkMutator>> = vec![Box::new(AddEdge), Box::new(RemoveEdge)];
    let neurons: Vec<Box<dyn NeuronMutator>> = vec![Box::new(AddNeuron), Box::new(RemoveNeuron)];
    let pool = [BasicNeuron::new(bits(0.0), 20), BasicNeuron::new(bits(0.0), 21)];
    let inputs = [blank_input(0.0, 0), blank_input(0.0, 1)];
    let outputs = [output(2), output(3)];
    for round in 0..40usize {
        let mut net = Net::gen(&inputs, &outputs, &|| bits(0.5), &|| on()).unwrap();
        let steps: Vec<(bool, usize)> =
            (0..30usize).map(|i| ((i + round) % 3 != 0, (i * 7 + round) % 2)).collect();
        let r = net.mutate(&links, &neurons, &pool, &|count: usize| count - 1, &|| on(), Script::new(steps));
        // the removal of a neuron leaves the connections to its neighbours as they are:
        // one that has lost its target, or points at the slot of the new neuron, cannot be split
        assert!(matches!(r, Ok(()) | Err(MutateError::AddNeuronError(_))), "{:?}", r);
        let depth = net.graph.layers.len();
        assert!(depth >= 2);
        assert_eq!(net.input_layer, 0);
        assert_eq!(net.output_layer as usize, depth - 1);
        assert!(is_forward_only(&net.graph));
        for node in &net.graph.layers[0] {
            assert!(matches!(node.value, Node::Input(_)));
        }
        for node in &net.graph.layers[depth - 1] {
            assert!(matches!(node.value, Node::Output(_)));
        }
        for layer in &net.graph.layers[1..depth - 1] {
            for node in layer {
                assert!(matches!(node.value, Node::Neuron(_)));
            }
        }
        for layer in &net.graph.layers {
            for node in layer {
                for (k, c) in node.connections.iter().enumerate() {
                    assert!((c.to.layer as usize) < depth);
                    assert!(node.connections[..k].iter().all(|d| d.to != c.to));
                }
            }
        }
    }
}

#[test]
fn add_edge_mutation_without_a_node_behind_the_source() {
    let mut g = NeuralGraph::new();
    g.add_layer_to_end();
    g.add_layer_to_end();
    g.add_node(0, GraphNode::new(blank_input(0.0, 0))).unwrap();
    let mut net = Net { graph: g, input_layer: 0, output_layer: 1 };
    let before = net.graph.clone();
    for _ in 0..20 {
        assert_eq!(AddEdge.mutate(&mut net, on()), Ok(false));
        assert_eq!(net.graph, before);
    }
}

#[test]
fn add_edge_mutation_connects_where_a_node_stands_behind_every_source() {
    // one source, one target: the first call adds the connection, the next enable it
    let mut net = two_layer_net();
    let fresh = Edge { weight: bits(0.75), enabled: false };
    assert_eq!(AddEdge.mutate(&mut net, fresh), Ok(true));
    assert_eq!(net.graph.layers[0][0].connections, vec![GraphEdge { to: loc(1, 0), value: fresh }]);
    assert_eq!(AddEdge.mutate(&mut net, on()), Ok(true));
    assert_eq!(
        net.graph.layers[0][0].connections,
        vec![GraphEdge { to: loc(1, 0), value: Edge { weight: bits(0.75), enabled: true } }]
    );
}

fn identities(g: &NeuralGraph, kind: &str, id: usize) -> Vec<Node> {
    let mut found = Vec::new();
    for layer in &g.layers {
        for node in layer {
            let same = match node.value {
                Node::Blank => false,
                Node::Input(n) => n.kind == kind && n.id == id,
                Node::Output(n) => n.kind == kind && n.id == id,
                Node::Neuron(n) => n.kind == kind && n.id == id,
            };
            if same {
                found.push(node.value);
            }
        }
    }
    found
}

fn identity_of(g: &NeuralGraph, at: &GraphLocation) -> (&'static str, usize) {
    match g.get_node(at).unwrap().value {
        Node::Blank => panic!("a placeholder has no identity"),
        Node::Input(n) => (n.kind, n.id),
        Node::Output(n) => (n.kind, n.id),
        Node::Neuron(n) => (n.kind, n.id),
    }
}

fn has_edge_between(g: &NeuralGraph, from: (&str, usize), to: (&str, usize)) -> bool {
    for (l, layer) in g.layers.iter().enumerate() {
        for (n, node) in layer.iter().enumerate() {
            if identity_of(g, &loc(l as u16, n as u16)) != from {
                continue;
            }
            for c in &node.connections {
                if g.get_node(&c.to).is_some() && identity_of(g, &c.to) == to {
                    return true;
                }
            }
        }
    }
    false
}

#[test]
fn crossover_keeps_one_copy_of_the_shared_neuron() {
    let (a, b) = (parent_a(), parent_b());
    for _ in 0..50 {
        let mut child = Net::from_preserving_basic(&a).unwrap();
        assert_eq!(Crossover.reproduce(&a, &b, &mut child), Ok(()));
        let copies = identities(&child.graph, "BasicNeuron", 5);
        assert_eq!(copies.len(), 1);
        assert!(copies[0] == a.graph.layers[1][0].value || copies[0] == b.graph.layers[1][1].value);
        // the neurons that only one parent holds are not in the child
        assert!(identities(&child.graph, "TestNeuronA", 6).is_empty());
        assert!(identities(&child.graph, "TestNeuronB", 6).is_empty());
    }
}

#[test]
fn crossover_keeps_the_connections_that_both_parents_have() {
    let (a, b) = (parent_a(), parent_b());
    for _ in 0..50 {
        let mut child = Net::from_preserving_basic(&a).unwrap();
        assert_eq!(Crossover.reproduce(&a, &b, &mut child), Ok(()));
        for (l, layer) in child.graph.layers.iter().enumerate() {
            for (n, node) in layer.iter().enumerate() {
                let from = identity_of(&child.graph, &loc(l as u16, n as u16));
                for c in &node.connections {
                    let to = identity_of(&child.graph, &c.to);
                    assert!(has_edge_between(&a.graph, from, to));
                    assert!(has_edge_between(&b.graph, from, to));
                }
            }
        }
    }
}

fn swapped_parents() -> (Net, Net) {
    let mut a = create_graph(&[blank_input(0.0, 0)], &[output(9)]);
    a.add_layer(1);
    a.add_layer(2);
    a.add_node(1, GraphNode::new(basic(0.0, 5))).unwrap();
    a.add_node(2, GraphNode::new(basic(0.0, 8))).unwrap();
    a.add_node(2, GraphNode::new(basic(0.0, 7))).unwrap();
    a.add_edge(loc(1, 0), loc(2, 1), Edge { weight: bits(1.0), enabled: true }).unwrap();
    a.add_edge(loc(2, 0), loc(3, 0), Edge { weight: bits(2.0), enabled: true }).unwrap();
    let mut b = create_graph(&[blank_input(0.0, 0)], &[output(9)]);
    b.add_layer(1);
    b.add_layer(2);
    b.add_node(1, GraphNode::new(basic(0.0, 5))).unwrap();
    b.add_node(2, GraphNode::new(basic(0.0, 7))).unwrap();
    b.add_node(2, GraphNode::new(basic(0.0, 8))).unwrap();
    b.add_edge(loc(1, 0), loc(2, 0), Edge { weight: bits(-1.0), enabled: true }).unwrap();
    b.add_edge(loc(2, 1), loc(3, 0), Edge { weight: bits(-2.0), enabled: true }).unwrap();
    (
        Net { graph: a, input_layer: 0, output_layer: 3 },
        Net { graph: b, input_layer: 0, output_layer: 3 },
    )
}

#[test]
fn intersection_lists_each_pair_of_neurons_once() {
    let (a, b) = swapped_parents();
    let items = intersection(&a, &b);
    let mut pairs: Vec<(GraphLocation, GraphLocation)> = Vec::new();
    for item in &items {
        if let AlignedItem::Node(x, y) = item {
            assert!(!pairs.contains(&(*x, *y)));
            pairs.push((*x, *y));
        }
    }
    assert_eq!(
        pairs,
        vec![(loc(1, 0), loc(1, 0)), (loc(2, 0), loc(2, 1)), (loc(2, 1), loc(2, 0))]
    );
    assert_eq!(items.len(), 6);
}

#[test]
fn cross_takes_the_far_end_of_a_connection_where_the_chosen_parent_has_it() {
    let (a, b) = swapped_parents();
    let items = intersection(&a, &b);
    // every neuron from the first parent, every connection from the second
    let coins = vec![true, false, true, false, true, false];
    let mut child = Net::from_preserving_basic(&a).unwrap();
    assert_eq!(Crossover.cross(&a, &b, &mut child, &items, &coins), Ok(()));
    assert_eq!(child.graph.layers[1].len(), 1);
    assert_eq!(child.graph.layers[2].len(), 2);
    assert_eq!(child.graph.layers[2][0].value, basic(0.0, 8));
    assert_eq!(child.graph.layers[2][1].value, basic(0.0, 7));
    // the connection out of neuron 5 was taken where the second parent has
    // its target, and there the child holds neuron 8
    let five = ("BasicNeuron", 5);
    let eight = ("BasicNeuron", 8);
    assert_eq!(
        child.graph.get_edge(&loc(1, 0), &loc(2, 0)).unwrap().value,
        Edge { weight: bits(-1.0), enabled: true }
    );
    assert!(has_edge_between(&child.graph, five, eight));
    assert!(!has_edge_between(&a.graph, five, eight));
    assert!(!has_edge_between(&b.graph, five, eight));
    // every weight in the child is the weight of a shared connection
    for layer in &child.graph.layers {
        for node in layer {
            for c in &node.connections {
                assert!(c.value.weight == bits(-1.0) || c.value.weight == bits(-2.0));
            }
        }
    }
}

#[test]
fn add_neuron_leaves_the_output_layer_where_nothing_is_split() {
    let pool = [BasicNeuron::new(bits(0.0), 20)];
    // a net that names a layer it lacks, and has no connection to split
    let mut net = Net { graph: create_graph(&[blank_input(0.0, 0)], &[output(1)]), input_layer: 0, output_layer: 7 };
    assert_eq!(AddNeuron.mutate(&mut net, &pool, 0), Ok(false));
    assert_eq!(net.output_layer, 7);
    net.graph.add_edge(loc(0, 0), loc(1, 0), on()).unwrap();
    assert_eq!(AddNeuron.mutate(&mut net, &pool, 3), Err(MutateError::NeuronSelectorOutOfRange(1)));
    assert_eq!(net.output_layer, 7);
    assert_eq!(AddNeuron.mutate(&mut net, &pool, 0), Ok(true));
    assert_eq!(net.output_layer, 2);
}

#[test]
fn add_neuron_keeps_every_other_connection() {
    let mut net = three_layer_net();
    let split = Edge { weight: bits(1.3), enabled: true };
    let far = Edge { weight: bits(2.5), enabled: true };
    let next = Edge { weight: bits(-0.5), enabled: false };
    net.graph.add_edge(loc(0, 0), loc(1, 0), split).unwrap();
    net.graph.add_edge(loc(0, 0), loc(2, 0), far).unwrap();
    net.graph.add_edge(loc(0, 1), loc(1, 0), on()).unwrap();
    net.graph.add_edge(loc(1, 0), loc(2, 0), next).unwrap();
    assert_eq!(net.graph.count_edges(), 4);
    AddNeuron
        .run(loc(0, 0), GraphEdge { to: loc(1, 0), value: split }, &mut net, BasicNeuron::new(bits(0.0), 9))
        .unwrap();
    // one connection more: the one that was split is gone, two are new
    assert_eq!(net.graph.count_edges(), 5);
    assert_eq!(net.graph.layers.len(), 4);
    assert_eq!(net.graph.layers[1].len(), 1);
    assert_eq!(net.graph.layers[1][0].value, basic(0.0, 9));
    assert_eq!(net.graph.layers[2][0].value, basic(0.0, 7));
    assert!(net.graph.get_edge(&loc(0, 0), &loc(2, 0)).is_none());
    assert_eq!(net.graph.get_edge(&loc(0, 0), &loc(1, 0)).unwrap().value, split);
    assert_eq!(net.graph.get_edge(&loc(1, 0), &loc(2, 0)).unwrap().value, Edge::default());
    // every other connection joins the nodes it joined, one layer up
    assert_eq!(net.graph.get_edge(&loc(0, 0), &loc(3, 0)).unwrap().value, far);
    assert_eq!(net.graph.get_edge(&loc(0, 1), &loc(2, 0)).unwrap().value, on());
    assert_eq!(net.graph.get_edge(&loc(2, 0), &loc(3, 0)).unwrap().value, next);
}

#[test]
fn add_neuron_behind_the_last_layer_is_refused() {
    let mut net = three_layer_net();
    let r = AddNeuron.run(
        loc(3, 0),
        GraphEdge { to: loc(4, 0), value: on() },
        &mut net,
        BasicNeuron::new(bits(0.0), 9),
    );
    assert_eq!(r, Err(MutateError::AddNeuronError(NeuralGraphError::LayerNotFound(3))));
    assert_eq!(net.graph, three_layer_net().graph);
}

#[test]
fn script_replays_its_steps_whatever_is_on_offer() {
    let links: Vec<Box<dyn LinkMutator>> = vec![Box::new(AddEdge)];
    let neurons: Vec<Box<dyn NeuronMutator>> = Vec::new();
    let g = two_layer_net().graph;
    let mut script = Script::new(vec![(true, 0), (false, 3)]);
    assert_eq!(
        engine::nn::mutate::Generator::generate(&mut script, &g, &links, &neurons),
        Ok((true, 0, false))
    );
    assert_eq!(
        engine::nn::mutate::Generator::generate(&mut script, &g, &links, &neurons),
        Ok((false, 3, true))
    );
    assert_eq!(
        engine::nn::mutate::Generator::generate(&mut script, &g, &links, &neurons),
        Err(engine::nn::mutate::GeneratorError::Exhausted)
    );
    assert_eq!(script.next, 2);
}
