use audio_graph::{
    AudioGraph, AudioNodeType, AudioRuntimeParameters, Error, ErrorCodes, MapNode, OutputNode,
    TestNode, TestOutputNode,
};

fn add_test_node(graph: &mut AudioGraph) -> Result<usize, Error> {
    let n = TestNode::new();
    graph.add_new_node(n.get_node_type(), n.get_number_of_inputs())
}

fn code_of(r: Result<(), Error>) -> Option<ErrorCodes> {
    match r {
        Ok(()) => None,
        Err(e) => Some(e.code),
    }
}

fn walk(graph: &mut AudioGraph) -> Vec<usize> {
    let mut order = Vec::new();
    graph.start_traversal();
    while let Some(id) = graph.next() {
        order.push(id);
    }
    order
}

fn params(freq: f32, size: usize) -> AudioRuntimeParameters {
    AudioRuntimeParameters { sampling_freq_bits: freq.to_bits(), buffer_size: size }
}

#[test]
fn add_node_to_graph() {
    let mut graph = AudioGraph::new();
    let id = match add_test_node(&mut graph) {
        Ok(i) => i,
        Err(_) => panic!(),
    };
    assert_eq!(id, 1);
    let id_another_node = match add_test_node(&mut graph) {
        Ok(i) => i,
        Err(_) => panic!(),
    };
    assert_eq!(id_another_node, 2);
}

#[test]
fn connect_nodes_in_graph() {
    let mut graph = AudioGraph::new();

    let result = graph.connect_node(1, 2, 0);
    match result {
        Err(e) => println!("{}", e.message),
        _ => panic!(),
    }

    let n0 = TestOutputNode::new();
    match graph.add_new_node(n0.get_node_type(), n0.get_number_of_inputs()) {
        Err(_) => {}
        Ok(_) => panic!(),
    }

    let id_n1 = match add_test_node(&mut graph) {
        Ok(i) => i,
        Err(e) => panic!("{}", e.message),
    };
    let id_n2 = match add_test_node(&mut graph) {
        Ok(i) => i,
        Err(e) => panic!("{}", e.message),
    };
    assert_eq!(id_n1, 1);
    assert_eq!(id_n2, 2);

    match graph.connect_node(id_n1, id_n1, 0) {
        Err(_) => {}
        _ => panic!(),
    }
    match graph.connect_node(id_n1, id_n2, 0) {
        Err(e) => panic!("{}", e.message),
        _ => {}
    }
    match graph.connect_node_to_output(id_n2) {
        Err(e) => panic!("{}", e.message),
        _ => {}
    }
    match graph.connect_node_to_output(id_n1) {
        Err(e) => println!("{}", e.message),
        _ => panic!(),
    }
    match graph.connect_node(id_n1, id_n2, 0) {
        Err(e) => println!("{}", e.message),
        _ => panic!(),
    }
}

#[test]
fn run_audio_graph() {
    // A generator that writes 1.0 into every sample, feeding an effect that
    // halves every sample, feeding the sink.
    let mut graph = AudioGraph::new();
    let n1_id = match graph.add_new_node(AudioNodeType::Generator, 0) {
        Ok(i) => i,
        Err(e) => panic!("{}", e.message),
    };
    let n2_id = match graph.add_new_node(AudioNodeType::Effect, 1) {
        Ok(i) => i,
        Err(e) => panic!("{}", e.message),
    };
    match graph.connect_node(n1_id, n2_id, 0) {
        Err(e) => panic!("{}", e.message),
        _ => {}
    }
    match graph.connect_node_to_output(n2_id) {
        Err(e) => panic!("{}", e.message),
        _ => {}
    }
    match graph.prepare(params(44_100.0, 4)) {
        Err(e) => panic!("{}", e.message),
        _ => {}
    }
    let block = graph.runtime_parameters().buffer_size;
    let mut buffer = [0.0f32; 4];
    graph.start_traversal();
    while let Some(id) = graph.next() {
        if id == n1_id {
            for s in buffer.iter_mut().take(block) {
                *s = 1.0;
            }
        } else if id == n2_id {
            for s in buffer.iter_mut().take(block) {
                *s *= 0.5;
            }
        }
    }
    assert_eq!(buffer[0], 0.5);
    assert_eq!(buffer[1], 0.5);
    assert_eq!(buffer[2], 0.5);
    assert_eq!(buffer[3], 0.5);
}

#[test]
fn ids_follow_registration_order() {
    let mut graph = AudioGraph::new();
    for expected in 1..=6usize {
        assert_eq!(graph.add_new_node(AudioNodeType::Mixer, 2).ok(), Some(expected));
    }
    assert_eq!(graph.node_count(), 7);
}

#[test]
fn sink_category_always_refused() {
    let mut graph = AudioGraph::new();
    let r = graph.add_new_node(AudioNodeType::Output, 1);
    assert!(matches!(r, Err(Error { code: ErrorCodes::CannotAddOutputTypeNode, .. })));
    add_test_node(&mut graph).ok().unwrap();
    let r = graph.add_new_node(AudioNodeType::Output, 0);
    assert!(matches!(r, Err(Error { code: ErrorCodes::CannotAddOutputTypeNode, .. })));
    assert_eq!(graph.node_count(), 2);
    assert_eq!(add_test_node(&mut graph).ok(), Some(2));
}

#[test]
fn unknown_ids_refused() {
    let mut graph = AudioGraph::new();
    add_test_node(&mut graph).ok().unwrap();
    assert_eq!(code_of(graph.connect_node(1, 2, 0)), Some(ErrorCodes::NodeIDNonExistent));
    assert_eq!(code_of(graph.connect_node(2, 1, 0)), Some(ErrorCodes::NodeIDNonExistent));
    assert_eq!(code_of(graph.connect_node_to_output(5)), Some(ErrorCodes::NodeIDNonExistent));
}

#[test]
fn invalid_port_refused() {
    let mut graph = AudioGraph::new();
    let a = add_test_node(&mut graph).ok().unwrap();
    let b = add_test_node(&mut graph).ok().unwrap();
    assert_eq!(code_of(graph.connect_node(a, b, 1)), Some(ErrorCodes::NodeInputPortInvalid));
    let g = graph.add_new_node(AudioNodeType::Generator, 0).ok().unwrap();
    assert_eq!(code_of(graph.connect_node(a, g, 0)), Some(ErrorCodes::NodeInputPortInvalid));
}

#[test]
fn full_consumer_refused() {
    let mut graph = AudioGraph::new();
    let a = add_test_node(&mut graph).ok().unwrap();
    let b = add_test_node(&mut graph).ok().unwrap();
    let c = add_test_node(&mut graph).ok().unwrap();
    assert_eq!(code_of(graph.connect_node(a, c, 0)), None);
    assert_eq!(code_of(graph.connect_node(b, c, 0)), Some(ErrorCodes::NodeNoMoreInputs));
    assert_eq!(graph.source_count(c), 1);
    assert_eq!(graph.parent_of(b), None);
}

#[test]
fn self_connection_refused() {
    let mut graph = AudioGraph::new();
    let a = graph.add_new_node(AudioNodeType::Mixer, 3).ok().unwrap();
    for port in 0..3 {
        assert_eq!(
            code_of(graph.connect_node(a, a, port)),
            Some(ErrorCodes::NodeConnectingToItself)
        );
    }
    assert_eq!(graph.source_count(a), 0);
}

#[test]
fn repeated_connection_refused() {
    let mut graph = AudioGraph::new();
    let a = add_test_node(&mut graph).ok().unwrap();
    let m = graph.add_new_node(AudioNodeType::Mixer, 2).ok().unwrap();
    assert_eq!(code_of(graph.connect_node(a, m, 0)), None);
    assert_eq!(code_of(graph.connect_node(a, m, 0)), Some(ErrorCodes::ConnectionAlreadyExists));
    assert_eq!(graph.source_count(m), 1);
    assert_eq!(graph.parent_of(a), Some(m));
}

#[test]
fn second_parent_refused() {
    let mut graph = AudioGraph::new();
    let a = add_test_node(&mut graph).ok().unwrap();
    let b = add_test_node(&mut graph).ok().unwrap();
    let c = add_test_node(&mut graph).ok().unwrap();
    assert_eq!(code_of(graph.connect_node(a, b, 0)), None);
    assert_eq!(code_of(graph.connect_node(a, c, 0)), Some(ErrorCodes::NodeParentAlreadyExists));
    assert_eq!(graph.source_count(c), 0);
    assert_eq!(graph.parent_of(a), Some(b));
}

#[test]
fn sink_takes_one_source() {
    let mut graph = AudioGraph::new();
    let a = add_test_node(&mut graph).ok().unwrap();
    let b = add_test_node(&mut graph).ok().unwrap();
    assert_eq!(code_of(graph.connect_node_to_output(a)), None);
    assert_eq!(code_of(graph.connect_node_to_output(b)), Some(ErrorCodes::NodeNoMoreInputs));
    assert_eq!(code_of(graph.connect_node_to_output(a)), Some(ErrorCodes::NodeNoMoreInputs));
    assert_eq!(code_of(graph.connect_node(b, 0, 0)), Some(ErrorCodes::NodeNoMoreInputs));
    assert_eq!(graph.source_count(0), 1);
}

#[test]
fn bad_settings_refused() {
    let mut graph = AudioGraph::new();
    let before = graph.runtime_parameters();
    assert_eq!(before, params(44_100.0, 512));
    assert_eq!(code_of(graph.prepare(params(48_000.0, 0))), Some(ErrorCodes::InvalidBufferSize));
    assert_eq!(code_of(graph.prepare(params(0.0, 0))), Some(ErrorCodes::InvalidBufferSize));
    assert_eq!(code_of(graph.prepare(params(0.0, 64))), Some(ErrorCodes::InvalidSamplingFrequency));
    assert_eq!(code_of(graph.prepare(params(-0.0, 64))), Some(ErrorCodes::InvalidSamplingFrequency));
    assert_eq!(
        code_of(graph.prepare(params(-44_100.0, 64))),
        Some(ErrorCodes::InvalidSamplingFrequency)
    );
    assert_eq!(
        code_of(graph.prepare(params(f32::NEG_INFINITY, 64))),
        Some(ErrorCodes::InvalidSamplingFrequency)
    );
    assert_eq!(graph.runtime_parameters(), before);
}

#[test]
fn nan_sampling_frequency_refused() {
    let mut graph = AudioGraph::new();
    let before = graph.runtime_parameters();
    assert_eq!(code_of(graph.prepare(params(f32::NAN, 4))), Some(ErrorCodes::InvalidSamplingFrequency));
    let negative_nan = AudioRuntimeParameters { sampling_freq_bits: 0xffc0_0000, buffer_size: 4 };
    assert_eq!(code_of(graph.prepare(negative_nan)), Some(ErrorCodes::InvalidSamplingFrequency));
    let signalling_nan = AudioRuntimeParameters { sampling_freq_bits: 0x7f80_0001, buffer_size: 4 };
    assert_eq!(code_of(graph.prepare(signalling_nan)), Some(ErrorCodes::InvalidSamplingFrequency));
    assert_eq!(graph.runtime_parameters(), before);
}

#[test]
fn positive_sampling_frequencies_accepted() {
    let mut graph = AudioGraph::new();
    let tiniest = AudioRuntimeParameters { sampling_freq_bits: 1, buffer_size: 1 };
    assert_eq!(code_of(graph.prepare(tiniest)), None);
    assert_eq!(code_of(graph.prepare(params(f32::MIN_POSITIVE, 1))), None);
    assert_eq!(code_of(graph.prepare(params(f32::INFINITY, 1))), None);
    assert_eq!(code_of(graph.prepare(params(96_000.0, 128))), None);
    assert_eq!(graph.runtime_parameters(), params(96_000.0, 128));
}

#[test]
fn prepare_twice_same_result() {
    let mut graph = AudioGraph::new();
    let a = add_test_node(&mut graph).ok().unwrap();
    graph.connect_node_to_output(a).ok().unwrap();
    let p = params(22_050.0, 256);
    assert_eq!(code_of(graph.prepare(p)), None);
    let once = (graph.runtime_parameters(), walk(&mut graph), graph.parent_of(a));
    assert_eq!(code_of(graph.prepare(p)), None);
    let twice = (graph.runtime_parameters(), walk(&mut graph), graph.parent_of(a));
    assert_eq!(once, twice);
    assert_eq!(twice.0, p);
    assert_eq!(twice.1, vec![a, 0]);
}

#[test]
fn empty_graph_walks_sink_only() {
    let mut graph = AudioGraph::new();
    assert_eq!(walk(&mut graph), vec![0]);
    assert_eq!(graph.next(), None);
}

#[test]
fn mixer_sources_walked_in_connection_order() {
    // d -> b; a, b, c -> m; m -> sink; e is not connected.
    let mut graph = AudioGraph::new();
    let m = graph.add_new_node(AudioNodeType::Mixer, 3).ok().unwrap();
    let a = graph.add_new_node(AudioNodeType::Generator, 0).ok().unwrap();
    let b = graph.add_new_node(AudioNodeType::Effect, 1).ok().unwrap();
    let c = graph.add_new_node(AudioNodeType::Generator, 0).ok().unwrap();
    let d = graph.add_new_node(AudioNodeType::Generator, 0).ok().unwrap();
    let e = graph.add_new_node(AudioNodeType::Generator, 0).ok().unwrap();
    graph.connect_node(a, m, 0).ok().unwrap();
    graph.connect_node(d, b, 0).ok().unwrap();
    graph.connect_node(b, m, 1).ok().unwrap();
    graph.connect_node(c, m, 2).ok().unwrap();
    graph.connect_node_to_output(m).ok().unwrap();
    let order = walk(&mut graph);
    assert_eq!(order, vec![a, d, b, c, m, 0]);
    assert!(!order.contains(&e));
    assert_eq!(walk(&mut graph), order);
}

#[test]
fn nested_mixers_walked_sources_first() {
    let mut graph = AudioGraph::new();
    let top = graph.add_new_node(AudioNodeType::Mixer, 2).ok().unwrap();
    let left = graph.add_new_node(AudioNodeType::Mixer, 2).ok().unwrap();
    let right = graph.add_new_node(AudioNodeType::Mixer, 2).ok().unwrap();
    let l1 = graph.add_new_node(AudioNodeType::Generator, 0).ok().unwrap();
    let l2 = graph.add_new_node(AudioNodeType::Generator, 0).ok().unwrap();
    let r1 = graph.add_new_node(AudioNodeType::Generator, 0).ok().unwrap();
    let r2 = graph.add_new_node(AudioNodeType::Generator, 0).ok().unwrap();
    graph.connect_node(l1, left, 0).ok().unwrap();
    graph.connect_node(l2, left, 1).ok().unwrap();
    graph.connect_node(r1, right, 0).ok().unwrap();
    graph.connect_node(r2, right, 1).ok().unwrap();
    graph.connect_node(left, top, 0).ok().unwrap();
    graph.connect_node(right, top, 1).ok().unwrap();
    graph.connect_node_to_output(top).ok().unwrap();
    assert_eq!(walk(&mut graph), vec![l1, l2, left, r1, r2, right, top, 0]);
}

#[test]
fn long_chain_walked_from_far_end() {
    let mut graph = AudioGraph::new();
    let mut ids = Vec::new();
    for _ in 0..8 {
        ids.push(add_test_node(&mut graph).ok().unwrap());
    }
    for w in ids.windows(2) {
        graph.connect_node(w[1], w[0], 0).ok().unwrap();
    }
    graph.connect_node_to_output(ids[0]).ok().unwrap();
    let mut expected: Vec<usize> = ids.iter().rev().copied().collect();
    expected.push(0);
    assert_eq!(walk(&mut graph), expected);
}

#[test]
fn wiring_abandons_walk_under_way() {
    let mut graph = AudioGraph::new();
    let a = add_test_node(&mut graph).ok().unwrap();
    graph.connect_node_to_output(a).ok().unwrap();
    graph.start_traversal();
    assert_eq!(graph.next(), Some(a));
    add_test_node(&mut graph).ok().unwrap();
    assert_eq!(graph.next(), None);
}

#[test]
fn model_nodes_track_ports() {
    let mut n = TestNode::new();
    assert_eq!(n.get_node_type(), AudioNodeType::Test);
    assert_eq!(n.get_number_of_inputs(), 1);
    assert_eq!(n.get_next_available_input(), Some(0));
    n.connect_input();
    assert_eq!(n.get_next_available_input(), None);
    n.connect_input();
    assert_eq!(n.get_next_available_input(), None);

    let mut sink = OutputNode::new();
    assert_eq!(sink.get_node_type(), AudioNodeType::Output);
    assert_eq!(sink.get_number_of_inputs(), 1);
    assert_eq!(sink.get_next_available_input(), Some(0));
    sink.connect_input();
    assert_eq!(sink.get_next_available_input(), None);

    let out = TestOutputNode::new();
    assert_eq!(out.get_node_type(), AudioNodeType::Output);
    assert_eq!(out.get_number_of_inputs(), 0);
    assert_eq!(out.get_next_available_input(), None);

    let entry = MapNode::new();
    assert_eq!(entry.parent, None);
    assert!(entry.children.is_empty());
}

#[test]
fn error_messages() {
    let e = Error::new(ErrorCodes::NodeConnectingToItself);
    assert_eq!(e.code(), ErrorCodes::NodeConnectingToItself);
    assert_eq!(e.message, "Cannot connect a node to itself");
    let mut graph = AudioGraph::new();
    match graph.add_new_node(AudioNodeType::Output, 1) {
        Err(e) => assert_eq!(e.message, "Cannot add output type node to graph"),
        Ok(_) => panic!(),
    }
    match graph.prepare(params(1.0, 0)) {
        Err(e) => assert_eq!(e.message, "Invalid buffer size"),
        Ok(_) => panic!(),
    }
}

#[test]
fn default_settings() {
    let p = AudioRuntimeParameters::new();
    assert_eq!(f32::from_bits(p.sampling_freq_bits), 44_100.0);
    assert_eq!(p.buffer_size, 512);
    assert_eq!(p.check(), None);
    assert_eq!(params(0.0, 1).check(), Some(ErrorCodes::InvalidSamplingFrequency));
}

#[test]
fn two_node_loop_refused() {
    let mut graph = AudioGraph::new();
    let a = add_test_node(&mut graph).ok().unwrap();
    let b = add_test_node(&mut graph).ok().unwrap();
    assert_eq!(code_of(graph.connect_node(a, b, 0)), None);
    assert_eq!(code_of(graph.connect_node(b, a, 0)), Some(ErrorCodes::ConnectionCreatesCycle));
    assert_eq!(graph.parent_of(b), None);
    assert_eq!(graph.source_count(a), 0);
}

#[test]
fn longer_loop_refused() {
    let mut graph = AudioGraph::new();
    let a = add_test_node(&mut graph).ok().unwrap();
    let b = add_test_node(&mut graph).ok().unwrap();
    let c = add_test_node(&mut graph).ok().unwrap();
    graph.connect_node(a, b, 0).ok().unwrap();
    graph.connect_node(b, c, 0).ok().unwrap();
    assert_eq!(code_of(graph.connect_node(c, a, 0)), Some(ErrorCodes::ConnectionCreatesCycle));
    graph.connect_node_to_output(c).ok().unwrap();
    assert_eq!(walk(&mut graph), vec![a, b, c, 0]);
}

#[test]
fn sink_cannot_be_a_source() {
    let mut graph = AudioGraph::new();
    let a = add_test_node(&mut graph).ok().unwrap();
    let m = graph.add_new_node(AudioNodeType::Mixer, 2).ok().unwrap();
    assert_eq!(code_of(graph.connect_node(0, a, 0)), Some(ErrorCodes::ConnectionCreatesCycle));
    assert_eq!(code_of(graph.connect_node(0, m, 1)), Some(ErrorCodes::ConnectionCreatesCycle));
    assert_eq!(graph.parent_of(0), None);
    graph.connect_node(a, m, 0).ok().unwrap();
    graph.connect_node_to_output(m).ok().unwrap();
    assert_eq!(walk(&mut graph), vec![a, m, 0]);
    assert_eq!(
        Error::new(ErrorCodes::ConnectionCreatesCycle).message,
        "The node connection would close a loop"
    );
}
