use oscen::graph::GraphError;
use oscen::jit::jit_graph::JITError;
use oscen::graph::jit::runtime::GraphStateBuilder;
use arrayvec::ArrayVec;
use oscen::graph::jit::ir::{connections_from, connections_to, validate_ir, ConnectionIR, IrError, NodeIR};
use oscen::graph::offline::{next_block, render_length, DEFAULT_MAX_BLOCK_SIZE};
use oscen::graph::types::{EndpointDescriptor, EndpointDirection, EndpointType};
use oscen::graph::{find_index, Connection, EndpointMetadata, InputEndpoint, OutputEndpoint};
use oscen::graph::MAX_CONNECTIONS_PER_OUTPUT;

#[test]
fn render_length_is_longest_input_plus_tail() {
    assert_eq!(render_length(&[100, 700, 300], 50), 750);
    assert_eq!(render_length(&[], 64), 64);
    assert_eq!(render_length(&[0, 0], 0), 0);
}

#[test]
fn block_schedule_covers_render_once() {
    let total = render_length(&[1000], 200);
    let mut pos = 0;
    let mut blocks = Vec::new();
    while let Some(n) = next_block(pos, total) {
        blocks.push(n);
        pos += n;
    }
    assert_eq!(blocks, vec![DEFAULT_MAX_BLOCK_SIZE, DEFAULT_MAX_BLOCK_SIZE, 176]);
    assert_eq!(pos, 1200);
}

#[test]
fn next_block_values() {
    assert_eq!(next_block(0, 0), None);
    assert_eq!(next_block(0, 10), Some(10));
    assert_eq!(next_block(0, 512), Some(512));
    assert_eq!(next_block(0, 513), Some(512));
    assert_eq!(next_block(512, 513), Some(1));
    assert_eq!(next_block(513, 513), None);
    assert_eq!(next_block(600, 513), None);
}

#[test]
fn endpoints_keep_their_keys() {
    assert_eq!(InputEndpoint::new(7).key(), 7);
    assert_eq!(OutputEndpoint::new(9).key(), 9);
}

#[test]
fn shr_and_and_collect_connections() {
    let out = OutputEndpoint::new(1);
    let b = (out >> InputEndpoint::new(2)).and(InputEndpoint::new(3));
    assert_eq!(b.from.key(), 1);
    let targets: Vec<u64> = b.connections.iter().map(|c| c.to.key()).collect();
    assert_eq!(targets, vec![2, 3]);
    assert!(b.connections.iter().all(|c| c.from.key() == 1));
    let list: ArrayVec<Connection, MAX_CONNECTIONS_PER_OUTPUT> = b.into();
    assert_eq!(list.len(), 2);
}

#[test]
fn to_makes_one_connection() {
    let b = OutputEndpoint::new(4).to(InputEndpoint::new(5));
    assert_eq!(b.connections.len(), 1);
    assert_eq!(b.connections[0].to.key(), 5);
    assert_eq!(b.connections[0].from.key(), 4);
}

#[test]
fn find_index_takes_first_match() {
    let eps = [
        EndpointMetadata { name: "in", index: 0 },
        EndpointMetadata { name: "cutoff", index: 1 },
        EndpointMetadata { name: "cutoff", index: 2 },
    ];
    assert_eq!(find_index(&eps, "cutoff"), Some(1));
    assert_eq!(find_index(&eps, "in"), Some(0));
    assert_eq!(find_index(&eps, "q"), None);
    assert_eq!(find_index(&[], "in"), None);
}

#[test]
fn endpoint_descriptor_new_keeps_fields() {
    let d = EndpointDescriptor::new("gain", EndpointType::Value, EndpointDirection::Input);
    assert_eq!(d.name, "gain");
    assert_eq!(d.endpoint_type, EndpointType::Value);
    assert_eq!(d.direction, EndpointDirection::Input);
}

fn node(index: usize) -> NodeIR {
    NodeIR {
        index,
        key_data: index as u64,
        num_stream_inputs: 0,
        num_value_inputs: 0,
        num_event_inputs: 0,
        stream_inputs: vec![],
        value_inputs: vec![],
        event_inputs: vec![],
        stream_outputs: vec![],
        value_outputs: vec![],
        event_outputs: vec![],
    }
}

fn conn(src: usize, dst: usize) -> ConnectionIR {
    ConnectionIR {
        src_node: src,
        src_output: 0,
        dst_node: dst,
        dst_input: 0,
        connection_type: EndpointType::Stream,
    }
}

#[test]
fn validate_ir_accepts_consistent_representation() {
    let nodes = vec![node(0), node(1)];
    assert_eq!(validate_ir(&nodes, &vec![conn(0, 1)], &vec![0, 1]), Ok(()));
}

#[test]
fn validate_ir_reports_each_error() {
    let nodes = vec![node(0), node(1)];
    assert_eq!(validate_ir(&nodes, &vec![], &vec![0]), Err(IrError::TopologyLengthMismatch));
    assert_eq!(validate_ir(&nodes, &vec![], &vec![0, 5]), Err(IrError::InvalidTopologyIndex(5)));
    assert_eq!(
        validate_ir(&nodes, &vec![conn(0, 1), conn(3, 1)], &vec![1, 0]),
        Err(IrError::InvalidSourceNode(3))
    );
    assert_eq!(
        validate_ir(&nodes, &vec![conn(0, 4), conn(3, 1)], &vec![1, 0]),
        Err(IrError::InvalidDestinationNode(4))
    );
}

#[test]
fn connections_from_and_to_filter_in_order() {
    let cs = vec![conn(0, 1), conn(1, 2), conn(0, 2), conn(2, 0)];
    let from0: Vec<(usize, usize)> =
        connections_from(&cs, 0).iter().map(|c| (c.src_node, c.dst_node)).collect();
    assert_eq!(from0, vec![(0, 1), (0, 2)]);
    let to2: Vec<(usize, usize)> =
        connections_to(&cs, 2).iter().map(|c| (c.src_node, c.dst_node)).collect();
    assert_eq!(to2, vec![(1, 2), (0, 2)]);
    assert!(connections_from(&cs, 5).is_empty());
}

#[test]
fn state_builder_tables_find_each_node() {
    let mut a = node(0);
    a.key_data = 100;
    a.stream_inputs = vec![1];
    a.value_inputs = vec![2];
    a.event_inputs = vec![3];
    a.stream_outputs = vec![4];
    a.value_outputs = vec![99];
    a.event_outputs = vec![5];
    let mut b = node(1);
    b.key_data = 200;
    b.value_inputs = vec![6, 7];
    b.stream_outputs = vec![8];
    let t = GraphStateBuilder::new(&vec![a, b]);
    assert_eq!(t.node_keys, vec![100, 200]);
    assert_eq!(t.endpoint_keys, vec![1, 2, 3, 6, 7, 4, 5, 8]);
    assert_eq!(t.input_offsets, vec![0, 3, 5]);
    assert_eq!(t.output_offsets, vec![5, 7, 8]);
    let empty = GraphStateBuilder::new(&vec![]);
    assert!(empty.endpoint_keys.is_empty());
    assert_eq!(empty.input_offsets, vec![0]);
    assert_eq!(empty.output_offsets, vec![0]);
}

#[test]
fn graph_errors_convert_into_jit_errors() {
    let e: JITError = GraphError::CycleDetected(vec![3]).into();
    match e {
        JITError::Graph(GraphError::CycleDetected(path)) => assert_eq!(path, vec![3]),
        other => panic!("unexpected {:?}", other),
    }
}
