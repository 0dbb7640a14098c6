use oscen::jit::memory_layout::{MemoryLayout, NodeShape};

#[test]
fn test_align_to() {
    assert_eq!(MemoryLayout::align_to(0, 4), 0);
    assert_eq!(MemoryLayout::align_to(1, 4), 4);
    assert_eq!(MemoryLayout::align_to(4, 4), 4);
    assert_eq!(MemoryLayout::align_to(5, 4), 8);
    assert_eq!(MemoryLayout::align_to(7, 8), 8);
    assert_eq!(MemoryLayout::align_to(9, 8), 16);
}

#[test]
fn node_sizes_follow_the_type_name() {
    assert_eq!(MemoryLayout::get_node_sizes(b"Gain { input: 0.0 }"), (0, 8, 1));
    assert_eq!(MemoryLayout::get_node_sizes(b"Oscillator { phase: 0.0 }"), (8, 4, 2));
    assert_eq!(MemoryLayout::get_node_sizes(b"TptFilter { z: [0.0, 0.0] }"), (32, 12, 2));
    assert_eq!(MemoryLayout::get_node_sizes(b"Delay { }"), (16, 8, 2));
    // the first matching name wins
    assert_eq!(MemoryLayout::get_node_sizes(b"OscillatorGain"), (0, 8, 1));
}

#[test]
fn io_field_offsets_put_inputs_before_outputs() {
    let offsets = MemoryLayout::compute_io_field_offsets(2, 1);
    assert_eq!(offsets.len(), 3);
    assert_eq!(offsets[&0], 0);
    assert_eq!(offsets[&1], 4);
    assert_eq!(offsets[&2], 8);
}

fn shape(name: &str, inputs: usize, outputs: usize) -> NodeShape {
    NodeShape { debug_repr: name.as_bytes().to_vec(), num_inputs: inputs, num_outputs: outputs }
}

#[test]
fn layout_places_nodes_in_order() {
    let topology = vec![7u64, 3, 9];
    let shapes = vec![shape("Oscillator", 2, 1), shape("Gain", 2, 1), shape("TptFilter", 3, 1)];
    let layout = MemoryLayout::compute(&topology, &shapes);
    let osc = &layout.node_offsets[&7];
    let gain = &layout.node_offsets[&3];
    let tpt = &layout.node_offsets[&9];
    assert_eq!((osc.state_offset, osc.io_offset, osc.param_offsets.clone()), (0, 0, vec![0, 4]));
    assert_eq!((gain.state_offset, gain.io_offset, gain.param_offsets.clone()), (8, 4, vec![8]));
    assert_eq!((tpt.state_offset, tpt.io_offset, tpt.param_offsets.clone()), (8, 12, vec![12, 16]));
    assert_eq!(layout.state_size, 40);
    assert_eq!(layout.io_size, 24);
    assert_eq!(layout.params_size, 20);
    assert_eq!(layout.final_output_offset, 12);
    assert_eq!(tpt.io_field_offsets[&3], 12);
}

#[test]
fn empty_layout_is_empty() {
    let layout = MemoryLayout::compute(&[], &[]);
    assert!(layout.node_offsets.is_empty());
    assert_eq!(layout.state_size, 0);
    assert_eq!(layout.final_output_offset, 0);
}
