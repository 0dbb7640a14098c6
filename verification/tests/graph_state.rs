use oscen::graph::ramps::{RampTable, RampUpdate};
use oscen::graph::state::GraphState;
use oscen::graph::types::EndpointType;
use oscen::graph::{GraphError, NodeKey, OutputEndpoint, ValueKey};

fn bits(x: f32) -> u32 {
    x.to_bits()
}

/// A slot-map key in its `as_ffi` form.
fn k(slot: u64) -> u64 {
    (1u64 << 32) | slot
}

#[test]
fn ramp_table_starts_and_cancels() {
    let mut t = RampTable::new();
    assert!(!t.is_ramping(k(3)));
    t.start(k(3), bits(0.25), 4, bits(1.0));
    t.start(k(5), bits(0.5), 2, bits(2.0));
    assert!(t.is_ramping(k(3)) && t.is_ramping(k(5)));
    t.cancel(k(3));
    assert!(!t.is_ramping(k(3)));
    assert!(t.is_ramping(k(5)));
    t.cancel(k(3));
    assert!(t.is_ramping(k(5)));
}

#[test]
fn ramp_ends_on_its_last_sample() {
    let mut t = RampTable::new();
    t.start(k(7), bits(0.1), 3, bits(9.0));
    let first = t.advance();
    assert_eq!(first, vec![RampUpdate { key: k(7), step: bits(0.1), finish: None }]);
    let second = t.advance();
    assert_eq!(second, vec![RampUpdate { key: k(7), step: bits(0.1), finish: None }]);
    let third = t.advance();
    assert_eq!(third, vec![RampUpdate { key: k(7), step: bits(0.1), finish: Some(bits(9.0)) }]);
    assert!(!t.is_ramping(k(7)));
    assert!(t.advance().is_empty());
}

#[test]
fn advance_gives_one_update_per_ramp() {
    let mut t = RampTable::new();
    t.start(k(1), 10, 1, 100);
    t.start(k(2), 20, 5, 200);
    t.start(k(3), 30, 1, 300);
    t.start(k(4), 40, 2, 400);
    let mut ups = t.advance();
    ups.sort_by_key(|u| u.key);
    assert_eq!(
        ups,
        vec![
            RampUpdate { key: k(1), step: 10, finish: Some(100) },
            RampUpdate { key: k(2), step: 20, finish: None },
            RampUpdate { key: k(3), step: 30, finish: Some(300) },
            RampUpdate { key: k(4), step: 40, finish: None },
        ]
    );
    assert!(!t.is_ramping(k(1)) && t.is_ramping(k(2)) && !t.is_ramping(k(3)) && t.is_ramping(k(4)));
    let mut ups = t.advance();
    ups.sort_by_key(|u| u.key);
    assert_eq!(
        ups,
        vec![
            RampUpdate { key: k(2), step: 20, finish: None },
            RampUpdate { key: k(4), step: 40, finish: Some(400) },
        ]
    );
}

#[test]
fn restarting_a_ramp_replaces_it() {
    let mut t = RampTable::new();
    t.start(k(1), 10, 1, 100);
    t.start(k(1), 11, 3, 111);
    assert_eq!(t.advance(), vec![RampUpdate { key: k(1), step: 11, finish: None }]);
}

/// A node with its input and output slots.
struct Added {
    node: NodeKey,
    inputs: Vec<ValueKey>,
    outputs: Vec<ValueKey>,
}

fn add_kinds(
    g: &mut GraphState,
    inputs: &[EndpointType],
    outputs: &[EndpointType],
    allows_feedback: bool,
) -> Added {
    let (node, inputs, outputs) = g.add_node(&inputs.to_vec(), &outputs.to_vec(), allows_feedback);
    Added { node, inputs, outputs }
}

/// A node whose inputs are value inputs and whose outputs are streams.
fn add(g: &mut GraphState, n_inputs: usize, n_outputs: usize, allows_feedback: bool) -> Added {
    add_kinds(
        g,
        &vec![EndpointType::Value; n_inputs],
        &vec![EndpointType::Stream; n_outputs],
        allows_feedback,
    )
}

#[test]
fn add_node_creates_zeroed_slots() {
    let mut g = GraphState::new();
    let a = add(&mut g, 1, 1, false);
    let b = add(&mut g, 2, 1, false);
    assert_eq!(g.node_count(), 2);
    assert_eq!(g.value_count(), 5);
    assert_eq!(g.value_of(a.inputs[0]), Some(0));
    assert_eq!(g.value_of(b.outputs[0]), Some(0));
    assert_eq!(g.value_of(k(4000)), None);
    assert_eq!(g.get_input(a.node, 0), Some(a.inputs[0]));
    assert_eq!(g.get_input(a.node, 1), None);
    assert_eq!(g.get_input(b.node, 1), Some(b.inputs[1]));
    assert_eq!(g.get_node_output(b.node, 0), Some(b.outputs[0]));
    assert_eq!(g.get_node_output(k(4000), 0), None);
    assert_eq!(g.get_value(&OutputEndpoint::new(a.outputs[0])), Some(0));
    let mut all = vec![a.inputs[0], a.outputs[0], b.inputs[0], b.inputs[1], b.outputs[0]];
    all.sort();
    all.dedup();
    assert_eq!(all.len(), 5);
    assert_ne!(a.node, b.node);
}

#[test]
fn validate_orders_nodes_after_their_sources() {
    let mut g = GraphState::new();
    let second = add(&mut g, 1, 1, false);
    let first = add(&mut g, 1, 1, false);
    g.connect(first.outputs[0], second.inputs[0]);
    assert!(g.validate().is_ok());
    assert_eq!(g.get_node_order(), vec![first.node, second.node]);
}

#[test]
fn validate_rejects_cycle_without_feedback_node() {
    let mut g = GraphState::new();
    let a = add(&mut g, 1, 1, false);
    let b = add(&mut g, 1, 1, false);
    g.connect(a.outputs[0], b.inputs[0]);
    g.connect(b.outputs[0], a.inputs[0]);
    match g.validate() {
        Err(GraphError::CycleDetected(path)) => {
            assert_eq!(path.len(), 1);
            assert!(path[0] == a.node || path[0] == b.node);
        }
        Ok(()) => panic!("expected a cycle error"),
    }
    assert!(g.start_frame().is_err());
}

#[test]
fn validate_accepts_cycle_through_feedback_node() {
    let mut g = GraphState::new();
    let a = add(&mut g, 1, 1, false);
    let b = add(&mut g, 1, 1, true);
    g.connect(a.outputs[0], b.inputs[0]);
    g.connect(b.outputs[0], a.inputs[0]);
    assert!(g.validate().is_ok());
    let order = g.get_node_order();
    assert_eq!(order.len(), 2);
}

#[test]
fn route_output_reaches_connected_inputs() {
    let mut g = GraphState::new();
    let a = add(&mut g, 1, 1, false);
    let b = add(&mut g, 1, 1, false);
    g.connect(a.outputs[0], b.inputs[0]);
    g.route_output(a.node, &vec![Some(bits(0.5))]);
    assert_eq!(g.value_of(a.outputs[0]), Some(bits(0.5)));
    assert_eq!(g.value_of(b.inputs[0]), Some(bits(0.5)));
    assert_eq!(g.value_of(a.inputs[0]), Some(0));
    assert_eq!(g.node_input_values(b.node), Some(vec![bits(0.5)]));
    assert_eq!(g.node_input_values(k(4000)), None);
}

#[test]
fn set_value_only_changes_value_inputs() {
    let mut g = GraphState::new();
    let f = add_kinds(&mut g, &[EndpointType::Stream, EndpointType::Value], &[EndpointType::Stream], false);
    let (stream, value) = (f.inputs[0], f.inputs[1]);
    g.set_value(value, bits(3.0));
    assert_eq!(g.value_of(value), Some(bits(3.0)));
    g.set_value(stream, bits(3.0));
    assert_eq!(g.value_of(stream), Some(0));
    assert_eq!(g.insert_value_input(value, bits(1.0)), Some(value));
    assert_eq!(g.value_of(value), Some(bits(1.0)));
    assert_eq!(g.insert_value_input(stream, bits(1.0)), None);
    assert_eq!(g.value_of(stream), Some(0));
    assert_eq!(g.endpoint_type(stream), Some(EndpointType::Stream));
    assert_eq!(g.insert_value_input(k(4000), bits(1.0)), None);
}

#[test]
fn test_audio_endpoints_are_streams() {
    let mut g = GraphState::new();
    // An oscillator with one stream output; a filter with a stream input,
    // value inputs for cutoff and resonance, and a stream output.
    let osc = add_kinds(&mut g, &[EndpointType::Value, EndpointType::Value], &[EndpointType::Stream], false);
    let filter = add_kinds(
        &mut g,
        &[EndpointType::Stream, EndpointType::Value, EndpointType::Value],
        &[EndpointType::Stream],
        false,
    );
    let (osc_output, filter_input, filter_cutoff) = (osc.outputs[0], filter.inputs[0], filter.inputs[1]);
    assert_eq!(g.endpoint_type(osc_output), Some(EndpointType::Stream));
    assert_eq!(g.endpoint_type(filter_input), Some(EndpointType::Stream));
    assert_eq!(g.endpoint_type(filter_cutoff), Some(EndpointType::Value));
    assert!(g.insert_value_input(filter_cutoff, bits(2000.0)).is_some());
    assert!(g.insert_value_input(filter_input, bits(0.0)).is_none());
    assert_eq!(g.endpoint_type(filter_input), Some(EndpointType::Stream));
    assert_eq!(g.value_of(filter_input), Some(0));
}

#[test]
fn event_inputs_read_as_zero() {
    let mut g = GraphState::new();
    let src = add(&mut g, 0, 1, false);
    let n = add_kinds(&mut g, &[EndpointType::Event, EndpointType::Stream], &[EndpointType::Stream], false);
    g.connect(src.outputs[0], n.inputs[0]);
    g.connect(src.outputs[0], n.inputs[1]);
    g.route_output(src.node, &vec![Some(bits(0.25))]);
    assert_eq!(g.node_input_values(n.node), Some(vec![0, bits(0.25)]));
    assert_eq!(g.endpoint_type(n.inputs[0]), Some(EndpointType::Event));
}

#[test]
fn route_output_routes_every_stream_output_in_order() {
    let mut g = GraphState::new();
    let n = add_kinds(
        &mut g,
        &[],
        &[EndpointType::Stream, EndpointType::Event, EndpointType::Stream, EndpointType::Stream],
        false,
    );
    let m = add(&mut g, 3, 0, false);
    g.connect(n.outputs[0], m.inputs[0]);
    g.connect(n.outputs[2], m.inputs[1]);
    g.connect(n.outputs[3], m.inputs[2]);
    // The third stream output has no result this frame.
    g.route_output(n.node, &vec![Some(bits(1.0)), Some(bits(2.0)), None]);
    assert_eq!(g.value_of(n.outputs[0]), Some(bits(1.0)));
    assert_eq!(g.value_of(n.outputs[1]), Some(0));
    assert_eq!(g.value_of(n.outputs[2]), Some(bits(2.0)));
    assert_eq!(g.value_of(n.outputs[3]), Some(0));
    assert_eq!(g.node_input_values(m.node), Some(vec![bits(1.0), bits(2.0), 0]));
    // Fewer results than stream outputs: the rest are left alone.
    g.route_output(n.node, &vec![Some(bits(3.0))]);
    assert_eq!(g.value_of(n.outputs[0]), Some(bits(3.0)));
    assert_eq!(g.value_of(n.outputs[2]), Some(bits(2.0)));
}

#[test]
fn ramped_value_lands_on_target() {
    let mut g = GraphState::new();
    let a = add(&mut g, 1, 1, false);
    let input = a.inputs[0];
    g.insert_value_input(input, bits(0.0));
    g.set_value_with_ramp(input, bits(1.0), bits(0.5), 2);
    for frame in 0..2 {
        let updates = g.start_frame().unwrap();
        assert_eq!(updates.len(), 1);
        for u in updates {
            let current = f32::from_bits(g.value_of(u.key).unwrap());
            let stepped = (current + f32::from_bits(u.step)).to_bits();
            g.apply_ramp(u, stepped);
        }
        if frame == 0 {
            assert_eq!(g.value_of(input), Some(bits(0.5)));
        }
    }
    assert_eq!(g.value_of(input), Some(bits(1.0)));
    assert!(g.start_frame().unwrap().is_empty());
}

#[test]
fn set_value_cancels_a_ramp() {
    let mut g = GraphState::new();
    let a = add(&mut g, 1, 1, false);
    let input = a.inputs[0];
    g.insert_value_input(input, bits(0.0));
    g.set_value_with_ramp(input, bits(1.0), bits(0.25), 4);
    g.set_value(input, bits(0.75));
    assert!(g.start_frame().unwrap().is_empty());
    assert_eq!(g.value_of(input), Some(bits(0.75)));
}

#[test]
fn zero_sample_ramp_sets_at_once() {
    let mut g = GraphState::new();
    let a = add(&mut g, 1, 1, false);
    let input = a.inputs[0];
    g.insert_value_input(input, bits(0.0));
    g.set_value_with_ramp(input, bits(2.0), bits(0.0), 0);
    assert_eq!(g.value_of(input), Some(bits(2.0)));
    assert!(g.start_frame().unwrap().is_empty());
}

#[test]
fn disconnect_removes_connection() {
    let mut g = GraphState::new();
    let a = add(&mut g, 1, 1, false);
    let b = add(&mut g, 1, 1, false);
    let (from, to) = (a.outputs[0], b.inputs[0]);
    assert!(!g.disconnect(from, to));
    g.connect(from, to);
    assert!(g.disconnect(from, to));
    assert!(!g.disconnect(from, to));
    assert!(g.targets_of(from).is_empty());
    assert!(g.validate().is_ok());
}

#[test]
fn disconnect_all_from_clears_an_output() {
    let mut g = GraphState::new();
    let a = add(&mut g, 1, 1, false);
    let b = add(&mut g, 1, 1, false);
    g.connect(a.outputs[0], b.inputs[0]);
    g.connect(a.outputs[0], a.inputs[0]);
    assert!(g.disconnect_all_from(a.outputs[0]));
    assert!(!g.disconnect_all_from(a.outputs[0]));
    assert!(g.targets_of(a.outputs[0]).is_empty());
}

#[test]
fn connect_allowed_checks_key_form_and_capacity() {
    let mut g = GraphState::new();
    let a = add(&mut g, 1, 1, false);
    let b = add(&mut g, 1, 1, false);
    assert!(g.connect_allowed(a.outputs[0], b.inputs[0]));
    // Version 0 is never the version of a live key.
    assert!(!g.connect_allowed(a.outputs[0] & 0xFFFF_FFFF, b.inputs[0]));
    assert!(!g.connect_allowed(a.outputs[0], b.inputs[0] & 0xFFFF_FFFF));
}

#[test]
fn remove_node_clears_connections() {
    let mut g = GraphState::new();
    let n1 = add(&mut g, 1, 1, false);
    let n2 = add(&mut g, 2, 1, false);
    let n3 = add(&mut g, 1, 1, false);
    g.connect(n1.outputs[0], n2.inputs[0]);
    g.connect(n1.outputs[0], n2.inputs[1]);
    g.connect(n2.outputs[0], n3.inputs[0]);
    g.connect(n1.outputs[0], n3.inputs[0]);
    assert!(g.validate().is_ok());
    assert!(g.remove_node(n2.node));
    assert!(!g.remove_node(n2.node));
    assert_eq!(g.targets_of(n1.outputs[0]), vec![n3.inputs[0]]);
    assert!(g.targets_of(n2.outputs[0]).is_empty());
    assert_eq!(g.value_of(n2.inputs[0]), None);
    assert_eq!(g.value_of(n2.outputs[0]), None);
    assert_eq!(g.value_of(n3.inputs[0]), Some(0));
    assert_eq!(g.get_input(n2.node, 0), None);
    assert_eq!(g.get_node_order(), vec![n1.node, n3.node]);
    assert!(!g.disconnect(n1.outputs[0], n2.inputs[0]));
    assert!(g.validate().is_ok());
    assert_eq!(g.get_node_order(), vec![n1.node, n3.node]);
    assert_eq!(g.node_count(), 2);
    assert_eq!(g.value_count(), 4);
}

#[test]
fn remove_node_ends_ramps_of_its_slots() {
    let mut g = GraphState::new();
    let _a = add(&mut g, 1, 1, false);
    let b = add(&mut g, 1, 1, false);
    g.insert_value_input(b.inputs[0], bits(0.0));
    g.set_value_with_ramp(b.inputs[0], bits(1.0), bits(0.5), 2);
    assert!(g.remove_node(b.node));
    assert!(g.start_frame().unwrap().is_empty());
}

#[test]
fn removed_slot_keys_are_not_reused_as_live_keys() {
    let mut g = GraphState::new();
    let a = add(&mut g, 1, 1, false);
    assert!(g.remove_node(a.node));
    let b = add(&mut g, 1, 1, false);
    assert_eq!(g.value_of(a.inputs[0]), None);
    assert_ne!(a.inputs[0], b.inputs[0]);
    assert_ne!(a.node, b.node);
}

#[test]
fn queue_event_accepts_only_event_inputs() {
    let mut g = GraphState::new();
    let n = add_kinds(&mut g, &[EndpointType::Event, EndpointType::Value], &[EndpointType::Event], false);
    assert!(g.queue_event(n.inputs[0], 7));
    assert!(g.queue_event(n.inputs[0], 8));
    assert!(!g.queue_event(n.inputs[1], 9));
    assert!(!g.queue_event(k(4000), 9));
    assert_eq!(g.events_at(n.inputs[0]), vec![7, 8]);
    assert!(g.events_at(n.inputs[1]).is_empty());
}

#[test]
fn a_full_event_queue_refuses_more() {
    let mut g = GraphState::new();
    let n = add_kinds(&mut g, &[EndpointType::Event], &[], false);
    for e in 0..256u64 {
        assert!(g.queue_event(n.inputs[0], e));
    }
    assert!(!g.queue_event(n.inputs[0], 256));
    assert_eq!(g.events_at(n.inputs[0]).len(), 256);
    assert_eq!(g.drain_events(n.inputs[0]).len(), 256);
    assert!(g.queue_event(n.inputs[0], 1));
}

#[test]
fn drain_events_hands_out_once() {
    let mut g = GraphState::new();
    let n = add_kinds(&mut g, &[], &[EndpointType::Event, EndpointType::Stream], false);
    g.route_events(n.node, &vec![(0, 3), (0, 4)]);
    assert_eq!(g.drain_events(n.outputs[0]), vec![3, 4]);
    assert!(g.drain_events(n.outputs[0]).is_empty());
    assert!(g.drain_events(n.outputs[1]).is_empty());
}

#[test]
fn route_events_reaches_connected_event_inputs_and_clears_own_inputs() {
    let mut g = GraphState::new();
    let src = add_kinds(&mut g, &[EndpointType::Event], &[EndpointType::Stream, EndpointType::Event], false);
    let dst = add_kinds(&mut g, &[EndpointType::Event, EndpointType::Stream], &[], false);
    g.connect(src.outputs[1], dst.inputs[0]);
    g.connect(src.outputs[1], dst.inputs[1]);
    assert!(g.queue_event(src.inputs[0], 1));
    // Output 0 is a stream output, so event 6 goes nowhere.
    g.route_events(src.node, &vec![(1, 5), (0, 6), (1, 7)]);
    assert_eq!(g.events_at(src.outputs[1]), vec![5, 7]);
    assert_eq!(g.events_at(dst.inputs[0]), vec![5, 7]);
    assert!(g.events_at(dst.inputs[1]).is_empty());
    assert!(g.events_at(src.inputs[0]).is_empty());
    g.route_events(dst.node, &vec![]);
    assert!(g.events_at(dst.inputs[0]).is_empty());
}

#[test]
fn removing_a_node_drops_its_queues() {
    let mut g = GraphState::new();
    let n = add_kinds(&mut g, &[EndpointType::Event], &[], false);
    assert!(g.queue_event(n.inputs[0], 1));
    assert!(g.remove_node(n.node));
    assert!(g.events_at(n.inputs[0]).is_empty());
    assert!(!g.queue_event(n.inputs[0], 2));
}

/// One processing pass at the level of the graph state: each node, in
/// processing order, reads how many events wait on its first event input,
/// then hands over the events it emits.
fn process_events(g: &mut GraphState, emits: &[(NodeKey, Vec<(usize, u64)>)], sink: Option<(NodeKey, ValueKey)>) -> usize {
    assert!(g.validate().is_ok());
    let mut seen = 0;
    for node in g.get_node_order() {
        if let Some((s, input)) = sink {
            if s == node {
                seen = g.events_at(input).len();
            }
        }
        let pending = emits
            .iter()
            .find(|(n, _)| *n == node)
            .map(|(_, p)| p.clone())
            .unwrap_or_default();
        g.route_events(node, &pending);
    }
    seen
}

#[test]
fn test_event_emission_and_drain() {
    let mut g = GraphState::new();
    let emitter = add_kinds(&mut g, &[], &[EndpointType::Event], false);
    let sink = add_kinds(&mut g, &[EndpointType::Event], &[], false);
    g.connect(emitter.outputs[0], sink.inputs[0]);

    let payload_id = 1;
    let seen = process_events(
        &mut g,
        &[(emitter.node, vec![(0, payload_id)])],
        Some((sink.node, sink.inputs[0])),
    );

    let drained = g.drain_events(emitter.outputs[0]);
    assert_eq!(drained.len(), 1);
    assert_eq!(drained[0], payload_id);
    assert_eq!(seen, 1);

    assert!(g.drain_events(emitter.outputs[0]).is_empty());
}

#[test]
fn test_queue_event_host_to_node() {
    let mut g = GraphState::new();
    let sink = add_kinds(&mut g, &[EndpointType::Event], &[], false);

    let queued = g.queue_event(sink.inputs[0], 1);
    assert!(queued);

    let seen = process_events(&mut g, &[], Some((sink.node, sink.inputs[0])));
    assert_eq!(seen, 1);

    let seen = process_events(&mut g, &[], Some((sink.node, sink.inputs[0])));
    assert_eq!(seen, 0);
}
