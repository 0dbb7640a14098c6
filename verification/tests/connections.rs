use oscen::graph::connections::Connections;
use oscen::graph::graph_impl::sort_nodes;
use oscen::graph::state::GraphState;
use oscen::graph::types::EndpointType;
use oscen::graph::GraphError;

fn add(g: &mut GraphState, n_inputs: usize, n_outputs: usize) -> (u64, Vec<u64>, Vec<u64>) {
    g.add_node(&vec![EndpointType::Stream; n_inputs], &vec![EndpointType::Stream; n_outputs], false)
}

/// A slot-map key in its `as_ffi` form: version 1 in the high half, the
/// slot index in the low half.
fn k(slot: u64) -> u64 {
    (1u64 << 32) | slot
}

#[test]
fn new_connections_are_empty() {
    let c = Connections::new();
    assert!(c.sources().is_empty());
    assert!(c.targets_of(k(1)).is_empty());
}

#[test]
fn connect_appends_targets_in_order() {
    let mut c = Connections::new();
    c.connect(k(1), k(10));
    c.connect(k(1), k(11));
    c.connect(k(2), k(10));
    let mut sources = c.sources();
    sources.sort();
    assert_eq!(sources, vec![k(1), k(2)]);
    assert_eq!(c.targets_of(k(1)), vec![k(10), k(11)]);
    assert_eq!(c.targets_of(k(2)), vec![k(10)]);
    assert!(c.targets_of(k(3)).is_empty());
}

#[test]
fn disconnect_reports_whether_a_connection_existed() {
    let mut c = Connections::new();
    assert!(!c.disconnect(k(1), k(10)));
    c.connect(k(1), k(10));
    assert!(c.disconnect(k(1), k(10)));
    assert!(!c.disconnect(k(1), k(10)));
    assert!(c.targets_of(k(1)).is_empty());
    assert!(c.sources().is_empty());
}

#[test]
fn disconnect_keeps_other_targets_and_sources() {
    let mut c = Connections::new();
    c.connect(k(1), k(10));
    c.connect(k(1), k(11));
    c.connect(k(1), k(10));
    c.connect(k(2), k(10));
    assert!(c.disconnect(k(1), k(10)));
    assert_eq!(c.targets_of(k(1)), vec![k(11)]);
    assert_eq!(c.targets_of(k(2)), vec![k(10)]);
}

#[test]
fn connect_then_disconnect_restores_targets() {
    let mut c = Connections::new();
    c.connect(k(5), k(7));
    let before = c.targets_of(k(5));
    c.connect(k(5), k(8));
    assert!(c.disconnect(k(5), k(8)));
    assert_eq!(c.targets_of(k(5)), before);
}

#[test]
fn disconnect_all_from_clears_one_source() {
    let mut c = Connections::new();
    c.connect(k(1), k(10));
    c.connect(k(1), k(11));
    c.connect(k(2), k(12));
    assert!(c.disconnect_all_from(k(1)));
    assert!(!c.disconnect_all_from(k(1)));
    assert!(c.targets_of(k(1)).is_empty());
    assert_eq!(c.targets_of(k(2)), vec![k(12)]);
}

#[test]
fn remove_incoming_edges_drops_target_everywhere() {
    let mut c = Connections::new();
    c.connect(k(1), k(10));
    c.connect(k(1), k(11));
    c.connect(k(2), k(10));
    c.connect(k(3), k(12));
    c.remove_incoming_edges(k(10));
    assert_eq!(c.targets_of(k(1)), vec![k(11)]);
    assert!(c.targets_of(k(2)).is_empty());
    assert_eq!(c.targets_of(k(3)), vec![k(12)]);
    let mut sources = c.sources();
    sources.sort();
    assert_eq!(sources, vec![k(1), k(3)]);
}

#[test]
fn sort_nodes_orders_chain_added_out_of_order() {
    // 300 feeds 100, 100 feeds 200.
    let nodes = vec![100, 200, 300];
    let adj = vec![vec![200], vec![], vec![100]];
    let order = sort_nodes(nodes, &adj, &vec![false, false, false]).unwrap();
    assert_eq!(order, vec![300, 100, 200]);
}

#[test]
fn sort_nodes_rejects_cycle_without_feedback_node() {
    let nodes = vec![100, 200];
    let adj = vec![vec![200], vec![100]];
    match sort_nodes(nodes, &adj, &vec![false, false]) {
        Err(GraphError::CycleDetected(path)) => {
            assert_eq!(path.len(), 1);
            assert!(path[0] == 100 || path[0] == 200);
        }
        Ok(order) => panic!("expected a cycle error, got {:?}", order),
    }
}

#[test]
fn sort_nodes_accepts_cycle_through_feedback_node() {
    // 100 -> 200 -> 100, where 200 is a delay that allows feedback.
    let nodes = vec![100, 200];
    let adj = vec![vec![200], vec![100]];
    let order = sort_nodes(nodes, &adj, &vec![false, true]).unwrap();
    assert_eq!(order.len(), 2);
    assert!(order.contains(&100) && order.contains(&200));
}

#[test]
fn connections_between_nodes_give_processing_order() {
    // Added as c, b, a; a feeds b, b feeds c; an output driving two inputs
    // of the same node counts once.
    let mut g = GraphState::new();
    let (c, c_in, _) = add(&mut g, 1, 1);
    let (b, b_in, b_out) = add(&mut g, 2, 1);
    let (a, _, a_out) = add(&mut g, 0, 1);
    g.connect(a_out[0], b_in[0]);
    g.connect(a_out[0], b_in[1]);
    g.connect(b_out[0], c_in[0]);
    assert!(g.validate().is_ok());
    assert_eq!(g.get_node_order(), vec![a, b, c]);
}

#[test]
fn connections_into_no_slot_do_not_order_nodes() {
    let mut g = GraphState::new();
    let (b, _, b_out) = add(&mut g, 1, 1);
    let (a, a_in, _) = add(&mut g, 1, 1);
    g.connect(b_out[0], k(4000));
    g.connect(k(4001), a_in[0]);
    assert!(g.validate().is_ok());
    assert_eq!(g.get_node_order().len(), 2);
    assert!(g.get_node_order().contains(&a) && g.get_node_order().contains(&b));
}
