//! Intermediate representation of a graph: nodes, connections and the
//! checks that tie them to a processing order.
use crate::graph::types::EndpointType;
use vstd::prelude::*;

verus! {

/// Node information of the representation.
#[derive(Debug, Clone)]
pub struct NodeIR {
    /// Index into the node list.
    pub index: usize,
    /// Key of the node (its `as_ffi` form).
    pub key_data: u64,
    /// Number of stream, value and event inputs.
    pub num_stream_inputs: usize,
    pub num_value_inputs: usize,
    pub num_event_inputs: usize,
    /// Input endpoint keys.
    pub stream_inputs: Vec<u64>,
    pub value_inputs: Vec<u64>,
    pub event_inputs: Vec<u64>,
    /// Output endpoint keys.
    pub stream_outputs: Vec<u64>,
    pub value_outputs: Vec<u64>,
    pub event_outputs: Vec<u64>,
}

/// Connection between two nodes.
#[derive(Debug, Clone, Copy)]
pub struct ConnectionIR {
    /// Source node index.
    pub src_node: usize,
    /// Which output of the source node.
    pub src_output: usize,
    /// Destination node index.
    pub dst_node: usize,
    /// Which input of the destination node.
    pub dst_input: usize,
    /// Kind of connection.
    pub connection_type: EndpointType,
}

/// Why a representation is inconsistent.
#[derive(Debug, Clone, Copy, PartialEq, Eq, Structural)]
pub enum IrError {
    /// The processing order does not have one entry per node.
    TopologyLengthMismatch,
    /// The processing order names a node index out of range.
    InvalidTopologyIndex(usize),
    /// A connection's source node index is out of range.
    InvalidSourceNode(usize),
    /// A connection's destination node index is out of range.
    InvalidDestinationNode(usize),
}

/// The first entry of `order` that is not below `n`.
pub open spec fn first_out_of_range(order: Seq<usize>, n: nat) -> Option<usize>
    decreases order.len(),
{
    if order.len() == 0 {
        None
    } else if order[0] >= n {
        Some(order[0])
    } else {
        first_out_of_range(order.drop_first(), n)
    }
}

/// The error for the first connection with an endpoint outside `0..n`
/// (the source is checked before the destination).
pub open spec fn first_bad_connection(conns: Seq<ConnectionIR>, n: nat) -> Option<IrError>
    decreases conns.len(),
{
    if conns.len() == 0 {
        None
    } else if conns[0].src_node >= n {
        Some(IrError::InvalidSourceNode(conns[0].src_node))
    } else if conns[0].dst_node >= n {
        Some(IrError::InvalidDestinationNode(conns[0].dst_node))
    } else {
        first_bad_connection(conns.drop_first(), n)
    }
}

/// Outcome of checking a representation with `n` nodes.
pub open spec fn validate_spec(n: nat, conns: Seq<ConnectionIR>, order: Seq<usize>) -> Result<
    (),
    IrError,
> {
    if order.len() != n {
        Err(IrError::TopologyLengthMismatch)
    } else if first_out_of_range(order, n) is Some {
        Err(IrError::InvalidTopologyIndex(first_out_of_range(order, n)->Some_0))
    } else if first_bad_connection(conns, n) is Some {
        Err(first_bad_connection(conns, n)->Some_0)
    } else {
        Ok(())
    }
}

proof fn lemma_first_out_of_range_none(order: Seq<usize>, n: nat)
    ensures
        first_out_of_range(order, n) is None <==> forall|i: int| 0 <= i < order.len() ==> order[i] < n,
    decreases order.len(),
{
    if order.len() > 0 {
        lemma_first_out_of_range_none(order.drop_first(), n);
        if forall|i: int| 0 <= i < order.len() ==> order[i] < n {
            assert forall|i: int| 0 <= i < order.drop_first().len() implies order.drop_first()[i] < n by {
                assert(order.drop_first()[i] == order[i + 1]);
            }
        }
        if first_out_of_range(order, n) is None {
            assert forall|i: int| 0 <= i < order.len() implies order[i] < n by {
                if i > 0 {
                    assert(order[i] == order.drop_first()[i - 1]);
                }
            }
        }
    }
}

/// Checks that the processing order has one entry per node, that every
/// entry of it and every connection endpoint names an existing node; fails
/// with the first violation found.
pub fn validate_ir(
    nodes: &Vec<NodeIR>,
    connections: &Vec<ConnectionIR>,
    topology_order: &Vec<usize>,
) -> (r: Result<(), IrError>)
    ensures
        r == validate_spec(nodes@.len(), connections@, topology_order@),
        r is Ok <==> (topology_order@.len() == nodes@.len() && (forall|i: int|
            0 <= i < topology_order@.len() ==> topology_order@[i] < nodes@.len()) && (forall|i: int|
            0 <= i < connections@.len() ==> connections@[i].src_node < nodes@.len()
                && connections@[i].dst_node < nodes@.len())),
{
    let n = nodes.len();
    proof {
        lemma_first_out_of_range_none(topology_order@, n as nat);
        lemma_first_bad_connection_none(connections@, n as nat);
    }
    if topology_order.len() != n {
        return Err(IrError::TopologyLengthMismatch);
    }
    let mut i: usize = 0;
    assert(topology_order@.skip(0) =~= topology_order@);
    while i < topology_order.len()
        invariant
            0 <= i <= topology_order@.len(),
            n == nodes@.len(),
            topology_order@.len() == n,
            first_out_of_range(topology_order@, n as nat) == first_out_of_range(
                topology_order@.skip(i as int),
                n as nat,
            ),
        decreases topology_order@.len() - i,
    {
        assert(topology_order@.skip(i as int).drop_first() =~= topology_order@.skip(i + 1));
        let idx = topology_order[i];
        assert(topology_order@.skip(i as int)[0] == idx);
        if idx >= n {
            return Err(IrError::InvalidTopologyIndex(idx));
        }
        i += 1;
    }
    assert(topology_order@.skip(i as int).len() == 0);
    let mut c: usize = 0;
    assert(connections@.skip(0) =~= connections@);
    while c < connections.len()
        invariant
            0 <= c <= connections@.len(),
            n == nodes@.len(),
            topology_order@.len() == n,
            first_out_of_range(topology_order@, n as nat) is None,
            first_bad_connection(connections@, n as nat) == first_bad_connection(
                connections@.skip(c as int),
                n as nat,
            ),
        decreases connections@.len() - c,
    {
        assert(connections@.skip(c as int).drop_first() =~= connections@.skip(c + 1));
        let conn = &connections[c];
        assert(connections@.skip(c as int)[0] == *conn);
        if conn.src_node >= n {
            return Err(IrError::InvalidSourceNode(conn.src_node));
        }
        if conn.dst_node >= n {
            return Err(IrError::InvalidDestinationNode(conn.dst_node));
        }
        c += 1;
    }
    assert(connections@.skip(c as int).len() == 0);
    Ok(())
}

proof fn lemma_first_bad_connection_none(conns: Seq<ConnectionIR>, n: nat)
    ensures
        first_bad_connection(conns, n) is None <==> forall|i: int|
            0 <= i < conns.len() ==> conns[i].src_node < n && conns[i].dst_node < n,
    decreases conns.len(),
{
    if conns.len() > 0 {
        lemma_first_bad_connection_none(conns.drop_first(), n);
        if forall|i: int| 0 <= i < conns.len() ==> conns[i].src_node < n && conns[i].dst_node < n {
            assert forall|i: int| 0 <= i < conns.drop_first().len() implies conns.drop_first()[i].src_node
                < n && conns.drop_first()[i].dst_node < n by {
                assert(conns.drop_first()[i] == conns[i + 1]);
            }
        }
        if first_bad_connection(conns, n) is None {
            assert forall|i: int| 0 <= i < conns.len() implies conns[i].src_node < n
                && conns[i].dst_node < n by {
                if i > 0 {
                    assert(conns[i] == conns.drop_first()[i - 1]);
                }
            }
        }
    }
}

/// The connections whose source is node `node_idx`, in order.
pub fn connections_from(connections: &Vec<ConnectionIR>, node_idx: usize) -> (r: Vec<ConnectionIR>)
    ensures
        r@ == connections@.filter(|c: ConnectionIR| c.src_node == node_idx),
{
    let mut r: Vec<ConnectionIR> = Vec::new();
    let mut i: usize = 0;
    while i < connections.len()
        invariant
            0 <= i <= connections@.len(),
            r@ == connections@.subrange(0, i as int).filter(|c: ConnectionIR| c.src_node == node_idx),
        decreases connections@.len() - i,
    {
        let c = connections[i];
        proof {
            lemma_filter_extend(connections@, i as int, |c: ConnectionIR| c.src_node == node_idx);
        }
        if c.src_node == node_idx {
            r.push(c);
        }
        i += 1;
    }
    assert(connections@.subrange(0, connections@.len() as int) =~= connections@);
    r
}

/// The connections whose destination is node `node_idx`, in order.
pub fn connections_to(connections: &Vec<ConnectionIR>, node_idx: usize) -> (r: Vec<ConnectionIR>)
    ensures
        r@ == connections@.filter(|c: ConnectionIR| c.dst_node == node_idx),
{
    let mut r: Vec<ConnectionIR> = Vec::new();
    let mut i: usize = 0;
    while i < connections.len()
        invariant
            0 <= i <= connections@.len(),
            r@ == connections@.subrange(0, i as int).filter(|c: ConnectionIR| c.dst_node == node_idx),
        decreases connections@.len() - i,
    {
        let c = connections[i];
        proof {
            lemma_filter_extend(connections@, i as int, |c: ConnectionIR| c.dst_node == node_idx);
        }
        if c.dst_node == node_idx {
            r.push(c);
        }
        i += 1;
    }
    assert(connections@.subrange(0, connections@.len() as int) =~= connections@);
    r
}

pub(crate) proof fn lemma_filter_extend<A>(s: Seq<A>, i: int, p: spec_fn(A) -> bool)
    requires
        0 <= i < s.len(),
    ensures
        s.subrange(0, i + 1).filter(p) == if p(s[i]) {
            s.subrange(0, i).filter(p).push(s[i])
        } else {
            s.subrange(0, i).filter(p)
        },
{
    assert(s.subrange(0, i + 1).drop_last() =~= s.subrange(0, i));
    reveal(Seq::filter);
}

} // verus!
