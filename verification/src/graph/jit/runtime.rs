//! Endpoint tables for compiled graph execution: the node keys in order,
//! and every node's input and output keys in one flat list, found through
//! offset tables.
use super::ir::NodeIR;
use vstd::prelude::*;

verus! {

/// The input keys of a node as the tables list them: stream, value, then
/// event inputs.
pub open spec fn node_inputs(n: NodeIR) -> Seq<u64> {
    n.stream_inputs@ + n.value_inputs@ + n.event_inputs@
}

/// The output keys of a node as the tables list them: stream, then event
/// outputs.
pub open spec fn node_outputs(n: NodeIR) -> Seq<u64> {
    n.stream_outputs@ + n.event_outputs@
}

/// The input keys of `ns`, node after node.
pub open spec fn all_inputs(ns: Seq<NodeIR>) -> Seq<u64>
    decreases ns.len(),
{
    if ns.len() == 0 {
        Seq::empty()
    } else {
        all_inputs(ns.drop_last()) + node_inputs(ns.last())
    }
}

/// The output keys of `ns`, node after node.
pub open spec fn all_outputs(ns: Seq<NodeIR>) -> Seq<u64>
    decreases ns.len(),
{
    if ns.len() == 0 {
        Seq::empty()
    } else {
        all_outputs(ns.drop_last()) + node_outputs(ns.last())
    }
}

/// Key tables of a graph's nodes: `endpoint_keys` holds all inputs, then
/// all outputs; the inputs of node `i` sit between `input_offsets[i]` and
/// `input_offsets[i + 1]`, its outputs between `output_offsets[i]` and
/// `output_offsets[i + 1]`.
pub struct GraphStateBuilder {
    pub node_keys: Vec<u64>,
    pub endpoint_keys: Vec<u64>,
    pub input_offsets: Vec<usize>,
    pub output_offsets: Vec<usize>,
}

fn push_all(dst: &mut Vec<u64>, src: &Vec<u64>)
    ensures
        final(dst)@ == old(dst)@ + src@,
{
    let mut i: usize = 0;
    let ghost d0 = dst@;
    while i < src.len()
        invariant
            0 <= i <= src@.len(),
            dst@ == d0 + src@.subrange(0, i as int),
        decreases src@.len() - i,
    {
        dst.push(src[i]);
        i += 1;
        assert(dst@ =~= d0 + src@.subrange(0, i as int));
    }
    assert(src@.subrange(0, i as int) =~= src@);
}

proof fn lemma_take_step(ns: Seq<NodeIR>, i: int)
    requires
        0 <= i < ns.len(),
    ensures
        all_inputs(ns.take(i + 1)) == all_inputs(ns.take(i)) + node_inputs(ns[i]),
        all_outputs(ns.take(i + 1)) == all_outputs(ns.take(i)) + node_outputs(ns[i]),
{
    assert(ns.take(i + 1).drop_last() =~= ns.take(i));
    assert(ns.take(i + 1).last() == ns[i]);
}

proof fn lemma_prefix(ns: Seq<NodeIR>, i: int, j: int)
    requires
        0 <= i <= j <= ns.len(),
    ensures
        all_inputs(ns.take(i)).len() <= all_inputs(ns.take(j)).len(),
        all_inputs(ns.take(j)).subrange(0, all_inputs(ns.take(i)).len() as int) == all_inputs(
            ns.take(i),
        ),
        all_outputs(ns.take(i)).len() <= all_outputs(ns.take(j)).len(),
        all_outputs(ns.take(j)).subrange(0, all_outputs(ns.take(i)).len() as int) == all_outputs(
            ns.take(i),
        ),
    decreases j - i,
{
    if i < j {
        lemma_prefix(ns, i, j - 1);
        lemma_take_step(ns, j - 1);
        let a = all_inputs(ns.take(j - 1));
        let b = all_outputs(ns.take(j - 1));
        assert((a + node_inputs(ns[j - 1])).subrange(0, all_inputs(ns.take(i)).len() as int)
            =~= a.subrange(0, all_inputs(ns.take(i)).len() as int));
        assert((b + node_outputs(ns[j - 1])).subrange(0, all_outputs(ns.take(i)).len() as int)
            =~= b.subrange(0, all_outputs(ns.take(i)).len() as int));
    } else {
        assert(all_inputs(ns.take(i)).subrange(0, all_inputs(ns.take(i)).len() as int)
            =~= all_inputs(ns.take(i)));
        assert(all_outputs(ns.take(i)).subrange(0, all_outputs(ns.take(i)).len() as int)
            =~= all_outputs(ns.take(i)));
    }
}

impl GraphStateBuilder {
    /// Tables for `nodes`, in the order given.
    pub fn new(nodes: &Vec<NodeIR>) -> (b: Self)
        ensures
            b.node_keys@ == nodes@.map_values(|n: NodeIR| n.key_data),
            b.endpoint_keys@ == all_inputs(nodes@) + all_outputs(nodes@),
            b.input_offsets@.len() == nodes@.len() + 1,
            b.output_offsets@.len() == nodes@.len() + 1,
            forall|i: int|
                0 <= i <= nodes@.len() ==> #[trigger] b.input_offsets@[i] == all_inputs(
                    nodes@.take(i),
                ).len(),
            forall|i: int|
                0 <= i <= nodes@.len() ==> #[trigger] b.output_offsets@[i] == all_inputs(
                    nodes@,
                ).len() + all_outputs(nodes@.take(i)).len(),
    {
        let n = nodes.len();
        let mut node_keys: Vec<u64> = Vec::new();
        let mut ins: Vec<u64> = Vec::new();
        let mut outs: Vec<u64> = Vec::new();
        let mut input_offsets: Vec<usize> = Vec::new();
        let mut output_offsets: Vec<usize> = Vec::new();
        input_offsets.push(0);
        output_offsets.push(0);
        assert(nodes@.take(0) =~= Seq::<NodeIR>::empty());
        let mut i: usize = 0;
        while i < n
            invariant
                n == nodes@.len(),
                0 <= i <= n,
                node_keys@ == nodes@.take(i as int).map_values(|m: NodeIR| m.key_data),
                ins@ == all_inputs(nodes@.take(i as int)),
                outs@ == all_outputs(nodes@.take(i as int)),
                input_offsets@.len() == i + 1,
                output_offsets@.len() == i + 1,
                forall|k: int| 0 <= k <= i ==> #[trigger] input_offsets@[k] == all_inputs(nodes@.take(k)).len(),
                forall|k: int| 0 <= k <= i ==> #[trigger] output_offsets@[k] == all_outputs(nodes@.take(k)).len(),
            decreases n - i,
        {
            let node = &nodes[i];
            node_keys.push(node.key_data);
            push_all(&mut ins, &node.stream_inputs);
            push_all(&mut ins, &node.value_inputs);
            push_all(&mut ins, &node.event_inputs);
            push_all(&mut outs, &node.stream_outputs);
            push_all(&mut outs, &node.event_outputs);
            proof {
                lemma_take_step(nodes@, i as int);
                assert(ins@ =~= all_inputs(nodes@.take(i + 1)));
                assert(outs@ =~= all_outputs(nodes@.take(i + 1)));
                assert(node_keys@ =~= nodes@.take(i + 1).map_values(|m: NodeIR| m.key_data));
            }
            input_offsets.push(ins.len());
            output_offsets.push(outs.len());
            i += 1;
        }
        assert(nodes@.take(n as int) =~= nodes@);
        let mut endpoint_keys = ins;
        let start = endpoint_keys.len();
        push_all(&mut endpoint_keys, &outs);
        let total = endpoint_keys.len();
        let mut j: usize = 0;
        while j < output_offsets.len()
            invariant
                n == nodes@.len(),
                output_offsets@.len() == n + 1,
                endpoint_keys@ == all_inputs(nodes@) + all_outputs(nodes@),
                start == all_inputs(nodes@).len(),
                total == endpoint_keys@.len(),
                nodes@.take(n as int) == nodes@,
                0 <= j <= n + 1,
                forall|k: int| 0 <= k < j ==> #[trigger] output_offsets@[k] == start + all_outputs(nodes@.take(k)).len(),
                forall|k: int| j <= k <= n ==> #[trigger] output_offsets@[k] == all_outputs(nodes@.take(k)).len(),
            decreases n + 1 - j,
        {
            proof {
                lemma_prefix(nodes@, j as int, n as int);
            }
            let shifted = output_offsets[j] + start;
            output_offsets.set(j, shifted);
            j += 1;
        }
        GraphStateBuilder { node_keys, endpoint_keys, input_offsets, output_offsets }
    }
}

/// The tables find every node's own keys: the slice of `endpoint_keys`
/// between consecutive input offsets is the node's inputs, and between
/// consecutive output offsets its outputs.
pub proof fn lemma_offsets_find_node_keys(nodes: Seq<NodeIR>, i: int)
    requires
        0 <= i < nodes.len(),
    ensures
        ({
            let keys = all_inputs(nodes) + all_outputs(nodes);
            let in_lo = all_inputs(nodes.take(i)).len() as int;
            let in_hi = all_inputs(nodes.take(i + 1)).len() as int;
            let out_lo = (all_inputs(nodes).len() + all_outputs(nodes.take(i)).len()) as int;
            let out_hi = (all_inputs(nodes).len() + all_outputs(nodes.take(i + 1)).len()) as int;
            &&& 0 <= in_lo <= in_hi <= all_inputs(nodes).len() <= out_lo <= out_hi <= keys.len()
            &&& keys.subrange(in_lo, in_hi) == node_inputs(nodes[i])
            &&& keys.subrange(out_lo, out_hi) == node_outputs(nodes[i])
        }),
{
    let n = nodes.len() as int;
    lemma_prefix(nodes, i + 1, n);
    lemma_prefix(nodes, i, i + 1);
    lemma_take_step(nodes, i);
    assert(nodes.take(n) =~= nodes);
    let ins = all_inputs(nodes);
    let outs = all_outputs(nodes);
    let keys = ins + outs;
    let a = all_inputs(nodes.take(i));
    let b = all_outputs(nodes.take(i));
    let in_hi = all_inputs(nodes.take(i + 1)).len() as int;
    let out_hi = all_outputs(nodes.take(i + 1)).len() as int;
    assert(keys.subrange(a.len() as int, in_hi) =~= ins.subrange(0, in_hi).subrange(a.len() as int, in_hi));
    assert(keys.subrange((ins.len() + b.len()) as int, ins.len() + out_hi) =~= outs.subrange(0, out_hi).subrange(
        b.len() as int,
        out_hi,
    ));
}

} // verus!
