//! The state of a graph that its processing decides on: the nodes and the
//! value slots they own, the slot values, the connections between slots,
//! the value ramps and the order in which nodes are processed.
//!
//! Slot values are binary32 bit patterns. What a node computes, and the
//! arithmetic of a ramp step, happen outside; this state says which slots
//! they read and which slots receive their results.
use super::connections::{not_equal, targets_wf, Connections};
use super::graph_impl::{
    feeds, has_feed_cycle, is_feed_cycle, node_feeds, node_processing_order, on_feed_cycle,
    respects_feeds, sources_owned_by_nodes,
};
use super::jit::ir::lemma_filter_extend;
use super::ramps::{tick_all, update_of, ActiveRamp, RampTable, RampUpdate};
use super::slots::{
    fits, get_kind, get_node, get_value, insert_kind, insert_node, insert_owner,
    insert_value, is_key, key_form, kind_entries, new_kind_table, new_node_table,
    new_owner_table, new_value_table, node_count, node_entries, node_keys_of, owner_entries,
    remove_kind, remove_node_entry, remove_owner, remove_value, set_value_at, slot_index,
    value_count, value_entries, KindTable, NodeTable, OwnerTable, ValueTable, event_entries,
    get_events, new_event_table, remove_events, set_events, EventTable,
};
use super::topology::allows_feedback_in;
use super::types::EndpointType;
use super::{
    GraphError, NodeKey, OutputEndpoint, ValueKey, MAX_CONNECTIONS_PER_OUTPUT, MAX_EVENTS,
    MAX_NODE_ENDPOINTS,
};
use vstd::prelude::*;

verus! {

broadcast use vstd::laws_eq::group_laws_eq;

/// The value slots of a node with the kind of each, and whether it may sit
/// on a feedback cycle.
#[derive(Clone, Debug)]
pub struct NodeSlots {
    pub inputs: Vec<ValueKey>,
    pub outputs: Vec<ValueKey>,
    pub input_kinds: Vec<EndpointType>,
    pub output_kinds: Vec<EndpointType>,
    pub allows_feedback: bool,
}

/// Nodes, slot values, connections, ramps and processing order of a graph.
pub struct GraphState {
    nodes: NodeTable,
    values: ValueTable,
    connections: Connections,
    endpoint_types: KindTable,
    node_order: Vec<NodeKey>,
    topology_dirty: bool,
    value_to_node: OwnerTable,
    ramps: RampTable,
    events: EventTable,
}

/// An event as the graph handles it: a handle to a payload kept by the caller.
pub type EventId = u64;

/// Node `u` feeds node `v`, and both are nodes of `nodes`.
pub open spec fn graph_feeds(
    nodes: Map<NodeKey, NodeSlots>,
    links: Map<ValueKey, Seq<ValueKey>>,
    owner: Map<ValueKey, NodeKey>,
    u: NodeKey,
    v: NodeKey,
) -> bool {
    nodes.contains_key(u) && nodes.contains_key(v) && feeds(links, owner, u, v)
}

/// `x` is a node of `nodes` that allows feedback.
pub open spec fn allows_feedback_at(nodes: Map<NodeKey, NodeSlots>, x: NodeKey) -> bool {
    nodes.contains_key(x) && nodes[x].allows_feedback
}

/// `c` is a cycle of feeding nodes none of which allows feedback.
pub open spec fn is_graph_feed_cycle(
    nodes: Map<NodeKey, NodeSlots>,
    links: Map<ValueKey, Seq<ValueKey>>,
    owner: Map<ValueKey, NodeKey>,
    c: Seq<NodeKey>,
) -> bool {
    &&& c.len() > 0
    &&& forall|j: int| 0 <= j < c.len() ==> !allows_feedback_at(nodes, #[trigger] c[j])
    &&& forall|j: int|
        0 <= j < c.len() - 1 ==> graph_feeds(nodes, links, owner, #[trigger] c[j], c[j + 1])
    &&& graph_feeds(nodes, links, owner, c.last(), c[0])
}

pub open spec fn has_graph_feed_cycle(
    nodes: Map<NodeKey, NodeSlots>,
    links: Map<ValueKey, Seq<ValueKey>>,
    owner: Map<ValueKey, NodeKey>,
) -> bool {
    exists|c: Seq<NodeKey>| is_graph_feed_cycle(nodes, links, owner, c)
}

pub open spec fn on_graph_feed_cycle(
    nodes: Map<NodeKey, NodeSlots>,
    links: Map<ValueKey, Seq<ValueKey>>,
    owner: Map<ValueKey, NodeKey>,
    v: NodeKey,
) -> bool {
    exists|c: Seq<NodeKey>| is_graph_feed_cycle(nodes, links, owner, c) && c[0] == v
}

/// `order` lists every node once, and every node that does not allow
/// feedback comes before each node it feeds.
pub open spec fn orders_graph(
    nodes: Map<NodeKey, NodeSlots>,
    links: Map<ValueKey, Seq<ValueKey>>,
    owner: Map<ValueKey, NodeKey>,
    order: Seq<NodeKey>,
) -> bool {
    &&& order.no_duplicates()
    &&& forall|x: NodeKey| order.contains(x) <==> nodes.contains_key(x)
    &&& forall|i: int, j: int|
        0 <= i < order.len() && 0 <= j < order.len() && graph_feeds(
            nodes,
            links,
            owner,
            #[trigger] order[i],
            #[trigger] order[j],
        ) && !allows_feedback_at(nodes, order[i]) ==> i < j
}

/// Position of `x` in `s`, for an `x` that occurs in it.
pub open spec fn position_in(s: Seq<NodeKey>, x: NodeKey) -> int {
    choose|p: int| 0 <= p < s.len() && s[p] == x
}

/// `m` with `v` written to `o` and to each slot of `ts`, where `m` has such a slot.
pub open spec fn overwrite(m: Map<ValueKey, u32>, o: ValueKey, ts: Seq<ValueKey>, v: u32) -> Map<ValueKey, u32> {
    Map::new(|k: ValueKey| m.contains_key(k), |k: ValueKey| if k == o || ts.contains(k) { v } else { m[k] })
}

/// Number of stream endpoints among the first `i` entries of `kinds`.
pub open spec fn stream_rank(kinds: Seq<EndpointType>, i: int) -> nat
    decreases i,
{
    if i <= 0 {
        0
    } else {
        stream_rank(kinds, i - 1) + if kinds[i - 1] is Stream {
            1nat
        } else {
            0nat
        }
    }
}

/// The input slots `from` drives according to `links`.
pub open spec fn link_targets(links: Map<ValueKey, Seq<ValueKey>>, from: ValueKey) -> Seq<ValueKey> {
    if links.contains_key(from) {
        links[from]
    } else {
        Seq::empty()
    }
}

/// The slot values after the first `i` outputs of node `ns` are routed:
/// a stream output whose result `outputs[r]` (`r` its rank among the stream
/// outputs) is `Some(v)` writes `v` to itself and to the slots it drives.
pub open spec fn routed(
    m: Map<ValueKey, u32>,
    ns: NodeSlots,
    links: Map<ValueKey, Seq<ValueKey>>,
    outputs: Seq<Option<u32>>,
    i: int,
) -> Map<ValueKey, u32>
    decreases i,
{
    if i <= 0 {
        m
    } else {
        let prev = routed(m, ns, links, outputs, i - 1);
        let j = i - 1;
        let r = stream_rank(ns.output_kinds@, j) as int;
        if j < ns.output_kinds@.len() && ns.output_kinds@[j] is Stream && r < outputs.len() && j
            < ns.outputs@.len() && outputs[r] is Some {
            overwrite(prev, ns.outputs@[j], link_targets(links, ns.outputs@[j]), outputs[r]->Some_0)
        } else {
            prev
        }
    }
}

/// What a node reads from its input `i`: 0 for an event input, the slot
/// value otherwise.
pub open spec fn input_reading(ns: NodeSlots, values: Map<ValueKey, u32>, i: int) -> u32 {
    if i < ns.input_kinds@.len() && ns.input_kinds@[i] is Event {
        0
    } else {
        values[ns.inputs@[i]]
    }
}

/// `m` with `e` appended to the queue of `k`, when `k` has a queue with room.
pub open spec fn with_event(m: Map<ValueKey, Seq<EventId>>, k: ValueKey, e: EventId) -> Map<ValueKey, Seq<EventId>> {
    if m.contains_key(k) && m[k].len() < MAX_EVENTS {
        m.insert(k, m[k].push(e))
    } else {
        m
    }
}

/// `m` with `e` appended, in order, to the queue of each slot of `ks`.
pub open spec fn with_event_all(m: Map<ValueKey, Seq<EventId>>, ks: Seq<ValueKey>, e: EventId) -> Map<
    ValueKey,
    Seq<EventId>,
>
    decreases ks.len(),
{
    if ks.len() == 0 {
        m
    } else {
        with_event(with_event_all(m, ks.drop_last(), e), ks.last(), e)
    }
}

/// The queues after the first `i` pending events of node `ns` are
/// delivered: an event `(o, e)` whose output `o` is an event output goes to
/// that output's queue and then to the queue of each slot it drives.
pub open spec fn delivered(
    m: Map<ValueKey, Seq<EventId>>,
    ns: NodeSlots,
    links: Map<ValueKey, Seq<ValueKey>>,
    pending: Seq<(usize, EventId)>,
    i: int,
) -> Map<ValueKey, Seq<EventId>>
    decreases i,
{
    if i <= 0 {
        m
    } else {
        let prev = delivered(m, ns, links, pending, i - 1);
        let idx = pending[i - 1].0 as int;
        let e = pending[i - 1].1;
        if idx < ns.output_kinds@.len() && ns.output_kinds@[idx] is Event && idx < ns.outputs@.len() {
            let o = ns.outputs@[idx];
            with_event_all(with_event(prev, o, e), link_targets(links, o), e)
        } else {
            prev
        }
    }
}

/// The queues after the event inputs among the first `i` inputs of node
/// `ns` are emptied.
pub open spec fn inputs_cleared(m: Map<ValueKey, Seq<EventId>>, ns: NodeSlots, i: int) -> Map<
    ValueKey,
    Seq<EventId>,
>
    decreases i,
{
    if i <= 0 {
        m
    } else {
        let prev = inputs_cleared(m, ns, i - 1);
        let j = i - 1;
        if j < ns.input_kinds@.len() && ns.input_kinds@[j] is Event && j < ns.inputs@.len()
            && prev.contains_key(ns.inputs@[j]) {
            prev.insert(ns.inputs@[j], Seq::empty())
        } else {
            prev
        }
    }
}

/// Emptying the event inputs keeps the slots that have queues, and leaves
/// the queue of each event input among the first `i` inputs empty.
proof fn lemma_inputs_cleared(m: Map<ValueKey, Seq<EventId>>, ns: NodeSlots, i: int)
    requires
        0 <= i <= ns.inputs@.len(),
    ensures
        inputs_cleared(m, ns, i).dom() == m.dom(),
        forall|j: int|
            0 <= j < i && j < ns.input_kinds@.len() && ns.input_kinds@[j] is Event && #[trigger] inputs_cleared(
                m,
                ns,
                i,
            ).contains_key(ns.inputs@[j]) ==> inputs_cleared(m, ns, i)[ns.inputs@[j]].len() == 0,
    decreases i,
{
    if i > 0 {
        lemma_inputs_cleared(m, ns, i - 1);
        let prev = inputs_cleared(m, ns, i - 1);
        let cur = inputs_cleared(m, ns, i);
        if i - 1 < ns.input_kinds@.len() && ns.input_kinds@[i - 1] is Event && prev.contains_key(ns.inputs@[i - 1]) {
            assert(cur.dom() =~= prev.dom());
        }
        assert forall|j: int|
            0 <= j < i && j < ns.input_kinds@.len() && ns.input_kinds@[j] is Event && #[trigger] cur.contains_key(
                ns.inputs@[j],
            ) implies cur[ns.inputs@[j]].len() == 0 by {
            if j < i - 1 {
                assert(prev.contains_key(ns.inputs@[j]));
            }
        }
    }
}

/// Keeps the items that are not in `ks`.
pub open spec fn not_in(ks: Seq<ValueKey>) -> spec_fn(ValueKey) -> bool {
    |t: ValueKey| !ks.contains(t)
}

proof fn lemma_filter_not_in_empty(s: Seq<ValueKey>)
    ensures
        s.filter(not_in(Seq::<ValueKey>::empty())) == s,
    decreases s.len(),
{
    reveal(Seq::filter);
    if s.len() > 0 {
        lemma_filter_not_in_empty(s.drop_last());
        assert(s.drop_last().push(s.last()) =~= s);
    }
}

proof fn lemma_filter_not_in_push(s: Seq<ValueKey>, ks: Seq<ValueKey>, x: ValueKey)
    ensures
        s.filter(not_in(ks)).filter(not_equal(x)) == s.filter(not_in(ks.push(x))),
    decreases s.len(),
{
    reveal(Seq::filter);
    if s.len() > 0 {
        lemma_filter_not_in_push(s.drop_last(), ks, x);
        let t = s.last();
        let r = s.drop_last().filter(not_in(ks));
        assert(ks.push(x).contains(t) <==> ks.contains(t) || t == x) by {
            if ks.push(x).contains(t) && t != x {
                let p = choose|p: int| 0 <= p < ks.push(x).len() && ks.push(x)[p] == t;
                assert(ks[p] == t);
            }
            if ks.contains(t) {
                let p = choose|p: int| 0 <= p < ks.len() && ks[p] == t;
                assert(ks.push(x)[p] == t);
            }
            if t == x {
                assert(ks.push(x)[ks.len() as int] == t);
            }
        }
        if !ks.contains(t) {
            assert(r.push(t).drop_last() =~= r);
            assert(r.push(t).last() == t);
        }
    }
}

/// `s` extended by `x` holds what `s` holds and `x`.
proof fn lemma_push_contains(s: Seq<ValueKey>, x: ValueKey)
    ensures
        forall|y: ValueKey| #[trigger] s.push(x).contains(y) <==> s.contains(y) || y == x,
{
    assert forall|y: ValueKey| #[trigger] s.push(x).contains(y) <==> s.contains(y) || y == x by {
        if s.push(x).contains(y) && y != x {
            let p = choose|p: int| 0 <= p < s.push(x).len() && s.push(x)[p] == y;
            assert(s[p] == y);
        }
        if y == x {
            assert(s.push(x)[s.len() as int] == y);
        }
        if s.contains(y) {
            let p = choose|p: int| 0 <= p < s.len() && s[p] == y;
            assert(s.push(x)[p] == y);
        }
    }
}

/// Dropping the keys of `a` and then those of `b` drops the keys of either.
proof fn lemma_drop_twice<V>(
    m0: Map<ValueKey, V>,
    m1: Map<ValueKey, V>,
    m2: Map<ValueKey, V>,
    a: Seq<ValueKey>,
    b: Seq<ValueKey>,
)
    requires
        forall|k: ValueKey| #[trigger] m1.contains_key(k) <==> m0.contains_key(k) && !a.contains(k),
        forall|k: ValueKey| #[trigger] m1.contains_key(k) ==> m1[k] == m0[k],
        forall|k: ValueKey| #[trigger] m2.contains_key(k) <==> m1.contains_key(k) && !b.contains(k),
        forall|k: ValueKey| #[trigger] m2.contains_key(k) ==> m2[k] == m1[k],
    ensures
        forall|k: ValueKey| #[trigger] m2.contains_key(k) <==> m0.contains_key(k) && !(a.contains(k) || b.contains(k)),
        forall|k: ValueKey| #[trigger] m2.contains_key(k) ==> m2[k] == m0[k],
{
    assert forall|k: ValueKey| #[trigger] m2.contains_key(k) <==> m0.contains_key(k) && !(a.contains(k) || b.contains(k)) by {
        assert(m1.contains_key(k) <==> m0.contains_key(k) && !a.contains(k));
    }
    assert forall|k: ValueKey| #[trigger] m2.contains_key(k) implies m2[k] == m0[k] by {
        assert(m1.contains_key(k));
    }
}

/// The items of `s` other than `x`, in order.
fn all_but(s: &Vec<NodeKey>, x: NodeKey) -> (r: Vec<NodeKey>)
    ensures
        r@ == s@.filter(|k: NodeKey| k != x),
{
    let mut r: Vec<NodeKey> = Vec::new();
    let mut i: usize = 0;
    while i < s.len()
        invariant
            0 <= i <= s@.len(),
            r@ == s@.subrange(0, i as int).filter(|k: NodeKey| k != x),
        decreases s@.len() - i,
    {
        proof {
            lemma_filter_extend(s@, i as int, |k: NodeKey| k != x);
        }
        if s[i] != x {
            r.push(s[i]);
        }
        i += 1;
    }
    assert(s@.subrange(0, s@.len() as int) =~= s@);
    r
}

/// `ks` lists the nodes of `nodes` once each, and `flags` their feedback flags.
spec fn lists_nodes(ks: Seq<NodeKey>, flags: Seq<bool>, nodes: Map<NodeKey, NodeSlots>) -> bool {
    &&& ks.no_duplicates()
    &&& forall|x: NodeKey| #[trigger] ks.contains(x) <==> nodes.contains_key(x)
    &&& flags.len() == ks.len()
    &&& forall|i: int| 0 <= i < ks.len() ==> flags[i] == nodes[#[trigger] ks[i]].allows_feedback
}

proof fn lemma_listed_graph(
    ks: Seq<NodeKey>,
    flags: Seq<bool>,
    nodes: Map<NodeKey, NodeSlots>,
    links: Map<ValueKey, Seq<ValueKey>>,
    owner: Map<ValueKey, NodeKey>,
)
    requires
        lists_nodes(ks, flags, nodes),
    ensures
        forall|u: NodeKey, v: NodeKey|
            #[trigger] node_feeds(ks, links, owner, u, v) <==> graph_feeds(nodes, links, owner, u, v),
        forall|x: NodeKey| #[trigger] allows_feedback_in(ks, flags, x) <==> allows_feedback_at(nodes, x),
        forall|c: Seq<NodeKey>|
            #[trigger] is_feed_cycle(ks, links, owner, flags, c) <==> is_graph_feed_cycle(
                nodes,
                links,
                owner,
                c,
            ),
        has_feed_cycle(ks, links, owner, flags) <==> has_graph_feed_cycle(nodes, links, owner),
        forall|v: NodeKey|
            #[trigger] on_feed_cycle(ks, links, owner, flags, v) <==> on_graph_feed_cycle(
                nodes,
                links,
                owner,
                v,
            ),
        forall|order: Seq<NodeKey>|
            #[trigger] respects_feeds(ks, links, owner, flags, order) <==> orders_graph(
                nodes,
                links,
                owner,
                order,
            ),
{
    assert forall|x: NodeKey| #[trigger] allows_feedback_in(ks, flags, x) <==> allows_feedback_at(
        nodes,
        x,
    ) by {
        if allows_feedback_at(nodes, x) {
            assert(ks.contains(x));
            let i = choose|i: int| 0 <= i < ks.len() && ks[i] == x;
            assert(flags[i] == nodes[ks[i]].allows_feedback);
        }
        if allows_feedback_in(ks, flags, x) {
            let i = choose|i: int| 0 <= i < ks.len() && #[trigger] ks[i] == x && flags[i];
            assert(flags[i] == nodes[ks[i]].allows_feedback);
            assert(ks.contains(x));
        }
    }
    assert forall|c: Seq<NodeKey>| #[trigger] is_feed_cycle(ks, links, owner, flags, c)
        <==> is_graph_feed_cycle(nodes, links, owner, c) by {
        if is_feed_cycle(ks, links, owner, flags, c) {
            assert forall|j: int| 0 <= j < c.len() implies !allows_feedback_at(nodes, #[trigger] c[j]) by {
                assert(!allows_feedback_in(ks, flags, c[j]));
            }
            assert forall|j: int| 0 <= j < c.len() - 1 implies graph_feeds(
                nodes,
                links,
                owner,
                #[trigger] c[j],
                c[j + 1],
            ) by {
                assert(node_feeds(ks, links, owner, c[j], c[j + 1]));
            }
            assert(node_feeds(ks, links, owner, c.last(), c[0]));
        }
        if is_graph_feed_cycle(nodes, links, owner, c) {
            assert forall|j: int| 0 <= j < c.len() implies !allows_feedback_in(
                ks,
                flags,
                #[trigger] c[j],
            ) by {
                assert(!allows_feedback_at(nodes, c[j]));
            }
            assert forall|j: int| 0 <= j < c.len() - 1 implies node_feeds(
                ks,
                links,
                owner,
                #[trigger] c[j],
                c[j + 1],
            ) by {
                assert(graph_feeds(nodes, links, owner, c[j], c[j + 1]));
            }
            assert(graph_feeds(nodes, links, owner, c.last(), c[0]));
        }
    }
    if has_feed_cycle(ks, links, owner, flags) {
        let c = choose|c: Seq<NodeKey>| is_feed_cycle(ks, links, owner, flags, c);
        assert(is_graph_feed_cycle(nodes, links, owner, c));
    }
    if has_graph_feed_cycle(nodes, links, owner) {
        let c = choose|c: Seq<NodeKey>| is_graph_feed_cycle(nodes, links, owner, c);
        assert(is_feed_cycle(ks, links, owner, flags, c));
    }
    assert forall|v: NodeKey| #[trigger] on_feed_cycle(ks, links, owner, flags, v)
        <==> on_graph_feed_cycle(nodes, links, owner, v) by {
        if on_feed_cycle(ks, links, owner, flags, v) {
            let c = choose|c: Seq<NodeKey>| is_feed_cycle(ks, links, owner, flags, c) && c[0] == v;
            assert(is_graph_feed_cycle(nodes, links, owner, c));
        }
        if on_graph_feed_cycle(nodes, links, owner, v) {
            let c = choose|c: Seq<NodeKey>| is_graph_feed_cycle(nodes, links, owner, c) && c[0] == v;
            assert(is_feed_cycle(ks, links, owner, flags, c));
        }
    }
    assert forall|order: Seq<NodeKey>| #[trigger] respects_feeds(ks, links, owner, flags, order)
        <==> orders_graph(nodes, links, owner, order) by {
        if respects_feeds(ks, links, owner, flags, order) {
            assert forall|i: int, j: int|
                0 <= i < order.len() && 0 <= j < order.len() && graph_feeds(
                    nodes,
                    links,
                    owner,
                    #[trigger] order[i],
                    #[trigger] order[j],
                ) && !allows_feedback_at(nodes, order[i]) implies i < j by {
                assert(node_feeds(ks, links, owner, order[i], order[j]));
                assert(!allows_feedback_in(ks, flags, order[i]));
            }
        }
        if orders_graph(nodes, links, owner, order) {
            assert forall|i: int, j: int|
                0 <= i < order.len() && 0 <= j < order.len() && node_feeds(
                    ks,
                    links,
                    owner,
                    #[trigger] order[i],
                    #[trigger] order[j],
                ) && !allows_feedback_in(ks, flags, order[i]) implies i < j by {
                assert(graph_feeds(nodes, links, owner, order[i], order[j]));
                assert(!allows_feedback_at(nodes, order[i]));
            }
        }
    }
}

proof fn lemma_rising_along_cycle(
    nodes: Map<NodeKey, NodeSlots>,
    links: Map<ValueKey, Seq<ValueKey>>,
    owner: Map<ValueKey, NodeKey>,
    order: Seq<NodeKey>,
    c: Seq<NodeKey>,
    j: int,
)
    requires
        orders_graph(nodes, links, owner, order),
        is_graph_feed_cycle(nodes, links, owner, c),
        0 <= j < c.len(),
    ensures
        order.contains(c[j]),
        order[position_in(order, c[j])] == c[j],
        0 <= position_in(order, c[0]) <= position_in(order, c[j]) < order.len(),
    decreases j,
{
    if j == 0 {
        assert(graph_feeds(nodes, links, owner, c.last(), c[0]));
        assert(order.contains(c[0]));
    } else {
        lemma_rising_along_cycle(nodes, links, owner, order, c, j - 1);
        assert(graph_feeds(nodes, links, owner, c[j - 1], c[j]));
        assert(order.contains(c[j]));
        let a = position_in(order, c[j - 1]);
        let b = position_in(order, c[j]);
        assert(!allows_feedback_at(nodes, c[j - 1]));
        assert(graph_feeds(nodes, links, owner, order[a], order[b]));
    }
}

/// An order in which every node comes after the nodes feeding it, except
/// after nodes allowing feedback, rules out any cycle without such a node.
pub proof fn lemma_processing_order_excludes_feed_cycles(
    nodes: Map<NodeKey, NodeSlots>,
    links: Map<ValueKey, Seq<ValueKey>>,
    owner: Map<ValueKey, NodeKey>,
    order: Seq<NodeKey>,
)
    requires
        orders_graph(nodes, links, owner, order),
    ensures
        !has_graph_feed_cycle(nodes, links, owner),
{
    if has_graph_feed_cycle(nodes, links, owner) {
        let c = choose|c: Seq<NodeKey>| is_graph_feed_cycle(nodes, links, owner, c);
        let last = c.len() - 1;
        lemma_rising_along_cycle(nodes, links, owner, order, c, last);
        lemma_rising_along_cycle(nodes, links, owner, order, c, 0);
        let a = position_in(order, c[last]);
        let b = position_in(order, c[0]);
        assert(c.last() == c[last]);
        assert(!allows_feedback_at(nodes, c[last]));
        assert(graph_feeds(nodes, links, owner, order[a], order[b]));
    }
}

impl GraphState {
    /// The nodes, by key.
    pub closed spec fn nodes(&self) -> Map<NodeKey, NodeSlots> {
        node_entries(self.nodes)
    }

    /// The current value of each slot.
    pub closed spec fn values(&self) -> Map<ValueKey, u32> {
        value_entries(self.values)
    }

    /// The connections: the input slots each output slot drives.
    pub closed spec fn links(&self) -> Map<ValueKey, Seq<ValueKey>> {
        self.connections.view()
    }

    /// The input slots `from` drives.
    pub closed spec fn targets(&self, from: ValueKey) -> Seq<ValueKey> {
        self.connections.targets(from)
    }

    /// The node owning each slot.
    pub closed spec fn owner(&self) -> Map<ValueKey, NodeKey> {
        owner_entries(self.value_to_node)
    }

    /// The kind recorded for each slot that was declared a value input.
    pub closed spec fn kinds(&self) -> Map<ValueKey, EndpointType> {
        kind_entries(self.endpoint_types)
    }

    /// The processing order last computed.
    pub closed spec fn order(&self) -> Seq<NodeKey> {
        self.node_order@
    }

    /// Whether the structure changed since the order was computed.
    pub closed spec fn dirty(&self) -> bool {
        self.topology_dirty
    }

    /// The ramps in progress.
    pub closed spec fn ramps(&self) -> Map<ValueKey, ActiveRamp> {
        self.ramps.view()
    }

    /// The events queued on each event slot, oldest first.
    pub closed spec fn events(&self) -> Map<ValueKey, Seq<EventId>> {
        event_entries(self.events)
    }

    /// Whether `node` is a node of the graph.
    pub open spec fn has_node(&self, node: NodeKey) -> bool {
        self.nodes().contains_key(node)
    }

    /// The input slots of `node`.
    pub open spec fn inputs_of(&self, node: NodeKey) -> Seq<ValueKey> {
        self.nodes()[node].inputs@
    }

    /// The output slots of `node`.
    pub open spec fn outputs_of(&self, node: NodeKey) -> Seq<ValueKey> {
        self.nodes()[node].outputs@
    }

    /// Whether slot `key` is a value input (values set on it hold until set again).
    pub open spec fn is_value_input(&self, key: ValueKey) -> bool {
        self.kinds().contains_key(key) && self.kinds()[key] is Value
    }

    /// The processing order, when the structure has not changed since it
    /// was computed, respects every connection.
    pub open spec fn order_is_current(&self) -> bool {
        !self.dirty() ==> orders_graph(self.nodes(), self.links(), self.owner(), self.order())
    }

    pub closed spec fn wf(&self) -> bool {
        &&& self.connections.wf()
        &&& self.ramps.wf()
        &&& self.nodes().dom().finite()
        &&& self.values().dom().finite()
        &&& forall|n: NodeKey| #[trigger] self.nodes().contains_key(n) ==> is_key(n)
        &&& forall|k: ValueKey|
            #[trigger] self.values().contains_key(k) ==> is_key(k) && fits(self.values(), k)
        &&& forall|n: NodeKey, k: ValueKey|
            self.nodes().contains_key(n) && #[trigger] self.nodes()[n].inputs@.contains(k)
                ==> self.values().contains_key(k) && self.owner().contains_key(k)
                && self.owner()[k] == n
        &&& forall|n: NodeKey, k: ValueKey|
            self.nodes().contains_key(n) && #[trigger] self.nodes()[n].outputs@.contains(k)
                ==> self.values().contains_key(k) && self.owner().contains_key(k)
                && self.owner()[k] == n
        &&& forall|k: ValueKey|
            #[trigger] self.owner().contains_key(k) ==> self.values().contains_key(k)
                && self.nodes().contains_key(self.owner()[k]) && (
            self.nodes()[self.owner()[k]].inputs@.contains(k)
                || self.nodes()[self.owner()[k]].outputs@.contains(k))
        &&& forall|k: ValueKey| #[trigger] self.kinds().contains_key(k) <==> self.values().contains_key(k)
        &&& forall|k: ValueKey| #[trigger] self.ramps().contains_key(k) ==> self.values().contains_key(k)
        &&& forall|k: ValueKey| #[trigger] self.events().contains_key(k) <==> self.kinds().contains_key(k)
            && self.kinds()[k] is Event
        &&& forall|k: ValueKey| #[trigger] self.events().contains_key(k) ==> self.events()[k].len() <= MAX_EVENTS
        &&& self.order_is_current()
    }

    /// While the structure is unchanged since the processing order was
    /// worked out, that order lists every node once, runs each node after
    /// the nodes feeding it (except after nodes allowing feedback), and the
    /// graph has no cycle of feeding nodes without a node allowing feedback.
    pub proof fn lemma_clean_order_is_sound(&self)
        requires
            self.wf(),
            !self.dirty(),
        ensures
            orders_graph(self.nodes(), self.links(), self.owner(), self.order()),
            !has_graph_feed_cycle(self.nodes(), self.links(), self.owner()),
    {
        lemma_processing_order_excludes_feed_cycles(self.nodes(), self.links(), self.owner(), self.order());
    }

    /// An output slot has an entry in the connection table exactly when it
    /// drives at least one input: a list left empty is dropped.
    pub proof fn lemma_connection_lists_nonempty(&self)
        requires
            self.wf(),
        ensures
            forall|f: ValueKey| #[trigger] self.links().contains_key(f) <==> self.targets(f).len() > 0,
    {
        assert(targets_wf(self.links()));
        assert forall|f: ValueKey| #[trigger] self.links().contains_key(f) <==> self.targets(f).len() > 0 by {
            if self.links().contains_key(f) {
                assert(self.targets(f) == self.links()[f]);
            }
        }
    }

    /// A slot of the graph fits into any table whose keys are slots of the graph.
    proof fn lemma_slot_fits<V>(&self, m: Map<ValueKey, V>, k: ValueKey)
        requires
            self.wf(),
            self.values().contains_key(k),
            forall|a: ValueKey| #[trigger] m.contains_key(a) ==> self.values().contains_key(a),
        ensures
            is_key(k),
            fits(m, k),
    {
        assert forall|a: ValueKey| #[trigger] m.contains_key(a) && slot_index(a) == slot_index(k) implies a
            == k by {
            assert(self.values().contains_key(a));
            assert(fits(self.values(), k));
        }
    }

    /// The invariant carries over to a state with the same nodes, owners
    /// and slots, whose kinds and ramps stay on slots of the graph.
    proof fn lemma_wf_frame(&self, other: &Self)
        requires
            other.wf(),
            self.connections.wf(),
            self.ramps.wf(),
            self.nodes() == other.nodes(),
            self.owner() == other.owner(),
            self.values().dom() == other.values().dom(),
            self.kinds() == other.kinds(),
            self.events() == other.events(),
            forall|k: ValueKey| #[trigger] self.ramps().contains_key(k) ==> other.values().contains_key(k),
            self.order_is_current(),
        ensures
            self.wf(),
    {
        assert forall|k: ValueKey| #[trigger] self.kinds().contains_key(k) <==> self.values().contains_key(k) by {
            assert(self.kinds().contains_key(k) <==> other.kinds().contains_key(k));
            assert(other.kinds().contains_key(k) <==> other.values().contains_key(k));
            assert(self.values().contains_key(k) <==> other.values().contains_key(k));
        }
        assert forall|k: ValueKey| #[trigger] self.values().contains_key(k) implies is_key(k) && fits(
            self.values(),
            k,
        ) by {
            assert(other.values().contains_key(k));
            assert forall|a: ValueKey| #[trigger] self.values().contains_key(a) && slot_index(a) == slot_index(k) implies a
                == k by {
                assert(other.values().contains_key(a));
            }
        }
        assert forall|n: NodeKey, k: ValueKey|
            self.nodes().contains_key(n) && #[trigger] self.nodes()[n].inputs@.contains(k) implies self.values().contains_key(k)
            && self.owner().contains_key(k) && self.owner()[k] == n by {
            assert(other.nodes()[n].inputs@.contains(k));
            assert(other.values().contains_key(k));
        }
        assert forall|n: NodeKey, k: ValueKey|
            self.nodes().contains_key(n) && #[trigger] self.nodes()[n].outputs@.contains(k) implies self.values().contains_key(k)
            && self.owner().contains_key(k) && self.owner()[k] == n by {
            assert(other.nodes()[n].outputs@.contains(k));
            assert(other.values().contains_key(k));
        }
        assert forall|k: ValueKey| #[trigger] self.owner().contains_key(k) implies self.values().contains_key(k)
            && self.nodes().contains_key(self.owner()[k]) && (self.nodes()[self.owner()[k]].inputs@.contains(k)
            || self.nodes()[self.owner()[k]].outputs@.contains(k)) by {
            assert(other.owner().contains_key(k));
            assert(other.values().contains_key(k));
        }
        assert forall|n: NodeKey| #[trigger] self.nodes().contains_key(n) implies is_key(n) by {
            assert(other.nodes().contains_key(n));
        }
    }

    /// Slots with a kind or a ramp are slots of `other` when both tables
    /// are those of `other`.
    proof fn lemma_tables_within(&self, other: &Self)
        requires
            other.wf(),
            self.kinds() == other.kinds(),
            self.ramps() == other.ramps(),
        ensures
            forall|k: ValueKey| #[trigger] self.kinds().contains_key(k) ==> other.values().contains_key(k),
            forall|k: ValueKey| #[trigger] self.ramps().contains_key(k) ==> other.values().contains_key(k),
    {
        assert forall|k: ValueKey| #[trigger] self.kinds().contains_key(k) implies other.values().contains_key(k) by {
            assert(other.kinds().contains_key(k));
        }
        assert forall|k: ValueKey| #[trigger] self.ramps().contains_key(k) implies other.values().contains_key(k) by {
            assert(other.ramps().contains_key(k));
        }
    }

    proof fn lemma_sources_owned(&self, ks: Seq<NodeKey>)
        requires
            self.wf(),
            forall|x: NodeKey| #[trigger] ks.contains(x) <==> self.nodes().contains_key(x),
        ensures
            sources_owned_by_nodes(ks, self.links(), self.owner()),
    {
        assert forall|f: ValueKey| #[trigger] self.links().contains_key(f) && self.owner().contains_key(f)
            implies ks.contains(self.owner()[f]) by {
            assert(self.nodes().contains_key(self.owner()[f]));
        }
    }

    pub fn new() -> (g: Self)
        ensures
            g.wf(),
            g.nodes().dom() == Set::<NodeKey>::empty(),
            g.values().dom() == Set::<ValueKey>::empty(),
            g.links().dom() == Set::<ValueKey>::empty(),
            g.owner().dom() == Set::<ValueKey>::empty(),
            g.kinds().dom() == Set::<ValueKey>::empty(),
            g.ramps() == Map::<ValueKey, ActiveRamp>::empty(),
            g.dirty(),
    {
        let g = GraphState {
            nodes: new_node_table(),
            values: new_value_table(),
            connections: Connections::new(),
            endpoint_types: new_kind_table(),
            node_order: Vec::new(),
            topology_dirty: true,
            value_to_node: new_owner_table(),
            ramps: RampTable::new(),
            events: new_event_table(),
        };
        g
    }
}


/// Stores `n` new slots holding 0 in `values` and returns their keys.
fn alloc_slots(values: &mut ValueTable, n: usize) -> (ks: Vec<ValueKey>)
    requires
        value_entries(*old(values)).dom().finite(),
        value_entries(*old(values)).dom().len() + n < 0xFFFF_FFFE,
        forall|k: ValueKey| #[trigger] value_entries(*old(values)).contains_key(k) ==> is_key(k) && fits(
            value_entries(*old(values)),
            k,
        ),
    ensures
        ks@.len() == n,
        ks@.no_duplicates(),
        value_entries(*final(values)).dom().finite(),
        value_entries(*final(values)).dom().len() == value_entries(*old(values)).dom().len() + n,
        forall|k: ValueKey| #[trigger] value_entries(*final(values)).contains_key(k) ==> is_key(k) && fits(
            value_entries(*final(values)),
            k,
        ),
        forall|k: ValueKey| #[trigger] value_entries(*final(values)).contains_key(k) <==> value_entries(
            *old(values),
        ).contains_key(k) || ks@.contains(k),
        forall|k: ValueKey| #[trigger] ks@.contains(k) ==> !value_entries(*old(values)).contains_key(k)
            && value_entries(*final(values))[k] == 0,
        forall|k: ValueKey| #[trigger] value_entries(*old(values)).contains_key(k) ==> value_entries(
            *final(values),
        )[k] == value_entries(*old(values))[k],
{
    let ghost v0 = value_entries(*values);
    let mut ks: Vec<ValueKey> = Vec::new();
    let mut i: usize = 0;
    while i < n
        invariant
            0 <= i <= n,
            v0.dom().finite(),
            v0.dom().len() + n < 0xFFFF_FFFE,
            ks@.len() == i,
            ks@.no_duplicates(),
            value_entries(*values).dom().finite(),
            value_entries(*values).dom().len() == v0.dom().len() + i,
            forall|k: ValueKey| #[trigger] value_entries(*values).contains_key(k) ==> is_key(k) && fits(
                value_entries(*values),
                k,
            ),
            forall|k: ValueKey| #[trigger] value_entries(*values).contains_key(k) <==> v0.contains_key(k)
                || ks@.contains(k),
            forall|k: ValueKey| #[trigger] ks@.contains(k) ==> !v0.contains_key(k) && value_entries(
                *values,
            )[k] == 0,
            forall|k: ValueKey| #[trigger] v0.contains_key(k) ==> value_entries(*values)[k] == v0[k],
        decreases n - i,
    {
        let ghost before = value_entries(*values);
        let ghost ks0 = ks@;
        let k = insert_value(values, 0);
        proof {
            assert(!before.contains_key(k)) by {
                if before.contains_key(k) {
                    assert(slot_index(k) != slot_index(k));
                }
            }
        }
        ks.push(k);
        proof {
            assert(ks@ == ks0.push(k));
            assert forall|x: ValueKey| #[trigger] ks@.contains(x) <==> ks0.contains(x) || x == k by {
                if ks@.contains(x) && x != k {
                    let p = choose|p: int| 0 <= p < ks@.len() && ks@[p] == x;
                    assert(ks0[p] == x);
                }
                if x == k {
                    assert(ks@[ks0.len() as int] == k);
                }
                if ks0.contains(x) {
                    let p = choose|p: int| 0 <= p < ks0.len() && ks0[p] == x;
                    assert(ks@[p] == x);
                }
            }
            assert(ks@.no_duplicates()) by {
                assert forall|a: int, b: int| 0 <= a < b < ks@.len() implies ks@[a] != ks@[b] by {
                    if b == ks0.len() {
                        assert(ks0.contains(ks@[a])) by {
                            assert(ks0[a] == ks@[a]);
                        }
                    } else {
                        assert(ks0[a] == ks@[a] && ks0[b] == ks@[b]);
                    }
                }
            }
            assert forall|x: ValueKey| #[trigger] value_entries(*values).contains_key(x) implies is_key(x)
                && fits(value_entries(*values), x) by {
                assert forall|a: ValueKey| #[trigger] value_entries(*values).contains_key(a) && slot_index(a)
                    == slot_index(x) implies a == x by {
                    if a != k && x != k {
                        assert(before.contains_key(a) && before.contains_key(x));
                    } else if a == k && x != k {
                        assert(before.contains_key(x));
                    } else if a != k {
                        assert(before.contains_key(a));
                    }
                }
            }
        }
        i += 1;
    }
    ks
}

/// Records `node` as the owner of each slot of `slots`.
fn claim_slots(
    owners: &mut OwnerTable,
    slots: &Vec<ValueKey>,
    node: NodeKey,
    Ghost(values): Ghost<Map<ValueKey, u32>>,
)
    requires
        forall|k: ValueKey| #[trigger] slots@.contains(k) ==> values.contains_key(k),
        forall|k: ValueKey| #[trigger] owner_entries(*old(owners)).contains_key(k) ==> values.contains_key(k),
        forall|k: ValueKey| #[trigger] values.contains_key(k) ==> is_key(k) && fits(values, k),
    ensures
        forall|k: ValueKey| #[trigger] owner_entries(*final(owners)).contains_key(k) <==> owner_entries(
            *old(owners),
        ).contains_key(k) || slots@.contains(k),
        forall|k: ValueKey| #[trigger] slots@.contains(k) ==> owner_entries(*final(owners))[k] == node,
        forall|k: ValueKey|
            !slots@.contains(k) && owner_entries(*old(owners)).contains_key(k) ==> #[trigger] owner_entries(
                *final(owners),
            )[k] == owner_entries(*old(owners))[k],
{
    let ghost o0 = owner_entries(*owners);
    let mut i: usize = 0;
    while i < slots.len()
        invariant
            0 <= i <= slots@.len(),
            forall|k: ValueKey| #[trigger] slots@.contains(k) ==> values.contains_key(k),
            forall|k: ValueKey| #[trigger] o0.contains_key(k) ==> values.contains_key(k),
            forall|k: ValueKey| #[trigger] values.contains_key(k) ==> is_key(k) && fits(values, k),
            forall|k: ValueKey| #[trigger] owner_entries(*owners).contains_key(k) <==> o0.contains_key(k)
                || slots@.subrange(0, i as int).contains(k),
            forall|k: ValueKey| #[trigger] slots@.subrange(0, i as int).contains(k) ==> owner_entries(
                *owners,
            )[k] == node,
            forall|k: ValueKey|
                !slots@.subrange(0, i as int).contains(k) && o0.contains_key(k) ==> #[trigger] owner_entries(
                    *owners,
                )[k] == o0[k],
        decreases slots@.len() - i,
    {
        let k = slots[i];
        let ghost before = owner_entries(*owners);
        proof {
            assert(slots@.contains(k)) by {
                assert(slots@[i as int] == k);
            }
            assert forall|a: ValueKey| #[trigger] before.contains_key(a) && slot_index(a) == slot_index(k) implies a
                == k by {
                assert(values.contains_key(a)) by {
                    if !o0.contains_key(a) {
                        let p = choose|p: int| 0 <= p < i && slots@.subrange(0, i as int)[p] == a;
                        assert(slots@.contains(a)) by {
                            assert(slots@[p] == a);
                        }
                    }
                }
                assert(fits(values, k));
            }
        }
        insert_owner(owners, k, node);
        proof {
            let prev = slots@.subrange(0, i as int);
            let next = slots@.subrange(0, i + 1);
            assert(next =~= prev.push(k));
            assert forall|x: ValueKey| #[trigger] next.contains(x) <==> prev.contains(x) || x == k by {
                if next.contains(x) && x != k {
                    let p = choose|p: int| 0 <= p < next.len() && next[p] == x;
                    assert(prev[p] == x);
                }
                if x == k {
                    assert(next[i as int] == k);
                }
                if prev.contains(x) {
                    let p = choose|p: int| 0 <= p < prev.len() && prev[p] == x;
                    assert(next[p] == x);
                }
            }
        }
        i += 1;
    }
    assert(slots@.subrange(0, i as int) =~= slots@);
}

/// Opens an empty event queue for each slot `slots[i]` whose kind
/// `kinds[i]` is an event.
fn open_queues(
    table: &mut EventTable,
    slots: &Vec<ValueKey>,
    kinds: &Vec<EndpointType>,
    Ghost(values): Ghost<Map<ValueKey, u32>>,
)
    requires
        slots@.len() == kinds@.len(),
        slots@.no_duplicates(),
        forall|k: ValueKey| #[trigger] slots@.contains(k) ==> values.contains_key(k),
        forall|k: ValueKey| #[trigger] event_entries(*old(table)).contains_key(k) ==> values.contains_key(k)
            && !slots@.contains(k),
        forall|k: ValueKey| #[trigger] values.contains_key(k) ==> is_key(k) && fits(values, k),
    ensures
        forall|i: int| 0 <= i < slots@.len() ==> (event_entries(*final(table)).contains_key(#[trigger] slots@[i])
            <==> kinds@[i] is Event),
        forall|i: int| 0 <= i < slots@.len() && kinds@[i] is Event ==> event_entries(*final(table))[#[trigger] slots@[i]]
            == Seq::<EventId>::empty(),
        forall|k: ValueKey| !slots@.contains(k) ==> (#[trigger] event_entries(*final(table)).contains_key(k)
            <==> event_entries(*old(table)).contains_key(k)),
        forall|k: ValueKey| #[trigger] event_entries(*old(table)).contains_key(k) ==> event_entries(*final(table))[k]
            == event_entries(*old(table))[k],
{
    let ghost t0 = event_entries(*table);
    let mut i: usize = 0;
    while i < slots.len()
        invariant
            0 <= i <= slots@.len(),
            slots@.len() == kinds@.len(),
            slots@.no_duplicates(),
            forall|k: ValueKey| #[trigger] slots@.contains(k) ==> values.contains_key(k),
            forall|k: ValueKey| #[trigger] t0.contains_key(k) ==> values.contains_key(k) && !slots@.contains(k),
            forall|k: ValueKey| #[trigger] values.contains_key(k) ==> is_key(k) && fits(values, k),
            forall|j: int| 0 <= j < i ==> (event_entries(*table).contains_key(#[trigger] slots@[j]) <==> kinds@[j] is Event),
            forall|j: int| 0 <= j < i && kinds@[j] is Event ==> event_entries(*table)[#[trigger] slots@[j]]
                == Seq::<EventId>::empty(),
            forall|j: int| i <= j < slots@.len() ==> !event_entries(*table).contains_key(#[trigger] slots@[j]),
            forall|k: ValueKey| !slots@.contains(k) ==> (#[trigger] event_entries(*table).contains_key(k)
                <==> t0.contains_key(k)),
            forall|k: ValueKey| #[trigger] t0.contains_key(k) ==> event_entries(*table)[k] == t0[k],
            forall|k: ValueKey| #[trigger] event_entries(*table).contains_key(k) ==> values.contains_key(k),
        decreases slots@.len() - i,
    {
        let k = slots[i];
        proof {
            assert(slots@.contains(k)) by {
                assert(slots@[i as int] == k);
            }
            assert forall|j: int| i <= j < slots@.len() implies !t0.contains_key(#[trigger] slots@[j]) by {
                assert(slots@.contains(slots@[j]));
            }
        }
        let is_event = match kinds[i] {
            EndpointType::Event => true,
            _ => false,
        };
        if is_event {
            let ghost before = event_entries(*table);
            proof {
                assert forall|a: ValueKey| #[trigger] before.contains_key(a) && slot_index(a) == slot_index(k) implies a
                    == k by {
                    assert(values.contains_key(a));
                    assert(fits(values, k));
                }
            }
            set_events(table, k, Vec::new());
            proof {
                assert forall|j: int| 0 <= j < slots@.len() && j != i implies slots@[j] != k by {}
            }
        }
        i += 1;
    }
}

/// Records `kinds[i]` as the kind of slot `slots[i]`.
fn record_kinds(
    table: &mut KindTable,
    slots: &Vec<ValueKey>,
    kinds: &Vec<EndpointType>,
    Ghost(values): Ghost<Map<ValueKey, u32>>,
)
    requires
        slots@.len() == kinds@.len(),
        slots@.no_duplicates(),
        forall|k: ValueKey| #[trigger] slots@.contains(k) ==> values.contains_key(k),
        forall|k: ValueKey| #[trigger] kind_entries(*old(table)).contains_key(k) ==> values.contains_key(k),
        forall|k: ValueKey| #[trigger] values.contains_key(k) ==> is_key(k) && fits(values, k),
    ensures
        forall|k: ValueKey| #[trigger] kind_entries(*final(table)).contains_key(k) <==> kind_entries(
            *old(table),
        ).contains_key(k) || slots@.contains(k),
        forall|i: int| 0 <= i < slots@.len() ==> kind_entries(*final(table))[#[trigger] slots@[i]] == kinds@[i],
        forall|k: ValueKey|
            !slots@.contains(k) && kind_entries(*old(table)).contains_key(k) ==> #[trigger] kind_entries(
                *final(table),
            )[k] == kind_entries(*old(table))[k],
{
    let ghost t0 = kind_entries(*table);
    let mut i: usize = 0;
    while i < slots.len()
        invariant
            0 <= i <= slots@.len(),
            slots@.len() == kinds@.len(),
            slots@.no_duplicates(),
            forall|k: ValueKey| #[trigger] slots@.contains(k) ==> values.contains_key(k),
            forall|k: ValueKey| #[trigger] t0.contains_key(k) ==> values.contains_key(k),
            forall|k: ValueKey| #[trigger] values.contains_key(k) ==> is_key(k) && fits(values, k),
            forall|k: ValueKey| #[trigger] kind_entries(*table).contains_key(k) <==> t0.contains_key(k)
                || slots@.subrange(0, i as int).contains(k),
            forall|j: int| 0 <= j < i ==> kind_entries(*table)[#[trigger] slots@[j]] == kinds@[j],
            forall|k: ValueKey|
                !slots@.subrange(0, i as int).contains(k) && t0.contains_key(k) ==> #[trigger] kind_entries(
                    *table,
                )[k] == t0[k],
        decreases slots@.len() - i,
    {
        let k = slots[i];
        let ghost before = kind_entries(*table);
        proof {
            assert(slots@.contains(k)) by {
                assert(slots@[i as int] == k);
            }
            assert forall|a: ValueKey| #[trigger] before.contains_key(a) && slot_index(a) == slot_index(k) implies a
                == k by {
                assert(values.contains_key(a)) by {
                    if !t0.contains_key(a) {
                        let p = choose|p: int| 0 <= p < i && slots@.subrange(0, i as int)[p] == a;
                        assert(slots@.contains(a)) by {
                            assert(slots@[p] == a);
                        }
                    }
                }
                assert(fits(values, k));
            }
        }
        insert_kind(table, k, kinds[i]);
        proof {
            let prev = slots@.subrange(0, i as int);
            let next = slots@.subrange(0, i + 1);
            assert(next =~= prev.push(k));
            lemma_push_contains(prev, k);
            assert forall|j: int| 0 <= j < i + 1 implies kind_entries(*table)[#[trigger] slots@[j]] == kinds@[j] by {
                if j < i {
                    assert(slots@[j] != k);
                }
            }
        }
        i += 1;
    }
    assert(slots@.subrange(0, i as int) =~= slots@);
}

impl GraphState {
    /// Number of value slots.
    pub fn value_count(&self) -> (n: usize)
        requires
            self.wf(),
        ensures
            n == self.values().dom().len(),
    {
        value_count(&self.values)
    }

    /// Number of nodes.
    pub fn node_count(&self) -> (n: usize)
        requires
            self.wf(),
        ensures
            n == self.nodes().dom().len(),
    {
        node_count(&self.nodes)
    }

    /// Adds a node with one input slot per entry of `input_kinds` and one
    /// output slot per entry of `output_kinds`, each a new slot holding 0.0
    /// (bit pattern 0) and recorded with its kind; returns the node's key and
    /// its input and output slots. The processing order has to be worked out
    /// again.
    pub fn add_node(
        &mut self,
        input_kinds: &Vec<EndpointType>,
        output_kinds: &Vec<EndpointType>,
        allows_feedback: bool,
    ) -> (r: (NodeKey, Vec<ValueKey>, Vec<ValueKey>))
        requires
            old(self).wf(),
            input_kinds@.len() <= MAX_NODE_ENDPOINTS,
            output_kinds@.len() <= MAX_NODE_ENDPOINTS,
            old(self).values().dom().len() + input_kinds@.len() + output_kinds@.len() < 0xFFFF_FFFE,
            old(self).nodes().dom().len() < 0xFFFF_FFFE,
        ensures
            final(self).wf(),
            !old(self).has_node(r.0),
            final(self).nodes().dom() == old(self).nodes().dom().insert(r.0),
            forall|n: NodeKey| #[trigger] old(self).has_node(n) ==> final(self).nodes()[n] == old(self).nodes()[n],
            final(self).inputs_of(r.0) == r.1@,
            final(self).outputs_of(r.0) == r.2@,
            final(self).nodes()[r.0].allows_feedback == allows_feedback,
            final(self).nodes()[r.0].input_kinds@ == input_kinds@,
            final(self).nodes()[r.0].output_kinds@ == output_kinds@,
            r.1@.len() == input_kinds@.len(),
            r.2@.len() == output_kinds@.len(),
            (r.1@ + r.2@).no_duplicates(),
            forall|k: ValueKey| #[trigger] final(self).values().contains_key(k) <==> old(self).values().contains_key(k)
                || r.1@.contains(k) || r.2@.contains(k),
            forall|k: ValueKey| r.1@.contains(k) || r.2@.contains(k) ==> !old(self).values().contains_key(k)
                && #[trigger] final(self).values()[k] == 0 && final(self).owner().contains_key(k)
                && final(self).owner()[k] == r.0,
            forall|k: ValueKey| #[trigger] old(self).values().contains_key(k) ==> final(self).values()[k] == old(self).values()[k],
            forall|k: ValueKey| #[trigger] final(self).owner().contains_key(k) <==> old(self).owner().contains_key(k)
                || r.1@.contains(k) || r.2@.contains(k),
            forall|k: ValueKey| #[trigger] old(self).owner().contains_key(k) ==> final(self).owner()[k] == old(self).owner()[k],
            final(self).links() == old(self).links(),
            forall|f: ValueKey| #[trigger] final(self).targets(f) == old(self).targets(f),
            forall|k: ValueKey| #[trigger] final(self).kinds().contains_key(k) <==> old(self).kinds().contains_key(k)
                || r.1@.contains(k) || r.2@.contains(k),
            forall|i: int| 0 <= i < r.1@.len() ==> final(self).kinds()[#[trigger] r.1@[i]] == input_kinds@[i],
            forall|i: int| 0 <= i < r.2@.len() ==> final(self).kinds()[#[trigger] r.2@[i]] == output_kinds@[i],
            forall|k: ValueKey| #[trigger] old(self).kinds().contains_key(k) ==> final(self).kinds()[k] == old(self).kinds()[k],
            final(self).ramps() == old(self).ramps(),
            forall|k: ValueKey| #[trigger] final(self).events().contains_key(k) ==> final(self).events()[k] == (if old(
                self,
            ).events().contains_key(k) {
                old(self).events()[k]
            } else {
                Seq::<EventId>::empty()
            }),
            forall|k: ValueKey| #[trigger] old(self).events().contains_key(k) ==> final(self).events().contains_key(k),
            forall|k: ValueKey| #[trigger] r.1@.contains(k) ==> is_key(k),
            forall|k: ValueKey| #[trigger] r.2@.contains(k) ==> is_key(k),
            final(self).values().dom().len() == old(self).values().dom().len() + input_kinds@.len()
                + output_kinds@.len(),
            final(self).nodes().dom().len() == old(self).nodes().dom().len() + 1,
            final(self).dirty(),
    {
        let ghost g0 = *self;
        let ins = alloc_slots(&mut self.values, input_kinds.len());
        let ghost v1 = self.values();
        let outs = alloc_slots(&mut self.values, output_kinds.len());
        let ghost vals = self.values();
        let key = insert_node(
            &mut self.nodes,
            NodeSlots {
                inputs: ins.clone(),
                outputs: outs.clone(),
                input_kinds: input_kinds.clone(),
                output_kinds: output_kinds.clone(),
                allows_feedback,
            },
        );
        proof {
            assert(!g0.nodes().contains_key(key)) by {
                if g0.nodes().contains_key(key) {
                    assert(slot_index(key) != slot_index(key));
                }
            }
            assert forall|k: ValueKey| #[trigger] owner_entries(self.value_to_node).contains_key(k) implies vals.contains_key(k) by {
                assert(g0.values().contains_key(k));
            }
        }
        claim_slots(&mut self.value_to_node, &ins, key, Ghost(vals));
        claim_slots(&mut self.value_to_node, &outs, key, Ghost(vals));
        proof {
            assert forall|k: ValueKey| #[trigger] kind_entries(self.endpoint_types).contains_key(k) implies vals.contains_key(k) by {
                assert(g0.kinds().contains_key(k));
                assert(g0.values().contains_key(k));
            }
        }
        record_kinds(&mut self.endpoint_types, &ins, input_kinds, Ghost(vals));
        let ghost kinds1 = self.kinds();
        proof {
            assert forall|k: ValueKey| #[trigger] kind_entries(self.endpoint_types).contains_key(k) implies vals.contains_key(k) by {
                if !ins@.contains(k) {
                    assert(g0.kinds().contains_key(k));
                    assert(g0.values().contains_key(k));
                }
            }
        }
        record_kinds(&mut self.endpoint_types, &outs, output_kinds, Ghost(vals));
        let ghost events0 = self.events();
        proof {
            assert forall|k: ValueKey| #[trigger] event_entries(self.events).contains_key(k) implies vals.contains_key(k)
                && !ins@.contains(k) by {
                assert(g0.events().contains_key(k));
                assert(g0.kinds().contains_key(k));
                assert(g0.values().contains_key(k));
            }
        }
        open_queues(&mut self.events, &ins, input_kinds, Ghost(vals));
        let ghost events1 = self.events();
        proof {
            assert forall|k: ValueKey| #[trigger] event_entries(self.events).contains_key(k) implies vals.contains_key(k)
                && !outs@.contains(k) by {
                if !ins@.contains(k) {
                    assert(events0.contains_key(k));
                    assert(g0.events().contains_key(k));
                    assert(g0.kinds().contains_key(k));
                    assert(g0.values().contains_key(k));
                    assert(v1.contains_key(k));
                } else {
                    assert(v1.contains_key(k));
                }
            }
        }
        open_queues(&mut self.events, &outs, output_kinds, Ghost(vals));
        self.topology_dirty = true;
        proof {
            let ns = self.nodes()[key];
            assert(ns.inputs@ == ins@);
            assert(ns.outputs@ == outs@);
            assert(ns.input_kinds@ == input_kinds@);
            assert(ns.output_kinds@ == output_kinds@);
            assert forall|i: int| 0 <= i < ins@.len() implies self.kinds()[#[trigger] ins@[i]] == input_kinds@[i] by {
                assert(ins@.contains(ins@[i]));
                assert(!outs@.contains(ins@[i]));
                assert(kinds1.contains_key(ins@[i]));
            }
            assert forall|k: ValueKey| #[trigger] g0.kinds().contains_key(k) implies self.kinds()[k] == g0.kinds()[k] by {
                assert(g0.values().contains_key(k));
                assert(!ins@.contains(k) && !outs@.contains(k));
                assert(kinds1.contains_key(k));
            }
            assert((ins@ + outs@).no_duplicates()) by {
                assert forall|a: int, b: int| 0 <= a < b < (ins@ + outs@).len() implies (ins@ + outs@)[a]
                    != (ins@ + outs@)[b] by {
                    if b >= ins@.len() && a < ins@.len() {
                        let x = ins@[a];
                        assert(ins@.contains(x));
                        assert(outs@.contains(outs@[b - ins@.len()]));
                    }
                }
            }
            assert forall|n: NodeKey, k: ValueKey|
                self.nodes().contains_key(n) && #[trigger] self.nodes()[n].inputs@.contains(k) implies self.values().contains_key(k)
                && self.owner().contains_key(k) && self.owner()[k] == n by {
                if n != key {
                    assert(g0.nodes()[n].inputs@.contains(k));
                    assert(g0.values().contains_key(k));
                }
            }
            assert forall|n: NodeKey, k: ValueKey|
                self.nodes().contains_key(n) && #[trigger] self.nodes()[n].outputs@.contains(k) implies self.values().contains_key(k)
                && self.owner().contains_key(k) && self.owner()[k] == n by {
                if n != key {
                    assert(g0.nodes()[n].outputs@.contains(k));
                    assert(g0.values().contains_key(k));
                }
            }
            assert forall|k: ValueKey| #[trigger] self.owner().contains_key(k) implies self.values().contains_key(k)
                && self.nodes().contains_key(self.owner()[k]) && (
                self.nodes()[self.owner()[k]].inputs@.contains(k)
                    || self.nodes()[self.owner()[k]].outputs@.contains(k)) by {
                if !ins@.contains(k) && !outs@.contains(k) {
                    assert(g0.owner().contains_key(k));
                    assert(g0.owner()[k] != key);
                }
            }
            assert(self.ramps() == g0.ramps());
            assert forall|k: ValueKey| #[trigger] self.kinds().contains_key(k) <==> self.values().contains_key(k) by {
                if !ins@.contains(k) && !outs@.contains(k) {
                    assert(g0.kinds().contains_key(k) <==> g0.values().contains_key(k));
                }
            }
            assert forall|k: ValueKey| #[trigger] self.ramps().contains_key(k) implies self.values().contains_key(k) by {
                assert(g0.ramps().contains_key(k));
                assert(g0.values().contains_key(k));
            }
            assert forall|n: NodeKey| #[trigger] self.nodes().contains_key(n) implies is_key(n) by {}
            assert forall|k: ValueKey| #[trigger] g0.values().contains_key(k) implies self.values()[k] == g0.values()[k] by {
                assert(v1.contains_key(k));
            }
            assert forall|k: ValueKey| #[trigger] self.events().contains_key(k) <==> self.kinds().contains_key(k)
                && self.kinds()[k] is Event by {
                if ins@.contains(k) {
                    let i = choose|i: int| 0 <= i < ins@.len() && ins@[i] == k;
                    assert(v1.contains_key(k));
                    assert(!outs@.contains(k));
                    assert(self.kinds()[ins@[i]] == input_kinds@[i]);
                    assert(events1.contains_key(ins@[i]) <==> input_kinds@[i] is Event);
                } else if outs@.contains(k) {
                    let i = choose|i: int| 0 <= i < outs@.len() && outs@[i] == k;
                    assert(self.kinds()[outs@[i]] == output_kinds@[i]);
                } else {
                    assert(self.events().contains_key(k) <==> events1.contains_key(k));
                    assert(events1.contains_key(k) <==> events0.contains_key(k));
                    assert(events0 == g0.events());
                    assert(g0.events().contains_key(k) <==> g0.kinds().contains_key(k) && g0.kinds()[k] is Event);
                    if g0.kinds().contains_key(k) {
                        assert(self.kinds()[k] == g0.kinds()[k]);
                    }
                }
            }
            assert forall|k: ValueKey| #[trigger] self.events().contains_key(k) implies self.events()[k] == (if g0.events().contains_key(k) {
                g0.events()[k]
            } else {
                Seq::<EventId>::empty()
            }) by {
                if ins@.contains(k) {
                    let i = choose|i: int| 0 <= i < ins@.len() && ins@[i] == k;
                    assert(v1.contains_key(k));
                    assert(!outs@.contains(k));
                    assert(events1.contains_key(ins@[i]));
                    assert(input_kinds@[i] is Event);
                    assert(!g0.values().contains_key(k));
                    assert(!g0.events().contains_key(k));
                } else if outs@.contains(k) {
                    let i = choose|i: int| 0 <= i < outs@.len() && outs@[i] == k;
                    assert(output_kinds@[i] is Event);
                    assert(!g0.values().contains_key(k));
                    assert(!g0.events().contains_key(k));
                } else {
                    assert(events1.contains_key(k));
                    assert(events0.contains_key(k));
                }
            }
            assert forall|k: ValueKey| #[trigger] g0.events().contains_key(k) implies self.events().contains_key(k) by {
                assert(g0.values().contains_key(k));
                assert(!ins@.contains(k) && !outs@.contains(k));
            }
            assert(self.nodes().dom() =~= g0.nodes().dom().insert(key));
            assert forall|k: ValueKey| #[trigger] ins@.contains(k) implies is_key(k) by {
                assert(self.values().contains_key(k));
            }
            assert forall|k: ValueKey| #[trigger] outs@.contains(k) implies is_key(k) by {
                assert(self.values().contains_key(k));
            }
            assert forall|k: ValueKey| #[trigger] self.events().contains_key(k) implies self.events()[k].len() <= MAX_EVENTS by {
                if ins@.contains(k) {
                    let i = choose|i: int| 0 <= i < ins@.len() && ins@[i] == k;
                    assert(v1.contains_key(k));
                    assert(!outs@.contains(k));
                    assert(events1.contains_key(ins@[i]));
                    assert(input_kinds@[i] is Event);
                    assert(events1[ins@[i]] == Seq::<EventId>::empty());
                } else if outs@.contains(k) {
                    let i = choose|i: int| 0 <= i < outs@.len() && outs@[i] == k;
                    assert(output_kinds@[i] is Event);
                } else {
                    assert(events1.contains_key(k));
                    assert(events0.contains_key(k));
                    assert(g0.events().contains_key(k));
                }
            }
        }
        (key, ins, outs)
    }
}

impl GraphState {
    /// Everything but the slot values, their kinds and the ramps is as in `other`.
    pub open spec fn same_structure(&self, other: &Self) -> bool {
        &&& self.nodes() == other.nodes()
        &&& self.links() == other.links()
        &&& forall|f: ValueKey| #[trigger] self.targets(f) == other.targets(f)
        &&& self.owner() == other.owner()
        &&& self.order() == other.order()
        &&& self.dirty() == other.dirty()
    }

    /// Whether `connect(from, to)` may be called: both have the form of a
    /// key, no connection is recorded under another key of the slot of
    /// `from`, and `from` drives fewer than `MAX_CONNECTIONS_PER_OUTPUT`
    /// inputs.
    pub fn connect_allowed(&self, from: ValueKey, to: ValueKey) -> (r: bool)
        requires
            self.wf(),
        ensures
            r == (is_key(from) && is_key(to) && fits(self.links(), from) && self.targets(from).len()
                < MAX_CONNECTIONS_PER_OUTPUT),
    {
        if !key_form(from) || !key_form(to) {
            return false;
        }
        let sources = self.connections.sources();
        let mut i: usize = 0;
        while i < sources.len()
            invariant
                0 <= i <= sources@.len(),
                forall|f: ValueKey| #[trigger] sources@.contains(f) <==> self.links().contains_key(f),
                forall|p: int| 0 <= p < i ==> #[trigger] sources@[p] == from || slot_index(sources@[p]) != slot_index(from),
            decreases sources@.len() - i,
        {
            let s0 = sources[i];
            if s0 != from && s0 % 0x1_0000_0000 == from % 0x1_0000_0000 {
                proof {
                    assert(sources@.contains(s0)) by {
                        assert(sources@[i as int] == s0);
                    }
                }
                return false;
            }
            i += 1;
        }
        proof {
            assert forall|a: ValueKey| #[trigger] self.links().contains_key(a) && slot_index(a) == slot_index(from) implies a
                == from by {
                assert(sources@.contains(a));
                let p = choose|p: int| 0 <= p < sources@.len() && sources@[p] == a;
                assert(sources@[p] == from || slot_index(sources@[p]) != slot_index(from));
            }
        }
        self.connections.targets_of(from).len() < MAX_CONNECTIONS_PER_OUTPUT
    }

    /// The input slots output slot `from` drives, in connection order.
    pub fn targets_of(&self, from: ValueKey) -> (v: Vec<ValueKey>)
        requires
            self.wf(),
        ensures
            v@ == self.targets(from),
    {
        if !key_form(from) {
            return Vec::new();
        }
        self.connections.targets_of(from)
    }

    /// Connects output slot `from` to input slot `to`. The processing order
    /// has to be worked out again.
    pub fn connect(&mut self, from: ValueKey, to: ValueKey)
        requires
            old(self).wf(),
            is_key(from),
            is_key(to),
            fits(old(self).links(), from),
            old(self).targets(from).len() < MAX_CONNECTIONS_PER_OUTPUT,
        ensures
            final(self).wf(),
            final(self).links() == old(self).links().insert(from, old(self).targets(from).push(to)),
            final(self).targets(from) == old(self).targets(from).push(to),
            forall|f: ValueKey| f != from ==> #[trigger] final(self).targets(f) == old(self).targets(f),
            final(self).nodes() == old(self).nodes(),
            final(self).values() == old(self).values(),
            final(self).owner() == old(self).owner(),
            final(self).kinds() == old(self).kinds(),
            final(self).ramps() == old(self).ramps(),
            final(self).dirty(),
    {
        let ghost g0 = *self;
        self.connections.connect(from, to);
        self.topology_dirty = true;
        proof {
            assert(self.kinds() == g0.kinds() && self.ramps() == g0.ramps());
            self.lemma_tables_within(&g0);
            self.lemma_wf_frame(&g0);
        }
    }

    /// Removes the connections from `from` to `to`; true when there was
    /// one, and then the processing order has to be worked out again.
    pub fn disconnect(&mut self, from: ValueKey, to: ValueKey) -> (removed: bool)
        requires
            old(self).wf(),
        ensures
            final(self).wf(),
            removed == old(self).targets(from).contains(to),
            final(self).targets(from) == old(self).targets(from).filter(not_equal(to)),
            forall|f: ValueKey| f != from ==> #[trigger] final(self).targets(f) == old(self).targets(f),
            final(self).nodes() == old(self).nodes(),
            final(self).values() == old(self).values(),
            final(self).owner() == old(self).owner(),
            final(self).kinds() == old(self).kinds(),
            final(self).ramps() == old(self).ramps(),
            final(self).dirty() == (old(self).dirty() || removed),
            !removed ==> final(self).links() == old(self).links(),
    {
        let ghost g0 = *self;
        if !key_form(from) {
            assert(g0.targets(from).filter(not_equal(to)) =~= Seq::<ValueKey>::empty());
            return false;
        }
        let removed = self.connections.disconnect(from, to);
        if removed {
            self.topology_dirty = true;
        }
        proof {
            assert(self.kinds() == g0.kinds() && self.ramps() == g0.ramps());
            self.lemma_tables_within(&g0);
            self.lemma_wf_frame(&g0);
        }
        removed
    }

    /// Removes every connection from `from`; true when there was one, and
    /// then the processing order has to be worked out again.
    pub fn disconnect_all_from(&mut self, from: ValueKey) -> (removed: bool)
        requires
            old(self).wf(),
        ensures
            final(self).wf(),
            removed == (old(self).targets(from).len() > 0),
            final(self).targets(from).len() == 0,
            forall|f: ValueKey| f != from ==> #[trigger] final(self).targets(f) == old(self).targets(f),
            final(self).links() == old(self).links().remove(from),
            final(self).nodes() == old(self).nodes(),
            final(self).values() == old(self).values(),
            final(self).owner() == old(self).owner(),
            final(self).kinds() == old(self).kinds(),
            final(self).ramps() == old(self).ramps(),
            final(self).dirty() == (old(self).dirty() || removed),
    {
        let ghost g0 = *self;
        if !key_form(from) {
            assert(g0.links().remove(from) =~= g0.links());
            return false;
        }
        let removed = self.connections.disconnect_all_from(from);
        if removed {
            self.topology_dirty = true;
        } else {
            assert(self.links() =~= g0.links());
        }
        proof {
            assert(self.kinds() == g0.kinds() && self.ramps() == g0.ramps());
            self.lemma_tables_within(&g0);
            self.lemma_wf_frame(&g0);
        }
        removed
    }

    /// The value of slot `key`, if there is such a slot.
    pub fn value_of(&self, key: ValueKey) -> (r: Option<u32>)
        requires
            self.wf(),
        ensures
            r == self.values().get(key),
    {
        if !key_form(key) {
            return None;
        }
        get_value(&self.values, key)
    }

    /// The value of output `endpoint`, if there is such a slot.
    pub fn get_value(&self, endpoint: &OutputEndpoint) -> (r: Option<u32>)
        requires
            self.wf(),
        ensures
            r == self.values().get(endpoint.key()),
    {
        self.value_of(endpoint.key())
    }

    /// The kind (stream, value or event) recorded for slot `key`, if there
    /// is such a slot.
    pub fn endpoint_type(&self, key: ValueKey) -> (r: Option<EndpointType>)
        requires
            self.wf(),
        ensures
            r == self.kinds().get(key),
    {
        if !key_form(key) {
            return None;
        }
        match get_kind(&self.endpoint_types, key) {
            Some(t) => Some(*t),
            None => None,
        }
    }

    /// Gives value input `key` the value `initial`, ending any ramp of it.
    /// `None`, with nothing changed, when there is no such slot or the slot
    /// is a stream or event endpoint.
    pub fn insert_value_input(&mut self, key: ValueKey, initial: u32) -> (r: Option<ValueKey>)
        requires
            old(self).wf(),
        ensures
            final(self).wf(),
            final(self).same_structure(&*old(self)),
            final(self).kinds() == old(self).kinds(),
            r == (if old(self).is_value_input(key) {
                Some(key)
            } else {
                None
            }),
            r is Some ==> old(self).values().contains_key(key) && final(self).values() == old(self).values().insert(
                key,
                initial,
            ) && final(self).ramps() == old(self).ramps().remove(key),
            r is None ==> final(self).values() == old(self).values() && final(self).ramps() == old(
                self,
            ).ramps(),
    {
        let ghost g0 = *self;
        if !self.is_value_kind(key) {
            return None;
        }
        proof {
            assert(g0.kinds().contains_key(key));
            assert(g0.values().contains_key(key));
            g0.lemma_slot_fits(g0.kinds(), key);
        }
        let _ = set_value_at(&mut self.values, key, initial);
        insert_kind(&mut self.endpoint_types, key, EndpointType::Value);
        self.ramps.cancel(key);
        proof {
            assert(self.kinds() =~= g0.kinds());
            assert forall|a: ValueKey| #[trigger] self.values().contains_key(a) implies is_key(a) && fits(self.values(), a) by {
                assert(g0.values().contains_key(a));
                assert forall|b: ValueKey| #[trigger] self.values().contains_key(b) && slot_index(b) == slot_index(a) implies b
                    == a by {
                    assert(g0.values().contains_key(b));
                }
            }
            assert forall|k: ValueKey| #[trigger] self.ramps().contains_key(k) implies g0.values().contains_key(k) by {
                assert(g0.ramps().contains_key(k));
            }
            assert(self.values().dom() =~= g0.values().dom());
            self.lemma_wf_frame(&g0);
        }
        Some(key)
    }

    fn is_value_kind(&self, key: ValueKey) -> (r: bool)
        requires
            self.wf(),
        ensures
            r == self.is_value_input(key),
    {
        if !key_form(key) {
            return false;
        }
        match get_kind(&self.endpoint_types, key) {
            Some(EndpointType::Value) => true,
            _ => false,
        }
    }

    /// Sets value input `key` to `value` at once, ending any ramp of it.
    /// Slots that are not value inputs are left alone.
    pub fn set_value(&mut self, key: ValueKey, value: u32)
        requires
            old(self).wf(),
        ensures
            final(self).wf(),
            final(self).same_structure(&*old(self)),
            final(self).kinds() == old(self).kinds(),
            final(self).values() == (if old(self).is_value_input(key) && old(self).values().contains_key(key) {
                old(self).values().insert(key, value)
            } else {
                old(self).values()
            }),
            final(self).ramps() == (if old(self).is_value_input(key) {
                old(self).ramps().remove(key)
            } else {
                old(self).ramps()
            }),
    {
        let ghost g0 = *self;
        if self.is_value_kind(key) {
            let _ = set_value_at(&mut self.values, key, value);
            proof {
                assert forall|a: ValueKey| #[trigger] self.values().contains_key(a) implies is_key(a) && fits(self.values(), a) by {
                    assert(g0.values().contains_key(a));
                    assert forall|b: ValueKey| #[trigger] self.values().contains_key(b) && slot_index(b) == slot_index(a) implies b
                        == a by {
                        assert(g0.values().contains_key(b));
                    }
                }
            }
            self.ramps.cancel(key);
            proof {
                assert forall|k: ValueKey| #[trigger] self.kinds().contains_key(k) implies g0.values().contains_key(k) by {
                    assert(g0.kinds().contains_key(k));
                }
                assert forall|k: ValueKey| #[trigger] self.ramps().contains_key(k) implies g0.values().contains_key(k) by {
                    assert(g0.ramps().contains_key(k));
                }
                assert(self.values().dom() =~= g0.values().dom());
                self.lemma_wf_frame(&g0);
            }
        }
    }

    /// Moves value input `key` towards `target` over `ramp_samples` samples
    /// by `step` per sample (the caller works `step` out from the slot's
    /// current value as (target - current) / ramp_samples); a ramp of no
    /// samples sets the value at once. Slots that are not value inputs are
    /// left alone.
    pub fn set_value_with_ramp(&mut self, key: ValueKey, target: u32, step: u32, ramp_samples: u32)
        requires
            old(self).wf(),
        ensures
            final(self).wf(),
            final(self).same_structure(&*old(self)),
            final(self).kinds() == old(self).kinds(),
            !old(self).is_value_input(key) ==> final(self).values() == old(self).values() && final(self).ramps()
                == old(self).ramps(),
            old(self).is_value_input(key) && ramp_samples == 0 ==> final(self).values() == (if old(self).values().contains_key(key) {
                old(self).values().insert(key, target)
            } else {
                old(self).values()
            }) && final(self).ramps() == old(self).ramps().remove(key),
            old(self).is_value_input(key) && ramp_samples > 0 ==> final(self).values() == old(self).values()
                && final(self).ramps() == old(self).ramps().insert(
                key,
                ActiveRamp { key, step, remaining: ramp_samples, target },
            ),
    {
        let ghost g0 = *self;
        if !self.is_value_kind(key) {
            return;
        }
        if ramp_samples == 0 {
            self.set_value(key, target);
            return;
        }
        proof {
            assert(g0.kinds().contains_key(key));
            assert(g0.values().contains_key(key));
            g0.lemma_slot_fits(g0.ramps(), key);
        }
        self.ramps.start(key, step, ramp_samples, target);
        proof {
            assert forall|k: ValueKey| #[trigger] self.kinds().contains_key(k) implies g0.values().contains_key(k) by {
                assert(g0.kinds().contains_key(k));
            }
            assert forall|k: ValueKey| #[trigger] self.ramps().contains_key(k) implies g0.values().contains_key(k) by {
                if k != key {
                    assert(g0.ramps().contains_key(k));
                }
            }
            self.lemma_wf_frame(&g0);
        }
    }

    /// Writes one ramp step to slot `u.key`: `stepped` (the slot's value
    /// moved by `u.step`), or the target when the ramp ended.
    pub fn apply_ramp(&mut self, u: RampUpdate, stepped: u32)
        requires
            old(self).wf(),
        ensures
            final(self).wf(),
            final(self).same_structure(&*old(self)),
            final(self).kinds() == old(self).kinds(),
            final(self).ramps() == old(self).ramps(),
            final(self).values() == (if old(self).values().contains_key(u.key) {
                old(self).values().insert(
                    u.key,
                    match u.finish {
                        Some(t) => t,
                        None => stepped,
                    },
                )
            } else {
                old(self).values()
            }),
    {
        let ghost g0 = *self;
        if !key_form(u.key) {
            return;
        }
        let v = match u.finish {
            Some(t) => t,
            None => stepped,
        };
        let _ = set_value_at(&mut self.values, u.key, v);
        proof {
            assert forall|k: ValueKey| #[trigger] self.kinds().contains_key(k) implies g0.values().contains_key(k) by {
                assert(g0.kinds().contains_key(k));
            }
            assert forall|k: ValueKey| #[trigger] self.ramps().contains_key(k) implies g0.values().contains_key(k) by {
                assert(g0.ramps().contains_key(k));
            }
            assert(self.values().dom() =~= g0.values().dom());
            self.lemma_wf_frame(&g0);
        }
    }
}

impl GraphState {
    /// The keys of the nodes, once each, with their feedback flags.
    fn listed_nodes(&self) -> (r: (Vec<NodeKey>, Vec<bool>))
        requires
            self.wf(),
        ensures
            lists_nodes(r.0@, r.1@, self.nodes()),
    {
        let keys = node_keys_of(&self.nodes);
        let mut flags: Vec<bool> = Vec::new();
        let mut i: usize = 0;
        while i < keys.len()
            invariant
                self.wf(),
                keys@.no_duplicates(),
                forall|x: NodeKey| #[trigger] keys@.contains(x) <==> self.nodes().contains_key(x),
                0 <= i <= keys@.len(),
                flags@.len() == i,
                forall|j: int| 0 <= j < i ==> flags@[j] == self.nodes()[#[trigger] keys@[j]].allows_feedback,
            decreases keys@.len() - i,
        {
            let k = keys[i];
            proof {
                assert(keys@.contains(k)) by {
                    assert(keys@[i as int] == k);
                }
            }
            let f = match get_node(&self.nodes, k) {
                Some(n) => n.allows_feedback,
                None => false,
            };
            flags.push(f);
            i += 1;
        }
        (keys, flags)
    }

    /// Brings the processing order up to date when the structure changed
    /// since it was last worked out. Succeeds exactly when every cycle of
    /// feeding nodes has a node allowing feedback; then the order lists
    /// every node once, each after the nodes feeding it (except after nodes
    /// allowing feedback). Otherwise it names a node on a cycle without one
    /// and leaves the old order in place.
    pub fn validate(&mut self) -> (r: Result<(), GraphError>)
        requires
            old(self).wf(),
        ensures
            final(self).wf(),
            final(self).nodes() == old(self).nodes(),
            final(self).links() == old(self).links(),
            forall|f: ValueKey| #[trigger] final(self).targets(f) == old(self).targets(f),
            final(self).owner() == old(self).owner(),
            final(self).values() == old(self).values(),
            final(self).kinds() == old(self).kinds(),
            final(self).ramps() == old(self).ramps(),
            r is Ok <==> !has_graph_feed_cycle(old(self).nodes(), old(self).links(), old(self).owner()),
            match r {
                Ok(()) => !final(self).dirty() && orders_graph(
                    final(self).nodes(),
                    final(self).links(),
                    final(self).owner(),
                    final(self).order(),
                ),
                Err(GraphError::CycleDetected(path)) => path@.len() == 1 && on_graph_feed_cycle(
                    old(self).nodes(),
                    old(self).links(),
                    old(self).owner(),
                    path@[0],
                ) && final(self).dirty() && final(self).order() == old(self).order(),
            },
    {
        let ghost g0 = *self;
        if self.topology_dirty {
            let (keys, flags) = self.listed_nodes();
            proof {
                self.lemma_sources_owned(keys@);
                lemma_listed_graph(keys@, flags@, self.nodes(), self.links(), self.owner());
            }
            match node_processing_order(keys, &self.connections, &self.value_to_node, &flags) {
                Ok(order) => {
                    self.node_order = order;
                    self.topology_dirty = false;
                    proof {
                        assert(self.kinds() == g0.kinds() && self.ramps() == g0.ramps());
                        self.lemma_tables_within(&g0);
                        assert(self.values().dom() == g0.values().dom());
                        self.lemma_wf_frame(&g0);
                    }
                    Ok(())
                },
                Err(e) => Err(e),
            }
        } else {
            proof {
                lemma_processing_order_excludes_feed_cycles(
                    self.nodes(),
                    self.links(),
                    self.owner(),
                    self.order(),
                );
            }
            Ok(())
        }
    }

    /// The processing order last worked out.
    pub fn get_node_order(&self) -> (v: Vec<NodeKey>)
        ensures
            v@ == self.order(),
    {
        self.node_order.clone()
    }

    /// Begins a frame of processing: brings the processing order up to date
    /// (as [`validate`](Self::validate) does) and, when that succeeds,
    /// advances every ramp by one sample, returning one update per ramping
    /// slot for the caller to apply with [`apply_ramp`](Self::apply_ramp).
    pub fn start_frame(&mut self) -> (r: Result<Vec<RampUpdate>, GraphError>)
        requires
            old(self).wf(),
        ensures
            final(self).wf(),
            final(self).nodes() == old(self).nodes(),
            final(self).links() == old(self).links(),
            forall|f: ValueKey| #[trigger] final(self).targets(f) == old(self).targets(f),
            final(self).owner() == old(self).owner(),
            final(self).values() == old(self).values(),
            final(self).kinds() == old(self).kinds(),
            r is Ok <==> !has_graph_feed_cycle(old(self).nodes(), old(self).links(), old(self).owner()),
            match r {
                Ok(updates) => {
                    &&& !final(self).dirty()
                    &&& orders_graph(
                        final(self).nodes(),
                        final(self).links(),
                        final(self).owner(),
                        final(self).order(),
                    )
                    &&& final(self).ramps() == tick_all(old(self).ramps())
                    &&& forall|j: int|
                        0 <= j < updates@.len() ==> old(self).ramps().contains_key(
                            #[trigger] updates@[j].key,
                        ) && updates@[j] == update_of(old(self).ramps()[updates@[j].key])
                    &&& forall|k: ValueKey|
                        old(self).ramps().contains_key(k) ==> exists|j: int|
                            0 <= j < updates@.len() && #[trigger] updates@[j].key == k
                    &&& forall|a: int, b: int|
                        0 <= a < b < updates@.len() ==> updates@[a].key != updates@[b].key
                },
                Err(GraphError::CycleDetected(path)) => path@.len() == 1 && on_graph_feed_cycle(
                    old(self).nodes(),
                    old(self).links(),
                    old(self).owner(),
                    path@[0],
                ) && final(self).dirty() && final(self).order() == old(self).order()
                    && final(self).ramps() == old(self).ramps(),
            },
    {
        match self.validate() {
            Ok(()) => {
                let ghost mid = *self;
                let updates = self.ramps.advance();
                proof {
                    assert forall|k: ValueKey| #[trigger] self.ramps().contains_key(k) implies mid.values().contains_key(k) by {
                        assert(mid.ramps().contains_key(k));
                    }
                    assert forall|k: ValueKey| #[trigger] self.kinds().contains_key(k) implies mid.values().contains_key(k) by {
                        assert(mid.kinds().contains_key(k));
                    }
                    self.lemma_wf_frame(&mid);
                }
                Ok(updates)
            },
            Err(e) => Err(e),
        }
    }
}


impl GraphState {
    /// Input slot `index` of `node`, if the node exists and has that many inputs.
    pub fn get_input(&self, node: NodeKey, index: usize) -> (r: Option<ValueKey>)
        requires
            self.wf(),
        ensures
            r == (if self.has_node(node) && index < self.inputs_of(node).len() {
                Some(self.inputs_of(node)[index as int])
            } else {
                None
            }),
    {
        if !key_form(node) {
            return None;
        }
        match get_node(&self.nodes, node) {
            Some(n) => {
                if index < n.inputs.len() {
                    Some(n.inputs[index])
                } else {
                    None
                }
            },
            None => None,
        }
    }

    /// Output slot `index` of `node`, if the node exists and has that many outputs.
    pub fn get_node_output(&self, node: NodeKey, index: usize) -> (r: Option<ValueKey>)
        requires
            self.wf(),
        ensures
            r == (if self.has_node(node) && index < self.outputs_of(node).len() {
                Some(self.outputs_of(node)[index as int])
            } else {
                None
            }),
    {
        if !key_form(node) {
            return None;
        }
        match get_node(&self.nodes, node) {
            Some(n) => {
                if index < n.outputs.len() {
                    Some(n.outputs[index])
                } else {
                    None
                }
            },
            None => None,
        }
    }

    /// The values of the input slots of `node`, in order: what the node
    /// reads when it is processed, with 0 for an event input (whose payload
    /// travels apart from slot values). `None` when there is no such node.
    pub fn node_input_values(&self, node: NodeKey) -> (r: Option<Vec<u32>>)
        requires
            self.wf(),
        ensures
            match r {
                Some(v) => self.has_node(node) && v@.len() == self.inputs_of(node).len() && forall|i: int|
                    0 <= i < v@.len() ==> #[trigger] v@[i] == input_reading(self.nodes()[node], self.values(), i),
                None => !self.has_node(node),
            },
    {
        if !key_form(node) {
            return None;
        }
        match get_node(&self.nodes, node) {
            Some(n) => {
                let ghost ns = *n;
                let ghost ins = n.inputs@;
                let mut v: Vec<u32> = Vec::new();
                let mut j: usize = 0;
                while j < n.inputs.len()
                    invariant
                        self.wf(),
                        self.nodes().contains_key(node),
                        ns == self.nodes()[node],
                        *n == ns,
                        ins == n.inputs@,
                        0 <= j <= ins.len(),
                        v@.len() == j,
                        forall|i: int| 0 <= i < j ==> #[trigger] v@[i] == input_reading(ns, self.values(), i),
                    decreases ins.len() - j,
                {
                    let k = n.inputs[j];
                    proof {
                        assert(ins.contains(k)) by {
                            assert(ins[j as int] == k);
                        }
                        assert(self.nodes()[node].inputs@.contains(k));
                        assert(self.values().contains_key(k));
                    }
                    let is_event = j < n.input_kinds.len() && match n.input_kinds[j] {
                        EndpointType::Event => true,
                        _ => false,
                    };
                    let x = if is_event {
                        0
                    } else {
                        match get_value(&self.values, k) {
                            Some(x) => x,
                            None => 0,
                        }
                    };
                    v.push(x);
                    j += 1;
                }
                Some(v)
            },
            None => None,
        }
    }

    /// Stores `value` in output slot `o` and in every slot connected to it
    /// (slots no longer there are skipped).
    fn write_output(&mut self, o: ValueKey, value: u32)
        requires
            old(self).wf(),
            is_key(o),
        ensures
            final(self).wf(),
            final(self).same_structure(&*old(self)),
            final(self).kinds() == old(self).kinds(),
            final(self).ramps() == old(self).ramps(),
            final(self).values() == overwrite(old(self).values(), o, old(self).targets(o), value),
    {
        let ghost g0 = *self;
        let _ = set_value_at(&mut self.values, o, value);
        let targets = self.connections.targets_of(o);
        let mut j: usize = 0;
        while j < targets.len()
            invariant
                g0.wf(),
                self.nodes == g0.nodes,
                self.connections == g0.connections,
                self.value_to_node == g0.value_to_node,
                self.node_order == g0.node_order,
                self.topology_dirty == g0.topology_dirty,
                self.endpoint_types == g0.endpoint_types,
                self.ramps == g0.ramps,
                self.events == g0.events,
                targets@ == g0.targets(o),
                is_key(o),
                0 <= j <= targets@.len(),
                self.values() == overwrite(g0.values(), o, targets@.subrange(0, j as int), value),
            decreases targets@.len() - j,
        {
            let t = targets[j];
            proof {
                if g0.links().contains_key(o) {
                    assert(targets_wf(g0.links()));
                    assert(g0.links()[o][j as int] == t);
                } else {
                    assert(targets@.len() == 0);
                }
            }
            let ghost before = self.values();
            let _ = set_value_at(&mut self.values, t, value);
            proof {
                let prev = targets@.subrange(0, j as int);
                let next = targets@.subrange(0, j + 1);
                assert(next =~= prev.push(t));
                lemma_push_contains(prev, t);
                assert(self.values() =~= overwrite(g0.values(), o, next, value));
            }
            j += 1;
        }
        proof {
            assert(targets@.subrange(0, j as int) =~= targets@);
            assert(self.values().dom() =~= g0.values().dom());
            assert(self.kinds() == g0.kinds() && self.ramps() == g0.ramps());
            self.lemma_tables_within(&g0);
            self.lemma_wf_frame(&g0);
        }
    }

    /// Stores the results of processing `node`: its stream outputs, in
    /// order, take `outputs[0]`, `outputs[1]`, ...; each one whose result is
    /// `Some(v)` gets `v`, in its own slot and in every slot connected to
    /// it, while the others, and outputs of other kinds, are left alone. An
    /// unknown node changes nothing.
    pub fn route_output(&mut self, node: NodeKey, outputs: &Vec<Option<u32>>)
        requires
            old(self).wf(),
        ensures
            final(self).wf(),
            final(self).same_structure(&*old(self)),
            final(self).kinds() == old(self).kinds(),
            final(self).ramps() == old(self).ramps(),
            final(self).values() == (if old(self).has_node(node) {
                routed(
                    old(self).values(),
                    old(self).nodes()[node],
                    old(self).links(),
                    outputs@,
                    old(self).nodes()[node].output_kinds@.len() as int,
                )
            } else {
                old(self).values()
            }),
    {
        let ghost g0 = *self;
        if !key_form(node) {
            return;
        }
        let (outs, kinds) = match get_node(&self.nodes, node) {
            Some(n) => (n.outputs.clone(), n.output_kinds.clone()),
            None => {
                return;
            },
        };
        let ghost ns = g0.nodes()[node];
        let mut rank: usize = 0;
        let mut j: usize = 0;
        while j < kinds.len()
            invariant
                self.wf(),
                g0.nodes().contains_key(node),
                ns == g0.nodes()[node],
                outs@ == ns.outputs@,
                kinds@ == ns.output_kinds@,
                0 <= j <= kinds@.len(),
                rank == stream_rank(kinds@, j as int),
                rank <= j,
                self.same_structure(&g0),
                self.kinds() == g0.kinds(),
                self.ramps() == g0.ramps(),
                self.values() == routed(g0.values(), ns, g0.links(), outputs@, j as int),
            decreases kinds@.len() - j,
        {
            let is_stream = match kinds[j] {
                EndpointType::Stream => true,
                _ => false,
            };
            let ghost before = *self;
            if is_stream {
                if rank < outputs.len() && j < outs.len() {
                    match outputs[rank] {
                        Some(v) => {
                            proof {
                                assert(outs@.contains(outs@[j as int]));
                                assert(g0.outputs_of(node).contains(outs@[j as int]));
                                assert(self.nodes() == g0.nodes());
                                assert(self.values().contains_key(outs@[j as int]));
                            }
                            self.write_output(outs[j], v);
                            proof {
                                assert(before.targets(outs@[j as int]) == g0.targets(outs@[j as int]));
                            }
                        },
                        None => {},
                    }
                }
                rank += 1;
            }
            j += 1;
        }
    }
}

impl GraphState {
    /// Removes every connection from the slots `outputs`.
    fn disconnect_outputs(&mut self, outputs: &Vec<ValueKey>)
        requires
            old(self).connections.wf(),
            forall|k: ValueKey| #[trigger] outputs@.contains(k) ==> is_key(k),
        ensures
            final(self).connections.wf(),
            forall|f: ValueKey| #[trigger] final(self).targets(f) == (if outputs@.contains(f) {
                Seq::<ValueKey>::empty()
            } else {
                old(self).targets(f)
            }),
            final(self).nodes == old(self).nodes,
            final(self).values == old(self).values,
            final(self).endpoint_types == old(self).endpoint_types,
            final(self).node_order == old(self).node_order,
            final(self).topology_dirty == old(self).topology_dirty,
            final(self).value_to_node == old(self).value_to_node,
            final(self).ramps == old(self).ramps,
            final(self).events == old(self).events,
    {
        let ghost g0 = *self;
        let mut j: usize = 0;
        while j < outputs.len()
            invariant
                self.connections.wf(),
                forall|k: ValueKey| #[trigger] outputs@.contains(k) ==> is_key(k),
                0 <= j <= outputs@.len(),
                forall|f: ValueKey| #[trigger] self.targets(f) == (if outputs@.subrange(0, j as int).contains(f) {
                    Seq::<ValueKey>::empty()
                } else {
                    g0.targets(f)
                }),
                self.nodes == g0.nodes,
                self.values == g0.values,
                self.endpoint_types == g0.endpoint_types,
                self.node_order == g0.node_order,
                self.topology_dirty == g0.topology_dirty,
                self.value_to_node == g0.value_to_node,
                self.ramps == g0.ramps,
                self.events == g0.events,
            decreases outputs@.len() - j,
        {
            let out = outputs[j];
            proof {
                assert(outputs@.contains(out)) by {
                    assert(outputs@[j as int] == out);
                }
            }
            let ghost before = *self;
            let _ = self.connections.disconnect_all_from(out);
            proof {
                let prev = outputs@.subrange(0, j as int);
                let next = outputs@.subrange(0, j + 1);
                assert(next =~= prev.push(out));
                lemma_push_contains(prev, out);
                assert forall|f: ValueKey| #[trigger] self.targets(f) == (if next.contains(f) {
                    Seq::<ValueKey>::empty()
                } else {
                    g0.targets(f)
                }) by {
                    if f == out {
                        assert(self.targets(f) =~= Seq::<ValueKey>::empty());
                    } else {
                        assert(self.targets(f) == before.targets(f));
                    }
                }
            }
            j += 1;
        }
        assert(outputs@.subrange(0, j as int) =~= outputs@);
    }

    /// Removes every connection into the slots `inputs`.
    fn remove_incoming_all(&mut self, inputs: &Vec<ValueKey>)
        requires
            old(self).connections.wf(),
        ensures
            final(self).connections.wf(),
            forall|f: ValueKey| #[trigger] final(self).targets(f) == old(self).targets(f).filter(not_in(inputs@)),
            final(self).nodes == old(self).nodes,
            final(self).values == old(self).values,
            final(self).endpoint_types == old(self).endpoint_types,
            final(self).node_order == old(self).node_order,
            final(self).topology_dirty == old(self).topology_dirty,
            final(self).value_to_node == old(self).value_to_node,
            final(self).ramps == old(self).ramps,
            final(self).events == old(self).events,
    {
        let ghost g0 = *self;
        let mut j: usize = 0;
        proof {
            assert forall|f: ValueKey| #[trigger] self.targets(f) == g0.targets(f).filter(
                not_in(inputs@.subrange(0, 0)),
            ) by {
                assert(inputs@.subrange(0, 0) =~= Seq::<ValueKey>::empty());
                lemma_filter_not_in_empty(g0.targets(f));
            }
        }
        while j < inputs.len()
            invariant
                self.connections.wf(),
                0 <= j <= inputs@.len(),
                forall|f: ValueKey| #[trigger] self.targets(f) == g0.targets(f).filter(
                    not_in(inputs@.subrange(0, j as int)),
                ),
                self.nodes == g0.nodes,
                self.values == g0.values,
                self.endpoint_types == g0.endpoint_types,
                self.node_order == g0.node_order,
                self.topology_dirty == g0.topology_dirty,
                self.value_to_node == g0.value_to_node,
                self.ramps == g0.ramps,
                self.events == g0.events,
            decreases inputs@.len() - j,
        {
            let t = inputs[j];
            let ghost before = *self;
            self.connections.remove_incoming_edges(t);
            proof {
                let prev = inputs@.subrange(0, j as int);
                assert(inputs@.subrange(0, j + 1) =~= prev.push(t));
                assert forall|f: ValueKey| #[trigger] self.targets(f) == g0.targets(f).filter(
                    not_in(inputs@.subrange(0, j + 1)),
                ) by {
                    assert(self.targets(f) == before.targets(f).filter(not_equal(t)));
                    lemma_filter_not_in_push(g0.targets(f), prev, t);
                }
            }
            j += 1;
        }
        assert(inputs@.subrange(0, j as int) =~= inputs@);
    }

    /// Drops the slots `slots`: their values, kinds, owners and ramps.
    fn release_slots(&mut self, slots: &Vec<ValueKey>)
        requires
            old(self).ramps.wf(),
            forall|k: ValueKey| #[trigger] slots@.contains(k) ==> is_key(k),
        ensures
            final(self).ramps.wf(),
            forall|k: ValueKey| #[trigger] final(self).values().contains_key(k) <==> old(self).values().contains_key(k) && !slots@.contains(k),
            forall|k: ValueKey| #[trigger] final(self).values().contains_key(k) ==> final(self).values()[k] == old(self).values()[k],
            forall|k: ValueKey| #[trigger] final(self).owner().contains_key(k) <==> old(self).owner().contains_key(k) && !slots@.contains(k),
            forall|k: ValueKey| #[trigger] final(self).owner().contains_key(k) ==> final(self).owner()[k] == old(self).owner()[k],
            forall|k: ValueKey| #[trigger] final(self).kinds().contains_key(k) <==> old(self).kinds().contains_key(k) && !slots@.contains(k),
            forall|k: ValueKey| #[trigger] final(self).kinds().contains_key(k) ==> final(self).kinds()[k] == old(self).kinds()[k],
            forall|k: ValueKey| #[trigger] final(self).ramps().contains_key(k) <==> old(self).ramps().contains_key(k) && !slots@.contains(k),
            forall|k: ValueKey| #[trigger] final(self).ramps().contains_key(k) ==> final(self).ramps()[k] == old(self).ramps()[k],
            forall|k: ValueKey| #[trigger] final(self).events().contains_key(k) <==> old(self).events().contains_key(k) && !slots@.contains(k),
            forall|k: ValueKey| #[trigger] final(self).events().contains_key(k) ==> final(self).events()[k] == old(self).events()[k],
            final(self).nodes == old(self).nodes,
            final(self).connections == old(self).connections,
            final(self).node_order == old(self).node_order,
            final(self).topology_dirty == old(self).topology_dirty,
    {
        let ghost g0 = *self;
        let mut j: usize = 0;
        while j < slots.len()
            invariant
                self.ramps.wf(),
                forall|k: ValueKey| #[trigger] slots@.contains(k) ==> is_key(k),
                0 <= j <= slots@.len(),
                forall|k: ValueKey| #[trigger] self.values().contains_key(k) <==> g0.values().contains_key(k) && !slots@.subrange(0, j as int).contains(k),
                forall|k: ValueKey| #[trigger] self.values().contains_key(k) ==> self.values()[k] == g0.values()[k],
                forall|k: ValueKey| #[trigger] self.owner().contains_key(k) <==> g0.owner().contains_key(k) && !slots@.subrange(0, j as int).contains(k),
                forall|k: ValueKey| #[trigger] self.owner().contains_key(k) ==> self.owner()[k] == g0.owner()[k],
                forall|k: ValueKey| #[trigger] self.kinds().contains_key(k) <==> g0.kinds().contains_key(k) && !slots@.subrange(0, j as int).contains(k),
                forall|k: ValueKey| #[trigger] self.kinds().contains_key(k) ==> self.kinds()[k] == g0.kinds()[k],
                forall|k: ValueKey| #[trigger] self.ramps().contains_key(k) <==> g0.ramps().contains_key(k) && !slots@.subrange(0, j as int).contains(k),
                forall|k: ValueKey| #[trigger] self.ramps().contains_key(k) ==> self.ramps()[k] == g0.ramps()[k],
                forall|k: ValueKey| #[trigger] self.events().contains_key(k) <==> g0.events().contains_key(k) && !slots@.subrange(0, j as int).contains(k),
                forall|k: ValueKey| #[trigger] self.events().contains_key(k) ==> self.events()[k] == g0.events()[k],
                self.nodes == g0.nodes,
                self.connections == g0.connections,
                self.node_order == g0.node_order,
                self.topology_dirty == g0.topology_dirty,
            decreases slots@.len() - j,
        {
            let k = slots[j];
            proof {
                assert(slots@.contains(k)) by {
                    assert(slots@[j as int] == k);
                }
            }
            let ghost v_before = self.values();
            let ghost o_before = self.owner();
            let ghost k_before = self.kinds();
            let ghost r_before = self.ramps();
            let ghost e_before = self.events();
            self.ramps.cancel(k);
            let _ = remove_value(&mut self.values, k);
            remove_kind(&mut self.endpoint_types, k);
            remove_owner(&mut self.value_to_node, k);
            remove_events(&mut self.events, k);
            proof {
                assert(self.events() == e_before.remove(k));
                assert(self.values() == v_before.remove(k));
                assert(self.owner() == o_before.remove(k));
                assert(self.kinds() == k_before.remove(k));
                assert(self.ramps() == r_before.remove(k));
                let prev = slots@.subrange(0, j as int);
                let next = slots@.subrange(0, j + 1);
                assert(next =~= prev.push(k));
                lemma_push_contains(prev, k);
            }
            j += 1;
        }
        assert(slots@.subrange(0, j as int) =~= slots@);
    }
}


impl GraphState {
    /// Whether `k` is one of the slots of `node`.
    pub open spec fn is_slot_of(&self, node: NodeKey, k: ValueKey) -> bool {
        self.inputs_of(node).contains(k) || self.outputs_of(node).contains(k)
    }

    /// What is left after `node` and its slots leave `old` keeps the invariant.
    proof fn lemma_wf_after_removal(&self, old: &Self, node: NodeKey)
        requires
            old.wf(),
            old.has_node(node),
            self.connections.wf(),
            self.ramps.wf(),
            self.dirty(),
            self.nodes() == old.nodes().remove(node),
            forall|k: ValueKey| #[trigger] self.values().contains_key(k) <==> old.values().contains_key(k)
                && !old.is_slot_of(node, k),
            forall|k: ValueKey| #[trigger] self.owner().contains_key(k) <==> old.owner().contains_key(k)
                && !old.is_slot_of(node, k),
            forall|k: ValueKey| #[trigger] self.owner().contains_key(k) ==> self.owner()[k] == old.owner()[k],
            forall|k: ValueKey| #[trigger] self.kinds().contains_key(k) <==> old.kinds().contains_key(k)
                && !old.is_slot_of(node, k),
            forall|k: ValueKey| #[trigger] self.ramps().contains_key(k) <==> old.ramps().contains_key(k)
                && !old.is_slot_of(node, k),
            forall|k: ValueKey| #[trigger] self.kinds().contains_key(k) ==> self.kinds()[k] == old.kinds()[k],
            forall|k: ValueKey| #[trigger] self.events().contains_key(k) <==> old.events().contains_key(k)
                && !old.is_slot_of(node, k),
            forall|k: ValueKey| #[trigger] self.events().contains_key(k) ==> self.events()[k] == old.events()[k],
        ensures
            self.wf(),
    {
        assert forall|k: ValueKey| #[trigger] self.events().contains_key(k) <==> self.kinds().contains_key(k)
            && self.kinds()[k] is Event by {
            assert(old.events().contains_key(k) <==> old.kinds().contains_key(k) && old.kinds()[k] is Event);
            assert(self.kinds().contains_key(k) <==> old.kinds().contains_key(k) && !old.is_slot_of(node, k));
            if self.kinds().contains_key(k) {
                assert(self.kinds()[k] == old.kinds()[k]);
            }
        }
        assert forall|k: ValueKey| #[trigger] self.events().contains_key(k) implies self.events()[k].len() <= MAX_EVENTS by {
            assert(old.events().contains_key(k));
        }
        assert(self.values().dom() =~= old.values().dom().filter(|k: ValueKey| !old.is_slot_of(node, k)));
        assert(self.nodes().dom() =~= old.nodes().dom().remove(node));
        assert forall|n: NodeKey, k: ValueKey|
            self.nodes().contains_key(n) && #[trigger] self.nodes()[n].inputs@.contains(k) implies self.values().contains_key(k)
            && self.owner().contains_key(k) && self.owner()[k] == n by {
            assert(old.nodes()[n].inputs@.contains(k));
            if old.inputs_of(node).contains(k) {
                assert(old.nodes()[node].inputs@.contains(k));
            }
            if old.outputs_of(node).contains(k) {
                assert(old.nodes()[node].outputs@.contains(k));
            }
        }
        assert forall|n: NodeKey, k: ValueKey|
            self.nodes().contains_key(n) && #[trigger] self.nodes()[n].outputs@.contains(k) implies self.values().contains_key(k)
            && self.owner().contains_key(k) && self.owner()[k] == n by {
            assert(old.nodes()[n].outputs@.contains(k));
            if old.inputs_of(node).contains(k) {
                assert(old.nodes()[node].inputs@.contains(k));
            }
            if old.outputs_of(node).contains(k) {
                assert(old.nodes()[node].outputs@.contains(k));
            }
        }
        assert forall|k: ValueKey| #[trigger] self.owner().contains_key(k) implies self.values().contains_key(k)
            && self.nodes().contains_key(self.owner()[k]) && (
            self.nodes()[self.owner()[k]].inputs@.contains(k)
                || self.nodes()[self.owner()[k]].outputs@.contains(k)) by {
            assert(old.owner().contains_key(k));
            let n = old.owner()[k];
            assert(old.nodes().contains_key(n));
            if n == node {
                assert(old.is_slot_of(node, k));
            }
        }
        assert forall|k: ValueKey| #[trigger] self.kinds().contains_key(k) implies self.values().contains_key(k) by {
            assert(old.kinds().contains_key(k));
        }
        assert forall|k: ValueKey| #[trigger] self.ramps().contains_key(k) implies self.values().contains_key(k) by {
            assert(old.ramps().contains_key(k));
        }
        assert forall|k: ValueKey| #[trigger] self.values().contains_key(k) implies is_key(k) && fits(self.values(), k) by {
            assert(old.values().contains_key(k));
            assert forall|a: ValueKey| #[trigger] self.values().contains_key(a) && slot_index(a) == slot_index(k) implies a
                == k by {
                assert(old.values().contains_key(a));
            }
        }
        assert forall|n: NodeKey| #[trigger] self.nodes().contains_key(n) implies is_key(n) by {
            assert(old.nodes().contains_key(n));
        }
    }

    /// Removes `node`: its slots with their values, kinds and ramps, the
    /// connections from its outputs and into its inputs, and its place in
    /// the processing order, which then has to be worked out again. False,
    /// with nothing changed, when there is no such node.
    pub fn remove_node(&mut self, node: NodeKey) -> (removed: bool)
        requires
            old(self).wf(),
        ensures
            final(self).wf(),
            removed == old(self).has_node(node),
            !removed ==> final(self).same_structure(&*old(self)) && final(self).values() == old(
                self,
            ).values() && final(self).kinds() == old(self).kinds() && final(self).ramps() == old(
                self,
            ).ramps(),
            removed ==> {
                &&& final(self).nodes() == old(self).nodes().remove(node)
                &&& forall|k: ValueKey|
                    #[trigger] final(self).values().contains_key(k) <==> old(self).values().contains_key(k)
                        && !old(self).is_slot_of(node, k)
                &&& forall|k: ValueKey|
                    #[trigger] final(self).values().contains_key(k) ==> final(self).values()[k] == old(
                        self,
                    ).values()[k]
                &&& forall|k: ValueKey|
                    #[trigger] final(self).owner().contains_key(k) <==> old(self).owner().contains_key(k)
                        && !old(self).is_slot_of(node, k)
                &&& forall|k: ValueKey|
                    #[trigger] final(self).owner().contains_key(k) ==> final(self).owner()[k] == old(
                        self,
                    ).owner()[k]
                &&& forall|k: ValueKey|
                    #[trigger] final(self).kinds().contains_key(k) <==> old(self).kinds().contains_key(k)
                        && !old(self).is_slot_of(node, k)
                &&& forall|k: ValueKey|
                    #[trigger] final(self).kinds().contains_key(k) ==> final(self).kinds()[k] == old(
                        self,
                    ).kinds()[k]
                &&& forall|k: ValueKey|
                    #[trigger] final(self).ramps().contains_key(k) <==> old(self).ramps().contains_key(k)
                        && !old(self).is_slot_of(node, k)
                &&& forall|k: ValueKey|
                    #[trigger] final(self).ramps().contains_key(k) ==> final(self).ramps()[k] == old(
                        self,
                    ).ramps()[k]
                &&& forall|f: ValueKey|
                    #[trigger] final(self).targets(f) == (if old(self).outputs_of(node).contains(f) {
                        Seq::<ValueKey>::empty()
                    } else {
                        old(self).targets(f).filter(not_in(old(self).inputs_of(node)))
                    })
                &&& final(self).order() == old(self).order().filter(|k: NodeKey| k != node)
                &&& final(self).dirty()
            },
            forall|f: ValueKey| #[trigger] final(self).links().contains_key(f) <==> final(self).targets(f).len() > 0,
    {
        let ghost g0 = *self;
        if !key_form(node) {
            proof {
                self.lemma_connection_lists_nonempty();
            }
            return false;
        }
        let slots = match remove_node_entry(&mut self.nodes, node) {
            Some(n) => n,
            None => {
                proof {
                    assert(self.nodes() =~= g0.nodes());
                    assert(self.kinds() == g0.kinds() && self.ramps() == g0.ramps());
                    self.lemma_tables_within(&g0);
                    self.lemma_wf_frame(&g0);
                    self.lemma_connection_lists_nonempty();
                }
                return false;
            },
        };
        proof {
            assert(slots == g0.nodes()[node]);
            assert forall|k: ValueKey| #[trigger] slots.outputs@.contains(k) implies is_key(k) by {
                assert(g0.values().contains_key(k));
            }
            assert forall|k: ValueKey| #[trigger] slots.inputs@.contains(k) implies is_key(k) by {
                assert(g0.values().contains_key(k));
            }
        }
        self.node_order = all_but(&self.node_order, node);
        self.disconnect_outputs(&slots.outputs);
        self.remove_incoming_all(&slots.inputs);
        let ghost s2 = *self;
        self.release_slots(&slots.inputs);
        let ghost mid = *self;
        self.release_slots(&slots.outputs);
        let ghost s3 = *self;
        self.topology_dirty = true;
        proof {
            assert(slots.inputs@ == g0.inputs_of(node) && slots.outputs@ == g0.outputs_of(node));
            assert(s2.values() == g0.values() && s2.owner() == g0.owner());
            assert(s2.kinds() == g0.kinds() && s2.ramps() == g0.ramps());
            assert(self.values() == s3.values() && self.owner() == s3.owner());
            assert(self.kinds() == s3.kinds() && self.ramps() == s3.ramps());
            lemma_drop_twice(g0.values(), mid.values(), s3.values(), slots.inputs@, slots.outputs@);
            lemma_drop_twice(g0.owner(), mid.owner(), s3.owner(), slots.inputs@, slots.outputs@);
            lemma_drop_twice(g0.kinds(), mid.kinds(), s3.kinds(), slots.inputs@, slots.outputs@);
            lemma_drop_twice(g0.ramps(), mid.ramps(), s3.ramps(), slots.inputs@, slots.outputs@);
            assert(s2.events() == g0.events() && self.events() == s3.events());
            lemma_drop_twice(g0.events(), mid.events(), s3.events(), slots.inputs@, slots.outputs@);
            self.lemma_wf_after_removal(&g0, node);
            self.lemma_connection_lists_nonempty();
            assert forall|f: ValueKey| #[trigger] self.targets(f) == (if g0.outputs_of(node).contains(f) {
                Seq::<ValueKey>::empty()
            } else {
                g0.targets(f).filter(not_in(g0.inputs_of(node)))
            }) by {
                assert(self.targets(f) == s2.targets(f));
                if g0.outputs_of(node).contains(f) {
                    assert(Seq::<ValueKey>::empty().filter(not_in(slots.inputs@)) =~= Seq::<ValueKey>::empty());
                }
            }
        }
        true
    }
}


impl GraphState {
    /// The invariant carries over to a state that differs only in the
    /// queues, whose slots stay those of the event slots and whose lengths
    /// stay within the capacity.
    proof fn lemma_wf_events(&self, other: &Self)
        requires
            other.wf(),
            self.nodes == other.nodes,
            self.values == other.values,
            self.connections == other.connections,
            self.endpoint_types == other.endpoint_types,
            self.node_order == other.node_order,
            self.topology_dirty == other.topology_dirty,
            self.value_to_node == other.value_to_node,
            self.ramps == other.ramps,
            self.events().dom() == other.events().dom(),
            forall|k: ValueKey| #[trigger] self.events().contains_key(k) ==> self.events()[k].len() <= MAX_EVENTS,
        ensures
            self.wf(),
    {
        assert(self.nodes() == other.nodes() && self.values() == other.values());
        assert(self.links() == other.links() && self.owner() == other.owner());
        assert(self.kinds() == other.kinds() && self.ramps() == other.ramps());
        assert(self.order() == other.order() && self.dirty() == other.dirty());
        assert forall|k: ValueKey| #[trigger] self.events().contains_key(k) <==> self.kinds().contains_key(k)
            && self.kinds()[k] is Event by {
            assert(self.events().contains_key(k) <==> other.events().contains_key(k));
        }
    }

    /// Appends `e` to the queue of slot `k`, when it has one with room.
    fn push_event_at(&mut self, k: ValueKey, e: EventId)
        requires
            old(self).wf(),
        ensures
            final(self).wf(),
            final(self).nodes == old(self).nodes,
            final(self).values == old(self).values,
            final(self).connections == old(self).connections,
            final(self).endpoint_types == old(self).endpoint_types,
            final(self).node_order == old(self).node_order,
            final(self).topology_dirty == old(self).topology_dirty,
            final(self).value_to_node == old(self).value_to_node,
            final(self).ramps == old(self).ramps,
            final(self).events() == with_event(old(self).events(), k, e),
    {
        let ghost g0 = *self;
        if !key_form(k) {
            proof {
                if g0.events().contains_key(k) {
                    assert(g0.kinds().contains_key(k));
                    assert(g0.values().contains_key(k));
                }
            }
            return;
        }
        match get_events(&self.events, k) {
            Some(q) => {
                if q.len() < MAX_EVENTS {
                    let mut q = q;
                    q.push(e);
                    proof {
                        assert forall|a: ValueKey| #[trigger] g0.events().contains_key(a) implies g0.values().contains_key(a) by {
                            assert(g0.kinds().contains_key(a));
                        }
                        assert(g0.events().contains_key(k));
                        assert(g0.kinds().contains_key(k));
                        g0.lemma_slot_fits(g0.events(), k);
                    }
                    set_events(&mut self.events, k, q);
                    proof {
                        assert(self.events().dom() =~= g0.events().dom());
                        self.lemma_wf_events(&g0);
                    }
                }
            },
            None => {},
        }
    }

    /// Empties the queue of slot `k`, when it has one.
    fn clear_events_at(&mut self, k: ValueKey)
        requires
            old(self).wf(),
        ensures
            final(self).wf(),
            final(self).nodes == old(self).nodes,
            final(self).values == old(self).values,
            final(self).connections == old(self).connections,
            final(self).endpoint_types == old(self).endpoint_types,
            final(self).node_order == old(self).node_order,
            final(self).topology_dirty == old(self).topology_dirty,
            final(self).value_to_node == old(self).value_to_node,
            final(self).ramps == old(self).ramps,
            final(self).events() == (if old(self).events().contains_key(k) {
                old(self).events().insert(k, Seq::empty())
            } else {
                old(self).events()
            }),
    {
        let ghost g0 = *self;
        if !key_form(k) {
            proof {
                if g0.events().contains_key(k) {
                    assert(g0.kinds().contains_key(k));
                    assert(g0.values().contains_key(k));
                }
            }
            return;
        }
        match get_events(&self.events, k) {
            Some(_) => {
                proof {
                    assert forall|a: ValueKey| #[trigger] g0.events().contains_key(a) implies g0.values().contains_key(a) by {
                        assert(g0.kinds().contains_key(a));
                    }
                    assert(g0.events().contains_key(k));
                    assert(g0.kinds().contains_key(k));
                    g0.lemma_slot_fits(g0.events(), k);
                }
                set_events(&mut self.events, k, Vec::new());
                proof {
                    assert(self.events().dom() =~= g0.events().dom());
                    self.lemma_wf_events(&g0);
                }
            },
            None => {},
        }
    }

    /// Queues event `e` on event input `key`; false, with nothing changed,
    /// when `key` is not an event slot or its queue is full.
    pub fn queue_event(&mut self, key: ValueKey, e: EventId) -> (accepted: bool)
        requires
            old(self).wf(),
        ensures
            final(self).wf(),
            final(self).same_structure(&*old(self)),
            final(self).values() == old(self).values(),
            final(self).kinds() == old(self).kinds(),
            final(self).ramps() == old(self).ramps(),
            accepted == (old(self).kinds().get(key) == Some(EndpointType::Event) && old(self).events()[key].len()
                < MAX_EVENTS),
            final(self).events() == (if accepted {
                old(self).events().insert(key, old(self).events()[key].push(e))
            } else {
                old(self).events()
            }),
    {
        let ghost g0 = *self;
        if !self.is_event_kind(key) {
            return false;
        }
        let n = match get_events(&self.events, key) {
            Some(q) => q.len(),
            None => {
                return false;
            },
        };
        if n < MAX_EVENTS {
            self.push_event_at(key, e);
            true
        } else {
            false
        }
    }

    fn is_event_kind(&self, key: ValueKey) -> (r: bool)
        requires
            self.wf(),
        ensures
            r == (self.kinds().get(key) == Some(EndpointType::Event)),
            r == self.events().contains_key(key),
            r ==> is_key(key),
    {
        if !key_form(key) {
            proof {
                if self.kinds().contains_key(key) {
                    assert(self.values().contains_key(key));
                }
                if self.events().contains_key(key) {
                    assert(self.kinds().contains_key(key));
                }
            }
            return false;
        }
        match get_kind(&self.endpoint_types, key) {
            Some(EndpointType::Event) => true,
            _ => false,
        }
    }

    /// The events queued on slot `key`, oldest first (none for a slot
    /// without a queue).
    pub fn events_at(&self, key: ValueKey) -> (r: Vec<EventId>)
        requires
            self.wf(),
        ensures
            r@ == (if self.events().contains_key(key) {
                self.events()[key]
            } else {
                Seq::<EventId>::empty()
            }),
    {
        if !self.is_event_kind(key) {
            return Vec::new();
        }
        match get_events(&self.events, key) {
            Some(q) => q,
            None => Vec::new(),
        }
    }

    /// Hands out the events queued on event slot `key`, oldest first, and
    /// empties its queue; nothing for a slot that is not an event slot.
    pub fn drain_events(&mut self, key: ValueKey) -> (d: Vec<EventId>)
        requires
            old(self).wf(),
        ensures
            final(self).wf(),
            final(self).same_structure(&*old(self)),
            final(self).values() == old(self).values(),
            final(self).kinds() == old(self).kinds(),
            final(self).ramps() == old(self).ramps(),
            d@ == (if old(self).events().contains_key(key) {
                old(self).events()[key]
            } else {
                Seq::<EventId>::empty()
            }),
            final(self).events() == (if old(self).events().contains_key(key) {
                old(self).events().insert(key, Seq::empty())
            } else {
                old(self).events()
            }),
    {
        let d = self.events_at(key);
        self.clear_events_at(key);
        d
    }

    /// Delivers the events a processed node emitted, then empties its event
    /// inputs. Each `(i, e)` of `pending`, in order, whose output `i` is an
    /// event output is appended to that output's queue and then to the queue
    /// of each slot the output drives (dropped where a queue is full); after
    /// that every event input of `node` has an empty queue. An unknown node
    /// changes nothing.
    pub fn route_events(&mut self, node: NodeKey, pending: &Vec<(usize, EventId)>)
        requires
            old(self).wf(),
        ensures
            final(self).wf(),
            final(self).same_structure(&*old(self)),
            final(self).values() == old(self).values(),
            final(self).kinds() == old(self).kinds(),
            final(self).ramps() == old(self).ramps(),
            final(self).events() == (if old(self).has_node(node) {
                inputs_cleared(
                    delivered(
                        old(self).events(),
                        old(self).nodes()[node],
                        old(self).links(),
                        pending@,
                        pending@.len() as int,
                    ),
                    old(self).nodes()[node],
                    old(self).nodes()[node].inputs@.len() as int,
                )
            } else {
                old(self).events()
            }),
            old(self).has_node(node) ==> forall|j: int|
                0 <= j < old(self).inputs_of(node).len() && j < old(self).nodes()[node].input_kinds@.len()
                    && old(self).nodes()[node].input_kinds@[j] is Event && #[trigger] final(self).events().contains_key(
                    old(self).inputs_of(node)[j],
                ) ==> final(self).events()[old(self).inputs_of(node)[j]].len() == 0,
    {
        let ghost g0 = *self;
        if !key_form(node) {
            return;
        }
        let (outs, out_kinds, ins, in_kinds) = match get_node(&self.nodes, node) {
            Some(n) => (n.outputs.clone(), n.output_kinds.clone(), n.inputs.clone(), n.input_kinds.clone()),
            None => {
                return;
            },
        };
        let ghost ns = g0.nodes()[node];
        let mut i: usize = 0;
        while i < pending.len()
            invariant
                self.wf(),
                g0.wf(),
                g0.nodes().contains_key(node),
                ns == g0.nodes()[node],
                outs@ == ns.outputs@,
                out_kinds@ == ns.output_kinds@,
                0 <= i <= pending@.len(),
                self.nodes == g0.nodes,
                self.values == g0.values,
                self.connections == g0.connections,
                self.endpoint_types == g0.endpoint_types,
                self.node_order == g0.node_order,
                self.topology_dirty == g0.topology_dirty,
                self.value_to_node == g0.value_to_node,
                self.ramps == g0.ramps,
                self.events() == delivered(g0.events(), ns, g0.links(), pending@, i as int),
            decreases pending@.len() - i,
        {
            let idx = pending[i].0;
            let e = pending[i].1;
            let is_event_output = idx < out_kinds.len() && idx < outs.len() && match out_kinds[idx] {
                EndpointType::Event => true,
                _ => false,
            };
            if is_event_output {
                let o = outs[idx];
                self.push_event_at(o, e);
                let ts = self.targets_of(o);
                let ghost start = self.events();
                let mut j: usize = 0;
                while j < ts.len()
                    invariant
                        self.wf(),
                        0 <= j <= ts@.len(),
                        ts@ == link_targets(g0.links(), o),
                        self.nodes == g0.nodes,
                        self.values == g0.values,
                        self.connections == g0.connections,
                        self.endpoint_types == g0.endpoint_types,
                        self.node_order == g0.node_order,
                        self.topology_dirty == g0.topology_dirty,
                        self.value_to_node == g0.value_to_node,
                        self.ramps == g0.ramps,
                        self.events() == with_event_all(start, ts@.subrange(0, j as int), e),
                    decreases ts@.len() - j,
                {
                    let t = ts[j];
                    self.push_event_at(t, e);
                    proof {
                        let next = ts@.subrange(0, j + 1);
                        assert(next.drop_last() =~= ts@.subrange(0, j as int));
                        assert(next.last() == t);
                    }
                    j += 1;
                }
                proof {
                    assert(ts@.subrange(0, j as int) =~= ts@);
                }
            }
            i += 1;
        }
        let ghost delivered_all = self.events();
        let mut j: usize = 0;
        while j < ins.len()
            invariant
                self.wf(),
                g0.nodes().contains_key(node),
                ns == g0.nodes()[node],
                ins@ == ns.inputs@,
                in_kinds@ == ns.input_kinds@,
                0 <= j <= ins@.len(),
                self.nodes == g0.nodes,
                self.values == g0.values,
                self.connections == g0.connections,
                self.endpoint_types == g0.endpoint_types,
                self.node_order == g0.node_order,
                self.topology_dirty == g0.topology_dirty,
                self.value_to_node == g0.value_to_node,
                self.ramps == g0.ramps,
                self.events() == inputs_cleared(delivered_all, ns, j as int),
            decreases ins@.len() - j,
        {
            let is_event_input = j < in_kinds.len() && match in_kinds[j] {
                EndpointType::Event => true,
                _ => false,
            };
            if is_event_input {
                self.clear_events_at(ins[j]);
            }
            j += 1;
        }
        proof {
            lemma_inputs_cleared(delivered_all, ns, ins@.len() as int);
        }
    }
}

} // verus!
