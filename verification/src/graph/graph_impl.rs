//! Node-level structure of a graph: which nodes feed which, derived from
//! the value-level connections, and the processing order of the nodes.
use super::topology::{
    allows_feedback_in, has_feedback_free_cycle, is_processing_order, on_feedback_free_cycle,
    topological_sort, TopologyError,
};
use super::connections::{targets_wf, Connections};
use super::slots::{get_owner, is_key, owner_entries, OwnerTable};
use super::{GraphError, NodeKey, ValueKey};
use vstd::prelude::*;

verus! {

broadcast use vstd::laws_eq::group_laws_eq;

/// Node `u` feeds node `v`: a value slot owned by `u` is connected to a
/// value slot owned by `v`.
pub open spec fn feeds(
    connections: Map<ValueKey, Seq<ValueKey>>,
    owner: Map<ValueKey, NodeKey>,
    u: NodeKey,
    v: NodeKey,
) -> bool {
    exists|f: ValueKey, j: int|
        connections.contains_key(f) && 0 <= j < connections[f].len() && owner.contains_key(f)
            && owner[f] == u && owner.contains_key(#[trigger] connections[f][j])
            && owner[connections[f][j]] == v
}

/// Like [`feeds`], over connections listed as (output, targets) entries.
pub open spec fn listed_feeds(
    connections: Seq<(ValueKey, Seq<ValueKey>)>,
    owner: Map<ValueKey, NodeKey>,
    u: NodeKey,
    v: NodeKey,
) -> bool {
    exists|c: int, j: int|
        0 <= c < connections.len() && 0 <= j < connections[c].1.len() && owner.contains_key(
            connections[c].0,
        ) && owner[connections[c].0] == u && owner.contains_key(
            #[trigger] connections[c].1[j],
        ) && owner[connections[c].1[j]] == v
}

/// Like [`listed_feeds`], over the first `c` connection entries and the
/// first `j` targets of entry `c`.
pub open spec fn feeds_within(
    connections: Seq<(ValueKey, Seq<ValueKey>)>,
    owner: Map<ValueKey, NodeKey>,
    c: int,
    j: int,
    u: NodeKey,
    v: NodeKey,
) -> bool {
    exists|cc: int, jj: int|
        0 <= cc <= c && cc < connections.len() && 0 <= jj < connections[cc].1.len() && (cc < c
            || jj < j) && owner.contains_key(connections[cc].0) && owner[connections[cc].0] == u
            && owner.contains_key(#[trigger] connections[cc].1[jj]) && owner[connections[cc].1[jj]]
            == v
}

fn list_contains(list: &Vec<NodeKey>, x: NodeKey) -> (r: bool)
    ensures
        r == list@.contains(x),
{
    let mut i: usize = 0;
    while i < list.len()
        invariant
            0 <= i <= list@.len(),
            forall|k: int| 0 <= k < i ==> list@[k] != x,
        decreases list@.len() - i,
    {
        if list[i] == x {
            return true;
        }
        i += 1;
    }
    false
}

fn index_of_node(nodes: &Vec<NodeKey>, x: NodeKey) -> (r: Option<usize>)
    ensures
        match r {
            Some(i) => i < nodes@.len() && nodes@[i as int] == x,
            None => !nodes@.contains(x),
        },
{
    let mut i: usize = 0;
    while i < nodes.len()
        invariant
            0 <= i <= nodes@.len(),
            forall|k: int| 0 <= k < i ==> nodes@[k] != x,
        decreases nodes@.len() - i,
    {
        if nodes[i] == x {
            return Some(i);
        }
        i += 1;
    }
    None
}

/// For each node of `nodes`, the distinct nodes it feeds, in the order the
/// connections list them. `connections` gives the input slots each output
/// slot drives; `owners` gives each slot's owner.
pub(crate) fn build_node_adjacency(
    nodes: &Vec<NodeKey>,
    connections: &Connections,
    owners: &OwnerTable,
) -> (adjacency: Vec<Vec<NodeKey>>)
    requires
        nodes@.no_duplicates(),
        connections.wf(),
        sources_owned_by_nodes(nodes@, connections.view(), owner_entries(*owners)),
    ensures
        adjacency@.len() == nodes@.len(),
        forall|i: int| 0 <= i < nodes@.len() ==> (#[trigger] adjacency@[i])@.no_duplicates(),
        forall|i: int, v: NodeKey|
            0 <= i < nodes@.len() ==> (#[trigger] adjacency@[i]@.contains(v) <==> feeds(
                connections.view(),
                owner_entries(*owners),
                nodes@[i],
                v,
            )),
{
    let n = nodes.len();
    let mut adjacency: Vec<Vec<NodeKey>> = Vec::with_capacity(n);
    let mut k: usize = 0;
    while k < n
        invariant
            k <= n == nodes@.len(),
            adjacency@.len() == k,
            forall|i: int| 0 <= i < k ==> (#[trigger] adjacency@[i])@.len() == 0,
        decreases n - k,
    {
        adjacency.push(Vec::new());
        k += 1;
    }
    let sources = connections.sources();
    let ghost m = connections.view();
    let ghost owner = owner_entries(*owners);
    let ghost conns = sources@.map_values(|f: ValueKey| (f, m[f]));
    proof {
        assert forall|cc: int|
            0 <= cc < conns.len() && owner.contains_key((#[trigger] conns[cc]).0) implies nodes@.contains(
            owner[conns[cc].0],
        ) by {
            assert(sources@.contains(sources@[cc]));
            assert(m.contains_key(conns[cc].0));
        }
    }
    let mut c: usize = 0;
    while c < sources.len()
        invariant
            n == nodes@.len(),
            nodes@.no_duplicates(),
            m == connections.view(),
            targets_wf(m),
            owner == owner_entries(*owners),
            conns == sources@.map_values(|f: ValueKey| (f, m[f])),
            forall|f: ValueKey| #[trigger] sources@.contains(f) <==> m.contains_key(f),
            0 <= c <= conns.len(),
            adjacency@.len() == n,
            forall|cc: int|
                0 <= cc < conns.len() && owner.contains_key((#[trigger] conns[cc]).0)
                    ==> nodes@.contains(owner[conns[cc].0]),
            forall|i: int| 0 <= i < n ==> (#[trigger] adjacency@[i])@.no_duplicates(),
            forall|i: int, v: NodeKey|
                0 <= i < n ==> (#[trigger] adjacency@[i]@.contains(v) <==> feeds_within(
                    conns,
                    owner,
                    c as int,
                    0,
                    nodes@[i],
                    v,
                )),
        decreases conns.len() - c,
    {
        let from_value = sources[c];
        proof {
            assert(conns[c as int] == (from_value, m[from_value]));
            assert(sources@.contains(from_value)) by {
                assert(sources@[c as int] == from_value);
            }
            assert(m.contains_key(from_value));
        }
        match get_owner(owners, from_value) {
            Some(from_node) => {
                let i = match index_of_node(nodes, from_node) {
                    Some(i) => i,
                    None => {
                        assert(nodes@.contains(owner[conns[c as int].0]));
                        return adjacency;
                    },
                };
                let targets = connections.targets_of(from_value);
                let n_targets = targets.len();
                let mut j: usize = 0;
                while j < n_targets
                    invariant
                        n == nodes@.len(),
                        nodes@.no_duplicates(),
                        targets_wf(m),
                        m.contains_key(from_value),
                        owner == owner_entries(*owners),
                        0 <= c < conns.len(),
                        conns[c as int] == (from_value, m[from_value]),
                        targets@ == m[from_value],
                        n_targets == conns[c as int].1.len(),
                        0 <= j <= n_targets,
                        i < n,
                        nodes@[i as int] == from_node,
                        owner.contains_key(conns[c as int].0),
                        owner[conns[c as int].0] == from_node,
                        adjacency@.len() == n,
                        forall|ii: int| 0 <= ii < n ==> (#[trigger] adjacency@[ii])@.no_duplicates(),
                        forall|ii: int, v: NodeKey|
                            0 <= ii < n ==> (#[trigger] adjacency@[ii]@.contains(v) <==> feeds_within(
                                conns,
                                owner,
                                c as int,
                                j as int,
                                nodes@[ii],
                                v,
                            )),
                    decreases n_targets - j,
                {
                    let to_value = targets[j];
                    assert(is_key(to_value));
                    let ghost adj0 = adjacency@;
                    match get_owner(owners, to_value) {
                        Some(to_node) => {
                            if !list_contains(&adjacency[i], to_node) {
                                adjacency[i].push(to_node);
                            }
                        },
                        None => {},
                    }
                    proof {
                        lemma_feeds_within_step(conns, owner, c as int, j as int);
                        assert forall|ii: int, v: NodeKey|
                            0 <= ii < n implies (#[trigger] adjacency@[ii]@.contains(v)
                            <==> feeds_within(conns, owner, c as int, j + 1, nodes@[ii], v)) by {
                            if ii != i {
                                assert(adjacency@[ii] == adj0[ii]);
                                assert(nodes@[ii] != from_node);
                            } else if owner.contains_key(to_value) {
                                lemma_push_if_absent(adj0[ii]@, owner[to_value], v);
                            }
                        }
                        assert forall|ii: int| 0 <= ii < n implies (#[trigger] adjacency@[ii])@.no_duplicates() by {
                            if ii != i {
                                assert(adjacency@[ii] == adj0[ii]);
                            } else if owner.contains_key(to_value) {
                                lemma_push_if_absent(adj0[ii]@, owner[to_value], owner[to_value]);
                            }
                        }
                    }
                    j += 1;
                }
                proof {
                    lemma_feeds_within_next_entry(conns, owner, c as int);
                }
            },
            None => {
                proof {
                    lemma_feeds_within_skip_entry(conns, owner, c as int);
                }
            },
        }
        c += 1;
    }
    proof {
        assert forall|i: int, v: NodeKey|
            0 <= i < n implies (#[trigger] adjacency@[i]@.contains(v) <==> feeds(
                m,
                owner,
                nodes@[i],
                v,
            )) by {
            if feeds(m, owner, nodes@[i], v) {
                let (f, jj) = choose|f: ValueKey, jj: int|
                    m.contains_key(f) && 0 <= jj < m[f].len() && owner.contains_key(f) && owner[f]
                        == nodes@[i] && owner.contains_key(#[trigger] m[f][jj]) && owner[m[f][jj]]
                        == v;
                assert(sources@.contains(f));
                let cc = choose|cc: int| 0 <= cc < sources@.len() && sources@[cc] == f;
                assert(conns[cc] == (f, m[f]));
                assert(owner.contains_key(conns[cc].1[jj]));
                assert(feeds_within(conns, owner, c as int, 0, nodes@[i], v));
            }
            if adjacency@[i]@.contains(v) {
                let (cc, jj) = choose|cc: int, jj: int|
                    0 <= cc <= c && cc < conns.len() && 0 <= jj < conns[cc].1.len() && (cc < c
                        || jj < 0) && owner.contains_key(conns[cc].0) && owner[conns[cc].0]
                        == nodes@[i] && owner.contains_key(#[trigger] conns[cc].1[jj])
                        && owner[conns[cc].1[jj]] == v;
                let f = sources@[cc];
                assert(conns[cc] == (f, m[f]));
                assert(sources@.contains(f));
                assert(owner.contains_key(m[f][jj]));
            }
        }
    }
    adjacency
}

proof fn lemma_push_if_absent(s: Seq<NodeKey>, x: NodeKey, y: NodeKey)
    ensures
        (if s.contains(x) {
            s
        } else {
            s.push(x)
        }).contains(y) <==> (s.contains(y) || y == x),
        s.no_duplicates() ==> (if s.contains(x) {
            s
        } else {
            s.push(x)
        }).no_duplicates(),
{
    if !s.contains(x) {
        if s.contains(y) {
            let k = choose|k: int| 0 <= k < s.len() && s[k] == y;
            assert(s.push(x)[k] == y);
        }
        if s.push(x).contains(y) {
            let k = choose|k: int| 0 <= k < s.len() + 1 && #[trigger] s.push(x)[k] == y;
            if k < s.len() {
                assert(s[k] == y);
            }
        }
        assert(s.push(x)[s.len() as int] == x);
    }
}

proof fn lemma_feeds_within_step(
    conns: Seq<(ValueKey, Seq<ValueKey>)>,
    owner: Map<ValueKey, NodeKey>,
    c: int,
    j: int,
)
    requires
        0 <= c < conns.len(),
        0 <= j < conns[c].1.len(),
    ensures
        forall|u: NodeKey, v: NodeKey|
            #[trigger] feeds_within(conns, owner, c, j + 1, u, v) <==> (feeds_within(
                conns,
                owner,
                c,
                j,
                u,
                v,
            ) || (owner.contains_key(conns[c].0) && owner[conns[c].0] == u && owner.contains_key(
                conns[c].1[j],
            ) && owner[conns[c].1[j]] == v)),
{
    assert forall|u: NodeKey, v: NodeKey|
        #[trigger] feeds_within(conns, owner, c, j + 1, u, v) implies (feeds_within(
            conns,
            owner,
            c,
            j,
            u,
            v,
        ) || (owner.contains_key(conns[c].0) && owner[conns[c].0] == u && owner.contains_key(
            conns[c].1[j],
        ) && owner[conns[c].1[j]] == v)) by {
        let (cc, jj) = choose|cc: int, jj: int|
            0 <= cc <= c && cc < conns.len() && 0 <= jj < conns[cc].1.len() && (cc < c || jj < j
                + 1) && owner.contains_key(conns[cc].0) && owner[conns[cc].0] == u
                && owner.contains_key(#[trigger] conns[cc].1[jj]) && owner[conns[cc].1[jj]] == v;
        if cc < c || jj < j {
            assert(feeds_within(conns, owner, c, j, u, v));
        }
    }
    assert forall|u: NodeKey, v: NodeKey|
        (owner.contains_key(conns[c].0) && owner[conns[c].0] == u && owner.contains_key(
            conns[c].1[j],
        ) && owner[conns[c].1[j]] == v) implies #[trigger] feeds_within(
        conns,
        owner,
        c,
        j + 1,
        u,
        v,
    ) by {
        assert(owner.contains_key(conns[c].1[j]));
    }
    assert forall|u: NodeKey, v: NodeKey|
        feeds_within(conns, owner, c, j, u, v) implies #[trigger] feeds_within(
        conns,
        owner,
        c,
        j + 1,
        u,
        v,
    ) by {
        let (cc, jj) = choose|cc: int, jj: int|
            0 <= cc <= c && cc < conns.len() && 0 <= jj < conns[cc].1.len() && (cc < c || jj < j)
                && owner.contains_key(conns[cc].0) && owner[conns[cc].0] == u && owner.contains_key(
                #[trigger] conns[cc].1[jj],
            ) && owner[conns[cc].1[jj]] == v;
        assert(owner.contains_key(conns[cc].1[jj]));
    }
}

proof fn lemma_feeds_within_next_entry(
    conns: Seq<(ValueKey, Seq<ValueKey>)>,
    owner: Map<ValueKey, NodeKey>,
    c: int,
)
    requires
        0 <= c < conns.len(),
    ensures
        forall|u: NodeKey, v: NodeKey|
            #[trigger] feeds_within(conns, owner, c + 1, 0, u, v) <==> feeds_within(
                conns,
                owner,
                c,
                conns[c].1.len() as int,
                u,
                v,
            ),
{
    assert forall|u: NodeKey, v: NodeKey|
        #[trigger] feeds_within(conns, owner, c + 1, 0, u, v) implies feeds_within(
        conns,
        owner,
        c,
        conns[c].1.len() as int,
        u,
        v,
    ) by {
        let (cc, jj) = choose|cc: int, jj: int|
            0 <= cc <= c + 1 && cc < conns.len() && 0 <= jj < conns[cc].1.len() && (cc < c + 1
                || jj < 0) && owner.contains_key(conns[cc].0) && owner[conns[cc].0] == u
                && owner.contains_key(#[trigger] conns[cc].1[jj]) && owner[conns[cc].1[jj]] == v;
        assert(owner.contains_key(conns[cc].1[jj]));
    }
    assert forall|u: NodeKey, v: NodeKey|
        feeds_within(
            conns,
            owner,
            c,
            conns[c].1.len() as int,
            u,
            v,
        ) implies #[trigger] feeds_within(conns, owner, c + 1, 0, u, v) by {
        let (cc, jj) = choose|cc: int, jj: int|
            0 <= cc <= c && cc < conns.len() && 0 <= jj < conns[cc].1.len() && (cc < c || jj
                < conns[c].1.len()) && owner.contains_key(conns[cc].0) && owner[conns[cc].0] == u
                && owner.contains_key(#[trigger] conns[cc].1[jj]) && owner[conns[cc].1[jj]] == v;
        assert(owner.contains_key(conns[cc].1[jj]));
    }
}

proof fn lemma_feeds_within_skip_entry(
    conns: Seq<(ValueKey, Seq<ValueKey>)>,
    owner: Map<ValueKey, NodeKey>,
    c: int,
)
    requires
        0 <= c < conns.len(),
        !owner.contains_key(conns[c].0),
    ensures
        forall|u: NodeKey, v: NodeKey|
            #[trigger] feeds_within(conns, owner, c + 1, 0, u, v) <==> feeds_within(
                conns,
                owner,
                c,
                0,
                u,
                v,
            ),
{
    assert forall|u: NodeKey, v: NodeKey|
        #[trigger] feeds_within(conns, owner, c + 1, 0, u, v) implies feeds_within(
        conns,
        owner,
        c,
        0,
        u,
        v,
    ) by {
        let (cc, jj) = choose|cc: int, jj: int|
            0 <= cc <= c + 1 && cc < conns.len() && 0 <= jj < conns[cc].1.len() && (cc < c + 1
                || jj < 0) && owner.contains_key(conns[cc].0) && owner[conns[cc].0] == u
                && owner.contains_key(#[trigger] conns[cc].1[jj]) && owner[conns[cc].1[jj]] == v;
        assert(cc != c);
        assert(owner.contains_key(conns[cc].1[jj]));
    }
    assert forall|u: NodeKey, v: NodeKey|
        feeds_within(conns, owner, c, 0, u, v) implies #[trigger] feeds_within(
        conns,
        owner,
        c + 1,
        0,
        u,
        v,
    ) by {
        let (cc, jj) = choose|cc: int, jj: int|
            0 <= cc <= c && cc < conns.len() && 0 <= jj < conns[cc].1.len() && (cc < c || jj < 0)
                && owner.contains_key(conns[cc].0) && owner[conns[cc].0] == u && owner.contains_key(
                #[trigger] conns[cc].1[jj],
            ) && owner[conns[cc].1[jj]] == v;
        assert(owner.contains_key(conns[cc].1[jj]));
    }
}


/// The nodes of `nodes` that feed `v` according to `adjacency` (where
/// `adjacency[i]` lists what `nodes[i]` feeds), in node order.
pub open spec fn predecessors(
    nodes: Seq<NodeKey>,
    adjacency: Seq<Vec<NodeKey>>,
    v: NodeKey,
) -> Seq<NodeKey>
    decreases nodes.len(),
{
    if nodes.len() == 0 {
        seq![]
    } else {
        let rest = predecessors(nodes.drop_last(), adjacency, v);
        if adjacency[nodes.len() - 1]@.contains(v) {
            rest.push(nodes.last())
        } else {
            rest
        }
    }
}

/// Dependency lists of the nodes: each node depends on the nodes feeding it.
pub open spec fn graph_deps(nodes: Seq<NodeKey>, adjacency: Seq<Vec<NodeKey>>) -> Seq<
    Seq<NodeKey>,
> {
    Seq::new(nodes.len(), |k: int| predecessors(nodes, adjacency, nodes[k]))
}

proof fn lemma_predecessors(nodes: Seq<NodeKey>, adjacency: Seq<Vec<NodeKey>>, v: NodeKey, u: NodeKey)
    requires
        adjacency.len() >= nodes.len(),
    ensures
        predecessors(nodes, adjacency, v).contains(u) <==> exists|i: int|
            0 <= i < nodes.len() && nodes[i] == u && #[trigger] adjacency[i]@.contains(v),
    decreases nodes.len(),
{
    if nodes.len() > 0 {
        let rest = predecessors(nodes.drop_last(), adjacency, v);
        lemma_predecessors(nodes.drop_last(), adjacency, v, u);
        if rest.contains(u) {
            let i = choose|i: int|
                0 <= i < nodes.drop_last().len() && nodes.drop_last()[i] == u
                    && #[trigger] adjacency[i]@.contains(v);
            assert(nodes[i] == u);
            if adjacency[nodes.len() - 1]@.contains(v) {
                let k = choose|k: int| 0 <= k < rest.len() && rest[k] == u;
                assert(rest.push(nodes.last())[k] == u);
            }
        }
        if exists|i: int| 0 <= i < nodes.len() && nodes[i] == u && #[trigger] adjacency[i]@.contains(v) {
            let i = choose|i: int| 0 <= i < nodes.len() && nodes[i] == u && #[trigger] adjacency[i]@.contains(v);
            if i < nodes.len() - 1 {
                assert(nodes.drop_last()[i] == u);
                if adjacency[nodes.len() - 1]@.contains(v) {
                    let k = choose|k: int| 0 <= k < rest.len() && rest[k] == u;
                    assert(rest.push(nodes.last())[k] == u);
                }
            } else {
                assert(rest.push(nodes.last())[rest.len() as int] == u);
            }
        }
        if adjacency[nodes.len() - 1]@.contains(v) && rest.push(nodes.last()).contains(u) {
            let k = choose|k: int| 0 <= k < rest.len() + 1 && #[trigger] rest.push(nodes.last())[k] == u;
            if k < rest.len() {
                assert(rest[k] == u);
            }
        }
    }
}

/// A node of the graph depends on another exactly when the other feeds it:
/// the dependency lists used for ordering are the graph's edges reversed.
pub proof fn lemma_graph_deps_are_edges(
    nodes: Seq<NodeKey>,
    adjacency: Seq<Vec<NodeKey>>,
    u: NodeKey,
    v: NodeKey,
)
    requires
        adjacency.len() == nodes.len(),
    ensures
        super::topology::depends_on(nodes, graph_deps(nodes, adjacency), u, v) <==> (
        nodes.contains(v) && exists|i: int|
            0 <= i < nodes.len() && nodes[i] == u && #[trigger] adjacency[i]@.contains(v)),
{
    lemma_predecessors(nodes, adjacency, v, u);
    if super::topology::depends_on(nodes, graph_deps(nodes, adjacency), u, v) {
        let k = choose|k: int|
            0 <= k < nodes.len() && nodes[k] == v && #[trigger] graph_deps(nodes, adjacency)[k].contains(u);
        assert(nodes.contains(v));
    }
    if nodes.contains(v) && exists|i: int|
        0 <= i < nodes.len() && nodes[i] == u && #[trigger] adjacency[i]@.contains(v) {
        let k = choose|k: int| 0 <= k < nodes.len() && nodes[k] == v;
        assert(graph_deps(nodes, adjacency)[k] == predecessors(nodes, adjacency, v));
    }
}

/// Processing order of the graph's nodes: each node after the nodes feeding
/// it, except that nodes allowing feedback (`allows_feedback[i]` for
/// `nodes[i]`) do not constrain the nodes they feed. Fails with a node on a
/// cycle without such a node.
pub fn sort_nodes(
    nodes: Vec<NodeKey>,
    adjacency: &Vec<Vec<NodeKey>>,
    allows_feedback: &Vec<bool>,
) -> (r: Result<Vec<NodeKey>, GraphError>)
    requires
        nodes@.no_duplicates(),
        adjacency@.len() == nodes@.len(),
        allows_feedback@.len() == nodes@.len(),
    ensures
        match r {
            Ok(order) => !has_feedback_free_cycle(
                nodes@,
                graph_deps(nodes@, adjacency@),
                allows_feedback@,
            ) && is_processing_order(
                nodes@,
                graph_deps(nodes@, adjacency@),
                allows_feedback@,
                order@,
            ),
            Err(GraphError::CycleDetected(path)) => path@.len() == 1 && on_feedback_free_cycle(
                nodes@,
                graph_deps(nodes@, adjacency@),
                allows_feedback@,
                path@[0],
            ),
        },
{
    let ghost nodes0 = nodes@;
    let ghost adj0 = adjacency@;
    let node_list = &nodes;
    let get_dependencies = |node: &NodeKey| -> (deps: Vec<NodeKey>)
        requires
            node_list@.len() <= adjacency@.len(),
        ensures
            deps@ == predecessors(node_list@, adjacency@, *node),
        {
            let mut deps: Vec<NodeKey> = Vec::new();
            let mut i: usize = 0;
            while i < node_list.len()
                invariant
                    0 <= i <= node_list@.len() <= adjacency@.len(),
                    deps@ == predecessors(node_list@.subrange(0, i as int), adjacency@, *node),
                decreases node_list@.len() - i,
            {
                assert(node_list@.subrange(0, i + 1).drop_last() =~= node_list@.subrange(0, i as int));
                if list_contains(&adjacency[i], *node) {
                    deps.push(node_list[i]);
                }
                i += 1;
            }
            assert(node_list@.subrange(0, node_list@.len() as int) =~= node_list@);
            deps
        };
    let feedback_of = |node: &NodeKey| -> (f: bool)
        requires
            allows_feedback@.len() == node_list@.len(),
        ensures
            f == exists|k: int|
                0 <= k < node_list@.len() && node_list@[k] == *node && allows_feedback@[k],
        {
            match index_of_node(node_list, *node) {
                Some(k) => {
                    let f = allows_feedback[k];
                    if !f {
                        assert forall|k2: int|
                            0 <= k2 < node_list@.len() && node_list@[k2] == *node implies !allows_feedback@[k2] by {
                            assert(node_list@.no_duplicates());
                        }
                    }
                    f
                },
                None => false,
            }
        };
    let sorted = topological_sort(nodes.clone(), get_dependencies, feedback_of);
    proof {
        let (deps, flags) = choose|deps: Seq<Vec<NodeKey>>, flags: Seq<bool>|
            {
                &&& deps.len() == nodes0.len()
                &&& flags.len() == nodes0.len()
                &&& forall|i: int|
                    0 <= i < nodes0.len() ==> get_dependencies.ensures(
                        (&nodes0[i],),
                        #[trigger] deps[i],
                    )
                &&& forall|i: int|
                    0 <= i < nodes0.len() ==> feedback_of.ensures(
                        (&nodes0[i],),
                        #[trigger] flags[i],
                    )
                &&& super::topology::sort_result(nodes0, super::topology::list_views(deps), flags, sorted)
            };
        assert(super::topology::list_views(deps) =~= graph_deps(nodes0, adj0)) by {
            assert forall|i: int| 0 <= i < nodes0.len() implies super::topology::list_views(deps)[i]
                == graph_deps(nodes0, adj0)[i] by {
                assert(get_dependencies.ensures((&nodes0[i],), deps[i]));
            }
        }
        assert(flags =~= allows_feedback@) by {
            assert forall|i: int| 0 <= i < nodes0.len() implies flags[i] == allows_feedback@[i] by {
                assert(feedback_of.ensures((&nodes0[i],), flags[i]));
                if flags[i] {
                    let k = choose|k: int|
                        0 <= k < nodes0.len() && nodes0[k] == nodes0[i] && allows_feedback@[k];
                    assert(k == i);
                }
            }
        }
    }
    match sorted {
        Ok(order) => Ok(order),
        Err(TopologyError::CycleDetected { path }) => Err(GraphError::CycleDetected(path)),
    }
}


/// Node `u` feeds node `v` and both are nodes of the graph.
pub open spec fn node_feeds(
    nodes: Seq<NodeKey>,
    connections: Map<ValueKey, Seq<ValueKey>>,
    owner: Map<ValueKey, NodeKey>,
    u: NodeKey,
    v: NodeKey,
) -> bool {
    nodes.contains(u) && nodes.contains(v) && feeds(connections, owner, u, v)
}

/// `c` is a cycle of feeding nodes none of which allows feedback.
pub open spec fn is_feed_cycle(
    nodes: Seq<NodeKey>,
    connections: Map<ValueKey, Seq<ValueKey>>,
    owner: Map<ValueKey, NodeKey>,
    allows_feedback: Seq<bool>,
    c: Seq<NodeKey>,
) -> bool {
    &&& c.len() > 0
    &&& forall|j: int|
        0 <= j < c.len() ==> !allows_feedback_in(nodes, allows_feedback, #[trigger] c[j])
    &&& forall|j: int|
        0 <= j < c.len() - 1 ==> node_feeds(nodes, connections, owner, #[trigger] c[j], c[j + 1])
    &&& node_feeds(nodes, connections, owner, c.last(), c[0])
}

pub open spec fn has_feed_cycle(
    nodes: Seq<NodeKey>,
    connections: Map<ValueKey, Seq<ValueKey>>,
    owner: Map<ValueKey, NodeKey>,
    allows_feedback: Seq<bool>,
) -> bool {
    exists|c: Seq<NodeKey>| is_feed_cycle(nodes, connections, owner, allows_feedback, c)
}

pub open spec fn on_feed_cycle(
    nodes: Seq<NodeKey>,
    connections: Map<ValueKey, Seq<ValueKey>>,
    owner: Map<ValueKey, NodeKey>,
    allows_feedback: Seq<bool>,
    v: NodeKey,
) -> bool {
    exists|c: Seq<NodeKey>| is_feed_cycle(nodes, connections, owner, allows_feedback, c) && c[0] == v
}

/// `order` lists every node once, and every node that does not allow
/// feedback comes before each node it feeds.
pub open spec fn respects_feeds(
    nodes: Seq<NodeKey>,
    connections: Map<ValueKey, Seq<ValueKey>>,
    owner: Map<ValueKey, NodeKey>,
    allows_feedback: Seq<bool>,
    order: Seq<NodeKey>,
) -> bool {
    &&& order.no_duplicates()
    &&& forall|x: NodeKey| order.contains(x) <==> nodes.contains(x)
    &&& forall|i: int, j: int|
        0 <= i < order.len() && 0 <= j < order.len() && node_feeds(
            nodes,
            connections,
            owner,
            #[trigger] order[i],
            #[trigger] order[j],
        ) && !allows_feedback_in(nodes, allows_feedback, order[i]) ==> i < j
}

/// The owner of every connection source that has one is a node of the graph.
pub open spec fn sources_owned_by_nodes(
    nodes: Seq<NodeKey>,
    connections: Map<ValueKey, Seq<ValueKey>>,
    owner: Map<ValueKey, NodeKey>,
) -> bool {
    forall|f: ValueKey|
        #[trigger] connections.contains_key(f) && owner.contains_key(f) ==> nodes.contains(owner[f])
}

proof fn lemma_deps_are_feeds(
    nodes: Seq<NodeKey>,
    adjacency: Seq<Vec<NodeKey>>,
    connections: Map<ValueKey, Seq<ValueKey>>,
    owner: Map<ValueKey, NodeKey>,
    u: NodeKey,
    v: NodeKey,
)
    requires
        adjacency.len() == nodes.len(),
        forall|i: int, w: NodeKey|
            0 <= i < nodes.len() ==> (#[trigger] adjacency[i]@.contains(w) <==> feeds(
                connections,
                owner,
                nodes[i],
                w,
            )),
    ensures
        super::topology::depends_on(nodes, graph_deps(nodes, adjacency), u, v) <==> node_feeds(
            nodes,
            connections,
            owner,
            u,
            v,
        ),
{
    lemma_graph_deps_are_edges(nodes, adjacency, u, v);
    if node_feeds(nodes, connections, owner, u, v) {
        let i = choose|i: int| 0 <= i < nodes.len() && nodes[i] == u;
        assert(adjacency[i]@.contains(v));
    }
}

/// Processing order of a graph's nodes, from its connections and the owner
/// of each value slot: every node comes after the nodes feeding it, except
/// that nodes allowing feedback (`allows_feedback[i]` for `nodes[i]`) do not
/// constrain the nodes they feed. Fails, naming one of its nodes, exactly
/// when a cycle of feeding nodes has no node allowing feedback.
pub fn node_processing_order(
    nodes: Vec<NodeKey>,
    connections: &Connections,
    owners: &OwnerTable,
    allows_feedback: &Vec<bool>,
) -> (r: Result<Vec<NodeKey>, GraphError>)
    requires
        nodes@.no_duplicates(),
        allows_feedback@.len() == nodes@.len(),
        connections.wf(),
        sources_owned_by_nodes(nodes@, connections.view(), owner_entries(*owners)),
    ensures
        r is Ok <==> !has_feed_cycle(nodes@, connections.view(), owner_entries(*owners), allows_feedback@),
        match r {
            Ok(order) => respects_feeds(
                nodes@,
                connections.view(),
                owner_entries(*owners),
                allows_feedback@,
                order@,
            ),
            Err(GraphError::CycleDetected(path)) => path@.len() == 1 && on_feed_cycle(
                nodes@,
                connections.view(),
                owner_entries(*owners),
                allows_feedback@,
                path@[0],
            ),
        },
{
    let ghost ns = nodes@;
    let ghost conns = connections.view();
    let ghost owner = owner_entries(*owners);
    let ghost fb = allows_feedback@;
    let adjacency = build_node_adjacency(&nodes, connections, owners);
    let ghost adj = adjacency@;
    let ghost deps = graph_deps(ns, adj);
    proof {
        assert forall|i: int, w: NodeKey| 0 <= i < ns.len() implies (#[trigger] adj[i]@.contains(w)
            <==> feeds(conns, owner, ns[i], w)) by {}
        assert forall|u: NodeKey, v: NodeKey| #[trigger] super::topology::depends_on(ns, deps, u, v)
            <==> node_feeds(ns, conns, owner, u, v) by {
            lemma_deps_are_feeds(ns, adj, conns, owner, u, v);
        }
        assert forall|c: Seq<NodeKey>| #[trigger] is_feed_cycle(ns, conns, owner, fb, c)
            <==> super::topology::is_feedback_free_cycle(ns, deps, fb, c) by {
            if is_feed_cycle(ns, conns, owner, fb, c) {
                assert forall|j: int| 0 <= j < c.len() - 1 implies super::topology::depends_on(
                    ns,
                    deps,
                    #[trigger] c[j],
                    c[j + 1],
                ) by {
                    assert(node_feeds(ns, conns, owner, c[j], c[j + 1]));
                }
                assert(super::topology::depends_on(ns, deps, c.last(), c[0]));
            }
            if super::topology::is_feedback_free_cycle(ns, deps, fb, c) {
                assert forall|j: int| 0 <= j < c.len() - 1 implies node_feeds(
                    ns,
                    conns,
                    owner,
                    #[trigger] c[j],
                    c[j + 1],
                ) by {
                    assert(super::topology::depends_on(ns, deps, c[j], c[j + 1]));
                }
                assert(node_feeds(ns, conns, owner, c.last(), c[0]));
            }
        }
    }
    let r = sort_nodes(nodes, &adjacency, allows_feedback);
    proof {
        match &r {
            Ok(order) => {
                if has_feed_cycle(ns, conns, owner, fb) {
                    let c = choose|c: Seq<NodeKey>| is_feed_cycle(ns, conns, owner, fb, c);
                    assert(super::topology::is_feedback_free_cycle(ns, deps, fb, c));
                }
                assert forall|i: int, j: int|
                    0 <= i < order@.len() && 0 <= j < order@.len() && node_feeds(
                        ns,
                        conns,
                        owner,
                        #[trigger] order@[i],
                        #[trigger] order@[j],
                    ) && !allows_feedback_in(ns, fb, order@[i]) implies i < j by {
                    assert(super::topology::depends_on(ns, deps, order@[i], order@[j]));
                }
            },
            Err(GraphError::CycleDetected(path)) => {
                let c = choose|c: Seq<NodeKey>|
                    super::topology::is_feedback_free_cycle(ns, deps, fb, c) && c[0] == path@[0];
                assert(is_feed_cycle(ns, conns, owner, fb, c));
            },
        }
    }
    r
}

} // verus!
