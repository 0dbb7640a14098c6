//! Dependency ordering of graph nodes with feedback-aware cycle detection.
//!
//! A node `u` that another node `v` depends on must be processed before `v`,
//! unless `u` allows feedback (a delay line): the outgoing edges of
//! feedback-allowing nodes are ignored for ordering. A cycle is rejected
//! exactly when none of its nodes allows feedback.
use std::fmt::Debug;
use std::hash::Hash;
use vstd::prelude::*;
use vstd::pervasive::strictly_cloned;
use vstd::laws_eq::obeys_concrete_eq;

verus! {

/// Error of a dependency ordering.
#[derive(Debug, Clone, PartialEq, Eq)]
pub enum TopologyError<K> {
    /// A cycle none of whose nodes allows feedback.
    CycleDetected { path: Vec<K> },
}

// ---------------------------------------------------------------------------
// Directed graphs over positions `0..g.len()`, stored as successor lists.
// ---------------------------------------------------------------------------

/// Every successor listed in `g` is a position of `g`.
pub open spec fn graph_wf(g: Seq<Vec<usize>>) -> bool {
    forall|a: int, k: int|
        0 <= a < g.len() && 0 <= k < g[a]@.len() ==> (#[trigger] g[a]@[k]) < g.len()
}

/// `b` is listed as a successor of `a`.
pub open spec fn succ_edge(g: Seq<Vec<usize>>, a: usize, b: usize) -> bool {
    a < g.len() && g[a as int]@.contains(b)
}

/// Consecutive entries of `p` are joined by edges of `g`.
pub open spec fn is_walk(g: Seq<Vec<usize>>, p: Seq<usize>) -> bool {
    forall|j: int| 0 <= j < p.len() - 1 ==> succ_edge(g, #[trigger] p[j], p[j + 1])
}

/// `p` is a closed walk of `g` (a cycle): a non-empty walk whose last entry
/// has an edge back to its first.
pub open spec fn is_cycle(g: Seq<Vec<usize>>, p: Seq<usize>) -> bool {
    &&& p.len() > 0
    &&& is_walk(g, p)
    &&& succ_edge(g, p.last(), p[0])
}

/// `v` lies on some cycle of `g`.
pub open spec fn on_cycle(g: Seq<Vec<usize>>, v: usize) -> bool {
    exists|p: Seq<usize>| is_cycle(g, p) && p[0] == v
}

/// `p` is a cycle of `g` none of whose positions is marked.
pub open spec fn is_unmarked_cycle(g: Seq<Vec<usize>>, marks: Seq<bool>, p: Seq<usize>) -> bool {
    &&& is_cycle(g, p)
    &&& forall|j: int| 0 <= j < p.len() ==> p[j] < marks.len() && !marks[#[trigger] p[j] as int]
}

/// Number of `false` entries.
pub open spec fn count_unset(s: Seq<bool>) -> nat
    decreases s.len(),
{
    if s.len() == 0 {
        0
    } else {
        count_unset(s.drop_last()) + if s.last() {
            0nat
        } else {
            1nat
        }
    }
}

proof fn lemma_count_unset_monotone(a: Seq<bool>, b: Seq<bool>)
    requires
        a.len() == b.len(),
        forall|i: int| 0 <= i < a.len() && a[i] ==> b[i],
    ensures
        count_unset(b) <= count_unset(a),
    decreases a.len(),
{
    if a.len() > 0 {
        lemma_count_unset_monotone(a.drop_last(), b.drop_last());
    }
}

proof fn lemma_count_unset_set(a: Seq<bool>, i: int)
    requires
        0 <= i < a.len(),
        !a[i],
    ensures
        count_unset(a.update(i, true)) + 1 == count_unset(a),
    decreases a.len(),
{
    if i < a.len() - 1 {
        assert(a.update(i, true).drop_last() =~= a.drop_last().update(i, true));
        lemma_count_unset_set(a.drop_last(), i);
    } else {
        assert(a.update(i, true).drop_last() =~= a.drop_last());
    }
}

/// Every successor of the entry at position `k` of `s` occurs in `s` before
/// position `k` (the order in which a depth-first search finishes nodes).
pub open spec fn finished_after_successors(g: Seq<Vec<usize>>, s: Seq<usize>) -> bool {
    forall|k: int, j: int|
        0 <= k < s.len() && 0 <= j < g[s[k] as int]@.len() ==> s.subrange(0, k).contains(
            #[trigger] g[s[k] as int]@[j],
        )
}

/// State of a depth-first search over `g`: `stack` is the path of nodes
/// being explored, `sorted` the nodes already finished.
pub open spec fn dfs_inv(
    g: Seq<Vec<usize>>,
    visited: Seq<bool>,
    on_stack: Seq<bool>,
    sorted: Seq<usize>,
    stack: Seq<usize>,
) -> bool {
    &&& graph_wf(g)
    &&& visited.len() == g.len()
    &&& on_stack.len() == g.len()
    &&& forall|j: int| 0 <= j < stack.len() ==> #[trigger] stack[j] < g.len()
    &&& forall|v: usize| v < g.len() ==> (#[trigger] on_stack[v as int] <==> stack.contains(v))
    &&& forall|v: int| 0 <= v < g.len() && #[trigger] on_stack[v] ==> visited[v]
    &&& sorted.no_duplicates()
    &&& forall|j: int| 0 <= j < sorted.len() ==> #[trigger] sorted[j] < g.len()
    &&& forall|v: usize|
        v < g.len() ==> (#[trigger] sorted.contains(v) <==> (visited[v as int]
            && !on_stack[v as int]))
    &&& finished_after_successors(g, sorted)
    &&& is_walk(g, stack)
}

proof fn lemma_stack_cycle(g: Seq<Vec<usize>>, stack: Seq<usize>, node: usize)
    requires
        is_walk(g, stack),
        stack.contains(node),
        succ_edge(g, stack.last(), node),
    ensures
        on_cycle(g, node),
{
    let i = choose|i: int| 0 <= i < stack.len() && stack[i] == node;
    let p = stack.subrange(i, stack.len() as int);
    assert(is_walk(g, p)) by {
        assert forall|j: int| 0 <= j < p.len() - 1 implies succ_edge(g, #[trigger] p[j], p[j + 1]) by {
            assert(p[j] == stack[i + j] && p[j + 1] == stack[i + j + 1]);
        }
    }
    assert(p.last() == stack.last());
    assert(is_cycle(g, p) && p[0] == node);
}

/// Depth-first visit in the style of a recursive topological sort: finds a
/// cycle through a node on the current path, or finishes `node` after all of
/// its successors.
fn visit(
    node: usize,
    g: &Vec<Vec<usize>>,
    visited: &mut Vec<bool>,
    on_stack: &mut Vec<bool>,
    sorted: &mut Vec<usize>,
    Ghost(stack): Ghost<Seq<usize>>,
) -> (r: Result<(), usize>)
    requires
        dfs_inv(g@, old(visited)@, old(on_stack)@, old(sorted)@, stack),
        node < g@.len(),
        stack.len() == 0 || succ_edge(g@, stack.last(), node),
    ensures
        r is Ok ==> {
            &&& dfs_inv(g@, final(visited)@, final(on_stack)@, final(sorted)@, stack)
            &&& final(sorted)@.contains(node)
            &&& old(sorted)@.is_prefix_of(final(sorted)@)
            &&& forall|v: int| 0 <= v < g@.len() && old(visited)@[v] ==> final(visited)@[v]
        },
        r matches Err(w) ==> w < g@.len() && on_cycle(g@, w),
    decreases count_unset(old(visited)@),
{
    if on_stack[node] {
        proof {
            lemma_stack_cycle(g@, stack, node);
        }
        return Err(node);
    }
    if visited[node] {
        assert(sorted@.contains(node));
        assert(sorted@.is_prefix_of(sorted@));
        return Ok(());
    }
    let ghost visited0 = visited@;
    let ghost on_stack0 = on_stack@;
    visited[node] = true;
    on_stack[node] = true;
    let ghost new_stack = stack.push(node);
    proof {
        lemma_count_unset_set(visited0, node as int);
        assert(!stack.contains(node));
        assert forall|v: usize| v < g@.len() implies (#[trigger] on_stack@[v as int]
            <==> new_stack.contains(v)) by {
            if v == node {
                assert(new_stack[new_stack.len() - 1] == node);
            } else {
                assert(on_stack@[v as int] == on_stack0[v as int]);
                if stack.contains(v) {
                    let i = choose|i: int| 0 <= i < stack.len() && stack[i] == v;
                    assert(new_stack[i] == v);
                }
                if new_stack.contains(v) {
                    let i = choose|i: int| 0 <= i < new_stack.len() && new_stack[i] == v;
                    if i < stack.len() {
                        assert(stack[i] == v);
                    }
                }
            }
        }
        assert(is_walk(g@, new_stack)) by {
            assert forall|j: int| 0 <= j < new_stack.len() - 1 implies succ_edge(
                g@,
                #[trigger] new_stack[j],
                new_stack[j + 1],
            ) by {
                if j < stack.len() - 1 {
                    assert(new_stack[j] == stack[j] && new_stack[j + 1] == stack[j + 1]);
                } else {
                    assert(new_stack[j] == stack.last());
                }
            }
        }
    }
    let n_succ = g[node].len();
    let mut k: usize = 0;
    while k < n_succ
        invariant
            dfs_inv(g@, visited@, on_stack@, sorted@, new_stack),
            new_stack == stack.push(node),
            node < g@.len(),
            n_succ == g@[node as int]@.len(),
            0 <= k <= n_succ,
            forall|j: int| 0 <= j < k ==> sorted@.contains(#[trigger] g@[node as int]@[j]),
            old(sorted)@.is_prefix_of(sorted@),
            forall|v: int|
                0 <= v < g@.len() && (old(visited)@[v] || v == node) ==> #[trigger] visited@[v],
            count_unset(visited0.update(node as int, true)) + 1 == count_unset(old(visited)@),
            visited0 == old(visited)@,
            visited0.len() == g@.len(),
            !stack.contains(node),
        decreases n_succ - k,
    {
        let next = g[node][k];
        assert(next < g@.len());
        assert(new_stack.last() == node);
        assert(g@[node as int]@.contains(next));
        proof {
            lemma_count_unset_monotone(visited0.update(node as int, true), visited@);
        }
        let ghost sorted_before = sorted@;
        match visit(next, g, visited, on_stack, sorted, Ghost(new_stack)) {
            Err(w) => {
                return Err(w);
            },
            Ok(()) => {},
        }
        proof {
            assert forall|j: int| 0 <= j < k + 1 implies sorted@.contains(
                #[trigger] g@[node as int]@[j],
            ) by {
                if j < k {
                    let x = g@[node as int]@[j];
                    let i = choose|i: int| 0 <= i < sorted_before.len() && sorted_before[i] == x;
                    assert(sorted@[i] == x);
                }
            }
            assert(old(sorted)@.is_prefix_of(sorted@)) by {
                assert forall|i: int| 0 <= i < old(sorted)@.len() implies old(sorted)@[i]
                    == sorted@[i] by {
                    assert(sorted_before[i] == old(sorted)@[i]);
                }
            }
        }
        k += 1;
    }
    let ghost sorted_mid = sorted@;
    let ghost on_stack_mid = on_stack@;
    on_stack[node] = false;
    sorted.push(node);
    proof {
        assert(new_stack.contains(node)) by {
            assert(new_stack[new_stack.len() - 1] == node);
        }
        assert(!sorted_mid.contains(node));
        assert(sorted@ == sorted_mid.push(node));
        assert forall|v: usize| v < g@.len() implies (#[trigger] on_stack@[v as int]
            <==> stack.contains(v)) by {
            if v != node {
                assert(on_stack@[v as int] == on_stack_mid[v as int]);
                if stack.contains(v) {
                    let i = choose|i: int| 0 <= i < stack.len() && stack[i] == v;
                    assert(new_stack[i] == v);
                }
                if new_stack.contains(v) {
                    let i = choose|i: int| 0 <= i < new_stack.len() && new_stack[i] == v;
                    if i < stack.len() {
                        assert(stack[i] == v);
                    }
                }
            }
        }
        assert forall|v: usize| v < g@.len() implies (#[trigger] sorted@.contains(v)
            <==> (visited@[v as int] && !on_stack@[v as int])) by {
            if sorted@.contains(v) && v != node {
                let i = choose|i: int| 0 <= i < sorted@.len() && sorted@[i] == v;
                assert(sorted_mid[i] == v);
            }
            if v != node && sorted_mid.contains(v) {
                let i = choose|i: int| 0 <= i < sorted_mid.len() && sorted_mid[i] == v;
                assert(sorted@[i] == v);
            }
            if v == node {
                assert(sorted@[sorted@.len() - 1] == node);
            }
        }
        assert(finished_after_successors(g@, sorted@)) by {
            assert forall|kk: int, j: int|
                0 <= kk < sorted@.len() && 0 <= j < g@[sorted@[kk] as int]@.len() implies sorted@.subrange(
                0,
                kk,
            ).contains(#[trigger] g@[sorted@[kk] as int]@[j]) by {
                if kk < sorted_mid.len() {
                    assert(sorted@.subrange(0, kk) =~= sorted_mid.subrange(0, kk));
                    assert(sorted@[kk] == sorted_mid[kk]);
                } else {
                    assert(sorted@.subrange(0, kk) =~= sorted_mid);
                    assert(sorted_mid.contains(g@[node as int]@[j]));
                }
            }
        }
        assert(sorted@.no_duplicates()) by {
            assert forall|i: int, j: int|
                0 <= i < sorted@.len() && 0 <= j < sorted@.len() && i != j implies sorted@[i]
                != sorted@[j] by {
                if i < sorted_mid.len() && j < sorted_mid.len() {
                } else if i == sorted_mid.len() {
                    assert(sorted_mid[j] == sorted@[j]);
                } else {
                    assert(sorted_mid[i] == sorted@[i]);
                }
            }
        }
        assert(sorted@.contains(node)) by {
            assert(sorted@[sorted@.len() - 1] == node);
        }
        assert(old(sorted)@.is_prefix_of(sorted@)) by {
            assert forall|i: int| 0 <= i < old(sorted)@.len() implies old(sorted)@[i]
                == sorted@[i] by {
                assert(sorted_mid[i] == old(sorted)@[i]);
            }
        }
    }
    Ok(())
}


fn all_unset(n: usize) -> (v: Vec<bool>)
    ensures
        v@.len() == n,
        forall|i: int| 0 <= i < n ==> !#[trigger] v@[i],
{
    let mut v: Vec<bool> = Vec::with_capacity(n);
    let mut i: usize = 0;
    while i < n
        invariant
            i <= n,
            v@.len() == i,
            forall|j: int| 0 <= j < i ==> !#[trigger] v@[j],
        decreases n - i,
    {
        v.push(false);
        i += 1;
    }
    v
}

/// Depth-first finishing order of all positions of `g`, or a position on a
/// cycle of `g`.
fn dfs_finish_order(g: &Vec<Vec<usize>>) -> (r: Result<Vec<usize>, usize>)
    requires
        graph_wf(g@),
    ensures
        r matches Ok(s) ==> {
            &&& s@.no_duplicates()
            &&& forall|v: usize| v < g@.len() ==> s@.contains(v)
            &&& forall|j: int| 0 <= j < s@.len() ==> #[trigger] s@[j] < g@.len()
            &&& finished_after_successors(g@, s@)
        },
        r matches Err(w) ==> w < g@.len() && on_cycle(g@, w),
{
    let n = g.len();
    let mut visited = all_unset(n);
    let mut on_stack = all_unset(n);
    let mut sorted: Vec<usize> = Vec::with_capacity(n);
    let ghost empty = Seq::<usize>::empty();
    assert(is_walk(g@, empty));
    assert(sorted@.no_duplicates());
    let mut i: usize = 0;
    while i < n
        invariant
            n == g@.len(),
            i <= n,
            dfs_inv(g@, visited@, on_stack@, sorted@, empty),
            empty == Seq::<usize>::empty(),
            forall|v: usize| v < i ==> sorted@.contains(v),
        decreases n - i,
    {
        if !visited[i] {
            let ghost before = sorted@;
            match visit(i, g, &mut visited, &mut on_stack, &mut sorted, Ghost(empty)) {
                Err(w) => {
                    return Err(w);
                },
                Ok(()) => {},
            }
            assert forall|v: usize| v < i + 1 implies sorted@.contains(v) by {
                if v < i {
                    assert(before.contains(v));
                    let k = choose|k: int| 0 <= k < before.len() && before[k] == v;
                    assert(sorted@[k] == v);
                }
            }
        } else {
            assert(!empty.contains(i));
        }
        i += 1;
    }
    Ok(sorted)
}

proof fn lemma_finish_order_edge(g: Seq<Vec<usize>>, s: Seq<usize>, a: usize, b: usize)
    requires
        s.no_duplicates(),
        s.contains(a),
        finished_after_successors(g, s),
        succ_edge(g, a, b),
    ensures
        s.contains(b),
        s.index_of(b) < s.index_of(a),
{
    let k = s.index_of(a);
    let j = choose|j: int| 0 <= j < g[a as int]@.len() && g[a as int]@[j] == b;
    assert(s.subrange(0, k).contains(g[s[k] as int]@[j]));
    let k2 = choose|k2: int| 0 <= k2 < k && s.subrange(0, k)[k2] == b;
    assert(s[k2] == b);
    assert(s.index_of(b) == k2);
}

/// A finishing order of a depth-first search that covers every position
/// rules out cycles.
proof fn lemma_finish_order_acyclic(g: Seq<Vec<usize>>, s: Seq<usize>, v: usize)
    requires
        s.no_duplicates(),
        forall|x: usize| x < g.len() ==> s.contains(x),
        finished_after_successors(g, s),
    ensures
        !on_cycle(g, v),
{
    if on_cycle(g, v) {
        let p = choose|p: Seq<usize>| is_cycle(g, p) && p[0] == v;
        assert forall|j: int| 0 <= j < p.len() implies s.contains(#[trigger] p[j]) && s.index_of(
            p[j],
        ) <= s.index_of(p[0]) by {
            lemma_walk_positions(g, s, p, j);
        }
        lemma_finish_order_edge(g, s, p.last(), p[0]);
        assert(s.index_of(p[p.len() - 1]) <= s.index_of(p[0]));
    }
}

proof fn lemma_walk_positions(g: Seq<Vec<usize>>, s: Seq<usize>, p: Seq<usize>, j: int)
    requires
        s.no_duplicates(),
        forall|x: usize| x < g.len() ==> s.contains(x),
        finished_after_successors(g, s),
        is_cycle(g, p),
        0 <= j < p.len(),
    ensures
        s.contains(p[j]),
        s.index_of(p[j]) <= s.index_of(p[0]),
    decreases j,
{
    if j == 0 {
        if p.len() == 1 {
            assert(succ_edge(g, p.last(), p[0]));
        } else {
            assert(succ_edge(g, p[0], p[1]));
        }
    } else {
        lemma_walk_positions(g, s, p, j - 1);
        assert(succ_edge(g, p[j - 1], p[j]));
        lemma_finish_order_edge(g, s, p[j - 1], p[j]);
    }
}


/// State of the cycle search: `path` is the walk being explored and
/// `on_stack` marks exactly its positions.
pub open spec fn path_inv(
    g: Seq<Vec<usize>>,
    visited: Seq<bool>,
    on_stack: Seq<bool>,
    path: Seq<usize>,
) -> bool {
    &&& graph_wf(g)
    &&& visited.len() == g.len()
    &&& on_stack.len() == g.len()
    &&& forall|j: int| 0 <= j < path.len() ==> #[trigger] path[j] < g.len()
    &&& forall|v: usize| v < g.len() ==> (#[trigger] on_stack[v as int] <==> path.contains(v))
    &&& forall|v: int| 0 <= v < g.len() && #[trigger] on_stack[v] ==> visited[v]
    &&& is_walk(g, path)
}

/// There is a walk of `g` from `a` to `b` (of no edges when `a == b`).
pub open spec fn reaches(g: Seq<Vec<usize>>, a: usize, b: usize) -> bool {
    exists|p: Seq<usize>| #![trigger is_walk(g, p)] p.len() > 0 && p[0] == a && p.last() == b && is_walk(g, p)
}

/// `v` reaches a marked position that reaches `v` back: `v` lies in a
/// strongly connected part of `g` that holds a marked position.
pub open spec fn on_marked_cycle(g: Seq<Vec<usize>>, marks: Seq<bool>, v: usize) -> bool {
    exists|m: usize| m < marks.len() && #[trigger] marks[m as int] && reaches(g, v, m) && reaches(g, m, v)
}

/// Some marked position lies on a walk from `t` to `y`.
pub open spec fn marked_between(g: Seq<Vec<usize>>, marks: Seq<bool>, t: usize, y: usize) -> bool {
    exists|m: usize| m < marks.len() && #[trigger] marks[m as int] && reaches(g, t, m) && reaches(g, m, y)
}

/// `u` was visited between the states `v0` and `v1`.
pub open spec fn newly(v0: Seq<bool>, v1: Seq<bool>, u: usize) -> bool {
    !v0[u as int] && v1[u as int]
}

/// Every successor of a position visited between `v0` and `v1` is visited in `v1`.
pub open spec fn search_closed(g: Seq<Vec<usize>>, v0: Seq<bool>, v1: Seq<bool>) -> bool {
    forall|u: usize, w: usize| #[trigger] newly(v0, v1, u) && #[trigger] succ_edge(g, u, w) ==> v1[w as int]
}

/// Every edge from a position visited between `v0` and `v1` into a
/// position of `stack` closes a walk that passes a marked position.
pub open spec fn back_edges_marked(
    g: Seq<Vec<usize>>,
    marks: Seq<bool>,
    v0: Seq<bool>,
    v1: Seq<bool>,
    stack: Seq<usize>,
) -> bool {
    forall|y: usize, t: usize|
        #[trigger] newly(v0, v1, y) && #[trigger] succ_edge(g, y, t) && stack.contains(t)
            ==> marked_between(g, marks, t, y)
}

/// No position of `p` is visited in `v`.
pub open spec fn all_unvisited(v: Seq<bool>, p: Seq<usize>) -> bool {
    forall|j: int| 0 <= j < p.len() ==> !v[#[trigger] p[j] as int]
}

/// Some position of `p` is visited in `v`.
pub open spec fn some_visited(v: Seq<bool>, p: Seq<usize>) -> bool {
    exists|j: int| 0 <= j < p.len() && v[#[trigger] p[j] as int]
}

/// Every cycle of positions none of which was visited in `v0`, and some of
/// which are visited in `v1`, lies in a strongly connected part holding a
/// marked position.
pub open spec fn new_cycles_marked(g: Seq<Vec<usize>>, marks: Seq<bool>, v0: Seq<bool>, v1: Seq<bool>) -> bool {
    forall|p: Seq<usize>|
        #[trigger] is_cycle(g, p) && all_unvisited(v0, p) && some_visited(v1, p) ==> on_marked_cycle(
            g,
            marks,
            p[0],
        )
}

proof fn lemma_reaches_edge(g: Seq<Vec<usize>>, a: usize, b: usize)
    requires
        succ_edge(g, a, b),
    ensures
        reaches(g, a, b),
{
    let p = seq![a, b];
    assert(is_walk(g, p));
}

proof fn lemma_reaches_trans(g: Seq<Vec<usize>>, a: usize, b: usize, c: usize)
    requires
        reaches(g, a, b),
        reaches(g, b, c),
    ensures
        reaches(g, a, c),
{
    let p = choose|p: Seq<usize>| #![trigger is_walk(g, p)] p.len() > 0 && p[0] == a && p.last() == b && is_walk(g, p);
    let q = choose|q: Seq<usize>| #![trigger is_walk(g, q)] q.len() > 0 && q[0] == b && q.last() == c && is_walk(g, q);
    let r = p + q.drop_first();
    assert forall|j: int| 0 <= j < r.len() - 1 implies succ_edge(g, #[trigger] r[j], r[j + 1]) by {
        if j < p.len() - 1 {
            assert(r[j] == p[j] && r[j + 1] == p[j + 1]);
        } else {
            assert(r[j] == q[j - p.len() + 1]);
            assert(r[j + 1] == q[j - p.len() + 2]);
        }
    }
    if q.len() == 1 {
        assert(r.last() == p.last());
    } else {
        assert(r.last() == q.last());
    }
    assert(is_walk(g, r));
}

/// A walk reaches from each of its entries to every later one.
proof fn lemma_walk_reaches(g: Seq<Vec<usize>>, p: Seq<usize>, i: int, j: int)
    requires
        is_walk(g, p),
        0 <= i <= j < p.len(),
    ensures
        reaches(g, p[i], p[j]),
{
    let q = p.subrange(i, j + 1);
    assert forall|k: int| 0 <= k < q.len() - 1 implies succ_edge(g, #[trigger] q[k], q[k + 1]) by {
        assert(q[k] == p[i + k] && q[k + 1] == p[i + k + 1]);
    }
    assert(is_walk(g, q));
}

/// Two entries of a cycle reach each other.
proof fn lemma_cycle_reaches(g: Seq<Vec<usize>>, p: Seq<usize>, i: int, j: int)
    requires
        is_cycle(g, p),
        0 <= i < p.len(),
        0 <= j < p.len(),
    ensures
        reaches(g, p[i], p[j]),
{
    if i <= j {
        lemma_walk_reaches(g, p, i, j);
    } else {
        lemma_walk_reaches(g, p, i, p.len() - 1);
        lemma_reaches_edge(g, p.last(), p[0]);
        lemma_walk_reaches(g, p, 0, j);
        lemma_reaches_trans(g, p[i], p.last(), p[0]);
        lemma_reaches_trans(g, p[i], p[0], p[j]);
    }
}

/// Positions that reach each other share their marked strongly connected part.
proof fn lemma_marked_cycle_transfer(g: Seq<Vec<usize>>, marks: Seq<bool>, a: usize, b: usize)
    requires
        on_marked_cycle(g, marks, a),
        reaches(g, a, b),
        reaches(g, b, a),
    ensures
        on_marked_cycle(g, marks, b),
{
    let m = choose|m: usize| m < marks.len() && #[trigger] marks[m as int] && reaches(g, a, m) && reaches(g, m, a);
    lemma_reaches_trans(g, b, a, m);
    lemma_reaches_trans(g, m, a, b);
}

/// Along a walk of positions unvisited in `v0`, a search that is closed
/// between `v0` and `v1` visits every entry after a visited one.
proof fn lemma_walk_stays_visited(
    g: Seq<Vec<usize>>,
    v0: Seq<bool>,
    v1: Seq<bool>,
    p: Seq<usize>,
    a: int,
    b: int,
)
    requires
        is_walk(g, p),
        0 <= a <= b < p.len(),
        v1[p[a] as int],
        all_unvisited(v0, p),
        search_closed(g, v0, v1),
    ensures
        v1[p[b] as int],
    decreases b - a,
{
    if a < b {
        lemma_walk_stays_visited(g, v0, v1, p, a, b - 1);
        assert(succ_edge(g, p[b - 1], p[b]));
        assert(newly(v0, v1, p[b - 1]));
    }
}

/// A search closed between `v0` and `v1` that visits one entry of a cycle
/// of positions unvisited in `v0` visits all of them.
proof fn lemma_cycle_stays_visited(g: Seq<Vec<usize>>, v0: Seq<bool>, v1: Seq<bool>, p: Seq<usize>, j: int)
    requires
        is_cycle(g, p),
        0 <= j < p.len(),
        v1[p[j] as int],
        all_unvisited(v0, p),
        search_closed(g, v0, v1),
    ensures
        forall|i: int| 0 <= i < p.len() ==> v1[#[trigger] p[i] as int],
{
    let n = p.len() as int;
    lemma_walk_stays_visited(g, v0, v1, p, j, n - 1);
    assert(newly(v0, v1, p.last()));
    assert(succ_edge(g, p.last(), p[0]));
    assert forall|i: int| 0 <= i < p.len() implies v1[#[trigger] p[i] as int] by {
        lemma_walk_stays_visited(g, v0, v1, p, 0, i);
    }
}

fn position_in(path: &Vec<usize>, x: usize) -> (r: usize)
    requires
        path@.contains(x),
    ensures
        r < path@.len(),
        path@[r as int] == x,
{
    let mut i: usize = 0;
    while i < path.len()
        invariant
            0 <= i <= path@.len(),
            path@.contains(x),
            forall|j: int| 0 <= j < i ==> path@[j] != x,
        decreases path@.len() - i,
    {
        if path[i] == x {
            return i;
        }
        i += 1;
    }
    proof {
        let j = choose|j: int| 0 <= j < path@.len() && path@[j] == x;
    }
    0
}

fn cycle_from(path: &Vec<usize>, start: usize) -> (c: Vec<usize>)
    requires
        start < path@.len(),
    ensures
        c@ == path@.subrange(start as int, path@.len() as int),
{
    let mut c: Vec<usize> = Vec::new();
    let mut i = start;
    while i < path.len()
        invariant
            start <= i <= path@.len(),
            c@ == path@.subrange(start as int, i as int),
        decreases path@.len() - i,
    {
        c.push(path[i]);
        i += 1;
        assert(c@ =~= path@.subrange(start as int, i as int));
    }
    c
}

fn any_marked(c: &Vec<usize>, marks: &Vec<bool>) -> (r: bool)
    requires
        forall|j: int| 0 <= j < c@.len() ==> #[trigger] c@[j] < marks@.len(),
    ensures
        r <==> exists|j: int| 0 <= j < c@.len() && marks@[#[trigger] c@[j] as int],
{
    let mut i: usize = 0;
    while i < c.len()
        invariant
            0 <= i <= c@.len(),
            forall|j: int| 0 <= j < c@.len() ==> #[trigger] c@[j] < marks@.len(),
            forall|j: int| 0 <= j < i ==> !marks@[#[trigger] c@[j] as int],
        decreases c@.len() - i,
    {
        if marks[c[i]] {
            return true;
        }
        i += 1;
    }
    false
}

/// What the search from `node` knows after a search from its successor
/// `next` (from state `vb` to state `va`) came back without a cycle.
proof fn lemma_after_child(
    g: Seq<Vec<usize>>,
    marks: Seq<bool>,
    visited0: Seq<bool>,
    vb: Seq<bool>,
    va: Seq<bool>,
    node: usize,
    next: usize,
    path: Seq<usize>,
)
    requires
        graph_wf(g),
        vb.len() == g.len(),
        va.len() == g.len(),
        forall|v: int| 0 <= v < g.len() && vb[v] ==> va[v],
        forall|u: usize, w: usize|
            #[trigger] newly(visited0, vb, u) && u != node && #[trigger] succ_edge(g, u, w) ==> vb[w as int],
        search_closed(g, vb, va),
        forall|y: usize, t: usize|
            #[trigger] newly(visited0, vb, y) && y != node && #[trigger] succ_edge(g, y, t) && path.contains(t)
                ==> marked_between(g, marks, t, y),
        back_edges_marked(g, marks, vb, va, path.push(next)),
        forall|p: Seq<usize>|
            #[trigger] is_cycle(g, p) && all_unvisited(visited0, p) && !p.contains(node) && some_visited(vb, p)
                ==> on_marked_cycle(g, marks, p[0]),
        new_cycles_marked(g, marks, vb, va),
        vb[node as int],
    ensures
        forall|u: usize, w: usize|
            #[trigger] newly(visited0, va, u) && u != node && #[trigger] succ_edge(g, u, w) ==> va[w as int],
        forall|y: usize, t: usize|
            #[trigger] newly(visited0, va, y) && y != node && #[trigger] succ_edge(g, y, t) && path.contains(t)
                ==> marked_between(g, marks, t, y),
        forall|p: Seq<usize>|
            #[trigger] is_cycle(g, p) && all_unvisited(visited0, p) && !p.contains(node) && some_visited(va, p)
                ==> on_marked_cycle(g, marks, p[0]),
{
    assert forall|u: usize, w: usize|
        #[trigger] newly(visited0, va, u) && u != node && #[trigger] succ_edge(g, u, w) implies va[w as int] by {
        if vb[u as int] {
            assert(newly(visited0, vb, u));
            assert(vb[w as int]);
            let k = choose|k: int| 0 <= k < g[u as int]@.len() && g[u as int]@[k] == w;
            assert(g[u as int]@[k] < g.len());
        } else {
            assert(newly(vb, va, u));
        }
    }
    assert forall|y: usize, t: usize|
        #[trigger] newly(visited0, va, y) && y != node && #[trigger] succ_edge(g, y, t) && path.contains(t)
            implies marked_between(g, marks, t, y) by {
        if vb[y as int] {
            assert(newly(visited0, vb, y));
        } else {
            assert(newly(vb, va, y));
            let i = choose|i: int| 0 <= i < path.len() && path[i] == t;
            assert(path.push(next)[i] == t);
            assert(path.push(next).contains(t));
        }
    }
    assert forall|p: Seq<usize>|
        #[trigger] is_cycle(g, p) && all_unvisited(visited0, p) && !p.contains(node) && some_visited(va, p)
            implies on_marked_cycle(g, marks, p[0]) by {
        if !some_visited(vb, p) {
            assert forall|j: int| 0 <= j < p.len() implies !vb[#[trigger] p[j] as int] by {
                if vb[p[j] as int] {
                    assert(some_visited(vb, p));
                }
            }
            assert(all_unvisited(vb, p));
        }
    }
}

/// Depth-first search that reports a cycle closed by an edge back into the
/// current path when none of the cycle's positions is marked. When it finds
/// none, every edge out of a position it visited leads to a visited
/// position, every edge it saw back into the path closes a walk through a
/// marked position, and every cycle among the positions it visited lies in
/// a strongly connected part holding a marked position.
fn find_cycle(
    node: usize,
    g: &Vec<Vec<usize>>,
    visited: &mut Vec<bool>,
    on_stack: &mut Vec<bool>,
    path: &mut Vec<usize>,
    marks: &Vec<bool>,
) -> (r: Result<(), Vec<usize>>)
    requires
        path_inv(g@, old(visited)@, old(on_stack)@, old(path)@),
        node < g@.len(),
        !old(visited)@[node as int],
        marks@.len() == g@.len(),
        old(path)@.len() == 0 || succ_edge(g@, old(path)@.last(), node),
    ensures
        r is Ok ==> {
            &&& path_inv(g@, final(visited)@, final(on_stack)@, final(path)@)
            &&& final(path)@ == old(path)@
            &&& forall|v: int| 0 <= v < g@.len() && old(visited)@[v] ==> final(visited)@[v]
            &&& final(visited)@[node as int]
            &&& search_closed(g@, old(visited)@, final(visited)@)
            &&& back_edges_marked(g@, marks@, old(visited)@, final(visited)@, old(path)@.push(node))
            &&& new_cycles_marked(g@, marks@, old(visited)@, final(visited)@)
        },
        r matches Err(c) ==> is_unmarked_cycle(g@, marks@, c@),
    decreases count_unset(old(visited)@),
{
    let ghost visited0 = visited@;
    let ghost on_stack0 = on_stack@;
    let ghost path0 = path@;
    visited[node] = true;
    on_stack[node] = true;
    path.push(node);
    proof {
        lemma_count_unset_set(visited0, node as int);
        assert(!path0.contains(node));
        assert forall|v: usize| v < g@.len() implies (#[trigger] on_stack@[v as int]
            <==> path@.contains(v)) by {
            if v == node {
                assert(path@[path@.len() - 1] == node);
            } else {
                assert(on_stack@[v as int] == on_stack0[v as int]);
                if path0.contains(v) {
                    let i = choose|i: int| 0 <= i < path0.len() && path0[i] == v;
                    assert(path@[i] == v);
                }
                if path@.contains(v) {
                    let i = choose|i: int| 0 <= i < path@.len() && path@[i] == v;
                    if i < path0.len() {
                        assert(path0[i] == v);
                    }
                }
            }
        }
        assert(is_walk(g@, path@)) by {
            assert forall|j: int| 0 <= j < path@.len() - 1 implies succ_edge(
                g@,
                #[trigger] path@[j],
                path@[j + 1],
            ) by {
                if j < path0.len() - 1 {
                    assert(path@[j] == path0[j] && path@[j + 1] == path0[j + 1]);
                } else {
                    assert(path@[j] == path0.last());
                }
            }
        }
        assert forall|p: Seq<usize>|
            #[trigger] is_cycle(g@, p) && all_unvisited(visited0, p) && !p.contains(node)
                && some_visited(visited@, p) implies on_marked_cycle(g@, marks@, p[0]) by {
            let j = choose|j: int| 0 <= j < p.len() && visited@[#[trigger] p[j] as int];
            assert(!visited0[p[j] as int]);
            if p[j] != node {
                assert(visited@[p[j] as int] == visited0[p[j] as int]);
            } else {
                assert(p.contains(node));
            }
        }
    }
    let n_succ = g[node].len();
    let mut k: usize = 0;
    while k < n_succ
        invariant
            path_inv(g@, visited@, on_stack@, path@),
            path@ == path0.push(node),
            node < g@.len(),
            n_succ == g@[node as int]@.len(),
            0 <= k <= n_succ,
            marks@.len() == g@.len(),
            forall|v: int|
                0 <= v < g@.len() && (visited0[v] || v == node) ==> #[trigger] visited@[v],
            count_unset(visited0.update(node as int, true)) + 1 == count_unset(visited0),
            visited0 == old(visited)@,
            path0 == old(path)@,
            visited0.len() == g@.len(),
            !path0.contains(node),
            !visited0[node as int],
            forall|u: usize, w: usize|
                #[trigger] newly(visited0, visited@, u) && u != node && #[trigger] succ_edge(g@, u, w)
                    ==> visited@[w as int],
            forall|j: int| 0 <= j < k ==> visited@[#[trigger] g@[node as int]@[j] as int],
            forall|y: usize, t: usize|
                #[trigger] newly(visited0, visited@, y) && y != node && #[trigger] succ_edge(g@, y, t)
                    && path@.contains(t) ==> marked_between(g@, marks@, t, y),
            forall|j: int|
                0 <= j < k && path@.contains(#[trigger] g@[node as int]@[j]) ==> marked_between(
                    g@,
                    marks@,
                    g@[node as int]@[j],
                    node,
                ),
            forall|p: Seq<usize>|
                #[trigger] is_cycle(g@, p) && all_unvisited(visited0, p) && !p.contains(node)
                    && some_visited(visited@, p) ==> on_marked_cycle(g@, marks@, p[0]),
        decreases n_succ - k,
    {
        let next = g[node][k];
        assert(next < g@.len());
        assert(path@.last() == node);
        assert(g@[node as int]@.contains(next));
        let ghost vb = visited@;
        if !visited[next] {
            proof {
                lemma_count_unset_monotone(visited0.update(node as int, true), visited@);
                assert(on_stack@[next as int] <==> path@.contains(next));
                assert(on_stack@[next as int] ==> visited@[next as int]);
                assert(!path@.contains(next));
            }
            match find_cycle(next, g, visited, on_stack, path, marks) {
                Err(c) => {
                    return Err(c);
                },
                Ok(()) => {},
            }
            proof {
                lemma_after_child(g@, marks@, visited0, vb, visited@, node, next, path@);
            }
        } else if on_stack[next] {
            let start = position_in(path, next);
            let c = cycle_from(path, start);
            if !any_marked(&c, marks) {
                proof {
                    assert(is_walk(g@, c@)) by {
                        assert forall|j: int| 0 <= j < c@.len() - 1 implies succ_edge(
                            g@,
                            #[trigger] c@[j],
                            c@[j + 1],
                        ) by {
                            assert(c@[j] == path@[start + j] && c@[j + 1] == path@[start + j + 1]);
                        }
                    }
                    assert(c@.last() == node);
                    assert(c@[0] == next);
                    assert forall|j: int| 0 <= j < c@.len() implies c@[j] < marks@.len()
                        && !marks@[#[trigger] c@[j] as int] by {
                        assert(c@[j] == path@[start + j]);
                    }
                }
                return Err(c);
            }
            proof {
                let j = choose|j: int| 0 <= j < c@.len() && marks@[#[trigger] c@[j] as int];
                let m = c@[j];
                assert(m == path@[start + j]);
                lemma_walk_reaches(g@, path@, start as int, start + j);
                lemma_walk_reaches(g@, path@, start + j, path@.len() - 1);
                assert(path@[path@.len() - 1] == node);
                assert(marks@[m as int] && m < marks@.len());
                assert(marked_between(g@, marks@, next, node));
            }
        } else {
            proof {
                assert(!path@.contains(next));
            }
        }
        k += 1;
    }
    let ghost on_stack_mid = on_stack@;
    let ghost v1 = visited@;
    on_stack[node] = false;
    path.pop();
    proof {
        assert(path@ =~= path0);
        assert forall|v: usize| v < g@.len() implies (#[trigger] on_stack@[v as int]
            <==> path@.contains(v)) by {
            if v != node {
                assert(on_stack@[v as int] == on_stack_mid[v as int]);
                if path0.contains(v) {
                    let i = choose|i: int| 0 <= i < path0.len() && path0[i] == v;
                    assert(path0.push(node)[i] == v);
                }
                if path0.push(node).contains(v) {
                    let i = choose|i: int| 0 <= i < path0.len() + 1 && path0.push(node)[i] == v;
                    if i < path0.len() {
                        assert(path0[i] == v);
                    }
                }
            }
        }
        let stack = path0.push(node);
        assert forall|u: usize, w: usize| #[trigger] newly(visited0, v1, u) && #[trigger] succ_edge(g@, u, w)
            implies v1[w as int] by {
            if u == node {
                let j = choose|j: int| 0 <= j < g@[node as int]@.len() && g@[node as int]@[j] == w;
                assert(v1[g@[node as int]@[j] as int]);
            }
        }
        assert(search_closed(g@, visited0, v1));
        assert forall|y: usize, t: usize|
            #[trigger] newly(visited0, v1, y) && #[trigger] succ_edge(g@, y, t) && stack.contains(t)
                implies marked_between(g@, marks@, t, y) by {
            if y == node {
                let j = choose|j: int| 0 <= j < g@[node as int]@.len() && g@[node as int]@[j] == t;
                assert(stack.contains(g@[node as int]@[j]));
            }
        }
        assert(back_edges_marked(g@, marks@, visited0, v1, stack));
        assert forall|p: Seq<usize>|
            #[trigger] is_cycle(g@, p) && all_unvisited(visited0, p) && some_visited(v1, p) implies on_marked_cycle(
                g@,
                marks@,
                p[0],
            ) by {
            if p.contains(node) {
                let j = choose|j: int| 0 <= j < p.len() && p[j] == node;
                lemma_cycle_stays_visited(g@, visited0, v1, p, j);
                let i = if j > 0 {
                    j - 1
                } else {
                    p.len() - 1
                };
                let y = p[i];
                assert(succ_edge(g@, y, node)) by {
                    if j > 0 {
                        assert(succ_edge(g@, p[j - 1], p[j]));
                    }
                }
                assert(v1[p[i] as int]);
                assert(newly(visited0, v1, y));
                assert(stack.contains(node)) by {
                    assert(stack[stack.len() - 1] == node);
                }
                assert(marked_between(g@, marks@, node, y));
                let m = choose|m: usize|
                    m < marks@.len() && #[trigger] marks@[m as int] && reaches(g@, node, m) && reaches(
                        g@,
                        m,
                        y,
                    );
                lemma_reaches_edge(g@, y, node);
                lemma_reaches_trans(g@, m, y, node);
                assert(on_marked_cycle(g@, marks@, node));
                lemma_cycle_reaches(g@, p, j, 0);
                lemma_cycle_reaches(g@, p, 0, j);
                lemma_marked_cycle_transfer(g@, marks@, node, p[0]);
            }
        }
    }
    Ok(())
}

/// The successors in `succ` that are not marked.
fn unmarked_successors(succ: &Vec<usize>, marks: &Vec<bool>) -> (r: Vec<usize>)
    requires
        forall|j: int| 0 <= j < succ@.len() ==> #[trigger] succ@[j] < marks@.len(),
    ensures
        forall|j: int| 0 <= j < r@.len() ==> #[trigger] r@[j] < marks@.len(),
        forall|x: usize| #[trigger] r@.contains(x) <==> succ@.contains(x) && !marks@[x as int],
{
    let mut r: Vec<usize> = Vec::new();
    let mut k: usize = 0;
    while k < succ.len()
        invariant
            0 <= k <= succ@.len(),
            forall|j: int| 0 <= j < succ@.len() ==> #[trigger] succ@[j] < marks@.len(),
            forall|j: int| 0 <= j < r@.len() ==> #[trigger] r@[j] < marks@.len(),
            forall|x: usize| #[trigger] r@.contains(x) <==> succ@.subrange(0, k as int).contains(x)
                && !marks@[x as int],
        decreases succ@.len() - k,
    {
        let x = succ[k];
        let ghost r0 = r@;
        if !marks[x] {
            r.push(x);
        }
        proof {
            let prev = succ@.subrange(0, k as int);
            let next = succ@.subrange(0, k + 1);
            assert(next =~= prev.push(x));
            assert forall|y: usize| #[trigger] next.contains(y) <==> prev.contains(y) || y == x by {
                if next.contains(y) && y != x {
                    let i = choose|i: int| 0 <= i < next.len() && next[i] == y;
                    assert(prev[i] == y);
                }
                if y == x {
                    assert(next[k as int] == y);
                }
                if prev.contains(y) {
                    let i = choose|i: int| 0 <= i < prev.len() && prev[i] == y;
                    assert(next[i] == y);
                }
            }
            if !marks@[x as int] {
                assert(r@ == r0.push(x));
                assert forall|y: usize| #[trigger] r@.contains(y) <==> r0.contains(y) || y == x by {
                    if r@.contains(y) && y != x {
                        let i = choose|i: int| 0 <= i < r@.len() && r@[i] == y;
                        assert(r0[i] == y);
                    }
                    if y == x {
                        assert(r@[r0.len() as int] == y);
                    }
                    if r0.contains(y) {
                        let i = choose|i: int| 0 <= i < r0.len() && r0[i] == y;
                        assert(r@[i] == y);
                    }
                }
            }
        }
        k += 1;
    }
    assert(succ@.subrange(0, k as int) =~= succ@);
    r
}

/// The part of `g` among unmarked positions: the same positions, with the
/// edges of `g` that join two unmarked positions.
fn unmarked_part(g: &Vec<Vec<usize>>, marks: &Vec<bool>) -> (h: Vec<Vec<usize>>)
    requires
        graph_wf(g@),
        marks@.len() == g@.len(),
    ensures
        h@.len() == g@.len(),
        graph_wf(h@),
        forall|a: usize, b: usize| #[trigger] succ_edge(h@, a, b) <==> succ_edge(g@, a, b)
            && !marks@[a as int] && !marks@[b as int],
{
    let mut h: Vec<Vec<usize>> = Vec::new();
    let mut a: usize = 0;
    while a < g.len()
        invariant
            0 <= a <= g@.len(),
            graph_wf(g@),
            marks@.len() == g@.len(),
            h@.len() == a,
            forall|i: int, k: int|
                0 <= i < a && 0 <= k < h@[i]@.len() ==> (#[trigger] h@[i]@[k]) < g@.len(),
            forall|i: int, x: usize| 0 <= i < a ==> (#[trigger] h@[i]@.contains(x) <==> g@[i]@.contains(x)
                && !marks@[i] && !marks@[x as int]),
        decreases g@.len() - a,
    {
        let row = if marks[a] {
            Vec::new()
        } else {
            proof {
                assert forall|j: int| 0 <= j < g@[a as int]@.len() implies #[trigger] g@[a as int]@[j]
                    < marks@.len() by {}
            }
            unmarked_successors(&g[a], marks)
        };
        let ghost h0 = h@;
        h.push(row);
        proof {
            assert(h@ == h0.push(row));
            assert(h@[a as int] == row);
            if marks@[a as int] {
                assert(row@ =~= Seq::<usize>::empty());
            }
            assert forall|i: int, k: int|
                0 <= i < a + 1 && 0 <= k < h@[i]@.len() implies (#[trigger] h@[i]@[k]) < g@.len() by {
                if i < a {
                    assert(h@[i] == h0[i]);
                }
            }
            assert forall|i: int, x: usize| 0 <= i < a + 1 implies (#[trigger] h@[i]@.contains(x)
                <==> g@[i]@.contains(x) && !marks@[i] && !marks@[x as int]) by {
                if i < a {
                    assert(h@[i] == h0[i]);
                }
            }
        }
        a += 1;
    }
    proof {
        assert forall|x: usize, y: usize| #[trigger] succ_edge(h@, x, y) <==> succ_edge(g@, x, y)
            && !marks@[x as int] && !marks@[y as int] by {
            if x < g@.len() {
                assert(h@[x as int]@.contains(y) <==> g@[x as int]@.contains(y) && !marks@[x as int]
                    && !marks@[y as int]);
            }
        }
    }
    h
}

/// A cycle of the unmarked part is a cycle of the whole graph that holds no
/// marked position, and the other way round.
proof fn lemma_unmarked_part_cycles(g: Seq<Vec<usize>>, h: Seq<Vec<usize>>, marks: Seq<bool>, p: Seq<usize>)
    requires
        marks.len() == g.len(),
        forall|a: usize, b: usize| #[trigger] succ_edge(h, a, b) <==> succ_edge(g, a, b) && !marks[a as int]
            && !marks[b as int],
    ensures
        is_unmarked_cycle(h, marks, p) <==> is_unmarked_cycle(g, marks, p),
{
    if is_unmarked_cycle(h, marks, p) {
        assert forall|j: int| 0 <= j < p.len() - 1 implies succ_edge(g, #[trigger] p[j], p[j + 1]) by {
            assert(succ_edge(h, p[j], p[j + 1]));
        }
        assert(succ_edge(h, p.last(), p[0]));
    }
    if is_unmarked_cycle(g, marks, p) {
        assert forall|j: int| 0 <= j < p.len() - 1 implies succ_edge(h, #[trigger] p[j], p[j + 1]) by {
            assert(succ_edge(g, p[j], p[j + 1]));
            assert(!marks[p[j + 1] as int]);
        }
        assert(!marks[p.last() as int]) by {
            assert(!marks[p[p.len() - 1] as int]);
        }
        assert(succ_edge(h, p.last(), p[0]));
    }
}

/// In the unmarked part, no position reaches a marked one but itself, so
/// no cycle of it lies in a strongly connected part holding a marked one.
proof fn lemma_unmarked_part_no_marked_cycle(h: Seq<Vec<usize>>, marks: Seq<bool>, p: Seq<usize>)
    requires
        forall|a: usize, b: usize| #[trigger] succ_edge(h, a, b) ==> !marks[a as int] && !marks[b as int],
        is_cycle(h, p),
    ensures
        !on_marked_cycle(h, marks, p[0]),
{
    if on_marked_cycle(h, marks, p[0]) {
        let m = choose|m: usize| m < marks.len() && #[trigger] marks[m as int] && reaches(h, p[0], m) && reaches(h, m, p[0]);
        let q = choose|q: Seq<usize>| #![trigger is_walk(h, q)] q.len() > 0 && q[0] == p[0] && q.last() == m && is_walk(h, q);
        if p.len() > 1 {
            assert(succ_edge(h, p[0], p[1]));
        } else {
            assert(succ_edge(h, p.last(), p[0]));
        }
        assert(!marks[p[0] as int]);
        if q.len() > 1 {
            assert(succ_edge(h, q[q.len() - 2], q[q.len() - 1]));
        }
    }
}

/// Checks that every cycle of `adjacency` (edges between positions of
/// `nodes`) holds a node that allows feedback, and reports a cycle without
/// one otherwise. The search runs over the nodes that do not allow
/// feedback, so that any cycle it closes is one without such a node.
pub fn verify_cycles_have_feedback<K: Clone>(
    nodes: &[K],
    adjacency: &Vec<Vec<usize>>,
    feedback_nodes: &Vec<bool>,
) -> (r: Result<(), TopologyError<K>>)
    requires
        adjacency@.len() == nodes@.len(),
        feedback_nodes@.len() == nodes@.len(),
        graph_wf(adjacency@),
        forall|a: K, b: K| #[trigger] strictly_cloned(a, b) ==> a == b,
    ensures
        r matches Err(TopologyError::CycleDetected { path }) ==> exists|p: Seq<usize>|
            {
                &&& is_unmarked_cycle(adjacency@, feedback_nodes@, p)
                &&& path@ == p.map_values(|i: usize| nodes@[i as int])
            },
        r is Ok <==> !exists|p: Seq<usize>| is_unmarked_cycle(adjacency@, feedback_nodes@, p),
{
    let n = adjacency.len();
    let inner = unmarked_part(adjacency, feedback_nodes);
    let mut visited = all_unset(n);
    let ghost v_start = visited@;
    let mut on_stack = all_unset(n);
    let mut path: Vec<usize> = Vec::new();
    let mut i: usize = 0;
    while i < n
        invariant
            n == adjacency@.len(),
            n == nodes@.len(),
            n == inner@.len(),
            feedback_nodes@.len() == n,
            forall|a: usize, b: usize| #[trigger] succ_edge(inner@, a, b) <==> succ_edge(adjacency@, a, b)
                && !feedback_nodes@[a as int] && !feedback_nodes@[b as int],
            i <= n,
            path_inv(inner@, visited@, on_stack@, path@),
            path@.len() == 0,
            forall|a: K, b: K| #[trigger] strictly_cloned(a, b) ==> a == b,
            v_start.len() == n,
            forall|j: int| 0 <= j < n ==> !#[trigger] v_start[j],
            forall|j: int| 0 <= j < i ==> #[trigger] visited@[j],
            new_cycles_marked(inner@, feedback_nodes@, v_start, visited@),
        decreases n - i,
    {
        let ghost vb = visited@;
        if !visited[i] {
            match find_cycle(i, &inner, &mut visited, &mut on_stack, &mut path, feedback_nodes) {
                Err(c) => {
                    let mut cycle: Vec<K> = Vec::new();
                    let mut j: usize = 0;
                    while j < c.len()
                        invariant
                            j <= c@.len(),
                            is_unmarked_cycle(inner@, feedback_nodes@, c@),
                            n == nodes@.len(),
                            n == inner@.len(),
                            forall|a: K, b: K| #[trigger] strictly_cloned(a, b) ==> a == b,
                            cycle@ == c@.subrange(0, j as int).map_values(
                                |x: usize| nodes@[x as int],
                            ),
                        decreases c@.len() - j,
                    {
                        assert(c@[j as int] < n) by {
                            if j + 1 < c@.len() {
                                assert(succ_edge(inner@, c@[j as int], c@[j + 1]));
                            } else {
                                assert(succ_edge(inner@, c@.last(), c@[0]));
                            }
                        }
                        let x = nodes[c[j]].clone();
                        assert(strictly_cloned(nodes@[c@[j as int] as int], x));
                        cycle.push(x);
                        j += 1;
                        assert(cycle@ =~= c@.subrange(0, j as int).map_values(
                            |x: usize| nodes@[x as int],
                        ));
                    }
                    assert(c@.subrange(0, c@.len() as int) =~= c@);
                    proof {
                        lemma_unmarked_part_cycles(adjacency@, inner@, feedback_nodes@, c@);
                    }
                    return Err(TopologyError::CycleDetected { path: cycle });
                },
                Ok(()) => {},
            }
            proof {
                lemma_cycles_after_search(inner@, feedback_nodes@, v_start, vb, visited@);
            }
        }
        i += 1;
    }
    proof {
        assert forall|p: Seq<usize>| !is_unmarked_cycle(adjacency@, feedback_nodes@, p) by {
            lemma_unmarked_part_cycles(adjacency@, inner@, feedback_nodes@, p);
            if is_unmarked_cycle(inner@, feedback_nodes@, p) {
                let g = inner@;
                assert(is_cycle(g, p));
                assert forall|j: int| 0 <= j < p.len() implies #[trigger] p[j] < n by {
                    if j + 1 < p.len() {
                        assert(succ_edge(g, p[j], p[j + 1]));
                    } else {
                        assert(succ_edge(g, p.last(), p[0]));
                    }
                }
                assert forall|j: int| 0 <= j < p.len() implies !v_start[#[trigger] p[j] as int] by {
                    assert(p[j] < n);
                }
                assert(all_unvisited(v_start, p));
                assert(p[0] < n);
                assert(visited@[p[0] as int]);
                assert(some_visited(visited@, p));
                assert(on_marked_cycle(g, feedback_nodes@, p[0]));
                lemma_unmarked_part_no_marked_cycle(g, feedback_nodes@, p);
            }
        }
    }
    Ok(())
}

/// The cycles marked after one more search from state `vb` to state `va`.
proof fn lemma_cycles_after_search(
    g: Seq<Vec<usize>>,
    marks: Seq<bool>,
    v_start: Seq<bool>,
    vb: Seq<bool>,
    va: Seq<bool>,
)
    requires
        vb.len() == g.len(),
        forall|j: int| 0 <= j < g.len() ==> !#[trigger] v_start[j],
        new_cycles_marked(g, marks, v_start, vb),
        new_cycles_marked(g, marks, vb, va),
    ensures
        new_cycles_marked(g, marks, v_start, va),
{
    assert forall|p: Seq<usize>|
        #[trigger] is_cycle(g, p) && all_unvisited(v_start, p) && some_visited(va, p) implies on_marked_cycle(
            g,
            marks,
            p[0],
        ) by {
        if !some_visited(vb, p) {
            assert forall|j: int| 0 <= j < p.len() implies !vb[#[trigger] p[j] as int] by {
                if vb[p[j] as int] {
                    assert(some_visited(vb, p));
                }
            }
            assert(all_unvisited(vb, p));
        }
    }
}


// ---------------------------------------------------------------------------
// Dependency graphs over node values.
// ---------------------------------------------------------------------------

/// `u` is listed among the dependencies (`deps[i]`) of an occurrence
/// `nodes[i]` of `v`: `u` must be processed before `v`.
pub open spec fn depends_on<K>(nodes: Seq<K>, deps: Seq<Seq<K>>, u: K, v: K) -> bool {
    exists|i: int| 0 <= i < nodes.len() && nodes[i] == v && #[trigger] deps[i].contains(u)
}

/// Some occurrence of `v` in `nodes` is reported as allowing feedback.
pub open spec fn allows_feedback_in<K>(nodes: Seq<K>, feedback: Seq<bool>, v: K) -> bool {
    exists|i: int| 0 <= i < nodes.len() && #[trigger] nodes[i] == v && feedback[i]
}

/// `c` is a cycle of dependencies none of whose nodes allows feedback.
pub open spec fn is_feedback_free_cycle<K>(
    nodes: Seq<K>,
    deps: Seq<Seq<K>>,
    feedback: Seq<bool>,
    c: Seq<K>,
) -> bool {
    &&& c.len() > 0
    &&& forall|j: int| 0 <= j < c.len() ==> !allows_feedback_in(nodes, feedback, #[trigger] c[j])
    &&& forall|j: int| 0 <= j < c.len() - 1 ==> depends_on(nodes, deps, #[trigger] c[j], c[j + 1])
    &&& depends_on(nodes, deps, c.last(), c[0])
}

pub open spec fn has_feedback_free_cycle<K>(
    nodes: Seq<K>,
    deps: Seq<Seq<K>>,
    feedback: Seq<bool>,
) -> bool {
    exists|c: Seq<K>| is_feedback_free_cycle(nodes, deps, feedback, c)
}

pub open spec fn on_feedback_free_cycle<K>(
    nodes: Seq<K>,
    deps: Seq<Seq<K>>,
    feedback: Seq<bool>,
    v: K,
) -> bool {
    exists|c: Seq<K>| is_feedback_free_cycle(nodes, deps, feedback, c) && c[0] == v
}

/// `order` lists every distinct node once, and each node that does not allow
/// feedback comes before every node depending on it.
pub open spec fn is_processing_order<K>(
    nodes: Seq<K>,
    deps: Seq<Seq<K>>,
    feedback: Seq<bool>,
    order: Seq<K>,
) -> bool {
    &&& order.no_duplicates()
    &&& forall|x: K| order.contains(x) <==> nodes.contains(x)
    &&& forall|i: int, j: int|
        0 <= i < order.len() && 0 <= j < order.len() && depends_on(
            nodes,
            deps,
            #[trigger] order[i],
            #[trigger] order[j],
        ) && !allows_feedback_in(nodes, feedback, order[i]) ==> i < j
}

/// What sorting `nodes` with the given dependency lists and feedback flags
/// yields: a processing order exactly when no feedback-free cycle exists,
/// and otherwise a single node lying on such a cycle.
pub open spec fn sort_result<K>(
    nodes: Seq<K>,
    deps: Seq<Seq<K>>,
    feedback: Seq<bool>,
    r: Result<Vec<K>, TopologyError<K>>,
) -> bool {
    match r {
        Ok(order) => !has_feedback_free_cycle(nodes, deps, feedback) && is_processing_order(
            nodes,
            deps,
            feedback,
            order@,
        ),
        Err(TopologyError::CycleDetected { path }) => path@.len() == 1 && on_feedback_free_cycle(
            nodes,
            deps,
            feedback,
            path@[0],
        ),
    }
}

pub open spec fn list_views<K>(lists: Seq<Vec<K>>) -> Seq<Seq<K>> {
    lists.map_values(|l: Vec<K>| l@)
}

fn position_of<K: Eq>(keys: &Vec<K>, x: &K) -> (r: Option<usize>)
    requires
        obeys_concrete_eq::<K>(),
    ensures
        match r {
            Some(p) => p < keys@.len() && keys@[p as int] == *x,
            None => !keys@.contains(*x),
        },
{
    proof {
        reveal(obeys_concrete_eq);
    }
    let mut i: usize = 0;
    while i < keys.len()
        invariant
            0 <= i <= keys@.len(),
            forall|j: int| 0 <= j < i ==> keys@[j] != *x,
            obeys_concrete_eq::<K>(),
        decreases keys@.len() - i,
    {
        proof {
            reveal(obeys_concrete_eq);
        }
        if keys[i] == *x {
            return Some(i);
        }
        i += 1;
    }
    None
}

/// The distinct values of `nodes`, in order of first occurrence.
fn distinct_keys<K: Eq + Clone>(nodes: &Vec<K>) -> (keys: Vec<K>)
    requires
        obeys_concrete_eq::<K>(),
        forall|a: K, b: K| #[trigger] strictly_cloned(a, b) ==> a == b,
    ensures
        keys@.no_duplicates(),
        forall|x: K| keys@.contains(x) <==> nodes@.contains(x),
{
    let mut keys: Vec<K> = Vec::new();
    let mut i: usize = 0;
    while i < nodes.len()
        invariant
            0 <= i <= nodes@.len(),
            keys@.no_duplicates(),
            forall|x: K|
                #![trigger keys@.contains(x)]
                #![trigger nodes@.subrange(0, i as int).contains(x)]
                keys@.contains(x) <==> nodes@.subrange(0, i as int).contains(x),
            obeys_concrete_eq::<K>(),
            forall|a: K, b: K| #[trigger] strictly_cloned(a, b) ==> a == b,
        decreases nodes@.len() - i,
    {
        let ghost keys0 = keys@;
        let found = position_of(&keys, &nodes[i]);
        if found.is_none() {
            let x = nodes[i].clone();
            assert(strictly_cloned(nodes@[i as int], x));
            keys.push(x);
        }
        proof {
            assert forall|x: K| keys@.contains(x) <==> nodes@.subrange(0, i + 1).contains(x) by {
                if nodes@.subrange(0, i + 1).contains(x) {
                    let j = choose|j: int| 0 <= j < i + 1 && #[trigger] nodes@.subrange(0, i + 1)[j] == x;
                    if j < i {
                        assert(nodes@.subrange(0, i as int)[j] == x);
                        assert(nodes@.subrange(0, i as int).contains(x));
                        assert(keys0.contains(x));
                        let k = choose|k: int| 0 <= k < keys0.len() && keys0[k] == x;
                        assert(keys@[k] == x);
                    } else {
                        match found {
                            Some(p) => {
                                assert(keys@[p as int] == x);
                            },
                            None => {
                                assert(keys@[keys0.len() as int] == x);
                            },
                        }
                    }
                }
                if keys@.contains(x) {
                    let k = choose|k: int| 0 <= k < keys@.len() && keys@[k] == x;
                    if k < keys0.len() {
                        assert(keys0[k] == x);
                        assert(nodes@.subrange(0, i as int).contains(x));
                        let j = choose|j: int|
                            0 <= j < i && #[trigger] nodes@.subrange(0, i as int)[j] == x;
                        assert(nodes@.subrange(0, i + 1)[j] == x);
                    } else {
                        assert(nodes@.subrange(0, i + 1)[i as int] == x);
                    }
                }
            }
            assert(keys@.no_duplicates()) by {
                assert forall|a: int, b: int|
                    0 <= a < keys@.len() && 0 <= b < keys@.len() && a != b implies keys@[a]
                    != keys@[b] by {
                    if a < keys0.len() && b < keys0.len() {
                        assert(keys0[a] == keys@[a] && keys0[b] == keys@[b]);
                    } else if a < keys0.len() {
                        assert(keys0[a] == keys@[a]);
                    } else if b < keys0.len() {
                        assert(keys0[b] == keys@[b]);
                    }
                }
            }
        }
        i += 1;
    }
    assert(nodes@.subrange(0, nodes@.len() as int) =~= nodes@);
    keys
}


/// Whether each distinct node allows feedback on some occurrence.
fn feedback_per_key<K: Eq>(nodes: &Vec<K>, feedback: &Vec<bool>, keys: &Vec<K>) -> (fbk: Vec<bool>)
    requires
        obeys_concrete_eq::<K>(),
        feedback@.len() == nodes@.len(),
        keys@.no_duplicates(),
    ensures
        fbk@.len() == keys@.len(),
        forall|p: int|
            0 <= p < keys@.len() ==> (#[trigger] fbk@[p] <==> allows_feedback_in(
                nodes@,
                feedback@,
                keys@[p],
            )),
{
    let mut fbk = all_unset(keys.len());
    let mut i: usize = 0;
    while i < nodes.len()
        invariant
            0 <= i <= nodes@.len(),
            feedback@.len() == nodes@.len(),
            keys@.no_duplicates(),
            obeys_concrete_eq::<K>(),
            fbk@.len() == keys@.len(),
            forall|p: int|
                0 <= p < keys@.len() ==> (#[trigger] fbk@[p] <==> exists|k: int|
                    0 <= k < i && #[trigger] nodes@[k] == keys@[p] && feedback@[k]),
        decreases nodes@.len() - i,
    {
        if feedback[i] {
            match position_of(keys, &nodes[i]) {
                Some(p) => {
                    fbk[p] = true;
                },
                None => {},
            }
        }
        proof {
            assert forall|p: int| 0 <= p < keys@.len() implies (#[trigger] fbk@[p] <==> exists|k: int|
                0 <= k < i + 1 && #[trigger] nodes@[k] == keys@[p] && feedback@[k]) by {
                if exists|k: int| 0 <= k < i + 1 && #[trigger] nodes@[k] == keys@[p] && feedback@[k] {
                    let k = choose|k: int| 0 <= k < i + 1 && #[trigger] nodes@[k] == keys@[p] && feedback@[k];
                    if k == i {
                        assert(keys@.contains(nodes@[i as int]));
                    }
                }
            }
        }
        i += 1;
    }
    proof {
        assert forall|p: int|
            0 <= p < keys@.len() implies (#[trigger] fbk@[p] <==> allows_feedback_in(
                nodes@,
                feedback@,
                keys@[p],
            )) by {
            if allows_feedback_in(nodes@, feedback@, keys@[p]) {
                let k = choose|k: int| 0 <= k < nodes@.len() && #[trigger] nodes@[k] == keys@[p] && feedback@[k];
                assert(nodes@[k] == keys@[p]);
            }
        }
    }
    fbk
}

/// `u` was listed as a dependency of an occurrence of `v` among the first `i`
/// nodes.
pub open spec fn dep_seen<K>(nodes: Seq<K>, deps: Seq<Vec<K>>, i: int, u: K, v: K) -> bool {
    exists|k: int| 0 <= k < i && nodes[k] == v && #[trigger] deps[k]@.contains(u)
}

fn empty_lists(m: usize) -> (g: Vec<Vec<usize>>)
    ensures
        g@.len() == m,
        forall|p: int| 0 <= p < m ==> (#[trigger] g@[p])@.len() == 0,
{
    let mut g: Vec<Vec<usize>> = Vec::with_capacity(m);
    let mut i: usize = 0;
    while i < m
        invariant
            i <= m,
            g@.len() == i,
            forall|p: int| 0 <= p < i ==> (#[trigger] g@[p])@.len() == 0,
        decreases m - i,
    {
        g.push(Vec::new());
        i += 1;
    }
    g
}

/// Successor lists over positions of `keys`: the full dependency graph, and
/// the same graph without the outgoing edges of feedback-allowing nodes.
fn dependency_adjacency<K: Eq>(
    nodes: &Vec<K>,
    deps: &Vec<Vec<K>>,
    keys: &Vec<K>,
    fbk: &Vec<bool>,
) -> (r: (Vec<Vec<usize>>, Vec<Vec<usize>>))
    requires
        obeys_concrete_eq::<K>(),
        deps@.len() == nodes@.len(),
        keys@.no_duplicates(),
        forall|x: K| keys@.contains(x) <==> nodes@.contains(x),
        fbk@.len() == keys@.len(),
    ensures
        r.0@.len() == keys@.len(),
        r.1@.len() == keys@.len(),
        graph_wf(r.0@),
        graph_wf(r.1@),
        forall|p: usize, q: usize|
            p < keys@.len() && q < keys@.len() ==> (#[trigger] r.0@[p as int]@.contains(q)
                <==> depends_on(nodes@, list_views(deps@), keys@[p as int], keys@[q as int])),
        forall|p: usize, q: usize|
            p < keys@.len() && q < keys@.len() ==> (#[trigger] r.1@[p as int]@.contains(q) <==> (
            r.0@[p as int]@.contains(q) && !fbk@[p as int])),
{
    let m = keys.len();
    let mut full = empty_lists(m);
    let mut sort = empty_lists(m);
    let mut i: usize = 0;
    while i < nodes.len()
        invariant
            0 <= i <= nodes@.len(),
            obeys_concrete_eq::<K>(),
            deps@.len() == nodes@.len(),
            keys@.no_duplicates(),
            forall|x: K| keys@.contains(x) <==> nodes@.contains(x),
            fbk@.len() == m,
            m == keys@.len(),
            full@.len() == m,
            sort@.len() == m,
            graph_wf(full@),
            graph_wf(sort@),
            forall|p: usize, q: usize|
                p < m && q < m ==> (#[trigger] full@[p as int]@.contains(q) <==> dep_seen(
                    nodes@,
                    deps@,
                    i as int,
                    keys@[p as int],
                    keys@[q as int],
                )),
            forall|p: usize, q: usize|
                p < m && q < m ==> (#[trigger] sort@[p as int]@.contains(q) <==> (
                full@[p as int]@.contains(q) && !fbk@[p as int])),
        decreases nodes@.len() - i,
    {
        assert(nodes@.contains(nodes@[i as int]));
        let q = match position_of(keys, &nodes[i]) {
            Some(q) => q,
            None => {
                assert(false);
                0
            },
        };
        let list = &deps[i];
        let mut j: usize = 0;
        while j < list.len()
            invariant
                0 <= i < nodes@.len(),
                0 <= j <= list@.len(),
                list == &deps@[i as int],
                q < m,
                keys@[q as int] == nodes@[i as int],
                obeys_concrete_eq::<K>(),
                deps@.len() == nodes@.len(),
                keys@.no_duplicates(),
                forall|x: K| keys@.contains(x) <==> nodes@.contains(x),
                fbk@.len() == m,
                m == keys@.len(),
                full@.len() == m,
                sort@.len() == m,
                graph_wf(full@),
                graph_wf(sort@),
                forall|p: usize, qq: usize|
                    p < m && qq < m ==> (#[trigger] full@[p as int]@.contains(qq) <==> (dep_seen(
                        nodes@,
                        deps@,
                        i as int,
                        keys@[p as int],
                        keys@[qq as int],
                    ) || (qq == q && list@.subrange(0, j as int).contains(keys@[p as int])))),
                forall|p: usize, qq: usize|
                    p < m && qq < m ==> (#[trigger] sort@[p as int]@.contains(qq) <==> (
                    full@[p as int]@.contains(qq) && !fbk@[p as int])),
            decreases list@.len() - j,
        {
            let found = position_of(keys, &list[j]);
            let ghost full0 = full@;
            let ghost sort0 = sort@;
            match found {
                Some(p) => {
                    full[p].push(q);
                    if !fbk[p] {
                        sort[p].push(q);
                    }
                },
                None => {},
            }
            proof {
                assert forall|pp: usize, qq: usize|
                    pp < m && qq < m implies (#[trigger] full@[pp as int]@.contains(qq) <==> (dep_seen(
                        nodes@,
                        deps@,
                        i as int,
                        keys@[pp as int],
                        keys@[qq as int],
                    ) || (qq == q && list@.subrange(0, j + 1).contains(keys@[pp as int])))) by {
                    assert(full0[pp as int]@.contains(qq) <==> (dep_seen(
                        nodes@,
                        deps@,
                        i as int,
                        keys@[pp as int],
                        keys@[qq as int],
                    ) || (qq == q && list@.subrange(0, j as int).contains(keys@[pp as int]))));
                    lemma_subrange_extend_contains(list@, j as int, keys@[pp as int]);
                    match found {
                        Some(p) => {
                            if pp == p {
                                assert(full@[pp as int]@ == full0[pp as int]@.push(q));
                                lemma_push_contains(full0[pp as int]@, q, qq);
                            } else {
                                assert(full@[pp as int] == full0[pp as int]);
                                assert(keys@[pp as int] != keys@[p as int]);
                            }
                        },
                        None => {
                            assert(full@[pp as int] == full0[pp as int]);
                            assert(keys@.contains(keys@[pp as int]));
                        },
                    }
                }
                assert forall|pp: usize, qq: usize|
                    pp < m && qq < m implies (#[trigger] sort@[pp as int]@.contains(qq) <==> (
                    full@[pp as int]@.contains(qq) && !fbk@[pp as int])) by {
                    assert(sort0[pp as int]@.contains(qq) <==> (full0[pp as int]@.contains(qq)
                        && !fbk@[pp as int]));
                    match found {
                        Some(p) => {
                            if pp == p {
                                lemma_push_contains(full0[pp as int]@, q, qq);
                                if !fbk@[pp as int] {
                                    lemma_push_contains(sort0[pp as int]@, q, qq);
                                } else {
                                    assert(sort@[pp as int] == sort0[pp as int]);
                                }
                            } else {
                                assert(full@[pp as int] == full0[pp as int]);
                                assert(sort@[pp as int] == sort0[pp as int]);
                            }
                        },
                        None => {},
                    }
                }
                assert(graph_wf(full@)) by {
                    assert forall|a: int, k: int|
                        0 <= a < full@.len() && 0 <= k < full@[a]@.len() implies (#[trigger] full@[a]@[k])
                        < full@.len() by {
                        if k < full0[a]@.len() {
                            assert(full@[a]@[k] == full0[a]@[k]);
                        }
                    }
                }
                assert(graph_wf(sort@)) by {
                    assert forall|a: int, k: int|
                        0 <= a < sort@.len() && 0 <= k < sort@[a]@.len() implies (#[trigger] sort@[a]@[k])
                        < sort@.len() by {
                        if k < sort0[a]@.len() {
                            assert(sort@[a]@[k] == sort0[a]@[k]);
                        }
                    }
                }
            }
            j += 1;
        }
        proof {
            assert(list@.subrange(0, list@.len() as int) =~= list@);
            assert forall|p: usize, qq: usize|
                p < m && qq < m implies (#[trigger] full@[p as int]@.contains(qq) <==> dep_seen(
                    nodes@,
                    deps@,
                    i + 1,
                    keys@[p as int],
                    keys@[qq as int],
                )) by {
                if dep_seen(nodes@, deps@, i + 1, keys@[p as int], keys@[qq as int]) {
                    let k = choose|k: int|
                        0 <= k < i + 1 && nodes@[k] == keys@[qq as int] && #[trigger] deps@[k]@.contains(
                            keys@[p as int],
                        );
                    if k == i {
                        assert(keys@[qq as int] == keys@[q as int]);
                    } else {
                        assert(dep_seen(nodes@, deps@, i as int, keys@[p as int], keys@[qq as int]));
                    }
                }
                if dep_seen(nodes@, deps@, i as int, keys@[p as int], keys@[qq as int]) {
                    let k = choose|k: int|
                        0 <= k < i && nodes@[k] == keys@[qq as int] && #[trigger] deps@[k]@.contains(
                            keys@[p as int],
                        );
                    assert(dep_seen(nodes@, deps@, i + 1, keys@[p as int], keys@[qq as int]));
                }
                if qq == q && list@.contains(keys@[p as int]) {
                    assert(deps@[i as int]@.contains(keys@[p as int]));
                    assert(dep_seen(nodes@, deps@, i + 1, keys@[p as int], keys@[qq as int]));
                }
            }
        }
        i += 1;
    }
    proof {
        assert forall|p: usize, q: usize|
            p < m && q < m implies (#[trigger] full@[p as int]@.contains(q) <==> depends_on(
                nodes@,
                list_views(deps@),
                keys@[p as int],
                keys@[q as int],
            )) by {
            if depends_on(nodes@, list_views(deps@), keys@[p as int], keys@[q as int]) {
                let k = choose|k: int|
                    0 <= k < nodes@.len() && nodes@[k] == keys@[q as int] && #[trigger] list_views(
                        deps@,
                    )[k].contains(keys@[p as int]);
                assert(deps@[k]@.contains(keys@[p as int]));
            }
            if dep_seen(nodes@, deps@, nodes@.len() as int, keys@[p as int], keys@[q as int]) {
                let k = choose|k: int|
                    0 <= k < nodes@.len() && nodes@[k] == keys@[q as int] && #[trigger] deps@[k]@.contains(
                        keys@[p as int],
                    );
                assert(list_views(deps@)[k].contains(keys@[p as int]));
            }
        }
    }
    (full, sort)
}

proof fn lemma_push_contains(s: Seq<usize>, x: usize, y: usize)
    ensures
        s.push(x).contains(y) <==> (s.contains(y) || y == x),
{
    if s.contains(y) {
        let k = choose|k: int| 0 <= k < s.len() && s[k] == y;
        assert(s.push(x)[k] == y);
    }
    if s.push(x).contains(y) {
        let k = choose|k: int| 0 <= k < s.len() + 1 && #[trigger] s.push(x)[k] == y;
        if k < s.len() {
            assert(s[k] == y);
        }
    }
    assert(s.push(x)[s.len() as int] == x);
}

proof fn lemma_subrange_extend_contains<K>(s: Seq<K>, j: int, y: K)
    requires
        0 <= j < s.len(),
    ensures
        s.subrange(0, j + 1).contains(y) <==> (s.subrange(0, j).contains(y) || s[j] == y),
{
    if s.subrange(0, j).contains(y) {
        let k = choose|k: int| 0 <= k < j && #[trigger] s.subrange(0, j)[k] == y;
        assert(s.subrange(0, j + 1)[k] == y);
    }
    if s.subrange(0, j + 1).contains(y) {
        let k = choose|k: int| 0 <= k < j + 1 && #[trigger] s.subrange(0, j + 1)[k] == y;
        if k < j {
            assert(s.subrange(0, j)[k] == y);
        }
    }
    assert(s.subrange(0, j + 1)[j] == s[j]);
}


/// A cycle over positions of `keys` in a graph whose edges are dependencies
/// and whose marks are the feedback flags is a feedback-free cycle of the
/// corresponding nodes.
proof fn lemma_index_cycle_is_feedback_free<K>(
    nodes: Seq<K>,
    deps: Seq<Seq<K>>,
    feedback: Seq<bool>,
    keys: Seq<K>,
    g: Seq<Vec<usize>>,
    marks: Seq<bool>,
    p: Seq<usize>,
)
    requires
        g.len() == keys.len(),
        marks.len() == keys.len(),
        forall|a: usize, b: usize|
            a < keys.len() && b < keys.len() && #[trigger] g[a as int]@.contains(b) ==> depends_on(
                nodes,
                deps,
                keys[a as int],
                keys[b as int],
            ),
        forall|a: int|
            0 <= a < keys.len() ==> (#[trigger] marks[a] <==> allows_feedback_in(
                nodes,
                feedback,
                keys[a],
            )),
        graph_wf(g),
        is_unmarked_cycle(g, marks, p),
    ensures
        is_feedback_free_cycle(nodes, deps, feedback, p.map_values(|i: usize| keys[i as int])),
{
    let c = p.map_values(|i: usize| keys[i as int]);
    assert forall|j: int| 0 <= j < c.len() implies !allows_feedback_in(
        nodes,
        feedback,
        #[trigger] c[j],
    ) by {
        assert(p[j] < marks.len() && !marks[p[j] as int]);
    }
    assert forall|j: int| 0 <= j < c.len() - 1 implies depends_on(
        nodes,
        deps,
        #[trigger] c[j],
        c[j + 1],
    ) by {
        assert(succ_edge(g, p[j], p[j + 1]));
        assert(g[p[j] as int]@.contains(p[j + 1]));
        let k = choose|k: int| 0 <= k < g[p[j] as int]@.len() && g[p[j] as int]@[k] == p[j + 1];
        assert(p[j + 1] < g.len());
    }
    assert(succ_edge(g, p.last(), p[0]));
    let k = choose|k: int| 0 <= k < g[p.last() as int]@.len() && g[p.last() as int]@[k] == p[0];
    assert(p[0] < g.len());
    assert(c.last() == keys[p.last() as int]);
}

/// In the ordering graph every position on a cycle is unmarked.
proof fn lemma_sort_cycle_unmarked(
    g: Seq<Vec<usize>>,
    marks: Seq<bool>,
    full: Seq<Vec<usize>>,
    p: Seq<usize>,
)
    requires
        g.len() == marks.len(),
        full.len() == g.len(),
        graph_wf(g),
        forall|a: usize, b: usize|
            a < g.len() && b < g.len() ==> (#[trigger] g[a as int]@.contains(b) <==> (
            full[a as int]@.contains(b) && !marks[a as int])),
        is_cycle(g, p),
    ensures
        is_unmarked_cycle(g, marks, p),
        is_cycle(full, p),
{
    assert forall|j: int| 0 <= j < p.len() implies p[j] < marks.len() && !marks[
        #[trigger] p[j] as int] by {
        let nxt = if j < p.len() - 1 {
            p[j + 1]
        } else {
            p[0]
        };
        if j < p.len() - 1 {
            assert(succ_edge(g, p[j], p[j + 1]));
        } else {
            assert(succ_edge(g, p.last(), p[0]));
        }
        assert(g[p[j] as int]@.contains(nxt));
        let k = choose|k: int| 0 <= k < g[p[j] as int]@.len() && g[p[j] as int]@[k] == nxt;
        assert(nxt < g.len());
    }
    assert forall|j: int| 0 <= j < p.len() - 1 implies succ_edge(full, #[trigger] p[j], p[j + 1]) by {
        assert(succ_edge(g, p[j], p[j + 1]));
        let k = choose|k: int| 0 <= k < g[p[j] as int]@.len() && g[p[j] as int]@[k] == p[j + 1];
        assert(p[j + 1] < g.len());
    }
    assert(succ_edge(g, p.last(), p[0]));
    let k = choose|k: int| 0 <= k < g[p.last() as int]@.len() && g[p.last() as int]@[k] == p[0];
    assert(p[0] < g.len());
}

/// A feedback-free cycle of nodes is a cycle of their positions in the
/// ordering graph.
proof fn lemma_feedback_free_cycle_is_index_cycle<K>(
    nodes: Seq<K>,
    deps: Seq<Seq<K>>,
    feedback: Seq<bool>,
    keys: Seq<K>,
    g: Seq<Vec<usize>>,
    c: Seq<K>,
)
    requires
        keys.no_duplicates(),
        keys.len() <= usize::MAX,
        forall|x: K| keys.contains(x) <==> nodes.contains(x),
        g.len() == keys.len(),
        forall|a: usize, b: usize|
            a < keys.len() && b < keys.len() ==> (#[trigger] g[a as int]@.contains(b) <==> (
            depends_on(nodes, deps, keys[a as int], keys[b as int]) && !allows_feedback_in(
                nodes,
                feedback,
                keys[a as int],
            ))),
        is_feedback_free_cycle(nodes, deps, feedback, c),
    ensures
        on_cycle(g, keys.index_of(c[0]) as usize),
{
    assert forall|j: int| 0 <= j < c.len() implies keys.contains(#[trigger] c[j]) by {
        let prev = if j == 0 {
            c.last()
        } else {
            c[j - 1]
        };
        if j == 0 {
        } else {
            assert(depends_on(nodes, deps, c[j - 1], c[j]));
        }
        assert(depends_on(nodes, deps, prev, c[j]));
        let i = choose|i: int| 0 <= i < nodes.len() && nodes[i] == c[j] && #[trigger] deps[i].contains(prev);
        assert(nodes.contains(c[j]));
    }
    let p = c.map_values(|x: K| keys.index_of(x) as usize);
    assert forall|j: int| 0 <= j < c.len() implies 0 <= keys.index_of(#[trigger] c[j]) < keys.len()
        && keys[keys.index_of(c[j])] == c[j] && p[j] == keys.index_of(c[j]) by {
        assert(keys.contains(c[j]));
    }
    assert forall|j: int| 0 <= j < p.len() - 1 implies succ_edge(g, #[trigger] p[j], p[j + 1]) by {
        assert(keys.contains(c[j]));
        assert(keys.contains(c[j + 1]));
        assert(depends_on(nodes, deps, c[j], c[j + 1]));
        assert(!allows_feedback_in(nodes, feedback, c[j]));
        assert(g[p[j] as int]@.contains(p[j + 1]));
    }
    assert(keys.contains(c[0]));
    assert(keys.contains(c.last()));
    assert(!allows_feedback_in(nodes, feedback, c[c.len() - 1]));
    assert(g[p.last() as int]@.contains(p[0]));
    assert(is_cycle(g, p));
}

/// Orders `nodes` so that each node comes after the nodes it depends on,
/// where `dependencies[i]` lists what `nodes[i]` depends on and
/// `feedback[i]` tells whether `nodes[i]` may break a cycle (its outgoing
/// dependency edges are then ignored). Fails with a node on a cycle none of
/// whose nodes allows feedback.
pub fn sort_by_dependencies<K: Eq + Clone>(
    nodes: &Vec<K>,
    dependencies: &Vec<Vec<K>>,
    feedback: &Vec<bool>,
) -> (r: Result<Vec<K>, TopologyError<K>>)
    requires
        dependencies@.len() == nodes@.len(),
        feedback@.len() == nodes@.len(),
        obeys_concrete_eq::<K>(),
        forall|a: K, b: K| #[trigger] strictly_cloned(a, b) ==> a == b,
    ensures
        sort_result(nodes@, list_views(dependencies@), feedback@, r),
{
    let ghost deps = list_views(dependencies@);
    let keys = distinct_keys(nodes);
    let fbk = feedback_per_key(nodes, feedback, &keys);
    let (full, sort) = dependency_adjacency(nodes, dependencies, &keys, &fbk);
    let ghost m = keys@.len();
    proof {
        assert(m <= usize::MAX) by {
            assert(keys@.len() == keys.len());
        }
        assert forall|a: usize, b: usize|
            a < m && b < m implies (#[trigger] sort@[a as int]@.contains(b) <==> (depends_on(
                nodes@,
                deps,
                keys@[a as int],
                keys@[b as int],
            ) && !allows_feedback_in(nodes@, feedback@, keys@[a as int]))) by {
            assert(fbk@[a as int] <==> allows_feedback_in(nodes@, feedback@, keys@[a as int]));
            assert(full@[a as int]@.contains(b) <==> depends_on(
                nodes@,
                deps,
                keys@[a as int],
                keys@[b as int],
            ));
        }
    }
    match dfs_finish_order(&sort) {
        Err(w) => {
            let x = keys[w].clone();
            assert(strictly_cloned(keys@[w as int], x));
            let path = vec![x];
            proof {
                let p = choose|p: Seq<usize>| is_cycle(sort@, p) && p[0] == w;
                lemma_sort_cycle_unmarked(sort@, fbk@, full@, p);
                lemma_index_cycle_is_feedback_free(nodes@, deps, feedback@, keys@, sort@, fbk@, p);
                let c = p.map_values(|i: usize| keys@[i as int]);
                assert(is_feedback_free_cycle(nodes@, deps, feedback@, c) && c[0] == path@[0]);
            }
            return Err(TopologyError::CycleDetected { path });
        },
        Ok(sorted) => {
            proof {
                if has_feedback_free_cycle(nodes@, deps, feedback@) {
                    let c = choose|c: Seq<K>| is_feedback_free_cycle(nodes@, deps, feedback@, c);
                    lemma_feedback_free_cycle_is_index_cycle(nodes@, deps, feedback@, keys@, sort@, c);
                    lemma_finish_order_acyclic(sort@, sorted@, keys@.index_of(c[0]) as usize);
                }
            }
            let len = sorted.len();
            let mut order: Vec<K> = Vec::with_capacity(len);
            let mut t: usize = 0;
            while t < len
                invariant
                    len == sorted@.len(),
                    t <= len,
                    order@.len() == t,
                    forall|k: int| 0 <= k < len ==> #[trigger] sorted@[k] < m,
                    m == keys@.len(),
                    forall|a: K, b: K| #[trigger] strictly_cloned(a, b) ==> a == b,
                    forall|k: int|
                        0 <= k < t ==> #[trigger] order@[k] == keys@[sorted@[len - 1 - k] as int],
                decreases len - t,
            {
                let x = keys[sorted[len - 1 - t]].clone();
                assert(strictly_cloned(keys@[sorted@[len - 1 - t] as int], x));
                order.push(x);
                t += 1;
            }
            proof {
                lemma_order_is_processing_order(
                    nodes@,
                    deps,
                    feedback@,
                    keys@,
                    sort@,
                    sorted@,
                    order@,
                );
            }
            match verify_cycles_have_feedback(keys.as_slice(), &full, &fbk) {
                Err(e) => {
                    proof {
                        let path = match &e {
                            TopologyError::CycleDetected { path } => *path,
                        };
                        let p = choose|p: Seq<usize>|
                            {
                                &&& is_unmarked_cycle(full@, fbk@, p)
                                &&& path@ == p.map_values(|i: usize| keys@[i as int])
                            };
                        lemma_index_cycle_is_feedback_free(nodes@, deps, feedback@, keys@, full@, fbk@, p);
                        assert(is_feedback_free_cycle(
                            nodes@,
                            deps,
                            feedback@,
                            p.map_values(|i: usize| keys@[i as int]),
                        ));
                    }
                    return Err(e);
                },
                Ok(()) => {},
            }
            Ok(order)
        },
    }
}

proof fn lemma_order_is_processing_order<K>(
    nodes: Seq<K>,
    deps: Seq<Seq<K>>,
    feedback: Seq<bool>,
    keys: Seq<K>,
    g: Seq<Vec<usize>>,
    sorted: Seq<usize>,
    order: Seq<K>,
)
    requires
        keys.no_duplicates(),
        keys.len() <= usize::MAX,
        forall|x: K| keys.contains(x) <==> nodes.contains(x),
        g.len() == keys.len(),
        forall|a: usize, b: usize|
            a < keys.len() && b < keys.len() ==> (#[trigger] g[a as int]@.contains(b) <==> (
            depends_on(nodes, deps, keys[a as int], keys[b as int]) && !allows_feedback_in(
                nodes,
                feedback,
                keys[a as int],
            ))),
        sorted.no_duplicates(),
        forall|v: usize| v < g.len() ==> sorted.contains(v),
        forall|j: int| 0 <= j < sorted.len() ==> #[trigger] sorted[j] < g.len(),
        finished_after_successors(g, sorted),
        order.len() == sorted.len(),
        forall|k: int|
            0 <= k < order.len() ==> #[trigger] order[k] == keys[sorted[order.len() - 1 - k] as int],
    ensures
        is_processing_order(nodes, deps, feedback, order),
{
    let len = order.len();
    assert forall|i: int, j: int|
        0 <= i < len && 0 <= j < len && i != j implies order[i] != order[j] by {
        let a = sorted[len - 1 - i];
        let b = sorted[len - 1 - j];
        assert(a != b);
    }
    assert forall|x: K| order.contains(x) <==> nodes.contains(x) by {
        if order.contains(x) {
            let k = choose|k: int| 0 <= k < len && order[k] == x;
            assert(keys.contains(order[k]));
        }
        if nodes.contains(x) {
            assert(keys.contains(x));
            let a = choose|a: int| 0 <= a < keys.len() && keys[a] == x;
            assert(sorted.contains(a as usize));
            let k = choose|k: int| 0 <= k < sorted.len() && sorted[k] == a as usize;
            assert(order[len - 1 - k] == x);
        }
    }
    assert forall|i: int, j: int|
        0 <= i < len && 0 <= j < len && depends_on(nodes, deps, #[trigger] order[i], #[trigger] order[j])
            && !allows_feedback_in(nodes, feedback, order[i]) implies i < j by {
        let a = sorted[len - 1 - i];
        let b = sorted[len - 1 - j];
        assert(g[a as int]@.contains(b));
        assert(sorted.contains(a)) by {
            assert(sorted[len - 1 - i] == a);
        }
        lemma_finish_order_edge(g, sorted, a, b);
        assert(sorted.index_of(a) == len - 1 - i);
        assert(sorted.index_of(b) == len - 1 - j);
    }
}


/// Orders `nodes` so that each node comes after its dependencies (as
/// reported by `get_dependencies`), ignoring the outgoing dependency edges of
/// nodes for which `allows_feedback` holds. Fails with a node on a cycle
/// none of whose nodes allows feedback.
///
/// Each closure is called once per entry of `nodes`, in order; the result is
/// what [`sort_by_dependencies`] gives for the values they returned.
pub fn topological_sort<K>(
    nodes: Vec<K>,
    get_dependencies: impl Fn(&K) -> Vec<K>,
    allows_feedback: impl Fn(&K) -> bool,
) -> (r: Result<Vec<K>, TopologyError<K>>) where K: Hash + Eq + Clone + Debug
    requires
        obeys_concrete_eq::<K>(),
        forall|a: K, b: K| #[trigger] strictly_cloned(a, b) ==> a == b,
        forall|i: int| 0 <= i < nodes@.len() ==> get_dependencies.requires((&nodes@[i],)),
        forall|i: int| 0 <= i < nodes@.len() ==> allows_feedback.requires((&nodes@[i],)),
    ensures
        exists|deps: Seq<Vec<K>>, flags: Seq<bool>|
            {
                &&& deps.len() == nodes@.len()
                &&& flags.len() == nodes@.len()
                &&& forall|i: int|
                    0 <= i < nodes@.len() ==> get_dependencies.ensures(
                        (&nodes@[i],),
                        #[trigger] deps[i],
                    )
                &&& forall|i: int|
                    0 <= i < nodes@.len() ==> allows_feedback.ensures(
                        (&nodes@[i],),
                        #[trigger] flags[i],
                    )
                &&& sort_result(nodes@, list_views(deps), flags, r)
            },
{
    let mut dependencies: Vec<Vec<K>> = Vec::with_capacity(nodes.len());
    let mut i: usize = 0;
    while i < nodes.len()
        invariant
            i <= nodes@.len(),
            dependencies@.len() == i,
            forall|k: int| 0 <= k < nodes@.len() ==> get_dependencies.requires((&nodes@[k],)),
            forall|k: int|
                0 <= k < i ==> get_dependencies.ensures((&nodes@[k],), #[trigger] dependencies@[k]),
        decreases nodes@.len() - i,
    {
        let d = get_dependencies(&nodes[i]);
        dependencies.push(d);
        i += 1;
    }
    let mut feedback: Vec<bool> = Vec::with_capacity(nodes.len());
    let mut i: usize = 0;
    while i < nodes.len()
        invariant
            i <= nodes@.len(),
            feedback@.len() == i,
            forall|k: int| 0 <= k < nodes@.len() ==> allows_feedback.requires((&nodes@[k],)),
            forall|k: int| 0 <= k < i ==> allows_feedback.ensures((&nodes@[k],), #[trigger] feedback@[k]),
        decreases nodes@.len() - i,
    {
        let f = allows_feedback(&nodes[i]);
        feedback.push(f);
        i += 1;
    }
    let r = sort_by_dependencies(&nodes, &dependencies, &feedback);
    assert(dependencies@.len() == nodes@.len());
    r
}

} // verus!
