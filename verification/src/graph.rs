//! A directed graph whose vertices are identified by their `u64`
//! value, with optional non-negative edge weights.
//!
//! Nodes are stored in insertion order; each node owns its outgoing
//! edges, and an edge names its destination by value rather than by
//! reference. The graph keeps two invariants: node values are unique,
//! and every edge's destination names an existing node (removing a
//! node prunes every edge that pointed at it).
//!
//! The view of a graph is the sequence of its nodes, each a pair of
//! the node's value and its outgoing edge sequence.

use vstd::prelude::*;
use vstd::set_lib::lemma_len_subset;
use crate::seqs::{
    lemma_filter_identity, lemma_filter_subset, lemma_push_no_duplicates, vec_contains,
};

verus! {

/// An outgoing edge: the destination node's value, and an optional
/// weight. A missing weight counts as zero cost in path search.
#[derive(Clone, Copy)]
pub struct Edge {
    pub destination: u64,
    pub weight: Option<u64>,
}

/// A node: its identifying value and its outgoing edges, in
/// insertion order.
pub struct GraphNode {
    pub value: u64,
    pub edges: Vec<Edge>,
}

/// The abstract state of a graph: one pair per node, in node
/// insertion order.
pub type GraphView = Seq<(u64, Seq<Edge>)>;

/// The value of the node at the given position.
pub open spec fn val_at(g: GraphView, i: int) -> u64 {
    g[i].0
}

/// The edge sequence of the node at the given position.
pub open spec fn adj_at(g: GraphView, i: int) -> Seq<Edge> {
    g[i].1
}

/// Whether some node carries the given value.
pub open spec fn has_node(g: GraphView, v: u64) -> bool {
    exists|i: int| 0 <= i < g.len() && val_at(g, i) == v
}

/// The position of the node with the given value; meaningful only
/// when the node exists and values are unique.
pub open spec fn node_index(g: GraphView, v: u64) -> int {
    choose|i: int| 0 <= i < g.len() && val_at(g, i) == v
}

/// The outgoing edges of the node with the given value; an absent
/// node has none.
pub open spec fn adjacency(g: GraphView, v: u64) -> Seq<Edge> {
    if has_node(g, v) {
        adj_at(g, node_index(g, v))
    } else {
        Seq::empty()
    }
}

/// The destinations of an edge sequence, in order.
pub open spec fn targets(adj: Seq<Edge>) -> Seq<u64> {
    adj.map_values(|e: Edge| e.destination)
}

/// Whether the graph has an edge from `a` to `b`.
pub open spec fn has_edge(g: GraphView, a: u64, b: u64) -> bool {
    targets(adjacency(g, a)).contains(b)
}

/// Whether the value sequence steps through existing edges; a path
/// starts at an existing node and may consist of that node alone.
pub open spec fn is_path(g: GraphView, p: Seq<u64>) -> bool {
    &&& p.len() >= 1
    &&& has_node(g, p[0])
    &&& forall|i: int| 0 <= i < p.len() - 1 ==> has_edge(g, #[trigger] p[i], p[i + 1])
}

/// Whether some path leads from `a` to `b`; every existing node
/// reaches itself.
pub open spec fn reaches(g: GraphView, a: u64, b: u64) -> bool {
    exists|p: Seq<u64>| is_path(g, p) && p.first() == a && p.last() == b
}

/// Whether the graph holds a directed cycle; a self-loop counts.
pub open spec fn has_cycle(g: GraphView) -> bool {
    exists|p: Seq<u64>| is_path(g, p) && p.len() >= 2 && p.first() == p.last()
}

/// The cost of one edge: its weight, or zero when the weight is
/// absent.
pub open spec fn edge_cost(e: Edge) -> nat {
    match e.weight {
        Some(w) => w as nat,
        None => 0,
    }
}

/// A cost clipped to what a machine word can hold; distance sums
/// saturate there.
pub open spec fn clip_cost(a: nat) -> nat {
    if a <= u64::MAX as nat {
        a
    } else {
        u64::MAX as nat
    }
}

/// The cheapest cost of an edge in the sequence that points at the
/// given value; meaningful when one exists.
pub open spec fn min_step_cost(adj: Seq<Edge>, b: u64) -> nat
    decreases adj.len(),
{
    if adj.len() == 0 {
        0
    } else {
        let rest = adj.drop_last();
        let rest_cost = min_step_cost(rest, b);
        if adj.last().destination == b {
            if targets(rest).contains(b) && rest_cost <= edge_cost(adj.last()) {
                rest_cost
            } else {
                edge_cost(adj.last())
            }
        } else {
            rest_cost
        }
    }
}

/// The cheapest cost of a step from `a` to `b`, over the parallel
/// edges between them.
pub open spec fn step_cost(g: GraphView, a: u64, b: u64) -> nat {
    min_step_cost(adjacency(g, a), b)
}

/// The total cost of a path: the clipped sum of the cheapest step
/// between each consecutive pair.
pub open spec fn path_cost(g: GraphView, p: Seq<u64>) -> nat
    decreases p.len(),
{
    if p.len() <= 1 {
        0
    } else {
        clip_cost(path_cost(g, p.drop_last()) + step_cost(g, p[p.len() - 2], p[p.len() - 1]))
    }
}

/// The cheapest step cost is a lower bound on every parallel edge
/// and is attained by one of them.
proof fn lemma_min_step_cost(adj: Seq<Edge>, b: u64)
    requires
        targets(adj).contains(b),
    ensures
        forall|k: int|
            0 <= k < adj.len() && (#[trigger] adj[k]).destination == b ==> min_step_cost(adj, b)
                <= edge_cost(adj[k]),
        exists|k: int|
            0 <= k < adj.len() && (#[trigger] adj[k]).destination == b && min_step_cost(adj, b)
                == edge_cost(adj[k]),
    decreases adj.len(),
{
    let kw = choose|kw: int| 0 <= kw < targets(adj).len() && targets(adj)[kw] == b;
    assert(adj[kw].destination == b);
    let rest = adj.drop_last();
    let n = adj.len() as int;
    if adj.last().destination == b {
        if targets(rest).contains(b) {
            lemma_min_step_cost(rest, b);
            assert forall|k: int|
                0 <= k < n && (#[trigger] adj[k]).destination == b implies min_step_cost(adj, b)
                <= edge_cost(adj[k]) by {
                if k < n - 1 {
                    assert(rest[k] == adj[k]);
                    assert(min_step_cost(rest, b) <= edge_cost(rest[k]));
                }
            }
            if targets(rest).contains(b) && min_step_cost(rest, b) <= edge_cost(adj.last()) {
                let k0 = choose|k0: int|
                    0 <= k0 < rest.len() && (#[trigger] rest[k0]).destination == b
                        && min_step_cost(rest, b) == edge_cost(rest[k0]);
                assert(adj[k0] == rest[k0]);
                assert((#[trigger] adj[k0]).destination == b && min_step_cost(adj, b)
                    == edge_cost(adj[k0]));
            } else {
                assert((#[trigger] adj[n - 1]).destination == b && min_step_cost(adj, b)
                    == edge_cost(adj[n - 1]));
            }
        } else {
            assert forall|k: int|
                0 <= k < n && (#[trigger] adj[k]).destination == b implies min_step_cost(adj, b)
                <= edge_cost(adj[k]) by {
                if k < n - 1 {
                    assert(targets(rest)[k] == b);
                    assert(targets(rest).contains(b));
                }
            }
            assert((#[trigger] adj[n - 1]).destination == b && min_step_cost(adj, b) == edge_cost(
                adj[n - 1],
            ));
        }
    } else {
        assert(kw != n - 1);
        assert(targets(rest)[kw] == b);
        assert(targets(rest).contains(b));
        lemma_min_step_cost(rest, b);
        assert forall|k: int|
            0 <= k < n && (#[trigger] adj[k]).destination == b implies min_step_cost(adj, b)
            <= edge_cost(adj[k]) by {
            assert(k != n - 1);
            assert(rest[k] == adj[k]);
            assert(min_step_cost(rest, b) <= edge_cost(rest[k]));
        }
        let k0 = choose|k0: int|
            0 <= k0 < rest.len() && (#[trigger] rest[k0]).destination == b && min_step_cost(rest, b)
                == edge_cost(rest[k0]);
        assert(adj[k0] == rest[k0]);
        assert((#[trigger] adj[k0]).destination == b && min_step_cost(adj, b) == edge_cost(
            adj[k0],
        ));
    }
}

/// A path cost never exceeds the clipping bound.
proof fn lemma_path_cost_le_max(g: GraphView, p: Seq<u64>)
    ensures
        path_cost(g, p) <= u64::MAX as nat,
{
    if p.len() > 1 {
        assert(path_cost(g, p) == clip_cost(
            path_cost(g, p.drop_last()) + step_cost(g, p[p.len() - 2], p[p.len() - 1]),
        ));
    }
}

/// Clipped addition is monotone and regroups freely.
proof fn lemma_clip_add(x: nat, y: nat, z: nat)
    ensures
        clip_cost(clip_cost(x + y) + z) == clip_cost(x + y + z),
        clip_cost(x + clip_cost(y + z)) == clip_cost(x + y + z),
        x <= clip_cost(x + y) || clip_cost(x + y) == u64::MAX as nat,
{
}

/// A prefix of a path costs no more than the whole path.
proof fn lemma_path_cost_take_mono(g: GraphView, p: Seq<u64>, j: int)
    requires
        1 <= j <= p.len(),
    ensures
        path_cost(g, p.take(j)) <= path_cost(g, p),
    decreases p.len() - j,
{
    if j == p.len() {
        assert(p.take(j) =~= p);
    } else {
        assert(p.take(j + 1).drop_last() =~= p.take(j));
        assert(p.take(j + 1)[j - 1] == p[j - 1] && p.take(j + 1)[j] == p[j]);
        lemma_path_cost_le_max(g, p.take(j));
        assert(path_cost(g, p.take(j)) <= path_cost(g, p.take(j + 1)));
        lemma_path_cost_take_mono(g, p, j + 1);
    }
}

/// The cost of a path extended at the front is the clipped sum of
/// the first step and the rest.
proof fn lemma_path_cost_cons(g: GraphView, a: u64, p: Seq<u64>)
    requires
        p.len() >= 1,
    ensures
        path_cost(g, seq![a] + p) == clip_cost(step_cost(g, a, p[0]) + path_cost(g, p)),
    decreases p.len(),
{
    let q = seq![a] + p;
    if p.len() == 1 {
        assert(q.len() == 2);
        assert(q.drop_last() =~= seq![a]);
        assert(q[0] == a && q[1] == p[0]);
        assert(path_cost(g, q.drop_last()) == 0);
        assert(path_cost(g, p) == 0);
    } else {
        let pd = p.drop_last();
        lemma_path_cost_cons(g, a, pd);
        assert(q.drop_last() =~= seq![a] + pd);
        assert(pd[0] == p[0]);
        assert(q[q.len() - 2] == p[p.len() - 2] && q[q.len() - 1] == p[p.len() - 1]);
        let s0 = step_cost(g, a, p[0]);
        let c1 = path_cost(g, pd);
        let c2 = step_cost(g, p[p.len() - 2], p[p.len() - 1]);
        assert(path_cost(g, q) == clip_cost(clip_cost(s0 + c1) + c2));
        lemma_clip_add(s0, c1, c2);
    }
}

/// Node values are unique and every edge destination names an
/// existing node.
pub open spec fn graph_wf(g: GraphView) -> bool {
    &&& forall|i: int, j: int| 0 <= i < j < g.len() ==> val_at(g, i) != val_at(g, j)
    &&& forall|i: int, k: int|
        0 <= i < g.len() && 0 <= k < adj_at(g, i).len() ==> has_node(
            g,
            #[trigger] targets(adj_at(g, i))[k],
        )
}

/// An edge sequence without the edges that point at the given value.
pub open spec fn prune_edges(adj: Seq<Edge>, v: u64) -> Seq<Edge> {
    adj.filter(|e: Edge| e.destination != v)
}

/// The graph after adding a node: unchanged when the value is
/// already present, else extended by an edgeless node.
pub open spec fn spec_add_node(g: GraphView, v: u64) -> GraphView {
    if has_node(g, v) {
        g
    } else {
        g.push((v, Seq::empty()))
    }
}

/// The graph after removing a node: the node is dropped and every
/// edge pointing at it is pruned from the remaining nodes.
pub open spec fn spec_remove_node(g: GraphView, v: u64) -> GraphView
    decreases g.len(),
{
    if g.len() == 0 {
        g
    } else {
        let rest = spec_remove_node(g.drop_last(), v);
        if g.last().0 == v {
            rest
        } else {
            rest.push((g.last().0, prune_edges(g.last().1, v)))
        }
    }
}

/// The graph after adding an edge: appended to the source node's
/// adjacency when both endpoints exist, else unchanged.
pub open spec fn spec_add_edge(g: GraphView, s: u64, d: u64, w: Option<u64>) -> GraphView {
    if has_node(g, s) && has_node(g, d) {
        let i = node_index(g, s);
        g.update(i, (s, adj_at(g, i).push(Edge { destination: d, weight: w })))
    } else {
        g
    }
}

/// The graph after removing an edge: every edge from the source to
/// the destination is dropped; an absent source changes nothing.
pub open spec fn spec_remove_edge(g: GraphView, s: u64, d: u64) -> GraphView {
    if has_node(g, s) {
        let i = node_index(g, s);
        g.update(i, (s, prune_edges(adj_at(g, i), d)))
    } else {
        g
    }
}

/// A node survives a removal exactly when it existed before and does
/// not carry the removed value.
pub proof fn lemma_remove_node_membership(g: GraphView, v: u64, x: u64)
    ensures
        has_node(spec_remove_node(g, v), x) <==> (has_node(g, x) && x != v),
    decreases g.len(),
{
    let r = spec_remove_node(g, v);
    if g.len() > 0 {
        let d = g.drop_last();
        let rest = spec_remove_node(d, v);
        lemma_remove_node_membership(d, v, x);
        if g.last().0 == v {
            if has_node(g, x) && x != v {
                let i = choose|i: int| 0 <= i < g.len() && val_at(g, i) == x;
                assert(val_at(g, g.len() - 1) == v);
                assert(i != g.len() - 1);
                assert(val_at(d, i) == x);
            }
            if has_node(d, x) {
                let i = choose|i: int| 0 <= i < d.len() && val_at(d, i) == x;
                assert(val_at(g, i) == x);
            }
        } else {
            if has_node(r, x) {
                let i = choose|i: int| 0 <= i < r.len() && val_at(r, i) == x;
                if i < rest.len() {
                    assert(val_at(rest, i) == x);
                    let j = choose|j: int| 0 <= j < d.len() && val_at(d, j) == x;
                    assert(val_at(g, j) == x);
                } else {
                    assert(x == g.last().0);
                    assert(val_at(g, g.len() - 1) == x);
                }
            }
            if has_node(g, x) && x != v {
                let i = choose|i: int| 0 <= i < g.len() && val_at(g, i) == x;
                if i < g.len() - 1 {
                    assert(val_at(d, i) == x);
                    assert(has_node(rest, x));
                    let j = choose|j: int| 0 <= j < rest.len() && val_at(rest, j) == x;
                    assert(val_at(r, j) == x);
                } else {
                    assert(val_at(r, r.len() - 1) == x);
                }
            }
        }
    }
}

/// Whether an entry of a pruned graph is the old node at position
/// `j` with its edges to the removed value pruned.
pub open spec fn derived_from(g: GraphView, v: u64, entry: (u64, Seq<Edge>), j: int) -> bool {
    &&& 0 <= j < g.len()
    &&& entry == (val_at(g, j), prune_edges(adj_at(g, j), v))
    &&& val_at(g, j) != v
}

/// Whether position `i` of the graph after a removal is derived
/// from some old node.
pub open spec fn pruned_entry_ok(g: GraphView, v: u64, i: int) -> bool {
    exists|j: int| #[trigger] derived_from(g, v, spec_remove_node(g, v)[i], j)
}

/// Each node of the graph after a removal is an old node, other than
/// the removed one, with the edges to the removed value pruned.
pub proof fn lemma_remove_node_structure(g: GraphView, v: u64)
    ensures
        forall|i: int|
            0 <= i < spec_remove_node(g, v).len() ==> #[trigger] pruned_entry_ok(g, v, i),
    decreases g.len(),
{
    let r = spec_remove_node(g, v);
    if g.len() > 0 {
        let d = g.drop_last();
        let rest = spec_remove_node(d, v);
        lemma_remove_node_structure(d, v);
        assert forall|i: int| 0 <= i < spec_remove_node(g, v).len() implies #[trigger] pruned_entry_ok(
            g,
            v,
            i,
        ) by {
            if i < rest.len() {
                assert(pruned_entry_ok(d, v, i));
                let j = choose|j: int| #[trigger] derived_from(d, v, spec_remove_node(d, v)[i], j);
                assert(val_at(g, j) == val_at(d, j) && adj_at(g, j) == adj_at(d, j));
                assert(derived_from(g, v, r[i], j));
            } else {
                assert(g.last().0 != v);
                let j = g.len() - 1;
                assert(derived_from(g, v, r[i], j));
            }
        }
    }
}

/// Removal keeps node values unique.
pub proof fn lemma_remove_node_unique(g: GraphView, v: u64)
    requires
        forall|i: int, j: int| 0 <= i < j < g.len() ==> val_at(g, i) != val_at(g, j),
    ensures
        forall|i: int, j: int|
            0 <= i < j < spec_remove_node(g, v).len() ==> val_at(spec_remove_node(g, v), i)
                != val_at(spec_remove_node(g, v), j),
    decreases g.len(),
{
    let r = spec_remove_node(g, v);
    if g.len() > 0 {
        let d = g.drop_last();
        let rest = spec_remove_node(d, v);
        assert forall|i: int, j: int| 0 <= i < j < d.len() implies val_at(d, i) != val_at(
            d,
            j,
        ) by {
            assert(val_at(g, i) == val_at(d, i) && val_at(g, j) == val_at(d, j));
        }
        lemma_remove_node_unique(d, v);
        if g.last().0 != v {
            assert forall|i: int, j: int| 0 <= i < j < r.len() implies val_at(r, i) != val_at(
                r,
                j,
            ) by {
                if j < rest.len() {
                    assert(val_at(rest, i) != val_at(rest, j));
                } else {
                    assert(val_at(r, i) == val_at(rest, i));
                    assert(has_node(rest, val_at(rest, i)));
                    lemma_remove_node_membership(d, v, val_at(rest, i));
                    let k = choose|k: int| 0 <= k < d.len() && val_at(d, k) == val_at(rest, i);
                    assert(val_at(g, k) == val_at(rest, i));
                    assert(val_at(g, k) != val_at(g, g.len() - 1));
                    assert(val_at(r, j) == g.last().0);
                }
            }
        }
    }
}

/// Removal preserves the graph invariant.
pub proof fn lemma_remove_node_wf(g: GraphView, v: u64)
    requires
        graph_wf(g),
    ensures
        graph_wf(spec_remove_node(g, v)),
{
    let r = spec_remove_node(g, v);
    lemma_remove_node_unique(g, v);
    lemma_remove_node_structure(g, v);
    assert forall|i: int, k: int|
        0 <= i < r.len() && 0 <= k < adj_at(r, i).len() implies has_node(
        r,
        #[trigger] targets(adj_at(r, i))[k],
    ) by {
        assert(pruned_entry_ok(g, v, i));
        let j = choose|j: int| #[trigger] derived_from(g, v, spec_remove_node(g, v)[i], j);
        let pruned = prune_edges(adj_at(g, j), v);
        let t = targets(pruned)[k];
        assert(pruned[k].destination == t);
        assert(pruned.contains(pruned[k]));
        lemma_filter_subset(adj_at(g, j), |e: Edge| e.destination != v, pruned[k]);
        let m = choose|m: int| 0 <= m < adj_at(g, j).len() && adj_at(g, j)[m] == pruned[k];
        assert(targets(adj_at(g, j))[m] == t);
        assert(has_node(g, t));
        lemma_remove_node_membership(g, v, t);
    }
}

/// After a node is removed, no node carries the removed value and no
/// remaining adjacency references it.
pub proof fn lemma_remove_node_prunes(g: GraphView, v: u64)
    ensures
        !has_node(spec_remove_node(g, v), v),
        forall|i: int, k: int|
            0 <= i < spec_remove_node(g, v).len() && 0 <= k < adj_at(
                spec_remove_node(g, v),
                i,
            ).len() ==> #[trigger] targets(adj_at(spec_remove_node(g, v), i))[k] != v,
{
    let r = spec_remove_node(g, v);
    lemma_remove_node_membership(g, v, v);
    lemma_remove_node_structure(g, v);
    assert forall|i: int, k: int|
        0 <= i < r.len() && 0 <= k < adj_at(r, i).len() implies #[trigger] targets(adj_at(r, i))[k]
        != v by {
        assert(pruned_entry_ok(g, v, i));
        let j = choose|j: int| #[trigger] derived_from(g, v, spec_remove_node(g, v)[i], j);
        let pruned = prune_edges(adj_at(g, j), v);
        assert(pruned[k].destination == targets(adj_at(r, i))[k]);
        assert(pruned.contains(pruned[k]));
        lemma_filter_subset(adj_at(g, j), |e: Edge| e.destination != v, pruned[k]);
    }
}

/// Removing a value from a graph that neither holds it as a node nor
/// references it in any adjacency changes nothing.
pub proof fn lemma_remove_node_noop(g: GraphView, v: u64)
    requires
        forall|i: int| 0 <= i < g.len() ==> val_at(g, i) != v,
        forall|i: int, k: int|
            0 <= i < g.len() && 0 <= k < adj_at(g, i).len() ==> #[trigger] targets(adj_at(g, i))[k]
                != v,
    ensures
        spec_remove_node(g, v) == g,
    decreases g.len(),
{
    let r = spec_remove_node(g, v);
    if g.len() > 0 {
        let d = g.drop_last();
        assert forall|i: int, k: int|
            0 <= i < d.len() && 0 <= k < adj_at(d, i).len() implies #[trigger] targets(
            adj_at(d, i),
        )[k] != v by {
            assert(adj_at(g, i) == adj_at(d, i));
            assert(targets(adj_at(g, i))[k] != v);
        }
        assert forall|i: int| 0 <= i < d.len() implies val_at(d, i) != v by {
            assert(val_at(g, i) != v);
        }
        lemma_remove_node_noop(d, v);
        assert(val_at(g, g.len() - 1) != v);
        let adj = g.last().1;
        assert forall|k: int| 0 <= k < adj.len() implies (|e: Edge| e.destination != v)(
            #[trigger] adj[k],
        ) by {
            assert(targets(adj_at(g, g.len() - 1))[k] == adj[k].destination);
        }
        lemma_filter_identity(adj, |e: Edge| e.destination != v);
        assert(r =~= g) by {
            assert(r[g.len() - 1] == (g.last().0, g.last().1));
            assert(g[g.len() - 1] == (g.last().0, g.last().1));
        }
    } else {
        assert(r =~= g);
    }
}

/// Removing the same node twice is the same as removing it once.
pub proof fn lemma_remove_node_idempotent(g: GraphView, v: u64)
    ensures
        spec_remove_node(spec_remove_node(g, v), v) == spec_remove_node(g, v),
{
    let r = spec_remove_node(g, v);
    lemma_remove_node_prunes(g, v);
    assert forall|i: int| 0 <= i < r.len() implies val_at(r, i) != v by {
        if val_at(r, i) == v {
            assert(has_node(r, v));
        }
    }
    lemma_remove_node_noop(r, v);
}

/// The remainder of a depth-first traversal: nodes already recorded
/// in `result`, a stack of nodes to visit with the top last. The top
/// is popped; a recorded node is skipped, a new one is recorded and
/// its successors are stacked with the first adjacency entry on top,
/// so nodes are recorded in pre-order over adjacency order. The
/// cut-off branch is never reached from a well-formed graph.
pub open spec fn dfs_run(g: GraphView, result: Seq<u64>, stack: Seq<u64>) -> Seq<u64>
    decreases g.len() - result.len(), stack.len(),
{
    if stack.len() == 0 {
        result
    } else {
        let v = stack.last();
        let rest = stack.drop_last();
        if result.contains(v) {
            dfs_run(g, result, rest)
        } else if result.no_duplicates() && has_node(g, v) && (forall|i: int|
            0 <= i < result.len() ==> has_node(g, #[trigger] result[i])) {
            proof {
                lemma_push_no_duplicates(result, v);
                assert forall|i: int|
                    0 <= i < result.push(v).len() implies has_node(
                    g,
                    #[trigger] result.push(v)[i],
                ) by {
                    if i < result.len() {
                        assert(result.push(v)[i] == result[i]);
                    }
                }
                lemma_values_bound(g, result.push(v));
            }
            dfs_run(g, result.push(v), rest + targets(adjacency(g, v)).reverse())
        } else {
            result
        }
    }
}

/// The remainder of a breadth-first traversal: a queue of nodes to
/// visit with the front first. The front is dequeued; a recorded
/// node is skipped, a new one is recorded and its successors are
/// enqueued at the back in adjacency order, whether or not they were
/// seen before. The cut-off branch is never reached from a
/// well-formed graph.
pub open spec fn bfs_run(g: GraphView, result: Seq<u64>, queue: Seq<u64>) -> Seq<u64>
    decreases g.len() - result.len(), queue.len(),
{
    if queue.len() == 0 {
        result
    } else {
        let v = queue[0];
        let rest = queue.subrange(1, queue.len() as int);
        if result.contains(v) {
            bfs_run(g, result, rest)
        } else if result.no_duplicates() && has_node(g, v) && (forall|i: int|
            0 <= i < result.len() ==> has_node(g, #[trigger] result[i])) {
            proof {
                lemma_push_no_duplicates(result, v);
                assert forall|i: int|
                    0 <= i < result.push(v).len() implies has_node(
                    g,
                    #[trigger] result.push(v)[i],
                ) by {
                    if i < result.len() {
                        assert(result.push(v)[i] == result[i]);
                    }
                }
                lemma_values_bound(g, result.push(v));
            }
            bfs_run(g, result.push(v), rest + targets(adjacency(g, v)))
        } else {
            result
        }
    }
}

/// Every existing node reaches itself by the one-node path.
pub proof fn lemma_reaches_self(g: GraphView, a: u64)
    requires
        has_node(g, a),
    ensures
        reaches(g, a, a),
{
    let p = seq![a];
    assert(p[0] == a);
    assert(is_path(g, p));
    assert(p.first() == a && p.last() == a);
}

/// Reachability extends along an edge.
pub proof fn lemma_reaches_step(g: GraphView, a: u64, b: u64, c: u64)
    requires
        reaches(g, a, b),
        has_edge(g, b, c),
    ensures
        reaches(g, a, c),
{
    let p = choose|p: Seq<u64>| is_path(g, p) && p.first() == a && p.last() == b;
    let q = p.push(c);
    assert forall|i: int| 0 <= i < q.len() - 1 implies has_edge(g, #[trigger] q[i], q[i + 1]) by {
        if i < p.len() - 1 {
            assert(q[i] == p[i] && q[i + 1] == p[i + 1]);
            assert(has_edge(g, p[i], p[i + 1]));
        } else {
            assert(q[i] == b && q[i + 1] == c);
        }
    }
    assert(q[0] == p[0]);
    assert(is_path(g, q));
    assert(q.first() == a && q.last() == c);
}

/// Whatever a path can reach from inside a set that is closed under
/// outgoing edges stays inside the set.
pub proof fn lemma_closed_reachable(g: GraphView, s: Seq<u64>, p: Seq<u64>)
    requires
        is_path(g, p),
        s.contains(p[0]),
        forall|x: u64, k: int|
            s.contains(x) && 0 <= k < adjacency(g, x).len() ==> s.contains(
                #[trigger] targets(adjacency(g, x))[k],
            ),
    ensures
        s.contains(p.last()),
    decreases p.len(),
{
    if p.len() > 1 {
        let d = p.drop_last();
        assert forall|i: int| 0 <= i < d.len() - 1 implies has_edge(g, #[trigger] d[i], d[i + 1]) by {
            assert(d[i] == p[i] && d[i + 1] == p[i + 1]);
            assert(has_edge(g, p[i], p[i + 1]));
        }
        assert(d[0] == p[0]);
        assert(is_path(g, d));
        lemma_closed_reachable(g, s, d);
        let b = p.last();
        let x = d.last();
        assert(has_edge(g, p[p.len() - 2], p[p.len() - 1]));
        assert(x == p[p.len() - 2]);
        let k = choose|k: int|
            0 <= k < targets(adjacency(g, x)).len() && targets(adjacency(g, x))[k] == b;
        assert(s.contains(targets(adjacency(g, x))[k]));
    }
}

/// A duplicate-free sequence of node values is no longer than the
/// graph's node count.
pub proof fn lemma_values_bound(g: GraphView, s: Seq<u64>)
    requires
        s.no_duplicates(),
        forall|i: int| 0 <= i < s.len() ==> has_node(g, #[trigger] s[i]),
    ensures
        s.len() <= g.len(),
{
    broadcast use vstd::seq_lib::seq_to_set_is_finite;

    s.unique_seq_to_set();
    let vals = g.map_values(|p: (u64, Seq<Edge>)| p.0);
    assert forall|x: u64| s.to_set().contains(x) implies vals.to_set().contains(x) by {
        assert(s.contains(x));
        let i = choose|i: int| 0 <= i < s.len() && s[i] == x;
        assert(has_node(g, x));
        let j = choose|j: int| 0 <= j < g.len() && val_at(g, j) == x;
        assert(vals[j] == x);
        assert(vals.contains(x));
    }
    lemma_len_subset(s.to_set(), vals.to_set());
    vals.lemma_cardinality_of_set();
}

/// Depth-first and breadth-first search, run on the same graph from
/// the same start, visit the same set of nodes — the nodes reachable
/// from the start — though possibly in different orders. The two
/// sequences here are constrained exactly as the two searches
/// constrain their results.
pub proof fn lemma_traversals_same_set(g: GraphView, start: u64, d: Seq<u64>, b: Seq<u64>)
    requires
        forall|v: u64| d.contains(v) <==> reaches(g, start, v),
        forall|v: u64| b.contains(v) <==> reaches(g, start, v),
    ensures
        d.to_set() == b.to_set(),
{
    assert(d.to_set() =~= b.to_set());
}

/// In a graph whose node values are unique, the position of a node
/// is recovered from its value.
pub proof fn lemma_index_of_value(g: GraphView, i: int)
    requires
        forall|i2: int, j2: int| 0 <= i2 < j2 < g.len() ==> val_at(g, i2) != val_at(g, j2),
        0 <= i < g.len(),
    ensures
        has_node(g, val_at(g, i)),
        node_index(g, val_at(g, i)) == i,
        adjacency(g, val_at(g, i)) == adj_at(g, i),
{
    assert(has_node(g, val_at(g, i)));
    let j = node_index(g, val_at(g, i));
    assert(0 <= j < g.len() && val_at(g, j) == val_at(g, i));
    if j != i {
        assert(val_at(g, i) != val_at(g, j));
    }
}

/// Adding an edge and then removing every edge between the same two
/// values leaves no edge from the one to the other, while every
/// other node's adjacency, the source's other edges, and the node
/// set are unaffected.
pub proof fn lemma_edge_round_trip(g: GraphView, a: u64, b: u64, w: Option<u64>)
    requires
        graph_wf(g),
    ensures
        ({
            let g2 = spec_remove_edge(spec_add_edge(g, a, b, w), a, b);
            &&& !has_edge(g2, a, b)
            &&& forall|x: u64| has_node(g2, x) <==> has_node(g, x)
            &&& forall|x: u64| x != a ==> adjacency(g2, x) == adjacency(g, x)
            &&& adjacency(g2, a) == prune_edges(adjacency(g, a), b)
        }),
{
    let g1 = spec_add_edge(g, a, b, w);
    let g2 = spec_remove_edge(g1, a, b);
    let pred = |e: Edge| e.destination != b;
    if !has_node(g, a) {
        assert(g1 == g);
        assert(g2 == g);
        assert(adjacency(g, a) == Seq::<Edge>::empty());
        assert(!has_edge(g2, a, b)) by {
            assert(targets(adjacency(g, a)).len() == 0);
        }
        assert(adjacency(g2, a) == prune_edges(adjacency(g, a), b)) by {
            reveal(Seq::filter);
            assert(Seq::<Edge>::empty().filter(pred) =~= Seq::<Edge>::empty());
        }
    } else {
        let i = node_index(g, a);
        assert(0 <= i < g.len() && val_at(g, i) == a);
        let adj1 = adjacency(g1, a);
        assert forall|j: int| 0 <= j < g1.len() implies val_at(g1, j) == val_at(g, j) by {}
        assert forall|x: u64| has_node(g1, x) <==> has_node(g, x) by {
            if has_node(g1, x) {
                let j = choose|j: int| 0 <= j < g1.len() && val_at(g1, j) == x;
                assert(val_at(g, j) == x);
            }
            if has_node(g, x) {
                let j = choose|j: int| 0 <= j < g.len() && val_at(g, j) == x;
                assert(val_at(g1, j) == x);
            }
        }
        assert forall|i2: int, j2: int| 0 <= i2 < j2 < g1.len() implies val_at(g1, i2) != val_at(
            g1,
            j2,
        ) by {
            assert(val_at(g, i2) != val_at(g, j2));
        }
        lemma_index_of_value(g1, i);
        assert(val_at(g1, i) == a);
        assert(node_index(g1, a) == i);
        if has_node(g, b) {
            assert(g1 == g.update(i, (a, adj_at(g, i).push(Edge { destination: b, weight: w }))));
            assert(adj_at(g1, i) == adj_at(g, i).push(Edge { destination: b, weight: w }));
        } else {
            assert(g1 == g);
        }
        assert(g2 == g1.update(i, (a, prune_edges(adj_at(g1, i), b))));
        assert forall|j: int| 0 <= j < g2.len() implies val_at(g2, j) == val_at(g, j) by {}
        assert forall|x: u64| has_node(g2, x) <==> has_node(g, x) by {
            if has_node(g2, x) {
                let j = choose|j: int| 0 <= j < g2.len() && val_at(g2, j) == x;
                assert(val_at(g, j) == x);
            }
            if has_node(g, x) {
                let j = choose|j: int| 0 <= j < g.len() && val_at(g, j) == x;
                assert(val_at(g2, j) == x);
            }
        }
        assert forall|i2: int, j2: int| 0 <= i2 < j2 < g2.len() implies val_at(g2, i2) != val_at(
            g2,
            j2,
        ) by {
            assert(val_at(g, i2) != val_at(g, j2));
        }
        lemma_index_of_value(g2, i);
        assert(node_index(g2, a) == i);
        assert(adjacency(g2, a) == prune_edges(adj_at(g1, i), b));
        if has_node(g, b) {
            assert(prune_edges(adj_at(g1, i), b) == prune_edges(adj_at(g, i), b)) by {
                reveal(Seq::filter);
                assert(adj_at(g, i).push(Edge { destination: b, weight: w }).drop_last() =~= adj_at(
                    g,
                    i,
                ));
            }
        }
        assert(adjacency(g, a) == adj_at(g, i));
        assert(adjacency(g2, a) == prune_edges(adjacency(g, a), b));
        assert(!has_edge(g2, a, b)) by {
            if has_edge(g2, a, b) {
                let pruned = prune_edges(adjacency(g, a), b);
                let k = choose|k: int|
                    0 <= k < targets(pruned).len() && targets(pruned)[k] == b;
                assert(pruned[k].destination == b);
                assert(pruned.contains(pruned[k]));
                lemma_filter_subset(adjacency(g, a), pred, pruned[k]);
            }
        }
        assert forall|x: u64| x != a implies adjacency(g2, x) == adjacency(g, x) by {
            if has_node(g, x) {
                let j = node_index(g, x);
                assert(0 <= j < g.len() && val_at(g, j) == x);
                assert(j != i) by {
                    if j == i {
                        assert(val_at(g, i) == a);
                    }
                }
                lemma_index_of_value(g2, j);
                assert(node_index(g2, x) == j);
                assert(adj_at(g2, j) == adj_at(g, j));
                assert(adjacency(g2, x) == adj_at(g2, j));
                assert(adjacency(g, x) == adj_at(g, j)) by {
                    lemma_index_of_value(g, j);
                }
            } else {
                assert(!has_node(g2, x));
            }
        }
    }
}

/// The finish order is reverse-topological: every successor of a
/// finished node finished strictly earlier.
#[verifier::opaque]
spec fn topo_ok(g: GraphView, fl: Seq<u64>) -> bool {
    forall|i: int, k: int|
        0 <= i < fl.len() && 0 <= k < adjacency(g, fl[i]).len() ==> fl.take(i).contains(
            #[trigger] targets(adjacency(g, fl[i]))[k],
        )
}

/// The bookkeeping of the cycle search: `visited` are the nodes ever
/// seen, `on_stack` the active recursion path in order, `fl` the
/// nodes whose exploration has finished, in finish order.
#[verifier::opaque]
spec fn dfs_state_ok(g: GraphView, visited: Seq<u64>, on_stack: Seq<u64>, fl: Seq<u64>) -> bool {
    &&& visited.no_duplicates()
    &&& forall|i: int| 0 <= i < visited.len() ==> has_node(g, #[trigger] visited[i])
    &&& on_stack.no_duplicates()
    &&& (on_stack.len() >= 1 ==> is_path(g, on_stack))
    &&& forall|i: int| 0 <= i < on_stack.len() ==> visited.contains(#[trigger] on_stack[i])
    &&& fl.no_duplicates()
    &&& forall|i: int| 0 <= i < fl.len() ==> visited.contains(#[trigger] fl[i])
    &&& forall|x: u64| visited.contains(x) ==> fl.contains(x) || on_stack.contains(x)
    &&& forall|x: u64| fl.contains(x) ==> !on_stack.contains(x)
    &&& topo_ok(g, fl)
}

/// The position of a value in a duplicate-free sequence.
spec fn rank_in(fl: Seq<u64>, v: u64) -> int {
    choose|i: int| 0 <= i < fl.len() && fl[i] == v
}

/// In a duplicate-free sequence the rank really is the position.
proof fn lemma_rank_at(fl: Seq<u64>, j: int)
    requires
        fl.no_duplicates(),
        0 <= j < fl.len(),
    ensures
        rank_in(fl, fl[j]) == j,
{
    assert(fl.contains(fl[j]));
    let i = rank_in(fl, fl[j]);
    assert(0 <= i < fl.len() && fl[i] == fl[j]);
    if i != j {
        assert(fl[i] != fl[j]);
    }
}

/// Along any path out of a finished node, the rank in the finish
/// order strictly decreases; so no such path can return to where it
/// started.
proof fn lemma_topo_path_rank(g: GraphView, fl: Seq<u64>, p: Seq<u64>)
    requires
        graph_wf(g),
        fl.no_duplicates(),
        topo_ok(g, fl),
        is_path(g, p),
        fl.contains(p[0]),
    ensures
        fl.contains(p.last()),
        p.len() >= 2 ==> 0 <= rank_in(fl, p.last()) < rank_in(fl, p[0]),
    decreases p.len(),
{
    reveal(topo_ok);
    let i0 = rank_in(fl, p[0]);
    assert(0 <= i0 < fl.len() && fl[i0] == p[0]);
    if p.len() >= 2 {
        let nxt = p[1];
        assert(has_edge(g, p[0], p[1]));
        let k = choose|k: int|
            0 <= k < targets(adjacency(g, p[0])).len() && targets(adjacency(g, p[0]))[k] == nxt;
        assert(fl.take(i0).contains(targets(adjacency(g, fl[i0]))[k]));
        let j = choose|j: int| 0 <= j < i0 && fl.take(i0)[j] == nxt;
        assert(fl[j] == nxt);
        lemma_rank_at(fl, j);
        assert(rank_in(fl, nxt) == j < i0);
        assert(fl.contains(nxt)) by {
            assert(fl[j] == nxt);
        }
        let rest = p.subrange(1, p.len() as int);
        assert forall|i: int| 0 <= i < rest.len() - 1 implies has_edge(
            g,
            #[trigger] rest[i],
            rest[i + 1],
        ) by {
            assert(rest[i] == p[i + 1] && rest[i + 1] == p[i + 2]);
            assert(has_edge(g, p[i + 1], p[i + 2]));
        }
        assert(has_node(g, nxt)) by {
            let s0 = p[0];
            assert(has_node(g, s0));
            let si = choose|si: int| 0 <= si < g.len() && val_at(g, si) == s0;
            let ni = node_index(g, s0);
            assert(0 <= ni < g.len() && val_at(g, ni) == s0);
            assert(adjacency(g, s0) == adj_at(g, ni));
            assert(has_node(g, targets(adj_at(g, ni))[k]));
        }
        assert(rest[0] == nxt);
        assert(is_path(g, rest));
        lemma_topo_path_rank(g, fl, rest);
        assert(rest.last() == p.last());
        if rest.len() >= 2 {
            assert(rank_in(fl, p.last()) < rank_in(fl, nxt));
        } else {
            assert(p.last() == nxt);
        }
    }
}

/// Finishing a node: with every successor already finished, the
/// node moves from the recursion path to the finish order, and the
/// search state stays coherent.
/// Marking a node: a fresh node joins both the visited set and the
/// recursion path, and the search state stays coherent.
#[verifier::rlimit(100)]
proof fn lemma_mark_node(g: GraphView, vis0: Seq<u64>, stk0: Seq<u64>, fl: Seq<u64>, v: u64)
    requires
        graph_wf(g),
        has_node(g, v),
        dfs_state_ok(g, vis0, stk0, fl),
        !vis0.contains(v),
        stk0.len() >= 1 ==> has_edge(g, stk0.last(), v),
    ensures
        dfs_state_ok(g, vis0.push(v), stk0.push(v), fl),
{
    reveal(dfs_state_ok);
    let visited = vis0.push(v);
    let stk1 = stk0.push(v);
    lemma_push_no_duplicates(vis0, v);
    assert(!fl.contains(v)) by {
        if fl.contains(v) {
            assert(vis0.contains(v));
        }
    }
    assert(!stk0.contains(v)) by {
        if stk0.contains(v) {
            let idx = choose|idx: int| 0 <= idx < stk0.len() && stk0[idx] == v;
            assert(vis0.contains(stk0[idx]));
        }
    }
    lemma_push_no_duplicates(stk0, v);
    assert forall|i: int| 0 <= i < stk1.len() - 1 implies has_edge(
        g,
        #[trigger] stk1[i],
        stk1[i + 1],
    ) by {
        if i < stk0.len() - 1 {
            assert(stk1[i] == stk0[i] && stk1[i + 1] == stk0[i + 1]);
            assert(has_edge(g, stk0[i], stk0[i + 1]));
        } else {
            assert(stk1[i] == stk0.last() && stk1[i + 1] == v);
        }
    }
    assert(stk1[0] == (if stk0.len() == 0 {
        v
    } else {
        stk0[0]
    }));
    assert(is_path(g, stk1));
    assert forall|i: int| 0 <= i < visited.len() implies has_node(g, #[trigger] visited[i]) by {
        if i < vis0.len() {
            assert(visited[i] == vis0[i]);
            assert(has_node(g, vis0[i]));
        }
    }
    assert forall|x: u64| visited.contains(x) implies fl.contains(x) || stk1.contains(x) by {
        crate::seqs::lemma_contains_drop_last(visited, x);
        if x == v {
            assert(stk1[stk1.len() - 1] == v);
        } else {
            assert(vis0.contains(x));
            if stk0.contains(x) {
                let idx = choose|idx: int| 0 <= idx < stk0.len() && stk0[idx] == x;
                assert(stk1[idx] == x);
            }
        }
    }
    assert forall|x: u64| fl.contains(x) implies !stk1.contains(x) by {
        if stk1.contains(x) {
            crate::seqs::lemma_contains_drop_last(stk1, x);
            assert(x != v);
            assert(!stk0.contains(x));
        }
    }
    assert forall|i: int| 0 <= i < stk1.len() implies visited.contains(#[trigger] stk1[i]) by {
        if i < stk0.len() {
            assert(vis0.contains(stk0[i]));
            let idx = choose|idx: int| 0 <= idx < vis0.len() && vis0[idx] == stk0[i];
            assert(visited[idx] == stk0[i]);
        } else {
            assert(visited[visited.len() - 1] == v);
        }
    }
    assert forall|i: int| 0 <= i < fl.len() implies visited.contains(#[trigger] fl[i]) by {
        assert(vis0.contains(fl[i]));
        let idx = choose|idx: int| 0 <= idx < vis0.len() && vis0[idx] == fl[i];
        assert(visited[idx] == fl[i]);
    }
    assert(dfs_state_ok(g, visited, stk1, fl));
}

/// Appending a node all of whose successors are already finished
/// keeps the finish order reverse-topological.
#[verifier::rlimit(100)]
proof fn lemma_finish_topo(g: GraphView, fl_cur: Seq<u64>, v: u64, si: int)
    requires
        0 <= si < g.len(),
        val_at(g, si) == v,
        adjacency(g, v) == adj_at(g, si),
        topo_ok(g, fl_cur),
        forall|kk: int|
            0 <= kk < adj_at(g, si).len() ==> fl_cur.contains(
                #[trigger] targets(adj_at(g, si))[kk],
            ),
    ensures
        topo_ok(g, fl_cur.push(v)),
{
    reveal(topo_ok);
    let fl_new = fl_cur.push(v);
    assert forall|i: int, kk: int|
        0 <= i < fl_new.len() && 0 <= kk < adjacency(g, fl_new[i]).len() implies fl_new.take(
        i,
    ).contains(#[trigger] targets(adjacency(g, fl_new[i]))[kk]) by {
        if i < fl_cur.len() {
            assert(fl_new[i] == fl_cur[i]);
            assert(fl_cur.take(i).contains(targets(adjacency(g, fl_cur[i]))[kk]));
            assert(fl_new.take(i) =~= fl_cur.take(i));
        } else {
            assert(fl_new[i] == v);
            assert(adjacency(g, v) == adj_at(g, si));
            assert(fl_cur.contains(targets(adj_at(g, si))[kk]));
            assert(fl_new.take(i) =~= fl_cur);
        }
    }
}

#[verifier::rlimit(100)]
proof fn lemma_finish_node(
    g: GraphView,
    visited: Seq<u64>,
    stk0: Seq<u64>,
    fl_cur: Seq<u64>,
    v: u64,
    si: int,
)
    requires
        graph_wf(g),
        0 <= si < g.len(),
        val_at(g, si) == v,
        adjacency(g, v) == adj_at(g, si),
        dfs_state_ok(g, visited, stk0.push(v), fl_cur),
        forall|kk: int|
            0 <= kk < adj_at(g, si).len() ==> fl_cur.contains(
                #[trigger] targets(adj_at(g, si))[kk],
            ),
    ensures
        dfs_state_ok(g, visited, stk0, fl_cur.push(v)),
        fl_cur.push(v).contains(v),
        forall|x: u64| fl_cur.contains(x) ==> fl_cur.push(v).contains(x),
{
    let stk1 = stk0.push(v);
    let fl_new = fl_cur.push(v);
    assert(stk1[stk1.len() - 1] == v);
    assert(stk1.contains(v));
    assert(visited.no_duplicates() && fl_cur.no_duplicates() && stk1.no_duplicates() && topo_ok(
        g,
        fl_cur,
    )) by {
        reveal(dfs_state_ok);
    }
    assert(stk1.len() >= 1 && is_path(g, stk1)) by {
        reveal(dfs_state_ok);
    }
    assert(forall|i: int| 0 <= i < visited.len() ==> has_node(g, #[trigger] visited[i])) by {
        reveal(dfs_state_ok);
    }
    assert(forall|i: int| 0 <= i < stk1.len() ==> visited.contains(#[trigger] stk1[i])) by {
        reveal(dfs_state_ok);
    }
    assert(forall|i: int| 0 <= i < fl_cur.len() ==> visited.contains(#[trigger] fl_cur[i])) by {
        reveal(dfs_state_ok);
    }
    assert(forall|x: u64| visited.contains(x) ==> fl_cur.contains(x) || stk1.contains(x)) by {
        reveal(dfs_state_ok);
    }
    assert(forall|x: u64| fl_cur.contains(x) ==> !stk1.contains(x)) by {
        reveal(dfs_state_ok);
    }
    assert(!fl_cur.contains(v));
    lemma_push_no_duplicates(fl_cur, v);
    assert(fl_new[fl_new.len() - 1] == v);
    assert(fl_new.contains(v));
    assert forall|x: u64| fl_cur.contains(x) implies fl_new.contains(x) by {
        let idx = choose|idx: int| 0 <= idx < fl_cur.len() && fl_cur[idx] == x;
        assert(fl_new[idx] == x);
    }
    if stk0.len() >= 1 {
        assert forall|i: int| 0 <= i < stk0.len() - 1 implies has_edge(
            g,
            #[trigger] stk0[i],
            stk0[i + 1],
        ) by {
            assert(stk0[i] == stk1[i] && stk0[i + 1] == stk1[i + 1]);
            assert(has_edge(g, stk1[i], stk1[i + 1]));
        }
        assert(stk0[0] == stk1[0]);
        assert(is_path(g, stk0));
    }
    assert forall|x: u64| visited.contains(x) implies fl_new.contains(x) || stk0.contains(x) by {
        assert(fl_cur.contains(x) || stk1.contains(x));
        if fl_cur.contains(x) {
            assert(fl_new.contains(x));
        } else {
            crate::seqs::lemma_contains_drop_last(stk1, x);
            if x == v {
                assert(fl_new.contains(v));
            } else {
                assert(stk1.drop_last() =~= stk0);
            }
        }
    }
    assert forall|x: u64| fl_new.contains(x) implies !stk0.contains(x) by {
        crate::seqs::lemma_contains_drop_last(fl_new, x);
        if stk0.contains(x) {
            assert(stk1.contains(x)) by {
                let idx = choose|idx: int| 0 <= idx < stk0.len() && stk0[idx] == x;
                assert(stk1[idx] == x);
            }
            if x == v {
                let idx = choose|idx: int| 0 <= idx < stk0.len() && stk0[idx] == v;
                assert(stk1[idx] == v);
                assert(stk1[stk1.len() - 1] == v);
            } else {
                assert(fl_cur.contains(x));
            }
        }
    }
    assert(stk0.no_duplicates()) by {
        assert forall|i: int, j: int|
            0 <= i < stk0.len() && 0 <= j < stk0.len() && i != j implies stk0[i] != stk0[j] by {
            assert(stk1[i] == stk0[i] && stk1[j] == stk0[j]);
        }
    }
    assert forall|i: int| 0 <= i < stk0.len() implies visited.contains(#[trigger] stk0[i]) by {
        assert(stk0[i] == stk1[i]);
        assert(visited.contains(stk1[i]));
    }
    assert forall|i: int| 0 <= i < fl_new.len() implies visited.contains(#[trigger] fl_new[i]) by {
        if i < fl_cur.len() {
            assert(fl_new[i] == fl_cur[i]);
        } else {
            assert(fl_new[i] == v);
            assert(visited.contains(stk1[stk1.len() - 1]));
        }
    }
    lemma_finish_topo(g, fl_cur, v, si);
    assert(dfs_state_ok(g, visited, stk0, fl_new)) by {
        reveal(dfs_state_ok);
    }
}

/// The number of true entries.
spec fn count_true(s: Seq<bool>) -> nat
    decreases s.len(),
{
    if s.len() == 0 {
        0
    } else {
        count_true(s.drop_last()) + (if s.last() {
            1nat
        } else {
            0nat
        })
    }
}

proof fn lemma_count_true_update(s: Seq<bool>, i: int)
    requires
        0 <= i < s.len(),
        !s[i],
    ensures
        count_true(s.update(i, true)) == count_true(s) + 1,
    decreases s.len(),
{
    let t = s.update(i, true);
    if i == s.len() - 1 {
        assert(t.drop_last() =~= s.drop_last());
        assert(t.last());
    } else {
        lemma_count_true_update(s.drop_last(), i);
        assert(t.drop_last() =~= s.drop_last().update(i, true));
        assert(t.last() == s.last());
    }
}

proof fn lemma_count_true_bound(s: Seq<bool>)
    ensures
        count_true(s) <= s.len(),
    decreases s.len(),
{
    if s.len() > 0 {
        lemma_count_true_bound(s.drop_last());
    }
}

/// What a predecessor entry promises: the predecessor is a
/// finalized, discovered node one edge before its successor, one
/// step shallower in the predecessor forest.
spec fn pred_ok(
    g: GraphView,
    dist: Seq<Option<u64>>,
    pred: Seq<Option<usize>>,
    done: Seq<bool>,
    depth: Seq<int>,
    i: int,
) -> bool {
    let p = pred[i].unwrap() as int;
    &&& 0 <= p < g.len()
    &&& done[p]
    &&& dist[p] is Some
    &&& dist[i] is Some
    &&& has_edge(g, val_at(g, p), val_at(g, i))
    &&& depth[i] == depth[p] + 1
    &&& clip_cost(dist[p].unwrap() as nat + step_cost(g, val_at(g, p), val_at(g, i))) <= dist[i].unwrap() as nat
}

/// Every start-to-here path costs at least the recorded distance.
spec fn dist_lower_bound(g: GraphView, start_idx: int, dist: Seq<Option<u64>>, i: int) -> bool {
    forall|p: Seq<u64>|
        is_path(g, p) && p.first() == val_at(g, start_idx) && p.last() == val_at(g, i)
            ==> dist[i].unwrap() as nat <= #[trigger] path_cost(g, p)
}

/// The working state of the shortest-path search. `dist[i]` is
/// `Some` exactly for the discovered nodes; `pred` links every
/// discovered node but the start back toward the start; `done` marks
/// the finalized nodes, whose outgoing edges have all been relaxed —
/// except, mid-round, the node named by `exempt`.
#[verifier::opaque]
spec fn dij_ok(
    g: GraphView,
    start_idx: int,
    dist: Seq<Option<u64>>,
    pred: Seq<Option<usize>>,
    done: Seq<bool>,
    depth: Seq<int>,
    exempt: Option<int>,
) -> bool {
    &&& g.len() == dist.len()
    &&& g.len() == pred.len()
    &&& g.len() == done.len()
    &&& g.len() == depth.len()
    &&& 0 <= start_idx < g.len()
    &&& dist[start_idx] == Some(0u64)
    &&& pred[start_idx] is None
    &&& forall|i: int| 0 <= i < g.len() ==> #[trigger] depth[i] >= 0
    &&& forall|i: int|
        0 <= i < g.len() && #[trigger] dist[i] is Some ==> reaches(
            g,
            val_at(g, start_idx),
            val_at(g, i),
        )
    &&& forall|i: int|
        0 <= i < g.len() && #[trigger] pred[i] is Some ==> pred_ok(g, dist, pred, done, depth, i)
    &&& forall|i: int|
        0 <= i < g.len() && #[trigger] dist[i] is Some && i != start_idx ==> pred[i] is Some
    &&& forall|i: int, j: int|
        0 <= i < g.len() && 0 <= j < g.len() && #[trigger] done[i] && dist[i] is None && !(
        #[trigger] done[j]) ==> dist[j] is None
    &&& forall|i: int, k: int|
        0 <= i < g.len() && #[trigger] done[i] && dist[i] is Some && 0 <= k < adj_at(g, i).len()
            && exempt != Some(i) ==> {
            let t = node_index(g, #[trigger] targets(adj_at(g, i))[k]);
            &&& dist[t] is Some
            &&& dist[t].unwrap() as nat <= clip_cost(
                dist[i].unwrap() as nat + edge_cost(adj_at(g, i)[k]),
            )
        }
    &&& forall|i: int, j: int|
        0 <= i < g.len() && 0 <= j < g.len() && #[trigger] done[i] && !(#[trigger] done[j]) && dist[i]
            is Some && dist[j] is Some ==> dist[i].unwrap() <= dist[j].unwrap()
    &&& forall|i: int|
        0 <= i < g.len() && #[trigger] done[i] && dist[i] is Some ==> dist_lower_bound(
            g,
            start_idx,
            dist,
            i,
        )
}

/// Following one edge of a path from a finalized node: the next
/// node's distance is bounded by the prefix cost, so either the walk
/// continues through finalized nodes, or it meets an unfinalized one
/// whose distance already bounds the selected minimum.
#[verifier::rlimit(100)]
proof fn lemma_dij_walk(
    g: GraphView,
    start_idx: int,
    dist: Seq<Option<u64>>,
    done: Seq<bool>,
    u: int,
    p: Seq<u64>,
    j: int,
)
    requires
        graph_wf(g),
        g.len() == dist.len(),
        g.len() == done.len(),
        0 <= start_idx < g.len(),
        forall|i: int, k: int|
            0 <= i < g.len() && #[trigger] done[i] && dist[i] is Some && 0 <= k < adj_at(
                g,
                i,
            ).len() ==> {
                let t = node_index(g, #[trigger] targets(adj_at(g, i))[k]);
                &&& dist[t] is Some
                &&& dist[t].unwrap() as nat <= clip_cost(
                    dist[i].unwrap() as nat + edge_cost(adj_at(g, i)[k]),
                )
            },
        0 <= u < g.len(),
        !done[u],
        dist[u] is Some,
        forall|j2: int|
            0 <= j2 < g.len() && !done[j2] && dist[j2] is Some ==> dist[u].unwrap()
                <= dist[j2].unwrap(),
        is_path(g, p),
        p.last() == val_at(g, u),
        1 <= j < p.len(),
        has_node(g, p[j - 1]),
        ({
            let x = node_index(g, p[j - 1]);
            &&& done[x]
            &&& dist[x] is Some
            &&& dist[x].unwrap() as nat <= path_cost(g, p.take(j))
        }),
    ensures
        dist[u].unwrap() as nat <= path_cost(g, p),
    decreases p.len() - j,
{
    let x = node_index(g, p[j - 1]);
    assert(0 <= x < g.len() && val_at(g, x) == p[j - 1]);
    let y = p[j];
    assert(has_edge(g, p[j - 1], y));
    assert(adjacency(g, p[j - 1]) == adj_at(g, x));
    lemma_min_step_cost(adj_at(g, x), y);
    let k = choose|k: int|
        0 <= k < adj_at(g, x).len() && (#[trigger] adj_at(g, x)[k]).destination == y
            && min_step_cost(adj_at(g, x), y) == edge_cost(adj_at(g, x)[k]);
    assert(targets(adj_at(g, x))[k] == y);
    let t = node_index(g, y);
    assert(dist[t] is Some && dist[t].unwrap() as nat <= clip_cost(
        dist[x].unwrap() as nat + edge_cost(adj_at(g, x)[k]),
    ));
    assert(has_node(g, y));
    assert(0 <= t < g.len() && val_at(g, t) == y);
    assert(p.take(j + 1).drop_last() =~= p.take(j));
    assert(p.take(j + 1)[j - 1] == p[j - 1] && p.take(j + 1)[j] == y);
    assert(step_cost(g, p[j - 1], y) == edge_cost(adj_at(g, x)[k]));
    assert(path_cost(g, p.take(j + 1)) == clip_cost(
        path_cost(g, p.take(j)) + step_cost(g, p[j - 1], y),
    ));
    assert(dist[t].unwrap() as nat <= path_cost(g, p.take(j + 1)));
    if done[t] {
        if j + 1 < p.len() {
            lemma_dij_walk(g, start_idx, dist, done, u, p, j + 1);
        } else {
            assert(val_at(g, t) == val_at(g, u));
            if t != u {
                if t < u {
                    assert(val_at(g, t) != val_at(g, u));
                } else {
                    assert(val_at(g, u) != val_at(g, t));
                }
            }
            assert(false);
        }
    } else {
        assert(dist[u].unwrap() <= dist[t].unwrap());
        lemma_path_cost_take_mono(g, p, j + 1);
    }
}

/// The node about to be finalized holds the minimum distance, so no
/// start-to-it path can cost less than its recorded distance.
#[verifier::rlimit(100)]
proof fn lemma_dij_opt_one(
    g: GraphView,
    start_idx: int,
    dist: Seq<Option<u64>>,
    done: Seq<bool>,
    u: int,
    p: Seq<u64>,
)
    requires
        graph_wf(g),
        g.len() == dist.len(),
        g.len() == done.len(),
        0 <= start_idx < g.len(),
        dist[start_idx] == Some(0u64),
        forall|i: int, k: int|
            0 <= i < g.len() && #[trigger] done[i] && dist[i] is Some && 0 <= k < adj_at(
                g,
                i,
            ).len() ==> {
                let t = node_index(g, #[trigger] targets(adj_at(g, i))[k]);
                &&& dist[t] is Some
                &&& dist[t].unwrap() as nat <= clip_cost(
                    dist[i].unwrap() as nat + edge_cost(adj_at(g, i)[k]),
                )
            },
        0 <= u < g.len(),
        !done[u],
        dist[u] is Some,
        forall|j2: int|
            0 <= j2 < g.len() && !done[j2] && dist[j2] is Some ==> dist[u].unwrap()
                <= dist[j2].unwrap(),
        is_path(g, p),
        p.first() == val_at(g, start_idx),
        p.last() == val_at(g, u),
    ensures
        dist[u].unwrap() as nat <= path_cost(g, p),
{
    if p.len() == 1 {
        assert(val_at(g, start_idx) == val_at(g, u));
        if start_idx != u {
            if start_idx < u {
                assert(val_at(g, start_idx) != val_at(g, u));
            } else {
                assert(val_at(g, u) != val_at(g, start_idx));
            }
        }
        assert(dist[u].unwrap() == 0);
    } else if !done[start_idx] {
        assert(dist[u].unwrap() <= dist[start_idx].unwrap());
    } else {
        assert(has_node(g, p[0]));
        let x = node_index(g, p[0]);
        assert(0 <= x < g.len() && val_at(g, x) == p[0]);
        assert(val_at(g, x) == val_at(g, start_idx));
        if x != start_idx {
            if x < start_idx {
                assert(val_at(g, x) != val_at(g, start_idx));
            } else {
                assert(val_at(g, start_idx) != val_at(g, x));
            }
        }
        assert(p.take(1).len() == 1);
        assert(path_cost(g, p.take(1)) == 0);
        lemma_dij_walk(g, start_idx, dist, done, u, p, 1);
    }
}

/// Finalizing the selected node: if it was selected while
/// undiscovered, every remaining node is undiscovered too; it holds
/// the minimum distance, so every start-to-it path costs at least
/// its distance; its own edges are exempt from the relaxation
/// obligation until the round relaxes them.
#[verifier::rlimit(100)]
proof fn lemma_dij_mark(
    g: GraphView,
    start_idx: int,
    dist: Seq<Option<u64>>,
    pred: Seq<Option<usize>>,
    done: Seq<bool>,
    depth: Seq<int>,
    u: int,
)
    requires
        graph_wf(g),
        dij_ok(g, start_idx, dist, pred, done, depth, None),
        0 <= u < g.len(),
        !done[u],
        dist[u] is None ==> forall|j: int| 0 <= j < g.len() && !done[j] ==> dist[j] is None,
        dist[u] is Some ==> forall|j2: int|
            0 <= j2 < g.len() && !done[j2] && dist[j2] is Some ==> dist[u].unwrap()
                <= dist[j2].unwrap(),
    ensures
        dist[u] is Some ==> dij_ok(g, start_idx, dist, pred, done.update(u, true), depth, Some(u)),
        dist[u] is Some ==> forall|j: int|
            0 <= j < g.len() && #[trigger] done.update(u, true)[j] ==> dist[j] is Some,
        dist[u] is Some ==> forall|j: int|
            0 <= j < g.len() && #[trigger] done.update(u, true)[j] ==> dist[j].unwrap()
                <= dist[u].unwrap(),
        dist[u] is None ==> dij_ok(g, start_idx, dist, pred, done.update(u, true), depth, None),
{
    reveal(dij_ok);
    let done1 = done.update(u, true);
    if dist[u] is Some {
        assert forall|j: int| 0 <= j < g.len() && #[trigger] done1[j] implies dist[j] is Some by {
            if j != u {
                assert(done[j]);
                if dist[j] is None {
                    assert(dist[u] is None);
                }
            }
        }
        assert forall|j: int| 0 <= j < g.len() && #[trigger] done1[j] implies dist[j].unwrap()
            <= dist[u].unwrap() by {
            if j != u {
                assert(done[j] && !done[u]);
                assert(dist[j] is Some && dist[u] is Some);
            }
        }
        assert forall|i: int|
            0 <= i < g.len() && #[trigger] pred[i] is Some implies pred_ok(
            g,
            dist,
            pred,
            done1,
            depth,
            i,
        ) by {
            assert(pred_ok(g, dist, pred, done, depth, i));
            let p = pred[i].unwrap() as int;
            assert(done1[p]);
        }
        assert forall|i: int, k: int|
            0 <= i < g.len() && #[trigger] done1[i] && dist[i] is Some && 0 <= k < adj_at(
            g,
            i,
        ).len() && Some(u) != Some(i) implies {
            let t = node_index(g, #[trigger] targets(adj_at(g, i))[k]);
            &&& dist[t] is Some
            &&& dist[t].unwrap() as nat <= clip_cost(
                dist[i].unwrap() as nat + edge_cost(adj_at(g, i)[k]),
            )
        } by {
            assert(i != u);
            assert(done[i]);
        }
        assert forall|i: int, j: int|
            0 <= i < g.len() && 0 <= j < g.len() && #[trigger] done1[i] && !(#[trigger] done1[j])
                && dist[i] is Some && dist[j] is Some implies dist[i].unwrap()
            <= dist[j].unwrap() by {
            assert(!done[j] && j != u);
            if i != u {
                assert(done[i]);
            }
        }
        assert forall|i: int|
            0 <= i < g.len() && #[trigger] done1[i] && dist[i] is Some implies dist_lower_bound(
            g,
            start_idx,
            dist,
            i,
        ) by {
            if i != u {
                assert(done[i]);
            } else {
                assert forall|p: Seq<u64>|
                    is_path(g, p) && p.first() == val_at(g, start_idx) && p.last() == val_at(
                        g,
                        u,
                    ) implies dist[u].unwrap() as nat <= #[trigger] path_cost(g, p) by {
                    lemma_dij_opt_one(g, start_idx, dist, done, u, p);
                }
            }
        }
    } else {
        assert forall|i: int|
            0 <= i < g.len() && #[trigger] pred[i] is Some implies pred_ok(
            g,
            dist,
            pred,
            done1,
            depth,
            i,
        ) by {
            assert(pred_ok(g, dist, pred, done, depth, i));
            let p = pred[i].unwrap() as int;
            assert(done1[p]);
        }
        assert forall|i: int, j: int|
            0 <= i < g.len() && 0 <= j < g.len() && #[trigger] done1[i] && dist[i] is None && !(
            #[trigger] done1[j]) implies dist[j] is None by {
            assert(!done[j]);
        }
        assert forall|i: int, k: int|
            0 <= i < g.len() && #[trigger] done1[i] && dist[i] is Some && 0 <= k < adj_at(
            g,
            i,
        ).len() && None::<int> != Some(i) implies {
            let t = node_index(g, #[trigger] targets(adj_at(g, i))[k]);
            &&& dist[t] is Some
            &&& dist[t].unwrap() as nat <= clip_cost(
                dist[i].unwrap() as nat + edge_cost(adj_at(g, i)[k]),
            )
        } by {
            assert(i != u);
            assert(done[i]);
        }
        assert forall|i: int, j: int|
            0 <= i < g.len() && 0 <= j < g.len() && #[trigger] done1[i] && !(#[trigger] done1[j])
                && dist[i] is Some && dist[j] is Some implies dist[i].unwrap()
            <= dist[j].unwrap() by {
            assert(i != u && done[i]);
            assert(!done[j]);
        }
        assert forall|i: int|
            0 <= i < g.len() && #[trigger] done1[i] && dist[i] is Some implies dist_lower_bound(
            g,
            start_idx,
            dist,
            i,
        ) by {
            assert(i != u && done[i]);
        }
    }
}

/// One relaxation: a newly discovered or improved node records the
/// finalized node as its predecessor, at the clipped cost through
/// that edge.
#[verifier::rlimit(100)]
proof fn lemma_dij_relax(
    g: GraphView,
    start_idx: int,
    dist: Seq<Option<u64>>,
    pred: Seq<Option<usize>>,
    done: Seq<bool>,
    depth: Seq<int>,
    u: usize,
    di: usize,
    k: int,
    cand: u64,
)
    requires
        graph_wf(g),
        dij_ok(g, start_idx, dist, pred, done, depth, Some(u as int)),
        0 <= (u as int) < g.len(),
        done[u as int],
        dist[u as int] is Some,
        0 <= (di as int) < g.len(),
        !done[di as int],
        di as int != start_idx,
        0 <= k < adj_at(g, u as int).len(),
        adj_at(g, u as int)[k].destination == val_at(g, di as int),
        has_edge(g, val_at(g, u as int), val_at(g, di as int)),
        cand as nat == clip_cost(dist[u as int].unwrap() as nat + edge_cost(adj_at(g, u as int)[k])),
        dist[di as int] is Some ==> cand < dist[di as int].unwrap(),
        forall|j: int| 0 <= j < g.len() && #[trigger] done[j] ==> dist[j] is Some,
        forall|j: int|
            0 <= j < g.len() && #[trigger] done[j] ==> dist[j].unwrap() <= dist[u as int].unwrap(),
    ensures
        dij_ok(
            g,
            start_idx,
            dist.update(di as int, Some(cand)),
            pred.update(di as int, Some(u)),
            done,
            depth.update(di as int, depth[u as int] + 1),
            Some(u as int),
        ),
        forall|j: int|
            0 <= j < g.len() && #[trigger] done[j] ==> dist.update(di as int, Some(cand))[j]
                is Some,
        forall|j: int|
            0 <= j < g.len() && #[trigger] done[j] ==> dist.update(di as int, Some(cand))[j].unwrap()
                <= dist.update(di as int, Some(cand))[u as int].unwrap(),
{
    reveal(dij_ok);
    let dist1 = dist.update(di as int, Some(cand));
    let pred1 = pred.update(di as int, Some(u));
    let depth1 = depth.update(di as int, depth[u as int] + 1);
    let dd = di as int;
    let uu = u as int;
    assert(dist[uu].unwrap() as nat <= cand as nat);
    assert(dist1[start_idx] == Some(0u64));
    assert(pred1[start_idx] is None);
    assert forall|i: int| 0 <= i < g.len() implies #[trigger] depth1[i] >= 0 by {
        if i != dd {
            assert(depth1[i] == depth[i]);
        } else {
            assert(depth[uu] >= 0);
        }
    }
    assert forall|i: int|
        0 <= i < g.len() && #[trigger] dist1[i] is Some implies reaches(
        g,
        val_at(g, start_idx),
        val_at(g, i),
    ) by {
        if i == dd {
            assert(dist[uu] is Some);
            assert(reaches(g, val_at(g, start_idx), val_at(g, uu)));
            lemma_reaches_step(g, val_at(g, start_idx), val_at(g, uu), val_at(g, dd));
        } else {
            assert(dist1[i] == dist[i]);
        }
    }
    assert forall|i: int|
        0 <= i < g.len() && #[trigger] pred1[i] is Some implies pred_ok(
        g,
        dist1,
        pred1,
        done,
        depth1,
        i,
    ) by {
        if i == dd {
            assert(pred1[i] == Some(u));
            assert(depth1[dd] == depth1[uu] + 1);
            assert(clip_cost(
                dist1[uu].unwrap() as nat + step_cost(g, val_at(g, uu), val_at(g, dd)),
            ) <= dist1[dd].unwrap() as nat) by {
                lemma_min_step_cost(adj_at(g, uu), val_at(g, dd));
                assert(targets(adj_at(g, uu))[k] == val_at(g, dd));
                assert(adjacency(g, val_at(g, uu)) == adj_at(g, uu));
                assert(step_cost(g, val_at(g, uu), val_at(g, dd)) <= edge_cost(adj_at(g, uu)[k]));
            }
        } else {
            assert(pred1[i] == pred[i]);
            assert(pred_ok(g, dist, pred, done, depth, i));
            let p = pred[i].unwrap() as int;
            assert(done[p]);
            assert(p != dd);
            assert(dist1[p] == dist[p] && dist1[i] == dist[i]);
            assert(depth1[i] == depth[i] && depth1[p] == depth[p]);
        }
    }
    assert forall|i: int|
        0 <= i < g.len() && #[trigger] dist1[i] is Some && i != start_idx implies pred1[i]
        is Some by {
        if i != dd {
            assert(dist[i] is Some);
        }
    }
    assert forall|i: int, j: int|
        0 <= i < g.len() && 0 <= j < g.len() && #[trigger] done[i] && dist1[i] is None && !(
        #[trigger] done[j]) implies dist1[j] is None by {
        assert(dist[i] is Some);
        assert(i != dd);
        assert(dist1[i] == dist[i]);
    }
    assert forall|i: int, k2: int|
        0 <= i < g.len() && #[trigger] done[i] && dist1[i] is Some && 0 <= k2 < adj_at(
        g,
        i,
    ).len() && Some(uu) != Some(i) implies {
        let t = node_index(g, #[trigger] targets(adj_at(g, i))[k2]);
        &&& dist1[t] is Some
        &&& dist1[t].unwrap() as nat <= clip_cost(
            dist1[i].unwrap() as nat + edge_cost(adj_at(g, i)[k2]),
        )
    } by {
        assert(i != dd);
        assert(dist[i] is Some);
        let tv = targets(adj_at(g, i))[k2];
        assert(has_node(g, tv));
        let t = node_index(g, tv);
        assert(0 <= t < g.len() && val_at(g, t) == tv);
        assert(dist[t] is Some && dist[t].unwrap() as nat <= clip_cost(
            dist[i].unwrap() as nat + edge_cost(adj_at(g, i)[k2]),
        ));
        if t != dd {
            assert(dist1[t] == dist[t]);
        } else {
            assert(cand <= dist[t].unwrap());
        }
    }
    assert forall|i: int, j: int|
        0 <= i < g.len() && 0 <= j < g.len() && #[trigger] done[i] && !(#[trigger] done[j])
            && dist1[i] is Some && dist1[j] is Some implies dist1[i].unwrap()
        <= dist1[j].unwrap() by {
        assert(i != dd);
        assert(dist1[i] == dist[i]);
        if j == dd {
            assert(dist[i].unwrap() <= dist[uu].unwrap());
            assert(dist[uu].unwrap() <= cand);
        } else {
            assert(dist1[j] == dist[j]);
        }
    }
    assert forall|i: int|
        0 <= i < g.len() && #[trigger] done[i] && dist1[i] is Some implies dist_lower_bound(
        g,
        start_idx,
        dist1,
        i,
    ) by {
        assert(i != dd);
        assert(dist1[i] == dist[i]);
        assert(dist_lower_bound(g, start_idx, dist, i));
        assert forall|p: Seq<u64>|
            is_path(g, p) && p.first() == val_at(g, start_idx) && p.last() == val_at(
                g,
                i,
            ) implies dist1[i].unwrap() as nat <= #[trigger] path_cost(g, p) by {
            assert(dist[i].unwrap() as nat <= path_cost(g, p));
        }
    }
}

/// Closing a round: once every successor of the finalized node is
/// discovered at a cost within its edge, the exemption is no longer
/// needed.
#[verifier::rlimit(100)]
proof fn lemma_dij_assemble(
    g: GraphView,
    start_idx: int,
    dist: Seq<Option<u64>>,
    pred: Seq<Option<usize>>,
    done: Seq<bool>,
    depth: Seq<int>,
    u: int,
)
    requires
        dij_ok(g, start_idx, dist, pred, done, depth, Some(u)),
        0 <= u < g.len(),
        dist[u] is Some,
        forall|k: int|
            0 <= k < adj_at(g, u).len() ==> {
                let t = node_index(g, #[trigger] targets(adj_at(g, u))[k]);
                &&& dist[t] is Some
                &&& dist[t].unwrap() as nat <= clip_cost(
                    dist[u].unwrap() as nat + edge_cost(adj_at(g, u)[k]),
                )
            },
    ensures
        dij_ok(g, start_idx, dist, pred, done, depth, None),
{
    reveal(dij_ok);
    assert forall|i: int, k: int|
        0 <= i < g.len() && #[trigger] done[i] && dist[i] is Some && 0 <= k < adj_at(g, i).len()
            && None::<int> != Some(i) implies {
        let t = node_index(g, #[trigger] targets(adj_at(g, i))[k]);
        &&& dist[t] is Some
        &&& dist[t].unwrap() as nat <= clip_cost(
            dist[i].unwrap() as nat + edge_cost(adj_at(g, i)[k]),
        )
    } by {
        if i != u {
            assert(Some(u as int) != Some(i));
        }
    }
}

/// Whatever a path can reach from where the predicate holds, the
/// predicate holds, provided it is closed under outgoing edges.
proof fn lemma_closed_pred_reachable(g: GraphView, ok: spec_fn(u64) -> bool, p: Seq<u64>)
    requires
        is_path(g, p),
        ok(p[0]),
        forall|x: u64, k: int|
            ok(x) && 0 <= k < adjacency(g, x).len() ==> ok(#[trigger] targets(adjacency(g, x))[k]),
    ensures
        ok(p.last()),
    decreases p.len(),
{
    if p.len() > 1 {
        let d = p.drop_last();
        assert forall|i: int| 0 <= i < d.len() - 1 implies has_edge(g, #[trigger] d[i], d[i + 1]) by {
            assert(d[i] == p[i] && d[i + 1] == p[i + 1]);
            assert(has_edge(g, p[i], p[i + 1]));
        }
        assert(d[0] == p[0]);
        assert(is_path(g, d));
        lemma_closed_pred_reachable(g, ok, d);
        let b = p.last();
        let x = d.last();
        assert(has_edge(g, p[p.len() - 2], p[p.len() - 1]));
        assert(x == p[p.len() - 2]);
        let k = choose|k: int|
            0 <= k < targets(adjacency(g, x)).len() && targets(adjacency(g, x))[k] == b;
        assert(ok(targets(adjacency(g, x))[k]));
    }
}

/// When every node is finalized, every node reachable from the start
/// has been discovered.
#[verifier::rlimit(100)]
proof fn lemma_dij_complete(
    g: GraphView,
    start_idx: int,
    dist: Seq<Option<u64>>,
    pred: Seq<Option<usize>>,
    done: Seq<bool>,
    depth: Seq<int>,
    end_idx: int,
)
    requires
        graph_wf(g),
        dij_ok(g, start_idx, dist, pred, done, depth, None),
        forall|j: int| 0 <= j < g.len() ==> #[trigger] done[j],
        0 <= end_idx < g.len(),
        reaches(g, val_at(g, start_idx), val_at(g, end_idx)),
    ensures
        dist[end_idx] is Some,
{
    reveal(dij_ok);
    let ok = |v: u64| has_node(g, v) && dist[node_index(g, v)] is Some;
    let p = choose|p: Seq<u64>|
        is_path(g, p) && p.first() == val_at(g, start_idx) && p.last() == val_at(g, end_idx);
    assert(ok(p[0])) by {
        lemma_index_of_value(g, start_idx);
        assert(node_index(g, val_at(g, start_idx)) == start_idx);
    }
    assert forall|x: u64, k: int|
        ok(x) && 0 <= k < adjacency(g, x).len() implies ok(
        #[trigger] targets(adjacency(g, x))[k],
    ) by {
        let i = node_index(g, x);
        assert(0 <= i < g.len() && val_at(g, i) == x);
        assert(adjacency(g, x) == adj_at(g, i));
        let t = targets(adj_at(g, i))[k];
        assert(done[i]);
        assert(dist[node_index(g, t)] is Some);
        assert(has_node(g, t));
    }
    lemma_closed_pred_reachable(g, ok, p);
    assert(ok(val_at(g, end_idx)));
    lemma_index_of_value(g, end_idx);
}

/// The freshly initialized search state is coherent: only the start
/// is discovered, at distance zero, and nothing is finalized.
#[verifier::rlimit(100)]
proof fn lemma_dij_init(
    g: GraphView,
    start_idx: int,
    dist: Seq<Option<u64>>,
    pred: Seq<Option<usize>>,
    done: Seq<bool>,
    depth: Seq<int>,
)
    requires
        g.len() == dist.len(),
        g.len() == pred.len(),
        g.len() == done.len(),
        g.len() == depth.len(),
        0 <= start_idx < g.len(),
        dist[start_idx] == Some(0u64),
        forall|j: int| 0 <= j < g.len() && j != start_idx ==> dist[j] is None,
        forall|j: int| 0 <= j < g.len() ==> pred[j] is None,
        forall|j: int| 0 <= j < g.len() ==> !done[j],
        forall|j: int| 0 <= j < g.len() ==> #[trigger] depth[j] >= 0,
        reaches(g, val_at(g, start_idx), val_at(g, start_idx)),
    ensures
        dij_ok(g, start_idx, dist, pred, done, depth, None),
{
    reveal(dij_ok);
}

/// One step backward through the predecessor forest keeps the
/// clipped distance-plus-remaining-cost bound.
proof fn lemma_recon_step(dpu: nat, dcur: nat, dend: nat, s0: nat, pc0: nat, pc1: nat)
    requires
        clip_cost(dpu + s0) <= dcur,
        clip_cost(dcur + pc0) <= dend,
        pc1 == clip_cost(s0 + pc0),
    ensures
        clip_cost(dpu + pc1) <= dend,
{
    lemma_clip_add(dpu, s0, pc0);
}

/// The parts of the search state that the path reconstruction reads.
proof fn lemma_dij_facts(
    g: GraphView,
    start_idx: int,
    dist: Seq<Option<u64>>,
    pred: Seq<Option<usize>>,
    done: Seq<bool>,
    depth: Seq<int>,
    i: int,
)
    requires
        dij_ok(g, start_idx, dist, pred, done, depth, None),
        0 <= i < g.len(),
    ensures
        g.len() == dist.len() && g.len() == pred.len() && g.len() == done.len() && g.len()
            == depth.len(),
        0 <= start_idx < g.len(),
        dist[start_idx] == Some(0u64),
        pred[start_idx] is None,
        depth[i] >= 0,
        dist[i] is Some && i != start_idx ==> pred[i] is Some,
        pred[i] is Some ==> pred_ok(g, dist, pred, done, depth, i),
        dist[i] is Some ==> reaches(g, val_at(g, start_idx), val_at(g, i)),
        done[i] && dist[i] is Some ==> dist_lower_bound(g, start_idx, dist, i),
{
    reveal(dij_ok);
}

/// A directed graph over `u64` node values.
pub struct Graph {
    nodes: Vec<GraphNode>,
}

impl View for Graph {
    type V = GraphView;

    closed spec fn view(&self) -> GraphView {
        self.nodes@.map_values(|n: GraphNode| (n.value, n.edges@))
    }
}

impl Graph {
    #[verifier::type_invariant]
    closed spec fn inv(&self) -> bool {
        graph_wf(self@)
    }

    /// Create a graph with no nodes.
    pub fn new() -> (g: Graph)
        ensures
            g@ == Seq::<(u64, Seq<Edge>)>::empty(),
    {
        let g = Graph { nodes: Vec::new() };
        proof {
            assert(g@ =~= Seq::<(u64, Seq<Edge>)>::empty());
        }
        g
    }

    /// The position of the node with the given value, if any.
    fn find_node_index(&self, value: u64) -> (r: Option<usize>)
        ensures
            match r {
                Some(i) => i < self@.len() && val_at(self@, i as int) == value && node_index(
                    self@,
                    value,
                ) == i as int,
                None => !has_node(self@, value),
            },
    {
        proof {
            use_type_invariant(self);
        }
        let mut i: usize = 0;
        while i < self.nodes.len()
            invariant
                graph_wf(self@),
                i <= self@.len(),
                forall|j: int| 0 <= j < i ==> val_at(self@, j) != value,
            decreases self@.len() - i,
        {
            if self.nodes[i].value == value {
                proof {
                    assert(val_at(self@, i as int) == value);
                    let ni = node_index(self@, value);
                    if ni != i as int {
                        assert(val_at(self@, ni) != val_at(self@, i as int));
                    }
                }
                return Some(i);
            }
            i = i + 1;
        }
        None
    }

    /// Read access to the node with the given value.
    pub fn get_node(&self, value: u64) -> (r: Option<&GraphNode>)
        ensures
            match r {
                Some(node) => {
                    &&& has_node(self@, value)
                    &&& node.value == value
                    &&& node.edges@ == adjacency(self@, value)
                },
                None => !has_node(self@, value),
            },
    {
        match self.find_node_index(value) {
            Some(i) => {
                let node = &self.nodes[i];
                proof {
                    assert(self@[i as int] == (node.value, node.edges@));
                }
                Some(node)
            },
            None => None,
        }
    }

    /// Add a node with the given value and no edges; a value already
    /// present is left as it is.
    pub fn add_node(&mut self, value: u64)
        ensures
            final(self)@ == spec_add_node(old(self)@, value),
    {
        proof {
            use_type_invariant(&*self);
        }
        let ghost g0 = self@;
        let mut nodes: Vec<GraphNode> = Vec::new();
        core::mem::swap(&mut nodes, &mut self.nodes);
        let absent = {
            let mut i: usize = 0;
            let mut missing = true;
            while i < nodes.len()
                invariant
                    i <= nodes@.len(),
                    nodes@.map_values(|n: GraphNode| (n.value, n.edges@)) == g0,
                    missing <==> (forall|j: int| 0 <= j < i ==> val_at(g0, j) != value),
                decreases nodes@.len() - i,
            {
                if nodes[i].value == value {
                    proof {
                        assert(val_at(g0, i as int) == value);
                    }
                    missing = false;
                }
                i = i + 1;
            }
            missing
        };
        if absent {
            nodes.push(GraphNode { value, edges: Vec::new() });
            proof {
                assert(!has_node(g0, value));
                assert(nodes@.map_values(|n: GraphNode| (n.value, n.edges@)) =~= g0.push(
                    (value, Seq::empty()),
                ));
                let g1 = g0.push((value, Seq::empty()));
                assert forall|i: int, j: int| 0 <= i < j < g1.len() implies val_at(g1, i) != val_at(
                    g1,
                    j,
                ) by {
                    if j < g0.len() {
                        assert(val_at(g0, i) != val_at(g0, j));
                    } else {
                        assert(val_at(g1, j) == value);
                        assert(val_at(g0, i) != value);
                    }
                }
                assert forall|i: int, k: int|
                    0 <= i < g1.len() && 0 <= k < adj_at(g1, i).len() implies has_node(
                    g1,
                    #[trigger] targets(adj_at(g1, i))[k],
                ) by {
                    assert(i < g0.len());
                    assert(adj_at(g1, i) == adj_at(g0, i));
                    assert(has_node(g0, targets(adj_at(g0, i))[k]));
                    let w = choose|j: int|
                        0 <= j < g0.len() && val_at(g0, j) == targets(adj_at(g0, i))[k];
                    assert(val_at(g1, w) == targets(adj_at(g1, i))[k]);
                }
            }
        } else {
            proof {
                let w = choose|j: int| 0 <= j < g0.len() && val_at(g0, j) == value;
                assert(has_node(g0, value));
            }
        }
        self.nodes = nodes;
    }

    /// Remove the node with the given value, together with every
    /// edge, in any node, whose destination is that value; an absent
    /// value removes nothing but still prunes nothing, since a
    /// well-formed graph has no edge to a missing node.
    pub fn remove_node(&mut self, value: u64)
        ensures
            final(self)@ == spec_remove_node(old(self)@, value),
    {
        proof {
            use_type_invariant(&*self);
        }
        let ghost g0 = self@;
        let mut nodes: Vec<GraphNode> = Vec::new();
        core::mem::swap(&mut nodes, &mut self.nodes);
        let mut res: Vec<GraphNode> = Vec::new();
        let n = nodes.len();
        let mut i: usize = 0;
        while i < n
            invariant
                n == nodes@.len(),
                nodes@.map_values(|nd: GraphNode| (nd.value, nd.edges@)) == g0,
                i <= n,
                res@.map_values(|nd: GraphNode| (nd.value, nd.edges@)) == spec_remove_node(
                    g0.take(i as int),
                    value,
                ),
            decreases n - i,
        {
            let ghost pre = spec_remove_node(g0.take(i as int), value);
            if nodes[i].value != value {
                let mut kept: Vec<Edge> = Vec::new();
                let m = nodes[i].edges.len();
                let mut k: usize = 0;
                while k < m
                    invariant
                        n == nodes@.len(),
                        nodes@.map_values(|nd: GraphNode| (nd.value, nd.edges@)) == g0,
                        i < n,
                        m == adj_at(g0, i as int).len(),
                        nodes@[i as int].edges@ == adj_at(g0, i as int),
                        k <= m,
                        kept@ == prune_edges(adj_at(g0, i as int).take(k as int), value),
                    decreases m - k,
                {
                    let e = nodes[i].edges[k];
                    proof {
                        reveal(Seq::filter);
                        assert(adj_at(g0, i as int).take(k + 1).drop_last() =~= adj_at(
                            g0,
                            i as int,
                        ).take(k as int));
                        assert(adj_at(g0, i as int).take(k + 1).last() == e);
                    }
                    if e.destination != value {
                        kept.push(e);
                    }
                    k = k + 1;
                }
                proof {
                    assert(adj_at(g0, i as int).take(m as int) =~= adj_at(g0, i as int));
                }
                let node_value = nodes[i].value;
                res.push(GraphNode { value: node_value, edges: kept });
                proof {
                    assert(g0.take(i + 1).drop_last() =~= g0.take(i as int));
                    assert(g0.take(i + 1).last() == g0[i as int]);
                    assert(res@.map_values(|nd: GraphNode| (nd.value, nd.edges@)) =~= pre.push(
                        (val_at(g0, i as int), prune_edges(adj_at(g0, i as int), value)),
                    ));
                }
            } else {
                proof {
                    assert(g0.take(i + 1).drop_last() =~= g0.take(i as int));
                    assert(g0.take(i + 1).last() == g0[i as int]);
                }
            }
            i = i + 1;
        }
        proof {
            assert(g0.take(n as int) =~= g0);
            lemma_remove_node_wf(g0, value);
        }
        self.nodes = res;
    }

    /// Add an edge from the source value to the destination value
    /// with the given optional weight; when either endpoint is
    /// missing, nothing changes. Self-loops and repeated edges are
    /// permitted.
    pub fn add_edge(&mut self, source_value: u64, destination_value: u64, weight: Option<u64>)
        ensures
            final(self)@ == spec_add_edge(old(self)@, source_value, destination_value, weight),
    {
        proof {
            use_type_invariant(&*self);
        }
        let ghost g0 = self@;
        let si = match self.find_node_index(source_value) {
            Some(si) => si,
            None => {
                return ;
            },
        };
        if self.find_node_index(destination_value).is_none() {
            return ;
        }
        let mut nodes: Vec<GraphNode> = Vec::new();
        core::mem::swap(&mut nodes, &mut self.nodes);
        let mut node = nodes.remove(si);
        node.edges.push(
            Edge { destination: destination_value, weight },
        );
        let ghost new_edges = node.edges@;
        nodes.insert(si, node);
        proof {
            let g1 = spec_add_edge(g0, source_value, destination_value, weight);
            assert(nodes@[si as int].value == source_value && nodes@[si as int].edges@
                == new_edges);
            assert(new_edges == adj_at(g0, si as int).push(
                Edge { destination: destination_value, weight },
            ));
            assert forall|i: int| 0 <= i < nodes@.len() && i != si as int implies nodes@[i] == old(
                self,
            ).nodes@[i] by {}
            assert(nodes@.map_values(|nd: GraphNode| (nd.value, nd.edges@)) =~= g1);
            assert forall|x: u64| has_node(g1, x) <==> has_node(g0, x) by {
                assert forall|i: int| 0 <= i < g0.len() implies val_at(g1, i) == val_at(
                    g0,
                    i,
                ) by {}
                if has_node(g1, x) {
                    let i = choose|i: int| 0 <= i < g1.len() && val_at(g1, i) == x;
                    assert(val_at(g0, i) == x);
                }
                if has_node(g0, x) {
                    let i = choose|i: int| 0 <= i < g0.len() && val_at(g0, i) == x;
                    assert(val_at(g1, i) == x);
                }
            }
            assert forall|i: int, k: int|
                0 <= i < g1.len() && 0 <= k < adj_at(g1, i).len() implies has_node(
                g1,
                #[trigger] targets(adj_at(g1, i))[k],
            ) by {
                if i == si as int && k == adj_at(g1, i).len() - 1 {
                    assert(targets(adj_at(g1, i))[k] == destination_value);
                } else {
                    assert(adj_at(g1, i)[k] == adj_at(g0, i)[k]);
                    assert(targets(adj_at(g0, i))[k] == targets(adj_at(g1, i))[k]);
                    assert(has_node(g0, targets(adj_at(g0, i))[k]));
                }
            }
            assert forall|i: int, j: int| 0 <= i < j < g1.len() implies val_at(g1, i) != val_at(
                g1,
                j,
            ) by {
                assert(val_at(g1, i) == val_at(g0, i) && val_at(g1, j) == val_at(g0, j));
            }
            assert(graph_wf(g1));
        }
        self.nodes = nodes;
    }

    /// Remove every edge from the source value to the destination
    /// value; an absent source or no matching edge changes nothing.
    pub fn remove_edge(&mut self, source_value: u64, destination_value: u64)
        ensures
            final(self)@ == spec_remove_edge(old(self)@, source_value, destination_value),
    {
        proof {
            use_type_invariant(&*self);
        }
        let ghost g0 = self@;
        let si = match self.find_node_index(source_value) {
            Some(si) => si,
            None => {
                return ;
            },
        };
        let mut nodes: Vec<GraphNode> = Vec::new();
        core::mem::swap(&mut nodes, &mut self.nodes);
        let mut node = nodes.remove(si);
        let ghost adj = node.edges@;
        let mut kept: Vec<Edge> = Vec::new();
        let m = node.edges.len();
        let mut k: usize = 0;
        while k < m
            invariant
                m == adj.len(),
                node.edges@ == adj,
                k <= m,
                kept@ == prune_edges(adj.take(k as int), destination_value),
            decreases m - k,
        {
            let e = node.edges[k];
            proof {
                reveal(Seq::filter);
                assert(adj.take(k + 1).drop_last() =~= adj.take(k as int));
                assert(adj.take(k + 1).last() == e);
            }
            if e.destination != destination_value {
                kept.push(e);
            }
            k = k + 1;
        }
        proof {
            assert(adj.take(m as int) =~= adj);
        }
        node.edges = kept;
        let ghost new_edges = node.edges@;
        nodes.insert(si, node);
        proof {
            let g1 = spec_remove_edge(g0, source_value, destination_value);
            assert(adj == adj_at(g0, si as int));
            assert(nodes@[si as int].value == source_value && nodes@[si as int].edges@
                == new_edges);
            assert(new_edges == prune_edges(adj, destination_value));
            assert forall|i: int| 0 <= i < nodes@.len() && i != si as int implies nodes@[i] == old(
                self,
            ).nodes@[i] by {}
            assert(nodes@.map_values(|nd: GraphNode| (nd.value, nd.edges@)) =~= g1);
            assert forall|x: u64| has_node(g1, x) <==> has_node(g0, x) by {
                if has_node(g1, x) {
                    let i = choose|i: int| 0 <= i < g1.len() && val_at(g1, i) == x;
                    assert(val_at(g0, i) == x);
                }
                if has_node(g0, x) {
                    let i = choose|i: int| 0 <= i < g0.len() && val_at(g0, i) == x;
                    assert(val_at(g1, i) == x);
                }
            }
            assert forall|i: int, k2: int|
                0 <= i < g1.len() && 0 <= k2 < adj_at(g1, i).len() implies has_node(
                g1,
                #[trigger] targets(adj_at(g1, i))[k2],
            ) by {
                if i == si as int {
                    let pruned = prune_edges(adj, destination_value);
                    assert(pruned[k2].destination == targets(adj_at(g1, i))[k2]);
                    assert(pruned.contains(pruned[k2]));
                    lemma_filter_subset(
                        adj,
                        |e: Edge| e.destination != destination_value,
                        pruned[k2],
                    );
                    let mm = choose|mm: int| 0 <= mm < adj.len() && adj[mm] == pruned[k2];
                    assert(targets(adj_at(g0, i))[mm] == pruned[k2].destination);
                    assert(has_node(g0, pruned[k2].destination));
                } else {
                    assert(adj_at(g1, i)[k2] == adj_at(g0, i)[k2]);
                    assert(targets(adj_at(g0, i))[k2] == targets(adj_at(g1, i))[k2]);
                    assert(has_node(g0, targets(adj_at(g0, i))[k2]));
                }
            }
            assert forall|i: int, j: int| 0 <= i < j < g1.len() implies val_at(g1, i) != val_at(
                g1,
                j,
            ) by {
                assert(val_at(g1, i) == val_at(g0, i) && val_at(g1, j) == val_at(g0, j));
            }
            assert(graph_wf(g1));
        }
        self.nodes = nodes;
    }

    /// Visit every node reachable from the start value in pre-order,
    /// following outgoing edges in adjacency order; the result lists
    /// each reachable node exactly once, the start first. An absent
    /// start yields an empty sequence.
    #[verifier::rlimit(100)]
    pub fn depth_first_search(&self, start_value: u64) -> (r: Vec<u64>)
        ensures
            r@.no_duplicates(),
            forall|v: u64| r@.contains(v) <==> reaches(self@, start_value, v),
            !has_node(self@, start_value) ==> r@ == Seq::<u64>::empty(),
            has_node(self@, start_value) ==> r@.len() >= 1 && r@[0] == start_value,
            forall|j: int|
                1 <= j < r@.len() ==> exists|k: int| 0 <= k < j && has_edge(self@, r@[k], #[trigger] r@[j]),
            r@ == dfs_run(self@, Seq::empty(), seq![start_value]),
    {
        proof {
            use_type_invariant(self);
        }
        let ghost g = self@;
        if self.find_node_index(start_value).is_none() {
            let r = Vec::new();
            proof {
                assert forall|v: u64| !reaches(g, start_value, v) by {
                    if reaches(g, start_value, v) {
                        let p = choose|p: Seq<u64>|
                            is_path(g, p) && p.first() == start_value && p.last() == v;
                        assert(has_node(g, p[0]));
                    }
                }
                assert(r@ =~= Seq::<u64>::empty());
                assert(dfs_run(g, Seq::empty(), seq![start_value]) == Seq::<u64>::empty()) by {
                    let st = seq![start_value];
                    assert(st.last() == start_value);
                    assert(!Seq::<u64>::empty().contains(start_value));
                }
            }
            return r;
        }
        let mut result: Vec<u64> = Vec::new();
        let mut pending: Vec<u64> = Vec::new();
        pending.push(start_value);
        proof {
            lemma_reaches_self(g, start_value);
            assert(pending@[0] == start_value);
            assert(pending@ =~= seq![start_value]);
        }
        while pending.len() > 0
            invariant
                graph_wf(g),
                g == self@,
                result@.no_duplicates(),
                result@.len() <= g.len(),
                forall|i: int|
                    0 <= i < result@.len() ==> has_node(g, #[trigger] result@[i]) && reaches(
                        g,
                        start_value,
                        result@[i],
                    ),
                forall|i: int|
                    0 <= i < pending@.len() ==> has_node(g, #[trigger] pending@[i]) && reaches(
                        g,
                        start_value,
                        pending@[i],
                    ),
                forall|x: u64, k: int|
                    result@.contains(x) && 0 <= k < adjacency(g, x).len() ==> result@.contains(
                        #[trigger] targets(adjacency(g, x))[k],
                    ) || pending@.contains(targets(adjacency(g, x))[k]),
                result@.contains(start_value) || pending@.contains(start_value),
                result@.len() == 0 ==> pending@ == seq![start_value],
                result@.len() > 0 ==> result@[0] == start_value,
                forall|j: int|
                    1 <= j < result@.len() ==> exists|k: int|
                        0 <= k < j && has_edge(g, result@[k], #[trigger] result@[j]),
                forall|x: u64|
                    pending@.contains(x) ==> x == start_value || exists|k: int|
                        0 <= k < result@.len() && has_edge(g, result@[k], x),
                dfs_run(g, result@, pending@) == dfs_run(g, Seq::empty(), seq![start_value]),
            decreases g.len() - result@.len(), pending@.len(),
        {
            let ghost pend0 = pending@;
            let v = match pending.pop() {
                Some(v) => v,
                None => {
                    proof {
                        assert(false);
                    }
                    return result;
                },
            };
            proof {
                assert(v == pend0.last());
                assert(pend0.contains(v)) by {
                    assert(pend0[pend0.len() - 1] == v);
                }
            }
            if !vec_contains(&result, v) {
                let si = match self.find_node_index(v) {
                    Some(si) => si,
                    None => {
                        proof {
                            assert(false);
                        }
                        return result;
                    },
                };
                let ghost res0 = result@;
                result.push(v);
                proof {
                    lemma_push_no_duplicates(res0, v);
                    lemma_values_bound(g, result@);
                    assert(adjacency(g, v) == adj_at(g, si as int));
                    assert(result@[result@.len() - 1] == v);
                    assert forall|x: u64| pending@.contains(x) implies x == start_value || exists|k2: int|
                        0 <= k2 < result@.len() && has_edge(g, result@[k2], x) by {
                        assert(pend0.contains(x)) by {
                            let idx = choose|idx: int| 0 <= idx < pending@.len() && pending@[idx] == x;
                            assert(pend0[idx ] == x);
                        }
                        if x != start_value {
                            let k2 = choose|k2: int|
                                0 <= k2 < res0.len() && has_edge(g, res0[k2], x);
                            assert(result@[k2] == res0[k2]);
                        }
                    }
                }
                let ghost pend1 = pending@;
                let ghost res1 = result@;
                let m = self.nodes[si].edges.len();
                let mut k: usize = m;
                proof {
                    assert(pending@ =~= pend1 + targets(adj_at(g, si as int)).subrange(
                        k as int,
                        m as int,
                    ).reverse());
                }
                while k > 0
                    invariant
                        g == self@,
                        si < g.len(),
                        m == adj_at(g, si as int).len(),
                        k <= m,
                        result@ == res1,
                        pending@ == pend1 + targets(adj_at(g, si as int)).subrange(
                            k as int,
                            m as int,
                        ).reverse(),
                    decreases k,
                {
                    k = k - 1;
                    let dest = self.nodes[si].edges[k].destination;
                    pending.push(dest);
                    proof {
                        assert(targets(adj_at(g, si as int))[k as int] == dest);
                        assert(targets(adj_at(g, si as int)).subrange(k as int, m as int).reverse()
                            =~= targets(adj_at(g, si as int)).subrange(
                            k + 1,
                            m as int,
                        ).reverse().push(targets(adj_at(g, si as int))[k as int]));
                        assert(pending@ =~= pend1 + targets(adj_at(g, si as int)).subrange(
                            k as int,
                            m as int,
                        ).reverse());
                    }
                }
                proof {
                    let tgts = targets(adj_at(g, si as int));
                    assert(tgts.subrange(0, m as int) =~= tgts);
                    assert(pending@ == pend1 + tgts.reverse());
                    assert forall|y: u64| pend1.contains(y) implies pending@.contains(y) by {
                        let idx = choose|idx: int| 0 <= idx < pend1.len() && pend1[idx] == y;
                        assert(pending@[idx] == y);
                    }
                    assert forall|kk: int|
                        0 <= kk < m implies pending@.contains(#[trigger] tgts[kk]) by {
                        assert(pending@[pend1.len() + (m - 1 - kk)] == tgts.reverse()[m - 1 - kk]);
                        assert(tgts.reverse()[m - 1 - kk] == tgts[kk]);
                    }
                    assert forall|kk: int|
                        0 <= kk < m implies has_node(g, #[trigger] tgts[kk]) && reaches(
                        g,
                        start_value,
                        tgts[kk],
                    ) && has_edge(g, v, tgts[kk]) by {
                        assert(has_edge(g, v, tgts[kk])) by {
                            assert(targets(adjacency(g, v))[kk] == tgts[kk]);
                        }
                        lemma_reaches_step(g, start_value, v, tgts[kk]);
                    }
                    assert forall|i: int|
                        0 <= i < pending@.len() implies has_node(g, #[trigger] pending@[i])
                        && reaches(g, start_value, pending@[i]) by {
                        if i < pend1.len() {
                            assert(pending@[i] == pend1[i]);
                        } else {
                            assert(pending@[i] == tgts.reverse()[i - pend1.len()]);
                            assert(tgts.reverse()[i - pend1.len()] == tgts[m - 1 - (i
                                - pend1.len())]);
                        }
                    }
                    assert forall|x: u64| pending@.contains(x) implies x == start_value || exists|
                        k2: int,
                    |
                        0 <= k2 < result@.len() && has_edge(g, result@[k2], x) by {
                        let idx = choose|idx: int| 0 <= idx < pending@.len() && pending@[idx] == x;
                        if idx < pend1.len() {
                            assert(pend1.contains(x)) by {
                                assert(pend1[idx] == x);
                            }
                        } else {
                            assert(x == tgts[m - 1 - (idx - pend1.len())]) by {
                                assert(pending@[idx] == tgts.reverse()[idx - pend1.len()]);
                            }
                            assert(has_edge(g, v, x));
                            assert(result@[res1.len() - 1] == v);
                        }
                    }
                }
                proof {
                    assert forall|x: u64, kk: int|
                        result@.contains(x) && 0 <= kk < adjacency(g, x).len() implies result@.contains(
                        #[trigger] targets(adjacency(g, x))[kk],
                    ) || pending@.contains(targets(adjacency(g, x))[kk]) by {
                        let w = targets(adjacency(g, x))[kk];
                        if x == v {
                            assert(pending@.contains(targets(adj_at(g, si as int))[kk]));
                        } else {
                            assert(res0.contains(x)) by {
                                let idx = choose|idx: int|
                                    0 <= idx < result@.len() && result@[idx] == x;
                                assert(idx < res0.len());
                                assert(res0[idx] == x);
                            }
                            assert(res0.contains(w) || pend0.contains(w));
                            if res0.contains(w) {
                                let idx = choose|idx: int|
                                    0 <= idx < res0.len() && res0[idx] == w;
                                assert(result@[idx] == w);
                            } else {
                                crate::seqs::lemma_contains_drop_last(pend0, w);
                                if w == v {
                                    assert(result@[result@.len() - 1] == v);
                                } else {
                                    assert(pend1.contains(w));
                                    assert(pending@.contains(w));
                                }
                            }
                        }
                    }
                    assert(result@.len() > 0 && result@[0] == start_value) by {
                        if res0.len() == 0 {
                            assert(pend0 == seq![start_value]);
                            assert(v == start_value);
                        } else {
                            assert(result@[0] == res0[0]);
                        }
                    }
                    assert(result@.contains(start_value) || pending@.contains(start_value)) by {
                        if res0.contains(start_value) {
                            let idx = choose|idx: int|
                                0 <= idx < res0.len() && res0[idx] == start_value;
                            assert(result@[idx] == start_value);
                        } else if pend0.contains(start_value) {
                            crate::seqs::lemma_contains_drop_last(pend0, start_value);
                            if start_value == v {
                                assert(result@[result@.len() - 1] == start_value);
                            } else {
                                assert(pend1.contains(start_value));
                            }
                        }
                    }
                    assert forall|j: int| 1 <= j < result@.len() implies exists|k: int|
                        0 <= k < j && has_edge(g, result@[k], #[trigger] result@[j]) by {
                        if j < res0.len() {
                            let k = choose|k: int| 0 <= k < j && has_edge(g, res0[k], res0[j]);
                            assert(result@[k] == res0[k] && result@[j] == res0[j]);
                        } else {
                            assert(result@[j] == v);
                            assert(res0[0] == start_value);
                            assert(res0.contains(start_value)) by {
                                assert(res0[0] == start_value);
                            }
                            assert(v != start_value);
                            let k = choose|k: int| 0 <= k < res0.len() && has_edge(g, res0[k], v);
                            assert(result@[k] == res0[k]);
                        }
                    }
                }
                    assert(dfs_run(g, result@, pending@) == dfs_run(
                        g,
                        Seq::empty(),
                        seq![start_value],
                    )) by {
                        assert(pend0.len() >= 1 && pend0.last() == v);
                        assert(!res0.contains(v));
                        assert(res0.no_duplicates());
                        assert forall|i: int| 0 <= i < res0.len() implies has_node(
                            g,
                            #[trigger] res0[i],
                        ) by {
                            assert(res0[i] == result@[i]);
                        }
                        assert(result@ =~= res0.push(v));
                        assert(targets(adj_at(g, si as int)).subrange(0, m as int) =~= targets(
                            adj_at(g, si as int),
                        ));
                        assert(pend1 =~= pend0.drop_last());
                        assert(pending@ =~= pend0.drop_last() + targets(adjacency(g, v)).reverse());
                        assert(dfs_run(g, res0, pend0) == dfs_run(g, result@, pending@));
                    }
            } else {
                proof {
                    assert forall|x: u64, kk: int|
                        result@.contains(x) && 0 <= kk < adjacency(g, x).len() implies result@.contains(
                        #[trigger] targets(adjacency(g, x))[kk],
                    ) || pending@.contains(targets(adjacency(g, x))[kk]) by {
                        let w = targets(adjacency(g, x))[kk];
                        assert(result@.contains(w) || pend0.contains(w));
                        if !result@.contains(w) {
                            crate::seqs::lemma_contains_drop_last(pend0, w);
                        }
                    }
                    assert(result@.contains(start_value) || pending@.contains(start_value)) by {
                        if !result@.contains(start_value) && pend0.contains(start_value) {
                            crate::seqs::lemma_contains_drop_last(pend0, start_value);
                        }
                    }
                    assert(result@.len() > 0) by {
                        assert(result@.contains(v));
                    }
                    assert forall|x: u64| pending@.contains(x) implies x == start_value || exists|
                        k2: int,
                    |
                        0 <= k2 < result@.len() && has_edge(g, result@[k2], x) by {
                        assert(pend0.contains(x)) by {
                            let idx = choose|idx: int| 0 <= idx < pending@.len() && pending@[idx] == x;
                            assert(pend0[idx ] == x);
                        }
                    }
                    assert(dfs_run(g, result@, pending@) == dfs_run(
                        g,
                        Seq::empty(),
                        seq![start_value],
                    )) by {
                        assert(pend0.len() >= 1 && pend0.last() == v);
                        assert(result@.contains(v));
                        assert(pending@ =~= pend0.drop_last());
                        assert(dfs_run(g, result@, pend0) == dfs_run(g, result@, pending@));
                    }
                }
            }
        }
        proof {
            assert forall|v: u64| result@.contains(v) <==> reaches(g, start_value, v) by {
                if reaches(g, start_value, v) {
                    let p = choose|p: Seq<u64>|
                        is_path(g, p) && p.first() == start_value && p.last() == v;
                    lemma_closed_reachable(g, result@, p);
                }
            }
            assert(dfs_run(g, result@, pending@) == result@);
        }
        result
    }

    /// Visit every node reachable from the start value in frontier
    /// order: nodes are taken from the front of a queue, and a
    /// node's successors are enqueued in adjacency order whether or
    /// not they were seen before — a node is skipped only when it is
    /// dequeued a second time. The result lists each reachable node
    /// exactly once, the start first; an absent start yields an
    /// empty sequence.
    #[verifier::rlimit(100)]
    pub fn breadth_first_search(&self, start_value: u64) -> (r: Vec<u64>)
        ensures
            r@.no_duplicates(),
            forall|v: u64| r@.contains(v) <==> reaches(self@, start_value, v),
            !has_node(self@, start_value) ==> r@ == Seq::<u64>::empty(),
            has_node(self@, start_value) ==> r@.len() >= 1 && r@[0] == start_value,
            forall|j: int|
                1 <= j < r@.len() ==> exists|k: int| 0 <= k < j && has_edge(self@, r@[k], #[trigger] r@[j]),
            r@ == bfs_run(self@, Seq::empty(), seq![start_value]),
    {
        proof {
            use_type_invariant(self);
        }
        let ghost g = self@;
        if self.find_node_index(start_value).is_none() {
            let r = Vec::new();
            proof {
                assert forall|v: u64| !reaches(g, start_value, v) by {
                    if reaches(g, start_value, v) {
                        let p = choose|p: Seq<u64>|
                            is_path(g, p) && p.first() == start_value && p.last() == v;
                        assert(has_node(g, p[0]));
                    }
                }
                assert(r@ =~= Seq::<u64>::empty());
                assert(bfs_run(g, Seq::empty(), seq![start_value]) == Seq::<u64>::empty()) by {
                    let st = seq![start_value];
                    assert(st[0] == start_value);
                    assert(!Seq::<u64>::empty().contains(start_value));
                }
            }
            return r;
        }
        let mut result: Vec<u64> = Vec::new();
        let mut queue: Vec<u64> = Vec::new();
        queue.push(start_value);
        proof {
            lemma_reaches_self(g, start_value);
            assert(queue@[0] == start_value);
            assert(queue@ =~= seq![start_value]);
        }
        while queue.len() > 0
            invariant
                graph_wf(g),
                g == self@,
                result@.no_duplicates(),
                result@.len() <= g.len(),
                forall|i: int|
                    0 <= i < result@.len() ==> has_node(g, #[trigger] result@[i]) && reaches(
                        g,
                        start_value,
                        result@[i],
                    ),
                forall|i: int|
                    0 <= i < queue@.len() ==> has_node(g, #[trigger] queue@[i]) && reaches(
                        g,
                        start_value,
                        queue@[i],
                    ),
                forall|x: u64, k: int|
                    result@.contains(x) && 0 <= k < adjacency(g, x).len() ==> result@.contains(
                        #[trigger] targets(adjacency(g, x))[k],
                    ) || queue@.contains(targets(adjacency(g, x))[k]),
                result@.contains(start_value) || queue@.contains(start_value),
                result@.len() == 0 ==> queue@ == seq![start_value],
                result@.len() > 0 ==> result@[0] == start_value,
                forall|j: int|
                    1 <= j < result@.len() ==> exists|k: int|
                        0 <= k < j && has_edge(g, result@[k], #[trigger] result@[j]),
                forall|x: u64|
                    queue@.contains(x) ==> x == start_value || exists|k: int|
                        0 <= k < result@.len() && has_edge(g, result@[k], x),
                bfs_run(g, result@, queue@) == bfs_run(g, Seq::empty(), seq![start_value]),
            decreases g.len() - result@.len(), queue@.len(),
        {
            let ghost pend0 = queue@;
            let v = queue.remove(0);
            proof {
                assert(v == pend0[0]);
                assert(pend0.contains(v)) by {
                    assert(pend0[0] == v);
                }
                assert(queue@ =~= pend0.subrange(1, pend0.len() as int));
            }
            if !vec_contains(&result, v) {
                let si = match self.find_node_index(v) {
                    Some(si) => si,
                    None => {
                        proof {
                            assert(false);
                        }
                        return result;
                    },
                };
                let ghost res0 = result@;
                result.push(v);
                proof {
                    lemma_push_no_duplicates(res0, v);
                    lemma_values_bound(g, result@);
                    assert(adjacency(g, v) == adj_at(g, si as int));
                    assert(result@[result@.len() - 1] == v);
                    assert forall|x: u64| queue@.contains(x) implies x == start_value || exists|k2: int|
                        0 <= k2 < result@.len() && has_edge(g, result@[k2], x) by {
                        assert(pend0.contains(x)) by {
                            let idx = choose|idx: int| 0 <= idx < queue@.len() && queue@[idx] == x;
                            assert(pend0[idx + 1] == x);
                        }
                        if x != start_value {
                            let k2 = choose|k2: int|
                                0 <= k2 < res0.len() && has_edge(g, res0[k2], x);
                            assert(result@[k2] == res0[k2]);
                        }
                    }
                }
                let ghost pend1 = queue@;
                let ghost res1 = result@;
                let m = self.nodes[si].edges.len();
                let mut k: usize = 0;
                proof {
                    assert(queue@ =~= pend1 + targets(adj_at(g, si as int)).subrange(0, k as int));
                }
                while k < m
                    invariant
                        graph_wf(g),
                        g == self@,
                        si < g.len(),
                        val_at(g, si as int) == v,
                        adjacency(g, v) == adj_at(g, si as int),
                        m == adj_at(g, si as int).len(),
                        k <= m,
                        reaches(g, start_value, v),
                        result@ == res1,
                        res1.len() >= 1 && res1[res1.len() - 1] == v,
                        queue@ == pend1 + targets(adj_at(g, si as int)).subrange(0, k as int),
                        forall|y: u64| pend1.contains(y) ==> queue@.contains(y),
                        forall|kk: int|
                            0 <= kk < k ==> queue@.contains(
                                #[trigger] targets(adj_at(g, si as int))[kk],
                            ),
                        forall|i: int|
                            0 <= i < queue@.len() ==> has_node(g, #[trigger] queue@[i]) && reaches(
                                g,
                                start_value,
                                queue@[i],
                            ),
                        forall|x: u64|
                            queue@.contains(x) ==> x == start_value || exists|k2: int|
                                0 <= k2 < result@.len() && has_edge(g, result@[k2], x),
                    decreases m - k,
                {
                    let dest = self.nodes[si].edges[k].destination;
                    let ghost pend_mid = queue@;
                    queue.push(dest);
                    proof {
                        assert(targets(adj_at(g, si as int)).subrange(0, k + 1) =~= targets(
                            adj_at(g, si as int),
                        ).subrange(0, k as int).push(targets(adj_at(g, si as int))[k as int]));
                        assert(queue@ =~= pend1 + targets(adj_at(g, si as int)).subrange(
                            0,
                            k + 1,
                        ));
                        assert(targets(adj_at(g, si as int))[k as int] == dest);
                        assert(has_edge(g, v, dest)) by {
                            assert(targets(adjacency(g, v))[k as int] == dest);
                        }
                        lemma_reaches_step(g, start_value, v, dest);
                        assert(has_node(g, dest));
                        assert forall|y: u64| pend_mid.contains(y) implies queue@.contains(y) by {
                            let idx = choose|idx: int|
                                0 <= idx < pend_mid.len() && pend_mid[idx] == y;
                            assert(queue@[idx] == y);
                        }
                        assert(queue@[queue@.len() - 1] == dest);
                        assert forall|x: u64| queue@.contains(x) implies x == start_value || exists|
                            k2: int,
                        |
                            0 <= k2 < result@.len() && has_edge(g, result@[k2], x) by {
                            crate::seqs::lemma_contains_drop_last(queue@, x);
                            if x == dest {
                                assert(result@[res1.len() - 1] == v);
                                assert(has_edge(g, result@[res1.len() - 1], dest));
                            } else {
                                assert(queue@.drop_last() =~= pend_mid);
                                assert(pend_mid.contains(x));
                            }
                        }
                    }
                    k = k + 1;
                }
                proof {
                    assert forall|x: u64, kk: int|
                        result@.contains(x) && 0 <= kk < adjacency(g, x).len() implies result@.contains(
                        #[trigger] targets(adjacency(g, x))[kk],
                    ) || queue@.contains(targets(adjacency(g, x))[kk]) by {
                        let w = targets(adjacency(g, x))[kk];
                        if x == v {
                            assert(queue@.contains(targets(adj_at(g, si as int))[kk]));
                        } else {
                            assert(res0.contains(x)) by {
                                let idx = choose|idx: int|
                                    0 <= idx < result@.len() && result@[idx] == x;
                                assert(idx < res0.len());
                                assert(res0[idx] == x);
                            }
                            assert(res0.contains(w) || pend0.contains(w));
                            if res0.contains(w) {
                                let idx = choose|idx: int|
                                    0 <= idx < res0.len() && res0[idx] == w;
                                assert(result@[idx] == w);
                            } else {
                                crate::seqs::lemma_contains_drop_first(pend0, w);
                                if w == v {
                                    assert(result@[result@.len() - 1] == v);
                                } else {
                                    assert(pend1.contains(w));
                                    assert(queue@.contains(w));
                                }
                            }
                        }
                    }
                    assert(result@.len() > 0 && result@[0] == start_value) by {
                        if res0.len() == 0 {
                            assert(pend0 == seq![start_value]);
                            assert(v == start_value);
                        } else {
                            assert(result@[0] == res0[0]);
                        }
                    }
                    assert(result@.contains(start_value) || queue@.contains(start_value)) by {
                        if res0.contains(start_value) {
                            let idx = choose|idx: int|
                                0 <= idx < res0.len() && res0[idx] == start_value;
                            assert(result@[idx] == start_value);
                        } else if pend0.contains(start_value) {
                            crate::seqs::lemma_contains_drop_first(pend0, start_value);
                            if start_value == v {
                                assert(result@[result@.len() - 1] == start_value);
                            } else {
                                assert(pend1.contains(start_value));
                            }
                        }
                    }
                    assert forall|j: int| 1 <= j < result@.len() implies exists|k: int|
                        0 <= k < j && has_edge(g, result@[k], #[trigger] result@[j]) by {
                        if j < res0.len() {
                            let k = choose|k: int| 0 <= k < j && has_edge(g, res0[k], res0[j]);
                            assert(result@[k] == res0[k] && result@[j] == res0[j]);
                        } else {
                            assert(result@[j] == v);
                            assert(res0[0] == start_value);
                            assert(res0.contains(start_value)) by {
                                assert(res0[0] == start_value);
                            }
                            assert(v != start_value);
                            let k = choose|k: int| 0 <= k < res0.len() && has_edge(g, res0[k], v);
                            assert(result@[k] == res0[k]);
                        }
                    }
                }
                    assert(bfs_run(g, result@, queue@) == bfs_run(
                        g,
                        Seq::empty(),
                        seq![start_value],
                    )) by {
                        assert(pend0.len() >= 1 && pend0[0] == v);
                        assert(!res0.contains(v));
                        assert(res0.no_duplicates());
                        assert forall|i: int| 0 <= i < res0.len() implies has_node(
                            g,
                            #[trigger] res0[i],
                        ) by {
                            assert(res0[i] == result@[i]);
                        }
                        assert(result@ =~= res0.push(v));
                        assert(targets(adj_at(g, si as int)).subrange(0, m as int) =~= targets(
                            adj_at(g, si as int),
                        ));
                        assert(pend1 =~= pend0.subrange(1, pend0.len() as int));
                        assert(queue@ =~= pend0.subrange(1, pend0.len() as int) + targets(
                            adjacency(g, v),
                        ));
                        assert(bfs_run(g, res0, pend0) == bfs_run(g, result@, queue@));
                    }
            } else {
                proof {
                    assert forall|x: u64, kk: int|
                        result@.contains(x) && 0 <= kk < adjacency(g, x).len() implies result@.contains(
                        #[trigger] targets(adjacency(g, x))[kk],
                    ) || queue@.contains(targets(adjacency(g, x))[kk]) by {
                        let w = targets(adjacency(g, x))[kk];
                        assert(result@.contains(w) || pend0.contains(w));
                        if !result@.contains(w) {
                            crate::seqs::lemma_contains_drop_first(pend0, w);
                        }
                    }
                    assert(result@.contains(start_value) || queue@.contains(start_value)) by {
                        if !result@.contains(start_value) && pend0.contains(start_value) {
                            crate::seqs::lemma_contains_drop_first(pend0, start_value);
                        }
                    }
                    assert(result@.len() > 0) by {
                        assert(result@.contains(v));
                    }
                    assert forall|x: u64| queue@.contains(x) implies x == start_value || exists|
                        k2: int,
                    |
                        0 <= k2 < result@.len() && has_edge(g, result@[k2], x) by {
                        assert(pend0.contains(x)) by {
                            let idx = choose|idx: int| 0 <= idx < queue@.len() && queue@[idx] == x;
                            assert(pend0[idx + 1] == x);
                        }
                    }
                    assert(bfs_run(g, result@, queue@) == bfs_run(
                        g,
                        Seq::empty(),
                        seq![start_value],
                    )) by {
                        assert(pend0.len() >= 1 && pend0[0] == v);
                        assert(result@.contains(v));
                        assert(queue@ =~= pend0.subrange(1, pend0.len() as int));
                        assert(bfs_run(g, result@, pend0) == bfs_run(g, result@, queue@));
                    }
                }
            }
        }
        proof {
            assert forall|v: u64| result@.contains(v) <==> reaches(g, start_value, v) by {
                if reaches(g, start_value, v) {
                    let p = choose|p: Seq<u64>|
                        is_path(g, p) && p.first() == start_value && p.last() == v;
                    lemma_closed_reachable(g, result@, p);
                }
            }
            assert(bfs_run(g, result@, queue@) == result@);
        }
        result
    }

    /// One depth-first exploration of the cycle search, keeping the
    /// active path in `on_stack`; a back edge onto that path is a
    /// cycle. The ghost finish order witnesses, when no cycle is
    /// reported anywhere, that the explored part is acyclic.
    #[verifier::rlimit(100)]
    fn is_cyclic_helper(
        &self,
        v: u64,
        visited: &mut Vec<u64>,
        on_stack: &mut Vec<u64>,
        fl: Ghost<Seq<u64>>,
    ) -> (res: (bool, Ghost<Seq<u64>>))
        requires
            has_node(self@, v),
            dfs_state_ok(self@, old(visited)@, old(on_stack)@, fl@),
            old(on_stack)@.len() >= 1 ==> has_edge(self@, old(on_stack)@.last(), v),
        ensures
            res.0 ==> has_cycle(self@),
            !res.0 ==> {
                &&& final(on_stack)@ == old(on_stack)@
                &&& dfs_state_ok(self@, final(visited)@, old(on_stack)@, res.1@)
                &&& (forall|x: u64|
                    old(visited)@.contains(x) ==> final(visited)@.contains(x))
                &&& final(visited)@.contains(v)
                &&& res.1@.contains(v)
                &&& (forall|x: u64| fl@.contains(x) ==> res.1@.contains(x))
                &&& final(visited)@.len() >= old(visited)@.len()
            },
        decreases self@.len() - old(visited)@.len(),
    {
        proof {
            use_type_invariant(self);
        }
        let ghost g = self@;
        if vec_contains(on_stack, v) {
            proof {
                reveal(dfs_state_ok);
                let ch = on_stack@;
                let k = choose|k: int| 0 <= k < ch.len() && ch[k] == v;
                let cyc = ch.subrange(k, ch.len() as int).push(v);
                assert(is_path(g, ch));
                assert forall|i: int| 0 <= i < cyc.len() - 1 implies has_edge(
                    g,
                    #[trigger] cyc[i],
                    cyc[i + 1],
                ) by {
                    if i < cyc.len() - 2 {
                        assert(cyc[i] == ch[k + i] && cyc[i + 1] == ch[k + i + 1]);
                        assert(has_edge(g, ch[k + i], ch[k + i + 1]));
                    } else {
                        assert(cyc[i] == ch.last() && cyc[i + 1] == v);
                    }
                }
                assert(cyc[0] == ch[k]);
                assert(has_node(g, cyc[0]));
                assert(is_path(g, cyc));
                assert(cyc.first() == v && cyc.last() == v && cyc.len() >= 2);
                assert(has_cycle(g));
            }
            return (true, fl);
        }
        if vec_contains(visited, v) {
            proof {
                reveal(dfs_state_ok);
                assert(fl@.contains(v) || on_stack@.contains(v));
            }
            return (false, fl);
        }
        let ghost vis0 = visited@;
        let ghost stk0 = on_stack@;
        visited.push(v);
        on_stack.push(v);
        proof {
            lemma_mark_node(g, vis0, stk0, fl@, v);
            assert(visited@[visited@.len() - 1] == v);
            assert(visited@.contains(v));
            assert forall|x: u64| vis0.contains(x) implies visited@.contains(x) by {
                let idx = choose|idx: int| 0 <= idx < vis0.len() && vis0[idx] == x;
                assert(visited@[idx] == x);
            }
        }
        let si = match self.find_node_index(v) {
            Some(si) => si,
            None => {
                proof {
                    assert(false);
                }
                return (false, fl);
            },
        };
        let ghost stk1 = on_stack@;
        let mut fl_cur: Ghost<Seq<u64>> = fl;
        let m = self.nodes[si].edges.len();
        let mut k: usize = 0;
        while k < m
            invariant
                graph_wf(g),
                g == self@,
                si < g.len(),
                val_at(g, si as int) == v,
                adjacency(g, v) == adj_at(g, si as int),
                m == adj_at(g, si as int).len(),
                k <= m,
                on_stack@ == stk1,
                stk1 == stk0.push(v),
                stk1.last() == v,
                vis0 == old(visited)@,
                dfs_state_ok(g, visited@, on_stack@, fl_cur@),
                visited@.len() >= vis0.len() + 1,
                forall|x: u64| vis0.contains(x) ==> visited@.contains(x),
                visited@.contains(v),
                forall|x: u64| fl@.contains(x) ==> fl_cur@.contains(x),
                forall|kk: int|
                    0 <= kk < k ==> fl_cur@.contains(#[trigger] targets(adj_at(g, si as int))[kk]),
            decreases m - k,
        {
            let dest = self.nodes[si].edges[k].destination;
            proof {
                assert(targets(adj_at(g, si as int))[k as int] == dest);
                assert(has_edge(g, v, dest)) by {
                    assert(targets(adjacency(g, v))[k as int] == dest);
                }
                assert(has_node(g, dest));
                assert(visited@.no_duplicates() && (forall|i: int|
                    0 <= i < visited@.len() ==> has_node(g, #[trigger] visited@[i]))) by {
                    reveal(dfs_state_ok);
                }
                lemma_values_bound(g, visited@);
            }
            let ghost vis_mid = visited@;
            let ghost fl_mid = fl_cur@;
            let (sub_found, fl_next) = self.is_cyclic_helper(dest, visited, on_stack, fl_cur);
            if sub_found {
                return (true, fl_next);
            }
            fl_cur = fl_next;
            proof {
                assert forall|kk: int|
                    0 <= kk < k + 1 implies fl_cur@.contains(
                    #[trigger] targets(adj_at(g, si as int))[kk],
                ) by {
                    if kk < k {
                        assert(fl_mid.contains(targets(adj_at(g, si as int))[kk]));
                    } else {
                        assert(fl_cur@.contains(dest));
                    }
                }
            }
            k = k + 1;
        }
        on_stack.pop();
        let ghost fl_new = fl_cur@.push(v);
        proof {
            assert(on_stack@ =~= stk0);
            lemma_finish_node(g, visited@, stk0, fl_cur@, v, si as int);
        }
        (false, Ghost(fl_new))
    }

    /// Whether the graph holds at least one directed cycle reachable
    /// along outgoing edges; a self-loop counts as a cycle.
    pub fn is_cyclic(&self) -> (r: bool)
        ensures
            r == has_cycle(self@),
    {
        proof {
            use_type_invariant(self);
        }
        let ghost g = self@;
        let mut visited: Vec<u64> = Vec::new();
        let mut on_stack: Vec<u64> = Vec::new();
        let mut fl: Ghost<Seq<u64>> = Ghost(Seq::empty());
        proof {
            reveal(dfs_state_ok);
            reveal(topo_ok);
            assert(dfs_state_ok(g, Seq::empty(), Seq::empty(), Seq::empty()));
        }
        let n = self.nodes.len();
        let mut i: usize = 0;
        while i < n
            invariant
                graph_wf(g),
                g == self@,
                n == g.len(),
                on_stack@ == Seq::<u64>::empty(),
                dfs_state_ok(g, visited@, on_stack@, fl@),
                forall|j: int| 0 <= j < i ==> visited@.contains(#[trigger] val_at(g, j)),
            decreases n - i,
        {
            let v = self.nodes[i].value;
            proof {
                assert(val_at(g, i as int) == v);
                assert(has_node(g, v));
            }
            let ghost vis0 = visited@;
            let (found, fl2) = self.is_cyclic_helper(v, &mut visited, &mut on_stack, fl);
            if found {
                return true;
            }
            fl = fl2;
            proof {
                assert forall|j: int| 0 <= j < i + 1 implies visited@.contains(
                    #[trigger] val_at(g, j),
                ) by {
                    if j < i {
                        assert(vis0.contains(val_at(g, j)));
                    }
                }
            }
            i = i + 1;
        }
        proof {
            reveal(dfs_state_ok);
            assert(!has_cycle(g)) by {
                if has_cycle(g) {
                    let p = choose|p: Seq<u64>|
                        is_path(g, p) && p.len() >= 2 && p.first() == p.last();
                    assert(has_node(g, p[0]));
                    let j = choose|j: int| 0 <= j < g.len() && val_at(g, j) == p[0];
                    assert(visited@.contains(val_at(g, j)));
                    assert(fl@.contains(p[0]) || on_stack@.contains(p[0]));
                    lemma_topo_path_rank(g, fl@, p);
                    assert(rank_in(fl@, p.last()) < rank_in(fl@, p[0]));
                }
            }
        }
        false
    }

    /// The finalized node for the next round: an unfinalized node
    /// with the smallest known distance, the earliest-stored one on
    /// a tie, or any unfinalized node when none has a known distance
    /// yet; `None` once every node is finalized.
    fn select_next(dist: &Vec<Option<u64>>, done: &Vec<bool>) -> (r: Option<usize>)
        requires
            dist@.len() == done@.len(),
        ensures
            match r {
                Some(u) => {
                    &&& (u as int) < done@.len()
                    &&& !done@[u as int]
                    &&& (dist@[u as int] is None ==> forall|j: int|
                        0 <= j < done@.len() && !done@[j] ==> dist@[j] is None)
                    &&& (dist@[u as int] is Some ==> forall|j: int|
                        0 <= j < done@.len() && !done@[j] && dist@[j] is Some
                            ==> dist@[u as int].unwrap() <= dist@[j].unwrap())
                },
                None => forall|j: int| 0 <= j < done@.len() ==> done@[j],
            },
    {
        let n = done.len();
        let mut best: Option<usize> = None;
        let mut j: usize = 0;
        while j < n
            invariant
                n == done@.len() == dist@.len(),
                j <= n,
                match best {
                    Some(u) => {
                        &&& (u as int) < n
                        &&& !done@[u as int]
                        &&& (dist@[u as int] is None ==> forall|j2: int|
                            0 <= j2 < j && !done@[j2] ==> dist@[j2] is None)
                        &&& (dist@[u as int] is Some ==> forall|j2: int|
                            0 <= j2 < j && !done@[j2] && dist@[j2] is Some
                                ==> dist@[u as int].unwrap() <= dist@[j2].unwrap())
                    },
                    None => forall|j2: int| 0 <= j2 < j ==> done@[j2],
                },
            decreases n - j,
        {
            if !done[j] {
                match best {
                    None => {
                        best = Some(j);
                    },
                    Some(bi) => {
                        let better = match (dist[j], dist[bi]) {
                            (Some(dj), Some(db)) => dj < db,
                            (Some(_), None) => true,
                            _ => false,
                        };
                        if better {
                            best = Some(j);
                        }
                    },
                }
            }
            j = j + 1;
        }
        best
    }

    /// The shortest path from the start value to the end value,
    /// found by finalizing nodes in order of known distance —
    /// ties broken toward the earliest-stored node, so the result
    /// is deterministic — and relaxing their edges; a missing
    /// weight costs zero, weights are non-negative by type, and
    /// sums saturate at the machine-word bound. The result walks
    /// existing edges from start to end without revisiting a node,
    /// its clipped total cost is minimal over all start-to-end
    /// paths, it is empty exactly when either endpoint is missing
    /// or the end is unreachable, and the path from a node to
    /// itself is that node alone.
    #[verifier::rlimit(100)]
    pub fn shortest_path(&self, start_value: u64, end_value: u64) -> (r: Vec<u64>)
        ensures
            !has_node(self@, start_value) || !has_node(self@, end_value) ==> r@ == Seq::<
                u64,
            >::empty(),
            has_node(self@, start_value) && has_node(self@, end_value) ==> {
                &&& (r@.len() >= 1 <==> reaches(self@, start_value, end_value))
                &&& (r@.len() >= 1 ==> is_path(self@, r@) && r@.first() == start_value && r@.last()
                    == end_value && r@.no_duplicates())
                &&& (r@.len() >= 1 ==> forall|p: Seq<u64>|
                    is_path(self@, p) && p.first() == start_value && p.last() == end_value
                        ==> path_cost(self@, r@) <= #[trigger] path_cost(self@, p))
                &&& (start_value == end_value ==> r@ == seq![start_value])
            },
    {
        proof {
            use_type_invariant(self);
        }
        let ghost g = self@;
        let start_idx = match self.find_node_index(start_value) {
            Some(i) => i,
            None => {
                return Vec::new();
            },
        };
        let end_idx = match self.find_node_index(end_value) {
            Some(i) => i,
            None => {
                return Vec::new();
            },
        };
        let n = self.nodes.len();
        let mut dist: Vec<Option<u64>> = Vec::new();
        let mut pred: Vec<Option<usize>> = Vec::new();
        let mut done: Vec<bool> = Vec::new();
        let mut i: usize = 0;
        while i < n
            invariant
                i <= n,
                dist@.len() == i && pred@.len() == i && done@.len() == i,
                forall|j: int| 0 <= j < i ==> dist@[j] is None,
                forall|j: int| 0 <= j < i ==> pred@[j] is None,
                forall|j: int| 0 <= j < i ==> !done@[j],
            decreases n - i,
        {
            dist.push(None);
            pred.push(None);
            done.push(false);
            i = i + 1;
        }
        dist[start_idx] = Some(0);
        let ghost mut depth: Seq<int> = Seq::new(n as nat, |i: int| 0);
        proof {
            lemma_reaches_self(g, start_value);
            assert(val_at(g, start_idx as int) == start_value);
            lemma_dij_init(g, start_idx as int, dist@, pred@, done@, depth);
        }
        loop
            invariant
                graph_wf(g),
                g == self@,
                n == g.len(),
                (start_idx as int) < n && val_at(g, start_idx as int) == start_value,
                (end_idx as int) < n && val_at(g, end_idx as int) == end_value,
                dist@.len() == n && pred@.len() == n && done@.len() == n && depth.len() == n,
                dij_ok(g, start_idx as int, dist@, pred@, done@, depth, None),
            ensures
                graph_wf(g),
                g == self@,
                n == g.len(),
                dist@.len() == n && pred@.len() == n && done@.len() == n && depth.len() == n,
                dij_ok(g, start_idx as int, dist@, pred@, done@, depth, None),
                forall|j: int| 0 <= j < n ==> #[trigger] done@[j],
            decreases done@.len() - count_true(done@),
        {
            let u = match Self::select_next(&dist, &done) {
                Some(u) => u,
                None => {
                    break ;
                },
            };
            let ghost done0 = done@;
            let du_opt = dist[u];
            done[u] = true;
            proof {
                lemma_count_true_update(done0, u as int);
                lemma_count_true_bound(done@);
                lemma_dij_mark(g, start_idx as int, dist@, pred@, done0, depth, u as int);
            }
            if let Some(du) = du_opt {
                let si = u;
                let m = self.nodes[si].edges.len();
                let mut k: usize = 0;
                while k < m
                    invariant
                        graph_wf(g),
                        g == self@,
                        n == g.len(),
                        (start_idx as int) < n,
                        (si as int) < n,
                        m == adj_at(g, si as int).len(),
                        k <= m,
                        dist@.len() == n && pred@.len() == n && done@.len() == n && depth.len()
                            == n,
                        done@[si as int],
                        dist@[si as int] == Some(du),
                        dij_ok(g, start_idx as int, dist@, pred@, done@, depth, Some(si as int)),
                        forall|j: int| 0 <= j < n && #[trigger] done@[j] ==> dist@[j] is Some,
                        forall|j: int|
                            0 <= j < n && #[trigger] done@[j] ==> dist@[j].unwrap() <= du,
                        forall|kk: int|
                            0 <= kk < k ==> {
                                let t = node_index(
                                    g,
                                    #[trigger] targets(adj_at(g, si as int))[kk],
                                );
                                &&& dist@[t] is Some
                                &&& dist@[t].unwrap() as nat <= clip_cost(
                                    du as nat + edge_cost(adj_at(g, si as int)[kk]),
                                )
                            },
                    decreases m - k,
                {
                    let e = self.nodes[si].edges[k];
                    let ghost dist_pre = dist@;
                    let di = match self.find_node_index(e.destination) {
                        Some(di) => di,
                        None => {
                            proof {
                                assert(targets(adj_at(g, si as int))[k as int] == e.destination);
                                assert(has_node(g, e.destination));
                                assert(false);
                            }
                            return Vec::new();
                        },
                    };
                    proof {
                        assert(targets(adj_at(g, si as int))[k as int] == e.destination);
                        assert(has_node(g, e.destination));
                        assert(node_index(g, e.destination) == di as int);
                    }
                    if !done[di] {
                        let wgt = match e.weight {
                            Some(x) => x,
                            None => 0,
                        };
                        let cand = if du > u64::MAX - wgt {
                            u64::MAX
                        } else {
                            du + wgt
                        };
                        let improves = match dist[di] {
                            None => true,
                            Some(dv) => cand < dv,
                        };
                        if improves {
                            proof {
                                assert(di as int != start_idx as int) by {
                                    reveal(dij_ok);
                                }
                                assert(has_edge(g, val_at(g, si as int), val_at(g, di as int))) by {
                                    lemma_index_of_value(g, si as int);
                                    assert(adjacency(g, val_at(g, si as int)) == adj_at(
                                        g,
                                        si as int,
                                    ));
                                    assert(targets(adjacency(g, val_at(g, si as int)))[k as int]
                                        == val_at(g, di as int));
                                }
                                assert(adj_at(g, si as int)[k as int] == e);
                                assert(cand as nat == clip_cost(
                                    du as nat + edge_cost(adj_at(g, si as int)[k as int]),
                                ));
                                lemma_dij_relax(
                                    g,
                                    start_idx as int,
                                    dist@,
                                    pred@,
                                    done@,
                                    depth,
                                    si,
                                    di,
                                    k as int,
                                    cand,
                                );
                                depth = depth.update(di as int, depth[si as int] + 1);
                            }
                            dist[di] = Some(cand);
                            pred[di] = Some(si);
                            proof {
                                assert(dist@[di as int] == Some(cand));
                                assert(dist@[di as int].unwrap() as nat <= clip_cost(
                                    du as nat + edge_cost(adj_at(g, si as int)[k as int]),
                                ));
                                assert(forall|j: int|
                                    0 <= j < n && j != di as int ==> dist@[j] == #[trigger] dist_pre[j]);
                                assert(dist_pre[di as int] is Some ==> dist@[di as int].unwrap()
                                    < dist_pre[di as int].unwrap());
                            }
                        } else {
                            proof {
                                assert(dist@[di as int] is Some);
                                assert(adj_at(g, si as int)[k as int] == e);
                                assert(dist@[di as int].unwrap() as nat <= clip_cost(
                                    du as nat + edge_cost(adj_at(g, si as int)[k as int]),
                                )) by {
                                    assert(cand as nat == clip_cost(
                                        du as nat + edge_cost(adj_at(g, si as int)[k as int]),
                                    ));
                                }
                            }
                        }
                    } else {
                        proof {
                            assert(adj_at(g, si as int)[k as int] == e);
                            assert(dist@[di as int] is Some);
                            assert(dist@[di as int].unwrap() as nat <= clip_cost(
                                du as nat + edge_cost(adj_at(g, si as int)[k as int]),
                            )) by {
                                assert(dist@[di as int].unwrap() <= du);
                            }
                        }
                    }
                    proof {
                        assert forall|kk: int|
                            0 <= kk < k + 1 implies {
                            let t = node_index(g, #[trigger] targets(adj_at(g, si as int))[kk]);
                            &&& dist@[t] is Some
                            &&& dist@[t].unwrap() as nat <= clip_cost(
                                du as nat + edge_cost(adj_at(g, si as int)[kk]),
                            )
                        } by {
                            if kk < k {
                                let tv = targets(adj_at(g, si as int))[kk];
                                assert(has_node(g, tv)) by {
                                    assert(done@[si as int]);
                                }
                                let t = node_index(g, tv);
                                assert(0 <= t < n && val_at(g, t) == tv);
                                assert(dist_pre[t] is Some && dist_pre[t].unwrap() as nat
                                    <= clip_cost(du as nat + edge_cost(adj_at(g, si as int)[kk])));
                                if dist@[t] == dist_pre[t] {
                                } else {
                                    assert(t == di as int);
                                    assert(dist@[t] is Some && dist@[t].unwrap()
                                        <= dist_pre[t].unwrap());
                                }
                            } else {
                                assert(node_index(g, targets(adj_at(g, si as int))[kk]) == di
                                    as int);
                            }
                        }
                    }
                    k = k + 1;
                }
                proof {
                    lemma_dij_assemble(
                        g,
                        start_idx as int,
                        dist@,
                        pred@,
                        done@,
                        depth,
                        si as int,
                    );
                }
            }
        }
        if dist[end_idx].is_none() {
            proof {
                assert(!reaches(g, start_value, end_value)) by {
                    if reaches(g, start_value, end_value) {
                        lemma_dij_complete(
                            g,
                            start_idx as int,
                            dist@,
                            pred@,
                            done@,
                            depth,
                            end_idx as int,
                        );
                    }
                }
            }
            return Vec::new();
        }
        let mut path: Vec<u64> = Vec::new();
        path.push(end_value);
        let mut cur: usize = end_idx;
        let ghost mut idxs: Seq<int> = seq![end_idx as int];
        proof {
            assert(path@ =~= seq![end_value]);
            assert(path_cost(g, path@) == 0);
            assert(clip_cost(dist@[cur as int].unwrap() as nat + path_cost(g, path@)) <= dist@[
                end_idx as int].unwrap() as nat);
        }
        while cur != start_idx
            invariant
                graph_wf(g),
                g == self@,
                n == g.len(),
                (start_idx as int) < n && val_at(g, start_idx as int) == start_value,
                (end_idx as int) < n && val_at(g, end_idx as int) == end_value,
                dist@.len() == n && pred@.len() == n && done@.len() == n && depth.len() == n,
                dij_ok(g, start_idx as int, dist@, pred@, done@, depth, None),
                (cur as int) < n,
                dist@[cur as int] is Some,
                idxs.len() == path@.len(),
                path@.len() >= 1,
                idxs[0] == cur as int,
                forall|j: int|
                    0 <= j < idxs.len() ==> 0 <= #[trigger] idxs[j] < n && path@[j] == val_at(
                        g,
                        idxs[j],
                    ),
                forall|a: int, b: int|
                    0 <= a < b < idxs.len() ==> depth[idxs[a]] < depth[idxs[b]],
                path@.last() == end_value,
                is_path(g, path@),
                dist@[end_idx as int] is Some,
                clip_cost(dist@[cur as int].unwrap() as nat + path_cost(g, path@)) <= dist@[end_idx
                    as int].unwrap() as nat,
            decreases depth[cur as int],
        {
            let p = match pred[cur] {
                Some(p) => p,
                None => {
                    proof {
                        lemma_dij_facts(
                            g,
                            start_idx as int,
                            dist@,
                            pred@,
                            done@,
                            depth,
                            cur as int,
                        );
                        assert(false);
                    }
                    return Vec::new();
                },
            };
            let ghost path0 = path@;
            let ghost idxs0 = idxs;
            proof {
                lemma_dij_facts(g, start_idx as int, dist@, pred@, done@, depth, cur as int);
                assert(pred_ok(g, dist@, pred@, done@, depth, cur as int));
                assert(0 <= (p as int) < n);
            }
            let pv = self.nodes[p].value;
            path.insert(0, pv);
            proof {
                lemma_dij_facts(g, start_idx as int, dist@, pred@, done@, depth, p as int);
                assert(depth[p as int] >= 0);
                assert(depth[p as int] < depth[cur as int]);
                assert(pv == val_at(g, p as int));
                idxs = seq![p as int] + idxs0;
                assert(path@ =~= seq![pv] + path0);
                assert(idxs[0] == p as int);
                assert forall|j: int|
                    0 <= j < idxs.len() implies 0 <= #[trigger] idxs[j] < n && path@[j] == val_at(
                    g,
                    idxs[j],
                ) by {
                    if j > 0 {
                        assert(idxs[j] == idxs0[j - 1]);
                        assert(path@[j] == path0[j - 1]);
                    }
                }
                assert forall|a: int, b: int|
                    0 <= a < b < idxs.len() implies depth[idxs[a]] < depth[idxs[b]] by {
                    if a > 0 {
                        assert(depth[idxs0[a - 1]] < depth[idxs0[b - 1]]);
                    } else {
                        assert(idxs[a] == p as int);
                        assert(depth[p as int] + 1 == depth[cur as int]);
                        if b == 1 {
                            assert(idxs[b] == cur as int);
                        } else {
                            assert(idxs[b] == idxs0[b - 1]);
                            assert(depth[idxs0[0]] < depth[idxs0[b - 1]]);
                        }
                    }
                }
                assert forall|j: int| 0 <= j < path@.len() - 1 implies has_edge(
                    g,
                    #[trigger] path@[j],
                    path@[j + 1],
                ) by {
                    if j == 0 {
                        assert(path@[0] == val_at(g, p as int));
                        assert(path@[1] == path0[0] && path0[0] == val_at(g, cur as int));
                        assert(has_edge(g, val_at(g, p as int), val_at(g, cur as int)));
                    } else {
                        assert(path@[j] == path0[j - 1] && path@[j + 1] == path0[j]);
                        assert(has_edge(g, path0[j - 1], path0[j]));
                    }
                }
                assert(has_node(g, path@[0])) by {
                    lemma_index_of_value(g, p as int);
                }
                assert(is_path(g, path@));
                assert(path0[0] == val_at(g, cur as int));
                lemma_path_cost_cons(g, pv, path0);
                assert(path_cost(g, path@) == clip_cost(
                    step_cost(g, pv, val_at(g, cur as int)) + path_cost(g, path0),
                ));
                lemma_recon_step(
                    dist@[p as int].unwrap() as nat,
                    dist@[cur as int].unwrap() as nat,
                    dist@[end_idx as int].unwrap() as nat,
                    step_cost(g, pv, val_at(g, cur as int)),
                    path_cost(g, path0),
                    path_cost(g, path@),
                );
            }
            cur = p;
        }
        proof {
            assert(path@[0] == val_at(g, start_idx as int));
            assert(path@.no_duplicates()) by {
                assert forall|a: int, b: int|
                    0 <= a < path@.len() && 0 <= b < path@.len() && a != b implies path@[a]
                    != path@[b] by {
                    let ia = idxs[a];
                    let ib = idxs[b];
                    if a < b {
                        assert(depth[ia] < depth[ib]);
                    } else {
                        assert(depth[ib] < depth[ia]);
                    }
                    assert(ia != ib);
                    if path@[a] == path@[b] {
                        assert(val_at(g, ia) == val_at(g, ib));
                        if ia < ib {
                            assert(val_at(g, ia) != val_at(g, ib));
                        } else {
                            assert(val_at(g, ib) != val_at(g, ia));
                        }
                    }
                }
            }
            assert(reaches(g, start_value, end_value)) by {
                assert(is_path(g, path@) && path@.first() == start_value && path@.last()
                    == end_value);
            }
            lemma_dij_facts(g, start_idx as int, dist@, pred@, done@, depth, end_idx as int);
            assert(dist@[start_idx as int] == Some(0u64));
            lemma_path_cost_le_max(g, path@);
            assert(path_cost(g, path@) <= dist@[end_idx as int].unwrap() as nat);
            assert forall|p: Seq<u64>|
                is_path(g, p) && p.first() == start_value && p.last() == end_value implies path_cost(
                g,
                path@,
            ) <= #[trigger] path_cost(g, p) by {
                assert(dist_lower_bound(g, start_idx as int, dist@, end_idx as int));
                assert(dist@[end_idx as int].unwrap() as nat <= path_cost(g, p));
            }
            if start_value == end_value {
                assert(path@.len() == 1) by {
                    if path@.len() >= 2 {
                        assert(path@[0] != path@[path@.len() - 1]);
                    }
                }
                assert(path@ =~= seq![start_value]);
            }
        }
        path
    }
}

} // verus!
