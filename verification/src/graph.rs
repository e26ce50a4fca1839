//! The graph scheduler: validates a decision graph (edges resolve, an entry
//! and an exit node exist, no cycle), computes a deterministic topological
//! evaluation order, and threads the data context through the nodes.

use vstd::prelude::*;
use vstd::seq_lib::group_seq_properties;
use vstd::set_lib::{set_int_range, lemma_int_range, lemma_len_subset, lemma_subset_equality};
use crate::value::{Value, Model};
use crate::table::{DecisionTable, EvalErrorKind, eval_table_spec, evaluate_table, idxs_view};

verus! {

/// What a node does when the scheduler reaches it.
#[derive(Debug)]
pub enum NodeKind {
    /// The entry: the seeded context passes through unchanged.
    Input,
    /// The exit: the accumulated context passes through unchanged.
    Output,
    /// A decision table evaluated against the context.
    Table(DecisionTable),
    /// A node that forwards the context unchanged.
    Passthrough,
}

/// One node of a decision graph.
#[derive(Debug)]
pub struct Node {
    pub id: String,
    pub name: String,
    pub kind: NodeKind,
}

/// One directed edge, a data-flow precedence between two node ids.
#[derive(Debug)]
pub struct Edge {
    pub id: String,
    pub source_id: String,
    pub target_id: String,
}

/// A decision graph: nodes and edges.
#[derive(Debug)]
pub struct Graph {
    pub nodes: Vec<Node>,
    pub edges: Vec<Edge>,
}

/// A structural error found while validating a graph. Indices point into
/// the graph's own `nodes` and `edges` vectors.
#[derive(Clone, Copy, Debug, PartialEq, Eq, Structural)]
pub enum GraphError {
    /// The edge relation admits no topological order; `node` is one node
    /// left unplaced.
    Cycle { node: usize },
    /// An edge names a node id the graph does not hold.
    DanglingEdge { edge: usize },
    /// No node is without incoming edges.
    NoInputNode,
    /// No node is without outgoing edges.
    NoOutputNode,
}

/// An error raised while evaluating one node.
#[derive(Clone, Copy, Debug, PartialEq, Eq, Structural)]
pub struct EvalError {
    /// Index of the node whose evaluation failed.
    pub node: usize,
    pub kind: EvalErrorKind,
}

/// The first node at or after `k` whose id reads `id`.
pub open spec fn node_index_from(nodes: Seq<Node>, id: Seq<char>, k: int) -> Option<int>
    decreases nodes.len() - k,
{
    if k < 0 || k >= nodes.len() {
        None
    } else if nodes[k].id@ == id {
        Some(k)
    } else {
        node_index_from(nodes, id, k + 1)
    }
}

/// Resolves the edges from `k` on into pairs of node indices; an endpoint
/// naming no node is a dangling edge.
pub open spec fn resolve_edges(nodes: Seq<Node>, edges: Seq<Edge>, k: int) -> Result<
    Seq<(int, int)>,
    GraphError,
>
    decreases edges.len() - k,
{
    if k < 0 || k >= edges.len() {
        Ok(Seq::empty())
    } else {
        match (
            node_index_from(nodes, edges[k].source_id@, 0),
            node_index_from(nodes, edges[k].target_id@, 0),
        ) {
            (Some(s), Some(t)) => match resolve_edges(nodes, edges, k + 1) {
                Ok(rest) => Ok(seq![(s, t)] + rest),
                Err(e) => Err(e),
            },
            _ => Err(GraphError::DanglingEdge { edge: k as usize }),
        }
    }
}

/// Every endpoint of every resolved pair is a node index.
pub open spec fn pairs_in_range(ep: Seq<(int, int)>, n: int) -> bool {
    forall|e: int|
        0 <= e < ep.len() ==> 0 <= (#[trigger] ep[e]).0 < n && 0 <= ep[e].1 < n
}

pub proof fn lemma_node_index_range(nodes: Seq<Node>, id: Seq<char>, k: int)
    ensures
        match node_index_from(nodes, id, k) {
            Some(i) => k <= i < nodes.len(),
            None => true,
        },
    decreases nodes.len() - k,
{
    if 0 <= k < nodes.len() && nodes[k].id@ != id {
        lemma_node_index_range(nodes, id, k + 1);
    }
}

/// Resolution only produces in-range pairs.
pub proof fn lemma_resolve_range(nodes: Seq<Node>, edges: Seq<Edge>, k: int)
    ensures
        match resolve_edges(nodes, edges, k) {
            Ok(ep) => pairs_in_range(ep, nodes.len() as int),
            Err(_) => true,
        },
    decreases edges.len() - k,
{
    if 0 <= k < edges.len() {
        lemma_resolve_range(nodes, edges, k + 1);
        lemma_node_index_range(nodes, edges[k].source_id@, 0);
        lemma_node_index_range(nodes, edges[k].target_id@, 0);
        match (
            node_index_from(nodes, edges[k].source_id@, 0),
            node_index_from(nodes, edges[k].target_id@, 0),
        ) {
            (Some(s), Some(t)) => {
                match resolve_edges(nodes, edges, k + 1) {
                    Ok(rest) => {
                        let ep = seq![(s, t)] + rest;
                        assert forall|e: int|
                            0 <= e < ep.len() implies 0 <= (#[trigger] ep[e]).0 < nodes.len()
                            && 0 <= ep[e].1 < nodes.len() by {
                            if e > 0 {
                                assert(ep[e] == rest[e - 1]);
                            }
                        }
                    },
                    Err(_) => {},
                }
            },
            _ => {},
        }
    }
}

/// Whether some resolved edge enters `x`.
pub open spec fn has_incoming(ep: Seq<(int, int)>, x: int) -> bool {
    exists|e: int| 0 <= e < ep.len() && (#[trigger] ep[e]).1 == x
}

/// Whether some resolved edge leaves `x`.
pub open spec fn has_outgoing(ep: Seq<(int, int)>, x: int) -> bool {
    exists|e: int| 0 <= e < ep.len() && (#[trigger] ep[e]).0 == x
}

/// A node is ready when the source of each of its incoming edges is placed.
pub open spec fn ready(ep: Seq<(int, int)>, placed: Seq<int>, x: int) -> bool {
    forall|e: int|
        0 <= e < ep.len() && (#[trigger] ep[e]).1 == x ==> placed.contains(ep[e].0)
}

/// The lowest-index unplaced ready node at or after `j`, if any. Scanning
/// from zero every round makes the order deterministic: ties in
/// topological rank fall to authored order.
pub open spec fn first_ready(ep: Seq<(int, int)>, placed: Seq<int>, n: int, j: int) -> Option<int>
    decreases n - j,
{
    if j < 0 || j >= n {
        None
    } else if !placed.contains(j) && ready(ep, placed, j) {
        Some(j)
    } else {
        first_ready(ep, placed, n, j + 1)
    }
}

/// The lowest-index unplaced node at or after `j`, or `n` when all are
/// placed.
pub open spec fn first_unplaced(placed: Seq<int>, n: int, j: int) -> int
    decreases n - j,
{
    if j < 0 || j >= n {
        n
    } else if !placed.contains(j) {
        j
    } else {
        first_unplaced(placed, n, j + 1)
    }
}

/// Repeatedly places the lowest-index ready node. When no node is ready
/// the graph has a cycle; the error carries one unplaced node.
pub open spec fn topo_rec(ep: Seq<(int, int)>, n: int, placed: Seq<int>) -> Result<Seq<int>, int>
    decreases n - placed.len(),
{
    if placed.len() >= n {
        Ok(placed)
    } else {
        match first_ready(ep, placed, n, 0) {
            Some(x) => topo_rec(ep, n, placed.push(x)),
            None => Err(first_unplaced(placed, n, 0)),
        }
    }
}

/// All entries of `order` are node indices.
pub open spec fn in_range(order: Seq<int>, n: int) -> bool {
    forall|i: int| 0 <= i < order.len() ==> 0 <= #[trigger] order[i] < n
}

/// Sources come before targets: whenever a target stands at position `k`,
/// its source stands somewhere among the first `k` entries.
pub open spec fn respects_edges(ep: Seq<(int, int)>, order: Seq<int>) -> bool {
    forall|e: int, k: int|
        0 <= e < ep.len() && 0 <= k < order.len() && (#[trigger] ep[e]).1 == #[trigger] order[k]
            ==> order.subrange(0, k).contains(ep[e].0)
}

/// A cycle certificate: a nonempty set of nodes each of which an edge
/// enters from within the set. A finite graph admits one exactly when it
/// has a directed cycle.
pub open spec fn cycle_certificate(ep: Seq<(int, int)>, s: Set<int>, n: int) -> bool {
    &&& forall|x: int| #[trigger] s.contains(x) ==> 0 <= x < n
    &&& forall|x: int|
        #[trigger] s.contains(x) ==> exists|e: int|
            0 <= e < ep.len() && (#[trigger] ep[e]).1 == x && s.contains(ep[e].0)
}

/// Whether the resolved edges admit a cycle certificate.
pub open spec fn has_cycle(ep: Seq<(int, int)>, n: int) -> bool {
    exists|s: Set<int>| #[trigger] cycle_certificate(ep, s, n) && exists|x: int| s.contains(x)
}

/// The invariant the placing loop maintains.
pub open spec fn topo_inv(ep: Seq<(int, int)>, n: int, placed: Seq<int>) -> bool {
    &&& placed.no_duplicates()
    &&& in_range(placed, n)
    &&& placed.len() <= n
    &&& respects_edges(ep, placed)
}

pub proof fn lemma_first_ready(ep: Seq<(int, int)>, placed: Seq<int>, n: int, j: int)
    requires
        0 <= j,
    ensures
        match first_ready(ep, placed, n, j) {
            Some(x) => j <= x < n && !placed.contains(x) && ready(ep, placed, x),
            None => forall|x: int|
                j <= x < n ==> #[trigger] placed.contains(x) || !ready(ep, placed, x),
        },
    decreases n - j,
{
    if 0 <= j < n && !(!placed.contains(j) && ready(ep, placed, j)) {
        lemma_first_ready(ep, placed, n, j + 1);
    } else if 0 <= j < n {
    }
}

pub proof fn lemma_first_unplaced(placed: Seq<int>, n: int, j: int)
    requires
        0 <= j,
        j <= n,
    ensures
        j <= first_unplaced(placed, n, j) <= n,
        first_unplaced(placed, n, j) < n ==> !placed.contains(first_unplaced(placed, n, j)),
        first_unplaced(placed, n, j) == n ==> forall|x: int|
            j <= x < n ==> #[trigger] placed.contains(x),
    decreases n - j,
{
    if 0 <= j < n && placed.contains(j) {
        lemma_first_unplaced(placed, n, j + 1);
    }
}

/// One placing step keeps the invariant.
pub proof fn lemma_topo_inv_step(ep: Seq<(int, int)>, n: int, placed: Seq<int>, x: int)
    requires
        topo_inv(ep, n, placed),
        placed.len() < n,
        0 <= x < n,
        !placed.contains(x),
        ready(ep, placed, x),
    ensures
        topo_inv(ep, n, placed.push(x)),
{
    broadcast use group_seq_properties;

    let np = placed.push(x);
    assert(np.no_duplicates()) by {
        assert forall|i: int, j: int|
            0 <= i < np.len() && 0 <= j < np.len() && i != j implies np[i] != np[j] by {
            if i < placed.len() && j < placed.len() {
            } else if i == placed.len() {
                assert(np[j] == placed[j]);
                assert(placed.contains(placed[j]));
            } else if j == placed.len() {
                assert(np[i] == placed[i]);
                assert(placed.contains(placed[i]));
            }
        }
    }
    assert(respects_edges(ep, np)) by {
        assert forall|e: int, k: int|
            0 <= e < ep.len() && 0 <= k < np.len() && (#[trigger] ep[e]).1 == #[trigger] np[k]
            implies np.subrange(0, k).contains(ep[e].0) by {
            if k < placed.len() {
                assert(np[k] == placed[k]);
                assert(placed.subrange(0, k).contains(ep[e].0));
                assert(np.subrange(0, k) =~= placed.subrange(0, k));
            } else {
                assert(np[k] == x);
                assert(placed.contains(ep[e].0));
                assert(np.subrange(0, k) =~= placed);
            }
        }
    }
}

/// A complete order with no duplicates holds every node index.
pub proof fn lemma_full_range(order: Seq<int>, n: int)
    requires
        0 <= n,
        order.no_duplicates(),
        in_range(order, n),
        order.len() == n,
    ensures
        forall|x: int| 0 <= x < n ==> #[trigger] order.contains(x),
{
    broadcast use group_seq_properties;
    broadcast use vstd::seq_lib::seq_to_set_is_finite;

    let os = order.to_set();
    order.unique_seq_to_set();
    let rng = set_int_range(0, n);
    lemma_int_range(0, n);
    assert(os.subset_of(rng)) by {
        assert forall|x: int| os.contains(x) implies rng.contains(x) by {
            assert(order.contains(x));
            let i = choose|i: int| 0 <= i < order.len() && order[i] == x;
            assert(0 <= order[i] < n);
        }
    }
    lemma_subset_equality(os, rng);
    assert forall|x: int| 0 <= x < n implies #[trigger] order.contains(x) by {
        assert(rng.contains(x));
        assert(os.contains(x));
    }
}

/// A stuck placing loop certifies a cycle: the unplaced nodes each have an
/// incoming edge from an unplaced node.
proof fn lemma_topo_stuck(ep: Seq<(int, int)>, n: int, placed: Seq<int>)
    requires
        topo_inv(ep, n, placed),
        pairs_in_range(ep, n),
        placed.len() < n,
        first_ready(ep, placed, n, 0) is None,
    ensures
        has_cycle(ep, n),
{
    broadcast use group_seq_properties;

    lemma_first_ready(ep, placed, n, 0);
    let s = Set::new(|x: int| 0 <= x < n && !placed.contains(x));
    lemma_first_unplaced(placed, n, 0);
    let w = first_unplaced(placed, n, 0);
    if w == n {
        // every node is placed, yet placed.len() < n: impossible
        let os = placed.to_set();
        placed.unique_seq_to_set();
        broadcast use vstd::seq_lib::seq_to_set_is_finite;

        let rng = set_int_range(0, n);
        lemma_int_range(0, n);
        assert(rng.subset_of(os)) by {
            assert forall|x: int| rng.contains(x) implies os.contains(x) by {
                assert(placed.contains(x));
            }
        }
        lemma_len_subset(rng, os);
        assert(false);
    } else {
        assert(s.contains(w));
        assert forall|x: int| #[trigger] s.contains(x) implies exists|e: int|
            0 <= e < ep.len() && (#[trigger] ep[e]).1 == x && s.contains(ep[e].0) by {
            assert(!placed.contains(x) && 0 <= x < n);
            assert(!ready(ep, placed, x));
            let e = choose|e: int|
                0 <= e < ep.len() && (#[trigger] ep[e]).1 == x && !placed.contains(
                    ep[e].0,
                );
            assert(0 <= ep[e].0 < n);
            assert(s.contains(ep[e].0));
        }
        assert(cycle_certificate(ep, s, n));
    }
}

/// What the placing loop yields: on success a complete, duplicate-free,
/// edge-respecting order; on failure a cycle certificate.
pub proof fn lemma_topo_props(ep: Seq<(int, int)>, n: int, placed: Seq<int>)
    requires
        topo_inv(ep, n, placed),
        pairs_in_range(ep, n),
    ensures
        match topo_rec(ep, n, placed) {
            Ok(order) => {
                &&& order.len() == n
                &&& order.no_duplicates()
                &&& in_range(order, n)
                &&& respects_edges(ep, order)
                &&& forall|x: int| 0 <= x < n ==> #[trigger] order.contains(x)
            },
            Err(_) => has_cycle(ep, n),
        },
    decreases n - placed.len(),
{
    if placed.len() >= n {
        lemma_full_range(placed, n);
    } else {
        lemma_first_ready(ep, placed, n, 0);
        match first_ready(ep, placed, n, 0) {
            Some(x) => {
                lemma_topo_inv_step(ep, n, placed, x);
                lemma_topo_props(ep, n, placed.push(x));
            },
            None => {
                lemma_topo_stuck(ep, n, placed);
            },
        }
    }
}

/// The first position of `order` holding a member of `s`.
pub open spec fn first_hit(order: Seq<int>, s: Set<int>) -> int
    decreases order.len(),
{
    if order.len() == 0 {
        0
    } else if s.contains(order[0]) {
        0
    } else {
        1 + first_hit(order.drop_first(), s)
    }
}

pub proof fn lemma_first_hit(order: Seq<int>, s: Set<int>, x: int)
    requires
        s.contains(x),
        order.contains(x),
    ensures
        0 <= first_hit(order, s) < order.len(),
        s.contains(order[first_hit(order, s)]),
        forall|j: int| 0 <= j < first_hit(order, s) ==> !s.contains(#[trigger] order[j]),
    decreases order.len(),
{
    if order.len() > 0 && !s.contains(order[0]) {
        assert(order[0] != x);
        assert(forall|j: int|
            0 <= j < order.len() - 1 ==> order.drop_first()[j] == order[j + 1]);
        let i = choose|i: int| 0 <= i < order.len() && order[i] == x;
        assert(order.drop_first()[i - 1] == x);
        assert(order.drop_first().contains(x));
        lemma_first_hit(order.drop_first(), s, x);
        let fh1 = first_hit(order.drop_first(), s);
        assert(first_hit(order, s) == 1 + fh1);
        assert(order[1 + fh1] == order.drop_first()[fh1]);
        assert(s.contains(order[first_hit(order, s)]));
        assert forall|j: int| 0 <= j < first_hit(order, s) implies !s.contains(
            #[trigger] order[j],
        ) by {
            if j > 0 {
                assert(order[j] == order.drop_first()[j - 1]);
                assert(!s.contains(order.drop_first()[j - 1]));
            }
        }
    }
}

/// An edge-respecting complete order rules out every cycle certificate.
pub proof fn lemma_order_excludes_cycle(ep: Seq<(int, int)>, n: int, order: Seq<int>)
    requires
        order.len() == n,
        in_range(order, n),
        respects_edges(ep, order),
        forall|x: int| 0 <= x < n ==> #[trigger] order.contains(x),
    ensures
        !has_cycle(ep, n),
{
    if has_cycle(ep, n) {
        let s = choose|s: Set<int>|
            #[trigger] cycle_certificate(ep, s, n) && exists|x: int| s.contains(x);
        let x0 = choose|x: int| s.contains(x);
        assert(0 <= x0 < n);
        assert(order.contains(x0));
        lemma_first_hit(order, s, x0);
        let k0 = first_hit(order, s);
        let xm = order[k0];
        assert(s.contains(xm));
        let e = choose|e: int|
            0 <= e < ep.len() && (#[trigger] ep[e]).1 == xm && s.contains(ep[e].0);
        assert(order.subrange(0, k0).contains(ep[e].0));
        let j = choose|j: int| 0 <= j < k0 && order.subrange(0, k0)[j] == ep[e].0;
        assert(order[j] == ep[e].0);
        assert(!s.contains(order[j]));
        assert(false);
    }
}

/// Validates the graph and computes the evaluation order: dangling edges,
/// then a missing entry or exit node, then cycles.
pub open spec fn schedule_spec(g: Graph) -> Result<Seq<int>, GraphError> {
    match resolve_edges(g.nodes@, g.edges@, 0) {
        Err(e) => Err(e),
        Ok(ep) => {
            let n = g.nodes.len() as int;
            if !(exists|x: int| 0 <= x < n && !has_incoming(ep, x)) {
                Err(GraphError::NoInputNode)
            } else if !(exists|x: int| 0 <= x < n && !has_outgoing(ep, x)) {
                Err(GraphError::NoOutputNode)
            } else {
                match topo_rec(ep, n, Seq::empty()) {
                    Ok(order) => Ok(order),
                    Err(x) => Err(GraphError::Cycle { node: x as usize }),
                }
            }
        },
    }
}

/// Walks the order from position `k` on: a decision-table node folds its
/// result into the context; input, output and pass-through nodes forward
/// it unchanged. A node error is wrapped with the node's index at once.
pub open spec fn exec_nodes_spec(nodes: Seq<Node>, order: Seq<int>, k: int, ctx: Model) -> Result<
    Model,
    EvalError,
>
    decreases order.len() - k,
{
    if k < 0 || k >= order.len() {
        Ok(ctx)
    } else {
        let ni = order[k];
        match nodes[ni].kind {
            NodeKind::Table(t) => match eval_table_spec(t, ctx) {
                Ok(nc) => exec_nodes_spec(nodes, order, k + 1, nc),
                Err(e) => Err(EvalError { node: ni as usize, kind: e }),
            },
            _ => exec_nodes_spec(nodes, order, k + 1, ctx),
        }
    }
}

/// Looks up the first node at or after `k` with the id `id`.
fn node_index_x(nodes: &Vec<Node>, id: &String, k: usize) -> (res: Option<usize>)
    requires
        k <= nodes.len(),
    ensures
        match res {
            Some(i) => node_index_from(nodes@, id@, k as int) == Some(i as int) && i
                < nodes.len(),
            None => node_index_from(nodes@, id@, k as int) is None,
        },
    decreases nodes.len() - k,
{
    if k == nodes.len() {
        return None;
    }
    if nodes[k].id == *id {
        Some(k)
    } else {
        node_index_x(nodes, id, k + 1)
    }
}

/// Pointwise `int` view of resolved index pairs.
pub open spec fn pairs_view(v: Seq<(usize, usize)>) -> Seq<(int, int)> {
    v.map_values(|p: (usize, usize)| (p.0 as int, p.1 as int))
}

/// Resolves the edges from `k` on, as [`resolve_edges`] describes.
fn resolve_edges_x(nodes: &Vec<Node>, edges: &Vec<Edge>, k: usize) -> (res: Result<
    Vec<(usize, usize)>,
    GraphError,
>)
    requires
        k <= edges.len(),
    ensures
        match res {
            Ok(v) => resolve_edges(nodes@, edges@, k as int) == Ok::<_, GraphError>(
                pairs_view(v@),
            ),
            Err(e) => resolve_edges(nodes@, edges@, k as int) == Err::<Seq<(int, int)>, _>(e),
        },
    decreases edges.len() - k,
{
    if k == edges.len() {
        let v: Vec<(usize, usize)> = Vec::new();
        proof {
            assert(pairs_view(v@) =~= Seq::<(int, int)>::empty());
        }
        return Ok(v);
    }
    let src = node_index_x(nodes, &edges[k].source_id, 0);
    let tgt = node_index_x(nodes, &edges[k].target_id, 0);
    match (src, tgt) {
        (Some(s), Some(t)) => match resolve_edges_x(nodes, edges, k + 1) {
            Ok(mut rest) => {
                let ghost r0 = rest@;
                rest.insert(0, (s, t));
                proof {
                    assert(pairs_view(rest@) =~= seq![(s as int, t as int)] + pairs_view(r0));
                }
                Ok(rest)
            },
            Err(e) => Err(e),
        },
        _ => Err(GraphError::DanglingEdge { edge: k }),
    }
}

/// Whether `order` holds `x`.
fn contains_x(order: &Vec<usize>, x: usize) -> (res: bool)
    ensures
        res == idxs_view(order@).contains(x as int),
{
    let mut i: usize = 0;
    while i < order.len()
        invariant
            i <= order.len(),
            forall|j: int| 0 <= j < i ==> order@[j] != x,
        decreases order.len() - i,
    {
        if order[i] == x {
            proof {
                assert(idxs_view(order@)[i as int] == x as int);
            }
            return true;
        }
        i += 1;
    }
    proof {
        assert forall|j: int| 0 <= j < idxs_view(order@).len() implies idxs_view(order@)[j]
            != x as int by {
            assert(idxs_view(order@)[j] == order@[j] as int);
        }
    }
    false
}

/// Whether node `x` is ready, as [`ready`] describes.
fn ready_x(ep: &Vec<(usize, usize)>, placed: &Vec<usize>, x: usize) -> (res: bool)
    ensures
        res == ready(pairs_view(ep@), idxs_view(placed@), x as int),
{
    let ghost epv = pairs_view(ep@);
    let mut e: usize = 0;
    while e < ep.len()
        invariant
            e <= ep.len(),
            epv == pairs_view(ep@),
            forall|i: int|
                0 <= i < e && (#[trigger] epv[i]).1 == x as int ==> idxs_view(
                    placed@,
                ).contains(epv[i].0),
        decreases ep.len() - e,
    {
        proof {
            assert(epv[e as int] == (ep@[e as int].0 as int, ep@[e as int].1 as int));
        }
        if ep[e].1 == x {
            if !contains_x(placed, ep[e].0) {
                proof {
                    assert(epv[e as int].1 == x as int && !idxs_view(placed@).contains(
                        epv[e as int].0,
                    ));
                }
                return false;
            }
        }
        e += 1;
    }
    proof {
        assert forall|i: int|
            0 <= i < epv.len() && (#[trigger] epv[i]).1 == x as int implies idxs_view(
            placed@,
        ).contains(epv[i].0) by {}
    }
    true
}

/// Finds the lowest-index unplaced ready node at or after `j`, as
/// [`first_ready`] describes.
fn first_ready_x(ep: &Vec<(usize, usize)>, placed: &Vec<usize>, n: usize, j: usize) -> (res:
    Option<usize>)
    requires
        j <= n,
    ensures
        match res {
            Some(x) => first_ready(pairs_view(ep@), idxs_view(placed@), n as int, j as int)
                == Some(x as int) && x < n,
            None => first_ready(pairs_view(ep@), idxs_view(placed@), n as int, j as int) is None,
        },
    decreases n - j,
{
    if j == n {
        return None;
    }
    if !contains_x(placed, j) && ready_x(ep, placed, j) {
        Some(j)
    } else {
        first_ready_x(ep, placed, n, j + 1)
    }
}

/// Finds the lowest-index unplaced node at or after `j`, as
/// [`first_unplaced`] describes.
fn first_unplaced_x(placed: &Vec<usize>, n: usize, j: usize) -> (res: usize)
    requires
        j <= n,
    ensures
        res as int == first_unplaced(idxs_view(placed@), n as int, j as int),
    decreases n - j,
{
    if j == n {
        return n;
    }
    if !contains_x(placed, j) {
        j
    } else {
        first_unplaced_x(placed, n, j + 1)
    }
}

/// Runs the placing loop, as [`topo_rec`] describes.
fn topo_x(ep: &Vec<(usize, usize)>, n: usize) -> (res: Result<Vec<usize>, usize>)
    ensures
        match res {
            Ok(v) => topo_rec(pairs_view(ep@), n as int, Seq::empty()) == Ok::<_, int>(
                idxs_view(v@),
            ) && forall|i: int| 0 <= i < v@.len() ==> (#[trigger] v@[i]) < n,
            Err(x) => topo_rec(pairs_view(ep@), n as int, Seq::empty()) == Err::<Seq<int>, _>(
                x as int,
            ),
        },
{
    let ghost epv = pairs_view(ep@);
    let mut placed: Vec<usize> = Vec::new();
    proof {
        assert(idxs_view(placed@) =~= Seq::<int>::empty());
    }
    while placed.len() < n
        invariant
            placed.len() <= n,
            epv == pairs_view(ep@),
            topo_rec(epv, n as int, idxs_view(placed@)) == topo_rec(
                epv,
                n as int,
                Seq::empty(),
            ),
            forall|i: int| 0 <= i < placed@.len() ==> (#[trigger] placed@[i]) < n,
        decreases n - placed.len(),
    {
        match first_ready_x(ep, &placed, n, 0) {
            Some(x) => {
                let ghost p0 = idxs_view(placed@);
                placed.push(x);
                proof {
                    assert(idxs_view(placed@) =~= p0.push(x as int));
                }
            },
            None => {
                let w = first_unplaced_x(&placed, n, 0);
                return Err(w);
            },
        }
    }
    Ok(placed)
}

/// Whether some node in `[0, n)` has no incoming (or outgoing) edge.
fn find_free_node(ep: &Vec<(usize, usize)>, n: usize, incoming: bool) -> (res: bool)
    ensures
        incoming ==> res == (exists|x: int|
            0 <= x < n && !has_incoming(pairs_view(ep@), x)),
        !incoming ==> res == (exists|x: int|
            0 <= x < n && !has_outgoing(pairs_view(ep@), x)),
{
    let ghost epv = pairs_view(ep@);
    let mut x: usize = 0;
    while x < n
        invariant
            x <= n,
            epv == pairs_view(ep@),
            incoming ==> forall|y: int| 0 <= y < x ==> has_incoming(epv, y),
            !incoming ==> forall|y: int| 0 <= y < x ==> has_outgoing(epv, y),
        decreases n - x,
    {
        let mut hit = false;
        let mut e: usize = 0;
        while e < ep.len()
            invariant
                e <= ep.len(),
                epv == pairs_view(ep@),
                x < n,
                hit && incoming ==> has_incoming(epv, x as int),
                hit && !incoming ==> has_outgoing(epv, x as int),
                !hit && incoming ==> forall|i: int|
                    0 <= i < e ==> (#[trigger] epv[i]).1 != x as int,
                !hit && !incoming ==> forall|i: int|
                    0 <= i < e ==> (#[trigger] epv[i]).0 != x as int,
            decreases ep.len() - e,
        {
            proof {
                assert(epv[e as int] == (ep@[e as int].0 as int, ep@[e as int].1 as int));
            }
            if incoming {
                if ep[e].1 == x {
                    hit = true;
                }
            } else {
                if ep[e].0 == x {
                    hit = true;
                }
            }
            e += 1;
        }
        if !hit {
            proof {
                if incoming {
                    assert(!has_incoming(epv, x as int));
                } else {
                    assert(!has_outgoing(epv, x as int));
                }
                assert(0 <= (x as int) && (x as int) < (n as int));
            }
            return true;
        }
        x += 1;
    }
    false
}

/// Validates the graph and computes the evaluation order, as
/// [`schedule_spec`] describes.
pub fn schedule(g: &Graph) -> (res: Result<Vec<usize>, GraphError>)
    ensures
        match res {
            Ok(v) => {
                &&& schedule_spec(*g) == Ok::<_, GraphError>(idxs_view(v@))
                &&& forall|i: int| 0 <= i < v@.len() ==> (#[trigger] v@[i]) < g.nodes.len()
            },
            Err(e) => schedule_spec(*g) == Err::<Seq<int>, _>(e),
        },
{
    match resolve_edges_x(&g.nodes, &g.edges, 0) {
        Err(e) => Err(e),
        Ok(ep) => {
            let n = g.nodes.len();
            if !find_free_node(&ep, n, true) {
                return Err(GraphError::NoInputNode);
            }
            if !find_free_node(&ep, n, false) {
                return Err(GraphError::NoOutputNode);
            }
            match topo_x(&ep, n) {
                Ok(order) => Ok(order),
                Err(x) => Err(GraphError::Cycle { node: x }),
            }
        },
    }
}

/// Walks the order from position `k` on, as [`exec_nodes_spec`] describes.
pub fn execute_order(nodes: &Vec<Node>, order: &Vec<usize>, k: usize, ctx: Value) -> (res: Result<
    Value,
    EvalError,
>)
    requires
        k <= order.len(),
        forall|i: int| 0 <= i < order@.len() ==> (#[trigger] order@[i]) < nodes.len(),
    ensures
        match res {
            Ok(v) => exec_nodes_spec(nodes@, idxs_view(order@), k as int, ctx@) == Ok::<
                _,
                EvalError,
            >(v@),
            Err(e) => exec_nodes_spec(nodes@, idxs_view(order@), k as int, ctx@) == Err::<
                Model,
                _,
            >(e),
        },
    decreases order.len() - k,
{
    if k == order.len() {
        return Ok(ctx);
    }
    let ni = order[k];
    match &nodes[ni].kind {
        NodeKind::Table(t) => match evaluate_table(t, ctx) {
            Ok(nc) => execute_order(nodes, order, k + 1, nc),
            Err(e) => Err(EvalError { node: ni, kind: e }),
        },
        _ => execute_order(nodes, order, k + 1, ctx),
    }
}

} // verus!
