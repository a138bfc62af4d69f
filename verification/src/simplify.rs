//! Pruning and merging: what is left of a graph once the systems that are
//! not to be shown are gone, and once no edge is held twice.

use vstd::prelude::*;
use crate::graph::{Edge, EdgeKind, Graph, Node, NodeKind, ancestor, edges_wf, lemma_ancestor_below, lemma_ancestor_trans, node_wf, nodes_wf, visible_closed};
use crate::seqs::gather;

verus! {

/// The set `a` holds the system `j`, and `j` is shown.
pub open spec fn keeps(nodes: Seq<Node>, visible: Seq<bool>, a: int, j: int) -> bool {
    nodes[j].kind == NodeKind::System && visible[j] && ancestor(nodes, a, j)
}

/// The set `a` holds a shown system among the first `n` nodes.
pub open spec fn keeps_below(nodes: Seq<Node>, visible: Seq<bool>, a: int, n: int) -> bool {
    exists|j: int| 0 <= j < n && #[trigger] keeps(nodes, visible, a, j)
}

/// Edge `k` joins the resource `r` to a shown system.
pub open spec fn touches(nodes: Seq<Node>, visible: Seq<bool>, edges: Seq<Edge>, r: int, k: int) -> bool {
    let e = edges[k];
    ||| (e.to == r && nodes[e.from as int].kind == NodeKind::System && visible[e.from as int])
    ||| (e.from == r && nodes[e.to as int].kind == NodeKind::System && visible[e.to as int])
}

/// One of the first `n` edges joins the resource `r` to a shown system.
pub open spec fn touched_below(
    nodes: Seq<Node>,
    visible: Seq<bool>,
    edges: Seq<Edge>,
    r: int,
    n: int,
) -> bool {
    exists|k: int| 0 <= k < n && #[trigger] touches(nodes, visible, edges, r, k)
}

/// Whether node `i` is still drawn after pruning: a system that was shown; a
/// set that was shown and holds, at any depth, a shown system; a resource
/// that was shown and that a shown system touches.
pub open spec fn survives(nodes: Seq<Node>, visible: Seq<bool>, edges: Seq<Edge>, i: int) -> bool {
    visible[i] && match nodes[i].kind {
        NodeKind::System => true,
        NodeKind::SystemSet => keeps_below(nodes, visible, i, nodes.len() as int),
        NodeKind::Resource => touched_below(nodes, visible, edges, i, edges.len() as int),
    }
}

/// The visibility of every node after pruning.
pub open spec fn pruned_visible(nodes: Seq<Node>, visible: Seq<bool>, edges: Seq<Edge>) -> Seq<bool> {
    Seq::new(nodes.len(), |i: int| survives(nodes, visible, edges, i))
}

/// Edge `k`, if both its ends are drawn.
pub open spec fn shown_edge_at(shown: Seq<bool>, edges: Seq<Edge>, k: int) -> Option<Edge> {
    if shown[edges[k].from as int] && shown[edges[k].to as int] {
        Some(edges[k])
    } else {
        None
    }
}

/// `shown_edge_at` as a selection.
pub open spec fn shown_edge_fn(shown: Seq<bool>, edges: Seq<Edge>) -> spec_fn(int) -> Option<Edge> {
    |k: int| shown_edge_at(shown, edges, k)
}

/// Those of the first `n` edges whose ends are both drawn.
pub open spec fn shown_edges_upto(shown: Seq<bool>, edges: Seq<Edge>, n: nat) -> Seq<Edge> {
    gather(n, shown_edge_fn(shown, edges))
}

/// The edges after pruning: those whose ends both survive.
pub open spec fn pruned_edges(nodes: Seq<Node>, visible: Seq<bool>, edges: Seq<Edge>) -> Seq<Edge> {
    shown_edges_upto(pruned_visible(nodes, visible, edges), edges, edges.len())
}

/// Every edge joins two drawn nodes.
pub open spec fn edges_shown(shown: Seq<bool>, edges: Seq<Edge>) -> bool {
    forall|k: int|
        0 <= k < edges.len() ==> shown[(#[trigger] edges[k]).from as int] && shown[edges[k].to as int]
}

/// Marks every set above the shown system `i` in `kept`.
#[verifier::loop_isolation(false)]
fn mark_above(nodes: &Vec<Node>, visible: &Vec<bool>, kept: &mut Vec<bool>, i: usize)
    requires
        nodes_wf(nodes@),
        i < nodes.len(),
        old(kept)@.len() == nodes@.len(),
        visible@.len() == nodes@.len(),
        nodes@[i as int].kind == NodeKind::System,
        visible@[i as int],
        forall|s: int|
            0 <= s < nodes.len() ==> (#[trigger] old(kept)@[s] == match nodes@[s].kind {
                NodeKind::System => visible@[s],
                NodeKind::SystemSet => keeps_below(nodes@, visible@, s, i as int),
                NodeKind::Resource => false,
            }),
    ensures
        final(kept)@.len() == nodes@.len(),
        forall|s: int|
            0 <= s < nodes.len() ==> (#[trigger] final(kept)@[s] == match nodes@[s].kind {
                NodeKind::System => visible@[s],
                NodeKind::SystemSet => keeps_below(nodes@, visible@, s, i + 1),
                NodeKind::Resource => false,
            }),
{
    let mut cur = i;
    loop
        invariant
            cur < nodes.len(),
            kept@.len() == nodes@.len(),
            cur == i || ancestor(nodes@, cur as int, i as int),
            forall|s: int|
                0 <= s < nodes.len() ==> (#[trigger] kept@[s] == match nodes@[s].kind {
                    NodeKind::System => visible@[s],
                    NodeKind::SystemSet => keeps_below(nodes@, visible@, s, i as int) || (ancestor(
                        nodes@,
                        s,
                        i as int,
                    ) && !ancestor(nodes@, s, cur as int)),
                    NodeKind::Resource => false,
                }),
        decreases nodes@[cur as int].level,
    {
        assert(node_wf(nodes@, cur as int));
        match nodes[cur].container {
            None => {
                proof {
                    assert forall|s: int| 0 <= s < nodes.len() implies (#[trigger] kept@[s]
                        == match nodes@[s].kind {
                        NodeKind::System => visible@[s],
                        NodeKind::SystemSet => keeps_below(nodes@, visible@, s, i + 1),
                        NodeKind::Resource => false,
                    }) by {
                        if nodes@[s].kind == NodeKind::SystemSet {
                            assert(!ancestor(nodes@, s, cur as int));
                            if keeps_below(nodes@, visible@, s, i + 1) {
                                let j = choose|j: int|
                                    0 <= j < i + 1 && #[trigger] keeps(nodes@, visible@, s, j);
                                if j < i {
                                    assert(keeps_below(nodes@, visible@, s, i as int));
                                }
                            }
                            if ancestor(nodes@, s, i as int) {
                                assert(keeps(nodes@, visible@, s, i as int));
                            }
                            if keeps_below(nodes@, visible@, s, i as int) {
                                let j = choose|j: int|
                                    0 <= j < i && #[trigger] keeps(nodes@, visible@, s, j);
                                assert(keeps(nodes@, visible@, s, j));
                            }
                        }
                    }
                }
                return ;
            },
            Some(c) => {
                proof {
                    assert(ancestor(nodes@, c as int, cur as int));
                    if cur != i {
                        lemma_ancestor_trans(nodes@, c as int, cur as int, i as int);
                    }
                    lemma_ancestor_below(nodes@, c as int, cur as int);
                    if ancestor(nodes@, c as int, c as int) {
                        lemma_ancestor_below(nodes@, c as int, c as int);
                    }
                    assert forall|s: int| 0 <= s < nodes.len() implies (ancestor(
                        nodes@,
                        s,
                        cur as int,
                    ) == (s == c || ancestor(nodes@, s, c as int))) by {}
                }
                kept.set(c, true);
                cur = c;
            },
        }
    }
}

/// Marks every resource that one of the edges joins to a shown system.
#[verifier::loop_isolation(false)]
fn mark_touched(nodes: &Vec<Node>, visible: &Vec<bool>, edges: &Vec<Edge>, kept: &mut Vec<bool>)
    requires
        edges_wf(nodes@.len(), edges@),
        old(kept)@.len() == nodes@.len(),
        visible@.len() == nodes@.len(),
        forall|s: int|
            0 <= s < nodes.len() && nodes@[s].kind == NodeKind::Resource ==> !(#[trigger] old(
                kept,
            )@[s]),
    ensures
        final(kept)@.len() == nodes@.len(),
        forall|s: int|
            0 <= s < nodes.len() ==> (#[trigger] final(kept)@[s] == if nodes@[s].kind
                == NodeKind::Resource {
                touched_below(nodes@, visible@, edges@, s, edges@.len() as int)
            } else {
                old(kept)@[s]
            }),
{
    let mut k: usize = 0;
    while k < edges.len()
        invariant
            k <= edges.len(),
            kept@.len() == nodes@.len(),
            forall|s: int|
                0 <= s < nodes.len() ==> (#[trigger] kept@[s] == if nodes@[s].kind
                    == NodeKind::Resource {
                    touched_below(nodes@, visible@, edges@, s, k as int)
                } else {
                    old(kept)@[s]
                }),
        decreases edges.len() - k,
    {
        let e = edges[k];
        let ghost before = kept@;
        let a = nodes[e.to].kind == NodeKind::Resource && nodes[e.from].kind == NodeKind::System
            && visible[e.from];
        let b = nodes[e.from].kind == NodeKind::Resource && nodes[e.to].kind == NodeKind::System
            && visible[e.to];
        if a {
            kept.set(e.to, true);
        }
        if b {
            kept.set(e.from, true);
        }
        proof {
            assert forall|s: int| 0 <= s < nodes.len() implies (#[trigger] kept@[s]
                == if nodes@[s].kind == NodeKind::Resource {
                touched_below(nodes@, visible@, edges@, s, k + 1)
            } else {
                old(kept)@[s]
            }) by {
                if nodes@[s].kind == NodeKind::Resource {
                    let now = touches(nodes@, visible@, edges@, s, k as int);
                    assert(now == ((a && s == e.to) || (b && s == e.from)));
                    if touched_below(nodes@, visible@, edges@, s, k + 1) {
                        let j = choose|j: int|
                            0 <= j < k + 1 && #[trigger] touches(nodes@, visible@, edges@, s, j);
                        if j < k {
                            assert(touched_below(nodes@, visible@, edges@, s, k as int));
                        }
                    }
                    if touched_below(nodes@, visible@, edges@, s, k as int) {
                        let j = choose|j: int|
                            0 <= j < k && #[trigger] touches(nodes@, visible@, edges@, s, j);
                        assert(touches(nodes@, visible@, edges@, s, j));
                    }
                }
            }
        }
        k += 1;
    }
}

/// Those of `edges` whose ends are both drawn, in their order.
#[verifier::loop_isolation(false)]
pub fn shown_edges(shown: &Vec<bool>, edges: &Vec<Edge>) -> (r: Vec<Edge>)
    requires
        edges_wf(shown@.len(), edges@),
    ensures
        r@ == shown_edges_upto(shown@, edges@, edges@.len()),
        edges_wf(shown@.len(), r@),
        edges_shown(shown@, r@),
{
    let mut r: Vec<Edge> = Vec::new();
    let mut k: usize = 0;
    while k < edges.len()
        invariant
            k <= edges.len(),
            r@ == shown_edges_upto(shown@, edges@, k as nat),
            edges_wf(shown@.len(), r@),
            edges_shown(shown@, r@),
        decreases edges.len() - k,
    {
        let e = edges[k];
        if shown[e.from] && shown[e.to] {
            r.push(e);
        }
        k += 1;
    }
    r
}

/// Prunes a graph: a set that holds no shown system and a resource that no
/// shown system touches are no longer drawn, and an edge stays only where
/// both its ends are still drawn. Nodes keep their indices.
#[verifier::loop_isolation(false)]
pub fn prune(g: Graph) -> (r: Graph)
    requires
        g.wf(),
    ensures
        r.wf(),
        r.nodes@ == g.nodes@,
        r.names@ == g.names@,
        r.visible@ == pruned_visible(g.nodes@, g.visible@, g.edges@),
        r.edges@ == pruned_edges(g.nodes@, g.visible@, g.edges@),
        edges_shown(r.visible@, r.edges@),
{
    let n = g.nodes.len();
    let mut kept: Vec<bool> = Vec::new();
    let mut i: usize = 0;
    while i < n
        invariant
            i <= n,
            kept@.len() == i,
            forall|s: int|
                0 <= s < i ==> (#[trigger] kept@[s] == (g.nodes@[s].kind == NodeKind::System
                    && g.visible@[s])),
        decreases n - i,
    {
        kept.push(g.nodes[i].kind == NodeKind::System && g.visible[i]);
        i += 1;
    }
    let mut i: usize = 0;
    while i < n
        invariant
            i <= n,
            kept@.len() == n,
            forall|s: int|
                0 <= s < n ==> (#[trigger] kept@[s] == match g.nodes@[s].kind {
                    NodeKind::System => g.visible@[s],
                    NodeKind::SystemSet => keeps_below(g.nodes@, g.visible@, s, i as int),
                    NodeKind::Resource => false,
                }),
        decreases n - i,
    {
        if g.nodes[i].kind == NodeKind::System && g.visible[i] {
            mark_above(&g.nodes, &g.visible, &mut kept, i);
        } else {
            proof {
                assert forall|s: int| 0 <= s < n implies keeps_below(
                    g.nodes@,
                    g.visible@,
                    s,
                    i as int,
                ) == keeps_below(g.nodes@, g.visible@, s, i + 1) by {
                    if keeps_below(g.nodes@, g.visible@, s, i + 1) {
                        let j = choose|j: int|
                            0 <= j < i + 1 && #[trigger] keeps(g.nodes@, g.visible@, s, j);
                        assert(j < i);
                    }
                    if keeps_below(g.nodes@, g.visible@, s, i as int) {
                        let j = choose|j: int|
                            0 <= j < i && #[trigger] keeps(g.nodes@, g.visible@, s, j);
                        assert(keeps(g.nodes@, g.visible@, s, j));
                    }
                }
            }
        }
        i += 1;
    }
    mark_touched(&g.nodes, &g.visible, &g.edges, &mut kept);
    // what survives was shown before
    let ghost marked = kept@;
    let mut i: usize = 0;
    while i < n
        invariant
            i <= n,
            kept@.len() == n,
            forall|s: int| 0 <= s < i ==> (#[trigger] kept@[s] == (marked[s] && g.visible@[s])),
            forall|s: int| i <= s < n ==> #[trigger] kept@[s] == marked[s],
        decreases n - i,
    {
        if !g.visible[i] {
            kept.set(i, false);
        }
        i += 1;
    }
    proof {
        assert(kept@ =~= pruned_visible(g.nodes@, g.visible@, g.edges@));
        lemma_pruned_closed(g.nodes@, g.visible@, g.edges@);
    }
    let edges = shown_edges(&kept, &g.edges);
    Graph { nodes: g.nodes, visible: kept, names: g.names, edges }
}

/// After pruning, whatever is drawn still stands inside something drawn.
pub proof fn lemma_pruned_closed(nodes: Seq<Node>, visible: Seq<bool>, edges: Seq<Edge>)
    requires
        nodes_wf(nodes),
        visible.len() == nodes.len(),
        visible_closed(nodes, visible),
    ensures
        visible_closed(nodes, pruned_visible(nodes, visible, edges)),
{
    let after = pruned_visible(nodes, visible, edges);
    assert forall|i: int|
        0 <= i < nodes.len() && #[trigger] after[i] && nodes[i].container is Some implies after[nodes[i].container->Some_0 as int] by {
        let c = nodes[i].container->Some_0 as int;
        assert(node_wf(nodes, i));
        assert(visible[i]);
        assert(visible[c]);
        assert(ancestor(nodes, c, i));
        match nodes[i].kind {
            NodeKind::System => {
                assert(keeps(nodes, visible, c, i));
            },
            NodeKind::SystemSet => {
                let j = choose|j: int| 0 <= j < nodes.len() && #[trigger] keeps(nodes, visible, i, j);
                lemma_ancestor_trans(nodes, c, i, j);
                assert(keeps(nodes, visible, c, j));
            },
            NodeKind::Resource => {},
        }
    }
}

/// An earlier edge is the same as edge `k`.
pub open spec fn seen_before(edges: Seq<Edge>, k: int) -> bool {
    exists|j: int| 0 <= j < k && #[trigger] edges[j] == edges[k]
}

/// The edge that says that the source of `e` writes its target.
pub open spec fn write_twin(e: Edge) -> Edge {
    Edge { kind: EdgeKind::Write, from: e.from, to: e.to }
}

/// Edge `k` is a read that a write of the same system to the same resource
/// makes needless: where a system both reads and writes, the write is shown.
pub open spec fn overwritten(edges: Seq<Edge>, k: int) -> bool {
    edges[k].kind == EdgeKind::Read && edges.contains(write_twin(edges[k]))
}

/// Edge `k`, if it is the first of its kind between its two nodes and no
/// write stands for it.
pub open spec fn merged_at(edges: Seq<Edge>, k: int) -> Option<Edge> {
    if seen_before(edges, k) || overwritten(edges, k) {
        None
    } else {
        Some(edges[k])
    }
}

/// `merged_at` as a selection.
pub open spec fn merged_fn(edges: Seq<Edge>) -> spec_fn(int) -> Option<Edge> {
    |k: int| merged_at(edges, k)
}

/// What merging leaves of the first `n` edges.
pub open spec fn merged_upto(edges: Seq<Edge>, n: nat) -> Seq<Edge> {
    gather(n, merged_fn(edges))
}

/// The edges after merging, in their order.
pub open spec fn merged(edges: Seq<Edge>) -> Seq<Edge> {
    merged_upto(edges, edges.len())
}

/// No edge occurs twice.
pub open spec fn distinct(edges: Seq<Edge>) -> bool {
    forall|a: int, b: int| 0 <= a < b < edges.len() ==> edges[a] != edges[b]
}

/// Whether two edges are the same.
pub fn same_edge(a: &Edge, b: &Edge) -> (r: bool)
    ensures
        r == (*a == *b),
{
    a.kind == b.kind && a.from == b.from && a.to == b.to
}

/// Whether one of the first `n` edges is `e`.
#[verifier::loop_isolation(false)]
pub fn has_edge(edges: &Vec<Edge>, n: usize, e: &Edge) -> (r: bool)
    requires
        n <= edges.len(),
    ensures
        r == exists|j: int| 0 <= j < n && #[trigger] edges@[j] == *e,
{
    let mut j: usize = 0;
    while j < n
        invariant
            j <= n,
            forall|i: int| 0 <= i < j ==> #[trigger] edges@[i] != *e,
        decreases n - j,
    {
        if same_edge(&edges[j], e) {
            return true;
        }
        j += 1;
    }
    false
}

/// Merges edges: of several edges of one kind between the same two nodes
/// the first stays, and a read goes where the same system writes the same
/// resource.
#[verifier::loop_isolation(false)]
pub fn merge(edges: &Vec<Edge>) -> (r: Vec<Edge>)
    ensures
        r@ == merged(edges@),
        distinct(r@),
        forall|k: int| 0 <= k < r@.len() ==> edges@.contains(#[trigger] r@[k]),
        forall|k: int|
            0 <= k < r@.len() && (#[trigger] r@[k]).kind == EdgeKind::Read ==> !edges@.contains(
                write_twin(r@[k]),
            ),
        forall|k: int|
            0 <= k < edges@.len() ==> r@.contains(#[trigger] edges@[k]) || overwritten(edges@, k),
{
    let mut r: Vec<Edge> = Vec::new();
    let mut k: usize = 0;
    while k < edges.len()
        invariant
            k <= edges.len(),
            r@ == merged_upto(edges@, k as nat),
            distinct(r@),
            forall|i: int|
                0 <= i < r@.len() ==> exists|j: int| 0 <= j < k && edges@[j] == #[trigger] r@[i],
            forall|i: int|
                0 <= i < r@.len() && (#[trigger] r@[i]).kind == EdgeKind::Read ==> !edges@.contains(
                    write_twin(r@[i]),
                ),
            forall|j: int| 0 <= j < k ==> r@.contains(#[trigger] edges@[j]) || overwritten(edges@, j),
        decreases edges.len() - k,
    {
        let e = edges[k];
        let ghost before = r@;
        let twin = Edge { kind: EdgeKind::Write, from: e.from, to: e.to };
        let seen = has_edge(edges, k, &e);
        let over = match e.kind {
            EdgeKind::Read => has_edge(edges, edges.len(), &twin),
            _ => false,
        };
        proof {
            assert(seen == seen_before(edges@, k as int));
            if over {
                let j = choose|j: int| 0 <= j < edges@.len() && #[trigger] edges@[j] == twin;
                assert(edges@.contains(twin));
            }
            if edges@.contains(twin) && e.kind == EdgeKind::Read {
                let j = choose|j: int| 0 <= j < edges@.len() && edges@[j] == twin;
                assert(edges@[j] == twin);
                assert(over);
            }
            assert(over == overwritten(edges@, k as int));
        }
        if !seen && !over {
            r.push(e);
            proof {
                assert forall|i: int| 0 <= i < r@.len() implies exists|j: int|
                    0 <= j < k + 1 && edges@[j] == #[trigger] r@[i] by {
                    if i < before.len() {
                        let j = choose|j: int| 0 <= j < k && edges@[j] == before[i];
                        assert(edges@[j] == r@[i]);
                    } else {
                        assert(edges@[k as int] == r@[i]);
                    }
                }
                assert forall|a: int, b: int| 0 <= a < b < r@.len() implies r@[a] != r@[b] by {
                    if b == before.len() {
                        let j = choose|j: int| 0 <= j < k && edges@[j] == before[a];
                        if r@[a] == r@[b] {
                            assert(edges@[j] == edges@[k as int]);
                        }
                    }
                }
                assert forall|j: int| 0 <= j < k + 1 implies r@.contains(#[trigger] edges@[j])
                    || overwritten(edges@, j) by {
                    if j < k {
                        if before.contains(edges@[j]) {
                            let i = choose|i: int| 0 <= i < before.len() && before[i] == edges@[j];
                            assert(r@[i] == edges@[j]);
                        }
                    } else {
                        assert(r@[before.len() as int] == edges@[j]);
                    }
                }
            }
        } else {
            proof {
                assert forall|i: int| 0 <= i < r@.len() implies exists|j: int|
                    0 <= j < k + 1 && edges@[j] == #[trigger] r@[i] by {
                    let j = choose|j: int| 0 <= j < k && edges@[j] == r@[i];
                    assert(edges@[j] == r@[i]);
                }
                if seen && !over {
                    let j = choose|j: int| 0 <= j < k && #[trigger] edges@[j] == edges@[k as int];
                    assert(r@.contains(edges@[j]) || overwritten(edges@, j));
                    if overwritten(edges@, j) {
                        assert(overwritten(edges@, k as int));
                    }
                }
            }
        }
        k += 1;
    }
    proof {
        assert forall|i: int| 0 <= i < r@.len() implies edges@.contains(#[trigger] r@[i]) by {
            let j = choose|j: int| 0 <= j < k && edges@[j] == r@[i];
            assert(edges@[j] == r@[i]);
        }
    }
    r
}

} // verus!
