//! Transitive reduction of the ordering edges: an edge goes where the node
//! it leads to stays reachable without it, so that what is drawn says no
//! less about order than what was given.

use vstd::prelude::*;
use crate::graph::{Edge, EdgeKind, Node, ancestor, edges_wf, holds, node_wf, nodes_wf};
use crate::reach::{is_link, lemma_drop_link, linked, live_links, order_links, reach_from, reaches};
use crate::seqs::{gather, lemma_gather_contains};

verus! {

/// Whether the containers of `a` and `c` are one set, or one inside the
/// other; the top level holds everything. An edge between nodes that stand
/// in unrelated sets is never taken away.
pub open spec fn near(nodes: Seq<Node>, a: int, c: int) -> bool {
    match (nodes[a].container, nodes[c].container) {
        (Some(x), Some(y)) => x == y || ancestor(nodes, x as int, y as int) || ancestor(
            nodes,
            y as int,
            x as int,
        ),
        _ => true,
    }
}

/// Whether the containers of `a` and `c` are one set or nested.
pub fn is_near(nodes: &Vec<Node>, a: usize, c: usize) -> (r: bool)
    requires
        nodes_wf(nodes@),
        a < nodes.len(),
        c < nodes.len(),
    ensures
        r == near(nodes@, a as int, c as int),
{
    assert(node_wf(nodes@, a as int));
    assert(node_wf(nodes@, c as int));
    match (nodes[a].container, nodes[c].container) {
        (Some(x), Some(y)) => holds(nodes, x, y) || holds(nodes, y, x),
        _ => true,
    }
}

/// Edge `k` is an ordering edge between near nodes whose target stays
/// reachable from its source along the other live ordering edges.
pub open spec fn redundant(nodes: Seq<Node>, edges: Seq<Edge>, alive: Seq<bool>, k: int) -> bool {
    &&& edges[k].kind == EdgeKind::Order
    &&& near(nodes, edges[k].from as int, edges[k].to as int)
    &&& reaches(
        live_links(edges, alive.update(k, false)),
        edges[k].from as int,
        edges[k].to as int,
    )
}

/// Which edges are left once the first `k` have been looked at, one after
/// the other, each against what the earlier decisions left.
pub open spec fn reduced_alive(nodes: Seq<Node>, edges: Seq<Edge>, k: nat) -> Seq<bool>
    decreases k,
{
    if k == 0 {
        Seq::new(edges.len(), |i: int| true)
    } else {
        let prev = reduced_alive(nodes, edges, (k - 1) as nat);
        if redundant(nodes, edges, prev, k - 1) {
            prev.update(k - 1, false)
        } else {
            prev
        }
    }
}

/// Edge `k`, if it is live.
pub open spec fn live_edge_at(edges: Seq<Edge>, alive: Seq<bool>, k: int) -> Option<Edge> {
    if alive[k] {
        Some(edges[k])
    } else {
        None
    }
}

/// `live_edge_at` as a selection.
pub open spec fn live_edge_fn(edges: Seq<Edge>, alive: Seq<bool>) -> spec_fn(int) -> Option<Edge> {
    |k: int| live_edge_at(edges, alive, k)
}

/// The live ones among the first `n` edges.
pub open spec fn live_edges_upto(edges: Seq<Edge>, alive: Seq<bool>, n: nat) -> Seq<Edge> {
    gather(n, live_edge_fn(edges, alive))
}

/// The edges after transitive reduction, in their order.
pub open spec fn reduced(nodes: Seq<Node>, edges: Seq<Edge>) -> Seq<Edge> {
    live_edges_upto(edges, reduced_alive(nodes, edges, edges.len()), edges.len())
}

/// The live edges, written out, join the same pairs.
pub proof fn lemma_live_links(edges: Seq<Edge>, alive: Seq<bool>)
    requires
        alive.len() == edges.len(),
    ensures
        order_links(live_edges_upto(edges, alive, edges.len())) == live_links(edges, alive),
{
    let out = live_edges_upto(edges, alive, edges.len());
    let ones = Seq::new(out.len(), |k: int| true);
    assert forall|p: (int, int)| order_links(out).contains(p) == live_links(edges, alive).contains(
        p,
    ) by {
        if linked(out, ones, p.0, p.1) {
            let j = choose|j: int| 0 <= j < out.len() && #[trigger] is_link(out, ones, j, p.0, p.1);
            assert(out.contains(out[j]));
            lemma_gather_contains(edges.len(), live_edge_fn(edges, alive), out[j]);
            let i = choose|i: int|
                0 <= i < edges.len() && #[trigger] live_edge_fn(edges, alive)(i) == Some(out[j]);
            assert(is_link(edges, alive, i, p.0, p.1));
        }
        if linked(edges, alive, p.0, p.1) {
            let i = choose|i: int|
                0 <= i < edges.len() && #[trigger] is_link(edges, alive, i, p.0, p.1);
            assert(live_edge_fn(edges, alive)(i) == Some(edges[i]));
            lemma_gather_contains(edges.len(), live_edge_fn(edges, alive), edges[i]);
            assert(out.contains(edges[i]));
            let j = choose|j: int| 0 <= j < out.len() && out[j] == edges[i];
            assert(is_link(out, ones, j, p.0, p.1));
        }
    }
    assert(order_links(out) =~= live_links(edges, alive));
}

/// Turning off an edge whose target stays reachable changes nothing about
/// which node reaches which.
pub proof fn lemma_turn_off(edges: Seq<Edge>, alive: Seq<bool>, k: int, a: int, b: int)
    requires
        alive.len() == edges.len(),
        0 <= k < edges.len(),
        reaches(live_links(edges, alive.update(k, false)), edges[k].from as int, edges[k].to as int),
    ensures
        reaches(live_links(edges, alive), a, b) <==> reaches(
            live_links(edges, alive.update(k, false)),
            a,
            b,
        ),
{
    let off = alive.update(k, false);
    let links = live_links(edges, alive);
    let rest = live_links(edges, off);
    let u = edges[k].from as int;
    let v = edges[k].to as int;
    assert forall|p: (int, int)| #[trigger] rest.contains(p) implies links.contains(p) by {
        let j = choose|j: int| 0 <= j < edges.len() && #[trigger] is_link(edges, off, j, p.0, p.1);
        assert(is_link(edges, alive, j, p.0, p.1));
    }
    assert forall|p: (int, int)| #[trigger] links.contains(p) implies rest.contains(p) || p == (
        u,
        v,
    ) by {
        let j = choose|j: int| 0 <= j < edges.len() && #[trigger] is_link(edges, alive, j, p.0, p.1);
        if j != k {
            assert(is_link(edges, off, j, p.0, p.1));
        }
    }
    lemma_drop_link(links, rest, u, v, a, b);
}

/// Takes away every ordering edge that the others make redundant, looking
/// at the edges one after the other. Other edges pass through. Which node
/// reaches which along ordering edges is the same before and after.
#[verifier::loop_isolation(false)]
pub fn reduce(nodes: &Vec<Node>, edges: &Vec<Edge>) -> (r: Vec<Edge>)
    requires
        nodes_wf(nodes@),
        edges_wf(nodes@.len(), edges@),
    ensures
        r@ == reduced(nodes@, edges@),
        forall|a: int, b: int|
            reaches(order_links(edges@), a, b) <==> #[trigger] reaches(order_links(r@), a, b),
        forall|k: int| 0 <= k < r@.len() ==> edges@.contains(#[trigger] r@[k]),
        forall|k: int|
            0 <= k < edges@.len() && edges@[k].kind != EdgeKind::Order ==> r@.contains(
                #[trigger] edges@[k],
            ),
{
    let n = nodes.len();
    let m = edges.len();
    let mut alive: Vec<bool> = Vec::new();
    let mut k: usize = 0;
    while k < m
        invariant
            k <= m,
            alive@.len() == k,
            forall|j: int| 0 <= j < k ==> #[trigger] alive@[j],
        decreases m - k,
    {
        alive.push(true);
        k += 1;
    }
    assert(alive@ =~= reduced_alive(nodes@, edges@, 0));
    assert(alive@ =~= Seq::new(edges@.len(), |k: int| true));
    let mut k: usize = 0;
    while k < m
        invariant
            k <= m,
            alive@.len() == m,
            alive@ == reduced_alive(nodes@, edges@, k as nat),
            forall|j: int| k <= j < m ==> #[trigger] alive@[j],
            forall|j: int| 0 <= j < m && edges@[j].kind != EdgeKind::Order ==> #[trigger] alive@[j],
            forall|a: int, b: int|
                reaches(order_links(edges@), a, b) <==> #[trigger] reaches(
                    live_links(edges@, alive@),
                    a,
                    b,
                ),
        decreases m - k,
    {
        let e = edges[k];
        let ghost before = alive@;
        if e.kind == EdgeKind::Order && is_near(nodes, e.from, e.to) {
            alive.set(k, false);
            let seen = reach_from(edges, &alive, n, e.from);
            if seen[e.to] {
                proof {
                    assert(redundant(nodes@, edges@, before, k as int));
                    assert forall|a: int, b: int|
                        reaches(order_links(edges@), a, b) <==> #[trigger] reaches(
                            live_links(edges@, alive@),
                            a,
                            b,
                        ) by {
                        lemma_turn_off(edges@, before, k as int, a, b);
                    }
                }
            } else {
                alive.set(k, true);
                assert(alive@ =~= before);
                assert(!redundant(nodes@, edges@, before, k as int));
            }
        } else {
            assert(!redundant(nodes@, edges@, before, k as int));
        }
        k += 1;
    }
    let mut r: Vec<Edge> = Vec::new();
    let mut k: usize = 0;
    while k < m
        invariant
            k <= m,
            r@ == live_edges_upto(edges@, alive@, k as nat),
        decreases m - k,
    {
        if alive[k] {
            r.push(edges[k]);
        }
        k += 1;
    }
    proof {
        lemma_live_links(edges@, alive@);
        assert forall|k: int| 0 <= k < r@.len() implies edges@.contains(#[trigger] r@[k]) by {
            assert(r@.contains(r@[k]));
            lemma_gather_contains(m as nat, live_edge_fn(edges@, alive@), r@[k]);
            let i = choose|i: int|
                0 <= i < m && #[trigger] live_edge_fn(edges@, alive@)(i) == Some(r@[k]);
            assert(edges@[i] == r@[k]);
        }
        assert forall|k: int|
            0 <= k < edges@.len() && edges@[k].kind != EdgeKind::Order implies r@.contains(
            #[trigger] edges@[k],
        ) by {
            assert(alive@[k]);
            assert(live_edge_fn(edges@, alive@)(k) == Some(edges@[k]));
            lemma_gather_contains(m as nat, live_edge_fn(edges@, alive@), edges@[k]);
        }
    }
    r
}

} // verus!
