//! Inlining of sets that hold a single member: such a set, where no edge
//! ends at it, adds a frame around one node and nothing else, and may be
//! left out of the picture.

use vstd::prelude::*;
use crate::graph::{Edge, Graph, Node, NodeKind, edges_wf, node_wf, nodes_wf, visible_closed};
use crate::seqs::count;
use crate::simplify::edges_shown;

verus! {

/// Node `i` is shown and stands directly in the set `s`.
pub open spec fn member(nodes: Seq<Node>, visible: Seq<bool>, s: int, i: int) -> bool {
    visible[i] && nodes[i].container == Some(s as usize)
}

/// `member` as a predicate on nodes.
pub open spec fn member_pred(nodes: Seq<Node>, visible: Seq<bool>, s: int) -> spec_fn(int) -> bool {
    |i: int| member(nodes, visible, s, i)
}

/// The number of shown nodes that stand directly in the set `s`.
pub open spec fn members(nodes: Seq<Node>, visible: Seq<bool>, s: int) -> nat {
    count(nodes.len(), member_pred(nodes, visible, s))
}

/// An edge begins or ends at node `s`.
pub open spec fn joined(edges: Seq<Edge>, s: int) -> bool {
    exists|k: int| 0 <= k < edges.len() && ((#[trigger] edges[k]).from == s || edges[k].to == s)
}

/// The set `s` is inlined: it is shown, holds exactly one shown member, and
/// no edge begins or ends at it.
pub open spec fn inlined(nodes: Seq<Node>, visible: Seq<bool>, edges: Seq<Edge>, s: int) -> bool {
    &&& nodes[s].kind == NodeKind::SystemSet
    &&& visible[s]
    &&& members(nodes, visible, s) == 1
    &&& !joined(edges, s)
}

/// The measure by which a climb through containers ends.
pub open spec fn climb_room(nodes: Seq<Node>, c: Option<usize>) -> nat {
    match c {
        None => 0nat,
        Some(s) => (nodes[s as int].level + 1) as nat,
    }
}

/// The nearest set at or above `c` that is not inlined; `None` where the
/// climb ends at the top level.
pub open spec fn outer(nodes: Seq<Node>, visible: Seq<bool>, edges: Seq<Edge>, c: Option<usize>) -> Option<
    usize,
>
    decreases climb_room(nodes, c),
    when nodes_wf(nodes) && (c is Some ==> c->Some_0 < nodes.len())
{
    match c {
        None => None,
        Some(s) => if inlined(nodes, visible, edges, s as int) && node_wf(nodes, s as int) {
            outer(nodes, visible, edges, nodes[s as int].container)
        } else {
            Some(s)
        },
    }
}

/// Node `i` after inlining: it stands in the nearest set above it that stays.
pub open spec fn collapsed_node(nodes: Seq<Node>, visible: Seq<bool>, edges: Seq<Edge>, i: int) -> Node {
    Node {
        kind: nodes[i].kind,
        container: outer(nodes, visible, edges, nodes[i].container),
        level: nodes[i].level,
    }
}

/// The nodes after inlining.
pub open spec fn collapsed_nodes(nodes: Seq<Node>, visible: Seq<bool>, edges: Seq<Edge>) -> Seq<Node> {
    Seq::new(nodes.len(), |i: int| collapsed_node(nodes, visible, edges, i))
}

/// What is shown after inlining: what was shown, but for the inlined sets.
pub open spec fn collapsed_visible(nodes: Seq<Node>, visible: Seq<bool>, edges: Seq<Edge>) -> Seq<
    bool,
> {
    Seq::new(nodes.len(), |i: int| visible[i] && !inlined(nodes, visible, edges, i))
}

/// The set that a climb ends at is a set of the graph that stays, no deeper
/// than where the climb began, and shown if that was.
pub proof fn lemma_outer(nodes: Seq<Node>, visible: Seq<bool>, edges: Seq<Edge>, c: Option<usize>)
    requires
        nodes_wf(nodes),
        visible.len() == nodes.len(),
        visible_closed(nodes, visible),
        c is Some,
        c->Some_0 < nodes.len(),
        nodes[c->Some_0 as int].kind == NodeKind::SystemSet,
    ensures
        match outer(nodes, visible, edges, c) {
            None => true,
            Some(t) => {
                &&& t < nodes.len()
                &&& nodes[t as int].kind == NodeKind::SystemSet
                &&& nodes[t as int].level <= nodes[c->Some_0 as int].level
                &&& !inlined(nodes, visible, edges, t as int)
                &&& visible[c->Some_0 as int] ==> visible[t as int]
            },
        },
    decreases climb_room(nodes, c),
{
    let s = c->Some_0 as int;
    assert(node_wf(nodes, s));
    assert(c == Some(s as usize));
    if inlined(nodes, visible, edges, s) {
        assert(outer(nodes, visible, edges, c) == outer(nodes, visible, edges, nodes[s].container));
        match nodes[s].container {
            None => {
                assert(outer(nodes, visible, edges, None) is None);
            },
            Some(p) => {
                lemma_outer(nodes, visible, edges, nodes[s].container);
                assert(visible[s] ==> visible[p as int]);
            },
        }
    } else {
        assert(outer(nodes, visible, edges, c) == Some(s as usize));
    }
}

/// Inlining keeps the graph well formed.
pub proof fn lemma_collapsed_wf(nodes: Seq<Node>, visible: Seq<bool>, edges: Seq<Edge>)
    requires
        nodes_wf(nodes),
        visible.len() == nodes.len(),
        visible_closed(nodes, visible),
        edges_wf(nodes.len(), edges),
        edges_shown(visible, edges),
    ensures
        nodes_wf(collapsed_nodes(nodes, visible, edges)),
        visible_closed(
            collapsed_nodes(nodes, visible, edges),
            collapsed_visible(nodes, visible, edges),
        ),
        edges_shown(collapsed_visible(nodes, visible, edges), edges),
{
    let after = collapsed_nodes(nodes, visible, edges);
    let shown = collapsed_visible(nodes, visible, edges);
    assert forall|i: int| 0 <= i < after.len() implies #[trigger] node_wf(after, i) by {
        assert(node_wf(nodes, i));
        match nodes[i].container {
            None => {},
            Some(c) => {
                lemma_outer(nodes, visible, edges, nodes[i].container);
            },
        }
    }
    assert forall|i: int|
        0 <= i < after.len() && #[trigger] shown[i] && after[i].container is Some implies shown[after[i].container->Some_0 as int] by {
        assert(node_wf(nodes, i));
        match nodes[i].container {
            None => {},
            Some(c) => {
                lemma_outer(nodes, visible, edges, nodes[i].container);
            },
        }
    }
    assert forall|k: int| 0 <= k < edges.len() implies shown[(#[trigger] edges[k]).from as int]
        && shown[edges[k].to as int] by {
        if inlined(nodes, visible, edges, edges[k].from as int) {
            assert(joined(edges, edges[k].from as int));
        }
        if inlined(nodes, visible, edges, edges[k].to as int) {
            assert(joined(edges, edges[k].to as int));
        }
    }
}

/// Whether the set `s` is inlined.
#[verifier::loop_isolation(false)]
pub fn is_inlined(g: &Graph, s: usize) -> (r: bool)
    requires
        g.wf(),
        s < g.nodes@.len(),
    ensures
        r == inlined(g.nodes@, g.visible@, g.edges@, s as int),
{
    if !(g.nodes[s].kind == NodeKind::SystemSet && g.visible[s]) {
        return false;
    }
    let mut k: usize = 0;
    while k < g.edges.len()
        invariant
            k <= g.edges.len(),
            forall|j: int| 0 <= j < k ==> (#[trigger] g.edges@[j]).from != s && g.edges@[j].to != s,
        decreases g.edges.len() - k,
    {
        if g.edges[k].from == s || g.edges[k].to == s {
            assert(joined(g.edges@, s as int));
            return false;
        }
        k += 1;
    }
    assert(!joined(g.edges@, s as int));
    let n = g.nodes.len();
    let mut found: usize = 0;
    let mut i: usize = 0;
    while i < n
        invariant
            i <= n,
            found == count(i as nat, member_pred(g.nodes@, g.visible@, s as int)),
            found <= i,
        decreases n - i,
    {
        let inside = match g.nodes[i].container {
            Some(c) => c == s,
            None => false,
        };
        assert(inside == (g.nodes@[i as int].container == Some(s)));
        if g.visible[i] && inside {
            found += 1;
        }
        i += 1;
    }
    found == 1
}

/// Inlines every set that holds a single shown member and that no edge
/// touches: what it held stands in the nearest set above that stays, and
/// the set itself is no longer drawn. Nodes keep their indices.
#[verifier::loop_isolation(false)]
pub fn collapse(g: Graph) -> (r: Graph)
    requires
        g.wf(),
        edges_shown(g.visible@, g.edges@),
    ensures
        r.wf(),
        edges_shown(r.visible@, r.edges@),
        r.nodes@ == collapsed_nodes(g.nodes@, g.visible@, g.edges@),
        r.visible@ == collapsed_visible(g.nodes@, g.visible@, g.edges@),
        r.names@ == g.names@,
        r.edges@ == g.edges@,
{
    let n = g.nodes.len();
    let mut gone: Vec<bool> = Vec::new();
    let mut i: usize = 0;
    while i < n
        invariant
            i <= n,
            gone@.len() == i,
            forall|s: int|
                0 <= s < i ==> #[trigger] gone@[s] == inlined(g.nodes@, g.visible@, g.edges@, s),
        decreases n - i,
    {
        let b = is_inlined(&g, i);
        gone.push(b);
        i += 1;
    }
    let mut nodes: Vec<Node> = Vec::new();
    let mut visible: Vec<bool> = Vec::new();
    let mut i: usize = 0;
    while i < n
        invariant
            i <= n,
            nodes@.len() == i,
            visible@.len() == i,
            forall|j: int|
                0 <= j < i ==> #[trigger] nodes@[j] == collapsed_node(
                    g.nodes@,
                    g.visible@,
                    g.edges@,
                    j,
                ),
            forall|j: int|
                0 <= j < i ==> #[trigger] visible@[j] == (g.visible@[j] && !inlined(
                    g.nodes@,
                    g.visible@,
                    g.edges@,
                    j,
                )),
        decreases n - i,
    {
        assert(node_wf(g.nodes@, i as int));
        let mut cur = g.nodes[i].container;
        loop
            invariant
                cur is Some ==> cur->Some_0 < n,
                outer(g.nodes@, g.visible@, g.edges@, g.nodes@[i as int].container) == outer(
                    g.nodes@,
                    g.visible@,
                    g.edges@,
                    cur,
                ),
            decreases climb_room(g.nodes@, cur),
        {
            match cur {
                None => {
                    break ;
                },
                Some(s) => {
                    assert(node_wf(g.nodes@, s as int));
                    if gone[s] {
                        cur = g.nodes[s].container;
                    } else {
                        break ;
                    }
                },
            }
        }
        nodes.push(Node { kind: g.nodes[i].kind, container: cur, level: g.nodes[i].level });
        visible.push(g.visible[i] && !gone[i]);
        i += 1;
    }
    proof {
        assert(nodes@ =~= collapsed_nodes(g.nodes@, g.visible@, g.edges@));
        assert(visible@ =~= collapsed_visible(g.nodes@, g.visible@, g.edges@));
        lemma_collapsed_wf(g.nodes@, g.visible@, g.edges@);
    }
    Graph { nodes, visible, names: g.names, edges: g.edges }
}

} // verus!
