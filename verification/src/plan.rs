//! The plan of a picture: the statements of the document in their order,
//! with every set as a cluster around what it holds.

use vstd::prelude::*;
use crate::graph::{Edge, EdgeKind, Graph, Node, NodeKind, edges_wf, node_wf, nodes_wf, visible_closed};
use crate::seqs::{gather, lemma_gather_contains};
use crate::simplify::edges_shown;

verus! {

/// One statement of the plan.
#[derive(Clone, Copy, PartialEq, Eq, Debug)]
pub enum Item {
    /// The cluster of the set with this index opens, and declares its anchor.
    Open(usize),
    /// The innermost open cluster closes.
    Close,
    /// The node with this index is declared.
    Node(usize),
    /// An edge is drawn.
    Link(Edge),
}

/// The measure by which nesting ends: what a set holds lies deeper than the
/// set, and no level reaches the number of nodes.
pub open spec fn room(nodes: Seq<Node>, parent: Option<usize>) -> nat {
    match parent {
        None => nodes.len() + 1,
        Some(p) => (nodes.len() - nodes[p as int].level) as nat,
    }
}

/// The statements for those of the first `k` nodes that are shown and stand
/// directly in `parent`: a node statement each, and around what a set
/// holds, the opening and the closing of its cluster.
pub open spec fn nest_upto(nodes: Seq<Node>, visible: Seq<bool>, parent: Option<usize>, k: nat) -> Seq<
    Item,
>
    decreases room(nodes, parent), k,
    when nodes_wf(nodes) && k <= nodes.len() && (parent is Some ==> parent->Some_0 < nodes.len())
{
    if k == 0 {
        Seq::empty()
    } else {
        let head = nest_upto(nodes, visible, parent, (k - 1) as nat);
        let i = (k - 1) as usize;
        if visible[k - 1] && nodes[k - 1].container == parent && node_wf(nodes, k - 1) {
            if nodes[k - 1].kind == NodeKind::SystemSet {
                head + seq![Item::Open(i)] + nest_upto(nodes, visible, Some(i), nodes.len())
                    + seq![Item::Close]
            } else {
                head.push(Item::Node(i))
            }
        } else {
            head
        }
    }
}

/// The statements for everything that stands in `parent`, at any depth.
pub open spec fn nest(nodes: Seq<Node>, visible: Seq<bool>, parent: Option<usize>) -> Seq<Item> {
    nest_upto(nodes, visible, parent, nodes.len())
}

/// The statement that draws edge `k`; containment is drawn as nesting, not
/// as an edge.
pub open spec fn link_at(edges: Seq<Edge>, k: int) -> Option<Item> {
    if edges[k].kind == EdgeKind::Contains {
        None
    } else {
        Some(Item::Link(edges[k]))
    }
}

/// `link_at` as a selection.
pub open spec fn link_fn(edges: Seq<Edge>) -> spec_fn(int) -> Option<Item> {
    |k: int| link_at(edges, k)
}

/// The statements that draw the first `n` edges.
pub open spec fn links_upto(edges: Seq<Edge>, n: nat) -> Seq<Item> {
    gather(n, link_fn(edges))
}

/// The whole plan: the nodes, nested, and then the edges.
pub open spec fn plan(nodes: Seq<Node>, visible: Seq<bool>, edges: Seq<Edge>) -> Seq<Item> {
    nest(nodes, visible, None) + links_upto(edges, edges.len())
}

/// The number of clusters that are open after `items`, counted from
/// `start`; `None` where a cluster is closed that was never opened.
pub open spec fn open_from(items: Seq<Item>, start: nat) -> Option<nat>
    decreases items.len(),
{
    if items.len() == 0 {
        Some(start)
    } else {
        match open_from(items.drop_last(), start) {
            None => None,
            Some(d) => match items.last() {
                Item::Open(_) => Some(d + 1),
                Item::Close => if d == 0 {
                    None
                } else {
                    Some((d - 1) as nat)
                },
                _ => Some(d),
            },
        }
    }
}

/// Every cluster that opens closes, and none closes that did not open.
pub open spec fn balanced(items: Seq<Item>) -> bool {
    open_from(items, 0) == Some(0nat)
}

/// Node `i` is declared: by a node statement or as the anchor of a cluster.
pub open spec fn declares(items: Seq<Item>, i: usize) -> bool {
    items.contains(Item::Node(i)) || items.contains(Item::Open(i))
}

/// Every edge that is drawn joins two declared nodes.
pub open spec fn links_declared(items: Seq<Item>) -> bool {
    forall|k: int|
        0 <= k < items.len() ==> match #[trigger] items[k] {
            Item::Link(e) => declares(items, e.from) && declares(items, e.to),
            _ => true,
        }
}

/// Every statement names nodes below `n`.
pub open spec fn items_within(n: nat, items: Seq<Item>) -> bool {
    forall|k: int|
        0 <= k < items.len() ==> match #[trigger] items[k] {
            Item::Open(i) => i < n,
            Item::Node(i) => i < n,
            Item::Link(e) => e.from < n && e.to < n,
            Item::Close => true,
        }
}

/// Counting goes on over a concatenation.
pub proof fn lemma_open_concat(a: Seq<Item>, b: Seq<Item>, start: nat)
    ensures
        open_from(a + b, start) == match open_from(a, start) {
            None => None,
            Some(d) => open_from(b, d),
        },
    decreases b.len(),
{
    if b.len() == 0 {
        assert(a + b == a);
    } else {
        lemma_open_concat(a, b.drop_last(), start);
        assert((a + b).drop_last() == a + b.drop_last());
    }
}

/// What is balanced leaves the count where it was.
pub proof fn lemma_open_shift(b: Seq<Item>, d: nat)
    ensures
        open_from(b, 0) is Some ==> open_from(b, d) == Some(open_from(b, 0)->Some_0 + d),
    decreases b.len(),
{
    if b.len() > 0 {
        lemma_open_shift(b.drop_last(), d);
    }
}

/// One statement, counted.
pub proof fn lemma_open_one(x: Item, d: nat)
    ensures
        open_from(seq![x], d) == match x {
            Item::Open(_) => Some(d + 1),
            Item::Close => if d == 0 {
                None
            } else {
                Some((d - 1) as nat)
            },
            _ => Some(d),
        },
{
    assert(seq![x].drop_last() == Seq::<Item>::empty());
    assert(open_from(Seq::<Item>::empty(), d) == Some(d));
}

/// The statements of `parent` are balanced, name nodes of the graph only,
/// and declare shown nodes only.
pub proof fn lemma_nest(nodes: Seq<Node>, visible: Seq<bool>, parent: Option<usize>, k: nat)
    requires
        nodes_wf(nodes),
        k <= nodes.len(),
        parent is Some ==> parent->Some_0 < nodes.len(),
    ensures
        balanced(nest_upto(nodes, visible, parent, k)),
        items_within(nodes.len(), nest_upto(nodes, visible, parent, k)),
        forall|j: int|
            0 <= j < nest_upto(nodes, visible, parent, k).len() ==> match #[trigger] nest_upto(
                nodes,
                visible,
                parent,
                k,
            )[j] {
                Item::Open(i) => visible[i as int] && nodes[i as int].kind == NodeKind::SystemSet,
                Item::Node(i) => visible[i as int] && nodes[i as int].kind != NodeKind::SystemSet,
                Item::Link(_) => false,
                Item::Close => true,
            },
    decreases room(nodes, parent), k,
{
    if k > 0 {
        let head = nest_upto(nodes, visible, parent, (k - 1) as nat);
        lemma_nest(nodes, visible, parent, (k - 1) as nat);
        let i = (k - 1) as usize;
        if visible[k - 1] && nodes[k - 1].container == parent && node_wf(nodes, k - 1) {
            if nodes[k - 1].kind == NodeKind::SystemSet {
                let inner = nest_upto(nodes, visible, Some(i), nodes.len());
                lemma_nest(nodes, visible, Some(i), nodes.len());
                let a = head + seq![Item::Open(i)];
                lemma_open_concat(head, seq![Item::Open(i)], 0);
                lemma_open_one(Item::Open(i), 0);
                lemma_open_concat(a, inner, 0);
                lemma_open_shift(inner, 1);
                lemma_open_concat(a + inner, seq![Item::Close], 0);
                lemma_open_one(Item::Close, 1);
            } else {
                lemma_open_concat(head, seq![Item::Node(i)], 0);
                lemma_open_one(Item::Node(i), 0);
                assert(head.push(Item::Node(i)) == head + seq![Item::Node(i)]);
            }
        }
    }
}

/// What the first `k` nodes give stays when more nodes are looked at.
pub proof fn lemma_nest_grows(
    nodes: Seq<Node>,
    visible: Seq<bool>,
    parent: Option<usize>,
    k: nat,
    m: nat,
    x: Item,
)
    requires
        nodes_wf(nodes),
        k <= m <= nodes.len(),
        parent is Some ==> parent->Some_0 < nodes.len(),
        nest_upto(nodes, visible, parent, k).contains(x),
    ensures
        nest_upto(nodes, visible, parent, m).contains(x),
    decreases m - k,
{
    if k < m {
        lemma_nest_grows(nodes, visible, parent, k, (m - 1) as nat, x);
        let head = nest_upto(nodes, visible, parent, (m - 1) as nat);
        let j = choose|j: int| 0 <= j < head.len() && head[j] == x;
        let full = nest_upto(nodes, visible, parent, m);
        assert(full.len() >= head.len());
        assert(full[j] == x);
    }
}

/// A shown node that stands directly in `parent` is declared among the
/// statements of `parent`, and so is everything that its cluster holds.
pub proof fn lemma_block(nodes: Seq<Node>, visible: Seq<bool>, parent: Option<usize>, i: int, x: Item)
    requires
        nodes_wf(nodes),
        0 <= i < nodes.len(),
        parent is Some ==> parent->Some_0 < nodes.len(),
        visible[i],
        nodes[i].container == parent,
        if nodes[i].kind == NodeKind::SystemSet {
            x == Item::Open(i as usize) || nest(nodes, visible, Some(i as usize)).contains(x)
        } else {
            x == Item::Node(i as usize)
        },
    ensures
        nest(nodes, visible, parent).contains(x),
{
    let head = nest_upto(nodes, visible, parent, i as nat);
    let full = nest_upto(nodes, visible, parent, (i + 1) as nat);
    assert(node_wf(nodes, i));
    if nodes[i].kind == NodeKind::SystemSet {
        let inner = nest(nodes, visible, Some(i as usize));
        assert(full == head + seq![Item::Open(i as usize)] + inner + seq![Item::Close]);
        if x == Item::Open(i as usize) {
            assert(full[head.len() as int] == x);
        } else {
            let j = choose|j: int| 0 <= j < inner.len() && inner[j] == x;
            assert(full[head.len() + 1 + j] == x);
        }
    } else {
        assert(full[head.len() as int] == x);
    }
    lemma_nest_grows(nodes, visible, parent, (i + 1) as nat, nodes.len(), x);
}

/// What the cluster of a shown set holds is part of the plan.
pub proof fn lemma_inside(nodes: Seq<Node>, visible: Seq<bool>, c: int, x: Item)
    requires
        nodes_wf(nodes),
        visible.len() == nodes.len(),
        visible_closed(nodes, visible),
        0 <= c < nodes.len(),
        visible[c],
        nodes[c].kind == NodeKind::SystemSet,
        nest(nodes, visible, Some(c as usize)).contains(x),
    ensures
        nest(nodes, visible, None).contains(x),
    decreases nodes[c].level,
{
    assert(node_wf(nodes, c));
    lemma_block(nodes, visible, nodes[c].container, c, x);
    match nodes[c].container {
        None => {},
        Some(p) => {
            lemma_inside(nodes, visible, p as int, x);
        },
    }
}

/// Every shown node is declared among the nested statements.
pub proof fn lemma_declared(nodes: Seq<Node>, visible: Seq<bool>, i: int)
    requires
        nodes_wf(nodes),
        visible.len() == nodes.len(),
        visible_closed(nodes, visible),
        0 <= i < nodes.len(),
        visible[i],
    ensures
        declares(nest(nodes, visible, None), i as usize),
{
    assert(node_wf(nodes, i));
    let x = if nodes[i].kind == NodeKind::SystemSet {
        Item::Open(i as usize)
    } else {
        Item::Node(i as usize)
    };
    lemma_block(nodes, visible, nodes[i].container, i, x);
    match nodes[i].container {
        None => {},
        Some(p) => {
            lemma_inside(nodes, visible, p as int, x);
        },
    }
}

/// Edges open and close nothing.
pub proof fn lemma_links_level(edges: Seq<Edge>, n: nat, d: nat)
    requires
        n <= edges.len(),
    ensures
        open_from(links_upto(edges, n), d) == Some(d),
    decreases n,
{
    if n > 0 {
        lemma_links_level(edges, (n - 1) as nat, d);
        let head = links_upto(edges, (n - 1) as nat);
        match link_at(edges, n - 1) {
            Some(x) => {
                assert(links_upto(edges, n) == head.push(x));
                assert(links_upto(edges, n).drop_last() == head);
            },
            None => {},
        }
    }
}

/// The plan of a pruned graph is a well-formed document: every cluster that
/// opens closes, in stack order; every edge that is drawn joins two nodes
/// that are declared; and a node is declared exactly if it is shown.
pub proof fn lemma_plan_well_formed(nodes: Seq<Node>, visible: Seq<bool>, edges: Seq<Edge>)
    requires
        nodes_wf(nodes),
        visible.len() == nodes.len(),
        visible_closed(nodes, visible),
        edges_wf(nodes.len(), edges),
        edges_shown(visible, edges),
    ensures
        balanced(plan(nodes, visible, edges)),
        links_declared(plan(nodes, visible, edges)),
        items_within(nodes.len(), plan(nodes, visible, edges)),
        forall|i: int|
            0 <= i < nodes.len() ==> (#[trigger] declares(plan(nodes, visible, edges), i as usize)
                <==> visible[i]),
{
    let nested = nest(nodes, visible, None);
    let links = links_upto(edges, edges.len());
    let all = plan(nodes, visible, edges);
    lemma_nest(nodes, visible, None, nodes.len());
    lemma_links_level(edges, edges.len(), 0);
    lemma_open_concat(nested, links, 0);
    assert forall|k: int| nested.len() <= k < all.len() implies (match #[trigger] all[k] {
        Item::Link(e) => edges.contains(e) && e.kind != EdgeKind::Contains,
        _ => false,
    }) by {
        let x = links[k - nested.len()];
        assert(all[k] == x);
        assert(links.contains(x));
        lemma_gather_contains(edges.len(), link_fn(edges), x);
        let j = choose|j: int| 0 <= j < edges.len() && #[trigger] link_fn(edges)(j) == Some(x);
        assert(link_at(edges, j) == Some(x));
        assert(edges[j] == edges[j]);
    }
    assert forall|i: int| 0 <= i < nodes.len() implies (#[trigger] declares(all, i as usize)
        <==> visible[i]) by {
        if visible[i] {
            lemma_declared(nodes, visible, i);
            if nested.contains(Item::Node(i as usize)) {
                let j = choose|j: int| 0 <= j < nested.len() && nested[j] == Item::Node(i as usize);
                assert(all[j] == Item::Node(i as usize));
            } else {
                let j = choose|j: int| 0 <= j < nested.len() && nested[j] == Item::Open(i as usize);
                assert(all[j] == Item::Open(i as usize));
            }
        }
        if declares(all, i as usize) {
            let x = if all.contains(Item::Node(i as usize)) {
                Item::Node(i as usize)
            } else {
                Item::Open(i as usize)
            };
            let j = choose|j: int| 0 <= j < all.len() && all[j] == x;
            if j < nested.len() {
                assert(nested[j] == x);
            }
        }
    }
    assert forall|k: int| 0 <= k < all.len() implies match #[trigger] all[k] {
        Item::Link(e) => declares(all, e.from) && declares(all, e.to),
        _ => true,
    } by {
        if k < nested.len() {
            assert(all[k] == nested[k]);
        } else {
            match all[k] {
                Item::Link(e) => {
                    let j = choose|j: int| 0 <= j < edges.len() && edges[j] == e;
                    assert(visible[edges[j].from as int] && visible[edges[j].to as int]);
                    assert(declares(all, e.from as int as usize));
                    assert(declares(all, e.to as int as usize));
                },
                _ => {},
            }
        }
    }
    assert forall|k: int| 0 <= k < all.len() implies match #[trigger] all[k] {
        Item::Open(i) => i < nodes.len(),
        Item::Node(i) => i < nodes.len(),
        Item::Link(e) => e.from < nodes.len() && e.to < nodes.len(),
        Item::Close => true,
    } by {
        if k < nested.len() {
            assert(all[k] == nested[k]);
        } else {
            match all[k] {
                Item::Link(e) => {
                    let j = choose|j: int| 0 <= j < edges.len() && edges[j] == e;
                    assert(edges[j].from < nodes.len());
                },
                _ => {},
            }
        }
    }
}

/// Appends the statements of `parent` to `out`.
#[verifier::loop_isolation(false)]
fn nest_into(nodes: &Vec<Node>, visible: &Vec<bool>, parent: Option<usize>, out: &mut Vec<Item>)
    requires
        nodes_wf(nodes@),
        visible@.len() == nodes@.len(),
        parent is Some ==> parent->Some_0 < nodes@.len(),
    ensures
        final(out)@ == old(out)@ + nest(nodes@, visible@, parent),
    decreases room(nodes@, parent),
{
    let n = nodes.len();
    let mut k: usize = 0;
    assert(out@ == old(out)@ + Seq::<Item>::empty());
    while k < n
        invariant
            k <= n,
            out@ == old(out)@ + nest_upto(nodes@, visible@, parent, k as nat),
        decreases n - k,
    {
        assert(node_wf(nodes@, k as int));
        let ghost head = nest_upto(nodes@, visible@, parent, k as nat);
        let same = match (nodes[k].container, parent) {
            (None, None) => true,
            (Some(a), Some(b)) => a == b,
            _ => false,
        };
        assert(same == (nodes@[k as int].container == parent));
        if visible[k] && same {
            match nodes[k].kind {
                NodeKind::SystemSet => {
                    out.push(Item::Open(k));
                    let ghost mid = out@;
                    nest_into(nodes, visible, Some(k), out);
                    out.push(Item::Close);
                    assert(out@ == old(out)@ + (head + seq![Item::Open(k)] + nest(
                        nodes@,
                        visible@,
                        Some(k),
                    ) + seq![Item::Close]));
                },
                _ => {
                    out.push(Item::Node(k));
                    assert(out@ == old(out)@ + head.push(Item::Node(k)));
                },
            }
        }
        k += 1;
    }
}

/// The plan of a graph: its shown nodes, nested in their clusters, and then
/// its edges.
#[verifier::loop_isolation(false)]
pub fn make_plan(g: &Graph) -> (items: Vec<Item>)
    requires
        g.wf(),
    ensures
        items@ == plan(g.nodes@, g.visible@, g.edges@),
{
    let mut items: Vec<Item> = Vec::new();
    nest_into(&g.nodes, &g.visible, None, &mut items);
    let ghost nested = items@;
    assert(nested == nest(g.nodes@, g.visible@, None));
    let mut k: usize = 0;
    assert(items@ == nested + Seq::<Item>::empty());
    while k < g.edges.len()
        invariant
            k <= g.edges.len(),
            items@ == nested + links_upto(g.edges@, k as nat),
        decreases g.edges.len() - k,
    {
        let e = g.edges[k];
        let ghost head = links_upto(g.edges@, k as nat);
        match e.kind {
            EdgeKind::Contains => {},
            _ => {
                items.push(Item::Link(e));
                assert(items@ == nested + head.push(Item::Link(e)));
            },
        }
        k += 1;
    }
    items
}

} // verus!
