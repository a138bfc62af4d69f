//! The derived graph: the nodes and edges that a picture is drawn from.
//!
//! A node is a system, a set of systems or a resource. Containment is a
//! forest: every node names at most one container, which is a set, and a
//! level that grows strictly from a container to what it holds, so that no
//! chain of containers can come back to where it began.

use vstd::prelude::*;
use crate::seqs::gather;

verus! {

/// What a node stands for.
#[derive(Clone, Copy, PartialEq, Eq, Debug, Structural)]
pub enum NodeKind {
    System,
    SystemSet,
    Resource,
}

/// What an edge says of the two nodes it joins.
#[derive(Clone, Copy, PartialEq, Eq, Debug, Structural)]
pub enum EdgeKind {
    /// `from` runs before `to`.
    Order,
    /// `from` is the set that directly holds `to`.
    Contains,
    /// `from` and `to` touch the same data and nothing orders them.
    Ambiguous,
    /// The system `from` reads the resource `to`.
    Read,
    /// The system `from` writes the resource `to`.
    Write,
}

/// An edge between two nodes, each given by its index in the graph.
#[derive(Clone, Copy, PartialEq, Eq, Debug)]
pub struct Edge {
    pub kind: EdgeKind,
    pub from: usize,
    pub to: usize,
}

/// The place of a node in the graph.
#[derive(Clone, Copy, PartialEq, Eq, Debug)]
pub struct Node {
    pub kind: NodeKind,
    /// The set that directly holds this node; `None` at the top level.
    pub container: Option<usize>,
    /// A rank that is strictly greater than the container's.
    pub level: usize,
}

/// The texts of a node.
#[derive(Clone, Debug)]
pub struct Name {
    /// The full name the node is told apart by: schedule, kind and name.
    pub key: String,
    /// What the picture shows.
    pub label: String,
}

/// A derived graph. `visible[i]` says whether node `i` is drawn.
#[derive(Clone, Debug)]
pub struct Graph {
    pub nodes: Vec<Node>,
    pub visible: Vec<bool>,
    pub names: Vec<Name>,
    pub edges: Vec<Edge>,
}

/// Node `i` has a level below the number of nodes and, if it has a
/// container, that is a set of strictly lower level. Resources stand at the
/// top level.
pub open spec fn node_wf(nodes: Seq<Node>, i: int) -> bool {
    &&& nodes[i].level < nodes.len()
    &&& match nodes[i].container {
        None => true,
        Some(c) => {
            &&& c < nodes.len()
            &&& nodes[c as int].kind == NodeKind::SystemSet
            &&& nodes[c as int].level < nodes[i].level
            &&& nodes[i].kind != NodeKind::Resource
        },
    }
}

/// Every node is well formed: containment is a forest, and the nodes can
/// be numbered.
pub open spec fn nodes_wf(nodes: Seq<Node>) -> bool {
    &&& nodes.len() <= usize::MAX
    &&& forall|i: int| 0 <= i < nodes.len() ==> #[trigger] node_wf(nodes, i)
}

/// Every edge joins two nodes of the graph.
pub open spec fn edges_wf(n: nat, edges: Seq<Edge>) -> bool {
    forall|k: int| 0 <= k < edges.len() ==> (#[trigger] edges[k]).from < n && edges[k].to < n
}

/// Whatever is drawn stands inside something drawn.
pub open spec fn visible_closed(nodes: Seq<Node>, visible: Seq<bool>) -> bool {
    forall|i: int|
        0 <= i < nodes.len() && #[trigger] visible[i] && nodes[i].container is Some ==> visible[nodes[i].container->Some_0 as int]
}

/// Whether the set `a` holds node `x`, directly or through other sets.
pub open spec fn ancestor(nodes: Seq<Node>, a: int, x: int) -> bool
    decreases nodes[x].level,
    when nodes_wf(nodes) && 0 <= x < nodes.len()
{
    match nodes[x].container {
        None => false,
        Some(c) => {
            if node_wf(nodes, x) {
                c == a || ancestor(nodes, a, c as int)
            } else {
                false
            }
        },
    }
}

/// The keys of `names`, as text.
pub open spec fn name_keys(names: Seq<Name>) -> Seq<Seq<char>> {
    Seq::new(names.len(), |i: int| names[i].key@)
}

/// The labels of `names`, as text.
pub open spec fn name_labels(names: Seq<Name>) -> Seq<Seq<char>> {
    Seq::new(names.len(), |i: int| names[i].label@)
}

impl Graph {
    /// The invariant of a derived graph.
    pub open spec fn wf(&self) -> bool {
        &&& nodes_wf(self.nodes@)
        &&& self.visible@.len() == self.nodes@.len()
        &&& self.names@.len() == self.nodes@.len()
        &&& edges_wf(self.nodes@.len(), self.edges@)
        &&& visible_closed(self.nodes@, self.visible@)
    }

    /// The keys of the nodes, as text.
    pub open spec fn keys(&self) -> Seq<Seq<char>> {
        name_keys(self.names@)
    }

    /// The labels of the nodes, as text.
    pub open spec fn labels(&self) -> Seq<Seq<char>> {
        name_labels(self.names@)
    }
}

/// An ancestor is a set of the graph, of a level below its descendant's.
pub proof fn lemma_ancestor_below(nodes: Seq<Node>, a: int, x: int)
    requires
        nodes_wf(nodes),
        0 <= x < nodes.len(),
        ancestor(nodes, a, x),
    ensures
        0 <= a < nodes.len(),
        nodes[a].kind == NodeKind::SystemSet,
        nodes[a].level < nodes[x].level,
    decreases nodes[x].level,
{
    assert(node_wf(nodes, x));
    let c = nodes[x].container->Some_0 as int;
    if c != a {
        lemma_ancestor_below(nodes, a, c);
    }
}

/// What holds a container holds its contents.
pub proof fn lemma_ancestor_trans(nodes: Seq<Node>, a: int, b: int, x: int)
    requires
        nodes_wf(nodes),
        0 <= x < nodes.len(),
        ancestor(nodes, b, x),
        ancestor(nodes, a, b),
    ensures
        ancestor(nodes, a, x),
    decreases nodes[x].level,
{
    assert(node_wf(nodes, x));
    let c = nodes[x].container->Some_0 as int;
    if c != b {
        lemma_ancestor_trans(nodes, a, b, c);
    }
}

/// Whether `a` is `x` itself or holds it: the exec test for containment.
pub fn holds(nodes: &Vec<Node>, a: usize, x: usize) -> (r: bool)
    requires
        nodes_wf(nodes@),
        x < nodes.len(),
    ensures
        r == (a == x || ancestor(nodes@, a as int, x as int)),
{
    let mut cur = x;
    loop
        invariant
            nodes_wf(nodes@),
            cur < nodes.len(),
            (a == x || ancestor(nodes@, a as int, x as int)) == (a == cur || ancestor(
                nodes@,
                a as int,
                cur as int,
            )),
        decreases nodes[cur as int].level,
    {
        if cur == a {
            return true;
        }
        assert(node_wf(nodes@, cur as int));
        match nodes[cur].container {
            None => {
                return false;
            },
            Some(c) => {
                cur = c;
            },
        }
    }
}

/// The containment edge that ends in node `i`, if it has a container.
pub open spec fn contains_edge_at(nodes: Seq<Node>, i: int) -> Option<Edge> {
    match nodes[i].container {
        Some(c) => Some(Edge { kind: EdgeKind::Contains, from: c, to: i as usize }),
        None => None,
    }
}

/// The containment edges of the first `n` nodes: one from each container to
/// each node it directly holds, in node order.
pub open spec fn contains_edges_upto(nodes: Seq<Node>, n: nat) -> Seq<Edge> {
    gather(n, |i: int| contains_edge_at(nodes, i))
}

/// The containment edges that the containers of the nodes stand for.
pub open spec fn contains_edges(nodes: Seq<Node>) -> Seq<Edge> {
    contains_edges_upto(nodes, nodes.len())
}

impl Graph {
    /// The containment of the graph as a list of edges. They form a forest:
    /// no node is the target of two of them.
    pub fn containment(&self) -> (r: Vec<Edge>)
        ensures
            r@ == contains_edges(self.nodes@),
    {
        let mut r: Vec<Edge> = Vec::new();
        let mut i: usize = 0;
        while i < self.nodes.len()
            invariant
                i <= self.nodes.len(),
                r@ == contains_edges_upto(self.nodes@, i as nat),
            decreases self.nodes.len() - i,
        {
            match self.nodes[i].container {
                Some(c) => {
                    r.push(Edge { kind: EdgeKind::Contains, from: c, to: i });
                },
                None => {},
            }
            i += 1;
        }
        r
    }
}

impl Graph {
    /// Whether the graph keeps its invariant: the test that a caller makes
    /// who put a graph together by hand.
    #[verifier::loop_isolation(false)]
    pub fn well_formed(&self) -> (ok: bool)
        ensures
            ok == self.wf(),
    {
        let n = self.nodes.len();
        if self.visible.len() != n || self.names.len() != n {
            return false;
        }
        let mut i: usize = 0;
        while i < n
            invariant
                i <= n,
                forall|j: int| 0 <= j < i ==> #[trigger] node_wf(self.nodes@, j),
                forall|j: int|
                    0 <= j < i && #[trigger] self.visible@[j] && self.nodes@[j].container is Some
                        ==> self.visible@[self.nodes@[j].container->Some_0 as int],
            decreases n - i,
        {
            let x = self.nodes[i];
            if x.level >= n {
                assert(!node_wf(self.nodes@, i as int));
                return false;
            }
            match x.container {
                None => {},
                Some(c) => {
                    if c >= n {
                        assert(!node_wf(self.nodes@, i as int));
                        return false;
                    }
                    let holder = self.nodes[c];
                    let fits = match holder.kind {
                        NodeKind::SystemSet => holder.level < x.level,
                        _ => false,
                    } && match x.kind {
                        NodeKind::Resource => false,
                        _ => true,
                    };
                    if !fits {
                        assert(!node_wf(self.nodes@, i as int));
                        return false;
                    }
                    if self.visible[i] && !self.visible[c] {
                        return false;
                    }
                },
            }
            i += 1;
        }
        let mut k: usize = 0;
        while k < self.edges.len()
            invariant
                k <= self.edges.len(),
                edges_wf(n as nat, self.edges@.subrange(0, k as int)),
            decreases self.edges.len() - k,
        {
            if self.edges[k].from >= n || self.edges[k].to >= n {
                return false;
            }
            assert forall|j: int| 0 <= j < k + 1 implies (#[trigger] self.edges@.subrange(
                0,
                k + 1,
            )[j]).from < n && self.edges@.subrange(0, k + 1)[j].to < n by {
                if j < k {
                    assert(self.edges@.subrange(0, k as int)[j] == self.edges@[j]);
                }
            }
            k += 1;
        }
        assert(self.edges@.subrange(0, k as int) == self.edges@);
        true
    }
}

} // verus!
