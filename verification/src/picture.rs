//! From a derived graph to its picture: prune, inline where asked, merge,
//! reduce where asked, name, plan and write.

use vstd::prelude::*;
use crate::collapse::{collapse, collapsed_nodes, collapsed_visible};
use crate::graph::{Edge, Graph, Node, edges_wf};
use crate::ident::{assign_ids, node_ids};
use crate::plan::{Item, lemma_plan_well_formed, make_plan, plan};
use crate::reduce::{reduce, reduced};
use crate::render::{document_text, render, text_views};
use crate::simplify::{edges_shown, merge, merged, prune, pruned_edges, pruned_visible};

verus! {

/// The choices of presentation that every kind of picture has.
#[derive(Clone, Copy, PartialEq, Eq, Debug)]
pub struct Style {
    /// Leave out ordering edges that other ordering edges imply.
    pub transitive_reduction: bool,
    /// Leave out the frame of a set that holds a single member.
    pub inline_single_member_sets: bool,
}

impl Default for Style {
    /// Redundant ordering edges are left out; every set keeps its frame.
    fn default() -> (s: Self)
        ensures
            s.transitive_reduction,
            !s.inline_single_member_sets,
    {
        Style { transitive_reduction: true, inline_single_member_sets: false }
    }
}

/// The nodes that are drawn from.
pub open spec fn staged_nodes(
    nodes: Seq<Node>,
    visible: Seq<bool>,
    edges: Seq<Edge>,
    style: Style,
) -> Seq<Node> {
    if style.inline_single_member_sets {
        collapsed_nodes(
            nodes,
            pruned_visible(nodes, visible, edges),
            pruned_edges(nodes, visible, edges),
        )
    } else {
        nodes
    }
}

/// Which nodes are drawn.
pub open spec fn staged_visible(
    nodes: Seq<Node>,
    visible: Seq<bool>,
    edges: Seq<Edge>,
    style: Style,
) -> Seq<bool> {
    if style.inline_single_member_sets {
        collapsed_visible(
            nodes,
            pruned_visible(nodes, visible, edges),
            pruned_edges(nodes, visible, edges),
        )
    } else {
        pruned_visible(nodes, visible, edges)
    }
}

/// The edges before reduction: pruned, then merged. Whether two systems
/// count as ordered is read from these, never from the reduced edges.
pub open spec fn unreduced_edges(nodes: Seq<Node>, visible: Seq<bool>, edges: Seq<Edge>) -> Seq<Edge> {
    merged(pruned_edges(nodes, visible, edges))
}

/// The edges that are drawn.
pub open spec fn staged_edges(
    nodes: Seq<Node>,
    visible: Seq<bool>,
    edges: Seq<Edge>,
    style: Style,
) -> Seq<Edge> {
    if style.transitive_reduction {
        reduced(staged_nodes(nodes, visible, edges, style), unreduced_edges(nodes, visible, edges))
    } else {
        unreduced_edges(nodes, visible, edges)
    }
}

/// The statements of the picture.
pub open spec fn picture_plan(
    nodes: Seq<Node>,
    visible: Seq<bool>,
    edges: Seq<Edge>,
    style: Style,
) -> Seq<Item> {
    plan(
        staged_nodes(nodes, visible, edges, style),
        staged_visible(nodes, visible, edges, style),
        staged_edges(nodes, visible, edges, style),
    )
}

/// The text of the picture of a graph.
pub open spec fn picture_text(
    title: Seq<char>,
    nodes: Seq<Node>,
    visible: Seq<bool>,
    edges: Seq<Edge>,
    keys: Seq<Seq<char>>,
    labels: Seq<Seq<char>>,
    style: Style,
) -> Seq<char> {
    document_text(
        title,
        staged_nodes(nodes, visible, edges, style),
        node_ids(keys),
        labels,
        picture_plan(nodes, visible, edges, style),
    )
}

/// Edges taken from among edges that join shown nodes of the graph do so too.
pub proof fn lemma_taken_edges(n: nat, visible: Seq<bool>, edges: Seq<Edge>, taken: Seq<Edge>)
    requires
        edges_wf(n, edges),
        edges_shown(visible, edges),
        forall|k: int| 0 <= k < taken.len() ==> edges.contains(#[trigger] taken[k]),
    ensures
        edges_wf(n, taken),
        edges_shown(visible, taken),
{
    assert forall|k: int| 0 <= k < taken.len() implies (#[trigger] taken[k]).from < n && taken[k].to
        < n && visible[taken[k].from as int] && visible[taken[k].to as int] by {
        let j = choose|j: int| 0 <= j < edges.len() && edges[j] == taken[k];
        assert(edges[j].from < n);
        assert(visible[edges[j].from as int]);
    }
}

/// Draws a graph: the DOT text of its picture under `title`.
pub fn draw(g: Graph, title: &str, style: Style) -> (s: String)
    requires
        g.wf(),
    ensures
        s@ == picture_text(title@, g.nodes@, g.visible@, g.edges@, g.keys(), g.labels(), style),
{
    let ghost keys = g.keys();
    let ghost labels = g.labels();
    let pruned = prune(g);
    let staged = if style.inline_single_member_sets {
        collapse(pruned)
    } else {
        pruned
    };
    let kept = merge(&staged.edges);
    proof {
        lemma_taken_edges(staged.nodes@.len(), staged.visible@, staged.edges@, kept@);
    }
    let drawn = if style.transitive_reduction {
        let r = reduce(&staged.nodes, &kept);
        proof {
            lemma_taken_edges(staged.nodes@.len(), staged.visible@, kept@, r@);
        }
        r
    } else {
        kept
    };
    let last = Graph { nodes: staged.nodes, visible: staged.visible, names: staged.names, edges: drawn };
    let items = make_plan(&last);
    proof {
        lemma_plan_well_formed(last.nodes@, last.visible@, last.edges@);
    }
    let ids = assign_ids(&last.names);
    assert(text_views(ids@) =~= node_ids(keys));
    render(title, &last.nodes, &last.names, &ids, &items)
}

} // verus!
