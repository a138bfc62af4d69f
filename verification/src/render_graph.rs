//! The picture of a render graph: its nodes inside their sub graphs, and an
//! edge wherever one node feeds or precedes another. A render graph is
//! drawn as a schedule is: a node as a system, a sub graph as a set.

use vstd::prelude::*;
use crate::extract::copy_text;
use crate::model::{GraphError, NodeRef, ScheduleData, SetInfo, SystemInfo};
use crate::picture::Style;
use crate::schedule_graph::{askable, gives, mask_fits, mask_of, render_schedule, schedule_text};
use crate::seqs::gather;

verus! {

/// A node of a render graph.
#[derive(Clone, Debug)]
pub struct RenderNodeInfo {
    pub name: String,
    /// The sub graph that holds the node; `None` for the main graph.
    pub graph: Option<usize>,
}

/// A sub graph of a render graph.
#[derive(Clone, Debug)]
pub struct SubGraphInfo {
    pub name: String,
    /// The sub graph that holds this one; `None` for the main graph.
    pub parent: Option<usize>,
}

/// A render graph.
#[derive(Clone, Debug)]
pub struct RenderGraphData {
    pub name: String,
    pub nodes: Vec<RenderNodeInfo>,
    pub sub_graphs: Vec<SubGraphInfo>,
    /// The node at the first position feeds or precedes that at the second.
    pub edges: Vec<(usize, usize)>,
}

/// What to show of a render graph.
pub struct Settings<F> {
    /// Which nodes to show; `None` shows all.
    pub include_node: Option<F>,
    pub style: Style,
}

impl<F> Default for Settings<F> {
    /// Everything is shown.
    fn default() -> (s: Self)
        ensures
            s.include_node is None,
            s.style.transitive_reduction,
            !s.style.inline_single_member_sets,
    {
        Settings::new()
    }
}

impl<F> Settings<F> {
    /// Everything is shown.
    pub fn new() -> (s: Self)
        ensures
            s.include_node is None,
            s.style.transitive_reduction,
            !s.style.inline_single_member_sets,
    {
        Settings {
            include_node: None,
            style: Style { transitive_reduction: true, inline_single_member_sets: false },
        }
    }
}

/// The containment entry of sub graph `j`, if it stands in another.
pub open spec fn sub_entry(rg: &RenderGraphData, j: int) -> Option<(usize, NodeRef)> {
    match rg.sub_graphs@[j].parent {
        Some(p) => Some((p, NodeRef::SystemSet(j as usize))),
        None => None,
    }
}

/// The containment entry of node `i`, if it stands in a sub graph.
pub open spec fn node_entry(rg: &RenderGraphData, i: int) -> Option<(usize, NodeRef)> {
    match rg.nodes@[i].graph {
        Some(g) => Some((g, NodeRef::System(i as usize))),
        None => None,
    }
}

/// `sub_entry` as a selection.
pub open spec fn sub_entry_fn(rg: &RenderGraphData) -> spec_fn(int) -> Option<(usize, NodeRef)> {
    |j: int| sub_entry(rg, j)
}

/// `node_entry` as a selection.
pub open spec fn node_entry_fn(rg: &RenderGraphData) -> spec_fn(int) -> Option<(usize, NodeRef)> {
    |i: int| node_entry(rg, i)
}

/// The containment entries of the first `n` sub graphs.
pub open spec fn sub_entries(rg: &RenderGraphData, n: nat) -> Seq<(usize, NodeRef)> {
    gather(n, sub_entry_fn(rg))
}

/// The containment entries of the first `n` nodes.
pub open spec fn node_entries(rg: &RenderGraphData, n: nat) -> Seq<(usize, NodeRef)> {
    gather(n, node_entry_fn(rg))
}

/// `d` is the render graph `rg` written as a schedule: its nodes as systems
/// that touch no resource, its sub graphs as sets, containment first of the
/// sub graphs and then of the nodes, its edges as ordering, no ambiguities.
pub open spec fn written_as(rg: &RenderGraphData, d: &ScheduleData) -> bool {
    &&& d.label@ == rg.name@
    &&& d.systems@.len() == rg.nodes@.len()
    &&& forall|i: int|
        0 <= i < rg.nodes@.len() ==> (#[trigger] d.systems@[i]).name@ == rg.nodes@[i].name@
            && d.systems@[i].reads@.len() == 0 && d.systems@[i].writes@.len() == 0
    &&& d.sets@.len() == rg.sub_graphs@.len()
    &&& forall|j: int|
        0 <= j < rg.sub_graphs@.len() ==> (#[trigger] d.sets@[j]).name@ == rg.sub_graphs@[j].name@
    &&& d.hierarchy@ == sub_entries(rg, rg.sub_graphs@.len()) + node_entries(rg, rg.nodes@.len())
    &&& d.dependency@ == Seq::new(
        rg.edges@.len(),
        |k: int| (NodeRef::System(rg.edges@[k].0), NodeRef::System(rg.edges@[k].1)),
    )
    &&& d.ambiguities@.len() == 0
}

/// Writes a render graph as a schedule.
#[verifier::loop_isolation(false)]
pub fn as_schedule(rg: &RenderGraphData) -> (d: ScheduleData)
    ensures
        written_as(rg, &d),
{
    let mut systems: Vec<SystemInfo> = Vec::new();
    let mut hierarchy: Vec<(usize, NodeRef)> = Vec::new();
    let mut sets: Vec<SetInfo> = Vec::new();
    let mut j: usize = 0;
    while j < rg.sub_graphs.len()
        invariant
            j <= rg.sub_graphs.len(),
            sets@.len() == j,
            forall|k: int| 0 <= k < j ==> (#[trigger] sets@[k]).name@ == rg.sub_graphs@[k].name@,
            hierarchy@ == sub_entries(rg, j as nat),
        decreases rg.sub_graphs.len() - j,
    {
        sets.push(SetInfo { name: copy_text(rg.sub_graphs[j].name.as_str()) });
        match rg.sub_graphs[j].parent {
            Some(p) => {
                hierarchy.push((p, NodeRef::SystemSet(j)));
            },
            None => {},
        }
        j += 1;
    }
    let ghost subs = hierarchy@;
    let mut i: usize = 0;
    assert(hierarchy@ == subs + node_entries(rg, 0));
    while i < rg.nodes.len()
        invariant
            i <= rg.nodes.len(),
            systems@.len() == i,
            forall|k: int|
                0 <= k < i ==> (#[trigger] systems@[k]).name@ == rg.nodes@[k].name@
                    && systems@[k].reads@.len() == 0 && systems@[k].writes@.len() == 0,
            hierarchy@ == subs + node_entries(rg, i as nat),
        decreases rg.nodes.len() - i,
    {
        systems.push(
            SystemInfo {
                name: copy_text(rg.nodes[i].name.as_str()),
                reads: Vec::new(),
                writes: Vec::new(),
            },
        );
        let ghost head = node_entries(rg, i as nat);
        match rg.nodes[i].graph {
            Some(g) => {
                hierarchy.push((g, NodeRef::System(i)));
                assert(hierarchy@ == subs + head.push((g, NodeRef::System(i))));
            },
            None => {},
        }
        i += 1;
    }
    let mut dependency: Vec<(NodeRef, NodeRef)> = Vec::new();
    let mut k: usize = 0;
    while k < rg.edges.len()
        invariant
            k <= rg.edges.len(),
            dependency@.len() == k,
            forall|e: int|
                0 <= e < k ==> #[trigger] dependency@[e] == (
                    NodeRef::System(rg.edges@[e].0),
                    NodeRef::System(rg.edges@[e].1),
                ),
        decreases rg.edges.len() - k,
    {
        let e = rg.edges[k];
        dependency.push((NodeRef::System(e.0), NodeRef::System(e.1)));
        k += 1;
    }
    let d = ScheduleData {
        label: copy_text(rg.name.as_str()),
        systems,
        sets,
        hierarchy,
        dependency,
        ambiguities: Vec::new(),
    };
    assert(d.dependency@ =~= Seq::new(
        rg.edges@.len(),
        |k: int| (NodeRef::System(rg.edges@[k].0), NodeRef::System(rg.edges@[k].1)),
    ));
    d
}

/// Draws a render graph as DOT text. The predicate of the settings is
/// asked once about every node. What is drawn is what `render_schedule`
/// draws of the graph written as a schedule, without ambiguities.
pub fn render_graph_dot<F: Fn(&RenderNodeInfo) -> bool>(rg: &RenderGraphData, settings: &Settings<F>) -> (r:
    Result<String, GraphError>)
    requires
        askable::<RenderNodeInfo, F>(settings.include_node),
    ensures
        exists|d: ScheduleData, mask: Seq<bool>|
            written_as(rg, &d) && mask_fits(rg.nodes@, settings.include_node, mask) && gives(
                r,
                #[trigger] schedule_text(&d, mask, false, settings.style),
            ),
{
    let d = as_schedule(rg);
    let mask = mask_of(&rg.nodes, &settings.include_node);
    let r = render_schedule(&d, &mask, false, settings.style);
    assert(gives(r, schedule_text(&d, mask@, false, settings.style)));
    r
}

} // verus!
