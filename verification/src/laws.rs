//! What holds of every picture, proved once for all inputs.

use vstd::prelude::*;
use crate::collapse::lemma_collapsed_wf;
use crate::data_graph::{DataGraphContext, access_edges, bad_access, bad_access_pred, block_check, data_text, lemma_parts_wf, parts_upto, read_edges, resource_parts, with_schedule, write_edges};
use crate::extract::{lemma_schedule_wf, ambiguity_edge_at, ambiguity_edge_fn, ambiguity_edges_upto, bad_ambiguity, bad_dependency, bad_hierarchy, child_is, container_of, least_holder, lemma_least_holder, containers, endless_pred, order_edge_at, order_edge_fn, order_edges_upto, refs_check, schedule_check, schedule_edges, schedule_keys, schedule_labels, schedule_nodes, schedule_visible};
use crate::graph::{Edge, EdgeKind, Node, edges_wf, nodes_wf, visible_closed};
use crate::model::{GraphError, HostData, NodeRef, ScheduleData, SystemInfo};
use crate::render_graph::{RenderGraphData, RenderNodeInfo, node_entry_fn, sub_entry_fn, written_as};
use crate::schedule_graph::{gives, mask_fits};
use crate::data_graph::{context_schedules, contexts_fit};
use crate::{data_drawn, labelled_pred, render_drawn, schedule_drawn, schedule_position};
use crate::picture::{Style, lemma_taken_edges, picture_plan, staged_edges, staged_nodes, staged_visible, unreduced_edges};
use crate::plan::{Item, balanced, declares, items_within, lemma_plan_well_formed, links_declared, open_from};
use crate::reach::{live_links, order_links, reaches};
use crate::reduce::{lemma_live_links, lemma_turn_off, live_edge_at, live_edge_fn, redundant, reduced, reduced_alive};
use crate::render::depth_of;
use crate::schedule_graph::schedule_text;
use crate::seqs::{lemma_first_index, lemma_first_index_agree, lemma_gather_agree, lemma_gather_contains};
use crate::simplify::{edges_shown, lemma_pruned_closed, merged, merged_at, merged_fn, pruned_edges, pruned_visible, shown_edge_at, shown_edge_fn, survives};

verus! {

/// What pruning leaves of the edges was among them, and joins nodes that
/// are still drawn.
pub proof fn lemma_pruned_edges(nodes: Seq<Node>, visible: Seq<bool>, edges: Seq<Edge>)
    requires
        edges_wf(nodes.len(), edges),
        visible.len() == nodes.len(),
    ensures
        edges_wf(nodes.len(), pruned_edges(nodes, visible, edges)),
        edges_shown(pruned_visible(nodes, visible, edges), pruned_edges(nodes, visible, edges)),
        forall|k: int|
            0 <= k < pruned_edges(nodes, visible, edges).len() ==> edges.contains(
                #[trigger] pruned_edges(nodes, visible, edges)[k],
            ),
{
    let shown = pruned_visible(nodes, visible, edges);
    let out = pruned_edges(nodes, visible, edges);
    assert forall|k: int| 0 <= k < out.len() implies edges.contains(#[trigger] out[k])
        && out[k].from < nodes.len() && out[k].to < nodes.len() && shown[out[k].from as int]
        && shown[out[k].to as int] by {
        assert(out.contains(out[k]));
        lemma_gather_contains(edges.len(), shown_edge_fn(shown, edges), out[k]);
        let j = choose|j: int|
            0 <= j < edges.len() && #[trigger] shown_edge_fn(shown, edges)(j) == Some(out[k]);
        assert(shown_edge_at(shown, edges, j) == Some(out[k]));
        assert(edges[j] == out[k]);
    }
}

/// What merging leaves of the edges was among them.
pub proof fn lemma_merged_subset(edges: Seq<Edge>)
    ensures
        forall|k: int| 0 <= k < merged(edges).len() ==> edges.contains(#[trigger] merged(edges)[k]),
{
    let out = merged(edges);
    assert forall|k: int| 0 <= k < out.len() implies edges.contains(#[trigger] out[k]) by {
        assert(out.contains(out[k]));
        lemma_gather_contains(edges.len(), merged_fn(edges), out[k]);
        let j = choose|j: int| 0 <= j < edges.len() && #[trigger] merged_fn(edges)(j) == Some(out[k]);
        assert(merged_at(edges, j) == Some(out[k]));
        assert(edges[j] == out[k]);
    }
}

/// However many edges have been looked at, one decision is kept for each
/// edge, and which node reaches which is what it was.
pub proof fn lemma_reduced_alive(nodes: Seq<Node>, edges: Seq<Edge>, k: nat, a: int, b: int)
    requires
        k <= edges.len(),
    ensures
        reduced_alive(nodes, edges, k).len() == edges.len(),
        reaches(live_links(edges, reduced_alive(nodes, edges, k)), a, b) <==> reaches(
            order_links(edges),
            a,
            b,
        ),
    decreases k,
{
    if k > 0 {
        let prev = reduced_alive(nodes, edges, (k - 1) as nat);
        lemma_reduced_alive(nodes, edges, (k - 1) as nat, a, b);
        if redundant(nodes, edges, prev, k - 1) {
            lemma_turn_off(edges, prev, k - 1, a, b);
        }
    }
}

/// Transitive reduction never changes which node reaches which along
/// ordering edges: for all `a` and `b`, `a` reaches `b` before reduction
/// exactly if it does after.
pub proof fn law_reduction_keeps_reach(nodes: Seq<Node>, edges: Seq<Edge>, a: int, b: int)
    ensures
        reaches(order_links(edges), a, b) <==> reaches(order_links(reduced(nodes, edges)), a, b),
{
    lemma_reduced_alive(nodes, edges, edges.len(), a, b);
    lemma_live_links(edges, reduced_alive(nodes, edges, edges.len()));
}

/// What reduction leaves of the edges was among them.
pub proof fn lemma_reduced_subset(nodes: Seq<Node>, edges: Seq<Edge>)
    ensures
        forall|k: int|
            0 <= k < reduced(nodes, edges).len() ==> edges.contains(
                #[trigger] reduced(nodes, edges)[k],
            ),
{
    let alive = reduced_alive(nodes, edges, edges.len());
    let out = reduced(nodes, edges);
    assert forall|k: int| 0 <= k < out.len() implies edges.contains(#[trigger] out[k]) by {
        assert(out.contains(out[k]));
        lemma_gather_contains(edges.len(), live_edge_fn(edges, alive), out[k]);
        let j = choose|j: int|
            0 <= j < edges.len() && #[trigger] live_edge_fn(edges, alive)(j) == Some(out[k]);
        assert(live_edge_at(edges, alive, j) == Some(out[k]));
        assert(edges[j] == out[k]);
    }
}

/// What is counted as open by the plan is what the writer has open.
pub proof fn lemma_depth_of(items: Seq<Item>)
    ensures
        open_from(items, 0) is Some ==> depth_of(items) == open_from(items, 0)->Some_0,
    decreases items.len(),
{
    if items.len() > 0 {
        lemma_depth_of(items.drop_last());
    }
}

/// Every picture is a well-formed document: every cluster that opens
/// closes, in stack order, so that nothing is left for the end of the
/// document to close; every edge that is drawn joins two nodes that the
/// document declares; and the nodes that the document declares are exactly
/// those that are left to be drawn.
pub proof fn law_picture_well_formed(
    nodes: Seq<Node>,
    visible: Seq<bool>,
    edges: Seq<Edge>,
    style: Style,
)
    requires
        nodes_wf(nodes),
        visible.len() == nodes.len(),
        visible_closed(nodes, visible),
        edges_wf(nodes.len(), edges),
    ensures
        balanced(picture_plan(nodes, visible, edges, style)),
        depth_of(picture_plan(nodes, visible, edges, style)) == 0,
        links_declared(picture_plan(nodes, visible, edges, style)),
        items_within(nodes.len(), picture_plan(nodes, visible, edges, style)),
        forall|i: int|
            0 <= i < nodes.len() ==> (#[trigger] declares(
                picture_plan(nodes, visible, edges, style),
                i as usize,
            ) <==> staged_visible(nodes, visible, edges, style)[i]),
{
    let pv = pruned_visible(nodes, visible, edges);
    let pe = pruned_edges(nodes, visible, edges);
    lemma_pruned_closed(nodes, visible, edges);
    lemma_pruned_edges(nodes, visible, edges);
    let sn = staged_nodes(nodes, visible, edges, style);
    let sv = staged_visible(nodes, visible, edges, style);
    if style.inline_single_member_sets {
        lemma_collapsed_wf(nodes, pv, pe);
    }
    let kept = unreduced_edges(nodes, visible, edges);
    lemma_merged_subset(pe);
    lemma_taken_edges(nodes.len(), sv, pe, kept);
    let drawn = staged_edges(nodes, visible, edges, style);
    if style.transitive_reduction {
        lemma_reduced_subset(sn, kept);
        lemma_taken_edges(nodes.len(), sv, kept, drawn);
    }
    lemma_plan_well_formed(sn, sv, drawn);
    lemma_depth_of(picture_plan(nodes, visible, edges, style));
}

/// Filtering is exact: where no set is inlined, the nodes that a picture
/// declares are exactly the systems that were to be shown, the sets that
/// hold such a system at any depth, and the resources that such a system
/// touches. A set that holds no shown system is not drawn.
pub proof fn law_filtering_exact(
    nodes: Seq<Node>,
    visible: Seq<bool>,
    edges: Seq<Edge>,
    style: Style,
    i: int,
)
    requires
        nodes_wf(nodes),
        visible.len() == nodes.len(),
        visible_closed(nodes, visible),
        edges_wf(nodes.len(), edges),
        !style.inline_single_member_sets,
        0 <= i < nodes.len(),
    ensures
        declares(picture_plan(nodes, visible, edges, style), i as usize) <==> survives(
            nodes,
            visible,
            edges,
            i,
        ),
{
    law_picture_well_formed(nodes, visible, edges, style);
}

/// The picture of every schedule that passes its check is a well-formed
/// document, whatever the mask and the style: its clusters close in stack
/// order, its edges join declared nodes, and the nodes it declares are the
/// nodes that are left to be drawn.
pub proof fn law_schedule_well_formed(
    data: &ScheduleData,
    mask: Seq<bool>,
    ambiguities: bool,
    style: Style,
)
    requires
        schedule_check(data) is Ok,
    ensures
        balanced(
            picture_plan(
                schedule_nodes(data),
                schedule_visible(data, mask),
                schedule_edges(data, ambiguities),
                style,
            ),
        ),
        links_declared(
            picture_plan(
                schedule_nodes(data),
                schedule_visible(data, mask),
                schedule_edges(data, ambiguities),
                style,
            ),
        ),
        forall|i: int|
            0 <= i < data.node_count() ==> (#[trigger] declares(
                picture_plan(
                    schedule_nodes(data),
                    schedule_visible(data, mask),
                    schedule_edges(data, ambiguities),
                    style,
                ),
                i as usize,
            ) <==> staged_visible(
                schedule_nodes(data),
                schedule_visible(data, mask),
                schedule_edges(data, ambiguities),
                style,
            )[i]),
{
    lemma_schedule_wf(data, mask, ambiguities);
    law_picture_well_formed(
        schedule_nodes(data),
        schedule_visible(data, mask),
        schedule_edges(data, ambiguities),
        style,
    );
}

/// Order and ambiguity exclude each other: in the edges of a schedule,
/// before anything is reduced, no pair of systems is joined by an ordering
/// edge, in either direction, and by an ambiguity edge.
pub proof fn law_order_excludes_ambiguity(data: &ScheduleData, ambiguous: Edge, order: Edge)
    requires
        refs_check(data) is Ok,
        schedule_edges(data, true).contains(ambiguous),
        schedule_edges(data, true).contains(order),
        ambiguous.kind == EdgeKind::Ambiguous,
        order.kind == EdgeKind::Order,
    ensures
        !(order.from == ambiguous.from && order.to == ambiguous.to),
        !(order.from == ambiguous.to && order.to == ambiguous.from),
{
    let ns = data.systems@.len();
    let orders = order_edges_upto(data, data.dependency@.len());
    let rest = ambiguity_edges_upto(data, data.ambiguities@.len());
    let all = schedule_edges(data, true);
    lemma_first_index(data.dependency@.len(), bad_dependency(data));
    lemma_first_index(data.ambiguities@.len(), bad_ambiguity(data));
    // the ambiguity edge comes from a pair that nothing orders
    let ka = choose|k: int| 0 <= k < all.len() && all[k] == ambiguous;
    if ka < orders.len() {
        assert(orders.contains(orders[ka]));
        lemma_gather_contains(data.dependency@.len(), order_edge_fn(data), orders[ka]);
        let j = choose|j: int|
            0 <= j < data.dependency@.len() && #[trigger] order_edge_fn(data)(j) == Some(orders[ka]);
        assert(order_edge_at(data, j) == Some(orders[ka]));
    }
    let x = rest[ka - orders.len()];
    assert(rest.contains(x));
    lemma_gather_contains(data.ambiguities@.len(), ambiguity_edge_fn(data), x);
    let ja = choose|j: int|
        0 <= j < data.ambiguities@.len() && #[trigger] ambiguity_edge_fn(data)(j) == Some(x);
    assert(ambiguity_edge_at(data, ja) == Some(ambiguous));
    assert(!bad_ambiguity(data)(ja));
    assert(data.ambiguity_ok(ja));
    let a = data.ambiguities@[ja].0;
    let b = data.ambiguities@[ja].1;
    assert(!data.ordered(a, b));
    // the ordering edge comes from an ordering entry
    let ko = choose|k: int| 0 <= k < all.len() && all[k] == order;
    if ko >= orders.len() {
        let y = rest[ko - orders.len()];
        assert(rest.contains(y));
        lemma_gather_contains(data.ambiguities@.len(), ambiguity_edge_fn(data), y);
        let j = choose|j: int|
            0 <= j < data.ambiguities@.len() && #[trigger] ambiguity_edge_fn(data)(j) == Some(y);
        assert(ambiguity_edge_at(data, j) == Some(y));
    }
    assert(orders.contains(orders[ko]));
    lemma_gather_contains(data.dependency@.len(), order_edge_fn(data), orders[ko]);
    let jo = choose|j: int|
        0 <= j < data.dependency@.len() && #[trigger] order_edge_fn(data)(j) == Some(orders[ko]);
    assert(order_edge_at(data, jo) == Some(order));
    assert(!bad_dependency(data)(jo));
    assert(data.dependency_ok(jo));
    let e = data.dependency@[jo];
    if (order.from == ambiguous.from && order.to == ambiguous.to) || (order.from == ambiguous.to
        && order.to == ambiguous.from) {
        assert(order.from < ns && order.to < ns);
        assert(e.0 is System);
        assert(e.1 is System);
        assert(e == (NodeRef::System(order.from), NodeRef::System(order.to)));
        assert(data.dependency@.contains(e));
    }
}

/// What is drawn of the edges of a schedule is taken from its unreduced
/// edges, and these from the edges of the schedule: no step of the pipeline
/// adds an edge, so order and ambiguity exclude each other in every stage.
pub proof fn law_stages_take_edges(nodes: Seq<Node>, visible: Seq<bool>, edges: Seq<Edge>, style: Style)
    requires
        edges_wf(nodes.len(), edges),
        visible.len() == nodes.len(),
    ensures
        forall|k: int|
            0 <= k < unreduced_edges(nodes, visible, edges).len() ==> edges.contains(
                #[trigger] unreduced_edges(nodes, visible, edges)[k],
            ),
        forall|k: int|
            0 <= k < staged_edges(nodes, visible, edges, style).len() ==> unreduced_edges(
                nodes,
                visible,
                edges,
            ).contains(#[trigger] staged_edges(nodes, visible, edges, style)[k]),
{
    let pe = pruned_edges(nodes, visible, edges);
    let kept = unreduced_edges(nodes, visible, edges);
    lemma_pruned_edges(nodes, visible, edges);
    lemma_merged_subset(pe);
    assert forall|k: int| 0 <= k < kept.len() implies edges.contains(#[trigger] kept[k]) by {
        assert(pe.contains(kept[k]));
        let j = choose|j: int| 0 <= j < pe.len() && pe[j] == kept[k];
        assert(edges.contains(pe[j]));
    }
    if style.transitive_reduction {
        lemma_reduced_subset(staged_nodes(nodes, visible, edges, style), kept);
    } else {
        let drawn = staged_edges(nodes, visible, edges, style);
        assert forall|k: int| 0 <= k < drawn.len() implies kept.contains(#[trigger] drawn[k]) by {
            assert(kept[k] == drawn[k]);
        }
    }
}

/// Schedules with the same containment entries and as many systems choose
/// the same holders.
pub proof fn lemma_same_holder(a: &ScheduleData, b: &ScheduleData, node: int, k: nat)
    requires
        a.systems@.len() == b.systems@.len(),
        a.hierarchy@ == b.hierarchy@,
        k <= a.hierarchy@.len(),
    ensures
        least_holder(a, node, k) == least_holder(b, node, k),
    decreases k,
{
    if k > 0 {
        lemma_same_holder(a, b, node, (k - 1) as nat);
    }
}

/// The order of the containment entries is irrelevant: two schedules with
/// as many systems whose entries are the same, in whatever order and
/// however often each is repeated, give every node the same container.
pub proof fn law_containment_order_is_irrelevant(a: &ScheduleData, b: &ScheduleData, node: int)
    requires
        a.systems@.len() == b.systems@.len(),
        forall|e: (usize, NodeRef)| a.hierarchy@.contains(e) <==> b.hierarchy@.contains(e),
    ensures
        container_of(a, node) == container_of(b, node),
{
    lemma_least_holder(a, node, a.hierarchy@.len());
    lemma_least_holder(b, node, b.hierarchy@.len());
    let x = least_holder(a, node, a.hierarchy@.len());
    let y = least_holder(b, node, b.hierarchy@.len());
    if x is Some {
        let j = choose|j: int|
            0 <= j < a.hierarchy@.len() && #[trigger] child_is(a, node, j) && a.hierarchy@[j].0
                == x->Some_0;
        let e = a.hierarchy@[j];
        assert(a.hierarchy@.contains(e));
        assert(b.hierarchy@.contains(e));
        let i = choose|i: int| 0 <= i < b.hierarchy@.len() && b.hierarchy@[i] == e;
        assert(child_is(b, node, i));
    }
    if y is Some {
        let j = choose|j: int|
            0 <= j < b.hierarchy@.len() && #[trigger] child_is(b, node, j) && b.hierarchy@[j].0
                == y->Some_0;
        let e = b.hierarchy@[j];
        assert(b.hierarchy@.contains(e));
        assert(a.hierarchy@.contains(e));
        let i = choose|i: int| 0 <= i < a.hierarchy@.len() && a.hierarchy@[i] == e;
        assert(child_is(a, node, i));
    }
}

/// Two schedules hold the same state: the same identifier, the same names
/// of systems and sets, the same containment, ordering and ambiguities.
pub open spec fn same_state(a: &ScheduleData, b: &ScheduleData) -> bool {
    &&& a.label@ == b.label@
    &&& a.systems@.len() == b.systems@.len()
    &&& forall|i: int| 0 <= i < a.systems@.len() ==> (#[trigger] a.systems@[i]).name@ == b.systems@[i].name@
    &&& a.sets@.len() == b.sets@.len()
    &&& forall|j: int| 0 <= j < a.sets@.len() ==> (#[trigger] a.sets@[j]).name@ == b.sets@[j].name@
    &&& a.hierarchy@ == b.hierarchy@
    &&& a.dependency@ == b.dependency@
    &&& a.ambiguities@ == b.ambiguities@
}

/// Two schedules hold the same but for the order of their containment:
/// the same identifier, the same names of systems and sets, the same
/// ordering and ambiguities, and the same containment entries, in whatever
/// order and however often each is repeated.
pub open spec fn same_but_containment(a: &ScheduleData, b: &ScheduleData) -> bool {
    &&& a.label@ == b.label@
    &&& a.systems@.len() == b.systems@.len()
    &&& forall|i: int| 0 <= i < a.systems@.len() ==> (#[trigger] a.systems@[i]).name@ == b.systems@[i].name@
    &&& a.sets@.len() == b.sets@.len()
    &&& forall|j: int| 0 <= j < a.sets@.len() ==> (#[trigger] a.sets@[j]).name@ == b.sets@[j].name@
    &&& forall|e: (usize, NodeRef)| a.hierarchy@.contains(e) <==> b.hierarchy@.contains(e)
    &&& a.dependency@ == b.dependency@
    &&& a.ambiguities@ == b.ambiguities@
}

/// The order of the containment entries does not show: of two schedules
/// that hold the same but for that order, where the one passes its check
/// the other passes it too and has the same picture, character for
/// character. The scheduler hands its containment out in another order
/// after every build; the picture stays what it was.
pub proof fn law_containment_order_does_not_show(
    a: &ScheduleData,
    b: &ScheduleData,
    mask: Seq<bool>,
    ambiguities: bool,
    style: Style,
)
    requires
        same_but_containment(a, b),
        schedule_check(a) is Ok,
    ensures
        schedule_text(a, mask, ambiguities, style) == schedule_text(b, mask, ambiguities, style),
{
    let n = a.node_count();
    lemma_first_index(a.hierarchy@.len(), bad_hierarchy(a));
    assert forall|k: int| 0 <= k < b.hierarchy@.len() implies !#[trigger] bad_hierarchy(b)(k) by {
        let e = b.hierarchy@[k];
        assert(b.hierarchy@.contains(e));
        assert(a.hierarchy@.contains(e));
        let j = choose|j: int| 0 <= j < a.hierarchy@.len() && a.hierarchy@[j] == e;
        assert(!bad_hierarchy(a)(j));
        assert(a.hierarchy_ok(j));
        assert(b.hierarchy_ok(k));
    }
    crate::seqs::lemma_first_index_none(b.hierarchy@.len(), bad_hierarchy(b));
    lemma_first_index_agree(a.dependency@.len(), bad_dependency(a), bad_dependency(b));
    lemma_first_index_agree(a.ambiguities@.len(), bad_ambiguity(a), bad_ambiguity(b));
    assert(refs_check(b) is Ok);
    assert forall|j: int| #[trigger] container_of(a, j) == container_of(b, j) by {
        law_containment_order_is_irrelevant(a, b, j);
    }
    assert(containers(a) =~= containers(b));
    lemma_first_index_agree(n, endless_pred(a), endless_pred(b));
    assert(schedule_check(a) == schedule_check(b));
    assert(schedule_nodes(a) =~= schedule_nodes(b));
    assert(schedule_visible(a, mask) =~= schedule_visible(b, mask));
    assert(schedule_keys(a) =~= schedule_keys(b));
    assert(schedule_labels(a) =~= schedule_labels(b));
    lemma_gather_agree(a.dependency@.len(), order_edge_fn(a), order_edge_fn(b));
    lemma_gather_agree(a.ambiguities@.len(), ambiguity_edge_fn(a), ambiguity_edge_fn(b));
    assert(schedule_edges(a, ambiguities) == schedule_edges(b, ambiguities));
}

/// Rendering is a function of the state: two schedules in the same state,
/// drawn with the same answers of the predicate and the same settings, give
/// the same text, character for character, or the same error.
pub proof fn law_same_state_same_text(
    a: &ScheduleData,
    b: &ScheduleData,
    mask: Seq<bool>,
    ambiguities: bool,
    style: Style,
)
    requires
        same_state(a, b),
    ensures
        schedule_text(a, mask, ambiguities, style) == schedule_text(b, mask, ambiguities, style),
{
    let n = a.node_count();
    lemma_first_index_agree(a.hierarchy@.len(), bad_hierarchy(a), bad_hierarchy(b));
    lemma_first_index_agree(a.dependency@.len(), bad_dependency(a), bad_dependency(b));
    lemma_first_index_agree(a.ambiguities@.len(), bad_ambiguity(a), bad_ambiguity(b));
    assert(refs_check(a) == refs_check(b));
    assert forall|j: int| #[trigger] container_of(a, j) == container_of(b, j) by {
        lemma_same_holder(a, b, j, a.hierarchy@.len());
    }
    assert(containers(a) =~= containers(b));
    lemma_first_index_agree(n, endless_pred(a), endless_pred(b));
    assert(schedule_check(a) == schedule_check(b));
    assert(schedule_nodes(a) =~= schedule_nodes(b));
    assert(schedule_visible(a, mask) =~= schedule_visible(b, mask));
    assert(schedule_keys(a) =~= schedule_keys(b));
    assert(schedule_labels(a) =~= schedule_labels(b));
    lemma_gather_agree(a.dependency@.len(), order_edge_fn(a), order_edge_fn(b));
    lemma_gather_agree(a.ambiguities@.len(), ambiguity_edge_fn(a), ambiguity_edge_fn(b));
    assert(schedule_edges(a, ambiguities) == schedule_edges(b, ambiguities));
}

/// The picture of data access, and that of events, is a well-formed
/// document whenever the graph could be put together: its clusters close in
/// stack order, its edges join declared nodes, and the nodes it declares are
/// the nodes that are left to be drawn.
pub proof fn law_data_well_formed(
    host: &HostData,
    contexts: Seq<DataGraphContext>,
    events_only: bool,
    style: Style,
)
    requires
        parts_upto(host, contexts, events_only, contexts.len()) is Ok,
    ensures
        ({
            let p = parts_upto(host, contexts, events_only, contexts.len())->Ok_0;
            &&& balanced(picture_plan(p.nodes, p.visible, p.edges, style))
            &&& links_declared(picture_plan(p.nodes, p.visible, p.edges, style))
            &&& forall|i: int|
                0 <= i < p.nodes.len() ==> (#[trigger] declares(
                    picture_plan(p.nodes, p.visible, p.edges, style),
                    i as usize,
                ) <==> staged_visible(p.nodes, p.visible, p.edges, style)[i])
        }),
{
    assert(host.resources@.len() == host.resources.len());
    lemma_parts_wf(host, contexts, events_only, contexts.len());
    let p = parts_upto(host, contexts, events_only, contexts.len())->Ok_0;
    law_picture_well_formed(p.nodes, p.visible, p.edges, style);
}

/// Two schedules in the same state whose systems touch the same resources.
pub open spec fn same_access(a: &ScheduleData, b: &ScheduleData) -> bool {
    &&& same_state(a, b)
    &&& forall|i: int|
        0 <= i < a.systems@.len() ==> (#[trigger] a.systems@[i]).reads@ == b.systems@[i].reads@
            && a.systems@[i].writes@ == b.systems@[i].writes@
}

/// Two hosts hold the same state: the same names of resources, and
/// schedules in the same state with the same accesses, in the same order.
pub open spec fn same_host(a: &HostData, b: &HostData) -> bool {
    &&& a.resources@.len() == b.resources@.len()
    &&& forall|r: int| 0 <= r < a.resources@.len() ==> (#[trigger] a.resources@[r])@ == b.resources@[r]@
    &&& a.schedules@.len() == b.schedules@.len()
    &&& forall|j: int|
        0 <= j < a.schedules@.len() ==> same_access(&#[trigger] a.schedules@[j], &b.schedules@[j])
}

/// Two lists of contexts name the same schedules with the same masks.
pub open spec fn same_contexts(a: Seq<DataGraphContext>, b: Seq<DataGraphContext>) -> bool {
    &&& a.len() == b.len()
    &&& forall|k: int|
        0 <= k < a.len() ==> (#[trigger] a[k]).schedule == b[k].schedule && a[k].mask@ == b[k].mask@
}

/// Schedules with the same accesses give the same access edges.
pub proof fn lemma_same_access_edges(a: &ScheduleData, b: &ScheduleData, first: int, i: nat)
    requires
        same_access(a, b),
        i <= a.systems@.len(),
    ensures
        access_edges(a, first, i) == access_edges(b, first, i),
    decreases i,
{
    if i > 0 {
        lemma_same_access_edges(a, b, first, (i - 1) as nat);
        let x = a.systems@[i - 1];
        let y = b.systems@[i - 1];
        let node = (first + i - 1) as usize;
        assert(read_edges(x, node, x.reads@.len()) =~= read_edges(y, node, y.reads@.len()));
        assert(write_edges(x, node, x.writes@.len()) =~= write_edges(y, node, y.writes@.len()));
    }
}

/// The graph that is put together depends on the state of the host alone.
pub proof fn lemma_same_parts(
    a: &HostData,
    b: &HostData,
    ca: Seq<DataGraphContext>,
    cb: Seq<DataGraphContext>,
    events_only: bool,
    k: nat,
)
    requires
        same_host(a, b),
        same_contexts(ca, cb),
        k <= ca.len(),
    ensures
        parts_upto(a, ca, events_only, k) == parts_upto(b, cb, events_only, k),
    decreases k,
{
    if k == 0 {
        let p = resource_parts(a.resources@, events_only);
        let q = resource_parts(b.resources@, events_only);
        assert(p.nodes =~= q.nodes);
        assert(p.visible =~= q.visible);
        assert(p.keys =~= q.keys);
        assert(p.labels =~= q.labels);
    } else {
        lemma_same_parts(a, b, ca, cb, events_only, (k - 1) as nat);
        match parts_upto(a, ca, events_only, (k - 1) as nat) {
            Err(_) => {},
            Ok(p) => {
                let c = ca[k - 1];
                let d = cb[k - 1];
                if c.schedule < a.schedules@.len() {
                    let x = &a.schedules@[c.schedule as int];
                    let y = &b.schedules@[d.schedule as int];
                    assert(same_access(x, y));
                    let count = a.resources@.len();
                    assert forall|i: int| 0 <= i < x.systems@.len() implies #[trigger] bad_access_pred(
                        x,
                        count,
                    )(i) == bad_access_pred(y, count)(i) by {
                        assert(x.systems@[i].reads@ == y.systems@[i].reads@);
                        assert(bad_access(x, count, i) == bad_access(y, count, i));
                    }
                    lemma_first_index_agree(
                        x.systems@.len(),
                        bad_access_pred(x, count),
                        bad_access_pred(y, count),
                    );
                    assert(block_check(p.nodes.len(), x, count) == block_check(
                        p.nodes.len(),
                        y,
                        count,
                    ));
                    lemma_same_access_edges(x, y, (p.nodes.len() + 1) as int, x.systems@.len());
                    let u = with_schedule(p, x, c.mask@);
                    let v = with_schedule(p, y, d.mask@);
                    assert(u.nodes =~= v.nodes);
                    assert(u.visible =~= v.visible);
                    assert(u.keys =~= v.keys);
                    assert(u.labels =~= v.labels);
                    assert(u.edges =~= v.edges);
                }
            },
        }
    }
}

/// Rendering data access is a function of the state: two hosts in the same
/// state, drawn for contexts that name the same schedules with the same
/// masks, give the same text, character for character, or the same error.
pub proof fn law_same_host_same_text(
    a: &HostData,
    b: &HostData,
    ca: Seq<DataGraphContext>,
    cb: Seq<DataGraphContext>,
    events_only: bool,
    style: Style,
)
    requires
        same_host(a, b),
        same_contexts(ca, cb),
    ensures
        data_text(a, ca, events_only, style) == data_text(b, cb, events_only, style),
{
    lemma_same_parts(a, b, ca, cb, events_only, ca.len());
}

/// Two systems are alike: the same name, the same reads and writes.
pub open spec fn like_systems(x: &SystemInfo, y: &SystemInfo) -> bool {
    x.name@ == y.name@ && x.reads@ == y.reads@ && x.writes@ == y.writes@
}

/// The predicate on systems is a pure function of what a system holds: it
/// gives one answer about systems that are alike.
pub open spec fn answers_alike<F: Fn(&SystemInfo) -> bool>(wanted: Option<F>) -> bool {
    match wanted {
        None => true,
        Some(f) => forall|x: &SystemInfo, y: &SystemInfo, a: bool, b: bool|
            #![trigger call_ensures(f, (x,), a), call_ensures(f, (y,), b)]
            like_systems(x, y) && call_ensures(f, (x,), a) && call_ensures(f, (y,), b) ==> a == b,
    }
}

/// Two outcomes are the same: the same text, character for character, or
/// the same error.
pub open spec fn same_outcome(r1: Result<String, GraphError>, r2: Result<String, GraphError>) -> bool {
    match (r1, r2) {
        (Ok(s), Ok(t)) => s@ == t@,
        (Err(e), Err(f)) => e == f,
        _ => false,
    }
}

/// The picture of a schedule is determined by the state of the host and
/// the settings: for two hosts in the same state and a predicate that is a
/// pure function of what a system holds, whatever `schedule_graph_dot`
/// returns for the one it returns for the other.
pub proof fn law_schedule_picture_is_determined<F: Fn(&SystemInfo) -> bool>(
    a: &HostData,
    b: &HostData,
    label: Seq<char>,
    settings: &crate::schedule_graph::Settings<F>,
    r1: Result<String, GraphError>,
    r2: Result<String, GraphError>,
)
    requires
        same_host(a, b),
        answers_alike(settings.include_system),
        schedule_position(a, label) is Some,
        schedule_drawn(a, label, settings, r1),
        schedule_drawn(b, label, settings, r2),
    ensures
        same_outcome(r1, r2),
{
    assert forall|i: int| 0 <= i < a.schedules@.len() implies #[trigger] labelled_pred(a, label)(i)
        == labelled_pred(b, label)(i) by {
        assert(same_access(&a.schedules@[i], &b.schedules@[i]));
    }
    lemma_first_index_agree(a.schedules@.len(), labelled_pred(a, label), labelled_pred(b, label));
    lemma_first_index(a.schedules@.len(), labelled_pred(a, label));
    let p = schedule_position(a, label)->Some_0;
    let x = &a.schedules@[p];
    let y = &b.schedules@[p];
    assert(same_access(x, y));
    let m1 = choose|mask: Seq<bool>|
        mask_fits(x.systems@, settings.include_system, mask) && gives(
            r1,
            #[trigger] schedule_text(x, mask, settings.ambiguities, settings.style),
        );
    let m2 = choose|mask: Seq<bool>|
        mask_fits(y.systems@, settings.include_system, mask) && gives(
            r2,
            #[trigger] schedule_text(y, mask, settings.ambiguities, settings.style),
        );
    assert forall|i: int| 0 <= i < m1.len() implies m1[i] == m2[i] by {
        assert(like_systems(&x.systems@[i], &y.systems@[i]));
        match settings.include_system {
            None => {},
            Some(f) => {
                assert(call_ensures(f, (&x.systems@[i],), m1[i]));
                assert(call_ensures(f, (&y.systems@[i],), m2[i]));
            },
        }
    }
    assert(m1 =~= m2);
    law_same_state_same_text(x, y, m1, settings.ambiguities, settings.style);
}

/// A second call gives what the first gave: on one host, with a predicate
/// that is a pure function of what a system holds, any two outcomes of
/// `schedule_graph_dot` are the same.
pub proof fn law_schedule_picture_repeats<F: Fn(&SystemInfo) -> bool>(
    host: &HostData,
    label: Seq<char>,
    settings: &crate::schedule_graph::Settings<F>,
    r1: Result<String, GraphError>,
    r2: Result<String, GraphError>,
)
    requires
        answers_alike(settings.include_system),
        schedule_position(host, label) is Some,
        schedule_drawn(host, label, settings, r1),
        schedule_drawn(host, label, settings, r2),
    ensures
        same_outcome(r1, r2),
{
    assert(same_host(host, host));
    law_schedule_picture_is_determined(host, host, label, settings, r1, r2);
}

/// Two render graphs hold the same: the same name, the same nodes and sub
/// graphs with the same names in the same places, the same edges.
pub open spec fn same_render_graph(a: &RenderGraphData, b: &RenderGraphData) -> bool {
    &&& a.name@ == b.name@
    &&& a.nodes@.len() == b.nodes@.len()
    &&& forall|i: int|
        0 <= i < a.nodes@.len() ==> (#[trigger] a.nodes@[i]).name@ == b.nodes@[i].name@
            && a.nodes@[i].graph == b.nodes@[i].graph
    &&& a.sub_graphs@.len() == b.sub_graphs@.len()
    &&& forall|j: int|
        0 <= j < a.sub_graphs@.len() ==> (#[trigger] a.sub_graphs@[j]).name@
            == b.sub_graphs@[j].name@ && a.sub_graphs@[j].parent == b.sub_graphs@[j].parent
    &&& a.edges@ == b.edges@
}

/// Two render nodes are alike: the same name in the same sub graph.
pub open spec fn like_nodes(x: &RenderNodeInfo, y: &RenderNodeInfo) -> bool {
    x.name@ == y.name@ && x.graph == y.graph
}

/// The predicate on render nodes is a pure function of what a node holds.
pub open spec fn nodes_answer_alike<F: Fn(&RenderNodeInfo) -> bool>(wanted: Option<F>) -> bool {
    match wanted {
        None => true,
        Some(f) => forall|x: &RenderNodeInfo, y: &RenderNodeInfo, a: bool, b: bool|
            #![trigger call_ensures(f, (x,), a), call_ensures(f, (y,), b)]
            like_nodes(x, y) && call_ensures(f, (x,), a) && call_ensures(f, (y,), b) ==> a == b,
    }
}

/// The picture of a render graph is determined by the graph and the
/// settings alone: for two hosts whose render graphs hold the same, and in
/// particular for two calls on one host, whatever `render_graph_dot`
/// returns for the one it returns for the other.
pub proof fn law_render_picture_is_determined<F: Fn(&RenderNodeInfo) -> bool>(
    a: &HostData,
    b: &HostData,
    settings: &crate::render_graph::Settings<F>,
    r1: Result<String, GraphError>,
    r2: Result<String, GraphError>,
)
    requires
        a.render_graph is Some,
        b.render_graph is Some,
        same_render_graph(&a.render_graph->Some_0, &b.render_graph->Some_0),
        nodes_answer_alike(settings.include_node),
        render_drawn(a, settings, r1),
        render_drawn(b, settings, r2),
    ensures
        same_outcome(r1, r2),
{
    let x = &a.render_graph->Some_0;
    let y = &b.render_graph->Some_0;
    let (d1, m1) = choose|d: ScheduleData, mask: Seq<bool>|
        written_as(x, &d) && mask_fits(x.nodes@, settings.include_node, mask) && gives(
            r1,
            #[trigger] schedule_text(&d, mask, false, settings.style),
        );
    let (d2, m2) = choose|d: ScheduleData, mask: Seq<bool>|
        written_as(y, &d) && mask_fits(y.nodes@, settings.include_node, mask) && gives(
            r2,
            #[trigger] schedule_text(&d, mask, false, settings.style),
        );
    assert forall|i: int| 0 <= i < m1.len() implies m1[i] == m2[i] by {
        assert(like_nodes(&x.nodes@[i], &y.nodes@[i]));
        match settings.include_node {
            None => {},
            Some(f) => {
                assert(call_ensures(f, (&x.nodes@[i],), m1[i]));
                assert(call_ensures(f, (&y.nodes@[i],), m2[i]));
            },
        }
    }
    assert(m1 =~= m2);
    assert forall|j: int| 0 <= j < x.sub_graphs@.len() implies #[trigger] sub_entry_fn(x)(j)
        == sub_entry_fn(y)(j) by {
        assert(x.sub_graphs@[j].parent == y.sub_graphs@[j].parent);
    }
    lemma_gather_agree(x.sub_graphs@.len(), sub_entry_fn(x), sub_entry_fn(y));
    assert forall|i: int| 0 <= i < x.nodes@.len() implies #[trigger] node_entry_fn(x)(i)
        == node_entry_fn(y)(i) by {
        assert(x.nodes@[i].graph == y.nodes@[i].graph);
    }
    lemma_gather_agree(x.nodes@.len(), node_entry_fn(x), node_entry_fn(y));
    assert(d1.hierarchy@ == d2.hierarchy@);
    assert(d1.dependency@ =~= d2.dependency@);
    assert(d1.ambiguities@ =~= d2.ambiguities@);
    assert(same_state(&d1, &d2));
    law_same_state_same_text(&d1, &d2, m1, false, settings.style);
}

/// The predicate on schedules is a pure function of what a schedule
/// holds: it gives one answer about schedules that hold the same.
pub open spec fn schedules_answer_alike<L: Fn(&ScheduleData) -> bool>(wanted: Option<L>) -> bool {
    match wanted {
        None => true,
        Some(f) => forall|x: &ScheduleData, y: &ScheduleData, a: bool, b: bool|
            #![trigger call_ensures(f, (x,), a), call_ensures(f, (y,), b)]
            same_access(x, y) && call_ensures(f, (x,), a) && call_ensures(f, (y,), b) ==> a == b,
    }
}

/// The picture of data access, and that of events, is determined by the
/// state of the host and the settings: for two hosts in the same state, and
/// in particular for two calls on one host, and for predicates that are
/// pure functions of what their subjects hold, whatever `data_graph_dot`
/// or `events_graph_dot` returns for the one it returns for the other.
pub proof fn law_data_picture_is_determined<S: Fn(&SystemInfo) -> bool, L: Fn(&ScheduleData) -> bool>(
    a: &HostData,
    b: &HostData,
    settings: &crate::data_graph::Settings<S, L>,
    events_only: bool,
    r1: Result<String, GraphError>,
    r2: Result<String, GraphError>,
)
    requires
        same_host(a, b),
        answers_alike(settings.include_system),
        schedules_answer_alike(settings.include_schedule),
        data_drawn(a, settings, events_only, r1),
        data_drawn(b, settings, events_only, r2),
    ensures
        same_outcome(r1, r2),
{
    let (c1, k1) = choose|contexts: Seq<DataGraphContext>, chosen: Seq<bool>|
        #![trigger contexts_fit(a, settings.include_system, settings.include_schedule, contexts, chosen)]
        contexts_fit(a, settings.include_system, settings.include_schedule, contexts, chosen)
            && gives(r1, data_text(a, contexts, events_only, settings.style));
    let (c2, k2) = choose|contexts: Seq<DataGraphContext>, chosen: Seq<bool>|
        #![trigger contexts_fit(b, settings.include_system, settings.include_schedule, contexts, chosen)]
        contexts_fit(b, settings.include_system, settings.include_schedule, contexts, chosen)
            && gives(r2, data_text(b, contexts, events_only, settings.style));
    assert forall|j: int| 0 <= j < k1.len() implies k1[j] == k2[j] by {
        assert(same_access(&a.schedules@[j], &b.schedules@[j]));
        match settings.include_schedule {
            None => {},
            Some(f) => {
                assert(call_ensures(f, (&a.schedules@[j],), k1[j]));
                assert(call_ensures(f, (&b.schedules@[j],), k2[j]));
            },
        }
    }
    assert(k1 =~= k2);
    assert(context_schedules(c1) == context_schedules(c2));
    assert(c1.len() == c2.len()) by {
        assert(context_schedules(c1).len() == c1.len());
        assert(context_schedules(c2).len() == c2.len());
    }
    assert forall|k: int| 0 <= k < c1.len() implies (#[trigger] c1[k]).schedule == c2[k].schedule
        && c1[k].mask@ == c2[k].mask@ by {
        assert(context_schedules(c1)[k] == context_schedules(c2)[k]);
        let j = c1[k].schedule as int;
        let x = &a.schedules@[j];
        let y = &b.schedules@[j];
        assert(same_access(x, y));
        let m1 = c1[k].mask@;
        let m2 = c2[k].mask@;
        assert forall|i: int| 0 <= i < m1.len() implies m1[i] == m2[i] by {
            assert(like_systems(&x.systems@[i], &y.systems@[i]));
            match settings.include_system {
                None => {},
                Some(f) => {
                    assert(call_ensures(f, (&x.systems@[i],), m1[i]));
                    assert(call_ensures(f, (&y.systems@[i],), m2[i]));
                },
            }
        }
        assert(m1 =~= m2);
    }
    law_same_host_same_text(a, b, c1, c2, events_only, settings.style);
}

} // verus!
