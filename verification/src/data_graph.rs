//! The picture of data access: every shown system inside the cluster of its
//! schedule, every resource that a shown system touches, and an edge for
//! each read and each write.

use vstd::prelude::*;
use crate::extract::{copy_text, make_key, node_key};
use crate::graph::{Edge, EdgeKind, Graph, Name, Node, NodeKind, edges_wf, node_wf, nodes_wf, visible_closed};
use crate::model::{GraphError, HostData, ScheduleData, SystemInfo};
use crate::picture::{Style, draw, picture_text};
use crate::schedule_graph::{askable, gives, mask_of, mask_fits};
use crate::seqs::{first_index, gather, lemma_first_index, lemma_first_index_is, lemma_first_index_none};
use crate::text::chars_of;

verus! {

/// What to show of the data access of a host.
pub struct Settings<S, L> {
    /// Which systems to show; `None` shows all.
    pub include_system: Option<S>,
    /// Which schedules to show; `None` shows all.
    pub include_schedule: Option<L>,
    pub style: Style,
}

impl<S, L> Default for Settings<S, L> {
    /// Everything is shown.
    fn default() -> (s: Self)
        ensures
            s.include_system is None,
            s.include_schedule is None,
            s.style.transitive_reduction,
            !s.style.inline_single_member_sets,
    {
        Settings::new()
    }
}

impl<S, L> Settings<S, L> {
    /// Everything is shown.
    pub fn new() -> (s: Self)
        ensures
            s.include_system is None,
            s.include_schedule is None,
            s.style.transitive_reduction,
            !s.style.inline_single_member_sets,
    {
        Settings {
            include_system: None,
            include_schedule: None,
            style: Style { transitive_reduction: true, inline_single_member_sets: false },
        }
    }
}

/// What one schedule adds to the picture: its position in the host, and
/// which of its systems are shown.
#[derive(Clone, Debug)]
pub struct DataGraphContext {
    pub schedule: usize,
    pub mask: Vec<bool>,
}

/// The parts of a graph, as they grow while schedules are added.
pub struct Parts {
    pub nodes: Seq<Node>,
    pub visible: Seq<bool>,
    pub keys: Seq<Seq<char>>,
    pub labels: Seq<Seq<char>>,
    pub edges: Seq<Edge>,
}

/// The parts of `g`.
pub open spec fn parts_of(g: &Graph) -> Parts {
    Parts { nodes: g.nodes@, visible: g.visible@, keys: g.keys(), labels: g.labels(), edges: g.edges@ }
}

/// What the type name of a resource that holds events begins with.
pub open spec fn event_prefix() -> Seq<char> {
    "bevy_ecs::event::Events<"@
}

/// The type of the events that a resource of this name holds, if it is a
/// resource of events: what stands between the prefix and the closing `>`,
/// where that is not empty.
pub open spec fn event_inner(name: Seq<char>) -> Option<Seq<char>> {
    let p = event_prefix();
    if name.len() > p.len() + 1 && name.subrange(0, p.len() as int) == p && name.last() == '>' {
        Some(name.subrange(p.len() as int, name.len() - 1))
    } else {
        None
    }
}

/// Whether a resource is shown before pruning: in a picture of events only
/// the resources that hold events.
pub open spec fn resource_shown(name: Seq<char>, events_only: bool) -> bool {
    !events_only || event_inner(name) is Some
}

/// The label of a resource: its name; in a picture of events, the type of
/// the events.
pub open spec fn resource_label(name: Seq<char>, events_only: bool) -> Seq<char> {
    if events_only {
        match event_inner(name) {
            Some(t) => t,
            None => name,
        }
    } else {
        name
    }
}

/// The graph that holds the resources alone, each at the top level.
pub open spec fn resource_parts(resources: Seq<String>, events_only: bool) -> Parts {
    Parts {
        nodes: Seq::new(
            resources.len(),
            |r: int| Node { kind: NodeKind::Resource, container: None, level: 0 },
        ),
        visible: Seq::new(resources.len(), |r: int| resource_shown(resources[r]@, events_only)),
        keys: Seq::new(
            resources.len(),
            |r: int| node_key("world"@, NodeKind::Resource, resources[r]@),
        ),
        labels: Seq::new(resources.len(), |r: int| resource_label(resources[r]@, events_only)),
        edges: Seq::empty(),
    }
}

/// The edges for what a system reads, from the node `node`.
pub open spec fn read_edges(system: SystemInfo, node: usize, k: nat) -> Seq<Edge> {
    Seq::new(k, |j: int| Edge { kind: EdgeKind::Read, from: node, to: system.reads@[j] })
}

/// The edges for what a system writes, from the node `node`.
pub open spec fn write_edges(system: SystemInfo, node: usize, k: nat) -> Seq<Edge> {
    Seq::new(k, |j: int| Edge { kind: EdgeKind::Write, from: node, to: system.writes@[j] })
}

/// The access edges of the first `i` systems of a schedule whose systems
/// are the nodes from `first` on: for each system its reads, then its writes.
pub open spec fn access_edges(data: &ScheduleData, first: int, i: nat) -> Seq<Edge>
    decreases i,
{
    if i == 0 {
        Seq::empty()
    } else {
        access_edges(data, first, (i - 1) as nat) + read_edges(
            data.systems@[i - 1],
            (first + i - 1) as usize,
            data.systems@[i - 1].reads@.len(),
        ) + write_edges(
            data.systems@[i - 1],
            (first + i - 1) as usize,
            data.systems@[i - 1].writes@.len(),
        )
    }
}

/// The graph with one schedule added: a set for the schedule at the top
/// level, its systems inside, and their access edges.
pub open spec fn with_schedule(p: Parts, data: &ScheduleData, mask: Seq<bool>) -> Parts {
    let base = p.nodes.len();
    let ns = data.systems@.len();
    Parts {
        nodes: p.nodes.push(Node { kind: NodeKind::SystemSet, container: None, level: 0 })
            + Seq::new(
            ns,
            |i: int| Node { kind: NodeKind::System, container: Some(base as usize), level: 1 },
        ),
        visible: p.visible.push(true) + Seq::new(ns, |i: int| i >= mask.len() || mask[i]),
        keys: p.keys.push(node_key(data.label@, NodeKind::SystemSet, data.label@)) + Seq::new(
            ns,
            |i: int| node_key(data.label@, NodeKind::System, data.systems@[i].name@),
        ),
        labels: p.labels.push(data.label@) + Seq::new(ns, |i: int| data.systems@[i].name@),
        edges: p.edges + access_edges(data, (base + 1) as int, ns),
    }
}

/// System `i` touches a resource that is not among the first `count`.
pub open spec fn bad_access(data: &ScheduleData, count: nat, i: int) -> bool {
    ||| exists|k: int| 0 <= k < data.systems@[i].reads@.len() && #[trigger] data.systems@[i].reads@[k] >= count
    ||| exists|k: int|
        0 <= k < data.systems@[i].writes@.len() && #[trigger] data.systems@[i].writes@[k] >= count
}

/// `bad_access` as a predicate on systems.
pub open spec fn bad_access_pred(data: &ScheduleData, count: nat) -> spec_fn(int) -> bool {
    |i: int| bad_access(data, count, i)
}

/// Whether a schedule can be added to a graph of `n` nodes, the first
/// `count` of which are the resources.
pub open spec fn block_check(n: nat, data: &ScheduleData, count: nat) -> Result<(), GraphError> {
    if n + 1 + data.systems@.len() > usize::MAX {
        Err(GraphError::TooManyNodes)
    } else {
        match first_index(data.systems@.len(), bad_access_pred(data, count)) {
            Some(i) => Err(GraphError::DanglingAccess(i as usize)),
            None => Ok(()),
        }
    }
}

/// The graph after the first `k` contexts: the resources, and the schedule
/// of each context in turn. The first context that cannot be added, because
/// the host has no such schedule or the schedule does not fit, gives the error.
pub open spec fn parts_upto(
    host: &HostData,
    contexts: Seq<DataGraphContext>,
    events_only: bool,
    k: nat,
) -> Result<Parts, GraphError>
    decreases k,
{
    if k == 0 {
        Ok(resource_parts(host.resources@, events_only))
    } else {
        match parts_upto(host, contexts, events_only, (k - 1) as nat) {
            Err(e) => Err(e),
            Ok(p) => {
                let c = contexts[k - 1];
                if c.schedule >= host.schedules@.len() {
                    Err(GraphError::ScheduleMissing)
                } else {
                    match block_check(
                        p.nodes.len(),
                        &host.schedules@[c.schedule as int],
                        host.resources@.len(),
                    ) {
                        Err(e) => Err(e),
                        Ok(_) => Ok(with_schedule(p, &host.schedules@[c.schedule as int], c.mask@)),
                    }
                }
            },
        }
    }
}

/// The title of the document.
pub open spec fn title_text(events_only: bool) -> Seq<char> {
    if events_only {
        "events"@
    } else {
        "data"@
    }
}

/// The text of the picture of data access for these contexts, or the first
/// problem met while the graph is put together.
pub open spec fn data_text(
    host: &HostData,
    contexts: Seq<DataGraphContext>,
    events_only: bool,
    style: Style,
) -> Result<Seq<char>, GraphError> {
    match parts_upto(host, contexts, events_only, contexts.len()) {
        Err(e) => Err(e),
        Ok(p) => Ok(
            picture_text(title_text(events_only), p.nodes, p.visible, p.edges, p.keys, p.labels, style),
        ),
    }
}

/// The type of the events that a resource of this name holds.
#[verifier::loop_isolation(false)]
pub fn event_name(name: &str) -> (r: Option<String>)
    ensures
        match event_inner(name@) {
            None => r is None,
            Some(t) => r is Some && r->Some_0@ == t,
        },
{
    let v = chars_of(name);
    let p = chars_of("bevy_ecs::event::Events<");
    if v.len() <= p.len() || v.len() - p.len() < 2 {
        return None;
    }
    let mut i: usize = 0;
    while i < p.len()
        invariant
            i <= p.len(),
            forall|k: int| 0 <= k < i ==> v@[k] == p@[k],
        decreases p.len() - i,
    {
        if v[i] != p[i] {
            assert(v@.subrange(0, p@.len() as int)[i as int] != p@[i as int]);
            return None;
        }
        i += 1;
    }
    assert(v@.subrange(0, p@.len() as int) =~= p@);
    if v[v.len() - 1] != '>' {
        return None;
    }
    let mut out = String::new();
    let mut i: usize = p.len();
    while i < v.len() - 1
        invariant
            p.len() <= i <= v.len() - 1,
            out@ == v@.subrange(p@.len() as int, i as int),
        decreases v.len() - i,
    {
        out.push(v[i]);
        assert(v@.subrange(p@.len() as int, i + 1) =~= v@.subrange(p@.len() as int, i as int).push(
            v@[i as int],
        ));
        i += 1;
    }
    Some(out)
}

/// The graph that holds the resources of a host alone.
#[verifier::loop_isolation(false)]
pub fn resource_graph(resources: &Vec<String>, events_only: bool) -> (g: Graph)
    ensures
        g.wf(),
        parts_of(&g) == resource_parts(resources@, events_only),
{
    let mut nodes: Vec<Node> = Vec::new();
    let mut visible: Vec<bool> = Vec::new();
    let mut names: Vec<Name> = Vec::new();
    let mut r: usize = 0;
    while r < resources.len()
        invariant
            r <= resources.len(),
            nodes@.len() == r,
            visible@.len() == r,
            names@.len() == r,
            forall|j: int|
                0 <= j < r ==> #[trigger] nodes@[j] == (Node {
                    kind: NodeKind::Resource,
                    container: None,
                    level: 0,
                }),
            forall|j: int|
                0 <= j < r ==> #[trigger] visible@[j] == resource_shown(resources@[j]@, events_only),
            forall|j: int|
                0 <= j < r ==> (#[trigger] names@[j]).key@ == node_key(
                    "world"@,
                    NodeKind::Resource,
                    resources@[j]@,
                ) && names@[j].label@ == resource_label(resources@[j]@, events_only),
        decreases resources.len() - r,
    {
        let name = resources[r].as_str();
        let inner = event_name(name);
        nodes.push(Node { kind: NodeKind::Resource, container: None, level: 0 });
        let key = make_key("world", NodeKind::Resource, name);
        match inner {
            Some(t) => {
                visible.push(true);
                if events_only {
                    names.push(Name { key, label: t });
                } else {
                    names.push(Name { key, label: copy_text(name) });
                }
            },
            None => {
                visible.push(!events_only);
                names.push(Name { key, label: copy_text(name) });
            },
        }
        r += 1;
    }
    let g = Graph { nodes, visible, names, edges: Vec::new() };
    proof {
        let p = resource_parts(resources@, events_only);
        assert(g.nodes@ =~= p.nodes);
        assert(g.visible@ =~= p.visible);
        assert(g.keys() =~= p.keys);
        assert(g.labels() =~= p.labels);
        assert(g.edges@ =~= p.edges);
        assert forall|i: int| 0 <= i < g.nodes@.len() implies #[trigger] node_wf(g.nodes@, i) by {}
    }
    g
}

/// Whether every entry of `list` is below `count`.
#[verifier::loop_isolation(false)]
fn all_below(list: &Vec<usize>, count: usize) -> (r: bool)
    ensures
        r == !exists|k: int| 0 <= k < list@.len() && #[trigger] list@[k] >= count,
{
    let mut k: usize = 0;
    while k < list.len()
        invariant
            k <= list.len(),
            forall|j: int| 0 <= j < k ==> #[trigger] list@[j] < count,
        decreases list.len() - k,
    {
        if list[k] >= count {
            return false;
        }
        k += 1;
    }
    true
}

/// Whether a schedule can be added.
#[verifier::loop_isolation(false)]
pub fn check_block(n: usize, data: &ScheduleData, count: usize) -> (r: Result<(), GraphError>)
    ensures
        r == block_check(n as nat, data, count as nat),
{
    let ns = data.systems.len();
    if n == usize::MAX || ns > usize::MAX - n - 1 {
        return Err(GraphError::TooManyNodes);
    }
    let mut i: usize = 0;
    while i < ns
        invariant
            i <= ns,
            forall|j: int| 0 <= j < i ==> !bad_access(data, count as nat, j),
        decreases ns - i,
    {
        if !(all_below(&data.systems[i].reads, count) && all_below(&data.systems[i].writes, count)) {
            proof {
                assert(bad_access(data, count as nat, i as int));
                lemma_first_index_is(ns as nat, bad_access_pred(data, count as nat), i as int);
            }
            return Err(GraphError::DanglingAccess(i));
        }
        i += 1;
    }
    proof {
        lemma_first_index_none(ns as nat, bad_access_pred(data, count as nat));
    }
    Ok(())
}

/// Adds a schedule to a graph whose first `count` nodes are the resources.
#[verifier::loop_isolation(false)]
pub fn add_schedule(g: Graph, data: &ScheduleData, mask: &Vec<bool>, count: usize) -> (r: Graph)
    requires
        g.wf(),
        count <= g.nodes@.len(),
        block_check(g.nodes@.len(), data, count as nat) is Ok,
    ensures
        r.wf(),
        parts_of(&r) == with_schedule(parts_of(&g), data, mask@),
{
    let ghost p = parts_of(&g);
    let ghost q = with_schedule(p, data, mask@);
    let base = g.nodes.len();
    let ns = data.systems.len();
    let mut nodes = g.nodes;
    let mut visible = g.visible;
    let mut names = g.names;
    let mut edges = g.edges;
    nodes.push(Node { kind: NodeKind::SystemSet, container: None, level: 0 });
    visible.push(true);
    names.push(
        Name {
            key: make_key(data.label.as_str(), NodeKind::SystemSet, data.label.as_str()),
            label: copy_text(data.label.as_str()),
        },
    );
    let mut i: usize = 0;
    while i < ns
        invariant
            i <= ns,
            nodes@.len() == base + 1 + i,
            visible@.len() == base + 1 + i,
            names@.len() == base + 1 + i,
            forall|j: int| 0 <= j < base + 1 + i ==> #[trigger] nodes@[j] == q.nodes[j],
            forall|j: int| 0 <= j < base + 1 + i ==> #[trigger] visible@[j] == q.visible[j],
            forall|j: int|
                0 <= j < base + 1 + i ==> (#[trigger] names@[j]).key@ == q.keys[j] && names@[j].label@
                    == q.labels[j],
        decreases ns - i,
    {
        nodes.push(Node { kind: NodeKind::System, container: Some(base), level: 1 });
        visible.push(i >= mask.len() || mask[i]);
        let name = data.systems[i].name.as_str();
        names.push(
            Name { key: make_key(data.label.as_str(), NodeKind::System, name), label: copy_text(name) },
        );
        i += 1;
    }
    proof {
        lemma_first_index(ns as nat, bad_access_pred(data, count as nat));
    }
    let mut i: usize = 0;
    assert(edges@ == p.edges + access_edges(data, base + 1, 0));
    while i < ns
        invariant
            i <= ns,
            edges@ == p.edges + access_edges(data, base + 1, i as nat),
            edges_wf((base + 1 + ns) as nat, edges@),
        decreases ns - i,
    {
        let system = &data.systems[i];
        let node = base + 1 + i;
        let ghost so_far = edges@;
        assert(!bad_access_pred(data, count as nat)(i as int));
        assert(!bad_access(data, count as nat, i as int));
        let mut k: usize = 0;
        assert(edges@ == so_far + read_edges(*system, node, 0));
        while k < system.reads.len()
            invariant
                k <= system.reads.len(),
                edges@ == so_far + read_edges(*system, node, k as nat),
                edges_wf((base + 1 + ns) as nat, edges@),
            decreases system.reads.len() - k,
        {
            assert(system.reads@[k as int] < count);
            edges.push(Edge { kind: EdgeKind::Read, from: node, to: system.reads[k] });
            assert(read_edges(*system, node, (k + 1) as nat) =~= read_edges(
                *system,
                node,
                k as nat,
            ).push(Edge { kind: EdgeKind::Read, from: node, to: system.reads@[k as int] }));
            k += 1;
        }
        let ghost with_reads = edges@;
        let mut k: usize = 0;
        assert(edges@ == with_reads + write_edges(*system, node, 0));
        while k < system.writes.len()
            invariant
                k <= system.writes.len(),
                edges@ == with_reads + write_edges(*system, node, k as nat),
                edges_wf((base + 1 + ns) as nat, edges@),
            decreases system.writes.len() - k,
        {
            assert(system.writes@[k as int] < count);
            edges.push(Edge { kind: EdgeKind::Write, from: node, to: system.writes[k] });
            assert(write_edges(*system, node, (k + 1) as nat) =~= write_edges(
                *system,
                node,
                k as nat,
            ).push(Edge { kind: EdgeKind::Write, from: node, to: system.writes@[k as int] }));
            k += 1;
        }
        assert(edges@ == p.edges + access_edges(data, base + 1, (i + 1) as nat));
        i += 1;
    }
    let r = Graph { nodes, visible, names, edges };
    proof {
        assert(r.nodes@ =~= q.nodes);
        assert(r.visible@ =~= q.visible);
        assert(r.keys() =~= q.keys);
        assert(r.labels() =~= q.labels);
        assert forall|j: int| 0 <= j < r.nodes@.len() implies #[trigger] node_wf(r.nodes@, j) by {
            if j < base {
                assert(node_wf(g.nodes@, j));
            }
        }
        assert forall|j: int|
            0 <= j < r.nodes@.len() && #[trigger] r.visible@[j] && r.nodes@[j].container is Some implies r.visible@[r.nodes@[j].container->Some_0 as int] by {
            if j < base {
                assert(node_wf(g.nodes@, j));
                assert(g.visible@[j]);
            }
        }
    }
    r
}

/// The parts are those of a well-formed graph whose first `count` nodes
/// are there.
pub open spec fn parts_wf(p: Parts, count: nat) -> bool {
    &&& nodes_wf(p.nodes)
    &&& p.visible.len() == p.nodes.len()
    &&& p.keys.len() == p.nodes.len()
    &&& p.labels.len() == p.nodes.len()
    &&& edges_wf(p.nodes.len(), p.edges)
    &&& visible_closed(p.nodes, p.visible)
    &&& count <= p.nodes.len()
}

/// The access edges of a schedule whose accesses name resources below
/// `count` lead from its systems to those resources.
pub proof fn lemma_access_edges(data: &ScheduleData, first: int, i: nat, count: nat)
    requires
        i <= data.systems@.len(),
        0 <= first,
        first + data.systems@.len() <= usize::MAX,
        forall|j: int| 0 <= j < data.systems@.len() ==> !bad_access(data, count, j),
    ensures
        forall|k: int|
            0 <= k < access_edges(data, first, i).len() ==> first <= (#[trigger] access_edges(
                data,
                first,
                i,
            )[k]).from < first + i && access_edges(data, first, i)[k].to < count,
    decreases i,
{
    if i > 0 {
        lemma_access_edges(data, first, (i - 1) as nat, count);
        assert(!bad_access(data, count, i - 1));
        let system = data.systems@[i - 1];
        let node = (first + i - 1) as usize;
        let head = access_edges(data, first, (i - 1) as nat);
        let reads = read_edges(system, node, system.reads@.len());
        let writes = write_edges(system, node, system.writes@.len());
        let all = access_edges(data, first, i);
        assert(all == head + reads + writes);
        assert forall|k: int| 0 <= k < all.len() implies first <= (#[trigger] all[k]).from < first
            + i && all[k].to < count by {
            if k < head.len() {
                assert(all[k] == head[k]);
            } else if k < head.len() + reads.len() {
                let j = k - head.len();
                assert(all[k] == reads[j]);
                assert(system.reads@[j] < count);
            } else {
                let j = k - head.len() - reads.len();
                assert(all[k] == writes[j]);
                assert(system.writes@[j] < count);
            }
        }
    }
}

/// Adding a schedule that fits keeps the graph well formed.
pub proof fn lemma_with_schedule(p: Parts, data: &ScheduleData, mask: Seq<bool>, count: nat)
    requires
        parts_wf(p, count),
        block_check(p.nodes.len(), data, count) is Ok,
    ensures
        parts_wf(with_schedule(p, data, mask), count),
{
    let q = with_schedule(p, data, mask);
    let base = p.nodes.len();
    let ns = data.systems@.len();
    lemma_first_index(ns, bad_access_pred(data, count));
    assert forall|j: int| 0 <= j < ns implies !bad_access(data, count, j) by {
        assert(!bad_access_pred(data, count)(j));
    }
    lemma_access_edges(data, (base + 1) as int, ns, count);
    assert forall|j: int| 0 <= j < q.nodes.len() implies #[trigger] node_wf(q.nodes, j) by {
        if j < base {
            assert(node_wf(p.nodes, j));
        }
    }
    assert forall|j: int|
        0 <= j < q.nodes.len() && #[trigger] q.visible[j] && q.nodes[j].container is Some implies q.visible[q.nodes[j].container->Some_0 as int] by {
        if j < base {
            assert(node_wf(p.nodes, j));
            assert(p.visible[j]);
        }
    }
    let added = access_edges(data, (base + 1) as int, ns);
    assert forall|k: int| 0 <= k < q.edges.len() implies (#[trigger] q.edges[k]).from
        < q.nodes.len() && q.edges[k].to < q.nodes.len() by {
        if k < p.edges.len() {
            assert(q.edges[k] == p.edges[k]);
        } else {
            assert(q.edges[k] == added[k - p.edges.len()]);
        }
    }
}

/// The graph that is put together from the contexts is well formed.
pub proof fn lemma_parts_wf(
    host: &HostData,
    contexts: Seq<DataGraphContext>,
    events_only: bool,
    k: nat,
)
    requires
        host.resources@.len() <= usize::MAX,
        parts_upto(host, contexts, events_only, k) is Ok,
    ensures
        parts_wf(parts_upto(host, contexts, events_only, k)->Ok_0, host.resources@.len()),
    decreases k,
{
    if k == 0 {
        let p = resource_parts(host.resources@, events_only);
        assert forall|i: int| 0 <= i < p.nodes.len() implies #[trigger] node_wf(p.nodes, i) by {}
    } else {
        lemma_parts_wf(host, contexts, events_only, (k - 1) as nat);
        let p = parts_upto(host, contexts, events_only, (k - 1) as nat)->Ok_0;
        let c = contexts[k - 1];
        lemma_with_schedule(p, &host.schedules@[c.schedule as int], c.mask@, host.resources@.len());
    }
}

/// Once a context could not be added, the error stays.
pub proof fn lemma_parts_error(
    host: &HostData,
    contexts: Seq<DataGraphContext>,
    events_only: bool,
    k: nat,
    m: nat,
)
    requires
        k <= m,
        parts_upto(host, contexts, events_only, k) is Err,
    ensures
        parts_upto(host, contexts, events_only, m) == parts_upto(host, contexts, events_only, k),
    decreases m - k,
{
    if k < m {
        lemma_parts_error(host, contexts, events_only, k, (m - 1) as nat);
    }
}

/// Draws the data access of the schedules that `contexts` names, in their
/// order, as DOT text; in a picture of events only the resources that hold
/// events are shown, under the type of the events.
#[verifier::loop_isolation(false)]
pub fn print_context(
    host: &HostData,
    contexts: &Vec<DataGraphContext>,
    events_only: bool,
    style: Style,
) -> (r: Result<String, GraphError>)
    ensures
        gives(r, data_text(host, contexts@, events_only, style)),
{
    let count = host.resources.len();
    let mut g = resource_graph(&host.resources, events_only);
    let mut k: usize = 0;
    while k < contexts.len()
        invariant
            k <= contexts.len(),
            g.wf(),
            count <= g.nodes@.len(),
            parts_upto(host, contexts@, events_only, k as nat) == Ok::<Parts, GraphError>(
                parts_of(&g),
            ),
        decreases contexts.len() - k,
    {
        let c = &contexts[k];
        if c.schedule >= host.schedules.len() {
            proof {
                lemma_parts_error(host, contexts@, events_only, (k + 1) as nat, contexts@.len());
            }
            return Err(GraphError::ScheduleMissing);
        }
        let data = &host.schedules[c.schedule];
        match check_block(g.nodes.len(), data, count) {
            Err(e) => {
                proof {
                    lemma_parts_error(host, contexts@, events_only, (k + 1) as nat, contexts@.len());
                }
                return Err(e);
            },
            Ok(_) => {},
        }
        g = add_schedule(g, data, &c.mask, count);
        k += 1;
    }
    let title = if events_only {
        "events"
    } else {
        "data"
    };
    Ok(draw(g, title, style))
}

/// The context of one schedule for a picture of data access: which of its
/// systems the predicate shows.
pub fn data_graph_dot<F: Fn(&SystemInfo) -> bool>(
    host: &HostData,
    schedule: usize,
    include_system: &Option<F>,
) -> (c: DataGraphContext)
    requires
        schedule < host.schedules@.len(),
        askable::<SystemInfo, F>(*include_system),
    ensures
        c.schedule == schedule,
        mask_fits(host.schedules@[schedule as int].systems@, *include_system, c.mask@),
{
    DataGraphContext { schedule, mask: mask_of(&host.schedules[schedule].systems, include_system) }
}

/// The position `j`, if the schedule there is chosen.
pub open spec fn chosen_at(chosen: Seq<bool>, j: int) -> Option<usize> {
    if chosen[j] {
        Some(j as usize)
    } else {
        None
    }
}

/// `chosen_at` as a selection.
pub open spec fn chosen_fn(chosen: Seq<bool>) -> spec_fn(int) -> Option<usize> {
    |j: int| chosen_at(chosen, j)
}

/// The positions among the first `n` at which a schedule is chosen, in
/// their order.
pub open spec fn chosen_positions(chosen: Seq<bool>, n: nat) -> Seq<usize> {
    gather(n, chosen_fn(chosen))
}

/// The positions of the schedules that the contexts name.
pub open spec fn context_schedules(contexts: Seq<DataGraphContext>) -> Seq<usize> {
    Seq::new(contexts.len(), |k: int| contexts[k].schedule)
}

/// `contexts` holds one context for each schedule that the predicate on
/// schedules shows (`chosen` holds its answers), in the order of the host,
/// each with a mask that fits the predicate on systems.
pub open spec fn contexts_fit<S: Fn(&SystemInfo) -> bool, L: Fn(&ScheduleData) -> bool>(
    host: &HostData,
    include_system: Option<S>,
    include_schedule: Option<L>,
    contexts: Seq<DataGraphContext>,
    chosen: Seq<bool>,
) -> bool {
    &&& mask_fits(host.schedules@, include_schedule, chosen)
    &&& context_schedules(contexts) == chosen_positions(chosen, chosen.len())
    &&& forall|k: int|
        0 <= k < contexts.len() ==> {
            &&& (#[trigger] contexts[k]).schedule < host.schedules@.len()
            &&& mask_fits(
                host.schedules@[contexts[k].schedule as int].systems@,
                include_system,
                contexts[k].mask@,
            )
        }
}

/// Asks the predicates of the settings, once each: first about every
/// schedule, then about every system of each schedule that is shown.
#[verifier::loop_isolation(false)]
pub fn collect_contexts<S: Fn(&SystemInfo) -> bool, L: Fn(&ScheduleData) -> bool>(
    host: &HostData,
    include_system: &Option<S>,
    include_schedule: &Option<L>,
) -> (contexts: Vec<DataGraphContext>)
    requires
        askable::<SystemInfo, S>(*include_system),
        askable::<ScheduleData, L>(*include_schedule),
    ensures
        exists|chosen: Seq<bool>| #[trigger]
            contexts_fit(host, *include_system, *include_schedule, contexts@, chosen),
{
    let chosen = mask_of(&host.schedules, include_schedule);
    let mut contexts: Vec<DataGraphContext> = Vec::new();
    let mut j: usize = 0;
    assert(context_schedules(contexts@) =~= chosen_positions(chosen@, 0));
    while j < host.schedules.len()
        invariant
            j <= host.schedules.len(),
            context_schedules(contexts@) == chosen_positions(chosen@, j as nat),
            forall|k: int|
                0 <= k < contexts@.len() ==> {
                    &&& (#[trigger] contexts@[k]).schedule < host.schedules@.len()
                    &&& mask_fits(
                        host.schedules@[contexts@[k].schedule as int].systems@,
                        *include_system,
                        contexts@[k].mask@,
                    )
                },
        decreases host.schedules.len() - j,
    {
        if chosen[j] {
            let ghost before = contexts@;
            let c = data_graph_dot(host, j, include_system);
            contexts.push(c);
            assert(context_schedules(contexts@) =~= context_schedules(before).push(j));
        }
        j += 1;
    }
    assert(contexts_fit(host, *include_system, *include_schedule, contexts@, chosen@));
    contexts
}

} // verus!
