//! The graph model of one schedule: from what the host hands over to the
//! derived graph, with every reference checked and containment made a forest.

use vstd::prelude::*;
use crate::graph::{Edge, EdgeKind, Graph, Name, Node, NodeKind, edges_wf, node_wf, nodes_wf, visible_closed};
use crate::model::{GraphError, NodeRef, ScheduleData};
use crate::seqs::{first_index, gather, lemma_first_index_is, lemma_first_index_none, lemma_first_index, lemma_gather_contains};
use crate::text::push_text;

verus! {

/// The containment entry at `k` holds node `node`.
pub open spec fn child_is(data: &ScheduleData, node: int, k: int) -> bool {
    data.index_of(data.hierarchy@[k].1) == node
}

/// The least position among the sets that the first `k` containment
/// entries say hold `node`.
pub open spec fn least_holder(data: &ScheduleData, node: int, k: nat) -> Option<usize>
    decreases k,
{
    if k == 0 {
        None
    } else {
        let prev = least_holder(data, node, (k - 1) as nat);
        if child_is(data, node, k - 1) && (prev is None || data.hierarchy@[k - 1].0
            < prev->Some_0) {
            Some(data.hierarchy@[k - 1].0)
        } else {
            prev
        }
    }
}

/// The direct container of a node: of the sets that hold it, the one at
/// the lowest position, whatever the order of the containment entries.
pub open spec fn container_of(data: &ScheduleData, node: int) -> Option<usize> {
    match least_holder(data, node, data.hierarchy@.len()) {
        Some(p) => Some((data.systems@.len() + p) as usize),
        None => None,
    }
}

/// The least holder is the set of an entry that holds the node, and no
/// entry that holds the node names a set before it.
pub proof fn lemma_least_holder(data: &ScheduleData, node: int, k: nat)
    requires
        k <= data.hierarchy@.len(),
    ensures
        match least_holder(data, node, k) {
            Some(p) => {
                &&& exists|j: int|
                    0 <= j < k && #[trigger] child_is(data, node, j) && data.hierarchy@[j].0 == p
                &&& forall|j: int|
                    0 <= j < k && #[trigger] child_is(data, node, j) ==> p <= data.hierarchy@[j].0
            },
            None => forall|j: int| 0 <= j < k ==> !#[trigger] child_is(data, node, j),
        },
    decreases k,
{
    if k > 0 {
        lemma_least_holder(data, node, (k - 1) as nat);
        let prev = least_holder(data, node, (k - 1) as nat);
        if child_is(data, node, k - 1) && (prev is None || data.hierarchy@[k - 1].0
            < prev->Some_0) {
        } else if prev is Some {
            let j = choose|j: int|
                0 <= j < k - 1 && #[trigger] child_is(data, node, j) && data.hierarchy@[j].0
                    == prev->Some_0;
            assert(child_is(data, node, j));
        }
    }
}

/// The direct container of every node.
pub open spec fn containers(data: &ScheduleData) -> Seq<Option<usize>> {
    Seq::new(data.node_count(), |i: int| container_of(data, i))
}

/// The number of containers above node `i`, if the chain of containers
/// reaches the top level in fewer than `fuel` steps.
pub open spec fn rise(parents: Seq<Option<usize>>, i: int, fuel: nat) -> Option<nat>
    decreases fuel,
{
    if fuel == 0 || !(0 <= i < parents.len()) {
        None
    } else {
        match parents[i] {
            None => Some(0),
            Some(c) => match rise(parents, c as int, (fuel - 1) as nat) {
                Some(d) => Some(d + 1),
                None => None,
            },
        }
    }
}

/// `o` with `k` added, where it is a number.
pub open spec fn lifted(o: Option<nat>, k: nat) -> Option<nat> {
    match o {
        Some(d) => Some(d + k),
        None => None,
    }
}

/// More fuel does not change a height that was reached.
pub proof fn lemma_rise_more(parents: Seq<Option<usize>>, i: int, fuel: nat)
    requires
        rise(parents, i, fuel) is Some,
    ensures
        rise(parents, i, fuel + 1) == rise(parents, i, fuel),
        rise(parents, i, fuel)->Some_0 < fuel,
    decreases fuel,
{
    if fuel > 0 {
        match parents[i] {
            None => {},
            Some(c) => {
                lemma_rise_more(parents, c as int, (fuel - 1) as nat);
            },
        }
    }
}

/// The containment entries that name something the schedule lacks.
pub open spec fn bad_hierarchy(data: &ScheduleData) -> spec_fn(int) -> bool {
    |k: int| !data.hierarchy_ok(k)
}

/// The ordering entries that name something the schedule lacks.
pub open spec fn bad_dependency(data: &ScheduleData) -> spec_fn(int) -> bool {
    |k: int| !data.dependency_ok(k)
}

/// The ambiguities that name something the schedule lacks.
pub open spec fn bad_ambiguity(data: &ScheduleData) -> spec_fn(int) -> bool {
    |k: int| !data.ambiguity_ok(k)
}

/// The first problem among the references of a schedule, if there is one.
pub open spec fn refs_check(data: &ScheduleData) -> Result<(), GraphError> {
    if data.node_count() > usize::MAX {
        Err(GraphError::TooManyNodes)
    } else {
        match first_index(data.hierarchy@.len(), bad_hierarchy(data)) {
            Some(k) => Err(GraphError::DanglingHierarchy(k as usize)),
            None => match first_index(data.dependency@.len(), bad_dependency(data)) {
                Some(k) => Err(GraphError::DanglingDependency(k as usize)),
                None => match first_index(data.ambiguities@.len(), bad_ambiguity(data)) {
                    Some(k) => Err(GraphError::DanglingAmbiguity(k as usize)),
                    None => Ok(()),
                },
            },
        }
    }
}

/// The chain of containers above node `i` does not reach the top level.
pub open spec fn endless(data: &ScheduleData, i: int) -> bool {
    rise(containers(data), i, data.node_count()) is None
}

/// `endless` as a predicate on nodes.
pub open spec fn endless_pred(data: &ScheduleData) -> spec_fn(int) -> bool {
    |i: int| endless(data, i)
}

/// The first problem of a schedule, if there is one: a reference to a node
/// it does not have, or a node whose containers run in a circle.
pub open spec fn schedule_check(data: &ScheduleData) -> Result<(), GraphError> {
    match refs_check(data) {
        Err(e) => Err(e),
        Ok(_) => match first_index(data.node_count(), endless_pred(data)) {
            Some(i) => Err(GraphError::ContainmentCycle(i as usize)),
            None => Ok(()),
        },
    }
}

/// The kind of node `i`: systems come first, then sets.
pub open spec fn schedule_kind(data: &ScheduleData, i: int) -> NodeKind {
    if i < data.systems@.len() {
        NodeKind::System
    } else {
        NodeKind::SystemSet
    }
}

/// Node `i` of the graph of a schedule.
pub open spec fn schedule_node(data: &ScheduleData, i: int) -> Node {
    Node {
        kind: schedule_kind(data, i),
        container: container_of(data, i),
        level: match rise(containers(data), i, data.node_count()) {
            Some(d) => d as usize,
            None => 0,
        },
    }
}

/// The nodes of the graph of a schedule.
pub open spec fn schedule_nodes(data: &ScheduleData) -> Seq<Node> {
    Seq::new(data.node_count(), |i: int| schedule_node(data, i))
}

/// The ordering edge that the entry at `k` gives.
pub open spec fn order_edge_at(data: &ScheduleData, k: int) -> Option<Edge> {
    Some(
        Edge {
            kind: EdgeKind::Order,
            from: data.index_of(data.dependency@[k].0) as usize,
            to: data.index_of(data.dependency@[k].1) as usize,
        },
    )
}

/// The ambiguity edge that the pair at `k` gives: none where an ordering
/// entry joins the two systems directly, else one from the lower to the
/// higher index.
pub open spec fn ambiguity_edge_at(data: &ScheduleData, k: int) -> Option<Edge> {
    let a = data.ambiguities@[k].0;
    let b = data.ambiguities@[k].1;
    if data.ordered(a, b) {
        None
    } else if a <= b {
        Some(Edge { kind: EdgeKind::Ambiguous, from: a, to: b })
    } else {
        Some(Edge { kind: EdgeKind::Ambiguous, from: b, to: a })
    }
}

/// `order_edge_at` as a selection.
pub open spec fn order_edge_fn(data: &ScheduleData) -> spec_fn(int) -> Option<Edge> {
    |k: int| order_edge_at(data, k)
}

/// `ambiguity_edge_at` as a selection.
pub open spec fn ambiguity_edge_fn(data: &ScheduleData) -> spec_fn(int) -> Option<Edge> {
    |k: int| ambiguity_edge_at(data, k)
}

/// The ordering edges of the first `n` entries.
pub open spec fn order_edges_upto(data: &ScheduleData, n: nat) -> Seq<Edge> {
    gather(n, order_edge_fn(data))
}

/// The ambiguity edges of the first `n` pairs.
pub open spec fn ambiguity_edges_upto(data: &ScheduleData, n: nat) -> Seq<Edge> {
    gather(n, ambiguity_edge_fn(data))
}

/// The edges of the graph of a schedule: every ordering entry, then every
/// ambiguity that no ordering entry contradicts. Nothing is reduced here.
pub open spec fn schedule_edges(data: &ScheduleData, ambiguities: bool) -> Seq<Edge> {
    order_edges_upto(data, data.dependency@.len()) + if ambiguities {
        ambiguity_edges_upto(data, data.ambiguities@.len())
    } else {
        Seq::empty()
    }
}

/// Whether node `i` is drawn before anything is pruned: a set always, a
/// system unless the mask has an entry for it that says no.
pub open spec fn schedule_shown(data: &ScheduleData, mask: Seq<bool>, i: int) -> bool {
    i >= data.systems@.len() || i >= mask.len() || mask[i]
}

/// The first visibility of every node.
pub open spec fn schedule_visible(data: &ScheduleData, mask: Seq<bool>) -> Seq<bool> {
    Seq::new(data.node_count(), |i: int| schedule_shown(data, mask, i))
}

/// The tag that stands for a kind of node in a key.
pub open spec fn kind_tag(kind: NodeKind) -> Seq<char> {
    match kind {
        NodeKind::System => "system"@,
        NodeKind::SystemSet => "set"@,
        NodeKind::Resource => "resource"@,
    }
}

/// The key of a node: the schedule's identifier, the tag of the kind and the
/// node's name, joined by dots.
pub open spec fn node_key(schedule: Seq<char>, kind: NodeKind, name: Seq<char>) -> Seq<char> {
    schedule + "."@ + kind_tag(kind) + "."@ + name
}

/// The declared name of node `i`.
pub open spec fn schedule_name(data: &ScheduleData, i: int) -> Seq<char> {
    if i < data.systems@.len() {
        data.systems@[i].name@
    } else {
        data.sets@[i - data.systems@.len()].name@
    }
}

/// The keys of the nodes of a schedule.
pub open spec fn schedule_keys(data: &ScheduleData) -> Seq<Seq<char>> {
    Seq::new(
        data.node_count(),
        |i: int| node_key(data.label@, schedule_kind(data, i), schedule_name(data, i)),
    )
}

/// The labels of the nodes of a schedule: their declared names.
pub open spec fn schedule_labels(data: &ScheduleData) -> Seq<Seq<char>> {
    Seq::new(data.node_count(), |i: int| schedule_name(data, i))
}

/// Builds the key of a node.
pub fn make_key(schedule: &str, kind: NodeKind, name: &str) -> (key: String)
    ensures
        key@ == node_key(schedule@, kind, name@),
{
    let mut key = String::new();
    push_text(&mut key, schedule);
    push_text(&mut key, ".");
    match kind {
        NodeKind::System => push_text(&mut key, "system"),
        NodeKind::SystemSet => push_text(&mut key, "set"),
        NodeKind::Resource => push_text(&mut key, "resource"),
    }
    push_text(&mut key, ".");
    push_text(&mut key, name);
    key
}

/// A copy of `s`.
pub fn copy_text(s: &str) -> (r: String)
    ensures
        r@ == s@,
{
    let mut r = String::new();
    push_text(&mut r, s);
    r
}

/// Checks every reference of a schedule.
pub fn check_refs(data: &ScheduleData) -> (r: Result<(), GraphError>)
    ensures
        r == refs_check(data),
{
    let ns = data.systems.len();
    let nt = data.sets.len();
    if nt > usize::MAX - ns {
        return Err(GraphError::TooManyNodes);
    }
    let mut k: usize = 0;
    while k < data.hierarchy.len()
        invariant
            k <= data.hierarchy.len(),
            data.node_count() <= usize::MAX,
            ns == data.systems.len(),
            nt == data.sets.len(),
            forall|j: int| 0 <= j < k ==> data.hierarchy_ok(j),
        decreases data.hierarchy.len() - k,
    {
        let e = data.hierarchy[k];
        if !(e.0 < nt && data.has_node(e.1)) {
            proof {
                lemma_first_index_is(data.hierarchy@.len(), bad_hierarchy(data), k as int);
            }
            return Err(GraphError::DanglingHierarchy(k));
        }
        k += 1;
    }
    proof {
        lemma_first_index_none(data.hierarchy@.len(), bad_hierarchy(data));
    }
    let mut k: usize = 0;
    while k < data.dependency.len()
        invariant
            k <= data.dependency.len(),
            data.node_count() <= usize::MAX,
            first_index(data.hierarchy@.len(), bad_hierarchy(data)) is None,
            ns == data.systems.len(),
            nt == data.sets.len(),
            forall|j: int| 0 <= j < k ==> data.dependency_ok(j),
        decreases data.dependency.len() - k,
    {
        let e = data.dependency[k];
        if !(data.has_node(e.0) && data.has_node(e.1)) {
            proof {
                lemma_first_index_is(data.dependency@.len(), bad_dependency(data), k as int);
            }
            return Err(GraphError::DanglingDependency(k));
        }
        k += 1;
    }
    proof {
        lemma_first_index_none(data.dependency@.len(), bad_dependency(data));
    }
    let mut k: usize = 0;
    while k < data.ambiguities.len()
        invariant
            k <= data.ambiguities.len(),
            data.node_count() <= usize::MAX,
            first_index(data.hierarchy@.len(), bad_hierarchy(data)) is None,
            first_index(data.dependency@.len(), bad_dependency(data)) is None,
            ns == data.systems.len(),
            nt == data.sets.len(),
            forall|j: int| 0 <= j < k ==> data.ambiguity_ok(j),
        decreases data.ambiguities.len() - k,
    {
        let e = data.ambiguities[k];
        if !(e.0 < ns && e.1 < ns) {
            proof {
                lemma_first_index_is(data.ambiguities@.len(), bad_ambiguity(data), k as int);
            }
            return Err(GraphError::DanglingAmbiguity(k));
        }
        k += 1;
    }
    proof {
        lemma_first_index_none(data.ambiguities@.len(), bad_ambiguity(data));
    }
    Ok(())
}

/// The graph of a schedule that passes its check is well formed.
pub proof fn lemma_schedule_wf(data: &ScheduleData, mask: Seq<bool>, ambiguities: bool)
    requires
        schedule_check(data) is Ok,
    ensures
        nodes_wf(schedule_nodes(data)),
        schedule_visible(data, mask).len() == schedule_nodes(data).len(),
        visible_closed(schedule_nodes(data), schedule_visible(data, mask)),
        edges_wf(schedule_nodes(data).len(), schedule_edges(data, ambiguities)),
{
    let n = data.node_count();
    let ns = data.systems@.len();
    let cs = containers(data);
    let nodes = schedule_nodes(data);
    lemma_first_index(data.hierarchy@.len(), bad_hierarchy(data));
    lemma_first_index(data.dependency@.len(), bad_dependency(data));
    lemma_first_index(data.ambiguities@.len(), bad_ambiguity(data));
    lemma_first_index(n, endless_pred(data));
    assert forall|j: int| 0 <= j < n implies (match #[trigger] container_of(data, j) {
        Some(c) => ns <= c < n,
        None => true,
    }) by {
        lemma_least_holder(data, j, data.hierarchy@.len());
        match least_holder(data, j, data.hierarchy@.len()) {
            Some(p) => {
                let k = choose|k: int|
                    0 <= k < data.hierarchy@.len() && #[trigger] child_is(data, j, k)
                        && data.hierarchy@[k].0 == p;
                assert(!bad_hierarchy(data)(k));
                assert(data.hierarchy_ok(k));
            },
            None => {},
        }
    }
    assert forall|j: int| 0 <= j < n implies #[trigger] node_wf(nodes, j) by {
        assert(!endless_pred(data)(j));
        assert(!endless(data, j));
        lemma_rise_more(cs, j, n);
        match cs[j] {
            None => {},
            Some(c) => {
                assert(container_of(data, j) == Some(c));
                assert(!endless_pred(data)(c as int));
                assert(!endless(data, c as int));
                lemma_rise_more(cs, c as int, (n - 1) as nat);
            },
        }
    }
    assert forall|j: int|
        0 <= j < n && #[trigger] schedule_visible(data, mask)[j] && nodes[j].container is Some implies schedule_visible(
        data,
        mask,
    )[nodes[j].container->Some_0 as int] by {
        assert(container_of(data, j) is Some);
    }
    let orders = order_edges_upto(data, data.dependency@.len());
    let all = schedule_edges(data, ambiguities);
    assert forall|k: int| 0 <= k < all.len() implies (#[trigger] all[k]).from < n && all[k].to
        < n by {
        if k < orders.len() {
            assert(orders.contains(orders[k]));
            lemma_gather_contains(data.dependency@.len(), order_edge_fn(data), orders[k]);
            let j = choose|j: int|
                0 <= j < data.dependency@.len() && #[trigger] order_edge_fn(data)(j) == Some(
                    orders[k],
                );
            assert(order_edge_at(data, j) == Some(orders[k]));
            assert(!bad_dependency(data)(j));
            assert(data.dependency_ok(j));
        } else {
            let rest = ambiguity_edges_upto(data, data.ambiguities@.len());
            let x = rest[k - orders.len()];
            assert(rest.contains(x));
            lemma_gather_contains(data.ambiguities@.len(), ambiguity_edge_fn(data), x);
            let j = choose|j: int|
                0 <= j < data.ambiguities@.len() && #[trigger] ambiguity_edge_fn(data)(j) == Some(x);
            assert(ambiguity_edge_at(data, j) == Some(x));
            assert(!bad_ambiguity(data)(j));
            assert(data.ambiguity_ok(j));
        }
    }
}

/// The index of the node that `r` names.
pub fn node_index(data: &ScheduleData, r: NodeRef) -> (i: usize)
    requires
        data.node_count() <= usize::MAX,
        data.has(r),
    ensures
        i == data.index_of(r),
        i < data.node_count(),
{
    match r {
        NodeRef::System(i) => i,
        NodeRef::SystemSet(j) => data.systems.len() + j,
    }
}

/// The direct container of `node`.
#[verifier::loop_isolation(false)]
pub fn find_container(data: &ScheduleData, node: usize) -> (r: Option<usize>)
    requires
        refs_check(data) is Ok,
    ensures
        r == container_of(data, node as int),
        r is Some ==> data.systems@.len() <= r->Some_0 < data.node_count(),
{
    proof {
        lemma_first_index(data.hierarchy@.len(), bad_hierarchy(data));
    }
    let mut best: Option<usize> = None;
    let mut k: usize = 0;
    while k < data.hierarchy.len()
        invariant
            k <= data.hierarchy.len(),
            best == least_holder(data, node as int, k as nat),
            best is Some ==> best->Some_0 < data.sets@.len(),
        decreases data.hierarchy.len() - k,
    {
        let e = data.hierarchy[k];
        assert(!bad_hierarchy(data)(k as int));
        assert(data.hierarchy_ok(k as int));
        if node_index(data, e.1) == node {
            let lower = match best {
                None => true,
                Some(p) => e.0 < p,
            };
            if lower {
                best = Some(e.0);
            }
        }
        k += 1;
    }
    match best {
        Some(p) => Some(data.systems.len() + p),
        None => None,
    }
}

/// The number of containers above node `i`; `None` where the chain of
/// containers does not end within as many steps as there are nodes.
#[verifier::loop_isolation(false)]
pub fn height(parents: &Vec<Option<usize>>, i: usize) -> (r: Option<usize>)
    requires
        i < parents.len(),
        forall|j: int|
            0 <= j < parents.len() && (#[trigger] parents@[j]) is Some ==> parents@[j]->Some_0
                < parents.len(),
    ensures
        r is Some <==> rise(parents@, i as int, parents@.len()) is Some,
        r is Some ==> r->Some_0 == rise(parents@, i as int, parents@.len())->Some_0,
{
    let n = parents.len();
    let mut cur = i;
    let mut steps: usize = 0;
    while steps < n
        invariant
            cur < n,
            steps <= n,
            rise(parents@, i as int, n as nat) == lifted(
                rise(parents@, cur as int, (n - steps) as nat),
                steps as nat,
            ),
        decreases n - steps,
    {
        match parents[cur] {
            None => {
                return Some(steps);
            },
            Some(c) => {
                cur = c;
                steps += 1;
            },
        }
    }
    None
}

/// The graph of one schedule, with nothing pruned or reduced: its systems,
/// then its sets; every ordering entry as an edge and, where `ambiguities`
/// is set, every ambiguity that no ordering entry contradicts. A system is
/// drawn unless `mask` has an entry for it that says no.
#[verifier::loop_isolation(false)]
pub fn schedule_graph(data: &ScheduleData, mask: &Vec<bool>, ambiguities: bool) -> (r: Result<
    Graph,
    GraphError,
>)
    ensures
        match schedule_check(data) {
            Err(e) => r == Err::<Graph, GraphError>(e),
            Ok(_) => {
                &&& r is Ok
                &&& r->Ok_0.wf()
                &&& r->Ok_0.nodes@ == schedule_nodes(data)
                &&& r->Ok_0.edges@ == schedule_edges(data, ambiguities)
                &&& r->Ok_0.visible@ == schedule_visible(data, mask@)
                &&& r->Ok_0.keys() == schedule_keys(data)
                &&& r->Ok_0.labels() == schedule_labels(data)
            },
        },
{
    match check_refs(data) {
        Err(e) => {
            return Err(e);
        },
        Ok(_) => {},
    }
    let ns = data.systems.len();
    let n = ns + data.sets.len();
    let ghost cs = containers(data);
    // containers
    let mut parents: Vec<Option<usize>> = Vec::new();
    let mut i: usize = 0;
    while i < n
        invariant
            i <= n,
            parents@.len() == i,
            forall|j: int| 0 <= j < i ==> #[trigger] parents@[j] == container_of(data, j),
            forall|j: int|
                0 <= j < i && (#[trigger] parents@[j]) is Some ==> ns <= parents@[j]->Some_0 < n,
        decreases n - i,
    {
        let c = find_container(data, i);
        parents.push(c);
        i += 1;
    }
    assert(parents@ =~= cs);
    // levels
    let mut nodes: Vec<Node> = Vec::new();
    let mut i: usize = 0;
    while i < n
        invariant
            i <= n,
            nodes@.len() == i,
            forall|j: int| 0 <= j < i ==> !endless(data, j),
            forall|j: int| 0 <= j < i ==> #[trigger] nodes@[j] == schedule_node(data, j),
        decreases n - i,
    {
        match height(&parents, i) {
            None => {
                proof {
                    assert(endless(data, i as int));
                    lemma_first_index_is(n as nat, endless_pred(data), i as int);
                }
                return Err(GraphError::ContainmentCycle(i));
            },
            Some(d) => {
                let kind = if i < ns {
                    NodeKind::System
                } else {
                    NodeKind::SystemSet
                };
                nodes.push(Node { kind, container: parents[i], level: d });
            },
        }
        i += 1;
    }
    proof {
        lemma_first_index_none(n as nat, endless_pred(data));
        assert(nodes@ =~= schedule_nodes(data));
        lemma_schedule_wf(data, mask@, ambiguities);
    }
    // names and visibility
    let mut names: Vec<Name> = Vec::new();
    let mut visible: Vec<bool> = Vec::new();
    let mut i: usize = 0;
    while i < n
        invariant
            i <= n,
            names@.len() == i,
            visible@.len() == i,
            forall|j: int| 0 <= j < i ==> visible@[j] == schedule_shown(data, mask@, j),
            forall|j: int|
                0 <= j < i ==> (#[trigger] names@[j]).key@ == node_key(
                    data.label@,
                    schedule_kind(data, j),
                    schedule_name(data, j),
                ) && names@[j].label@ == schedule_name(data, j),
        decreases n - i,
    {
        if i < ns {
            let name = data.systems[i].name.as_str();
            names.push(
                Name {
                    key: make_key(data.label.as_str(), NodeKind::System, name),
                    label: copy_text(name),
                },
            );
            visible.push(i >= mask.len() || mask[i]);
        } else {
            let name = data.sets[i - ns].name.as_str();
            names.push(
                Name {
                    key: make_key(data.label.as_str(), NodeKind::SystemSet, name),
                    label: copy_text(name),
                },
            );
            visible.push(true);
        }
        i += 1;
    }
    // edges
    proof {
        lemma_first_index(data.dependency@.len(), bad_dependency(data));
        lemma_first_index(data.ambiguities@.len(), bad_ambiguity(data));
    }
    let mut edges: Vec<Edge> = Vec::new();
    let mut k: usize = 0;
    while k < data.dependency.len()
        invariant
            k <= data.dependency.len(),
            edges@ == order_edges_upto(data, k as nat),
            edges_wf(n as nat, edges@),
        decreases data.dependency.len() - k,
    {
        let e = data.dependency[k];
        assert(!bad_dependency(data)(k as int));
        assert(data.dependency_ok(k as int));
        edges.push(
            Edge { kind: EdgeKind::Order, from: node_index(data, e.0), to: node_index(data, e.1) },
        );
        k += 1;
    }
    if ambiguities {
        let ghost orders = edges@;
        let mut k: usize = 0;
        while k < data.ambiguities.len()
            invariant
                k <= data.ambiguities.len(),
                edges@ == orders + ambiguity_edges_upto(data, k as nat),
                edges_wf(n as nat, edges@),
            decreases data.ambiguities.len() - k,
        {
            let e = data.ambiguities[k];
            assert(!bad_ambiguity(data)(k as int));
            assert(data.ambiguity_ok(k as int));
            let ghost before = ambiguity_edges_upto(data, k as nat);
            if !data.is_ordered(e.0, e.1) {
                if e.0 <= e.1 {
                    edges.push(Edge { kind: EdgeKind::Ambiguous, from: e.0, to: e.1 });
                } else {
                    edges.push(Edge { kind: EdgeKind::Ambiguous, from: e.1, to: e.0 });
                }
                assert(edges@ == orders + before.push(ambiguity_edge_at(data, k as int)->Some_0));
            }
            k += 1;
        }
    } else {
        assert(edges@ + Seq::<Edge>::empty() == edges@);
    }
    let g = Graph { nodes, visible, names, edges };
    proof {
        assert(g.visible@ =~= schedule_visible(data, mask@));
        assert(g.keys() =~= schedule_keys(data));
        assert(g.labels() =~= schedule_labels(data));
    }
    Ok(g)
}

} // verus!
