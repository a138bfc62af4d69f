//! Reading the schedules of the scheduler into plain values.
//!
//! The scheduler keeps its systems and sets under numbers of its own, with
//! gaps where it pleases, and hands its sets and its schedules out in no
//! fixed order. What is read here is put in order, systems and sets by
//! those numbers and schedules by their identifiers, so that the same
//! state always gives the same data, and every reference is rewritten to a
//! position in the lists of this library. The scheduler also keeps every
//! system in a set of its own type and writes "after this system" as
//! "after that set"; where such a set holds its one system and nothing
//! else it is left out, and its system stands wherever it was named.
//! Nothing is built here: a schedule is read as it stands.

use vstd::prelude::*;
use crate::extract::{bad_ambiguity, bad_dependency, bad_hierarchy, copy_text, refs_check};
use crate::model::{GraphError, HostData, NodeRef, ScheduleData, SetInfo, SystemInfo};
use crate::ident::{lex_less, text_less, text_same};
use crate::render::text_views;
use crate::seqs::{first_index, gather, lemma_first_index_is, lemma_first_index_none};
use crate::text::chars_of;

verus! {

/// `bevy_ecs::schedule::Schedule`, carried through: nothing is known of
/// what a schedule holds but what the readers below hand out.
#[verifier::external_type_specification]
#[verifier::external_body]
pub struct ExSchedule(bevy_ecs::schedule::Schedule);

/// `bevy_ecs::schedule::Schedules`, carried through.
#[verifier::external_type_specification]
#[verifier::external_body]
pub struct ExSchedules(bevy_ecs::schedule::Schedules);

/// `bevy_ecs::world::World`, carried through.
#[verifier::external_type_specification]
#[verifier::external_body]
pub struct ExWorld(bevy_ecs::world::World);

/// `bevy_ecs::schedule::NodeId`, with its two variants: the number of a
/// system and the number of a set.
#[verifier::external_type_specification]
pub struct ExNodeId(bevy_ecs::schedule::NodeId);

/// A system as it was read: the number it stands under, its name, and
/// the numbers of the components and resources it reads and writes.
#[derive(Clone, Debug)]
pub struct RawSystem {
    pub id: NodeRef,
    pub name: String,
    pub reads: Vec<usize>,
    pub writes: Vec<usize>,
}

/// A set as it was read: the number it stands under, its name, and
/// whether it is the set that the scheduler keeps for the systems of one
/// type.
#[derive(Clone, Debug)]
pub struct RawSet {
    pub id: NodeRef,
    pub name: String,
    pub system_type: bool,
}

/// What was read of a schedule, under the scheduler's own numbers.
#[derive(Clone, Debug)]
pub struct RawSchedule {
    pub label: String,
    pub systems: Vec<RawSystem>,
    pub sets: Vec<RawSet>,
    /// Containment: the first node holds the second.
    pub hierarchy: Vec<(NodeRef, NodeRef)>,
    /// Ordering: the first node runs before the second.
    pub dependency: Vec<(NodeRef, NodeRef)>,
    /// Pairs of systems in conflict.
    pub conflicts: Vec<(NodeRef, NodeRef)>,
}

/// The scheduler's number of a node, as this library writes it.
pub fn node_ref(id: bevy_ecs::schedule::NodeId) -> (r: NodeRef)
    ensures
        r == match id {
            bevy_ecs::schedule::NodeId::System(i) => NodeRef::System(i),
            bevy_ecs::schedule::NodeId::Set(i) => NodeRef::SystemSet(i),
        },
{
    match id {
        bevy_ecs::schedule::NodeId::System(i) => NodeRef::System(i),
        bevy_ecs::schedule::NodeId::Set(i) => NodeRef::SystemSet(i),
    }
}

/// The identifier that a schedule holds: what `Schedule::label` returns,
/// in its `Debug` form.
pub uninterp spec fn held_label(schedule: bevy_ecs::schedule::Schedule) -> Seq<char>;

/// The systems that a schedule holds, in the order of
/// `ScheduleGraph::systems`: each with the number it stands under, its
/// name, and the numbers of what it reads and of what it writes.
pub uninterp spec fn held_systems(schedule: bevy_ecs::schedule::Schedule) -> Seq<
    (NodeRef, Seq<char>, Seq<usize>, Seq<usize>),
>;

/// The sets that a schedule holds: the name of each, and whether it is the
/// set of the systems of one type, by the number the set stands under. The
/// scheduler gives them no order.
pub uninterp spec fn held_sets(schedule: bevy_ecs::schedule::Schedule) -> Map<
    usize,
    (Seq<char>, bool),
>;

/// The containment that a schedule holds, in the order of the edges of
/// `ScheduleGraph::hierarchy`.
pub uninterp spec fn held_hierarchy(schedule: bevy_ecs::schedule::Schedule) -> Seq<
    (NodeRef, NodeRef),
>;

/// The ordering that a schedule holds, in the order of the edges of
/// `ScheduleGraph::dependency`.
pub uninterp spec fn held_dependency(schedule: bevy_ecs::schedule::Schedule) -> Seq<
    (NodeRef, NodeRef),
>;

/// The conflicts that a schedule holds, in the order of
/// `ScheduleGraph::conflicting_systems`.
pub uninterp spec fn held_conflicts(schedule: bevy_ecs::schedule::Schedule) -> Seq<
    (NodeRef, NodeRef),
>;

/// The systems of `list` as plain values.
pub open spec fn system_views(list: Seq<RawSystem>) -> Seq<
    (NodeRef, Seq<char>, Seq<usize>, Seq<usize>),
> {
    Seq::new(list.len(), |k: int| (list[k].id, list[k].name@, list[k].reads@, list[k].writes@))
}

/// `list` holds the sets of `sets`, in some order: every entry is a set of
/// `sets` under its number and its name, and every set of `sets` is an entry.
pub open spec fn sets_listed(list: Seq<RawSet>, sets: Map<usize, (Seq<char>, bool)>) -> bool {
    &&& forall|k: int|
        0 <= k < list.len() ==> match (#[trigger] list[k]).id {
            NodeRef::SystemSet(i) => sets.dom().contains(i) && sets[i] == (
                list[k].name@,
                list[k].system_type,
            ),
            NodeRef::System(_) => false,
        }
    &&& forall|i: usize|
        sets.dom().contains(i) ==> exists|k: int|
            0 <= k < list.len() && (#[trigger] list[k]).id == NodeRef::SystemSet(i)
}

/// `Schedule::label`, written with its `Debug` form: the text depends on
/// the schedule alone, and is named `held_label`.
#[verifier::external_body]
fn read_label(schedule: &bevy_ecs::schedule::Schedule) -> (label: String)
    ensures
        label@ == held_label(*schedule),
{
    format!("{:?}", schedule.label())
}

/// `ScheduleGraph::systems`: every system that the graph holds, with the
/// number it stands under, what `System::name` returns, and from
/// `System::component_access` the `ComponentId::index` of each component
/// that `Access::reads` and `Access::writes` list. The scheduler walks its
/// vector of systems and the bits of each access in rising order, so the
/// list depends on the schedule alone, and is named `held_systems`.
#[verifier::external_body]
fn read_systems(schedule: &bevy_ecs::schedule::Schedule) -> (list: Vec<RawSystem>)
    ensures
        system_views(list@) == held_systems(*schedule),
{
    schedule.graph().systems().map(
        |(id, system, _)|
            RawSystem {
                id: node_ref(id),
                name: bevy_ecs::system::System::name(system).to_string(),
                reads: bevy_ecs::system::System::component_access(system).reads().map(
                    |c| c.index(),
                ).collect(),
                writes: bevy_ecs::system::System::component_access(system).writes().map(
                    |c| c.index(),
                ).collect(),
            },
    ).collect()
}

/// `ScheduleGraph::system_sets`: every set of the graph, with the number
/// it stands under, its `Debug` form, and whether `SystemSet::system_type`
/// names a type for it. The scheduler walks a hash map
/// here, so the order of the list may differ from call to call: claimed is
/// only that the list holds the sets named `held_sets`, each once or more,
/// in some order.
#[verifier::external_body]
fn read_sets(schedule: &bevy_ecs::schedule::Schedule) -> (list: Vec<RawSet>)
    ensures
        sets_listed(list@, held_sets(*schedule)),
{
    schedule.graph().system_sets().map(
        |(id, set, _)|
            RawSet {
                id: node_ref(id),
                name: format!("{:?}", set),
                system_type: bevy_ecs::schedule::SystemSet::system_type(set).is_some(),
            },
    ).collect()
}

/// `ScheduleGraph::hierarchy`, the edges of its graph: each from a set to a
/// node that stands in it. `GraphMap::all_edges` promises no order, but
/// walks the index map in which the graph keeps its edges, entry by entry,
/// so the list depends on the schedule alone, and is named `held_hierarchy`.
#[verifier::external_body]
fn read_hierarchy(schedule: &bevy_ecs::schedule::Schedule) -> (list: Vec<(NodeRef, NodeRef)>)
    ensures
        list@ == held_hierarchy(*schedule),
{
    schedule.graph().hierarchy().graph().all_edges().map(
        |(a, b, _)| (node_ref(a), node_ref(b)),
    ).collect()
}

/// `ScheduleGraph::dependency`, the edges of its graph: each from a node to
/// one that runs after it, read as the containment is. The list depends on
/// the schedule alone, and is named `held_dependency`.
#[verifier::external_body]
fn read_dependency(schedule: &bevy_ecs::schedule::Schedule) -> (list: Vec<(NodeRef, NodeRef)>)
    ensures
        list@ == held_dependency(*schedule),
{
    schedule.graph().dependency().graph().all_edges().map(
        |(a, b, _)| (node_ref(a), node_ref(b)),
    ).collect()
}

/// `ScheduleGraph::conflicting_systems`: the pairs that the last build of
/// the schedule found in conflict, without the components they conflict
/// on. The scheduler keeps them in a vector, so the list depends on the
/// schedule alone, and is named `held_conflicts`.
#[verifier::external_body]
fn read_conflicts(schedule: &bevy_ecs::schedule::Schedule) -> (list: Vec<(NodeRef, NodeRef)>)
    ensures
        list@ == held_conflicts(*schedule),
{
    schedule.graph().conflicting_systems().iter().map(
        |(a, b, _)| (node_ref(*a), node_ref(*b)),
    ).collect()
}

/// The names of the components and resources that a world has registered,
/// in the order of `Components::iter`.
pub uninterp spec fn held_components(world: bevy_ecs::world::World) -> Seq<Seq<char>>;

/// `World::components` and `Components::iter`: the `ComponentInfo::name`
/// of every component and resource that the world has registered. The
/// world keeps them in a vector and walks it from the front, so the list
/// depends on the world alone, and is named `held_components`.
#[verifier::external_body]
fn read_components(world: &bevy_ecs::world::World) -> (names: Vec<String>)
    ensures
        text_views(names@) == held_components(*world),
{
    world.components().iter().map(|info| info.name().to_string()).collect()
}

/// `raw` is what `schedule` holds: its identifier, its systems, its
/// containment, its ordering and its conflicts as the scheduler lists
/// them, and its sets in some order.
pub open spec fn reads_as(schedule: bevy_ecs::schedule::Schedule, raw: &RawSchedule) -> bool {
    &&& raw.label@ == held_label(schedule)
    &&& system_views(raw.systems@) == held_systems(schedule)
    &&& sets_listed(raw.sets@, held_sets(schedule))
    &&& raw.hierarchy@ == held_hierarchy(schedule)
    &&& raw.dependency@ == held_dependency(schedule)
    &&& raw.conflicts@ == held_conflicts(schedule)
}

/// Reads a schedule as it stands. The schedule is not built here: what was
/// not built before holds no conflicts.
fn read_schedule(schedule: &bevy_ecs::schedule::Schedule) -> (raw: RawSchedule)
    ensures
        reads_as(*schedule, &raw),
{
    RawSchedule {
        label: read_label(schedule),
        systems: read_systems(schedule),
        sets: read_sets(schedule),
        hierarchy: read_hierarchy(schedule),
        dependency: read_dependency(schedule),
        conflicts: read_conflicts(schedule),
    }
}

/// What one schedule holds, as plain values: its identifier, its systems,
/// its sets, its containment, its ordering and its conflicts.
pub type Held = (
    Seq<char>,
    Seq<(NodeRef, Seq<char>, Seq<usize>, Seq<usize>)>,
    Map<usize, (Seq<char>, bool)>,
    Seq<(NodeRef, NodeRef)>,
    Seq<(NodeRef, NodeRef)>,
    Seq<(NodeRef, NodeRef)>,
);

/// The schedules that a collection holds, each by what it holds. The
/// collection gives them no order.
pub uninterp spec fn held_schedules(
    schedules: bevy_ecs::schedule::Schedules,
) -> vstd::multiset::Multiset<
    (
        Seq<char>,
        Seq<(NodeRef, Seq<char>, Seq<usize>, Seq<usize>)>,
        Map<usize, (Seq<char>, bool)>,
        Seq<(NodeRef, NodeRef)>,
        Seq<(NodeRef, NodeRef)>,
        Seq<(NodeRef, NodeRef)>,
    ),
>;

/// `raw` is a reading of the schedule that holds `held`.
pub open spec fn read_of(raw: RawSchedule, held: Held) -> bool {
    &&& raw.label@ == held.0
    &&& system_views(raw.systems@) == held.1
    &&& sets_listed(raw.sets@, held.2)
    &&& raw.hierarchy@ == held.3
    &&& raw.dependency@ == held.4
    &&& raw.conflicts@ == held.5
}

/// `raws` holds one reading of every schedule of the collection, in some
/// order.
pub open spec fn all_read(raws: Seq<RawSchedule>, schedules: bevy_ecs::schedule::Schedules) -> bool {
    exists|held: Seq<Held>|
        #![trigger held.to_multiset()]
        held.to_multiset() == held_schedules(schedules) && held.len() == raws.len() && forall|
            k: int,
        |
            0 <= k < raws.len() ==> read_of(#[trigger] raws[k], held[k])
}

/// `Schedules::iter`: every schedule that the collection holds, each read
/// as it stands. The scheduler walks a hash map here, so the order of the
/// list may differ from call to call: claimed is that the list holds one
/// reading of each schedule named `held_schedules`, in some order.
#[verifier::external_body]
fn read_schedules(schedules: &bevy_ecs::schedule::Schedules) -> (list: Vec<RawSchedule>)
    ensures
        exists|held: Seq<Held>|
            #![trigger held.to_multiset()]
            held.to_multiset() == held_schedules(*schedules) && held.len() == list@.len()
                && forall|k: int| 0 <= k < list@.len() ==> read_of(#[trigger] list@[k], held[k]),
{
    schedules.iter().map(|(_, schedule)| read_schedule(schedule)).collect()
}

/// The numbers that the systems stand under, as they were read.
pub open spec fn system_refs(raw: &RawSchedule) -> Seq<NodeRef> {
    Seq::new(raw.systems@.len(), |k: int| raw.systems@[k].id)
}

/// The numbers that the sets stand under, as they were read.
pub open spec fn set_refs(raw: &RawSchedule) -> Seq<NodeRef> {
    Seq::new(raw.sets@.len(), |k: int| raw.sets@[k].id)
}

/// The number that `r` carries, if it names a node of the wanted kind.
pub open spec fn number_of(r: NodeRef, system: bool) -> Option<usize> {
    match r {
        NodeRef::System(i) => if system {
            Some(i)
        } else {
            None
        },
        NodeRef::SystemSet(i) => if system {
            None
        } else {
            Some(i)
        },
    }
}

/// The least number above `bound` among the first `k` references.
pub open spec fn least_above(refs: Seq<NodeRef>, system: bool, bound: Option<usize>, k: nat) -> Option<
    usize,
>
    decreases k,
{
    if k == 0 {
        None
    } else {
        let prev = least_above(refs, system, bound, (k - 1) as nat);
        match number_of(refs[k - 1], system) {
            Some(x) => if (bound is None || x > bound->Some_0) && (prev is None || x
                < prev->Some_0) {
                Some(x)
            } else {
                prev
            },
            None => prev,
        }
    }
}

/// The numbers above `bound` that the references hold, each once, in
/// rising order; at most `fuel` of them.
pub open spec fn numbers_from(refs: Seq<NodeRef>, system: bool, bound: Option<usize>, fuel: nat) -> Seq<
    usize,
>
    decreases fuel,
{
    if fuel == 0 {
        Seq::empty()
    } else {
        match least_above(refs, system, bound, refs.len()) {
            None => Seq::empty(),
            Some(x) => seq![x] + numbers_from(refs, system, Some(x), (fuel - 1) as nat),
        }
    }
}

/// The numbers under which the references name nodes of the wanted kind,
/// each once, in rising order.
pub open spec fn numbers(refs: Seq<NodeRef>, system: bool) -> Seq<usize> {
    numbers_from(refs, system, None, refs.len())
}

/// The references that carry the number `x`.
pub open spec fn numbered_pred(refs: Seq<NodeRef>, system: bool, x: usize) -> spec_fn(int) -> bool {
    |k: int| number_of(refs[k], system) == Some(x)
}

/// The position of the first reference that carries the number `x`.
pub open spec fn entry_of(refs: Seq<NodeRef>, system: bool, x: usize) -> Option<int> {
    first_index(refs.len(), numbered_pred(refs, system, x))
}

/// The positions at which `ids` holds `x`.
pub open spec fn holds_pred(ids: Seq<usize>, x: usize) -> spec_fn(int) -> bool {
    |p: int| ids[p] == x
}

/// The node that `r` names, by its position in the ordered lists.
pub open spec fn placed(sys_ids: Seq<usize>, set_ids: Seq<usize>, r: NodeRef) -> Option<NodeRef> {
    match r {
        NodeRef::System(i) => match first_index(sys_ids.len(), holds_pred(sys_ids, i)) {
            Some(p) => Some(NodeRef::System(p as usize)),
            None => None,
        },
        NodeRef::SystemSet(i) => match first_index(set_ids.len(), holds_pred(set_ids, i)) {
            Some(p) => Some(NodeRef::SystemSet(p as usize)),
            None => None,
        },
    }
}

/// A pair of raw references as a containment entry: a set and what it holds.
pub open spec fn hierarchy_entry(
    sys_ids: Seq<usize>,
    set_ids: Seq<usize>,
    e: (NodeRef, NodeRef),
) -> Option<(usize, NodeRef)> {
    match (placed(sys_ids, set_ids, e.0), placed(sys_ids, set_ids, e.1)) {
        (Some(NodeRef::SystemSet(p)), Some(c)) => Some((p, c)),
        _ => None,
    }
}

/// A pair of raw references as an ordering entry.
pub open spec fn dependency_entry(
    sys_ids: Seq<usize>,
    set_ids: Seq<usize>,
    e: (NodeRef, NodeRef),
) -> Option<(NodeRef, NodeRef)> {
    match (placed(sys_ids, set_ids, e.0), placed(sys_ids, set_ids, e.1)) {
        (Some(a), Some(b)) => Some((a, b)),
        _ => None,
    }
}

/// A pair of raw references as an ambiguity: two systems.
pub open spec fn ambiguity_entry(
    sys_ids: Seq<usize>,
    set_ids: Seq<usize>,
    e: (NodeRef, NodeRef),
) -> Option<(usize, usize)> {
    match (placed(sys_ids, set_ids, e.0), placed(sys_ids, set_ids, e.1)) {
        (Some(NodeRef::System(a)), Some(NodeRef::System(b))) => Some((a, b)),
        _ => None,
    }
}

/// Whether the set under the number `i` was read as the set of the
/// systems of one type.
pub open spec fn type_set(raw: &RawSchedule, i: usize) -> bool {
    match entry_of(set_refs(raw), false, i) {
        Some(k) => raw.sets@[k].system_type,
        None => false,
    }
}

/// The containment pairs whose holder is the set under the number `i`.
pub open spec fn held_by_pred(raw: &RawSchedule, i: usize) -> spec_fn(int) -> bool {
    |k: int| raw.hierarchy@[k].0 == NodeRef::SystemSet(i)
}

/// Every containment pair whose holder is the set under the number `i`
/// holds the system under the number `x`.
pub open spec fn holds_only(raw: &RawSchedule, i: usize, x: usize) -> bool {
    forall|j: int|
        0 <= j < raw.hierarchy@.len() && (#[trigger] raw.hierarchy@[j]).0 == NodeRef::SystemSet(i)
            ==> raw.hierarchy@[j].1 == NodeRef::System(x)
}

/// The one system that the set under the number `i` holds, where it holds
/// something and nothing but that system.
pub open spec fn only_member(raw: &RawSchedule, i: usize) -> Option<usize> {
    match first_index(raw.hierarchy@.len(), held_by_pred(raw, i)) {
        Some(k) => match raw.hierarchy@[k].1 {
            NodeRef::System(x) => if holds_only(raw, i, x) {
                Some(x)
            } else {
                None
            },
            NodeRef::SystemSet(_) => None,
        },
        None => None,
    }
}

/// What an end of an ordering pair stands for: the scheduler writes "after
/// this system" as "after the set of the systems of its type"; where that
/// set holds one system and nothing else, the pair is about that system.
pub open spec fn resolved(raw: &RawSchedule, r: NodeRef) -> NodeRef {
    match r {
        NodeRef::SystemSet(i) => if type_set(raw, i) {
            match only_member(raw, i) {
                Some(x) => NodeRef::System(x),
                None => r,
            }
        } else {
            r
        },
        NodeRef::System(_) => r,
    }
}

/// The ordering pair at `k`, each end resolved.
pub open spec fn dependency_pair(raw: &RawSchedule, k: int) -> (NodeRef, NodeRef) {
    (resolved(raw, raw.dependency@[k].0), resolved(raw, raw.dependency@[k].1))
}

/// The numbers of the systems that were read, in rising order.
pub open spec fn system_numbers(raw: &RawSchedule) -> Seq<usize> {
    numbers(system_refs(raw), true)
}

/// The set under the number `i` is left out: it is the set that the
/// scheduler keeps for the systems of one type, and it holds one system and
/// nothing else. Such a set says nothing that its system does not say.
pub open spec fn left_out(raw: &RawSchedule, i: usize) -> bool {
    type_set(raw, i) && only_member(raw, i) is Some
}

/// The number that the set at `k` stands under, unless the set is left out.
pub open spec fn kept_set_at(raw: &RawSchedule, k: int) -> Option<NodeRef> {
    match raw.sets@[k].id {
        NodeRef::SystemSet(i) => if left_out(raw, i) {
            None
        } else {
            Some(raw.sets@[k].id)
        },
        NodeRef::System(_) => Some(raw.sets@[k].id),
    }
}

/// `kept_set_at` as a selection.
pub open spec fn kept_set_fn(raw: &RawSchedule) -> spec_fn(int) -> Option<NodeRef> {
    |k: int| kept_set_at(raw, k)
}

/// The numbers that the first `n` sets stand under, without those of the
/// sets that are left out.
pub open spec fn kept_set_refs(raw: &RawSchedule, n: nat) -> Seq<NodeRef> {
    gather(n, kept_set_fn(raw))
}

/// The numbers of the sets that were read and are not left out, in rising
/// order.
pub open spec fn set_numbers(raw: &RawSchedule) -> Seq<usize> {
    numbers(kept_set_refs(raw, raw.sets@.len()), false)
}

/// The containment pair at `k` says what a set holds that is left out.
pub open spec fn skipped(raw: &RawSchedule, k: int) -> bool {
    match raw.hierarchy@[k].0 {
        NodeRef::SystemSet(i) => left_out(raw, i),
        NodeRef::System(_) => false,
    }
}

/// The containment pair at `k`, what is held resolved.
pub open spec fn hierarchy_pair(raw: &RawSchedule, k: int) -> (NodeRef, NodeRef) {
    (raw.hierarchy@[k].0, resolved(raw, raw.hierarchy@[k].1))
}

/// The containment pairs that name a node that was not read, or hold
/// something in what is no set.
pub open spec fn lost_hierarchy(raw: &RawSchedule) -> spec_fn(int) -> bool {
    |k: int|
        !skipped(raw, k) && hierarchy_entry(
            system_numbers(raw),
            set_numbers(raw),
            hierarchy_pair(raw, k),
        ) is None
}

/// The containment entry that the pair at `k` gives, unless it is skipped.
pub open spec fn kept_entry_at(raw: &RawSchedule, k: int) -> Option<(usize, NodeRef)> {
    if skipped(raw, k) {
        None
    } else {
        hierarchy_entry(system_numbers(raw), set_numbers(raw), hierarchy_pair(raw, k))
    }
}

/// `kept_entry_at` as a selection.
pub open spec fn kept_entry_fn(raw: &RawSchedule) -> spec_fn(int) -> Option<(usize, NodeRef)> {
    |k: int| kept_entry_at(raw, k)
}

/// The containment entries that the first `n` pairs give.
pub open spec fn kept_entries(raw: &RawSchedule, n: nat) -> Seq<(usize, NodeRef)> {
    gather(n, kept_entry_fn(raw))
}

/// The ordering pairs that name a node that was not read.
pub open spec fn lost_dependency(raw: &RawSchedule) -> spec_fn(int) -> bool {
    |k: int| dependency_entry(system_numbers(raw), set_numbers(raw), dependency_pair(raw, k)) is None
}

/// The conflicts that name something other than two systems that were read.
pub open spec fn lost_conflict(raw: &RawSchedule) -> spec_fn(int) -> bool {
    |k: int| ambiguity_entry(system_numbers(raw), set_numbers(raw), raw.conflicts@[k]) is None
}

/// The first problem of what was read, if there is one.
pub open spec fn raw_check(raw: &RawSchedule) -> Result<(), GraphError> {
    if system_numbers(raw).len() + set_numbers(raw).len() > usize::MAX {
        Err(GraphError::TooManyNodes)
    } else {
        match first_index(raw.hierarchy@.len(), lost_hierarchy(raw)) {
            Some(k) => Err(GraphError::DanglingHierarchy(k as usize)),
            None => match first_index(raw.dependency@.len(), lost_dependency(raw)) {
                Some(k) => Err(GraphError::DanglingDependency(k as usize)),
                None => match first_index(raw.conflicts@.len(), lost_conflict(raw)) {
                    Some(k) => Err(GraphError::DanglingAmbiguity(k as usize)),
                    None => Ok(()),
                },
            },
        }
    }
}

/// `system` is the first system that was read under the number `x`.
pub open spec fn system_from(raw: &RawSchedule, x: usize, system: SystemInfo) -> bool {
    match entry_of(system_refs(raw), true, x) {
        Some(k) => {
            &&& system.name@ == raw.systems@[k].name@
            &&& system.reads@ == raw.systems@[k].reads@
            &&& system.writes@ == raw.systems@[k].writes@
        },
        None => system.name@.len() == 0 && system.reads@.len() == 0 && system.writes@.len() == 0,
    }
}

/// `set` is the first set that was read under the number `x`.
pub open spec fn set_from(raw: &RawSchedule, x: usize, set: SetInfo) -> bool {
    match entry_of(set_refs(raw), false, x) {
        Some(k) => set.name@ == raw.sets@[k].name@,
        None => set.name@.len() == 0,
    }
}

/// `d` is what was read, put in order: its systems and its sets by rising
/// number, each as the first entry under its number; and every pair
/// rewritten to positions in these lists. The set that the scheduler keeps
/// for the systems of one type is left out where it holds one system and
/// nothing else, together with the containment pair that says so, and
/// wherever else it is named its system stands for it.
pub open spec fn put_in_order(raw: &RawSchedule, d: &ScheduleData) -> bool {
    let sys_ids = system_numbers(raw);
    let set_ids = set_numbers(raw);
    &&& d.label@ == raw.label@
    &&& d.systems@.len() == sys_ids.len()
    &&& forall|p: int| 0 <= p < sys_ids.len() ==> system_from(raw, sys_ids[p], #[trigger] d.systems@[p])
    &&& d.sets@.len() == set_ids.len()
    &&& forall|p: int| 0 <= p < set_ids.len() ==> set_from(raw, set_ids[p], #[trigger] d.sets@[p])
    &&& d.hierarchy@ == kept_entries(raw, raw.hierarchy@.len())
    &&& d.dependency@.len() == raw.dependency@.len()
    &&& forall|k: int|
        0 <= k < raw.dependency@.len() ==> Some(#[trigger] d.dependency@[k]) == dependency_entry(
            sys_ids,
            set_ids,
            dependency_pair(raw, k),
        )
    &&& d.ambiguities@.len() == raw.conflicts@.len()
    &&& forall|k: int|
        0 <= k < raw.conflicts@.len() ==> Some(#[trigger] d.ambiguities@[k]) == ambiguity_entry(
            sys_ids,
            set_ids,
            raw.conflicts@[k],
        )
}

/// The number that `r` carries, if it names a node of the wanted kind.
pub fn number(r: NodeRef, system: bool) -> (x: Option<usize>)
    ensures
        x == number_of(r, system),
{
    match r {
        NodeRef::System(i) => if system {
            Some(i)
        } else {
            None
        },
        NodeRef::SystemSet(i) => if system {
            None
        } else {
            Some(i)
        },
    }
}

/// The numbers of the references of the wanted kind, each once, rising.
#[verifier::loop_isolation(false)]
pub fn sorted_numbers(refs: &Vec<NodeRef>, system: bool) -> (ids: Vec<usize>)
    ensures
        ids@ == numbers(refs@, system),
{
    let n = refs.len();
    let mut ids: Vec<usize> = Vec::new();
    let mut bound: Option<usize> = None;
    assert(ids@ + numbers_from(refs@, system, bound, n as nat) == numbers(refs@, system));
    while ids.len() < n
        invariant
            ids@.len() <= n,
            ids@ + numbers_from(refs@, system, bound, (n - ids@.len()) as nat) == numbers(
                refs@,
                system,
            ),
        decreases n - ids.len(),
    {
        let mut best: Option<usize> = None;
        let mut k: usize = 0;
        while k < n
            invariant
                k <= n,
                best == least_above(refs@, system, bound, k as nat),
            decreases n - k,
        {
            match number(refs[k], system) {
                Some(x) => {
                    let above = match bound {
                        None => true,
                        Some(b) => x > b,
                    };
                    let below = match best {
                        None => true,
                        Some(b) => x < b,
                    };
                    if above && below {
                        best = Some(x);
                    }
                },
                None => {},
            }
            k += 1;
        }
        let ghost before = ids@;
        let ghost fuel = (n - ids@.len()) as nat;
        match best {
            None => {
                assert(numbers_from(refs@, system, bound, fuel) == Seq::<usize>::empty());
                assert(ids@ + Seq::<usize>::empty() == ids@);
                return ids;
            },
            Some(x) => {
                let ghost rest = numbers_from(refs@, system, Some(x), (fuel - 1) as nat);
                assert(numbers_from(refs@, system, bound, fuel) == seq![x] + rest);
                ids.push(x);
                assert(ids@ == before + seq![x]);
                assert(before + (seq![x] + rest) == ids@ + rest);
                bound = Some(x);
            },
        }
    }
    assert(numbers_from(refs@, system, bound, 0) == Seq::<usize>::empty());
    assert(ids@ + Seq::<usize>::empty() == ids@);
    ids
}

/// The position of the first reference that carries the number `x`.
#[verifier::loop_isolation(false)]
pub fn find_entry(refs: &Vec<NodeRef>, system: bool, x: usize) -> (r: Option<usize>)
    ensures
        match r {
            Some(k) => entry_of(refs@, system, x) == Some(k as int) && k < refs@.len(),
            None => entry_of(refs@, system, x) is None,
        },
{
    let mut k: usize = 0;
    while k < refs.len()
        invariant
            k <= refs.len(),
            forall|j: int| 0 <= j < k ==> number_of(#[trigger] refs@[j], system) != Some(x),
        decreases refs.len() - k,
    {
        let found = match number(refs[k], system) {
            Some(y) => y == x,
            None => false,
        };
        if found {
            proof {
                lemma_first_index_is(refs@.len(), numbered_pred(refs@, system, x), k as int);
            }
            return Some(k);
        }
        k += 1;
    }
    proof {
        lemma_first_index_none(refs@.len(), numbered_pred(refs@, system, x));
    }
    None
}

/// The first position at which `ids` holds `x`.
#[verifier::loop_isolation(false)]
pub fn find_position(ids: &Vec<usize>, x: usize) -> (r: Option<usize>)
    ensures
        match r {
            Some(p) => first_index(ids@.len(), holds_pred(ids@, x)) == Some(p as int) && p
                < ids@.len(),
            None => first_index(ids@.len(), holds_pred(ids@, x)) is None,
        },
{
    let mut p: usize = 0;
    while p < ids.len()
        invariant
            p <= ids.len(),
            forall|j: int| 0 <= j < p ==> #[trigger] ids@[j] != x,
        decreases ids.len() - p,
    {
        if ids[p] == x {
            proof {
                lemma_first_index_is(ids@.len(), holds_pred(ids@, x), p as int);
            }
            return Some(p);
        }
        p += 1;
    }
    proof {
        lemma_first_index_none(ids@.len(), holds_pred(ids@, x));
    }
    None
}

/// The node that `r` names, by its position in the ordered lists.
pub fn place(sys_ids: &Vec<usize>, set_ids: &Vec<usize>, r: NodeRef) -> (t: Option<NodeRef>)
    ensures
        t == placed(sys_ids@, set_ids@, r),
        match t {
            Some(NodeRef::System(p)) => p < sys_ids@.len(),
            Some(NodeRef::SystemSet(p)) => p < set_ids@.len(),
            None => true,
        },
{
    match r {
        NodeRef::System(i) => match find_position(sys_ids, i) {
            Some(p) => Some(NodeRef::System(p)),
            None => None,
        },
        NodeRef::SystemSet(i) => match find_position(set_ids, i) {
            Some(p) => Some(NodeRef::SystemSet(p)),
            None => None,
        },
    }
}

/// What an end of an ordering pair stands for.
#[verifier::loop_isolation(false)]
pub fn resolve(raw: &RawSchedule, set_list: &Vec<NodeRef>, r: NodeRef) -> (t: NodeRef)
    requires
        set_list@ == set_refs(raw),
    ensures
        t == resolved(raw, r),
{
    let i = match r {
        NodeRef::SystemSet(i) => i,
        NodeRef::System(_) => {
            return r;
        },
    };
    let typed = match find_entry(set_list, false, i) {
        Some(k) => raw.sets[k].system_type,
        None => false,
    };
    if !typed {
        return r;
    }
    let mut k: usize = 0;
    while k < raw.hierarchy.len()
        invariant
            k <= raw.hierarchy.len(),
            forall|j: int| 0 <= j < k ==> #[trigger] raw.hierarchy@[j].0 != NodeRef::SystemSet(i),
        decreases raw.hierarchy.len() - k,
    {
        if raw.hierarchy[k].0 == NodeRef::SystemSet(i) {
            break ;
        }
        k += 1;
    }
    if k >= raw.hierarchy.len() {
        proof {
            lemma_first_index_none(raw.hierarchy@.len(), held_by_pred(raw, i));
        }
        return r;
    }
    proof {
        lemma_first_index_is(raw.hierarchy@.len(), held_by_pred(raw, i), k as int);
    }
    let x = match raw.hierarchy[k].1 {
        NodeRef::System(x) => x,
        NodeRef::SystemSet(_) => {
            return r;
        },
    };
    let mut j: usize = 0;
    while j < raw.hierarchy.len()
        invariant
            j <= raw.hierarchy.len(),
            forall|m: int|
                0 <= m < j && (#[trigger] raw.hierarchy@[m]).0 == NodeRef::SystemSet(i)
                    ==> raw.hierarchy@[m].1 == NodeRef::System(x),
        decreases raw.hierarchy.len() - j,
    {
        let e = raw.hierarchy[j];
        if e.0 == NodeRef::SystemSet(i) && e.1 != NodeRef::System(x) {
            assert(!holds_only(raw, i, x));
            return r;
        }
        j += 1;
    }
    assert(holds_only(raw, i, x));
    NodeRef::System(x)
}

/// A copy of `list`.
#[verifier::loop_isolation(false)]
pub fn copy_list(list: &Vec<usize>) -> (r: Vec<usize>)
    ensures
        r@ == list@,
{
    let mut r: Vec<usize> = Vec::new();
    let mut k: usize = 0;
    while k < list.len()
        invariant
            k <= list.len(),
            r@ == list@.subrange(0, k as int),
        decreases list.len() - k,
    {
        r.push(list[k]);
        assert(list@.subrange(0, k + 1) == list@.subrange(0, k as int).push(list@[k as int]));
        k += 1;
    }
    assert(list@.subrange(0, k as int) == list@);
    r
}

/// Puts what was read of a schedule in order. A pair that names a node
/// that was not read, a containment pair whose holder is no set, and a
/// conflict that is not between two systems are problems, and the first of
/// them is the error. What comes out passes the check of references.
#[verifier::loop_isolation(false)]
pub fn assemble(raw: &RawSchedule) -> (r: Result<ScheduleData, GraphError>)
    ensures
        match raw_check(raw) {
            Err(e) => r is Err && r->Err_0 == e,
            Ok(_) => r is Ok && put_in_order(raw, &r->Ok_0) && refs_check(&r->Ok_0) is Ok,
        },
{
    let mut system_list: Vec<NodeRef> = Vec::new();
    let mut k: usize = 0;
    while k < raw.systems.len()
        invariant
            k <= raw.systems.len(),
            system_list@.len() == k,
            forall|j: int| 0 <= j < k ==> #[trigger] system_list@[j] == raw.systems@[j].id,
        decreases raw.systems.len() - k,
    {
        system_list.push(raw.systems[k].id);
        k += 1;
    }
    assert(system_list@ =~= system_refs(raw));
    let mut set_list: Vec<NodeRef> = Vec::new();
    let mut k: usize = 0;
    while k < raw.sets.len()
        invariant
            k <= raw.sets.len(),
            set_list@.len() == k,
            forall|j: int| 0 <= j < k ==> #[trigger] set_list@[j] == raw.sets@[j].id,
        decreases raw.sets.len() - k,
    {
        set_list.push(raw.sets[k].id);
        k += 1;
    }
    assert(set_list@ =~= set_refs(raw));
    let mut kept_list: Vec<NodeRef> = Vec::new();
    let mut k: usize = 0;
    while k < raw.sets.len()
        invariant
            k <= raw.sets.len(),
            kept_list@ == kept_set_refs(raw, k as nat),
        decreases raw.sets.len() - k,
    {
        let id = raw.sets[k].id;
        let gone = match (id, resolve(raw, &set_list, id)) {
            (NodeRef::SystemSet(_), NodeRef::System(_)) => true,
            _ => false,
        };
        assert(gone == (kept_set_at(raw, k as int) is None));
        if !gone {
            kept_list.push(id);
        }
        k += 1;
    }
    let sys_ids = sorted_numbers(&system_list, true);
    let set_ids = sorted_numbers(&kept_list, false);
    if set_ids.len() > usize::MAX - sys_ids.len() {
        return Err(GraphError::TooManyNodes);
    }
    let mut hierarchy: Vec<(usize, NodeRef)> = Vec::new();
    let mut k: usize = 0;
    while k < raw.hierarchy.len()
        invariant
            k <= raw.hierarchy.len(),
            hierarchy@ == kept_entries(raw, k as nat),
            forall|j: int| 0 <= j < k ==> !#[trigger] lost_hierarchy(raw)(j),
            forall|j: int|
                0 <= j < hierarchy@.len() ==> (#[trigger] hierarchy@[j]).0 < set_ids@.len()
                    && match hierarchy@[j].1 {
                    NodeRef::System(p) => p < sys_ids@.len(),
                    NodeRef::SystemSet(p) => p < set_ids@.len(),
                },
        decreases raw.hierarchy.len() - k,
    {
        let e = raw.hierarchy[k];
        let skip = match (e.0, resolve(raw, &set_list, e.0)) {
            (NodeRef::SystemSet(_), NodeRef::System(_)) => true,
            _ => false,
        };
        assert(skip == skipped(raw, k as int));
        if !skip {
            let held = resolve(raw, &set_list, e.1);
            let entry = match (place(&sys_ids, &set_ids, e.0), place(&sys_ids, &set_ids, held)) {
                (Some(NodeRef::SystemSet(p)), Some(c)) => Some((p, c)),
                _ => None,
            };
            match entry {
                Some(x) => {
                    hierarchy.push(x);
                },
                None => {
                    proof {
                        assert(lost_hierarchy(raw)(k as int));
                        lemma_first_index_is(raw.hierarchy@.len(), lost_hierarchy(raw), k as int);
                    }
                    return Err(GraphError::DanglingHierarchy(k));
                },
            }
        }
        k += 1;
    }
    proof {
        lemma_first_index_none(raw.hierarchy@.len(), lost_hierarchy(raw));
    }
    let mut dependency: Vec<(NodeRef, NodeRef)> = Vec::new();
    let mut k: usize = 0;
    while k < raw.dependency.len()
        invariant
            k <= raw.dependency.len(),
            dependency@.len() == k,
            forall|j: int|
                0 <= j < k ==> Some(#[trigger] dependency@[j]) == dependency_entry(
                    sys_ids@,
                    set_ids@,
                    dependency_pair(raw, j),
                ),
            forall|j: int|
                0 <= j < k ==> match (#[trigger] dependency@[j]).0 {
                    NodeRef::System(p) => p < sys_ids@.len(),
                    NodeRef::SystemSet(p) => p < set_ids@.len(),
                } && match dependency@[j].1 {
                    NodeRef::System(p) => p < sys_ids@.len(),
                    NodeRef::SystemSet(p) => p < set_ids@.len(),
                },
        decreases raw.dependency.len() - k,
    {
        let e = raw.dependency[k];
        let from = resolve(raw, &set_list, e.0);
        let to = resolve(raw, &set_list, e.1);
        let entry = match (place(&sys_ids, &set_ids, from), place(&sys_ids, &set_ids, to)) {
            (Some(a), Some(b)) => Some((a, b)),
            _ => None,
        };
        match entry {
            Some(x) => {
                dependency.push(x);
            },
            None => {
                proof {
                    assert forall|j: int| 0 <= j < k implies !#[trigger] lost_dependency(raw)(j) by {
                        assert(Some(dependency@[j]) == dependency_entry(
                            sys_ids@,
                            set_ids@,
                            dependency_pair(raw, j),
                        ));
                    }
                    lemma_first_index_is(raw.dependency@.len(), lost_dependency(raw), k as int);
                }
                return Err(GraphError::DanglingDependency(k));
            },
        }
        k += 1;
    }
    proof {
        assert forall|j: int| 0 <= j < raw.dependency@.len() implies !#[trigger] lost_dependency(
            raw,
        )(j) by {
            assert(Some(dependency@[j]) == dependency_entry(
                sys_ids@,
                set_ids@,
                dependency_pair(raw, j),
            ));
        }
        lemma_first_index_none(raw.dependency@.len(), lost_dependency(raw));
    }
    let mut ambiguities: Vec<(usize, usize)> = Vec::new();
    let mut k: usize = 0;
    while k < raw.conflicts.len()
        invariant
            k <= raw.conflicts.len(),
            ambiguities@.len() == k,
            forall|j: int|
                0 <= j < k ==> Some(#[trigger] ambiguities@[j]) == ambiguity_entry(
                    sys_ids@,
                    set_ids@,
                    raw.conflicts@[j],
                ),
            forall|j: int|
                0 <= j < k ==> (#[trigger] ambiguities@[j]).0 < sys_ids@.len() && ambiguities@[j].1
                    < sys_ids@.len(),
        decreases raw.conflicts.len() - k,
    {
        let e = raw.conflicts[k];
        let entry = match (place(&sys_ids, &set_ids, e.0), place(&sys_ids, &set_ids, e.1)) {
            (Some(NodeRef::System(a)), Some(NodeRef::System(b))) => Some((a, b)),
            _ => None,
        };
        match entry {
            Some(x) => {
                ambiguities.push(x);
            },
            None => {
                proof {
                    assert forall|j: int| 0 <= j < k implies !#[trigger] lost_conflict(raw)(j) by {
                        assert(Some(ambiguities@[j]) == ambiguity_entry(
                            sys_ids@,
                            set_ids@,
                            raw.conflicts@[j],
                        ));
                    }
                    lemma_first_index_is(raw.conflicts@.len(), lost_conflict(raw), k as int);
                }
                return Err(GraphError::DanglingAmbiguity(k));
            },
        }
        k += 1;
    }
    proof {
        assert forall|j: int| 0 <= j < raw.conflicts@.len() implies !#[trigger] lost_conflict(raw)(
            j,
        ) by {
            assert(Some(ambiguities@[j]) == ambiguity_entry(sys_ids@, set_ids@, raw.conflicts@[j]));
        }
        lemma_first_index_none(raw.conflicts@.len(), lost_conflict(raw));
    }
    let mut systems: Vec<SystemInfo> = Vec::new();
    let mut p: usize = 0;
    while p < sys_ids.len()
        invariant
            p <= sys_ids.len(),
            systems@.len() == p,
            forall|q: int| 0 <= q < p ==> system_from(raw, sys_ids@[q], #[trigger] systems@[q]),
        decreases sys_ids.len() - p,
    {
        let system = match find_entry(&system_list, true, sys_ids[p]) {
            Some(k) => SystemInfo {
                name: copy_text(raw.systems[k].name.as_str()),
                reads: copy_list(&raw.systems[k].reads),
                writes: copy_list(&raw.systems[k].writes),
            },
            None => SystemInfo { name: String::new(), reads: Vec::new(), writes: Vec::new() },
        };
        systems.push(system);
        p += 1;
    }
    let mut sets: Vec<SetInfo> = Vec::new();
    let mut p: usize = 0;
    while p < set_ids.len()
        invariant
            p <= set_ids.len(),
            sets@.len() == p,
            forall|q: int| 0 <= q < p ==> set_from(raw, set_ids@[q], #[trigger] sets@[q]),
        decreases set_ids.len() - p,
    {
        let set = match find_entry(&set_list, false, set_ids[p]) {
            Some(k) => SetInfo { name: copy_text(raw.sets[k].name.as_str()) },
            None => SetInfo { name: String::new() },
        };
        sets.push(set);
        p += 1;
    }
    let d = ScheduleData {
        label: copy_text(raw.label.as_str()),
        systems,
        sets,
        hierarchy,
        dependency,
        ambiguities,
    };
    proof {
        assert forall|j: int| 0 <= j < d.hierarchy@.len() implies !#[trigger] bad_hierarchy(&d)(j) by {
            assert(d.hierarchy@[j].0 < set_ids@.len());
            assert(d.hierarchy_ok(j));
        }
        lemma_first_index_none(d.hierarchy@.len(), bad_hierarchy(&d));
        assert forall|j: int| 0 <= j < d.dependency@.len() implies !#[trigger] bad_dependency(&d)(
            j,
        ) by {
            assert(d.dependency@[j] == d.dependency@[j]);
            assert(d.dependency_ok(j));
        }
        lemma_first_index_none(d.dependency@.len(), bad_dependency(&d));
        assert forall|j: int| 0 <= j < d.ambiguities@.len() implies !#[trigger] bad_ambiguity(&d)(
            j,
        ) by {
            assert(d.ambiguities@[j].0 < sys_ids@.len());
            assert(d.ambiguity_ok(j));
        }
        lemma_first_index_none(d.ambiguities@.len(), bad_ambiguity(&d));
    }
    Ok(d)
}

/// Reads a schedule and puts what was read in order: the outcome is what
/// `assemble` makes of what the schedule holds.
pub fn capture_schedule(schedule: &bevy_ecs::schedule::Schedule) -> (r: Result<
    ScheduleData,
    GraphError,
>)
    ensures
        r is Ok ==> refs_check(&r->Ok_0) is Ok,
        exists|raw: RawSchedule|
            reads_as(*schedule, &raw) && match #[trigger] raw_check(&raw) {
                Err(e) => r is Err && r->Err_0 == e,
                Ok(_) => r is Ok && put_in_order(&raw, &r->Ok_0),
            },
{
    let raw = read_schedule(schedule);
    let r = assemble(&raw);
    assert(reads_as(*schedule, &raw) && match raw_check(&raw) {
        Err(e) => r is Err && r->Err_0 == e,
        Ok(_) => r is Ok && put_in_order(&raw, &r->Ok_0),
    });
    r
}

/// `d` holds an identifier and nothing else.
pub open spec fn bare(d: &ScheduleData, label: Seq<char>) -> bool {
    &&& d.label@ == label
    &&& d.systems@.len() == 0
    &&& d.sets@.len() == 0
    &&& d.hierarchy@.len() == 0
    &&& d.dependency@.len() == 0
    &&& d.ambiguities@.len() == 0
}

/// What there is to ask about a schedule before it is decided whether to
/// draw it: what the schedule holds, put in order; or, where that cannot
/// be put in order, its identifier alone. The call never fails, so that a
/// schedule that is not wanted cannot fail a picture.
pub fn capture_outline(schedule: &bevy_ecs::schedule::Schedule) -> (d: ScheduleData)
    ensures
        exists|raw: RawSchedule|
            reads_as(*schedule, &raw) && match #[trigger] raw_check(&raw) {
                Err(_) => bare(&d, raw.label@),
                Ok(_) => put_in_order(&raw, &d),
            },
{
    let raw = read_schedule(schedule);
    let d = match assemble(&raw) {
        Ok(d) => d,
        Err(_) => ScheduleData {
            label: copy_text(raw.label.as_str()),
            systems: Vec::new(),
            sets: Vec::new(),
            hierarchy: Vec::new(),
            dependency: Vec::new(),
            ambiguities: Vec::new(),
        },
    };
    assert(reads_as(*schedule, &raw) && match raw_check(&raw) {
        Err(_) => bare(&d, raw.label@),
        Ok(_) => put_in_order(&raw, &d),
    });
    d
}

/// A host with these schedules and with the names of the components and
/// resources that `world` holds, each at the position that the accesses of
/// systems name it by. It holds no render graph.
pub fn capture_host(world: &bevy_ecs::world::World, schedules: Vec<ScheduleData>) -> (host: HostData)
    ensures
        host.schedules@ == schedules@,
        text_views(host.resources@) == held_components(*world),
        host.render_graph is None,
{
    HostData { resources: read_components(world), schedules, render_graph: None }
}

/// Whether `a` comes before `b`, number by number.
pub open spec fn seq_less(a: Seq<usize>, b: Seq<usize>) -> bool
    decreases a.len(),
{
    if b.len() == 0 {
        false
    } else if a.len() == 0 {
        true
    } else if a[0] != b[0] {
        a[0] < b[0]
    } else {
        seq_less(a.skip(1), b.skip(1))
    }
}

/// No list of numbers comes before itself.
pub proof fn lemma_seq_irreflexive(a: Seq<usize>)
    ensures
        !seq_less(a, a),
    decreases a.len(),
{
    if a.len() > 0 {
        lemma_seq_irreflexive(a.skip(1));
    }
}

/// The order of lists of numbers is transitive.
pub proof fn lemma_seq_trans(a: Seq<usize>, b: Seq<usize>, c: Seq<usize>)
    requires
        seq_less(a, b),
        seq_less(b, c),
    ensures
        seq_less(a, c),
    decreases a.len(),
{
    if a.len() > 0 {
        if a[0] == b[0] && b[0] == c[0] {
            lemma_seq_trans(a.skip(1), b.skip(1), c.skip(1));
        }
    }
}

/// Of two different lists of numbers one comes before the other.
pub proof fn lemma_seq_total(a: Seq<usize>, b: Seq<usize>)
    ensures
        a == b || seq_less(a, b) || seq_less(b, a),
    decreases a.len(),
{
    if a.len() == 0 || b.len() == 0 {
        if a.len() == 0 && b.len() == 0 {
            assert(a =~= b);
        }
    } else if a[0] == b[0] {
        lemma_seq_total(a.skip(1), b.skip(1));
        if a.skip(1) == b.skip(1) {
            assert(a =~= seq![a[0]] + a.skip(1));
            assert(b =~= seq![b[0]] + b.skip(1));
        }
    }
}

/// Whether `a` comes before `b`, number by number.
#[verifier::loop_isolation(false)]
pub fn list_less(a: &Vec<usize>, b: &Vec<usize>) -> (r: bool)
    ensures
        r == seq_less(a@, b@),
{
    let mut i: usize = 0;
    assert(a@.skip(0) =~= a@);
    assert(b@.skip(0) =~= b@);
    loop
        invariant
            i <= a.len(),
            i <= b.len(),
            seq_less(a@, b@) == seq_less(a@.skip(i as int), b@.skip(i as int)),
        decreases a.len() - i,
    {
        if i >= b.len() {
            return false;
        }
        if i >= a.len() {
            return true;
        }
        proof {
            assert(a@.skip(i as int)[0] == a@[i as int]);
            assert(b@.skip(i as int)[0] == b@[i as int]);
            assert(a@.skip(i as int).skip(1) =~= a@.skip(i + 1));
            assert(b@.skip(i as int).skip(1) =~= b@.skip(i + 1));
        }
        if a[i] != b[i] {
            return a[i] < b[i];
        }
        i += 1;
    }
}

/// The codes of the first `k` characters of `s`.
pub open spec fn chars_code(s: Seq<char>, k: nat) -> Seq<usize>
    decreases k,
{
    if k == 0 {
        Seq::empty()
    } else {
        chars_code(s, (k - 1) as nat).push(s[k - 1] as u32 as usize)
    }
}

/// A text as numbers: its length, then the code of each character.
pub open spec fn text_code(s: Seq<char>) -> Seq<usize> {
    seq![s.len() as usize] + chars_code(s, s.len())
}

/// A list of numbers as numbers: its length, then the numbers.
pub open spec fn list_code(l: Seq<usize>) -> Seq<usize> {
    seq![l.len() as usize] + l
}

/// A reference as numbers: its kind, then its position.
pub open spec fn ref_code(r: NodeRef) -> Seq<usize> {
    match r {
        NodeRef::System(i) => seq![0usize, i],
        NodeRef::SystemSet(i) => seq![1usize, i],
    }
}

/// The first `k` systems as numbers: of each its name, what it reads and
/// what it writes.
pub open spec fn systems_code(list: Seq<SystemInfo>, k: nat) -> Seq<usize>
    decreases k,
{
    if k == 0 {
        Seq::empty()
    } else {
        systems_code(list, (k - 1) as nat) + text_code(list[k - 1].name@) + list_code(
            list[k - 1].reads@,
        ) + list_code(list[k - 1].writes@)
    }
}

/// The first `k` sets as numbers: of each its name.
pub open spec fn sets_code(list: Seq<SetInfo>, k: nat) -> Seq<usize>
    decreases k,
{
    if k == 0 {
        Seq::empty()
    } else {
        sets_code(list, (k - 1) as nat) + text_code(list[k - 1].name@)
    }
}

/// The first `k` containment entries as numbers.
pub open spec fn hierarchy_code(list: Seq<(usize, NodeRef)>, k: nat) -> Seq<usize>
    decreases k,
{
    if k == 0 {
        Seq::empty()
    } else {
        hierarchy_code(list, (k - 1) as nat).push(list[k - 1].0) + ref_code(list[k - 1].1)
    }
}

/// The first `k` ordering entries as numbers.
pub open spec fn dependency_code(list: Seq<(NodeRef, NodeRef)>, k: nat) -> Seq<usize>
    decreases k,
{
    if k == 0 {
        Seq::empty()
    } else {
        dependency_code(list, (k - 1) as nat) + ref_code(list[k - 1].0) + ref_code(list[k - 1].1)
    }
}

/// The first `k` ambiguities as numbers.
pub open spec fn ambiguity_code(list: Seq<(usize, usize)>, k: nat) -> Seq<usize>
    decreases k,
{
    if k == 0 {
        Seq::empty()
    } else {
        ambiguity_code(list, (k - 1) as nat).push(list[k - 1].0).push(list[k - 1].1)
    }
}

/// The systems of a schedule as numbers, their count before them.
pub open spec fn systems_part(d: &ScheduleData) -> Seq<usize> {
    seq![d.systems@.len() as usize] + systems_code(d.systems@, d.systems@.len())
}

/// The sets of a schedule as numbers, their count before them.
pub open spec fn sets_part(d: &ScheduleData) -> Seq<usize> {
    seq![d.sets@.len() as usize] + sets_code(d.sets@, d.sets@.len())
}

/// The containment of a schedule as numbers, its length before it.
pub open spec fn hierarchy_part(d: &ScheduleData) -> Seq<usize> {
    seq![d.hierarchy@.len() as usize] + hierarchy_code(d.hierarchy@, d.hierarchy@.len())
}

/// The ordering of a schedule as numbers, its length before it.
pub open spec fn dependency_part(d: &ScheduleData) -> Seq<usize> {
    seq![d.dependency@.len() as usize] + dependency_code(d.dependency@, d.dependency@.len())
}

/// The ambiguities of a schedule as numbers, their count before them.
pub open spec fn ambiguity_part(d: &ScheduleData) -> Seq<usize> {
    seq![d.ambiguities@.len() as usize] + ambiguity_code(d.ambiguities@, d.ambiguities@.len())
}

/// Everything that a schedule holds besides its identifier, as numbers:
/// each of its lists with its length before it.
pub open spec fn signature(d: &ScheduleData) -> Seq<usize> {
    systems_part(d) + sets_part(d) + hierarchy_part(d) + dependency_part(d) + ambiguity_part(d)
}

/// Appends a text as numbers.
#[verifier::loop_isolation(false)]
pub fn push_text_code(out: &mut Vec<usize>, s: &str)
    ensures
        final(out)@ == old(out)@ + text_code(s@),
{
    let v = chars_of(s);
    out.push(v.len());
    let ghost lead = out@;
    let mut i: usize = 0;
    assert(out@ == lead + chars_code(s@, 0));
    while i < v.len()
        invariant
            i <= v.len(),
            out@ == lead + chars_code(s@, i as nat),
        decreases v.len() - i,
    {
        let c = v[i];
        out.push(c as u32 as usize);
        assert(out@ == lead + chars_code(s@, i as nat).push(v@[i as int] as u32 as usize));
        i += 1;
    }
    assert(out@ == old(out)@ + (seq![s@.len() as usize] + chars_code(s@, s@.len())));
}

/// Appends a list of numbers as numbers.
#[verifier::loop_isolation(false)]
pub fn push_list_code(out: &mut Vec<usize>, l: &Vec<usize>)
    ensures
        final(out)@ == old(out)@ + list_code(l@),
{
    out.push(l.len());
    let ghost lead = out@;
    let mut i: usize = 0;
    assert(out@ == lead + l@.subrange(0, 0));
    while i < l.len()
        invariant
            i <= l.len(),
            out@ == lead + l@.subrange(0, i as int),
        decreases l.len() - i,
    {
        out.push(l[i]);
        assert(l@.subrange(0, i + 1) == l@.subrange(0, i as int).push(l@[i as int]));
        i += 1;
    }
    assert(l@.subrange(0, i as int) == l@);
    assert(out@ == old(out)@ + (seq![l@.len() as usize] + l@));
}

/// Appends a reference as numbers.
pub fn push_ref_code(out: &mut Vec<usize>, r: NodeRef)
    ensures
        final(out)@ == old(out)@ + ref_code(r),
{
    match r {
        NodeRef::System(i) => {
            out.push(0);
            out.push(i);
            assert(out@ == old(out)@ + seq![0usize, i]);
        },
        NodeRef::SystemSet(i) => {
            out.push(1);
            out.push(i);
            assert(out@ == old(out)@ + seq![1usize, i]);
        },
    }
}

/// Appends the systems of a schedule as numbers.
pub fn push_systems_part(out: &mut Vec<usize>, d: &ScheduleData)
    ensures
        final(out)@ == old(out)@ + systems_part(d),
{
    out.push(d.systems.len());
    let ghost lead = out@;
    let mut i: usize = 0;
    assert(out@ == lead + systems_code(d.systems@, 0));
    while i < d.systems.len()
        invariant
            i <= d.systems.len(),
            out@ == lead + systems_code(d.systems@, i as nat),
        decreases d.systems.len() - i,
    {
        let ghost head = systems_code(d.systems@, i as nat);
        let ghost start = out@;
        push_text_code(out, d.systems[i].name.as_str());
        push_list_code(out, &d.systems[i].reads);
        push_list_code(out, &d.systems[i].writes);
        assert(out@ == start + text_code(d.systems@[i as int].name@) + list_code(
            d.systems@[i as int].reads@,
        ) + list_code(d.systems@[i as int].writes@));
        assert(out@ == lead + (head + text_code(d.systems@[i as int].name@) + list_code(
            d.systems@[i as int].reads@,
        ) + list_code(d.systems@[i as int].writes@)));
        i += 1;
    }
    assert(out@ == old(out)@ + (seq![d.systems@.len() as usize] + systems_code(
        d.systems@,
        d.systems@.len(),
    )));
}

/// Appends the sets of a schedule as numbers.
pub fn push_sets_part(out: &mut Vec<usize>, d: &ScheduleData)
    ensures
        final(out)@ == old(out)@ + sets_part(d),
{
    out.push(d.sets.len());
    let ghost lead = out@;
    let mut i: usize = 0;
    assert(out@ == lead + sets_code(d.sets@, 0));
    while i < d.sets.len()
        invariant
            i <= d.sets.len(),
            out@ == lead + sets_code(d.sets@, i as nat),
        decreases d.sets.len() - i,
    {
        let ghost head = sets_code(d.sets@, i as nat);
        push_text_code(out, d.sets[i].name.as_str());
        assert(out@ == lead + (head + text_code(d.sets@[i as int].name@)));
        i += 1;
    }
    assert(out@ == old(out)@ + (seq![d.sets@.len() as usize] + sets_code(d.sets@, d.sets@.len())));
}

/// Appends the containment of a schedule as numbers.
pub fn push_hierarchy_part(out: &mut Vec<usize>, d: &ScheduleData)
    ensures
        final(out)@ == old(out)@ + hierarchy_part(d),
{
    out.push(d.hierarchy.len());
    let ghost lead = out@;
    let mut i: usize = 0;
    assert(out@ == lead + hierarchy_code(d.hierarchy@, 0));
    while i < d.hierarchy.len()
        invariant
            i <= d.hierarchy.len(),
            out@ == lead + hierarchy_code(d.hierarchy@, i as nat),
        decreases d.hierarchy.len() - i,
    {
        let ghost head = hierarchy_code(d.hierarchy@, i as nat);
        let e = d.hierarchy[i];
        out.push(e.0);
        push_ref_code(out, e.1);
        assert(out@ == lead + (head.push(e.0) + ref_code(e.1)));
        i += 1;
    }
    assert(out@ == old(out)@ + (seq![d.hierarchy@.len() as usize] + hierarchy_code(
        d.hierarchy@,
        d.hierarchy@.len(),
    )));
}

/// Appends the ordering of a schedule as numbers.
pub fn push_dependency_part(out: &mut Vec<usize>, d: &ScheduleData)
    ensures
        final(out)@ == old(out)@ + dependency_part(d),
{
    out.push(d.dependency.len());
    let ghost lead = out@;
    let mut i: usize = 0;
    assert(out@ == lead + dependency_code(d.dependency@, 0));
    while i < d.dependency.len()
        invariant
            i <= d.dependency.len(),
            out@ == lead + dependency_code(d.dependency@, i as nat),
        decreases d.dependency.len() - i,
    {
        let ghost head = dependency_code(d.dependency@, i as nat);
        let e = d.dependency[i];
        push_ref_code(out, e.0);
        push_ref_code(out, e.1);
        assert(out@ == lead + (head + ref_code(e.0) + ref_code(e.1)));
        i += 1;
    }
    assert(out@ == old(out)@ + (seq![d.dependency@.len() as usize] + dependency_code(
        d.dependency@,
        d.dependency@.len(),
    )));
}

/// Appends the ambiguities of a schedule as numbers.
pub fn push_ambiguity_part(out: &mut Vec<usize>, d: &ScheduleData)
    ensures
        final(out)@ == old(out)@ + ambiguity_part(d),
{
    out.push(d.ambiguities.len());
    let ghost lead = out@;
    let mut i: usize = 0;
    assert(out@ == lead + ambiguity_code(d.ambiguities@, 0));
    while i < d.ambiguities.len()
        invariant
            i <= d.ambiguities.len(),
            out@ == lead + ambiguity_code(d.ambiguities@, i as nat),
        decreases d.ambiguities.len() - i,
    {
        let ghost head = ambiguity_code(d.ambiguities@, i as nat);
        let e = d.ambiguities[i];
        out.push(e.0);
        out.push(e.1);
        assert(out@ == lead + head.push(e.0).push(e.1));
        i += 1;
    }
    assert(out@ == old(out)@ + (seq![d.ambiguities@.len() as usize] + ambiguity_code(
        d.ambiguities@,
        d.ambiguities@.len(),
    )));
}

/// Everything that a schedule holds besides its identifier, as numbers.
pub fn signature_of(d: &ScheduleData) -> (out: Vec<usize>)
    ensures
        out@ == signature(d),
{
    let mut out: Vec<usize> = Vec::new();
    push_systems_part(&mut out, d);
    push_sets_part(&mut out, d);
    push_hierarchy_part(&mut out, d);
    push_dependency_part(&mut out, d);
    push_ambiguity_part(&mut out, d);
    assert(out@ == Seq::<usize>::empty() + systems_part(d) + sets_part(d) + hierarchy_part(d)
        + dependency_part(d) + ambiguity_part(d));
    assert(Seq::<usize>::empty() + systems_part(d) == systems_part(d));
    out
}

/// Whether the schedule `a` comes before `b`: by its identifier in the
/// order of a dictionary and, where the identifiers are one, by what the
/// schedules hold.
pub open spec fn earlier(a: ScheduleData, b: ScheduleData) -> bool {
    lex_less(a.label@, b.label@) || (a.label@ == b.label@ && seq_less(
        signature(&a),
        signature(&b),
    ))
}

/// No schedule comes before itself.
pub proof fn lemma_earlier_irreflexive(a: ScheduleData)
    ensures
        !earlier(a, a),
{
    crate::ident::lemma_lex_irreflexive(a.label@);
    lemma_seq_irreflexive(signature(&a));
}

/// The order of schedules is transitive.
pub proof fn lemma_earlier_trans(a: ScheduleData, b: ScheduleData, c: ScheduleData)
    requires
        earlier(a, b),
        earlier(b, c),
    ensures
        earlier(a, c),
{
    if lex_less(a.label@, b.label@) && lex_less(b.label@, c.label@) {
        crate::ident::lemma_lex_trans(a.label@, b.label@, c.label@);
    }
    if seq_less(signature(&a), signature(&b)) && seq_less(signature(&b), signature(&c)) {
        lemma_seq_trans(signature(&a), signature(&b), signature(&c));
    }
}

/// The order of schedules leaves open only what makes no difference to
/// it: two schedules of which neither comes before the other have the
/// same identifier and hold what is written with the same numbers.
pub proof fn law_order_of_schedules_is_total(a: ScheduleData, b: ScheduleData)
    requires
        !earlier(a, b),
        !earlier(b, a),
    ensures
        a.label@ == b.label@,
        signature(&a) == signature(&b),
{
    crate::ident::lemma_lex_total(a.label@, b.label@);
    lemma_seq_total(signature(&a), signature(&b));
}

/// No schedule comes before one that stands earlier in the list: the
/// identifiers rise in the order of a dictionary, and schedules with one
/// identifier stand in the order of what they hold.
pub open spec fn rising_labels(list: Seq<ScheduleData>) -> bool {
    forall|i: int, j: int|
        0 <= i < j < list.len() ==> !earlier(#[trigger] list[j], #[trigger] list[i])
}

/// The position of the first among the first `k` schedules that no other
/// of them comes before.
pub open spec fn least_label(list: Seq<ScheduleData>, k: nat) -> int
    decreases k,
{
    if k <= 1 {
        0
    } else {
        let prev = least_label(list, (k - 1) as nat);
        if earlier(list[k - 1], list[prev]) {
            k - 1
        } else {
            prev
        }
    }
}

/// The schedules in the order of their identifiers, those with one
/// identifier in the order of what they hold; schedules that hold the same
/// under one identifier stay in the order they had.
pub open spec fn by_label(list: Seq<ScheduleData>) -> Seq<ScheduleData>
    decreases list.len(),
{
    if list.len() == 0 {
        Seq::empty()
    } else {
        let m = least_label(list, list.len());
        if 0 <= m < list.len() {
            seq![list[m]] + by_label(list.remove(m))
        } else {
            Seq::empty()
        }
    }
}

/// Puts schedules in the order of their identifiers, and schedules with
/// one identifier in the order of what they hold. The scheduler hands its
/// schedules out in no fixed order; drawn in this order, the same
/// schedules always give the same picture.
#[verifier::loop_isolation(false)]
pub fn sort_by_label(schedules: Vec<ScheduleData>) -> (sorted: Vec<ScheduleData>)
    ensures
        sorted@ == by_label(schedules@),
        sorted@.to_multiset() == schedules@.to_multiset(),
        rising_labels(sorted@),
{
    broadcast use {
        vstd::seq_lib::to_multiset_build,
        vstd::seq_lib::to_multiset_remove,
        vstd::seq_lib::to_multiset_len,
        vstd::seq_lib::to_multiset_contains,
    };

    let mut rest = schedules;
    let mut keys: Vec<Vec<char>> = Vec::new();
    let mut marks: Vec<Vec<usize>> = Vec::new();
    let mut i: usize = 0;
    while i < rest.len()
        invariant
            i <= rest.len(),
            rest == schedules,
            keys@.len() == i,
            marks@.len() == i,
            forall|k: int| 0 <= k < i ==> (#[trigger] keys@[k])@ == rest@[k].label@,
            forall|k: int| 0 <= k < i ==> (#[trigger] marks@[k])@ == signature(&rest@[k]),
        decreases rest.len() - i,
    {
        keys.push(chars_of(rest[i].label.as_str()));
        marks.push(signature_of(&rest[i]));
        i += 1;
    }
    let mut sorted: Vec<ScheduleData> = Vec::new();
    assert(sorted@.to_multiset() =~= vstd::multiset::Multiset::empty()) by {
        assert forall|x: ScheduleData| sorted@.to_multiset().count(x) == 0 by {
            assert(!sorted@.contains(x));
        }
    }
    assert(sorted@.to_multiset().add(rest@.to_multiset()) =~= schedules@.to_multiset());
    assert(sorted@ + by_label(rest@) == by_label(schedules@));
    while rest.len() > 0
        invariant
            keys@.len() == rest@.len(),
            marks@.len() == rest@.len(),
            sorted@ + by_label(rest@) == by_label(schedules@),
            forall|k: int| 0 <= k < rest@.len() ==> (#[trigger] keys@[k])@ == rest@[k].label@,
            forall|k: int| 0 <= k < rest@.len() ==> (#[trigger] marks@[k])@ == signature(&rest@[k]),
            sorted@.to_multiset().add(rest@.to_multiset()) == schedules@.to_multiset(),
            rising_labels(sorted@),
            forall|a: int, b: int|
                0 <= a < sorted@.len() && 0 <= b < rest@.len() ==> !earlier(
                    #[trigger] rest@[b],
                    #[trigger] sorted@[a],
                ),
        decreases rest.len(),
    {
        let mut least: usize = 0;
        let mut j: usize = 1;
        proof {
            lemma_earlier_irreflexive(rest@[0]);
        }
        while j < rest.len()
            invariant
                1 <= j <= rest.len(),
                least < j,
                least == least_label(rest@, j as nat),
                forall|k: int| 0 <= k < j ==> !earlier(#[trigger] rest@[k], rest@[least as int]),
            decreases rest.len() - j,
        {
            let first = text_less(&keys[j], &keys[least]) || (text_same(&keys[j], &keys[least])
                && list_less(&marks[j], &marks[least]));
            assert(first == earlier(rest@[j as int], rest@[least as int]));
            if first {
                proof {
                    assert forall|k: int| 0 <= k < j + 1 implies !earlier(
                        #[trigger] rest@[k],
                        rest@[j as int],
                    ) by {
                        lemma_earlier_irreflexive(rest@[j as int]);
                        if k < j && earlier(rest@[k], rest@[j as int]) {
                            lemma_earlier_trans(rest@[k], rest@[j as int], rest@[least as int]);
                        }
                    }
                }
                least = j;
            }
            j += 1;
        }
        let ghost before = rest@;
        let ghost done = sorted@;
        let x = rest.remove(least);
        let _ = keys.remove(least);
        let _ = marks.remove(least);
        sorted.push(x);
        proof {
            assert(by_label(before) == seq![x] + by_label(rest@));
            assert(sorted@ + by_label(rest@) == done + (seq![x] + by_label(rest@)));
            assert(sorted@.to_multiset() =~= done.to_multiset().insert(x));
            assert(rest@.to_multiset() =~= before.to_multiset().remove(x));
            assert(before.to_multiset().count(x) > 0) by {
                assert(before.contains(before[least as int]));
                vstd::seq_lib::to_multiset_contains(before, x);
            }
            assert(sorted@.to_multiset().add(rest@.to_multiset()) =~= done.to_multiset().add(
                before.to_multiset(),
            ));
            assert forall|a: int, b: int|
                0 <= a < sorted@.len() && 0 <= b < rest@.len() implies !earlier(
                #[trigger] rest@[b],
                #[trigger] sorted@[a],
            ) by {
                let from = if b < least {
                    b
                } else {
                    b + 1
                };
                assert(rest@[b] == before[from]);
            }
        }
    }
    assert(by_label(rest@) == Seq::<ScheduleData>::empty());
    assert(sorted@ + Seq::<ScheduleData>::empty() == sorted@);
    sorted
}

/// The positions of what cannot be put in order.
pub open spec fn failing_pred(raws: Seq<RawSchedule>) -> spec_fn(int) -> bool {
    |k: int| raw_check(&raws[k]) is Err
}

/// `list` holds, position by position, what `raws` holds, put in order.
pub open spec fn ordered_from(raws: Seq<RawSchedule>, list: Seq<ScheduleData>) -> bool {
    &&& list.len() == raws.len()
    &&& forall|k: int|
        0 <= k < raws.len() ==> put_in_order(&raws[k], &#[trigger] list[k]) && refs_check(
            &list[k],
        ) is Ok
}

/// `r` is what the schedules `raws` and the names `names` come to: the
/// error of the first schedule that cannot be put in order; else a host
/// with these names, no render graph, and every schedule put in order, all
/// of them in the order of their identifiers.
pub open spec fn gathers(
    raws: Seq<RawSchedule>,
    names: Seq<String>,
    r: Result<HostData, GraphError>,
) -> bool {
    match first_index(raws.len(), failing_pred(raws)) {
        Some(k) => r is Err && Err::<(), GraphError>(r->Err_0) == raw_check(&raws[k]),
        None => {
            &&& r is Ok
            &&& r->Ok_0.resources@ == names
            &&& r->Ok_0.render_graph is None
            &&& exists|list: Seq<ScheduleData>| #[trigger]
                ordered_from(raws, list) && r->Ok_0.schedules@ == by_label(list)
        },
    }
}

/// Puts everything that was read of a host in order: every schedule by
/// itself, and the schedules by their identifiers. The first schedule, in
/// the order in which they were read, that cannot be put in order gives the
/// error; where there is none the call succeeds.
#[verifier::loop_isolation(false)]
pub fn assemble_all(raws: &Vec<RawSchedule>, names: Vec<String>) -> (r: Result<HostData, GraphError>)
    ensures
        gathers(raws@, names@, r),
        r is Ok ==> rising_labels(r->Ok_0.schedules@),
        r is Ok ==> forall|j: int|
            0 <= j < r->Ok_0.schedules@.len() ==> refs_check(&#[trigger] r->Ok_0.schedules@[j]) is Ok,
{
    broadcast use vstd::seq_lib::to_multiset_contains;

    let mut list: Vec<ScheduleData> = Vec::new();
    let mut k: usize = 0;
    while k < raws.len()
        invariant
            k <= raws.len(),
            list@.len() == k,
            forall|j: int| 0 <= j < k ==> !#[trigger] failing_pred(raws@)(j),
            forall|j: int|
                0 <= j < k ==> put_in_order(&raws@[j], &#[trigger] list@[j]) && refs_check(
                    &list@[j],
                ) is Ok,
        decreases raws.len() - k,
    {
        match assemble(&raws[k]) {
            Err(e) => {
                proof {
                    assert(failing_pred(raws@)(k as int));
                    lemma_first_index_is(raws@.len(), failing_pred(raws@), k as int);
                }
                return Err(e);
            },
            Ok(d) => {
                list.push(d);
            },
        }
        k += 1;
    }
    proof {
        lemma_first_index_none(raws@.len(), failing_pred(raws@));
    }
    let ghost unsorted = list@;
    let sorted = sort_by_label(list);
    let host = HostData { resources: names, schedules: sorted, render_graph: None };
    proof {
        assert(ordered_from(raws@, unsorted));
        assert forall|j: int| 0 <= j < host.schedules@.len() implies refs_check(
            &#[trigger] host.schedules@[j],
        ) is Ok by {
            let d = host.schedules@[j];
            assert(host.schedules@.contains(d));
            assert(unsorted.to_multiset().count(d) > 0);
            assert(unsorted.contains(d));
            let i = choose|i: int| 0 <= i < unsorted.len() && unsorted[i] == d;
            assert(refs_check(&unsorted[i]) is Ok);
        }
    }
    Ok(host)
}

/// Reads every schedule of a collection and the components and resources
/// of the world, and puts everything in order. The outcome is what
/// `assemble_all` makes of one reading of each schedule that the
/// collection holds, in whatever order they were read, and of the names
/// that the world holds: the call fails only where one of them cannot be
/// put in order, with the error of the first such schedule; and the
/// schedules that come out pass the check of references and stand in
/// rising order.
pub fn capture_all(
    world: &bevy_ecs::world::World,
    schedules: &bevy_ecs::schedule::Schedules,
) -> (r: Result<HostData, GraphError>)
    ensures
        exists|raws: Seq<RawSchedule>, names: Seq<String>|
            all_read(raws, *schedules) && text_views(names) == held_components(*world)
                && #[trigger] gathers(raws, names, r),
        r is Ok ==> {
            &&& text_views(r->Ok_0.resources@) == held_components(*world)
            &&& rising_labels(r->Ok_0.schedules@)
            &&& forall|j: int|
                0 <= j < r->Ok_0.schedules@.len() ==> refs_check(&#[trigger] r->Ok_0.schedules@[j]) is Ok
            &&& r->Ok_0.render_graph is None
        },
{
    let raws = read_schedules(schedules);
    let names = read_components(world);
    let ghost read = names@;
    let r = assemble_all(&raws, names);
    assert(all_read(raws@, *schedules) && text_views(read) == held_components(*world) && gathers(
        raws@,
        read,
        r,
    ));
    r
}

/// One of the identifiers of `wanted` is `label`.
pub open spec fn named_in(wanted: Seq<String>, label: Seq<char>) -> bool {
    exists|k: int| 0 <= k < wanted.len() && (#[trigger] wanted[k])@ == label
}

/// Those of `raws` whose identifier is among `wanted`, in their order.
pub open spec fn kept_of(raws: Seq<RawSchedule>, wanted: Seq<String>) -> Seq<RawSchedule>
    decreases raws.len(),
{
    if raws.len() == 0 {
        Seq::empty()
    } else if named_in(wanted, raws[0].label@) {
        seq![raws[0]] + kept_of(raws.drop_first(), wanted)
    } else {
        kept_of(raws.drop_first(), wanted)
    }
}

/// Whether one of the identifiers of `wanted` is `label`.
#[verifier::loop_isolation(false)]
pub fn is_named_in(wanted: &Vec<String>, label: &String) -> (r: bool)
    ensures
        r == named_in(wanted@, label@),
{
    let mut k: usize = 0;
    while k < wanted.len()
        invariant
            k <= wanted.len(),
            forall|j: int| 0 <= j < k ==> (#[trigger] wanted@[j])@ != label@,
        decreases wanted.len() - k,
    {
        if wanted[k] == *label {
            return true;
        }
        k += 1;
    }
    false
}

/// Those of `raws` whose identifier is among `wanted`, in their order.
#[verifier::loop_isolation(false)]
pub fn keep_named(raws: Vec<RawSchedule>, wanted: &Vec<String>) -> (kept: Vec<RawSchedule>)
    ensures
        kept@ == kept_of(raws@, wanted@),
{
    let mut rest = raws;
    let mut kept: Vec<RawSchedule> = Vec::new();
    assert(kept@ + kept_of(rest@, wanted@) == kept_of(raws@, wanted@));
    while rest.len() > 0
        invariant
            kept@ + kept_of(rest@, wanted@) == kept_of(raws@, wanted@),
        decreases rest.len(),
    {
        let ghost before = rest@;
        let ghost done = kept@;
        let raw = rest.remove(0);
        assert(rest@ == before.drop_first());
        if is_named_in(wanted, &raw.label) {
            kept.push(raw);
            assert(kept@ + kept_of(rest@, wanted@) == done + (seq![raw] + kept_of(
                rest@,
                wanted@,
            )));
        }
    }
    assert(kept@ + Seq::<RawSchedule>::empty() == kept@);
    kept
}

/// Reads the schedules of a collection and the components and resources
/// of the world, and puts in order those schedules whose identifier is
/// among `wanted`: the call to make once it is decided which schedules to
/// draw. The outcome is what `assemble_all` makes of one reading of each
/// schedule that the collection holds and that is wanted, and of the names
/// that the world holds. A schedule that is not wanted is read and left
/// aside: it cannot fail the call.
pub fn capture_some(
    world: &bevy_ecs::world::World,
    schedules: &bevy_ecs::schedule::Schedules,
    wanted: &Vec<String>,
) -> (r: Result<HostData, GraphError>)
    ensures
        exists|raws: Seq<RawSchedule>, names: Seq<String>|
            all_read(raws, *schedules) && text_views(names) == held_components(*world)
                && #[trigger] gathers(kept_of(raws, wanted@), names, r),
        r is Ok ==> {
            &&& text_views(r->Ok_0.resources@) == held_components(*world)
            &&& rising_labels(r->Ok_0.schedules@)
            &&& forall|j: int|
                0 <= j < r->Ok_0.schedules@.len() ==> refs_check(&#[trigger] r->Ok_0.schedules@[j]) is Ok
            &&& r->Ok_0.render_graph is None
        },
{
    let raws = read_schedules(schedules);
    let ghost read = raws@;
    let kept = keep_named(raws, wanted);
    let names = read_components(world);
    let ghost listed = names@;
    let r = assemble_all(&kept, names);
    assert(all_read(read, *schedules) && text_views(listed) == held_components(*world) && gathers(
        kept_of(read, wanted@),
        listed,
        r,
    ));
    r
}

} // verus!
