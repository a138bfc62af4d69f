//! What a host hands over: schedules with their systems, sets, containment,
//! ordering and ambiguities, and the names of the resources they touch.

use vstd::prelude::*;
use crate::text::{push_decimal, push_text, decimal};

verus! {

/// A system or a system set of one schedule, by its position in the
/// schedule's list of systems or of sets.
#[derive(Clone, Copy, PartialEq, Eq, Debug, Structural)]
pub enum NodeRef {
    System(usize),
    SystemSet(usize),
}

/// A system: its name and the resources it reads and writes, each given by
/// its position in the host's list of resources.
#[derive(Clone, Debug)]
pub struct SystemInfo {
    pub name: String,
    pub reads: Vec<usize>,
    pub writes: Vec<usize>,
}

/// A named set of systems and sets.
#[derive(Clone, Debug)]
pub struct SetInfo {
    pub name: String,
}

/// One built schedule.
#[derive(Clone, Debug)]
pub struct ScheduleData {
    /// The identifier of the schedule.
    pub label: String,
    pub systems: Vec<SystemInfo>,
    pub sets: Vec<SetInfo>,
    /// Containment: the set at the first position holds the node at the second.
    pub hierarchy: Vec<(usize, NodeRef)>,
    /// Ordering: the first node runs before the second.
    pub dependency: Vec<(NodeRef, NodeRef)>,
    /// Pairs of systems that touch the same data with no order between them.
    pub ambiguities: Vec<(usize, usize)>,
}

/// Everything one render call reads.
#[derive(Clone, Debug)]
pub struct HostData {
    /// The names of the resources and components that systems touch.
    pub resources: Vec<String>,
    pub schedules: Vec<ScheduleData>,
    /// The render graph, where the host renders.
    pub render_graph: Option<crate::render_graph::RenderGraphData>,
}

/// Why a graph could not be rendered.
#[derive(Clone, Copy, PartialEq, Eq, Debug, Structural)]
pub enum GraphError {
    /// The host has no schedule where one was asked for: a context names a
    /// position beyond its schedules. The message is also what a caller
    /// says who finds that no schedule has the identifier asked for.
    ScheduleMissing,
    /// Systems and sets together are more than can be numbered.
    TooManyNodes,
    /// The containment entry at this position names a set or a node that
    /// the schedule does not have.
    DanglingHierarchy(usize),
    /// The ordering entry at this position names a node that the schedule
    /// does not have.
    DanglingDependency(usize),
    /// The ambiguity at this position names a system that the schedule does
    /// not have.
    DanglingAmbiguity(usize),
    /// The system at this position touches a resource that the host does
    /// not have.
    DanglingAccess(usize),
    /// The chain of containers that starts at this node never reaches the
    /// top level: containment runs in a circle.
    ContainmentCycle(usize),
}

impl GraphError {
    /// The message that goes with the error.
    pub open spec fn message_text(self) -> Seq<char> {
        match self {
            GraphError::ScheduleMissing => "schedule doesn't exist"@,
            GraphError::TooManyNodes => "too many systems and sets"@,
            GraphError::DanglingHierarchy(k) => "containment entry names a missing node: "@
                + decimal(k as nat),
            GraphError::DanglingDependency(k) => "ordering entry names a missing node: "@ + decimal(
                k as nat,
            ),
            GraphError::DanglingAmbiguity(k) => "ambiguity names a missing system: "@ + decimal(
                k as nat,
            ),
            GraphError::DanglingAccess(k) => "system touches a missing resource: "@ + decimal(
                k as nat,
            ),
            GraphError::ContainmentCycle(k) => "containment cycle through node: "@ + decimal(
                k as nat,
            ),
        }
    }

    /// The message that goes with the error.
    pub fn message(&self) -> (s: String)
        ensures
            s@ == self.message_text(),
    {
        let mut s = String::new();
        match self {
            GraphError::ScheduleMissing => {
                push_text(&mut s, "schedule doesn't exist");
            },
            GraphError::TooManyNodes => {
                push_text(&mut s, "too many systems and sets");
            },
            GraphError::DanglingHierarchy(k) => {
                push_text(&mut s, "containment entry names a missing node: ");
                push_decimal(&mut s, *k);
            },
            GraphError::DanglingDependency(k) => {
                push_text(&mut s, "ordering entry names a missing node: ");
                push_decimal(&mut s, *k);
            },
            GraphError::DanglingAmbiguity(k) => {
                push_text(&mut s, "ambiguity names a missing system: ");
                push_decimal(&mut s, *k);
            },
            GraphError::DanglingAccess(k) => {
                push_text(&mut s, "system touches a missing resource: ");
                push_decimal(&mut s, *k);
            },
            GraphError::ContainmentCycle(k) => {
                push_text(&mut s, "containment cycle through node: ");
                push_decimal(&mut s, *k);
            },
        }
        s
    }
}

impl ScheduleData {
    /// The number of nodes: systems first, then sets.
    pub open spec fn node_count(&self) -> nat {
        self.systems@.len() + self.sets@.len()
    }

    /// Whether the schedule has the node that `r` names.
    pub open spec fn has(&self, r: NodeRef) -> bool {
        match r {
            NodeRef::System(i) => i < self.systems@.len(),
            NodeRef::SystemSet(j) => j < self.sets@.len(),
        }
    }

    /// The index of `r` among the nodes: a system keeps its position, a set
    /// comes after all systems.
    pub open spec fn index_of(&self, r: NodeRef) -> int {
        match r {
            NodeRef::System(i) => i as int,
            NodeRef::SystemSet(j) => self.systems@.len() + j,
        }
    }

    /// The containment entry at `k` names a set and a node of the schedule.
    pub open spec fn hierarchy_ok(&self, k: int) -> bool {
        self.hierarchy@[k].0 < self.sets@.len() && self.has(self.hierarchy@[k].1)
    }

    /// The ordering entry at `k` names two nodes of the schedule.
    pub open spec fn dependency_ok(&self, k: int) -> bool {
        self.has(self.dependency@[k].0) && self.has(self.dependency@[k].1)
    }

    /// The ambiguity at `k` names two systems of the schedule.
    pub open spec fn ambiguity_ok(&self, k: int) -> bool {
        self.ambiguities@[k].0 < self.systems@.len() && self.ambiguities@[k].1
            < self.systems@.len()
    }

    /// Whether an ordering entry joins the systems `a` and `b` directly, in
    /// either direction.
    pub open spec fn ordered(&self, a: usize, b: usize) -> bool {
        self.dependency@.contains((NodeRef::System(a), NodeRef::System(b)))
            || self.dependency@.contains((NodeRef::System(b), NodeRef::System(a)))
    }

    /// Whether the schedule has the node that `r` names.
    pub fn has_node(&self, r: NodeRef) -> (b: bool)
        ensures
            b == self.has(r),
    {
        match r {
            NodeRef::System(i) => i < self.systems.len(),
            NodeRef::SystemSet(j) => j < self.sets.len(),
        }
    }

    /// Whether an ordering entry joins the systems `a` and `b` directly.
    pub fn is_ordered(&self, a: usize, b: usize) -> (r: bool)
        ensures
            r == self.ordered(a, b),
    {
        let mut k: usize = 0;
        while k < self.dependency.len()
            invariant
                k <= self.dependency.len(),
                forall|j: int|
                    0 <= j < k ==> #[trigger] self.dependency@[j] != (
                        NodeRef::System(a),
                        NodeRef::System(b),
                    ) && self.dependency@[j] != (NodeRef::System(b), NodeRef::System(a)),
            decreases self.dependency.len() - k,
        {
            let e = self.dependency[k];
            let forward = match e.0 {
                NodeRef::System(x) => x == a,
                NodeRef::SystemSet(_) => false,
            } && match e.1 {
                NodeRef::System(y) => y == b,
                NodeRef::SystemSet(_) => false,
            };
            let backward = match e.0 {
                NodeRef::System(x) => x == b,
                NodeRef::SystemSet(_) => false,
            } && match e.1 {
                NodeRef::System(y) => y == a,
                NodeRef::SystemSet(_) => false,
            };
            if forward || backward {
                assert(self.dependency@[k as int] == (NodeRef::System(a), NodeRef::System(b))
                    || self.dependency@[k as int] == (NodeRef::System(b), NodeRef::System(a)));
                return true;
            }
            k += 1;
        }
        false
    }
}

} // verus!
