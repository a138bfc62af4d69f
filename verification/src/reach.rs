//! Reachability along ordering edges.

use vstd::prelude::*;
use crate::graph::{Edge, EdgeKind, edges_wf};

verus! {

/// There is a walk of exactly `steps` links from `a` to `b`.
pub open spec fn walk(links: Set<(int, int)>, a: int, b: int, steps: nat) -> bool
    decreases steps,
{
    if steps == 0 {
        a == b
    } else {
        exists|m: int| walk(links, a, m, (steps - 1) as nat) && #[trigger] links.contains((m, b))
    }
}

/// `b` can be reached from `a` along the links, in any number of steps;
/// every node reaches itself.
pub open spec fn reaches(links: Set<(int, int)>, a: int, b: int) -> bool {
    exists|steps: nat| #[trigger] walk(links, a, b, steps)
}

/// Edge `k` is a live ordering edge from `u` to `v`.
pub open spec fn is_link(edges: Seq<Edge>, alive: Seq<bool>, k: int, u: int, v: int) -> bool {
    alive[k] && edges[k].kind == EdgeKind::Order && edges[k].from == u && edges[k].to == v
}

/// A live ordering edge leads from `u` to `v`.
pub open spec fn linked(edges: Seq<Edge>, alive: Seq<bool>, u: int, v: int) -> bool {
    exists|k: int| 0 <= k < edges.len() && #[trigger] is_link(edges, alive, k, u, v)
}

/// The pairs that the live ordering edges join.
pub open spec fn live_links(edges: Seq<Edge>, alive: Seq<bool>) -> Set<(int, int)> {
    Set::new(|p: (int, int)| linked(edges, alive, p.0, p.1))
}

/// The pairs that the ordering edges join.
pub open spec fn order_links(edges: Seq<Edge>) -> Set<(int, int)> {
    live_links(edges, Seq::new(edges.len(), |k: int| true))
}

/// A walk stays a walk when links are added.
pub proof fn lemma_walk_more_links(
    small: Set<(int, int)>,
    large: Set<(int, int)>,
    a: int,
    b: int,
    steps: nat,
)
    requires
        small.subset_of(large),
        walk(small, a, b, steps),
    ensures
        walk(large, a, b, steps),
    decreases steps,
{
    if steps > 0 {
        let m = choose|m: int|
            walk(small, a, m, (steps - 1) as nat) && #[trigger] small.contains((m, b));
        lemma_walk_more_links(small, large, a, m, (steps - 1) as nat);
    }
}

/// Two walks, one after the other, are a walk.
pub proof fn lemma_walk_join(links: Set<(int, int)>, a: int, m: int, b: int, s1: nat, s2: nat)
    requires
        walk(links, a, m, s1),
        walk(links, m, b, s2),
    ensures
        walk(links, a, b, s1 + s2),
    decreases s2,
{
    if s2 > 0 {
        let x = choose|x: int|
            walk(links, m, x, (s2 - 1) as nat) && #[trigger] links.contains((x, b));
        lemma_walk_join(links, a, m, x, s1, (s2 - 1) as nat);
        assert(walk(links, a, x, (s1 + s2 - 1) as nat));
    }
}

/// Reaching is transitive.
pub proof fn lemma_reaches_trans(links: Set<(int, int)>, a: int, m: int, b: int)
    requires
        reaches(links, a, m),
        reaches(links, m, b),
    ensures
        reaches(links, a, b),
{
    let s1 = choose|s: nat| #[trigger] walk(links, a, m, s);
    let s2 = choose|s: nat| #[trigger] walk(links, m, b, s);
    lemma_walk_join(links, a, m, b, s1, s2);
}

/// One link is a walk.
pub proof fn lemma_link_reaches(links: Set<(int, int)>, u: int, v: int)
    requires
        links.contains((u, v)),
    ensures
        reaches(links, u, v),
{
    assert(walk(links, u, u, 0));
    assert(walk(links, u, v, 1));
}

/// A walk in a graph from which the link from `u` to `v` was taken, while
/// `v` stays reachable from `u`, can be rerouted.
pub proof fn lemma_reroute(
    links: Set<(int, int)>,
    rest: Set<(int, int)>,
    u: int,
    v: int,
    a: int,
    b: int,
    steps: nat,
)
    requires
        forall|p: (int, int)| #[trigger] links.contains(p) ==> rest.contains(p) || p == (u, v),
        reaches(rest, u, v),
        walk(links, a, b, steps),
    ensures
        reaches(rest, a, b),
    decreases steps,
{
    if steps == 0 {
        assert(walk(rest, a, b, 0));
    } else {
        let m = choose|m: int|
            walk(links, a, m, (steps - 1) as nat) && #[trigger] links.contains((m, b));
        lemma_reroute(links, rest, u, v, a, m, (steps - 1) as nat);
        if rest.contains((m, b)) {
            lemma_link_reaches(rest, m, b);
        } else {
            assert((m, b) == (u, v));
        }
        lemma_reaches_trans(rest, a, m, b);
    }
}

/// Taking away a link between two nodes that stay connected without it
/// changes nothing about which node reaches which.
pub proof fn lemma_drop_link(
    links: Set<(int, int)>,
    rest: Set<(int, int)>,
    u: int,
    v: int,
    a: int,
    b: int,
)
    requires
        rest.subset_of(links),
        forall|p: (int, int)| #[trigger] links.contains(p) ==> rest.contains(p) || p == (u, v),
        reaches(rest, u, v),
    ensures
        reaches(links, a, b) <==> reaches(rest, a, b),
{
    if reaches(links, a, b) {
        let s = choose|s: nat| #[trigger] walk(links, a, b, s);
        lemma_reroute(links, rest, u, v, a, b, s);
    }
    if reaches(rest, a, b) {
        let s = choose|s: nat| #[trigger] walk(rest, a, b, s);
        lemma_walk_more_links(rest, links, a, b, s);
    }
}

/// The number of entries of `s` that are set.
pub open spec fn trues(s: Seq<bool>) -> nat
    decreases s.len(),
{
    if s.len() == 0 {
        0
    } else {
        trues(s.drop_last()) + if s.last() {
            1nat
        } else {
            0nat
        }
    }
}

/// No more entries are set than there are.
pub proof fn lemma_trues_bound(s: Seq<bool>)
    ensures
        trues(s) <= s.len(),
    decreases s.len(),
{
    if s.len() > 0 {
        lemma_trues_bound(s.drop_last());
    }
}

/// Setting an entry that was clear sets one entry more.
pub proof fn lemma_trues_set(s: Seq<bool>, i: int)
    requires
        0 <= i < s.len(),
        !s[i],
    ensures
        trues(s.update(i, true)) == trues(s) + 1,
    decreases s.len(),
{
    let t = s.update(i, true);
    if i == s.len() - 1 {
        assert(t.drop_last() == s.drop_last());
    } else {
        lemma_trues_set(s.drop_last(), i);
        assert(t.drop_last() == s.drop_last().update(i, true));
    }
}

/// `seen` holds `src` and whatever a link leads to from a node it holds.
pub open spec fn closed_under(links: Set<(int, int)>, seen: Seq<bool>) -> bool {
    forall|u: int, v: int|
        0 <= u < seen.len() && seen[u] && #[trigger] links.contains((u, v)) ==> 0 <= v < seen.len()
            && seen[v]
}

/// A set of nodes that is closed under the links holds everything that can
/// be reached from any of its members.
pub proof fn lemma_closed_holds(
    links: Set<(int, int)>,
    seen: Seq<bool>,
    src: int,
    x: int,
    steps: nat,
)
    requires
        closed_under(links, seen),
        0 <= src < seen.len(),
        seen[src],
        walk(links, src, x, steps),
    ensures
        0 <= x < seen.len(),
        seen[x],
    decreases steps,
{
    if steps > 0 {
        let m = choose|m: int|
            walk(links, src, m, (steps - 1) as nat) && #[trigger] links.contains((m, x));
        lemma_closed_holds(links, seen, src, m, (steps - 1) as nat);
    }
}

/// The nodes that can be reached from `src` along the live ordering edges.
#[verifier::loop_isolation(false)]
pub fn reach_from(edges: &Vec<Edge>, alive: &Vec<bool>, n: usize, src: usize) -> (seen: Vec<bool>)
    requires
        edges_wf(n as nat, edges@),
        alive@.len() == edges@.len(),
        src < n,
    ensures
        seen@.len() == n,
        forall|x: int|
            0 <= x < n ==> (#[trigger] seen@[x] <==> reaches(
                live_links(edges@, alive@),
                src as int,
                x,
            )),
        forall|x: int| reaches(live_links(edges@, alive@), src as int, x) ==> 0 <= x < n,
{
    let ghost links = live_links(edges@, alive@);
    let mut seen: Vec<bool> = Vec::new();
    let mut i: usize = 0;
    while i < n
        invariant
            i <= n,
            seen@.len() == i,
            forall|x: int| 0 <= x < i ==> !(#[trigger] seen@[x]),
        decreases n - i,
    {
        seen.push(false);
        i += 1;
    }
    seen.set(src, true);
    proof {
        assert(walk(links, src as int, src as int, 0));
    }
    loop
        invariant
            seen@.len() == n,
            seen@[src as int],
            forall|x: int| 0 <= x < n && #[trigger] seen@[x] ==> reaches(links, src as int, x),
        decreases n - trues(seen@),
    {
        proof {
            lemma_trues_bound(seen@);
        }
        let ghost start = seen@;
        let mut changed = false;
        let mut k: usize = 0;
        while k < edges.len()
            invariant
                k <= edges.len(),
                seen@.len() == n,
                seen@[src as int],
                forall|x: int| 0 <= x < n && #[trigger] seen@[x] ==> reaches(links, src as int, x),
                trues(seen@) <= n,
                changed ==> trues(seen@) > trues(start),
                !changed ==> seen@ == start,
                !changed ==> forall|j: int, u: int, v: int|
                    0 <= j < k && #[trigger] is_link(edges@, alive@, j, u, v) && seen@[u]
                        ==> seen@[v],
            decreases edges.len() - k,
        {
            let e = edges[k];
            if alive[k] && e.kind == EdgeKind::Order && seen[e.from] && !seen[e.to] {
                proof {
                    lemma_trues_set(seen@, e.to as int);
                    lemma_trues_bound(seen@.update(e.to as int, true));
                    assert(is_link(edges@, alive@, k as int, e.from as int, e.to as int));
                    assert(linked(edges@, alive@, e.from as int, e.to as int));
                    assert(links.contains((e.from as int, e.to as int)));
                    lemma_link_reaches(links, e.from as int, e.to as int);
                    lemma_reaches_trans(links, src as int, e.from as int, e.to as int);
                }
                seen.set(e.to, true);
                changed = true;
            }
            k += 1;
        }
        if !changed {
            proof {
                assert(closed_under(links, seen@)) by {
                    assert forall|u: int, v: int|
                        0 <= u < seen@.len() && seen@[u] && #[trigger] links.contains(
                            (u, v),
                        ) implies 0 <= v < seen@.len() && seen@[v] by {
                        assert(linked(edges@, alive@, u, v));
                        let j = choose|j: int|
                            0 <= j < edges@.len() && #[trigger] is_link(edges@, alive@, j, u, v);
                        assert(is_link(edges@, alive@, j, u, v));
                    }
                }
                assert forall|x: int| reaches(links, src as int, x) implies 0 <= x < n
                    && seen@[x] by {
                    let s = choose|s: nat| #[trigger] walk(links, src as int, x, s);
                    lemma_closed_holds(links, seen@, src as int, x, s);
                }
            }
            return seen;
        }
    }
}

} // verus!
