//! What holds of every reading of one schedule: the numbers come out in
//! rising order, each once, and two readings of one schedule, with its sets
//! in whatever order, are put in order alike.

use vstd::prelude::*;
use crate::host::{RawSchedule, ambiguity_entry, dependency_entry, dependency_pair, entry_of, held_by_pred, held_sets, hierarchy_pair, holds_only, kept_entry_fn, kept_set_at, kept_set_fn, kept_set_refs, least_above, left_out, lost_conflict, lost_dependency, lost_hierarchy, number_of, numbered_pred, numbers, numbers_from, only_member, put_in_order, raw_check, reads_as, resolved, set_from, set_numbers, set_refs, sets_listed, skipped, system_from, system_numbers, system_refs, system_views, type_set};
use crate::laws::{same_access, same_state};
use crate::model::{NodeRef, ScheduleData};
use crate::seqs::{count, lemma_count_bound, lemma_count_strict, lemma_count_zero, lemma_first_index, lemma_first_index_agree, lemma_gather_agree, lemma_gather_contains};

verus! {

/// One of the references carries the number `x`.
pub open spec fn occurs(refs: Seq<NodeRef>, system: bool, x: usize) -> bool {
    exists|j: int| 0 <= j < refs.len() && number_of(#[trigger] refs[j], system) == Some(x)
}

/// `x` lies above the bound; without a bound every number does.
pub open spec fn above(bound: Option<usize>, x: usize) -> bool {
    bound is None || x > bound->Some_0
}

/// Every number is less than the next.
pub open spec fn rising(s: Seq<usize>) -> bool {
    forall|i: int, j: int| 0 <= i < j < s.len() ==> s[i] < s[j]
}

/// The references that carry a number above the bound.
pub open spec fn pending_pred(refs: Seq<NodeRef>, system: bool, bound: Option<usize>) -> spec_fn(
    int,
) -> bool {
    |j: int|
        match number_of(refs[j], system) {
            Some(y) => above(bound, y),
            None => false,
        }
}

/// The least number above the bound is one that occurs, and none that
/// occurs above the bound is less.
pub proof fn lemma_least_above(refs: Seq<NodeRef>, system: bool, bound: Option<usize>, k: nat)
    requires
        k <= refs.len(),
    ensures
        match least_above(refs, system, bound, k) {
            Some(x) => {
                &&& above(bound, x)
                &&& exists|j: int| 0 <= j < k && number_of(#[trigger] refs[j], system) == Some(x)
                &&& forall|j: int|
                    0 <= j < k && #[trigger] pending_pred(refs, system, bound)(j) ==> x <= number_of(
                        refs[j],
                        system,
                    )->Some_0
            },
            None => forall|j: int| 0 <= j < k ==> !#[trigger] pending_pred(refs, system, bound)(j),
        },
    decreases k,
{
    if k > 0 {
        lemma_least_above(refs, system, bound, (k - 1) as nat);
        let prev = least_above(refs, system, bound, (k - 1) as nat);
        match least_above(refs, system, bound, k) {
            Some(x) => {
                if prev == Some(x) {
                    let j = choose|j: int|
                        0 <= j < k - 1 && number_of(#[trigger] refs[j], system) == Some(x);
                    assert(number_of(refs[j], system) == Some(x));
                } else {
                    assert(number_of(refs[k - 1], system) == Some(x));
                }
            },
            None => {},
        }
    }
}

/// The numbers come out in rising order, each above the bound and each one
/// that occurs; and where the fuel suffices none that occurs above the
/// bound is left.
pub proof fn lemma_numbers_from(refs: Seq<NodeRef>, system: bool, bound: Option<usize>, fuel: nat)
    requires
        fuel >= count(refs.len(), pending_pred(refs, system, bound)),
    ensures
        rising(numbers_from(refs, system, bound, fuel)),
        forall|i: int|
            0 <= i < numbers_from(refs, system, bound, fuel).len() ==> above(
                bound,
                #[trigger] numbers_from(refs, system, bound, fuel)[i],
            ) && occurs(refs, system, numbers_from(refs, system, bound, fuel)[i]),
        forall|x: usize|
            #![trigger occurs(refs, system, x)]
            occurs(refs, system, x) && above(bound, x) ==> numbers_from(
                refs,
                system,
                bound,
                fuel,
            ).contains(x),
    decreases fuel,
{
    let s = numbers_from(refs, system, bound, fuel);
    let p = pending_pred(refs, system, bound);
    lemma_least_above(refs, system, bound, refs.len());
    if fuel == 0 {
        lemma_count_zero(refs.len(), p);
        assert forall|x: usize|
            #![trigger occurs(refs, system, x)]
            occurs(refs, system, x) && above(bound, x) implies s.contains(x) by {
            let j = choose|j: int|
                0 <= j < refs.len() && number_of(#[trigger] refs[j], system) == Some(x);
            assert(p(j));
        }
    } else {
        match least_above(refs, system, bound, refs.len()) {
            None => {
                assert forall|x: usize|
                    #![trigger occurs(refs, system, x)]
                    occurs(refs, system, x) && above(bound, x) implies s.contains(x) by {
                    let j = choose|j: int|
                        0 <= j < refs.len() && number_of(#[trigger] refs[j], system) == Some(x);
                    assert(p(j));
                }
            },
            Some(x) => {
                let q = pending_pred(refs, system, Some(x));
                let tail = numbers_from(refs, system, Some(x), (fuel - 1) as nat);
                let j = choose|j: int|
                    0 <= j < refs.len() && number_of(#[trigger] refs[j], system) == Some(x);
                assert(p(j));
                assert(!q(j));
                assert forall|i: int| 0 <= i < refs.len() && #[trigger] q(i) implies p(i) by {}
                lemma_count_strict(refs.len(), q, p, j);
                lemma_numbers_from(refs, system, Some(x), (fuel - 1) as nat);
                assert(s == seq![x] + tail);
                assert(occurs(refs, system, x));
                assert forall|a: int, b: int| 0 <= a < b < s.len() implies s[a] < s[b] by {
                    assert(s[b] == tail[b - 1]);
                    if a > 0 {
                        assert(s[a] == tail[a - 1]);
                    }
                }
                assert forall|i: int| 0 <= i < s.len() implies above(bound, #[trigger] s[i])
                    && occurs(refs, system, s[i]) by {
                    if i > 0 {
                        assert(s[i] == tail[i - 1]);
                    }
                }
                assert forall|y: usize|
                    #![trigger occurs(refs, system, y)]
                    occurs(refs, system, y) && above(bound, y) implies s.contains(y) by {
                    let m = choose|m: int|
                        0 <= m < refs.len() && number_of(#[trigger] refs[m], system) == Some(y);
                    assert(p(m));
                    if y == x {
                        assert(s[0] == y);
                    } else {
                        assert(above(Some(x), y));
                        assert(tail.contains(y));
                        let i = choose|i: int| 0 <= i < tail.len() && tail[i] == y;
                        assert(s[i + 1] == y);
                    }
                }
            },
        }
    }
}

/// The sorted numbers rise, so that none is there twice, and they are
/// exactly the numbers that the references of the wanted kind carry.
pub proof fn law_numbers(refs: Seq<NodeRef>, system: bool)
    ensures
        rising(numbers(refs, system)),
        forall|x: usize|
            #![trigger occurs(refs, system, x)]
            numbers(refs, system).contains(x) <==> occurs(refs, system, x),
{
    lemma_count_bound(refs.len(), pending_pred(refs, system, None));
    lemma_numbers_from(refs, system, None, refs.len());
    let s = numbers(refs, system);
    assert forall|x: usize|
        #![trigger occurs(refs, system, x)]
        s.contains(x) implies occurs(refs, system, x) by {
        let i = choose|i: int| 0 <= i < s.len() && s[i] == x;
        assert(occurs(refs, system, s[i]));
    }
}

/// Two rising lists that hold the same numbers are one list.
pub proof fn lemma_rising_unique(s: Seq<usize>, t: Seq<usize>)
    requires
        rising(s),
        rising(t),
        forall|x: usize| s.contains(x) <==> t.contains(x),
    ensures
        s == t,
    decreases s.len(),
{
    if s.len() == 0 {
        if t.len() > 0 {
            assert(t.contains(t[0]));
            assert(s.contains(t[0]));
        }
        assert(s =~= t);
    } else {
        assert(s.contains(s[0]));
        assert(t.contains(s[0]));
        assert(t.contains(t[0]));
        assert(s.contains(t[0]));
        let i = choose|i: int| 0 <= i < s.len() && s[i] == t[0];
        let j = choose|j: int| 0 <= j < t.len() && t[j] == s[0];
        assert(s[0] == t[0]);
        let s1 = s.skip(1);
        let t1 = t.skip(1);
        assert forall|x: usize| s1.contains(x) <==> t1.contains(x) by {
            if s1.contains(x) {
                let a = choose|a: int| 0 <= a < s1.len() && s1[a] == x;
                assert(s[a + 1] == x);
                assert(s.contains(x));
                let b = choose|b: int| 0 <= b < t.len() && t[b] == x;
                assert(b > 0);
                assert(t1[b - 1] == x);
            }
            if t1.contains(x) {
                let a = choose|a: int| 0 <= a < t1.len() && t1[a] == x;
                assert(t[a + 1] == x);
                assert(t.contains(x));
                let b = choose|b: int| 0 <= b < s.len() && s[b] == x;
                assert(b > 0);
                assert(s1[b - 1] == x);
            }
        }
        assert forall|a: int, b: int| 0 <= a < b < s1.len() implies s1[a] < s1[b] by {
            assert(s1[a] == s[a + 1] && s1[b] == s[b + 1]);
        }
        assert forall|a: int, b: int| 0 <= a < b < t1.len() implies t1[a] < t1[b] by {
            assert(t1[a] == t[a + 1] && t1[b] == t[b + 1]);
        }
        lemma_rising_unique(s1, t1);
        assert(s =~= seq![s[0]] + s1);
        assert(t =~= seq![t[0]] + t1);
    }
}

/// The sorted numbers depend on which numbers occur, not on where or how
/// often.
pub proof fn law_numbers_of_the_same(a: Seq<NodeRef>, b: Seq<NodeRef>, system: bool)
    requires
        forall|x: usize| occurs(a, system, x) <==> occurs(b, system, x),
    ensures
        numbers(a, system) == numbers(b, system),
{
    law_numbers(a, system);
    law_numbers(b, system);
    assert forall|x: usize| numbers(a, system).contains(x) <==> numbers(b, system).contains(x) by {
        assert(numbers(a, system).contains(x) <==> occurs(a, system, x));
        assert(numbers(b, system).contains(x) <==> occurs(b, system, x));
    }
    lemma_rising_unique(numbers(a, system), numbers(b, system));
}

/// What a reading says of a set is what the schedule holds of it.
pub proof fn lemma_set_read(raw: &RawSchedule, sets: Map<usize, (Seq<char>, bool)>, i: usize)
    requires
        sets_listed(raw.sets@, sets),
    ensures
        match entry_of(set_refs(raw), false, i) {
            Some(k) => 0 <= k < raw.sets@.len() && sets.dom().contains(i) && (
                raw.sets@[k].name@,
                raw.sets@[k].system_type,
            ) == sets[i],
            None => !sets.dom().contains(i),
        },
        type_set(raw, i) == (sets.dom().contains(i) && sets[i].1),
{
    let refs = set_refs(raw);
    lemma_first_index(refs.len(), numbered_pred(refs, false, i));
    match entry_of(refs, false, i) {
        Some(k) => {
            assert(numbered_pred(refs, false, i)(k));
            assert(raw.sets@[k].id == NodeRef::SystemSet(i));
        },
        None => {
            if sets.dom().contains(i) {
                let k = choose|k: int|
                    0 <= k < raw.sets@.len() && (#[trigger] raw.sets@[k]).id == NodeRef::SystemSet(i);
                assert(numbered_pred(refs, false, i)(k));
            }
        },
    }
}

/// Two readings of one schedule agree on everything that putting in order
/// goes by.
pub proof fn lemma_readings(s: bevy_ecs::schedule::Schedule, a: &RawSchedule, b: &RawSchedule)
    requires
        reads_as(s, a),
        reads_as(s, b),
    ensures
        system_refs(a) == system_refs(b),
        system_numbers(a) == system_numbers(b),
        set_numbers(a) == set_numbers(b),
        forall|i: usize| left_out(a, i) == left_out(b, i),
        forall|r: NodeRef| resolved(a, r) == resolved(b, r),
{
    let sets = held_sets(s);
    assert(system_views(a.systems@) == system_views(b.systems@));
    assert(a.systems@.len() == b.systems@.len()) by {
        assert(system_views(a.systems@).len() == a.systems@.len());
        assert(system_views(b.systems@).len() == b.systems@.len());
    }
    assert forall|k: int| 0 <= k < a.systems@.len() implies a.systems@[k].id == b.systems@[k].id by {
        assert(system_views(a.systems@)[k] == system_views(b.systems@)[k]);
    }
    assert(system_refs(a) =~= system_refs(b));
    assert forall|i: usize| only_member(a, i) == only_member(b, i) by {
        assert forall|k: int| 0 <= k < a.hierarchy@.len() implies #[trigger] held_by_pred(a, i)(k)
            == held_by_pred(b, i)(k) by {}
        lemma_first_index_agree(a.hierarchy@.len(), held_by_pred(a, i), held_by_pred(b, i));
        assert forall|x: usize| holds_only(a, i, x) == holds_only(b, i, x) by {}
    }
    assert forall|i: usize| left_out(a, i) == left_out(b, i) by {
        lemma_set_read(a, sets, i);
        lemma_set_read(b, sets, i);
    }
    assert forall|r: NodeRef| resolved(a, r) == resolved(b, r) by {
        match r {
            NodeRef::SystemSet(i) => {
                lemma_set_read(a, sets, i);
                lemma_set_read(b, sets, i);
            },
            NodeRef::System(_) => {},
        }
    }
    let ka = kept_set_refs(a, a.sets@.len());
    let kb = kept_set_refs(b, b.sets@.len());
    assert forall|x: usize| occurs(ka, false, x) <==> occurs(kb, false, x) by {
        lemma_kept_occurs(a, sets, x);
        lemma_kept_occurs(b, sets, x);
    }
    law_numbers_of_the_same(ka, kb, false);
}

/// A number occurs among the sets that are kept exactly if the schedule
/// holds a set under it that is not left out.
pub proof fn lemma_kept_occurs(raw: &RawSchedule, sets: Map<usize, (Seq<char>, bool)>, x: usize)
    requires
        sets_listed(raw.sets@, sets),
    ensures
        occurs(kept_set_refs(raw, raw.sets@.len()), false, x) <==> (sets.dom().contains(x)
            && !left_out(raw, x)),
{
    let kept = kept_set_refs(raw, raw.sets@.len());
    let r = NodeRef::SystemSet(x);
    lemma_gather_contains(raw.sets@.len(), kept_set_fn(raw), r);
    if occurs(kept, false, x) {
        let j = choose|j: int| 0 <= j < kept.len() && number_of(#[trigger] kept[j], false) == Some(x);
        assert(kept[j] == r);
        assert(kept.contains(r));
        let k = choose|k: int| 0 <= k < raw.sets@.len() && #[trigger] kept_set_fn(raw)(k) == Some(r);
        assert(kept_set_at(raw, k) == Some(r));
        assert(raw.sets@[k].id == r);
    }
    if sets.dom().contains(x) && !left_out(raw, x) {
        let k = choose|k: int| 0 <= k < raw.sets@.len() && (#[trigger] raw.sets@[k]).id == r;
        assert(kept_set_fn(raw)(k) == Some(r));
        assert(kept.contains(r));
        let j = choose|j: int| 0 <= j < kept.len() && kept[j] == r;
        assert(number_of(kept[j], false) == Some(x));
    }
}

/// Two readings of one schedule are put in order alike: whatever the order
/// in which the scheduler handed its sets out, the schedules that are made
/// of the readings hold the same.
pub proof fn law_readings_agree(
    s: bevy_ecs::schedule::Schedule,
    a: &RawSchedule,
    b: &RawSchedule,
    da: &ScheduleData,
    db: &ScheduleData,
)
    requires
        reads_as(s, a),
        reads_as(s, b),
        put_in_order(a, da),
        put_in_order(b, db),
    ensures
        same_access(da, db),
{
    let sets = held_sets(s);
    lemma_readings(s, a, b);
    let sys_ids = system_numbers(a);
    let set_ids = set_numbers(a);
    assert forall|p: int| 0 <= p < sys_ids.len() implies (#[trigger] da.systems@[p]).name@
        == db.systems@[p].name@ && da.systems@[p].reads@ == db.systems@[p].reads@
        && da.systems@[p].writes@ == db.systems@[p].writes@ by {
        assert(system_from(a, sys_ids[p], da.systems@[p]));
        assert(system_from(b, sys_ids[p], db.systems@[p]));
        lemma_first_index(system_refs(a).len(), numbered_pred(system_refs(a), true, sys_ids[p]));
        match entry_of(system_refs(a), true, sys_ids[p]) {
            Some(k) => {
                assert(system_views(a.systems@)[k] == system_views(b.systems@)[k]);
            },
            None => {
                assert(da.systems@[p].name@ =~= db.systems@[p].name@);
                assert(da.systems@[p].reads@ =~= db.systems@[p].reads@);
                assert(da.systems@[p].writes@ =~= db.systems@[p].writes@);
            },
        }
    }
    assert forall|p: int| 0 <= p < set_ids.len() implies (#[trigger] da.sets@[p]).name@
        == db.sets@[p].name@ by {
        assert(set_from(a, set_ids[p], da.sets@[p]));
        assert(set_from(b, set_ids[p], db.sets@[p]));
        lemma_set_read(a, sets, set_ids[p]);
        lemma_set_read(b, sets, set_ids[p]);
        if !sets.dom().contains(set_ids[p]) {
            assert(da.sets@[p].name@ =~= db.sets@[p].name@);
        }
    }
    assert forall|k: int| 0 <= k < a.hierarchy@.len() implies #[trigger] kept_entry_fn(a)(k)
        == kept_entry_fn(b)(k) by {
        assert(skipped(a, k) == skipped(b, k));
        assert(hierarchy_pair(a, k) == hierarchy_pair(b, k));
    }
    lemma_gather_agree(a.hierarchy@.len(), kept_entry_fn(a), kept_entry_fn(b));
    assert(da.hierarchy@ == db.hierarchy@);
    assert forall|k: int| 0 <= k < a.dependency@.len() implies da.dependency@[k]
        == db.dependency@[k] by {
        assert(dependency_pair(a, k) == dependency_pair(b, k));
        assert(Some(da.dependency@[k]) == dependency_entry(sys_ids, set_ids, dependency_pair(a, k)));
        assert(Some(db.dependency@[k]) == dependency_entry(sys_ids, set_ids, dependency_pair(b, k)));
    }
    assert(da.dependency@ =~= db.dependency@);
    assert forall|k: int| 0 <= k < a.conflicts@.len() implies da.ambiguities@[k]
        == db.ambiguities@[k] by {
        assert(Some(da.ambiguities@[k]) == ambiguity_entry(sys_ids, set_ids, a.conflicts@[k]));
        assert(Some(db.ambiguities@[k]) == ambiguity_entry(sys_ids, set_ids, b.conflicts@[k]));
    }
    assert(da.ambiguities@ =~= db.ambiguities@);
    assert(same_state(da, db));
}

/// Two readings of one schedule can or cannot be put in order alike: they
/// have the same first problem, or none.
pub proof fn law_readings_fail_alike(
    s: bevy_ecs::schedule::Schedule,
    a: &RawSchedule,
    b: &RawSchedule,
)
    requires
        reads_as(s, a),
        reads_as(s, b),
    ensures
        raw_check(a) == raw_check(b),
{
    lemma_readings(s, a, b);
    assert forall|k: int| 0 <= k < a.hierarchy@.len() implies #[trigger] lost_hierarchy(a)(k)
        == lost_hierarchy(b)(k) by {
        assert(skipped(a, k) == skipped(b, k));
        assert(hierarchy_pair(a, k) == hierarchy_pair(b, k));
    }
    lemma_first_index_agree(a.hierarchy@.len(), lost_hierarchy(a), lost_hierarchy(b));
    assert forall|k: int| 0 <= k < a.dependency@.len() implies #[trigger] lost_dependency(a)(k)
        == lost_dependency(b)(k) by {
        assert(dependency_pair(a, k) == dependency_pair(b, k));
    }
    lemma_first_index_agree(a.dependency@.len(), lost_dependency(a), lost_dependency(b));
    assert forall|k: int| 0 <= k < a.conflicts@.len() implies #[trigger] lost_conflict(a)(k)
        == lost_conflict(b)(k) by {}
    lemma_first_index_agree(a.conflicts@.len(), lost_conflict(a), lost_conflict(b));
}

} // verus!
