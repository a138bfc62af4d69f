//! Sequences built by walking an index range: the shapes in which the
//! contracts of this crate describe lists of nodes, edges and statements.

use vstd::prelude::*;

verus! {

/// The values `f(0)`, `f(1)`, ..., `f(n - 1)` that are present, in that order.
pub open spec fn gather<T>(n: nat, f: spec_fn(int) -> Option<T>) -> Seq<T>
    decreases n,
{
    if n == 0 {
        Seq::empty()
    } else {
        let head = gather((n - 1) as nat, f);
        match f(n - 1) {
            Some(x) => head.push(x),
            None => head,
        }
    }
}

/// The least index below `n` at which `p` holds, if there is one.
pub open spec fn first_index(n: nat, p: spec_fn(int) -> bool) -> Option<int>
    decreases n,
{
    if n == 0 {
        None
    } else {
        match first_index((n - 1) as nat, p) {
            Some(i) => Some(i),
            None => if p(n - 1) {
                Some(n - 1)
            } else {
                None
            },
        }
    }
}

/// The number of indices below `n` at which `p` holds.
pub open spec fn count(n: nat, p: spec_fn(int) -> bool) -> nat
    decreases n,
{
    if n == 0 {
        0
    } else {
        count((n - 1) as nat, p) + if p(n - 1) {
            1nat
        } else {
            0nat
        }
    }
}

/// What `gather` holds is what `f` gives somewhere below `n`.
pub proof fn lemma_gather_contains<T>(n: nat, f: spec_fn(int) -> Option<T>, x: T)
    ensures
        gather(n, f).contains(x) <==> exists|i: int| 0 <= i < n && #[trigger] f(i) == Some(x),
    decreases n,
{
    if n > 0 {
        let m = (n - 1) as nat;
        let head = gather(m, f);
        lemma_gather_contains(m, f, x);
        if gather(n, f).contains(x) {
            let k = choose|k: int| 0 <= k < gather(n, f).len() && gather(n, f)[k] == x;
            if k < head.len() {
                assert(head[k] == x);
                assert(head.contains(x));
                let i = choose|i: int| 0 <= i < m && #[trigger] f(i) == Some(x);
                assert(0 <= i < n && f(i) == Some(x));
            } else {
                assert(f(n - 1) == Some(x));
            }
        }
        if exists|i: int| 0 <= i < n && #[trigger] f(i) == Some(x) {
            let i = choose|i: int| 0 <= i < n && #[trigger] f(i) == Some(x);
            if i < m {
                assert(head.contains(x));
                let k = choose|k: int| 0 <= k < head.len() && head[k] == x;
                assert(gather(n, f)[k] == x);
            } else {
                assert(gather(n, f) == head.push(x));
                assert(gather(n, f)[head.len() as int] == x);
            }
        }
    }
}

/// Two selections that agree below `n` gather the same values.
pub proof fn lemma_gather_agree<T>(n: nat, f: spec_fn(int) -> Option<T>, g: spec_fn(int) -> Option<T>)
    requires
        forall|i: int| 0 <= i < n ==> #[trigger] f(i) == g(i),
    ensures
        gather(n, f) == gather(n, g),
    decreases n,
{
    if n > 0 {
        lemma_gather_agree((n - 1) as nat, f, g);
    }
}

/// `first_index` names an index at which `p` holds and before which it does
/// not; it names none exactly when `p` holds nowhere below `n`.
pub proof fn lemma_first_index(n: nat, p: spec_fn(int) -> bool)
    ensures
        match first_index(n, p) {
            Some(i) => 0 <= i < n && p(i) && forall|k: int| 0 <= k < i ==> !#[trigger] p(k),
            None => forall|k: int| 0 <= k < n ==> !#[trigger] p(k),
        },
    decreases n,
{
    if n > 0 {
        lemma_first_index((n - 1) as nat, p);
    }
}

/// Two predicates that agree below `n` have the same first index.
pub proof fn lemma_first_index_agree(n: nat, p: spec_fn(int) -> bool, q: spec_fn(int) -> bool)
    requires
        forall|i: int| 0 <= i < n ==> #[trigger] p(i) == q(i),
    ensures
        first_index(n, p) == first_index(n, q),
    decreases n,
{
    if n > 0 {
        lemma_first_index_agree((n - 1) as nat, p, q);
    }
}

/// A predicate that holds wherever another does, and at one index more,
/// counts strictly more.
pub proof fn lemma_count_strict(n: nat, p: spec_fn(int) -> bool, q: spec_fn(int) -> bool, j: int)
    requires
        forall|i: int| 0 <= i < n && #[trigger] p(i) ==> q(i),
        0 <= j < n,
        q(j),
        !p(j),
    ensures
        count(n, p) < count(n, q),
    decreases n,
{
    let m = (n - 1) as nat;
    if j == n - 1 {
        lemma_count_le(m, p, q);
    } else {
        lemma_count_strict(m, p, q, j);
    }
}

/// A predicate that holds wherever another does counts at least as much.
pub proof fn lemma_count_le(n: nat, p: spec_fn(int) -> bool, q: spec_fn(int) -> bool)
    requires
        forall|i: int| 0 <= i < n && #[trigger] p(i) ==> q(i),
    ensures
        count(n, p) <= count(n, q),
    decreases n,
{
    if n > 0 {
        lemma_count_le((n - 1) as nat, p, q);
    }
}

/// An index at which `p` holds, with none before it, is the first.
pub proof fn lemma_first_index_is(n: nat, p: spec_fn(int) -> bool, i: int)
    requires
        0 <= i < n,
        p(i),
        forall|k: int| 0 <= k < i ==> !#[trigger] p(k),
    ensures
        first_index(n, p) == Some(i),
{
    lemma_first_index(n, p);
}

/// Where `p` holds nowhere below `n` there is no first index.
pub proof fn lemma_first_index_none(n: nat, p: spec_fn(int) -> bool)
    requires
        forall|k: int| 0 <= k < n ==> !#[trigger] p(k),
    ensures
        first_index(n, p) is None,
{
    lemma_first_index(n, p);
}

/// A count never exceeds the length of the range.
pub proof fn lemma_count_bound(n: nat, p: spec_fn(int) -> bool)
    ensures
        count(n, p) <= n,
    decreases n,
{
    if n > 0 {
        lemma_count_bound((n - 1) as nat, p);
    }
}

/// Where nothing is counted the predicate holds nowhere.
pub proof fn lemma_count_zero(n: nat, p: spec_fn(int) -> bool)
    requires
        count(n, p) == 0,
    ensures
        forall|i: int| 0 <= i < n ==> !#[trigger] p(i),
    decreases n,
{
    if n > 0 {
        lemma_count_zero((n - 1) as nat, p);
    }
}

} // verus!
