//! Distance Ranker: the ordered candidate list for one input method.
//!
//! For each active handler the caller supplies the signed distance from the
//! method's reference point to the handler's field; ranking uses the
//! magnitude of that distance (the onion-skin convention, so a method inside
//! a field ranks as if at its surface).  Candidates are sorted ascending by
//! magnitude, ties broken by registration order, so the ordering is a pure
//! function of its inputs: the determinism law at the bottom states that any
//! two sequences meeting the Ranker's contract are equal.
//!
//! Handlers whose field is dead are excluded, not merely deprioritized.

use vstd::prelude::*;
use vstd::relations::{sorted_by, total_ordering};
use vstd::seq_lib::lemma_sorted_unique;

use crate::registry::HandlerRecord;
use crate::vecmath::{abs_dist, spec_abs};

verus! {

/// One ranked candidate: distance magnitude, registration index (the
/// tie-break) and handler id.
#[derive(Clone, Copy, Debug, PartialEq, Eq, Structural)]
pub struct RankEntry {
    pub dist: u64,
    pub index: usize,
    pub handler: u64,
}

/// The ranking order: ascending distance magnitude, ties broken by
/// registration order.
pub open spec fn rank_le(a: RankEntry, b: RankEntry) -> bool {
    ||| a.dist < b.dist
    ||| (a.dist == b.dist && a.index < b.index)
    ||| (a.dist == b.dist && a.index == b.index && a.handler <= b.handler)
}

/// The ranking order as a relation value, shared by every contract.
pub open spec fn rank_leq() -> spec_fn(RankEntry, RankEntry) -> bool {
    |a: RankEntry, b: RankEntry| rank_le(a, b)
}

pub proof fn lemma_rank_le_total()
    ensures
        total_ordering(rank_leq()),
{
    let leq = rank_leq();
    assert forall|x: RankEntry| #[trigger] leq(x, x) by {}
    assert forall|x: RankEntry, y: RankEntry| #[trigger] leq(x, y) && #[trigger] leq(y, x) implies x
        == y by {}
    assert forall|x: RankEntry, y: RankEntry, z: RankEntry|
        #[trigger] leq(x, y) && #[trigger] leq(y, z) implies leq(x, z) by {}
    assert forall|x: RankEntry, y: RankEntry| #[trigger] leq(x, y) || #[trigger] leq(y, x) by {}
}

/// The unranked candidates among the first `n` handlers: every active one,
/// with its distance magnitude and registration index.
pub open spec fn spec_candidates(hs: Seq<HandlerRecord>, ds: Seq<i64>, n: int) -> Seq<RankEntry>
    decreases n,
{
    if n <= 0 {
        Seq::empty()
    } else {
        let rest = spec_candidates(hs, ds, n - 1);
        if hs[n - 1].active {
            rest.push(
                (RankEntry {
                    dist: spec_abs(ds[n - 1] as int) as u64,
                    index: (n - 1) as usize,
                    handler: hs[n - 1].id,
                }),
            )
        } else {
            rest
        }
    }
}

/// Executable comparison in the ranking order.
fn le_entry(a: &RankEntry, b: &RankEntry) -> (r: bool)
    ensures
        r == rank_le(*a, *b),
{
    if a.dist < b.dist {
        true
    } else if a.dist == b.dist {
        if a.index < b.index {
            true
        } else if a.index == b.index {
            a.handler <= b.handler
        } else {
            false
        }
    } else {
        false
    }
}

/// Sort entries in the ranking order (insertion sort, stable and in place).
fn sort_entries(v: &mut Vec<RankEntry>)
    ensures
        sorted_by(final(v)@, rank_leq()),
        final(v)@.to_multiset() == old(v)@.to_multiset(),
{
    let n = v.len();
    if n == 0 {
        return ;
    }
    let mut i: usize = 1;
    while i < n
        invariant
            n == v@.len(),
            1 <= i <= n,
            sorted_by(v@.subrange(0, i as int), rank_leq()),
            v@.to_multiset() == old(v)@.to_multiset(),
        decreases n - i,
    {
        proof {
            let sub = v@.subrange(0, i as int);
            assert forall|a: int, b: int| 0 <= a < b < i implies rank_le(
                #[trigger] v@[a],
                #[trigger] v@[b],
            ) by {
                assert(rank_leq()(sub[a], sub[b]));
                assert(sub[a] == v@[a] && sub[b] == v@[b]);
            }
        }
        let mut j: usize = i;
        while j > 0 && !le_entry(&v[j - 1], &v[j])
            invariant
                n == v@.len(),
                0 <= j <= i < n,
                v@.to_multiset() == old(v)@.to_multiset(),
                forall|a: int, b: int|
                    0 <= a < b <= i && a != j && b != j ==> rank_le(
                        #[trigger] v@[a],
                        #[trigger] v@[b],
                    ),
                forall|b: int| j < b <= i ==> rank_le(v@[j as int], #[trigger] v@[b]),
            decreases j,
        {
            let x = v[j];
            let y = v[j - 1];
            let ghost pre = v@;
            v.set(j, y);
            v.set(j - 1, x);
            proof {
                broadcast use vstd::multiset::group_multiset_axioms;
                broadcast use vstd::seq_lib::group_to_multiset_ensures;

                let mid = pre.update(j as int, pre[j - 1]);
                assert(v@ =~= mid.update(j - 1, pre[j as int]));
                vstd::seq_lib::to_multiset_update(pre, j as int, pre[j - 1]);
                vstd::seq_lib::to_multiset_update(mid, j - 1, pre[j as int]);
                assert(mid[j - 1] == pre[j - 1]);
                assert(pre.contains(pre[j as int]));
                assert(pre.to_multiset().count(pre[j as int]) > 0);
                assert(v@.to_multiset() =~= pre.to_multiset());
            }
            j = j - 1;
        }
        proof {
            assert forall|a: int, b: int| 0 <= a < b <= i implies rank_le(
                #[trigger] v@[a],
                #[trigger] v@[b],
            ) by {
                if j > 0 {
                    assert(rank_le(v@[j - 1], v@[j as int]));
                }
            }
            assert(sorted_by(v@.subrange(0, i + 1), rank_leq())) by {
                assert(forall|a: int|
                    0 <= a <= i ==> (#[trigger] v@.subrange(0, i + 1)[a]) == v@[a]);
            }
        }
        i = i + 1;
    }
    proof {
        assert(v@.subrange(0, n as int) =~= v@);
    }
}

/// Rank the active handlers for one method.
///
/// `distances[i]` is the signed distance from the method's reference point
/// to `handlers[i]`'s field.  The result is exactly the active candidates,
/// sorted ascending by distance magnitude with ties broken by registration
/// order.
pub fn rank(handlers: &Vec<HandlerRecord>, distances: &Vec<i64>) -> (r: Vec<RankEntry>)
    requires
        distances@.len() == handlers@.len(),
    ensures
        sorted_by(r@, rank_leq()),
        r@.to_multiset() == spec_candidates(
            handlers@,
            distances@,
            handlers@.len() as int,
        ).to_multiset(),
    {
    let n = handlers.len();
    let mut cands: Vec<RankEntry> = Vec::new();
    let mut i: usize = 0;
    while i < n
        invariant
            n == handlers@.len() == distances@.len(),
            0 <= i <= n,
            cands@ == spec_candidates(handlers@, distances@, i as int),
        decreases n - i,
    {
        if handlers[i].active {
            let d = abs_dist(distances[i]);
            cands.push(RankEntry { dist: d, index: i, handler: handlers[i].id });
        }
        i += 1;
    }
    sort_entries(&mut cands);
    cands
}

/// Deterministic ranking: identical handler sets and distances admit exactly
/// one ranking that meets the Ranker's contract, so repeated rankings of the
/// same frame state are identical, tie-breaks included.
pub proof fn lemma_rank_deterministic(
    r1: Seq<RankEntry>,
    r2: Seq<RankEntry>,
    hs: Seq<HandlerRecord>,
    ds: Seq<i64>,
)
    requires
        sorted_by(r1, rank_leq()),
        r1.to_multiset() == spec_candidates(hs, ds, hs.len() as int).to_multiset(),
        sorted_by(r2, rank_leq()),
        r2.to_multiset() == spec_candidates(hs, ds, hs.len() as int).to_multiset(),
    ensures
        r1 == r2,
{
    lemma_rank_le_total();
    lemma_sorted_unique(r1, r2, rank_leq());
}


/// What a candidate entry is: an active handler's index, id and distance
/// magnitude, with the index in range.
pub proof fn lemma_candidates_elems(hs: Seq<HandlerRecord>, ds: Seq<i64>, n: int)
    requires
        n <= hs.len(),
        n <= usize::MAX,
        ds.len() == hs.len(),
    ensures
        forall|e: RankEntry|
            #[trigger] spec_candidates(hs, ds, n).contains(e) ==> 0 <= e.index < n
                && hs[e.index as int].active && e.handler == hs[e.index as int].id && e.dist
                == spec_abs(ds[e.index as int] as int),
    decreases n,
{
    if n > 0 {
        lemma_candidates_elems(hs, ds, n - 1);
        let rest = spec_candidates(hs, ds, n - 1);
        assert forall|e: RankEntry| #[trigger] spec_candidates(hs, ds, n).contains(e) implies 0
            <= e.index < n && hs[e.index as int].active && e.handler == hs[e.index as int].id
            && e.dist == spec_abs(ds[e.index as int] as int) by {
            if hs[n - 1].active {
                let last = RankEntry {
                    dist: spec_abs(ds[n - 1] as int) as u64,
                    index: (n - 1) as usize,
                    handler: hs[n - 1].id,
                };
                crate::registry::lemma_push_contains(rest, last);
                if e != last {
                    assert(rest.contains(e));
                }
            } else {
                assert(spec_candidates(hs, ds, n) == rest);
                assert(rest.contains(e));
            }
        }
    }
}

} // verus!
