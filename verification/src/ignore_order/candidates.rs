//! Pairing by distance: of the items that one list lacks and those that the
//! other lacks, the nearest go together.

use vstd::prelude::*;

use crate::order::{Ordered, Place};

#[allow(unused_imports)]
use crate::order::{
    ascending, int_place, lemma_ascending_identified, lemma_lookup, lemma_lookup_at, lemma_put_all,
    lookup, put_all, refine,
};

verus! {

/// Distances are below this for two items to be paired: three tenths, as the
/// bit pattern of a float.
pub const CUTOFF_DISTANCE_FOR_PAIRS: u64 = 0x3fd3_3333_3333_3333;

/// The share of the keys of two lists, in tenths, that may differ for their
/// items to be paired.
pub const CUTOFF_INTERSECTION_FOR_PAIRS: u8 = 7;

/// Two items near enough to be paired: their distance, and their places among
/// the added items and the removed ones.
#[derive(Debug, Clone, Copy, PartialEq, Eq, Structural)]
pub struct Candidate {
    pub distance: u64,
    pub added: usize,
    pub removed: usize,
}

impl View for Candidate {
    type V = Candidate;

    open spec fn view(&self) -> Candidate {
        *self
    }
}

/// The order in which candidates are tried: the nearest first, and of equally
/// near ones the last added item first, with the last removed item first.
pub open spec fn candidate_place(a: Candidate, b: Candidate) -> Place {
    refine(
        int_place(a.distance as int, b.distance as int),
        refine(
            int_place(b.added as int, a.added as int),
            int_place(b.removed as int, a.removed as int),
        ),
    )
}

impl Ordered for Candidate {
    open spec fn place(a: Candidate, b: Candidate) -> Place {
        candidate_place(a, b)
    }

    proof fn lemma_total(a: Candidate, b: Candidate) {
    }

    proof fn lemma_transitive(a: Candidate, b: Candidate, c: Candidate) {
    }

    fn order(&self, other: &Self) -> (place: Place) {
        if self.distance < other.distance {
            Place::Before
        } else if self.distance > other.distance {
            Place::After
        } else if self.added > other.added {
            Place::Before
        } else if self.added < other.added {
            Place::After
        } else if self.removed > other.removed {
            Place::Before
        } else if self.removed < other.removed {
            Place::After
        } else {
            Place::Same
        }
    }
}

/// Candidates in the order in which they are tried.
pub type Ranking = Seq<(Candidate, ())>;

/// The candidates in the order in which they are tried.
pub open spec fn ranked(candidates: Ranking) -> Ranking {
    put_all::<Candidate, ()>(seq![], candidates)
}

/// Which removed item each added item goes with, and at what distance.
pub type Partners = Seq<Option<(usize, u64)>>;

/// Tries the candidates from position `k` on. A removed item is taken once. An
/// added item takes every free one at the smallest distance at which it takes
/// any, and keeps the last of them.
pub open spec fn assigned(ranking: Ranking, k: int, partners: Partners, used: Seq<bool>) -> Partners
    decreases ranking.len() - k,
{
    if k < 0 || k >= ranking.len() {
        partners
    } else {
        let c = ranking[k].0;
        let a = c.added as int;
        let r = c.removed as int;
        if used[r] || (partners[a] matches Some(p) && p.1 != c.distance) {
            assigned(ranking, k + 1, partners, used)
        } else {
            assigned(
                ranking,
                k + 1,
                partners.update(a, Some((c.removed, c.distance))),
                used.update(r, true),
            )
        }
    }
}

/// No partners yet.
pub open spec fn unpaired(count: nat) -> Partners {
    Seq::new(count, |i: int| None)
}

/// None taken yet.
pub open spec fn unused(count: nat) -> Seq<bool> {
    Seq::new(count, |i: int| false)
}

/// The partners of `added` items among `removed` ones.
pub open spec fn partners_of(candidates: Ranking, added: nat, removed: nat) -> Partners {
    assigned(ranked(candidates), 0, unpaired(added), unused(removed))
}

/// Whether no removed item is the partner of two added ones, and each partner
/// is marked as taken.
pub open spec fn one_to_one(partners: Partners, used: Seq<bool>) -> bool {
    &&& forall|i: int|
        0 <= i < partners.len() ==> ((#[trigger] partners[i]) matches Some(p) ==> p.0 < used.len()
            && used[p.0 as int])
    &&& forall|i: int, j: int|
        0 <= i < j < partners.len() ==> ((#[trigger] partners[i]) matches Some(p) ==> ((
        #[trigger] partners[j]) matches Some(q) ==> p.0 != q.0))
}

/// Whether every candidate speaks of items that there are.
pub open spec fn in_bounds(candidates: Ranking, added: nat, removed: nat) -> bool {
    forall|i: int|
        0 <= i < candidates.len() ==> (#[trigger] candidates[i]).0.added < added
            && candidates[i].0.removed < removed
}

/// No removed item is the partner of two added ones.
pub proof fn lemma_assigned(
    ranking: Ranking,
    k: int,
    partners: Partners,
    used: Seq<bool>,
)
    requires
        0 <= k,
        in_bounds(ranking, partners.len(), used.len()),
        one_to_one(partners, used),
    ensures
        assigned(ranking, k, partners, used).len() == partners.len(),
        exists|after: Seq<bool>|
            after.len() == used.len() && #[trigger] one_to_one(
                assigned(ranking, k, partners, used),
                after,
            ),
    decreases ranking.len() - k,
{
    if k >= ranking.len() {
        assert(one_to_one(assigned(ranking, k, partners, used), used));
    } else {
        let c = ranking[k].0;
        let a = c.added as int;
        let r = c.removed as int;
        if used[r] || (partners[a] matches Some(p) && p.1 != c.distance) {
            lemma_assigned(ranking, k + 1, partners, used);
        } else {
            let now = partners.update(a, Some((c.removed, c.distance)));
            let taken = used.update(r, true);
            assert forall|i: int| 0 <= i < now.len() implies ((#[trigger] now[i]) matches Some(
                p,
            ) ==> p.0 < taken.len() && taken[p.0 as int]) by {
                if i != a {
                    assert(now[i] == partners[i]);
                }
            }
            assert forall|i: int, j: int| 0 <= i < j < now.len() implies ((
            #[trigger] now[i]) matches Some(p) ==> ((#[trigger] now[j]) matches Some(q) ==> p.0
                != q.0)) by {
                if i != a {
                    assert(now[i] == partners[i]);
                }
                if j != a {
                    assert(now[j] == partners[j]);
                }
            }
            lemma_assigned(ranking, k + 1, now, taken);
        }
    }
}

/// Pairing is one to one: no removed item is the partner of two added ones, and
/// every partner is an item that there is.
pub proof fn lemma_one_to_one(candidates: Ranking, added: nat, removed: nat)
    requires
        in_bounds(candidates, added, removed),
    ensures
        partners_of(candidates, added, removed).len() == added,
        forall|i: int|
            0 <= i < added ==> ((#[trigger] partners_of(candidates, added, removed)[i]) matches Some(
                p,
            ) ==> p.0 < removed),
        forall|i: int, j: int|
            0 <= i < j < added ==> ((#[trigger] partners_of(candidates, added, removed)[i]) matches Some(
                p,
            ) ==> ((#[trigger] partners_of(candidates, added, removed)[j]) matches Some(q) ==> p.0
                != q.0)),
{
    lemma_ranked(candidates, added, removed);
    lemma_assigned(ranked(candidates), 0, unpaired(added), unused(removed));
    let partners = partners_of(candidates, added, removed);
    let after = choose|after: Seq<bool>|
        after.len() == removed && #[trigger] one_to_one(partners, after);
    assert(one_to_one(partners, after));
    assert(after.len() == removed);
}

/// Ranking candidates makes no new ones.
pub proof fn lemma_ranked(candidates: Ranking, added: nat, removed: nat)
    requires
        in_bounds(candidates, added, removed),
    ensures
        in_bounds(ranked(candidates), added, removed),
        ascending::<Candidate, ()>(ranked(candidates)),
{
    let ranking = ranked(candidates);
    lemma_put_all::<Candidate, ()>(seq![], candidates);
    assert forall|i: int| 0 <= i < ranking.len() implies (#[trigger] ranking[i]).0.added < added
        && ranking[i].0.removed < removed by {
        lemma_lookup_at::<Candidate, ()>(ranking, i);
        lemma_lookup(candidates, ranking[i].0);
        assert(lookup(Seq::<(Candidate, ())>::empty(), ranking[i].0) is None);
        assert(lookup(candidates, ranking[i].0) is Some);
        let j = choose|j: int|
            0 <= j < candidates.len() && #[trigger] candidates[j] == (ranking[i].0, ());
        assert(candidates[j].0 == ranking[i].0);
    }
}

/// A partner that an added item has at a distance stays at that distance.
proof fn lemma_assigned_keeps(
    ranking: Ranking,
    k: int,
    partners: Partners,
    used: Seq<bool>,
    a: int,
    distance: u64,
)
    requires
        0 <= k,
        in_bounds(ranking, partners.len(), used.len()),
        0 <= a < partners.len(),
        partners[a] matches Some(p) && p.1 == distance,
    ensures
        assigned(ranking, k, partners, used)[a] matches Some(p) && p.1 == distance,
    decreases ranking.len() - k,
{
    if k < ranking.len() {
        let c: Candidate = ranking[k].0;
        if used[c.removed as int] || (partners[c.added as int] matches Some(p) && p.1
            != c.distance) {
            lemma_assigned_keeps(ranking, k + 1, partners, used, a, distance);
        } else {
            lemma_assigned_keeps(
                ranking,
                k + 1,
                partners.update(c.added as int, Some((c.removed, c.distance))),
                used.update(c.removed as int, true),
                a,
                distance,
            );
        }
    }
}

/// Every partner comes from a candidate.
pub open spec fn from_candidates(candidates: Ranking, partners: Partners) -> bool {
    forall|i: int|
        0 <= i < partners.len() ==> ((#[trigger] partners[i]) matches Some(p) ==> lookup(
            candidates,
            Candidate { distance: p.1, added: i as usize, removed: p.0 },
        ) is Some)
}

proof fn lemma_assigned_from(ranking: Ranking, k: int, partners: Partners, used: Seq<bool>)
    requires
        0 <= k,
        in_bounds(ranking, partners.len(), used.len()),
        ascending::<Candidate, ()>(ranking),
        from_candidates(ranking, partners),
    ensures
        from_candidates(ranking, assigned(ranking, k, partners, used)),
    decreases ranking.len() - k,
{
    if k < ranking.len() {
        let c: Candidate = ranking[k].0;
        let a: int = c.added as int;
        if used[c.removed as int] || (partners[a] matches Some(p) && p.1 != c.distance) {
            lemma_assigned_from(ranking, k + 1, partners, used);
        } else {
            let now: Partners = partners.update(a, Some((c.removed, c.distance)));
            lemma_lookup_at::<Candidate, ()>(ranking, k);
            assert forall|i: int| 0 <= i < now.len() implies ((#[trigger] now[i]) matches Some(
                p,
            ) ==> lookup(
                ranking,
                Candidate { distance: p.1, added: i as usize, removed: p.0 },
            ) is Some) by {
                if i != a {
                    assert(now[i] == partners[i]);
                }
            }
            lemma_assigned_from(ranking, k + 1, now, used.update(c.removed as int, true));
        }
    }
}

/// The nearest go together: every pair is one of the candidates, and if there is a
/// candidate at all, some pair is as near as the nearest.
pub proof fn lemma_nearest_paired(candidates: Ranking, added: nat, removed: nat)
    requires
        in_bounds(candidates, added, removed),
    ensures
        from_candidates(candidates, partners_of(candidates, added, removed)),
        candidates.len() > 0 ==> exists|i: int|
            0 <= i < added && ((#[trigger] partners_of(candidates, added, removed)[i]) matches Some(
                p,
            ) && forall|k: int|
                0 <= k < candidates.len() ==> p.1 <= (#[trigger] candidates[k]).0.distance),
{
    let ranking: Ranking = ranked(candidates);
    let partners: Partners = partners_of(candidates, added, removed);
    lemma_ranked(candidates, added, removed);
    lemma_one_to_one(candidates, added, removed);
    lemma_put_all::<Candidate, ()>(seq![], candidates);
    assert forall|c: Candidate| #[trigger] lookup(ranking, c) == lookup(candidates, c) by {
        assert(lookup(Seq::<(Candidate, ())>::empty(), c) is None);
    }
    lemma_assigned_from(ranking, 0, unpaired(added), unused(removed));
    assert forall|i: int| 0 <= i < partners.len() implies ((#[trigger] partners[i]) matches Some(
        p,
    ) ==> lookup(
        candidates,
        Candidate { distance: p.1, added: i as usize, removed: p.0 },
    ) is Some) by {
        if let Some(p) = partners[i] {
            let c: Candidate = Candidate { distance: p.1, added: i as usize, removed: p.0 };
            assert(lookup(ranking, c) is Some);
            assert(lookup(ranking, c) == lookup(candidates, c));
        }
    }
    if candidates.len() > 0 {
        lemma_held_ranked(candidates, 0);
        let first: Candidate = ranking[0].0;
        let a: int = first.added as int;
        let now: Partners = unpaired(added).update(a, Some((first.removed, first.distance)));
        assert(partners == assigned(
            ranking,
            1,
            now,
            unused(removed).update(first.removed as int, true),
        ));
        lemma_assigned_keeps(
            ranking,
            1,
            now,
            unused(removed).update(first.removed as int, true),
            a,
            first.distance,
        );
        assert forall|k: int| 0 <= k < candidates.len() implies first.distance <= (
        #[trigger] candidates[k]).0.distance by {
            lemma_held_ranked(candidates, k);
            let j: int = choose|j: int| 0 <= j < ranking.len() && ranking[j].0 == candidates[k].0;
            if j > 0 {
                assert(Candidate::place(ranking[0].0, ranking[j].0) == Place::Before);
            }
        }
        assert(partners[a] matches Some(p) && p.1 == first.distance);
    }
}

/// A candidate is among the ranked ones.
proof fn lemma_held_ranked(candidates: Ranking, k: int)
    requires
        0 <= k < candidates.len(),
    ensures
        ranked(candidates).len() > 0,
        exists|j: int|
            0 <= j < ranked(candidates).len() && ranked(candidates)[j].0 == candidates[k].0,
{
    let ranking: Ranking = ranked(candidates);
    let c: Candidate = candidates[k].0;
    lemma_put_all::<Candidate, ()>(seq![], candidates);
    assert(lookup(Seq::<(Candidate, ())>::empty(), c) is None);
    lemma_lookup(candidates, c);
    assert(candidates[k].0 == c);
    assert(lookup(candidates, c) is Some);
    lemma_lookup(ranking, c);
    assert(lookup(ranking, c) is Some);
    let j: int = choose|j: int| 0 <= j < ranking.len() && #[trigger] ranking[j] == (c, ());
    assert(ranking[j].0 == c);
}

// ---------------------------------------------------------------------
// Ranking
// ---------------------------------------------------------------------

/// Whether two lists hold the same candidates.
pub open spec fn same_candidates(a: Ranking, b: Ranking) -> bool {
    forall|c: Candidate| #[trigger] lookup(a, c) == lookup(b, c)
}

/// A candidate at the end of a list.
proof fn lemma_lookup_push(list: Ranking, last: (Candidate, ()), c: Candidate)
    ensures
        lookup(list.push(last), c) is Some <==> c == last.0 || lookup(list, c) is Some,
{
    assert(list.push(last).drop_last() =~= list);
}

/// A candidate in the first list or the second.
proof fn lemma_lookup_add(a: Ranking, b: Ranking, c: Candidate)
    ensures
        lookup(a + b, c) is Some <==> lookup(a, c) is Some || lookup(b, c) is Some,
    decreases b.len(),
{
    if b.len() == 0 {
        assert(a + b =~= a);
    } else {
        assert((a + b).drop_last() =~= a + b.drop_last());
        lemma_lookup_add(a, b.drop_last(), c);
    }
}

/// Two rankings as one.
fn merge(a: &Vec<(Candidate, ())>, b: &Vec<(Candidate, ())>) -> (result: Vec<(Candidate, ())>)
    requires
        ascending::<Candidate, ()>(a@),
        ascending::<Candidate, ()>(b@),
    ensures
        ascending::<Candidate, ()>(result@),
        same_candidates(result@, a@ + b@),
{
    let mut result: Vec<(Candidate, ())> = Vec::new();
    let mut i: usize = 0;
    let mut j: usize = 0;
    proof {
        assert(a@.take(0) + b@.take(0) =~= result@);
    }
    while i < a.len() || j < b.len()
        invariant
            i <= a.len(),
            j <= b.len(),
            ascending::<Candidate, ()>(a@),
            ascending::<Candidate, ()>(b@),
            ascending::<Candidate, ()>(result@),
            same_candidates(result@, a@.take(i as int) + b@.take(j as int)),
            forall|k: int|
                0 <= k < result@.len() && i < a@.len() ==> candidate_place(
                    (#[trigger] result@[k]).0,
                    a@[i as int].0,
                ) == Place::Before,
            forall|k: int|
                0 <= k < result@.len() && j < b@.len() ==> candidate_place(
                    (#[trigger] result@[k]).0,
                    b@[j as int].0,
                ) == Place::Before,
        decreases a.len() - i + b.len() - j,
    {
        let place: Place = if i >= a.len() {
            Place::After
        } else if j >= b.len() {
            Place::Before
        } else {
            a[i].0.order(&b[j].0)
        };
        let ghost before: Ranking = result@;
        let ghost p: int = i as int;
        let ghost q: int = j as int;
        let next: Candidate = match place {
            Place::After => b[j].0,
            _ => a[i].0,
        };
        match place {
            Place::Before => {
                i = i + 1;
            },
            Place::After => {
                j = j + 1;
            },
            Place::Same => {
                i = i + 1;
                j = j + 1;
            },
        }
        result.push((next, ()));
        proof {
            if p < a@.len() - 1 {
                assert(Candidate::place(a@[p].0, a@[p + 1].0) == Place::Before);
            }
            if q < b@.len() - 1 {
                assert(Candidate::place(b@[q].0, b@[q + 1].0) == Place::Before);
            }
            assert forall|c: Candidate| #[trigger] lookup(result@, c) == lookup(
                a@.take(i as int) + b@.take(j as int),
                c,
            ) by {
                lemma_lookup_push(before, (next, ()), c);
                lemma_lookup_add(a@.take(p), b@.take(q), c);
                lemma_lookup_add(a@.take(i as int), b@.take(j as int), c);
                assert(lookup(before, c) == lookup(a@.take(p) + b@.take(q), c));
                if i > p {
                    assert(a@.take(i as int) =~= a@.take(p).push(a@[p]));
                    lemma_lookup_push(a@.take(p), a@[p], c);
                } else {
                    assert(a@.take(i as int) == a@.take(p));
                }
                if j > q {
                    assert(b@.take(j as int) =~= b@.take(q).push(b@[q]));
                    lemma_lookup_push(b@.take(q), b@[q], c);
                } else {
                    assert(b@.take(j as int) == b@.take(q));
                }
            }
        }
    }
    proof {
        assert(a@.take(i as int) =~= a@);
        assert(b@.take(j as int) =~= b@);
    }
    result
}

/// Part of a list of candidates in the order in which they are tried.
fn rank_part(candidates: &Vec<(Candidate, ())>, start: usize, stop: usize) -> (result: Vec<
    (Candidate, ()),
>)
    requires
        start <= stop <= candidates.len(),
    ensures
        ascending::<Candidate, ()>(result@),
        same_candidates(result@, candidates@.subrange(start as int, stop as int)),
    decreases stop - start,
{
    if stop - start <= 1 {
        let mut result: Vec<(Candidate, ())> = Vec::new();
        if start < stop {
            result.push(candidates[start]);
        }
        proof {
            assert(result@ =~= candidates@.subrange(start as int, stop as int));
        }
        return result;
    }
    let middle: usize = start + (stop - start) / 2;
    let a: Vec<(Candidate, ())> = rank_part(candidates, start, middle);
    let b: Vec<(Candidate, ())> = rank_part(candidates, middle, stop);
    let result: Vec<(Candidate, ())> = merge(&a, &b);
    proof {
        let x: Ranking = candidates@.subrange(start as int, middle as int);
        let y: Ranking = candidates@.subrange(middle as int, stop as int);
        assert(candidates@.subrange(start as int, stop as int) =~= x + y);
        assert forall|c: Candidate| #[trigger] lookup(result@, c) == lookup(x + y, c) by {
            lemma_lookup_add(a@, b@, c);
            lemma_lookup_add(x, y, c);
            assert(lookup(a@, c) == lookup(x, c));
            assert(lookup(b@, c) == lookup(y, c));
            assert(lookup(result@, c) == lookup(a@ + b@, c));
        }
    }
    result
}

/// The candidates in the order in which they are tried.
pub fn rank(candidates: &Vec<(Candidate, ())>) -> (ranking: Vec<(Candidate, ())>)
    ensures
        ranking@ == ranked(candidates@),
{
    let ranking: Vec<(Candidate, ())> = rank_part(candidates, 0, candidates.len());
    proof {
        assert(candidates@.subrange(0, candidates@.len() as int) =~= candidates@);
        lemma_put_all::<Candidate, ()>(seq![], candidates@);
        assert forall|c: Candidate| #[trigger] lookup(ranking@, c) == lookup(
            ranked(candidates@),
            c,
        ) by {
            assert(lookup(Seq::<(Candidate, ())>::empty(), c) is None);
            assert(lookup(ranking@, c) == lookup(candidates@, c));
        }
        lemma_ascending_identified::<Candidate, ()>(ranking@, ranked(candidates@));
    }
    ranking
}

/// The partner of each added item.
pub fn assign(candidates: &Vec<(Candidate, ())>, added: usize, removed: usize) -> (partners: Vec<
    Option<(usize, u64)>,
>)
    requires
        in_bounds(candidates@, added as nat, removed as nat),
    ensures
        partners@ == partners_of(candidates@, added as nat, removed as nat),
        partners@.len() == added,
        forall|i: int|
            0 <= i < added ==> ((#[trigger] partners@[i]) matches Some(p) ==> p.0 < removed),
{
    let ranking: Vec<(Candidate, ())> = rank(candidates);
    let mut partners: Vec<Option<(usize, u64)>> = Vec::new();
    let mut i: usize = 0;
    while i < added
        invariant
            i <= added,
            partners@ =~= unpaired(i as nat),
        decreases added - i,
    {
        partners.push(None);
        i = i + 1;
    }
    let mut used: Vec<bool> = Vec::new();
    let mut i: usize = 0;
    while i < removed
        invariant
            i <= removed,
            used@ =~= unused(i as nat),
        decreases removed - i,
    {
        used.push(false);
        i = i + 1;
    }
    proof {
        lemma_ranked(candidates@, added as nat, removed as nat);
        lemma_one_to_one(candidates@, added as nat, removed as nat);
    }
    let ghost goal: Partners = partners_of(candidates@, added as nat, removed as nat);
    let mut k: usize = 0;
    while k < ranking.len()
        invariant
            k <= ranking.len(),
            partners@.len() == added,
            used@.len() == removed,
            in_bounds(ranking@, added as nat, removed as nat),
            assigned(ranking@, k as int, partners@, used@) == goal,
        decreases ranking.len() - k,
    {
        let c: Candidate = ranking[k].0;
        proof {
            assert(ranking@[k as int].0.added < added);
        }
        let refused: bool = used[c.removed] || (match partners[c.added] {
            Some(p) => p.1 != c.distance,
            None => false,
        });
        if !refused {
            partners.set(c.added, Some((c.removed, c.distance)));
            used.set(c.removed, true);
        }
        k = k + 1;
    }
    partners
}

} // verus!
