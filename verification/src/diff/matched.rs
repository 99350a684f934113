//! What becomes of the items of two lists that are compared without order.

use vstd::prelude::*;

#[allow(unused_imports)]
use super::items::{lemma_position, position};
#[allow(unused_imports)]
use super::lists::item_path;
#[allow(unused_imports)]
use super::model::{
    added_at, array_of, consumed, diff_of, leftover, lists_of, pairable, pairs_found, pairs_of,
    removed_at, unordered_of, Lists,
};
#[allow(unused_imports)]
use super::options::Rules;
#[allow(unused_imports)]
use super::places::{lemma_found_below, lemma_mutual_within, lemma_retagged_within, within};
#[allow(unused_imports)]
use super::scalar::Outcome;
#[allow(unused_imports)]
use super::spots::{
    bare, leads, lemma_leads, lemma_spot_merged, lemma_spot_nothing, lemma_spot_with,
    lemma_spot_within, over, spot, Spot,
};
#[allow(unused_imports)]
use crate::ignore_order::candidates::{unpaired, Partners};
#[allow(unused_imports)]
use crate::ignore_order::hash::{hashed, keys_of, lacking, HashedVal};
#[allow(unused_imports)]
use crate::ignore_order::identified::{key_of, settled};
#[allow(unused_imports)]
use crate::ignore_order::memo::MemoVal;
#[allow(unused_imports)]
use crate::ignore_order::pairing::lemma_nearest_go_together;
#[allow(unused_imports)]
use crate::ignore_order::rearranged::{
    extends, key_at, lemma_alike, lemma_extends, lemma_hashed, lemma_keyed, lemma_keyed_again,
    lemma_keys, lemma_keys_grow, lemma_same, tables,
};
#[allow(unused_imports)]
use crate::ignore_order::replayed::lemma_hashed_grows;
#[allow(unused_imports)]
use crate::order::lookup;
#[allow(unused_imports)]
use crate::path::Seg;
#[allow(unused_imports)]
use crate::report::{
    merged, mutual_merged, nothing, orderly, retagged, with_item_added, with_item_removed, Findings,
    TypeChange, ValueChange,
};
#[allow(unused_imports)]
use crate::value::Val;

verus! {

// ---------------------------------------------------------------------
// Items that only one list has
// ---------------------------------------------------------------------

/// The memo once the items of two lists are numbered.
pub open spec fn numbered(m: MemoVal, x: Seq<Val>, y: Seq<Val>) -> MemoVal {
    keys_of(keys_of(m, x, x.len() as int).0, y, y.len() as int).0
}

/// Whether a list holds an item with the key of a value.
pub open spec fn has_match(n: MemoVal, items: Seq<Val>, value: Val) -> bool {
    exists|j: int| 0 <= j < items.len() && key_of(n, #[trigger] items[j]) == key_of(n, value)
}

/// Whether no item in front of a position has the key of the one at it.
pub open spec fn met_first(n: MemoVal, items: Seq<Val>, i: int) -> bool {
    forall|k: int| 0 <= k < i ==> key_of(n, #[trigger] items[k]) != key_of(n, items[i])
}

/// Whether the item at a position is the first of its key, and the other list has none
/// of that key.
pub open spec fn unmatched_at(n: MemoVal, items: Seq<Val>, others: Seq<Val>, i: int) -> bool {
    0 <= i < items.len() && met_first(n, items, i) && !has_match(n, others, items[i])
}

/// An item keeps its key as the tables grow, and is held by them.
pub proof fn lemma_key_stays(m: MemoVal, items: Seq<Val>, i: int, n: MemoVal)
    requires
        tables(m),
        tables(n),
        0 <= i < items.len(),
        extends(keys_of(m, items, items.len() as int).0, n),
    ensures
        key_at(m, items, i) == key_of(n, items[i]),
        settled(n, items[i]),
{
    let before: MemoVal = keys_of(m, items, i).0;
    lemma_keys(m, items, i);
    lemma_keys_grow(m, items, i + 1, items.len() as int);
    lemma_keyed(before, items[i], false);
    lemma_extends(
        keyed_after(before, items[i]),
        keys_of(m, items, items.len() as int).0,
        n,
    );
    lemma_alike(items[i]);
    lemma_keyed_again(before, items[i], items[i], false, n);
}

/// The memo once an item is numbered.
spec fn keyed_after(m: MemoVal, value: Val) -> MemoVal {
    crate::ignore_order::hash::keyed_of(m, value, false).0
}

/// Each key is listed once, with the first position at which it is met.
proof fn lemma_firsts(m: MemoVal, items: Seq<Val>, count: int)
    requires
        0 <= count <= items.len() <= usize::MAX,
    ensures
        hashed(m, items, count).1.keys.len() == hashed(m, items, count).1.firsts.len(),
        forall|k: int|
            0 <= k < hashed(m, items, count).1.firsts.len() ==> (#[trigger] hashed(
                m,
                items,
                count,
            ).1.firsts[k]) < count && key_at(
                m,
                items,
                hashed(m, items, count).1.firsts[k] as int,
            ) == hashed(m, items, count).1.keys[k],
        forall|k: int, l: int|
            0 <= k < l < hashed(m, items, count).1.keys.len() ==> hashed(m, items, count).1.keys[k]
                != hashed(m, items, count).1.keys[l],
        forall|k: int, i: int|
            0 <= k < hashed(m, items, count).1.firsts.len() && 0 <= i < (#[trigger] hashed(
                m,
                items,
                count,
            ).1.firsts[k]) ==> #[trigger] key_at(m, items, i) != hashed(m, items, count).1.keys[k],
    decreases count,
{
    if count > 0 {
        lemma_firsts(m, items, count - 1);
        lemma_hashed(m, items, count - 1);
        let before: HashedVal = hashed(m, items, count - 1).1;
        let after: HashedVal = hashed(m, items, count).1;
        let last: usize = key_at(m, items, count - 1);
        if !before.keys.contains(last) {
            assert(after.keys == before.keys.push(last));
            assert(after.firsts == before.firsts.push((count - 1) as usize));
            assert forall|k: int, i: int|
                0 <= k < after.firsts.len() && 0 <= i < (
                #[trigger] after.firsts[k]) implies #[trigger] key_at(m, items, i)
                != after.keys[k] by {
                if k < before.firsts.len() {
                    assert(after.firsts[k] == before.firsts[k]);
                } else {
                    assert(before.keys.contains(key_at(m, items, i)));
                }
            }
        }
    }
}

/// The places of the keys that another list lacks.
proof fn lemma_lacking(list: HashedVal, other: HashedVal, count: int)
    requires
        0 <= count <= list.keys.len() <= usize::MAX,
    ensures
        forall|r: int|
            0 <= r < lacking(list, other, count).len() ==> (#[trigger] lacking(
                list,
                other,
                count,
            )[r]) < count && !other.keys.contains(
                list.keys[lacking(list, other, count)[r] as int],
            ),
        forall|k: int|
            #![trigger list.keys[k]]
            0 <= k < count && !other.keys.contains(list.keys[k]) ==> lacking(
                list,
                other,
                count,
            ).contains(k as usize),
        forall|r: int, s: int|
            0 <= r < s < lacking(list, other, count).len() ==> lacking(list, other, count)[r]
                < lacking(list, other, count)[s],
    decreases count,
{
    if count > 0 {
        lemma_lacking(list, other, count - 1);
        let less: Seq<usize> = lacking(list, other, count - 1);
        let all: Seq<usize> = lacking(list, other, count);
        if !other.keys.contains(list.keys[count - 1]) {
            assert forall|k: int|
                #![trigger list.keys[k]]
                0 <= k < count && !other.keys.contains(list.keys[k]) implies all.contains(
                k as usize,
            ) by {
                if k == count - 1 {
                    assert(all[less.len() as int] == k as usize);
                } else {
                    let r: int = choose|r: int| 0 <= r < less.len() && less[r] == k as usize;
                    assert(all[r] == k as usize);
                }
            }
        }
    }
}

/// The position of the `r`th of the items that another list lacks.
spec fn place_at(list: HashedVal, places: Seq<usize>, r: int) -> int {
    list.firsts[places[r] as int] as int
}

/// The items that another list lacks are those that are unmatched, each once.
proof fn lemma_places(m: MemoVal, items: Seq<Val>, others: Seq<Val>, l: MemoVal, n: MemoVal)
    requires
        tables(m),
        tables(l),
        tables(n),
        items.len() <= usize::MAX,
        others.len() <= usize::MAX,
        extends(keys_of(m, items, items.len() as int).0, n),
        extends(keys_of(l, others, others.len() as int).0, n),
    ensures
        ({
            let list = hashed(m, items, items.len() as int).1;
            let other = hashed(l, others, others.len() as int).1;
            let places = lacking(list, other, list.keys.len() as int);
            &&& forall|r: int|
                0 <= r < places.len() ==> unmatched_at(
                    n,
                    items,
                    others,
                    #[trigger] place_at(list, places, r),
                )
            &&& forall|r: int, s: int|
                0 <= r < s < places.len() ==> #[trigger] place_at(list, places, r)
                    != #[trigger] place_at(list, places, s)
            &&& forall|i: int| #[trigger]
                unmatched_at(n, items, others, i) ==> exists|r: int|
                    0 <= r < places.len() && #[trigger] place_at(list, places, r) == i
        }),
{
    let list: HashedVal = hashed(m, items, items.len() as int).1;
    let other: HashedVal = hashed(l, others, others.len() as int).1;
    let places: Seq<usize> = lacking(list, other, list.keys.len() as int);
    lemma_firsts(m, items, items.len() as int);
    lemma_hashed(m, items, items.len() as int);
    lemma_hashed(l, others, others.len() as int);
    lemma_hashed_grows(m, items, items.len() as int);
    lemma_lacking(list, other, list.keys.len() as int);
    assert forall|i: int| 0 <= i < items.len() implies #[trigger] key_at(m, items, i) == key_of(
        n,
        items[i],
    ) by {
        lemma_key_stays(m, items, i, n);
    }
    assert forall|j: int| 0 <= j < others.len() implies #[trigger] key_at(l, others, j) == key_of(
        n,
        others[j],
    ) by {
        lemma_key_stays(l, others, j, n);
    }
    assert forall|v: Val| other.keys.contains(key_of(n, v)) == #[trigger] has_match(
        n,
        others,
        v,
    ) by {
        if has_match(n, others, v) {
            let j: int = choose|j: int|
                0 <= j < others.len() && key_of(n, #[trigger] others[j]) == key_of(n, v);
            assert(key_at(l, others, j) == key_of(n, v));
        }
        if other.keys.contains(key_of(n, v)) {
            let j: int = choose|j: int|
                0 <= j < others.len() && #[trigger] key_at(l, others, j) == key_of(n, v);
            assert(key_of(n, others[j]) == key_of(n, v));
        }
    }
    assert forall|r: int| 0 <= r < places.len() implies unmatched_at(
        n,
        items,
        others,
        #[trigger] place_at(list, places, r),
    ) by {
        let k: int = places[r] as int;
        let i: int = list.firsts[k] as int;
        assert(!other.keys.contains(list.keys[k]));
        assert(key_at(m, items, i) == list.keys[k]);
        assert(!has_match(n, others, items[i]));
        assert forall|t: int| 0 <= t < i implies key_of(n, #[trigger] items[t]) != key_of(
            n,
            items[i],
        ) by {
            assert(key_at(m, items, t) != list.keys[k]);
        }
    }
    assert forall|r: int, s: int| 0 <= r < s < places.len() implies #[trigger] place_at(
        list,
        places,
        r,
    ) != #[trigger] place_at(list, places, s) by {
        let k: int = places[r] as int;
        let t: int = places[s] as int;
        assert(k < t);
        assert(list.keys[k] != list.keys[t]);
        assert(key_at(m, items, list.firsts[k] as int) == list.keys[k]);
        assert(key_at(m, items, list.firsts[t] as int) == list.keys[t]);
    }
    assert forall|i: int| #[trigger] unmatched_at(n, items, others, i) implies exists|r: int|
        0 <= r < places.len() && #[trigger] place_at(list, places, r) == i by {
        assert(list.keys.contains(key_at(m, items, i)));
        let k: int = choose|k: int| 0 <= k < list.keys.len() && list.keys[k] == key_at(
            m,
            items,
            i,
        );
        assert(!has_match(n, others, items[i]));
        assert(!other.keys.contains(list.keys[k]));
        let first: int = list.firsts[k] as int;
        assert(key_at(m, items, first) == list.keys[k]);
        if first < i {
            assert(key_of(n, items[first]) != key_of(n, items[i]));
        }
        if i < first {
            assert(key_at(m, items, i) != list.keys[k]);
        }
        assert(places.contains(k as usize));
        let r: int = choose|r: int| 0 <= r < places.len() && places[r] == k as usize;
        assert(place_at(list, places, r) == i);
    }
}

// ---------------------------------------------------------------------
// Changes of items that stand elsewhere
// ---------------------------------------------------------------------

/// Where a new value stands whose item moved to position `j`: on the path of the new
/// value, or else of the old one, with the step to the item replaced.
pub open spec fn moved_path(
    q: Seq<Seg>,
    new_path: Option<Seq<Seg>>,
    depth: int,
    j: int,
) -> Seq<Seg> {
    let base = match new_path {
        Some(path) => path,
        None => q,
    };
    if depth < base.len() {
        base.update(depth, Seg::Index(j))
    } else {
        base
    }
}

/// What stands at a path below an item that moved from position `i` to position `j`: the
/// changes tell where the new values stand.
pub open spec fn moved(s: Spot, q: Seq<Seg>, depth: int, i: int, j: int) -> Spot {
    if i == j {
        s
    } else {
        Spot {
            value_change: match s.value_change {
                Some(c) => Some(
                    ValueChange { new_path: Some(moved_path(q, c.new_path, depth, j)), ..c },
                ),
                None => None,
            },
            type_change: match s.type_change {
                Some(c) => Some(
                    TypeChange { new_path: Some(moved_path(q, c.new_path, depth, j)), ..c },
                ),
                None => None,
            },
            ..s
        }
    }
}

proof fn lemma_values_moved(
    given: Seq<(Seq<Seg>, ValueChange)>,
    now: Seq<(Seq<Seg>, ValueChange)>,
    depth: int,
    j: int,
    q: Seq<Seg>,
)
    requires
        given.len() == now.len(),
        forall|k: int|
            0 <= k < given.len() ==> (#[trigger] now[k]) == (
                given[k].0,
                ValueChange {
                    new_path: Some(moved_path(given[k].0, given[k].1.new_path, depth, j)),
                    ..given[k].1
                },
            ),
    ensures
        lookup(now, q) == match lookup(given, q) {
            Some(c) => Some(
                ValueChange { new_path: Some(moved_path(q, c.new_path, depth, j)), ..c },
            ),
            None => None,
        },
    decreases given.len(),
{
    if given.len() > 0 {
        assert(now[now.len() - 1].0 == given.last().0);
        let front: Seq<(Seq<Seg>, ValueChange)> = given.drop_last();
        let less: Seq<(Seq<Seg>, ValueChange)> = now.drop_last();
        assert forall|k: int| 0 <= k < front.len() implies (#[trigger] less[k]) == (
            front[k].0,
            ValueChange {
                new_path: Some(moved_path(front[k].0, front[k].1.new_path, depth, j)),
                ..front[k].1
            },
        ) by {
            assert(less[k] == now[k]);
        }
        lemma_values_moved(front, less, depth, j, q);
    }
}

proof fn lemma_types_moved(
    given: Seq<(Seq<Seg>, TypeChange)>,
    now: Seq<(Seq<Seg>, TypeChange)>,
    depth: int,
    j: int,
    q: Seq<Seg>,
)
    requires
        given.len() == now.len(),
        forall|k: int|
            0 <= k < given.len() ==> (#[trigger] now[k]) == (
                given[k].0,
                TypeChange {
                    new_path: Some(moved_path(given[k].0, given[k].1.new_path, depth, j)),
                    ..given[k].1
                },
            ),
    ensures
        lookup(now, q) == match lookup(given, q) {
            Some(c) => Some(
                TypeChange { new_path: Some(moved_path(q, c.new_path, depth, j)), ..c },
            ),
            None => None,
        },
    decreases given.len(),
{
    if given.len() > 0 {
        assert(now[now.len() - 1].0 == given.last().0);
        let front: Seq<(Seq<Seg>, TypeChange)> = given.drop_last();
        let less: Seq<(Seq<Seg>, TypeChange)> = now.drop_last();
        assert forall|k: int| 0 <= k < front.len() implies (#[trigger] less[k]) == (
            front[k].0,
            TypeChange {
                new_path: Some(moved_path(front[k].0, front[k].1.new_path, depth, j)),
                ..front[k].1
            },
        ) by {
            assert(less[k] == now[k]);
        }
        lemma_types_moved(front, less, depth, j, q);
    }
}

/// Retagging the paths of new values is moving the item.
pub proof fn lemma_spot_moved(g: Findings, depth: int, i: int, j: int)
    requires
        i != j,
    ensures
        forall|q: Seq<Seg>| #[trigger]
            spot(retagged(g, depth, j), q) == moved(spot(g, q), q, depth, i, j),
{
    let h: Findings = retagged(g, depth, j);
    assert forall|q: Seq<Seg>| #[trigger] spot(h, q) == moved(spot(g, q), q, depth, i, j) by {
        reveal(spot);
        lemma_values_moved(g.values_changed, h.values_changed, depth, j, q);
        lemma_types_moved(g.type_changes, h.type_changes, depth, j, q);
    }
}

// ---------------------------------------------------------------------
// Pairs and what is left over
// ---------------------------------------------------------------------

/// Whether what is found below an old item is what comparing it with a new item finds,
/// with mutual items merged and told where the new values stand. Of the item itself it
/// may be told besides that another one is added at its position.
pub open spec fn pair_told(
    f: Findings,
    path: Seq<Seg>,
    x: Seq<Val>,
    y: Seq<Val>,
    i: int,
    j: int,
    depth: int,
    opts: Rules,
) -> bool {
    exists|n: MemoVal|
        (#[trigger] diff_of(n, path.push(Seg::Index(i)), x[i], y[j], depth, opts)).1 matches Ok(g)
            && forall|q: Seq<Seg>|
            leads(path, Seg::Index(i), q) ==> {
                let s = moved(spot(mutual_merged(g), q), q, path.len() as int, i, j);
                (#[trigger] spot(f, q)) == if q == path.push(Seg::Index(i)) {
                    Spot { item_added: spot(f, q).item_added, ..s }
                } else {
                    s
                }
            }
}

/// The position of the old item with which the `k`th new one is paired.
spec fn old_of(lists: Lists, partners: Partners, k: int) -> int {
    removed_at(lists, partners[k]->Some_0.0 as int)
}

/// Whether the `k`th new item is paired with an old one at a position.
spec fn pairs_with(lists: Lists, partners: Partners, k: int, i: int) -> bool {
    partners[k] is Some && old_of(lists, partners, k) == i
}

/// Whether partners are such as pairing gives: items that there are, no two new items
/// with one old one.
spec fn paired_well(lists: Lists, partners: Partners) -> bool {
    &&& partners.len() == lists.added.len()
    &&& forall|k: int|
        0 <= k < partners.len() ==> 0 <= #[trigger] added_at(lists, k) < lists.new.len()
    &&& forall|r: int|
        0 <= r < lists.removed.len() ==> 0 <= #[trigger] removed_at(lists, r) < lists.old.len()
    &&& forall|k: int|
        0 <= k < partners.len() ==> ((#[trigger] partners[k]) matches Some(p) ==> p.0
            < lists.removed.len())
    &&& forall|k: int, l: int, i: int|
        0 <= k < partners.len() && 0 <= l < partners.len() && #[trigger] pairs_with(
            lists,
            partners,
            k,
            i,
        ) && #[trigger] pairs_with(lists, partners, l, i) ==> k == l
    &&& forall|k: int, l: int|
        0 <= k < l < partners.len() ==> #[trigger] added_at(lists, k) != #[trigger] added_at(
            lists,
            l,
        )
}

/// Whether a path leads through an old item that a new one from the `k`th on is paired
/// with.
spec fn claimed(path: Seq<Seg>, lists: Lists, partners: Partners, q: Seq<Seg>, k: int) -> bool {
    exists|l: int, i: int|
        k <= l < partners.len() && #[trigger] pairs_with(lists, partners, l, i) && leads(
            path,
            Seg::Index(i),
            q,
        )
}

/// Whether a new item from the `k`th on is unpaired and stands at a position.
spec fn newly(lists: Lists, partners: Partners, j: int, k: int) -> bool {
    exists|l: int|
        k <= l < partners.len() && partners[l] is None && #[trigger] added_at(lists, l) == j
}

/// What is said of anything but of an added item.
spec fn but_come(s: Spot) -> Spot {
    Spot { item_added: None, ..s }
}

/// What stands before the pairs from the `k`th on are compared.
#[verifier::opaque]
spec fn ready(f: Findings, path: Seq<Seg>, lists: Lists, partners: Partners, k: int) -> bool {
    &&& forall|q: Seq<Seg>|
        claimed(path, lists, partners, q, k) ==> but_come(#[trigger] spot(f, q)) == bare()
    &&& forall|q: Seq<Seg>|
        position(path, q) < 0 && claimed(path, lists, partners, q, k) ==> #[trigger] spot(f, q)
            == bare()
}

/// What changes as the pairs from the `k`th on are compared.
#[verifier::opaque]
spec fn advanced(
    h: Findings,
    f: Findings,
    path: Seq<Seg>,
    lists: Lists,
    partners: Partners,
    k: int,
) -> bool {
    &&& forall|q: Seq<Seg>|
        !claimed(path, lists, partners, q, k) ==> but_come(#[trigger] spot(h, q)) == but_come(
            spot(f, q),
        )
    &&& forall|q: Seq<Seg>|
        position(path, q) < 0 && !claimed(path, lists, partners, q, k) ==> #[trigger] spot(h, q)
            == spot(f, q)
    &&& forall|q: Seq<Seg>|
        position(path, q) >= 0 ==> (#[trigger] spot(h, q)).item_added == if newly(
            lists,
            partners,
            position(path, q),
            k,
        ) {
            Some(lists.new[position(path, q)])
        } else {
            spot(f, q).item_added
        }
    &&& forall|q: Seq<Seg>|
        position(path, q) >= 0 ==> (#[trigger] spot(h, q)).item_removed == spot(f, q).item_removed
}

proof fn lemma_claimed_next(
    path: Seq<Seg>,
    lists: Lists,
    partners: Partners,
    q: Seq<Seg>,
    k: int,
)
    requires
        0 <= k < partners.len(),
    ensures
        claimed(path, lists, partners, q, k) <==> claimed(path, lists, partners, q, k + 1) || (
        partners[k] is Some && leads(path, Seg::Index(old_of(lists, partners, k)), q)),
{
    if claimed(path, lists, partners, q, k) {
        let (l, i): (int, int) = choose|l: int, i: int|
            k <= l < partners.len() && #[trigger] pairs_with(lists, partners, l, i) && leads(
                path,
                Seg::Index(i),
                q,
            );
        if l > k {
            assert(pairs_with(lists, partners, l, i));
        }
    }
    if claimed(path, lists, partners, q, k + 1) {
        let (l, i): (int, int) = choose|l: int, i: int|
            k + 1 <= l < partners.len() && #[trigger] pairs_with(lists, partners, l, i) && leads(
                path,
                Seg::Index(i),
                q,
            );
        assert(pairs_with(lists, partners, l, i));
    }
    if partners[k] is Some && leads(path, Seg::Index(old_of(lists, partners, k)), q) {
        assert(pairs_with(lists, partners, k, old_of(lists, partners, k)));
    }
}

proof fn lemma_newly_next(lists: Lists, partners: Partners, j: int, k: int)
    requires
        0 <= k < partners.len(),
    ensures
        newly(lists, partners, j, k) <==> newly(lists, partners, j, k + 1) || (partners[k] is None
            && added_at(lists, k) == j),
{
    if newly(lists, partners, j, k) {
        let l: int = choose|l: int|
            k <= l < partners.len() && partners[l] is None && #[trigger] added_at(lists, l) == j;
        if l > k {
            assert(added_at(lists, l) == j);
        }
    }
    if newly(lists, partners, j, k + 1) {
        let l: int = choose|l: int|
            k + 1 <= l < partners.len() && partners[l] is None && #[trigger] added_at(lists, l)
                == j;
        assert(added_at(lists, l) == j);
    }
}

/// One pair, compared and put in.
proof fn lemma_one_pair(
    f: Findings,
    g: Findings,
    path: Seq<Seg>,
    lists: Lists,
    partners: Partners,
    k: int,
)
    requires
        orderly(f),
        0 <= k < partners.len(),
        paired_well(lists, partners),
        partners[k] is Some,
        within(g, path.push(Seg::Index(old_of(lists, partners, k)))),
        ready(f, path, lists, partners, k),
    ensures
        orderly(merged(f, g)),
        ready(merged(f, g), path, lists, partners, k + 1),
        forall|q: Seq<Seg>|
            leads(path, Seg::Index(old_of(lists, partners, k)), q) ==> {
                &&& !claimed(path, lists, partners, q, k + 1)
                &&& #[trigger] spot(merged(f, g), q) == (if q == path.push(
                    Seg::Index(old_of(lists, partners, k)),
                ) {
                    Spot { item_added: spot(f, q).item_added, ..spot(g, q) }
                } else {
                    spot(g, q)
                })
            },
        forall|q: Seq<Seg>|
            !leads(path, Seg::Index(old_of(lists, partners, k)), q) ==> #[trigger] spot(
                merged(f, g),
                q,
            ) == spot(f, q),
        forall|q: Seq<Seg>|
            position(path, q) >= 0 ==> (#[trigger] spot(merged(f, g), q)).item_added == spot(
                f,
                q,
            ).item_added && spot(merged(f, g), q).item_removed == spot(f, q).item_removed,
{
    reveal(ready);
    let i: int = old_of(lists, partners, k);
    let at: Seq<Seg> = path.push(Seg::Index(i));
    let both: Findings = merged(f, g);
    assert(0 <= removed_at(lists, partners[k]->Some_0.0 as int));
    assert(pairs_with(lists, partners, k, i));
    lemma_spot_merged(f, g);
    assert forall|q: Seq<Seg>| leads(path, Seg::Index(i), q) implies {
        &&& !claimed(path, lists, partners, q, k + 1)
        &&& #[trigger] spot(both, q) == (if q == at {
            Spot { item_added: spot(f, q).item_added, ..spot(g, q) }
        } else {
            spot(g, q)
        })
    } by {
        lemma_claimed_next(path, lists, partners, q, k);
        lemma_position(path, q, i);
        lemma_spot_within(g, at, q);
        assert(spot(both, q) == over(spot(f, q), spot(g, q)));
        assert(but_come(spot(f, q)) == bare());
        if q != at {
            lemma_deeper(path, q, i);
            assert(position(path, q) < 0);
        }
        if claimed(path, lists, partners, q, k + 1) {
            let (l, t): (int, int) = choose|l: int, t: int|
                k + 1 <= l < partners.len() && #[trigger] pairs_with(lists, partners, l, t)
                    && leads(path, Seg::Index(t), q);
            lemma_leads(path, Seg::Index(t), q);
            lemma_leads(path, Seg::Index(i), q);
            assert(t == i);
            assert(pairs_with(lists, partners, l, i));
        }
    }
    assert forall|q: Seq<Seg>| !leads(path, Seg::Index(i), q) implies #[trigger] spot(both, q)
        == spot(f, q) by {
        lemma_spot_within(g, at, q);
        assert(spot(both, q) == over(spot(f, q), spot(g, q)));
    }
    assert forall|q: Seq<Seg>| claimed(path, lists, partners, q, k + 1) implies but_come(
        #[trigger] spot(both, q),
    ) == bare() && (position(path, q) < 0 ==> spot(both, q) == bare()) by {
        lemma_claimed_next(path, lists, partners, q, k);
        if leads(path, Seg::Index(i), q) {
            assert(!claimed(path, lists, partners, q, k + 1));
        }
        assert(spot(both, q) == spot(f, q));
        assert(but_come(spot(f, q)) == bare());
    }
    assert forall|q: Seq<Seg>| position(path, q) >= 0 implies (#[trigger] spot(
        both,
        q,
    )).item_added == spot(f, q).item_added && spot(both, q).item_removed == spot(
        f,
        q,
    ).item_removed by {
        if leads(path, Seg::Index(i), q) {
            if q != at {
                lemma_deeper(path, q, i);
            }
            lemma_spot_within(g, at, q);
            lemma_claimed_next(path, lists, partners, q, k);
            assert(but_come(spot(f, q)) == bare());
        }
    }
}

/// Below the path of an item there is no position of the list.
proof fn lemma_deeper(path: Seq<Seg>, q: Seq<Seg>, i: int)
    requires
        i >= 0,
        leads(path, Seg::Index(i), q),
        q != path.push(Seg::Index(i)),
    ensures
        position(path, q) < 0,
{
    lemma_leads(path, Seg::Index(i), q);
    if position(path, q) >= 0 {
        let k: int = position(path, q);
        lemma_position(path, q, k);
        assert(q[path.len() as int] == Seg::Index(k));
    }
}

/// What a compared pair and those behind it change.
proof fn lemma_pair_advanced(
    g: Findings,
    both: Findings,
    f: Findings,
    path: Seq<Seg>,
    lists: Lists,
    partners: Partners,
    k: int,
)
    requires
        0 <= k < partners.len(),
        partners[k] is Some,
        advanced(g, both, path, lists, partners, k + 1),
        forall|q: Seq<Seg>|
            !leads(path, Seg::Index(old_of(lists, partners, k)), q) ==> #[trigger] spot(both, q)
                == spot(f, q),
        forall|q: Seq<Seg>|
            position(path, q) >= 0 ==> (#[trigger] spot(both, q)).item_added == spot(
                f,
                q,
            ).item_added && spot(both, q).item_removed == spot(f, q).item_removed,
    ensures
        advanced(g, f, path, lists, partners, k),
{
    reveal(advanced);
    let i: int = old_of(lists, partners, k);
    assert forall|q: Seq<Seg>| !claimed(path, lists, partners, q, k) implies but_come(
        #[trigger] spot(g, q),
    ) == but_come(spot(f, q)) && (position(path, q) < 0 ==> spot(g, q) == spot(f, q)) by {
        lemma_claimed_next(path, lists, partners, q, k);
        assert(spot(both, q) == spot(f, q));
    }
    assert forall|q: Seq<Seg>| position(path, q) >= 0 implies (#[trigger] spot(g, q)).item_added
        == (if newly(lists, partners, position(path, q), k) {
        Some(lists.new[position(path, q)])
    } else {
        spot(f, q).item_added
    }) && spot(g, q).item_removed == spot(f, q).item_removed by {
        lemma_newly_next(lists, partners, position(path, q), k);
        assert(spot(both, q).item_added == spot(f, q).item_added);
    }
}

/// What is told of a compared pair is not touched by those behind it.
proof fn lemma_pair_stays(
    g: Findings,
    both: Findings,
    f: Findings,
    m: MemoVal,
    path: Seq<Seg>,
    lists: Lists,
    partners: Partners,
    k: int,
    depth: int,
    opts: Rules,
    found: Findings,
    more: Findings,
)
    requires
        0 <= k < partners.len(),
        partners[k] is Some,
        0 <= old_of(lists, partners, k),
        advanced(g, both, path, lists, partners, k + 1),
        diff_of(
            m,
            path.push(Seg::Index(old_of(lists, partners, k))),
            lists.old[old_of(lists, partners, k)],
            lists.new[added_at(lists, k)],
            depth,
            opts,
        ).1 == Outcome::Ok(found),
        forall|q: Seq<Seg>| #[trigger]
            spot(more, q) == moved(
                spot(mutual_merged(found), q),
                q,
                path.len() as int,
                old_of(lists, partners, k),
                added_at(lists, k),
            ),
        forall|q: Seq<Seg>|
            leads(path, Seg::Index(old_of(lists, partners, k)), q) ==> {
                &&& !claimed(path, lists, partners, q, k + 1)
                &&& #[trigger] spot(both, q) == (if q == path.push(
                    Seg::Index(old_of(lists, partners, k)),
                ) {
                    Spot { item_added: spot(f, q).item_added, ..spot(more, q) }
                } else {
                    spot(more, q)
                })
            },
    ensures
        pair_told(
            g,
            path,
            lists.old,
            lists.new,
            old_of(lists, partners, k),
            added_at(lists, k),
            depth,
            opts,
        ),
{
    reveal(advanced);
    let i: int = old_of(lists, partners, k);
    let j: int = added_at(lists, k);
    let at: Seq<Seg> = path.push(Seg::Index(i));
    assert forall|q: Seq<Seg>| leads(path, Seg::Index(i), q) implies {
        let s = moved(spot(mutual_merged(found), q), q, path.len() as int, i, j);
        (#[trigger] spot(g, q)) == if q == at {
            Spot { item_added: spot(g, q).item_added, ..s }
        } else {
            s
        }
    } by {
        assert(spot(more, q) == moved(
            spot(mutual_merged(found), q),
            q,
            path.len() as int,
            i,
            j,
        ));
        assert(spot(both, q) == spot(both, q));
        assert(but_come(spot(g, q)) == but_come(spot(both, q)));
        if q != at {
            lemma_deeper(path, q, i);
        }
    }
}

/// An added item leaves the pairs behind it to be compared.
proof fn lemma_new_ready(f: Findings, path: Seq<Seg>, lists: Lists, partners: Partners, k: int)
    requires
        orderly(f),
        0 <= k < partners.len(),
        0 <= added_at(lists, k),
        ready(f, path, lists, partners, k),
    ensures
        ready(
            with_item_added(
                f,
                path.push(Seg::Index(added_at(lists, k))),
                lists.new[added_at(lists, k)],
            ),
            path,
            lists,
            partners,
            k + 1,
        ),
{
    reveal(ready);
    let j: int = added_at(lists, k);
    let at: Seq<Seg> = path.push(Seg::Index(j));
    let more: Findings = with_item_added(f, at, lists.new[j]);
    lemma_spot_with(f, at);
    lemma_position(path, at, j);
    assert forall|q: Seq<Seg>| claimed(path, lists, partners, q, k + 1) implies but_come(
        #[trigger] spot(more, q),
    ) == bare() && (position(path, q) < 0 ==> spot(more, q) == bare()) by {
        lemma_claimed_next(path, lists, partners, q, k);
        assert(but_come(spot(f, q)) == bare());
    }
}

/// What an added item and the pairs behind it change.
proof fn lemma_new_advanced(
    g: Findings,
    f: Findings,
    path: Seq<Seg>,
    lists: Lists,
    partners: Partners,
    k: int,
)
    requires
        orderly(f),
        0 <= k < partners.len(),
        paired_well(lists, partners),
        partners[k] is None,
        advanced(
            g,
            with_item_added(
                f,
                path.push(Seg::Index(added_at(lists, k))),
                lists.new[added_at(lists, k)],
            ),
            path,
            lists,
            partners,
            k + 1,
        ),
    ensures
        advanced(g, f, path, lists, partners, k),
{
    reveal(advanced);
    let j: int = added_at(lists, k);
    let at: Seq<Seg> = path.push(Seg::Index(j));
    let more: Findings = with_item_added(f, at, lists.new[j]);
    lemma_spot_with(f, at);
    lemma_position(path, at, j);
    assert forall|q: Seq<Seg>| !claimed(path, lists, partners, q, k) implies but_come(
        #[trigger] spot(g, q),
    ) == but_come(spot(f, q)) && (position(path, q) < 0 ==> spot(g, q) == spot(f, q)) by {
        lemma_claimed_next(path, lists, partners, q, k);
        assert(but_come(spot(more, q)) == but_come(spot(f, q)));
    }
    assert forall|q: Seq<Seg>| position(path, q) >= 0 implies (#[trigger] spot(g, q)).item_added
        == (if newly(lists, partners, position(path, q), k) {
        Some(lists.new[position(path, q)])
    } else {
        spot(f, q).item_added
    }) && spot(g, q).item_removed == spot(f, q).item_removed by {
        let t: int = position(path, q);
        lemma_position(path, q, j);
        lemma_newly_next(lists, partners, t, k);
        if t == j && newly(lists, partners, t, k + 1) {
            let l: int = choose|l: int|
                k + 1 <= l < partners.len() && partners[l] is None && #[trigger] added_at(lists, l)
                    == t;
            assert(added_at(lists, k) != added_at(lists, l));
        }
        assert(spot(more, q).item_added == if q == at {
            Some(lists.new[j])
        } else {
            spot(f, q).item_added
        });
    }
}

/// Whether findings tell of the pair of the `l`th new item.
#[verifier::opaque]
spec fn told_at(
    g: Findings,
    path: Seq<Seg>,
    lists: Lists,
    partners: Partners,
    l: int,
    depth: int,
    opts: Rules,
) -> bool {
    pair_told(
        g,
        path,
        lists.old,
        lists.new,
        old_of(lists, partners, l),
        added_at(lists, l),
        depth,
        opts,
    )
}

/// One pair is compared, and the others are left to be.
proof fn lemma_pair_step(
    m: MemoVal,
    path: Seq<Seg>,
    lists: Lists,
    partners: Partners,
    depth: int,
    opts: Rules,
    k: int,
    f: Findings,
    h: Findings,
) -> (step: (MemoVal, Findings))
    requires
        orderly(f),
        0 <= k < partners.len(),
        paired_well(lists, partners),
        partners[k] is Some,
        ready(f, path, lists, partners, k),
        pairs_found(m, path, lists, partners, depth, opts, k, f).1 == Outcome::Ok(h),
    ensures
        orderly(step.1),
        ready(step.1, path, lists, partners, k + 1),
        pairs_found(step.0, path, lists, partners, depth, opts, k + 1, step.1).1 == Outcome::Ok(h),
        forall|g: Findings| #[trigger]
            advanced(g, step.1, path, lists, partners, k + 1) ==> advanced(
                g,
                f,
                path,
                lists,
                partners,
                k,
            ) && told_at(g, path, lists, partners, k, depth, opts),
{
    let i: int = old_of(lists, partners, k);
    let j: int = added_at(lists, k);
    let at: Seq<Seg> = path.push(Seg::Index(i));
    assert(0 <= removed_at(lists, partners[k]->Some_0.0 as int) < lists.old.len());
    assert(0 <= added_at(lists, k) < lists.new.len());
    let (n, found) = diff_of(m, item_path(path, i), lists.old[i], lists.new[j], depth, opts);
    let own: Findings = mutual_merged(found->Ok_0);
    let more: Findings = if i != j {
        retagged(own, path.len() as int, j)
    } else {
        own
    };
    let both: Findings = merged(f, more);
    assert(pairs_found(m, path, lists, partners, depth, opts, k, f).1 == pairs_found(
        n,
        path,
        lists,
        partners,
        depth,
        opts,
        k + 1,
        both,
    ).1);
    lemma_pair_put(m, path, lists, partners, depth, opts, k, f, found->Ok_0, more);
    (n, both)
}

/// What one compared pair adds.
proof fn lemma_pair_put(
    m: MemoVal,
    path: Seq<Seg>,
    lists: Lists,
    partners: Partners,
    depth: int,
    opts: Rules,
    k: int,
    f: Findings,
    found: Findings,
    more: Findings,
)
    requires
        orderly(f),
        0 <= k < partners.len(),
        paired_well(lists, partners),
        partners[k] is Some,
        ready(f, path, lists, partners, k),
        diff_of(
            m,
            path.push(Seg::Index(old_of(lists, partners, k))),
            lists.old[old_of(lists, partners, k)],
            lists.new[added_at(lists, k)],
            depth,
            opts,
        ).1 == Outcome::Ok(found),
        more == if old_of(lists, partners, k) != added_at(lists, k) {
            retagged(mutual_merged(found), path.len() as int, added_at(lists, k))
        } else {
            mutual_merged(found)
        },
    ensures
        orderly(merged(f, more)),
        ready(merged(f, more), path, lists, partners, k + 1),
        forall|g: Findings| #[trigger]
            advanced(g, merged(f, more), path, lists, partners, k + 1) ==> advanced(
                g,
                f,
                path,
                lists,
                partners,
                k,
            ) && told_at(g, path, lists, partners, k, depth, opts),
{
    let i: int = old_of(lists, partners, k);
    let j: int = added_at(lists, k);
    let at: Seq<Seg> = path.push(Seg::Index(i));
    let both: Findings = merged(f, more);
    assert(0 <= removed_at(lists, partners[k]->Some_0.0 as int) < lists.old.len());
    lemma_found_below(m, at, lists.old[i], lists.new[j], depth, opts);
    lemma_mutual_within(found, at);
    lemma_retagged_within(mutual_merged(found), path.len() as int, j, at);
    if i != j {
        lemma_spot_moved(mutual_merged(found), path.len() as int, i, j);
    }
    lemma_one_pair(f, more, path, lists, partners, k);
    assert forall|g: Findings| #[trigger]
        advanced(g, both, path, lists, partners, k + 1) implies advanced(
        g,
        f,
        path,
        lists,
        partners,
        k,
    ) && told_at(g, path, lists, partners, k, depth, opts) by {
        reveal(told_at);
        lemma_pair_advanced(g, both, f, path, lists, partners, k);
        lemma_pair_stays(g, both, f, m, path, lists, partners, k, depth, opts, found, more);
    }
}

/// What comparing the pairs from the `k`th on leads to, before what is left over.
proof fn lemma_pairs_found(
    m: MemoVal,
    path: Seq<Seg>,
    lists: Lists,
    partners: Partners,
    depth: int,
    opts: Rules,
    k: int,
    f: Findings,
    h: Findings,
) -> (g: Findings)
    requires
        orderly(f),
        0 <= k <= partners.len(),
        paired_well(lists, partners),
        ready(f, path, lists, partners, k),
        pairs_found(m, path, lists, partners, depth, opts, k, f).1 == Outcome::Ok(h),
    ensures
        orderly(g),
        h == leftover(g, path, lists.old, lists.first, lists.removed, partners, 0),
        advanced(g, f, path, lists, partners, k),
        forall|l: int|
            k <= l < partners.len() && (#[trigger] partners[l]) is Some ==> told_at(
                g,
                path,
                lists,
                partners,
                l,
                depth,
                opts,
            ),
    decreases partners.len() - k,
{
    if k < partners.len() {
        if partners[k] is Some {
            let (n, both) = lemma_pair_step(m, path, lists, partners, depth, opts, k, f, h);
            lemma_pairs_found(n, path, lists, partners, depth, opts, k + 1, both, h)
        } else {
            let j: int = added_at(lists, k);
            let at: Seq<Seg> = item_path(path, j);
            assert(0 <= added_at(lists, k) < lists.new.len());
            let more: Findings = with_item_added(f, at, lists.new[j]);
            lemma_spot_with(f, at);
            lemma_new_ready(f, path, lists, partners, k);
            let g: Findings = lemma_pairs_found(
                m,
                path,
                lists,
                partners,
                depth,
                opts,
                k + 1,
                more,
                h,
            );
            lemma_new_advanced(g, f, path, lists, partners, k);
            g
        }
    } else {
        lemma_no_pairs(f, path, lists, partners);
        f
    }
}

/// Nothing changes where no pair is left.
proof fn lemma_no_pairs(f: Findings, path: Seq<Seg>, lists: Lists, partners: Partners)
    ensures
        advanced(f, f, path, lists, partners, partners.len() as int),
{
    reveal(advanced);
    let k: int = partners.len() as int;
    assert forall|q: Seq<Seg>| !#[trigger] claimed(path, lists, partners, q, k) by {}
    assert forall|t: int| !#[trigger] newly(lists, partners, t, k) by {}
}

/// Whether an old item from the `r`th on is unpaired and stands at a position.
spec fn left_over(lists: Lists, partners: Partners, i: int, r: int) -> bool {
    exists|s: int|
        r <= s < lists.removed.len() && !consumed(partners, s as usize) && #[trigger] removed_at(
            lists,
            s,
        ) == i
}

/// The old items that are left over are recorded as removed, each at its position.
proof fn lemma_leftover(
    f: Findings,
    path: Seq<Seg>,
    lists: Lists,
    partners: Partners,
    r: int,
)
    requires
        orderly(f),
        0 <= r,
        lists.removed.len() <= usize::MAX,
        forall|s: int|
            0 <= s < lists.removed.len() ==> 0 <= #[trigger] removed_at(lists, s)
                < lists.old.len(),
    ensures
        orderly(leftover(f, path, lists.old, lists.first, lists.removed, partners, r)),
        forall|q: Seq<Seg>| #[trigger]
            spot(leftover(f, path, lists.old, lists.first, lists.removed, partners, r), q)
                == if position(path, q) >= 0 && left_over(lists, partners, position(path, q), r) {
                Spot { item_removed: Some(lists.old[position(path, q)]), ..spot(f, q) }
            } else {
                spot(f, q)
            },
    decreases lists.removed.len() - r,
{
    if r < lists.removed.len() {
        let i: int = removed_at(lists, r);
        let at: Seq<Seg> = item_path(path, i);
        let g: Findings = if consumed(partners, r as usize) {
            f
        } else {
            with_item_removed(f, at, lists.old[i])
        };
        lemma_spot_with(f, at);
        lemma_leftover(g, path, lists, partners, r + 1);
        let h: Findings = leftover(f, path, lists.old, lists.first, lists.removed, partners, r);
        assert forall|q: Seq<Seg>| #[trigger] spot(h, q) == if position(path, q) >= 0 && left_over(
            lists,
            partners,
            position(path, q),
            r,
        ) {
            Spot { item_removed: Some(lists.old[position(path, q)]), ..spot(f, q) }
        } else {
            spot(f, q)
        } by {
            let t: int = position(path, q);
            lemma_position(path, q, i);
            if left_over(lists, partners, t, r) {
                let s: int = choose|s: int|
                    r <= s < lists.removed.len() && !consumed(partners, s as usize)
                        && #[trigger] removed_at(lists, s) == t;
                if s > r {
                    assert(left_over(lists, partners, t, r + 1));
                }
            }
            if left_over(lists, partners, t, r + 1) {
                let s: int = choose|s: int|
                    r + 1 <= s < lists.removed.len() && !consumed(partners, s as usize)
                        && #[trigger] removed_at(lists, s) == t;
                assert(removed_at(lists, s) == t);
            }
            assert(spot(g, q) == if !consumed(partners, r as usize) && q == at {
                Spot { item_removed: Some(lists.old[i]), ..spot(f, q) }
            } else {
                spot(f, q)
            });
        }
    } else {
        assert forall|t: int| !#[trigger] left_over(lists, partners, t, r) by {}
    }
}

// ---------------------------------------------------------------------
// The law
// ---------------------------------------------------------------------

/// Whether pairs of positions are such as unmatched items are paired by: of old and new
/// items that are unmatched, no item in two pairs.
pub open spec fn pairing(
    pairs: Seq<(int, int)>,
    n: MemoVal,
    x: Seq<Val>,
    y: Seq<Val>,
) -> bool {
    &&& forall|k: int|
        0 <= k < pairs.len() ==> unmatched_at(n, x, y, (#[trigger] pairs[k]).0) && unmatched_at(
            n,
            y,
            x,
            pairs[k].1,
        )
    &&& forall|k: int, l: int|
        0 <= k < l < pairs.len() ==> (#[trigger] pairs[k]).0 != (#[trigger] pairs[l]).0
            && pairs[k].1 != pairs[l].1
}

/// Whether an old item is in one of the pairs.
pub open spec fn old_paired(pairs: Seq<(int, int)>, i: int) -> bool {
    exists|k: int| 0 <= k < pairs.len() && (#[trigger] pairs[k]).0 == i
}

/// Whether a new item is in one of the pairs.
pub open spec fn new_paired(pairs: Seq<(int, int)>, j: int) -> bool {
    exists|k: int| 0 <= k < pairs.len() && (#[trigger] pairs[k]).1 == j
}

/// Whether findings account for all items of two lists compared without order, given
/// the pairs: an unmatched old item that is in no pair is removed, at its first position
/// and with its value, and no other is; an unmatched new item that is in no pair is
/// added likewise, and no other is; below the old item of each pair stands what comparing
/// the two finds; and nothing else is found.
pub open spec fn all_told(
    f: Findings,
    path: Seq<Seg>,
    x: Seq<Val>,
    y: Seq<Val>,
    n: MemoVal,
    pairs: Seq<(int, int)>,
    depth: int,
    opts: Rules,
) -> bool {
    &&& pairing(pairs, n, x, y)
    &&& forall|q: Seq<Seg>|
        position(path, q) >= 0 ==> (#[trigger] spot(f, q)).item_removed == if unmatched_at(
            n,
            x,
            y,
            position(path, q),
        ) && !old_paired(pairs, position(path, q)) {
            Some(x[position(path, q)])
        } else {
            None
        }
    &&& forall|q: Seq<Seg>|
        position(path, q) >= 0 ==> (#[trigger] spot(f, q)).item_added == if unmatched_at(
            n,
            y,
            x,
            position(path, q),
        ) && !new_paired(pairs, position(path, q)) {
            Some(y[position(path, q)])
        } else {
            None
        }
    &&& forall|k: int|
        0 <= k < pairs.len() ==> pair_told(
            f,
            path,
            x,
            y,
            (#[trigger] pairs[k]).0,
            pairs[k].1,
            depth,
            opts,
        )
    &&& forall|q: Seq<Seg>|
        (forall|k: int|
            0 <= k < pairs.len() ==> !leads(path, Seg::Index((#[trigger] pairs[k]).0), q))
            ==> #[trigger] spot(f, q) == if position(path, q) >= 0 {
            Spot {
                item_removed: spot(f, q).item_removed,
                item_added: spot(f, q).item_added,
                ..bare()
            }
        } else {
            bare()
        }
}

/// The pairs of positions by which partners go together, of the first `count` new items.
spec fn pair_list(lists: Lists, partners: Partners, count: int) -> Seq<(int, int)>
    decreases count,
{
    if count <= 0 {
        seq![]
    } else if partners[count - 1] is Some {
        pair_list(lists, partners, count - 1).push(
            (old_of(lists, partners, count - 1), added_at(lists, count - 1)),
        )
    } else {
        pair_list(lists, partners, count - 1)
    }
}

/// Whether a new item is paired.
spec fn seated(partners: Partners, l: int) -> bool {
    partners[l] is Some
}

/// Whether a pair of positions is that of the `l`th new item and its partner.
spec fn is_pair(lists: Lists, partners: Partners, l: int, pair: (int, int)) -> bool {
    partners[l] is Some && pair == (old_of(lists, partners, l), added_at(lists, l))
}

/// Whether a pair of positions is that of one of the first `count` new items.
spec fn comes_from(lists: Lists, partners: Partners, count: int, pair: (int, int)) -> bool {
    exists|l: int| 0 <= l < count && #[trigger] is_pair(lists, partners, l, pair)
}

/// Whether pairs of positions are those of the first `count` new items.
spec fn lists_pairs(
    pairs: Seq<(int, int)>,
    lists: Lists,
    partners: Partners,
    count: int,
) -> bool {
    &&& forall|k: int|
        0 <= k < pairs.len() ==> comes_from(lists, partners, count, #[trigger] pairs[k])
    &&& forall|l: int|
        0 <= l < count && #[trigger] seated(partners, l) ==> exists|k: int|
            0 <= k < pairs.len() && is_pair(lists, partners, l, #[trigger] pairs[k])
    &&& forall|k: int, l: int|
        0 <= k < l < pairs.len() ==> (#[trigger] pairs[k]).0 != (#[trigger] pairs[l]).0
            && pairs[k].1 != pairs[l].1
}

proof fn lemma_pair_list(lists: Lists, partners: Partners, count: int)
    requires
        0 <= count <= partners.len(),
        paired_well(lists, partners),
    ensures
        lists_pairs(pair_list(lists, partners, count), lists, partners, count),
    decreases count,
{
    if count > 0 {
        lemma_pair_list(lists, partners, count - 1);
        let less: Seq<(int, int)> = pair_list(lists, partners, count - 1);
        let all: Seq<(int, int)> = pair_list(lists, partners, count);
        if partners[count - 1] is Some {
            let own: (int, int) = (old_of(lists, partners, count - 1), added_at(lists, count - 1));
            assert(all == less.push(own));
            assert(is_pair(lists, partners, count - 1, own));
            assert forall|k: int| 0 <= k < all.len() implies comes_from(
                lists,
                partners,
                count,
                #[trigger] all[k],
            ) by {
                if k < less.len() {
                    let l: int = choose|l: int|
                        0 <= l < count - 1 && #[trigger] is_pair(lists, partners, l, less[k]);
                    assert(is_pair(lists, partners, l, all[k]));
                } else {
                    assert(is_pair(lists, partners, count - 1, all[k]));
                }
            }
            assert forall|l: int| 0 <= l < count && #[trigger] seated(partners, l) implies exists|
                k: int,
            |
                0 <= k < all.len() && is_pair(lists, partners, l, #[trigger] all[k]) by {
                if l < count - 1 {
                    let k: int = choose|k: int|
                        0 <= k < less.len() && is_pair(lists, partners, l, #[trigger] less[k]);
                    assert(is_pair(lists, partners, l, all[k]));
                } else {
                    assert(is_pair(lists, partners, l, all[less.len() as int]));
                }
            }
            assert forall|k: int, l: int| 0 <= k < l < all.len() implies (#[trigger] all[k]).0 != (
            #[trigger] all[l]).0 && all[k].1 != all[l].1 by {
                if l < less.len() {
                    assert(less[k].0 != less[l].0 && less[k].1 != less[l].1);
                } else {
                    let s: int = choose|s: int|
                        0 <= s < count - 1 && #[trigger] is_pair(lists, partners, s, less[k]);
                    assert(added_at(lists, s) != added_at(lists, count - 1));
                    if old_of(lists, partners, s) == own.0 {
                        assert(pairs_with(lists, partners, s, own.0));
                        assert(pairs_with(lists, partners, count - 1, own.0));
                    }
                }
            }
        } else {
            assert(all == less);
            assert forall|k: int| 0 <= k < all.len() implies comes_from(
                lists,
                partners,
                count,
                #[trigger] all[k],
            ) by {
                let l: int = choose|l: int|
                    0 <= l < count - 1 && #[trigger] is_pair(lists, partners, l, less[k]);
                assert(is_pair(lists, partners, l, all[k]));
            }
        }
    }
}

/// What partners make of two lists.
#[verifier::spinoff_prover]
proof fn lemma_partners_told(
    m: MemoVal,
    n: MemoVal,
    path: Seq<Seg>,
    x: Seq<Val>,
    y: Seq<Val>,
    lists: Lists,
    partners: Partners,
    depth: int,
    opts: Rules,
    f: Findings,
) -> (pairs: Seq<(int, int)>)
    requires
        lone_places(lists, n, x, y),
        partners.len() == lists.added.len(),
        forall|k: int|
            0 <= k < partners.len() ==> ((#[trigger] partners[k]) matches Some(p) ==> p.0
                < lists.removed.len()),
        forall|i: int, j: int|
            0 <= i < j < partners.len() ==> ((#[trigger] partners[i]) matches Some(p) ==> ((
            #[trigger] partners[j]) matches Some(q) ==> p.0 != q.0)),
        pairs_found(m, path, lists, partners, depth, opts, 0, nothing()).1 == Outcome::Ok(f),
    ensures
        all_told(f, path, x, y, n, pairs, depth, opts),
{
    reveal(ready);
    reveal(advanced);
    assert(paired_well(lists, partners)) by {
        assert forall|k: int, l: int, i: int|
            0 <= k < partners.len() && 0 <= l < partners.len() && #[trigger] pairs_with(
                lists,
                partners,
                k,
                i,
            ) && #[trigger] pairs_with(lists, partners, l, i) implies k == l by {
            let r: int = partners[k]->Some_0.0 as int;
            let s: int = partners[l]->Some_0.0 as int;
            assert(removed_at(lists, r) == removed_at(lists, s));
            if r < s {
                assert(removed_at(lists, r) != removed_at(lists, s));
            } else if s < r {
                assert(removed_at(lists, s) != removed_at(lists, r));
            }
        }
    }
    let pairs: Seq<(int, int)> = pair_list(lists, partners, partners.len() as int);
    lemma_pair_list(lists, partners, partners.len() as int);
    lemma_spot_nothing();
    let g: Findings = lemma_pairs_found(
        m,
        path,
        lists,
        partners,
        depth,
        opts,
        0,
        nothing(),
        f,
    );
    lemma_leftover(g, path, lists, partners, 0);
    assert(pairing(pairs, n, x, y)) by {
        assert forall|k: int| 0 <= k < pairs.len() implies unmatched_at(
            n,
            x,
            y,
            (#[trigger] pairs[k]).0,
        ) && unmatched_at(n, y, x, pairs[k].1) by {
            let s: int = choose|s: int|
                0 <= s < partners.len() && #[trigger] is_pair(lists, partners, s, pairs[k]);
            assert(unmatched_at(n, x, y, removed_at(lists, partners[s]->Some_0.0 as int)));
        }
    }
    assert forall|i: int| #[trigger] old_paired(pairs, i) implies exists|s: int|
        0 <= s < partners.len() && #[trigger] pairs_with(lists, partners, s, i) by {
        let k: int = choose|k: int| 0 <= k < pairs.len() && (#[trigger] pairs[k]).0 == i;
        let s: int = choose|s: int|
            0 <= s < partners.len() && #[trigger] is_pair(lists, partners, s, pairs[k]);
        assert(pairs_with(lists, partners, s, i));
    }
    assert forall|i: int, s: int|
        0 <= s < partners.len() && #[trigger] pairs_with(lists, partners, s, i) implies old_paired(
        pairs,
        i,
    ) by {
        assert(seated(partners, s));
        let k: int = choose|k: int|
            0 <= k < pairs.len() && is_pair(lists, partners, s, #[trigger] pairs[k]);
        assert(pairs[k].0 == i);
    }
    assert forall|i: int| #[trigger] left_over(lists, partners, i, 0) == (unmatched_at(n, x, y, i)
        && !old_paired(pairs, i)) by {
        lemma_left(lists, partners, pairs, n, x, y, i);
    }
    assert forall|j: int| #[trigger] newly(lists, partners, j, 0) == (unmatched_at(n, y, x, j)
        && !new_paired(pairs, j)) by {
        lemma_new_left(lists, partners, pairs, n, x, y, j);
    }
    assert forall|q: Seq<Seg>| position(path, q) >= 0 implies (#[trigger] spot(
        f,
        q,
    )).item_removed == (if unmatched_at(n, x, y, position(path, q)) && !old_paired(
        pairs,
        position(path, q),
    ) {
        Some(x[position(path, q)])
    } else {
        None
    }) && spot(f, q).item_added == (if unmatched_at(n, y, x, position(path, q)) && !new_paired(
        pairs,
        position(path, q),
    ) {
        Some(y[position(path, q)])
    } else {
        None
    }) by {
        let t: int = position(path, q);
        assert(spot(nothing(), q) == bare());
        assert(left_over(lists, partners, t, 0) == (unmatched_at(n, x, y, t) && !old_paired(
            pairs,
            t,
        )));
        assert(newly(lists, partners, t, 0) == (unmatched_at(n, y, x, t) && !new_paired(
            pairs,
            t,
        )));
        assert(spot(g, q).item_removed is None);
    }
    assert forall|k: int| 0 <= k < pairs.len() implies pair_told(
        f,
        path,
        x,
        y,
        (#[trigger] pairs[k]).0,
        pairs[k].1,
        depth,
        opts,
    ) by {
        let s: int = choose|s: int|
            0 <= s < partners.len() && #[trigger] is_pair(lists, partners, s, pairs[k]);
        let i: int = pairs[k].0;
        let j: int = pairs[k].1;
        assert(old_paired(pairs, i));
        assert(pair_told(g, path, x, y, i, j, depth, opts)) by {
            assert(partners[s] is Some);
            reveal(told_at);
        }
        assert(0 <= i) by {
            assert(unmatched_at(n, x, y, removed_at(lists, partners[s]->Some_0.0 as int)));
        }
        lemma_still_told(g, f, path, lists, partners, i, j, depth, opts);
    }
    assert forall|q: Seq<Seg>|
        (forall|k: int|
            0 <= k < pairs.len() ==> !leads(
                path,
                Seg::Index((#[trigger] pairs[k]).0),
                q,
            )) implies #[trigger] spot(f, q) == if position(path, q) >= 0 {
        Spot {
            item_removed: spot(f, q).item_removed,
            item_added: spot(f, q).item_added,
            ..bare()
        }
    } else {
        bare()
    } by {
        assert(spot(nothing(), q) == bare());
        if claimed(path, lists, partners, q, 0) {
            let (s, i): (int, int) = choose|s: int, i: int|
                0 <= s < partners.len() && #[trigger] pairs_with(lists, partners, s, i) && leads(
                    path,
                    Seg::Index(i),
                    q,
                );
            assert(old_paired(pairs, i));
            let k: int = choose|k: int| 0 <= k < pairs.len() && (#[trigger] pairs[k]).0 == i;
            assert(!leads(path, Seg::Index(pairs[k].0), q));
        }
        assert(but_come(spot(g, q)) == bare());
    }
    pairs
}

/// What was told of a pair is not touched by what is left over.
proof fn lemma_still_told(
    g: Findings,
    f: Findings,
    path: Seq<Seg>,
    lists: Lists,
    partners: Partners,
    i: int,
    j: int,
    depth: int,
    opts: Rules,
)
    requires
        0 <= i,
        pair_told(g, path, lists.old, lists.new, i, j, depth, opts),
        !left_over(lists, partners, i, 0),
        forall|q: Seq<Seg>| #[trigger]
            spot(f, q) == if position(path, q) >= 0 && left_over(
                lists,
                partners,
                position(path, q),
                0,
            ) {
                Spot { item_removed: Some(lists.old[position(path, q)]), ..spot(g, q) }
            } else {
                spot(g, q)
            },
    ensures
        pair_told(f, path, lists.old, lists.new, i, j, depth, opts),
{
    assert forall|q: Seq<Seg>| leads(path, Seg::Index(i), q) implies #[trigger] spot(f, q) == spot(
        g,
        q,
    ) by {
        lemma_position(path, q, i);
        if q != path.push(Seg::Index(i)) {
            lemma_deeper(path, q, i);
        }
    }
}

/// Which old items are left over.
proof fn lemma_left(
    lists: Lists,
    partners: Partners,
    pairs: Seq<(int, int)>,
    n: MemoVal,
    x: Seq<Val>,
    y: Seq<Val>,
    i: int,
)
    requires
        lone_places(lists, n, x, y),
        forall|k: int|
            0 <= k < partners.len() ==> ((#[trigger] partners[k]) matches Some(p) ==> p.0
                < lists.removed.len()),
        forall|i: int| #[trigger]
            old_paired(pairs, i) ==> exists|s: int|
                0 <= s < partners.len() && #[trigger] pairs_with(lists, partners, s, i),
        forall|i: int, s: int|
            0 <= s < partners.len() && #[trigger] pairs_with(lists, partners, s, i) ==> old_paired(
                pairs,
                i,
            ),
    ensures
        left_over(lists, partners, i, 0) == (unmatched_at(n, x, y, i) && !old_paired(pairs, i)),
{
    if left_over(lists, partners, i, 0) {
        let r: int = choose|r: int|
            0 <= r < lists.removed.len() && !consumed(partners, r as usize)
                && #[trigger] removed_at(lists, r) == i;
        assert(unmatched_at(n, x, y, removed_at(lists, r)));
        if old_paired(pairs, i) {
            let s: int = choose|s: int|
                0 <= s < partners.len() && #[trigger] pairs_with(lists, partners, s, i);
            let t: int = partners[s]->Some_0.0 as int;
            assert(removed_at(lists, t) == removed_at(lists, r));
            if t < r {
                assert(removed_at(lists, t) != removed_at(lists, r));
            } else if r < t {
                assert(removed_at(lists, r) != removed_at(lists, t));
            }
            assert(partners[s] matches Some(p) && p.0 == r as usize);
            assert(consumed(partners, r as usize));
        }
    }
    if unmatched_at(n, x, y, i) && !old_paired(pairs, i) {
        let r: int = choose|r: int|
            0 <= r < lists.removed.len() && #[trigger] removed_at(lists, r) == i;
        if consumed(partners, r as usize) {
            let s: int = choose|s: int|
                0 <= s < partners.len() && ((#[trigger] partners[s]) matches Some(p) && p.0
                    == r as usize);
            assert(pairs_with(lists, partners, s, i));
        }
        assert(removed_at(lists, r) == i);
    }
}

/// Which new items are left over.
proof fn lemma_new_left(
    lists: Lists,
    partners: Partners,
    pairs: Seq<(int, int)>,
    n: MemoVal,
    x: Seq<Val>,
    y: Seq<Val>,
    j: int,
)
    requires
        lone_places(lists, n, x, y),
        partners.len() == lists.added.len(),
        lists_pairs(pairs, lists, partners, partners.len() as int),
    ensures
        newly(lists, partners, j, 0) == (unmatched_at(n, y, x, j) && !new_paired(pairs, j)),
{
    if newly(lists, partners, j, 0) {
        let l: int = choose|l: int|
            0 <= l < partners.len() && partners[l] is None && #[trigger] added_at(lists, l) == j;
        assert(unmatched_at(n, y, x, added_at(lists, l)));
        if new_paired(pairs, j) {
            let k: int = choose|k: int| 0 <= k < pairs.len() && (#[trigger] pairs[k]).1 == j;
            let s: int = choose|s: int|
                0 <= s < partners.len() && #[trigger] is_pair(lists, partners, s, pairs[k]);
            if s < l {
                assert(added_at(lists, s) != added_at(lists, l));
            } else if l < s {
                assert(added_at(lists, l) != added_at(lists, s));
            }
        }
    }
    if unmatched_at(n, y, x, j) && !new_paired(pairs, j) {
        let l: int = choose|l: int|
            0 <= l < lists.added.len() && #[trigger] added_at(lists, l) == j;
        if partners[l] is Some {
            assert(seated(partners, l));
            let k: int = choose|k: int|
                0 <= k < pairs.len() && is_pair(lists, partners, l, #[trigger] pairs[k]);
            assert(pairs[k].1 == j);
        }
        assert(added_at(lists, l) == j);
    }
}

/// Whether the items that two lists lack of one another are those that are unmatched,
/// each once.
pub open spec fn lone_places(lists: Lists, n: MemoVal, x: Seq<Val>, y: Seq<Val>) -> bool {
    &&& lists.old == x
    &&& lists.new == y
    &&& lists.removed.len() <= usize::MAX
    &&& forall|r: int|
        0 <= r < lists.removed.len() ==> unmatched_at(n, x, y, #[trigger] removed_at(lists, r))
    &&& forall|k: int|
        0 <= k < lists.added.len() ==> unmatched_at(n, y, x, #[trigger] added_at(lists, k))
    &&& forall|r: int, s: int|
        0 <= r < s < lists.removed.len() ==> #[trigger] removed_at(lists, r)
            != #[trigger] removed_at(lists, s)
    &&& forall|r: int, s: int|
        0 <= r < s < lists.added.len() ==> #[trigger] added_at(lists, r) != #[trigger] added_at(
            lists,
            s,
        )
    &&& forall|i: int| #[trigger]
        unmatched_at(n, x, y, i) ==> exists|r: int|
            0 <= r < lists.removed.len() && #[trigger] removed_at(lists, r) == i
    &&& forall|j: int| #[trigger]
        unmatched_at(n, y, x, j) ==> exists|k: int|
            0 <= k < lists.added.len() && #[trigger] added_at(lists, k) == j
}

/// What two lists lack of one another are the unmatched items.
pub proof fn lemma_lone(m: MemoVal, x: Seq<Val>, y: Seq<Val>)
    requires
        tables(m),
        x.len() <= usize::MAX,
        y.len() <= usize::MAX,
    ensures
        lists_of(m, x, y).0 == numbered(m, x, y),
        tables(numbered(m, x, y)),
        lone_places(lists_of(m, x, y).1, numbered(m, x, y), x, y),
        forall|i: int| 0 <= i < x.len() ==> settled(numbered(m, x, y), #[trigger] x[i]),
        forall|j: int| 0 <= j < y.len() ==> settled(numbered(m, x, y), #[trigger] y[j]),
{
    let (o, lists) = lists_of(m, x, y);
    let n: MemoVal = numbered(m, x, y);
    let l: MemoVal = keys_of(m, x, x.len() as int).0;
    lemma_hashed(m, x, x.len() as int);
    lemma_hashed(l, y, y.len() as int);
    lemma_keys(m, x, x.len() as int);
    lemma_keys(l, y, y.len() as int);
    assert(o == n);
    lemma_same(n);
    lemma_places(m, x, y, l, n);
    lemma_places(l, y, x, m, n);
    lemma_hashed_grows(m, x, x.len() as int);
    lemma_lacking_len(lists.first, lists.second, lists.first.keys.len() as int);
    assert forall|r: int| #[trigger] removed_at(lists, r) == place_at(
        lists.first,
        lists.removed,
        r,
    ) by {}
    assert forall|k: int| #[trigger] added_at(lists, k) == place_at(
        lists.second,
        lists.added,
        k,
    ) by {}
    assert forall|i: int| #[trigger] unmatched_at(n, x, y, i) implies exists|r: int|
        0 <= r < lists.removed.len() && #[trigger] removed_at(lists, r) == i by {
        let r: int = choose|r: int|
            0 <= r < lists.removed.len() && #[trigger] place_at(lists.first, lists.removed, r) == i;
        assert(removed_at(lists, r) == i);
    }
    assert forall|j: int| #[trigger] unmatched_at(n, y, x, j) implies exists|k: int|
        0 <= k < lists.added.len() && #[trigger] added_at(lists, k) == j by {
        let k: int = choose|k: int|
            0 <= k < lists.added.len() && #[trigger] place_at(lists.second, lists.added, k) == j;
        assert(added_at(lists, k) == j);
    }
    assert forall|i: int| 0 <= i < x.len() implies settled(n, #[trigger] x[i]) by {
        lemma_key_stays(m, x, i, n);
    }
    assert forall|j: int| 0 <= j < y.len() implies settled(n, #[trigger] y[j]) by {
        lemma_key_stays(l, y, j, n);
    }
}

/// Two lists or tuples compared without order: there are pairs of unmatched items, of
/// which each is in one pair at most, such that findings account for all items. Every
/// distinct item of the first list whose key the second lacks and that is in no pair is
/// removed, at its first position and with its value; every distinct item of the second
/// whose key the first lacks and that is in no pair is added likewise; below the old item
/// of each pair stands what comparing the two finds; and nothing else is found.
pub proof fn lemma_without_order(
    m: MemoVal,
    path: Seq<Seg>,
    a: Val,
    b: Val,
    x: Seq<Val>,
    y: Seq<Val>,
    depth: int,
    opts: Rules,
    f: Findings,
)
    requires
        tables(m),
        (a == Val::Array(x) && b == Val::Array(y)) || (a == Val::Tuple(x) && b == Val::Tuple(y)),
        opts.ignore_order,
        x.len() <= usize::MAX,
        y.len() <= usize::MAX,
        diff_of(m, path, a, b, depth, opts).1 == Outcome::Ok(f),
    ensures
        exists|pairs: Seq<(int, int)>| #[trigger]
            all_told(f, path, x, y, numbered(m, x, y), pairs, depth, opts),
{
    assert(diff_of(m, path, a, b, depth, opts) == array_of(m, path, x, y, depth, opts));
    assert(array_of(m, path, x, y, depth, opts) == unordered_of(m, path, x, y, depth, opts));
    let lists: Lists = lists_of(m, x, y).1;
    let n: MemoVal = numbered(m, x, y);
    lemma_lone(m, x, y);
    lemma_nearest_go_together(n, lists, depth, opts);
    let (after, partners): (MemoVal, Partners) = if pairable(
        lists.added.len(),
        lists.removed.len(),
        lists.first.keys.len(),
        lists.second.keys.len(),
    ) {
        pairs_of(n, lists, depth, opts)
    } else {
        (n, unpaired(lists.added.len()))
    };
    assert(pairs_found(after, path, lists, partners, depth, opts, 0, nothing()).1 == Outcome::Ok(
        f,
    ));
    let pairs: Seq<(int, int)> = lemma_partners_told(
        after,
        n,
        path,
        x,
        y,
        lists,
        partners,
        depth,
        opts,
        f,
    );
    assert(all_told(f, path, x, y, n, pairs, depth, opts));
}

/// No more keys are lacking than there are.
proof fn lemma_lacking_len(list: HashedVal, other: HashedVal, count: int)
    requires
        0 <= count,
    ensures
        lacking(list, other, count).len() <= count,
    decreases count,
{
    if count > 0 {
        lemma_lacking_len(list, other, count - 1);
    }
}

} // verus!
