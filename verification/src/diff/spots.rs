//! Findings place by place: what a report holds at one path.

use vstd::prelude::*;

#[allow(unused_imports)]
use super::model::diff_of;
#[allow(unused_imports)]
use super::options::Rules;
#[allow(unused_imports)]
use super::places::{beneath, within};
#[allow(unused_imports)]
use crate::ignore_order::memo::MemoVal;
#[allow(unused_imports)]
use crate::order::{lemma_ascending_identified, lemma_lookup, lemma_put, lemma_put_all, lookup};
#[allow(unused_imports)]
use crate::path::{Path, Seg};
#[allow(unused_imports)]
use crate::report::{
    findings_count, merged, nothing, orderly, with_attribute_added, with_attribute_removed,
    with_dict_added, with_dict_removed, with_item_added, with_item_removed, with_set_added,
    with_set_removed, with_type_change, with_value_change, Findings, TypeChange, ValueChange,
};
#[allow(unused_imports)]
use crate::value::Val;

verus! {

/// What a report holds at one path, category by category.
pub struct Spot {
    pub type_change: Option<TypeChange>,
    pub value_change: Option<ValueChange>,
    pub dict_added: Option<Val>,
    pub dict_removed: Option<Val>,
    pub item_added: Option<Val>,
    pub item_removed: Option<Val>,
    pub attribute_added: Option<Val>,
    pub attribute_removed: Option<Val>,
    pub set_added: Option<Val>,
    pub set_removed: Option<Val>,
}

/// A path at which nothing was found.
pub open spec fn bare() -> Spot {
    Spot {
        type_change: None,
        value_change: None,
        dict_added: None,
        dict_removed: None,
        item_added: None,
        item_removed: None,
        attribute_added: None,
        attribute_removed: None,
        set_added: None,
        set_removed: None,
    }
}

/// What a report holds at a path.
#[verifier::opaque]
pub open spec fn spot(f: Findings, path: Seq<Seg>) -> Spot {
    Spot {
        type_change: lookup(f.type_changes, path),
        value_change: lookup(f.values_changed, path),
        dict_added: lookup(f.dictionary_item_added, path),
        dict_removed: lookup(f.dictionary_item_removed, path),
        item_added: lookup(f.iterable_item_added, path),
        item_removed: lookup(f.iterable_item_removed, path),
        attribute_added: lookup(f.attribute_added, path),
        attribute_removed: lookup(f.attribute_removed, path),
        set_added: lookup(f.set_item_added, path),
        set_removed: lookup(f.set_item_removed, path),
    }
}

/// The later of two entries, or else the earlier.
pub open spec fn later<W>(first: Option<W>, second: Option<W>) -> Option<W> {
    if second is Some {
        second
    } else {
        first
    }
}

/// What stands at a path once a second report is put into a first.
pub open spec fn over(s: Spot, t: Spot) -> Spot {
    Spot {
        type_change: later(s.type_change, t.type_change),
        value_change: later(s.value_change, t.value_change),
        dict_added: later(s.dict_added, t.dict_added),
        dict_removed: later(s.dict_removed, t.dict_removed),
        item_added: later(s.item_added, t.item_added),
        item_removed: later(s.item_removed, t.item_removed),
        attribute_added: later(s.attribute_added, t.attribute_added),
        attribute_removed: later(s.attribute_removed, t.attribute_removed),
        set_added: later(s.set_added, t.set_added),
        set_removed: later(s.set_removed, t.set_removed),
    }
}

/// Nothing was found anywhere in an empty report.
pub proof fn lemma_spot_nothing()
    ensures
        forall|q: Seq<Seg>| #[trigger] spot(nothing(), q) == bare(),
        orderly(nothing()),
{
    assert forall|q: Seq<Seg>| #[trigger] spot(nothing(), q) == bare() by {
        reveal(spot);
    }
}

/// One more finding changes what stands at its path alone, and there in its category
/// alone.
pub proof fn lemma_spot_with(f: Findings, at: Seq<Seg>)
    requires
        orderly(f),
    ensures
        forall|v: TypeChange, q: Seq<Seg>| #[trigger]
            spot(with_type_change(f, at, v), q) == if q == at {
                Spot { type_change: Some(v), ..spot(f, q) }
            } else {
                spot(f, q)
            },
        forall|v: TypeChange| orderly(#[trigger] with_type_change(f, at, v)),
        forall|v: ValueChange, q: Seq<Seg>| #[trigger]
            spot(with_value_change(f, at, v), q) == if q == at {
                Spot { value_change: Some(v), ..spot(f, q) }
            } else {
                spot(f, q)
            },
        forall|v: ValueChange| orderly(#[trigger] with_value_change(f, at, v)),
        forall|v: Val, q: Seq<Seg>| #[trigger]
            spot(with_dict_added(f, at, v), q) == if q == at {
                Spot { dict_added: Some(v), ..spot(f, q) }
            } else {
                spot(f, q)
            },
        forall|v: Val| orderly(#[trigger] with_dict_added(f, at, v)),
        forall|v: Val, q: Seq<Seg>| #[trigger]
            spot(with_dict_removed(f, at, v), q) == if q == at {
                Spot { dict_removed: Some(v), ..spot(f, q) }
            } else {
                spot(f, q)
            },
        forall|v: Val| orderly(#[trigger] with_dict_removed(f, at, v)),
        forall|v: Val, q: Seq<Seg>| #[trigger]
            spot(with_item_added(f, at, v), q) == if q == at {
                Spot { item_added: Some(v), ..spot(f, q) }
            } else {
                spot(f, q)
            },
        forall|v: Val| orderly(#[trigger] with_item_added(f, at, v)),
        forall|v: Val, q: Seq<Seg>| #[trigger]
            spot(with_item_removed(f, at, v), q) == if q == at {
                Spot { item_removed: Some(v), ..spot(f, q) }
            } else {
                spot(f, q)
            },
        forall|v: Val| orderly(#[trigger] with_item_removed(f, at, v)),
        forall|v: Val, q: Seq<Seg>| #[trigger]
            spot(with_attribute_added(f, at, v), q) == if q == at {
                Spot { attribute_added: Some(v), ..spot(f, q) }
            } else {
                spot(f, q)
            },
        forall|v: Val| orderly(#[trigger] with_attribute_added(f, at, v)),
        forall|v: Val, q: Seq<Seg>| #[trigger]
            spot(with_attribute_removed(f, at, v), q) == if q == at {
                Spot { attribute_removed: Some(v), ..spot(f, q) }
            } else {
                spot(f, q)
            },
        forall|v: Val| orderly(#[trigger] with_attribute_removed(f, at, v)),
        forall|v: Val, q: Seq<Seg>| #[trigger]
            spot(with_set_added(f, at, v), q) == if q == at {
                Spot { set_added: Some(v), ..spot(f, q) }
            } else {
                spot(f, q)
            },
        forall|v: Val| orderly(#[trigger] with_set_added(f, at, v)),
        forall|v: Val, q: Seq<Seg>| #[trigger]
            spot(with_set_removed(f, at, v), q) == if q == at {
                Spot { set_removed: Some(v), ..spot(f, q) }
            } else {
                spot(f, q)
            },
        forall|v: Val| orderly(#[trigger] with_set_removed(f, at, v)),
{
    assert forall|v: TypeChange, q: Seq<Seg>| #[trigger] spot(with_type_change(f, at, v), q) == if q == at {
        Spot { type_change: Some(v), ..spot(f, q) }
    } else {
        spot(f, q)
    } by {
        reveal(spot);
        lemma_put::<Path, TypeChange>(f.type_changes, at, v);
    }
    assert forall|v: TypeChange| orderly(#[trigger] with_type_change(f, at, v)) by {
        lemma_put::<Path, TypeChange>(f.type_changes, at, v);
    }
    assert forall|v: ValueChange, q: Seq<Seg>| #[trigger] spot(with_value_change(f, at, v), q) == if q == at {
        Spot { value_change: Some(v), ..spot(f, q) }
    } else {
        spot(f, q)
    } by {
        reveal(spot);
        lemma_put::<Path, ValueChange>(f.values_changed, at, v);
    }
    assert forall|v: ValueChange| orderly(#[trigger] with_value_change(f, at, v)) by {
        lemma_put::<Path, ValueChange>(f.values_changed, at, v);
    }
    assert forall|v: Val, q: Seq<Seg>| #[trigger] spot(with_dict_added(f, at, v), q) == if q == at {
        Spot { dict_added: Some(v), ..spot(f, q) }
    } else {
        spot(f, q)
    } by {
        reveal(spot);
        lemma_put::<Path, Val>(f.dictionary_item_added, at, v);
    }
    assert forall|v: Val| orderly(#[trigger] with_dict_added(f, at, v)) by {
        lemma_put::<Path, Val>(f.dictionary_item_added, at, v);
    }
    assert forall|v: Val, q: Seq<Seg>| #[trigger] spot(with_dict_removed(f, at, v), q) == if q == at {
        Spot { dict_removed: Some(v), ..spot(f, q) }
    } else {
        spot(f, q)
    } by {
        reveal(spot);
        lemma_put::<Path, Val>(f.dictionary_item_removed, at, v);
    }
    assert forall|v: Val| orderly(#[trigger] with_dict_removed(f, at, v)) by {
        lemma_put::<Path, Val>(f.dictionary_item_removed, at, v);
    }
    assert forall|v: Val, q: Seq<Seg>| #[trigger] spot(with_item_added(f, at, v), q) == if q == at {
        Spot { item_added: Some(v), ..spot(f, q) }
    } else {
        spot(f, q)
    } by {
        reveal(spot);
        lemma_put::<Path, Val>(f.iterable_item_added, at, v);
    }
    assert forall|v: Val| orderly(#[trigger] with_item_added(f, at, v)) by {
        lemma_put::<Path, Val>(f.iterable_item_added, at, v);
    }
    assert forall|v: Val, q: Seq<Seg>| #[trigger] spot(with_item_removed(f, at, v), q) == if q == at {
        Spot { item_removed: Some(v), ..spot(f, q) }
    } else {
        spot(f, q)
    } by {
        reveal(spot);
        lemma_put::<Path, Val>(f.iterable_item_removed, at, v);
    }
    assert forall|v: Val| orderly(#[trigger] with_item_removed(f, at, v)) by {
        lemma_put::<Path, Val>(f.iterable_item_removed, at, v);
    }
    assert forall|v: Val, q: Seq<Seg>| #[trigger] spot(with_attribute_added(f, at, v), q) == if q == at {
        Spot { attribute_added: Some(v), ..spot(f, q) }
    } else {
        spot(f, q)
    } by {
        reveal(spot);
        lemma_put::<Path, Val>(f.attribute_added, at, v);
    }
    assert forall|v: Val| orderly(#[trigger] with_attribute_added(f, at, v)) by {
        lemma_put::<Path, Val>(f.attribute_added, at, v);
    }
    assert forall|v: Val, q: Seq<Seg>| #[trigger] spot(with_attribute_removed(f, at, v), q) == if q == at {
        Spot { attribute_removed: Some(v), ..spot(f, q) }
    } else {
        spot(f, q)
    } by {
        reveal(spot);
        lemma_put::<Path, Val>(f.attribute_removed, at, v);
    }
    assert forall|v: Val| orderly(#[trigger] with_attribute_removed(f, at, v)) by {
        lemma_put::<Path, Val>(f.attribute_removed, at, v);
    }
    assert forall|v: Val, q: Seq<Seg>| #[trigger] spot(with_set_added(f, at, v), q) == if q == at {
        Spot { set_added: Some(v), ..spot(f, q) }
    } else {
        spot(f, q)
    } by {
        reveal(spot);
        lemma_put::<Path, Val>(f.set_item_added, at, v);
    }
    assert forall|v: Val| orderly(#[trigger] with_set_added(f, at, v)) by {
        lemma_put::<Path, Val>(f.set_item_added, at, v);
    }
    assert forall|v: Val, q: Seq<Seg>| #[trigger] spot(with_set_removed(f, at, v), q) == if q == at {
        Spot { set_removed: Some(v), ..spot(f, q) }
    } else {
        spot(f, q)
    } by {
        reveal(spot);
        lemma_put::<Path, Val>(f.set_item_removed, at, v);
    }
    assert forall|v: Val| orderly(#[trigger] with_set_removed(f, at, v)) by {
        lemma_put::<Path, Val>(f.set_item_removed, at, v);
    }
}

/// A second report put into a first takes the place of what the first holds at the same
/// path in the same category, and of nothing else.
pub proof fn lemma_spot_merged(f: Findings, g: Findings)
    requires
        orderly(f),
    ensures
        orderly(merged(f, g)),
        forall|q: Seq<Seg>| #[trigger] spot(merged(f, g), q) == over(spot(f, q), spot(g, q)),
{
    lemma_put_all::<Path, TypeChange>(f.type_changes, g.type_changes);
    lemma_put_all::<Path, ValueChange>(f.values_changed, g.values_changed);
    lemma_put_all::<Path, Val>(f.dictionary_item_added, g.dictionary_item_added);
    lemma_put_all::<Path, Val>(f.dictionary_item_removed, g.dictionary_item_removed);
    lemma_put_all::<Path, Val>(f.iterable_item_added, g.iterable_item_added);
    lemma_put_all::<Path, Val>(f.iterable_item_removed, g.iterable_item_removed);
    lemma_put_all::<Path, Val>(f.attribute_added, g.attribute_added);
    lemma_put_all::<Path, Val>(f.attribute_removed, g.attribute_removed);
    lemma_put_all::<Path, Val>(f.set_item_added, g.set_item_added);
    lemma_put_all::<Path, Val>(f.set_item_removed, g.set_item_removed);
    assert forall|q: Seq<Seg>| #[trigger] spot(merged(f, g), q) == over(
        spot(f, q),
        spot(g, q),
    ) by {
        reveal(spot);
    }
}

/// A report is determined by what it holds at each path.
pub proof fn lemma_spots_identify(f: Findings, g: Findings)
    requires
        orderly(f),
        orderly(g),
        forall|q: Seq<Seg>| #[trigger] spot(f, q) == spot(g, q),
    ensures
        f == g,
{
    assert forall|q: Seq<Seg>| #[trigger] lookup(f.type_changes, q) == lookup(g.type_changes, q) by {
        reveal(spot);
        assert(spot(f, q) == spot(g, q));
    }
    lemma_ascending_identified::<Path, TypeChange>(f.type_changes, g.type_changes);
    assert forall|q: Seq<Seg>| #[trigger] lookup(f.values_changed, q) == lookup(g.values_changed, q) by {
        reveal(spot);
        assert(spot(f, q) == spot(g, q));
    }
    lemma_ascending_identified::<Path, ValueChange>(f.values_changed, g.values_changed);
    assert forall|q: Seq<Seg>| #[trigger] lookup(f.dictionary_item_added, q) == lookup(g.dictionary_item_added, q) by {
        reveal(spot);
        assert(spot(f, q) == spot(g, q));
    }
    lemma_ascending_identified::<Path, Val>(f.dictionary_item_added, g.dictionary_item_added);
    assert forall|q: Seq<Seg>| #[trigger] lookup(f.dictionary_item_removed, q) == lookup(g.dictionary_item_removed, q) by {
        reveal(spot);
        assert(spot(f, q) == spot(g, q));
    }
    lemma_ascending_identified::<Path, Val>(f.dictionary_item_removed, g.dictionary_item_removed);
    assert forall|q: Seq<Seg>| #[trigger] lookup(f.iterable_item_added, q) == lookup(g.iterable_item_added, q) by {
        reveal(spot);
        assert(spot(f, q) == spot(g, q));
    }
    lemma_ascending_identified::<Path, Val>(f.iterable_item_added, g.iterable_item_added);
    assert forall|q: Seq<Seg>| #[trigger] lookup(f.iterable_item_removed, q) == lookup(g.iterable_item_removed, q) by {
        reveal(spot);
        assert(spot(f, q) == spot(g, q));
    }
    lemma_ascending_identified::<Path, Val>(f.iterable_item_removed, g.iterable_item_removed);
    assert forall|q: Seq<Seg>| #[trigger] lookup(f.attribute_added, q) == lookup(g.attribute_added, q) by {
        reveal(spot);
        assert(spot(f, q) == spot(g, q));
    }
    lemma_ascending_identified::<Path, Val>(f.attribute_added, g.attribute_added);
    assert forall|q: Seq<Seg>| #[trigger] lookup(f.attribute_removed, q) == lookup(g.attribute_removed, q) by {
        reveal(spot);
        assert(spot(f, q) == spot(g, q));
    }
    lemma_ascending_identified::<Path, Val>(f.attribute_removed, g.attribute_removed);
    assert forall|q: Seq<Seg>| #[trigger] lookup(f.set_item_added, q) == lookup(g.set_item_added, q) by {
        reveal(spot);
        assert(spot(f, q) == spot(g, q));
    }
    lemma_ascending_identified::<Path, Val>(f.set_item_added, g.set_item_added);
    assert forall|q: Seq<Seg>| #[trigger] lookup(f.set_item_removed, q) == lookup(g.set_item_removed, q) by {
        reveal(spot);
        assert(spot(f, q) == spot(g, q));
    }
    lemma_ascending_identified::<Path, Val>(f.set_item_removed, g.set_item_removed);
}

/// Whether a path leads on through a step behind another path, or ends with it.
pub open spec fn leads(path: Seq<Seg>, step: Seg, q: Seq<Seg>) -> bool {
    path.push(step).is_prefix_of(q)
}

/// A path leads on through one step only.
pub proof fn lemma_leads(path: Seq<Seg>, step: Seg, q: Seq<Seg>)
    ensures
        leads(path, step, q) <==> path.is_prefix_of(q) && path.len() < q.len() && q[path.len() as int]
            == step,
        leads(path, step, path.push(step)),
{
    let n: int = path.len() as int;
    if leads(path, step, q) {
        assert(q.subrange(0, n + 1)[n] == path.push(step)[n]);
        assert(path =~= q.subrange(0, n)) by {
            assert forall|k: int| 0 <= k < n implies path[k] == q[k] by {
                assert(q.subrange(0, n + 1)[k] == path.push(step)[k]);
            }
        }
    }
    if path.is_prefix_of(q) && path.len() < q.len() && q[n] == step {
        assert(path.push(step) =~= q.subrange(0, n + 1)) by {
            assert forall|k: int| 0 <= k < n implies path[k] == q[k] by {
                assert(q.subrange(0, n)[k] == path[k]);
            }
        }
    }
    assert(path.push(step) =~= path.push(step).subrange(0, n + 1));
}

proof fn lemma_beneath_lookup<W>(
    found: Seq<(Seq<Seg>, W)>,
    path: Seq<Seg>,
    strictly: bool,
    q: Seq<Seg>,
)
    requires
        beneath(found, path, strictly),
        !path.is_prefix_of(q) || (strictly && path == q),
    ensures
        lookup(found, q) is None,
{
    lemma_lookup(found, q);
    assert forall|i: int| 0 <= i < found.len() implies (#[trigger] found[i]).0 != q by {
        assert(path.is_prefix_of(found[i].0));
    }
}

/// Findings at or below a path: nothing stands elsewhere, and at the path itself
/// nothing but changes.
pub proof fn lemma_spot_within(f: Findings, path: Seq<Seg>, q: Seq<Seg>)
    requires
        within(f, path),
    ensures
        !path.is_prefix_of(q) ==> spot(f, q) == bare(),
        spot(f, path) == (Spot {
            type_change: spot(f, path).type_change,
            value_change: spot(f, path).value_change,
            ..bare()
        }),
{
    reveal(spot);
    if !path.is_prefix_of(q) {
        lemma_beneath_lookup(f.type_changes, path, false, q);
        lemma_beneath_lookup(f.values_changed, path, false, q);
        lemma_beneath_lookup(f.dictionary_item_added, path, true, q);
        lemma_beneath_lookup(f.dictionary_item_removed, path, true, q);
        lemma_beneath_lookup(f.iterable_item_added, path, true, q);
        lemma_beneath_lookup(f.iterable_item_removed, path, true, q);
        lemma_beneath_lookup(f.attribute_added, path, true, q);
        lemma_beneath_lookup(f.attribute_removed, path, true, q);
        lemma_beneath_lookup(f.set_item_added, path, true, q);
        lemma_beneath_lookup(f.set_item_removed, path, true, q);
    }
    lemma_beneath_lookup(f.dictionary_item_added, path, true, path);
    lemma_beneath_lookup(f.dictionary_item_removed, path, true, path);
    lemma_beneath_lookup(f.iterable_item_added, path, true, path);
    lemma_beneath_lookup(f.iterable_item_removed, path, true, path);
    lemma_beneath_lookup(f.attribute_added, path, true, path);
    lemma_beneath_lookup(f.attribute_removed, path, true, path);
    lemma_beneath_lookup(f.set_item_added, path, true, path);
    lemma_beneath_lookup(f.set_item_removed, path, true, path);
}

/// Whether one report holds at a path and below it what another does.
pub open spec fn same_below(f: Findings, g: Findings, at: Seq<Seg>) -> bool {
    forall|q: Seq<Seg>| at.is_prefix_of(q) ==> #[trigger] spot(f, q) == spot(g, q)
}

/// Whether a report holds at a path and below it exactly what comparing two values
/// there finds.
pub open spec fn shows(f: Findings, at: Seq<Seg>, a: Val, b: Val, depth: int, opts: Rules) -> bool {
    exists|n: MemoVal|
        (#[trigger] diff_of(n, at, a, b, depth, opts)).1 matches Ok(g) && same_below(f, g, at)
}

/// Whether a report holds nothing at a path and below it but one entry at the path.
pub open spec fn sole(f: Findings, at: Seq<Seg>, only: Spot) -> bool {
    forall|q: Seq<Seg>|
        at.is_prefix_of(q) ==> #[trigger] spot(f, q) == if q == at {
            only
        } else {
            bare()
        }
}

/// The entry of a removed item.
pub open spec fn gone(value: Val) -> Spot {
    Spot { item_removed: Some(value), ..bare() }
}

/// The entry of an added item.
pub open spec fn come(value: Val) -> Spot {
    Spot { item_added: Some(value), ..bare() }
}

/// A finding somewhere is one that counts.
pub proof fn lemma_spot_counts(f: Findings, q: Seq<Seg>)
    requires
        spot(f, q) != bare(),
    ensures
        findings_count(f) > 0,
        f != nothing(),
{
    reveal(spot);
    if findings_count(f) == 0 {
        assert(lookup(f.type_changes, q) is None);
        assert(lookup(f.values_changed, q) is None);
        assert(lookup(f.dictionary_item_added, q) is None);
        assert(lookup(f.dictionary_item_removed, q) is None);
        assert(lookup(f.iterable_item_added, q) is None);
        assert(lookup(f.iterable_item_removed, q) is None);
        assert(lookup(f.attribute_added, q) is None);
        assert(lookup(f.attribute_removed, q) is None);
        assert(lookup(f.set_item_added, q) is None);
        assert(lookup(f.set_item_removed, q) is None);
    }
}

} // verus!
