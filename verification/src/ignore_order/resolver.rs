//! Values that stand for tokens.

use vstd::prelude::*;

use super::members::push_children;
use crate::value::{ObjectKind, Value};
use std::sync::Arc;

#[allow(unused_imports)]
use super::members::borrowed;
#[allow(unused_imports)]
use super::memo::resolution;
#[allow(unused_imports)]
use crate::diff::options::resolvable;
#[allow(unused_imports)]
use crate::value::{ObjectVal, Val};
#[allow(unused_imports)]
use crate::walk::{children, lemma_children, lemma_total_add, lemma_total_push, total};

verus! {

/// A value that is compared in place of a token.
#[derive(Debug, Clone)]
pub enum Resolution<'r> {
    /// A value that was converted for the token.
    Shared(Arc<Value>),
    /// A value that is held elsewhere, such as the object that a cycle token
    /// points back at.
    Borrowed(&'r Value),
}

impl<'r> View for Resolution<'r> {
    type V = Val;

    open spec fn view(&self) -> Val {
        match self {
            Resolution::Shared(value) => value@,
            Resolution::Borrowed(value) => value@,
        }
    }
}

impl<'r> Resolution<'r> {
    /// The value.
    pub fn value(&self) -> (value: &Value)
        ensures
            value@ == self@,
    {
        match self {
            Resolution::Shared(value) => &**value,
            Resolution::Borrowed(value) => value,
        }
    }
}

// ---------------------------------------------------------------------
// Chains of tokens
// ---------------------------------------------------------------------

/// Whether a token is compared as the value that stands for it; on the first side of
/// a comparison cycle tokens are passed over.
pub open spec fn counts(first: bool, kind: ObjectKind) -> bool {
    kind == ObjectKind::Opaque || (kind == ObjectKind::Cycle && !first)
}

/// How many tokens a value on one side of a comparison opens one behind the other
/// without a step down, `fuel` at most: a token is compared as the value that stands
/// for it, and without order the items of a list are compared at the list's own
/// depth.
pub open spec fn opens(
    resolutions: Seq<(Seq<char>, Val)>,
    first: bool,
    unordered: bool,
    fuel: nat,
    value: Val,
) -> nat
    decreases fuel, value,
{
    match value {
        Val::Object(object) => if !counts(first, object.kind) || fuel == 0 {
            0
        } else {
            match resolution(resolutions, object.identity) {
                None => 0,
                Some(r) => 1 + opens(resolutions, first, unordered, (fuel - 1) as nat, r),
            }
        },
        Val::Array(items) => if unordered {
            opens_all(resolutions, first, unordered, fuel, items)
        } else {
            0
        },
        Val::Tuple(items) => if unordered {
            opens_all(resolutions, first, unordered, fuel, items)
        } else {
            0
        },
        _ => 0,
    }
}

/// The most that one of several values opens.
pub open spec fn opens_all(
    resolutions: Seq<(Seq<char>, Val)>,
    first: bool,
    unordered: bool,
    fuel: nat,
    items: Seq<Val>,
) -> nat
    decreases fuel, items,
{
    if items.len() == 0 {
        0
    } else {
        let before: nat = opens_all(resolutions, first, unordered, fuel, items.drop_last());
        let last: nat = opens(resolutions, first, unordered, fuel, items.last());
        if before > last {
            before
        } else {
            last
        }
    }
}

/// Whether the chains of tokens from a value are no longer for one token more.
pub open spec fn steady(
    resolutions: Seq<(Seq<char>, Val)>,
    first: bool,
    unordered: bool,
    fuel: nat,
    value: Val,
) -> bool {
    opens(resolutions, first, unordered, fuel, value) == opens(
        resolutions,
        first,
        unordered,
        fuel + 1,
        value,
    )
}

/// Whether the chains of tokens from every value that stands for one are no longer
/// for one token more.
pub open spec fn all_steady(
    resolutions: Seq<(Seq<char>, Val)>,
    first: bool,
    unordered: bool,
    fuel: nat,
) -> bool {
    forall|i: int|
        0 <= i < resolutions.len() ==> steady(
            resolutions,
            first,
            unordered,
            fuel,
            (#[trigger] resolutions[i]).1,
        )
}

/// Whether the chains of tokens from a value end: one that comes upon no token twice
/// has no more tokens than there are values for them.
pub open spec fn chains_end(
    resolutions: Seq<(Seq<char>, Val)>,
    first: bool,
    unordered: bool,
    value: Val,
) -> bool {
    opens(resolutions, first, unordered, resolutions.len() + 1, value) <= resolutions.len()
}

/// Whether the chains of tokens from the value for the tokens of an identity end, the
/// first token counted.
pub open spec fn token_ends(
    resolutions: Seq<(Seq<char>, Val)>,
    first: bool,
    unordered: bool,
    identity: Seq<char>,
) -> bool {
    resolution(resolutions, identity) matches Some(r) ==> opens(
        resolutions,
        first,
        unordered,
        resolutions.len(),
        r,
    ) < resolutions.len()
}

/// The value that is compared in place of the tokens of an identity, if the tokens
/// that stand for one another come to an end.
pub open spec fn standing(
    resolutions: Seq<(Seq<char>, Val)>,
    first: bool,
    identity: Seq<char>,
) -> Option<Val> {
    if token_ends(resolutions, first, false, identity) {
        resolution(resolutions, identity)
    } else {
        None
    }
}

/// Whether a value holds a token of an identity that is compared as what stands for
/// it.
pub open spec fn holds(first: bool, value: Val, identity: Seq<char>) -> bool
    decreases value,
{
    match value {
        Val::Array(items) => exists|i: int|
            0 <= i < items.len() && holds(first, #[trigger] items[i], identity),
        Val::Tuple(items) => exists|i: int|
            0 <= i < items.len() && holds(first, #[trigger] items[i], identity),
        Val::Object(object) => {
            ||| object.identity == identity && counts(first, object.kind)
            ||| exists|i: int|
                #![trigger object.entries[i]]
                0 <= i < object.entries.len() && holds(first, object.entries[i].1, identity)
        },
        _ => false,
    }
}

/// Whether one of several values holds a token of an identity.
pub open spec fn one_holds(first: bool, values: Seq<Val>, identity: Seq<char>) -> bool {
    exists|i: int| 0 <= i < values.len() && holds(first, #[trigger] values[i], identity)
}

/// Whether a comparison of a value may come upon a token of an identity: the value
/// holds one, or one of the values that stand for the tokens it comes upon does,
/// `fuel` of them one behind the other at most.
pub open spec fn reached(
    resolutions: Seq<(Seq<char>, Val)>,
    first: bool,
    fuel: nat,
    value: Val,
    identity: Seq<char>,
) -> bool
    decreases fuel,
{
    holds(first, value, identity) || (fuel > 0 && exists|j: int|
        #![trigger resolutions[j]]
        0 <= j < resolutions.len() && reached(
            resolutions,
            first,
            (fuel - 1) as nat,
            value,
            resolutions[j].0,
        ) && (resolution(resolutions, resolutions[j].0) matches Some(r) && holds(
            first,
            r,
            identity,
        )))
}

/// Whether the chains of all tokens end that a comparison of a value may come upon.
pub open spec fn settled(
    resolutions: Seq<(Seq<char>, Val)>,
    first: bool,
    unordered: bool,
    value: Val,
) -> bool {
    forall|fuel: nat, j: int|
        0 <= j < resolutions.len() && #[trigger] reached(
            resolutions,
            first,
            fuel,
            value,
            resolutions[j].0,
        ) ==> token_ends(resolutions, first, unordered, resolutions[j].0)
}

/// A value that stands for tokens is one of the table.
pub proof fn lemma_resolution(resolutions: Seq<(Seq<char>, Val)>, identity: Seq<char>)
    ensures
        resolution(resolutions, identity) matches Some(r) ==> exists|i: int|
            0 <= i < resolutions.len() && #[trigger] resolutions[i] == (identity, r),
    decreases resolutions.len(),
{
    if resolutions.len() > 0 {
        if resolutions[0].0 == identity {
            assert(resolutions[0] == (identity, resolutions[0].1));
        } else {
            let rest: Seq<(Seq<char>, Val)> = resolutions.drop_first();
            lemma_resolution(rest, identity);
            if let Some(r) = resolution(rest, identity) {
                let i: int = choose|i: int|
                    0 <= i < rest.len() && #[trigger] rest[i] == (identity, r);
                assert(resolutions[i + 1] == (identity, r));
            }
        }
    }
}

/// No chain is longer than it may be.
pub proof fn lemma_opens_bound(
    resolutions: Seq<(Seq<char>, Val)>,
    first: bool,
    unordered: bool,
    fuel: nat,
    value: Val,
)
    ensures
        opens(resolutions, first, unordered, fuel, value) <= fuel,
    decreases fuel, value,
{
    match value {
        Val::Object(object) => if counts(first, object.kind) && fuel > 0 {
            if let Some(r) = resolution(resolutions, object.identity) {
                lemma_opens_bound(resolutions, first, unordered, (fuel - 1) as nat, r);
            }
        },
        Val::Array(items) => lemma_opens_all_bound(resolutions, first, unordered, fuel, items),
        Val::Tuple(items) => lemma_opens_all_bound(resolutions, first, unordered, fuel, items),
        _ => {},
    }
}

/// No chain from several values is longer than it may be.
pub proof fn lemma_opens_all_bound(
    resolutions: Seq<(Seq<char>, Val)>,
    first: bool,
    unordered: bool,
    fuel: nat,
    items: Seq<Val>,
)
    ensures
        opens_all(resolutions, first, unordered, fuel, items) <= fuel,
    decreases fuel, items,
{
    if items.len() > 0 {
        lemma_opens_all_bound(resolutions, first, unordered, fuel, items.drop_last());
        lemma_opens_bound(resolutions, first, unordered, fuel, items.last());
    }
}

/// No item opens more than the list.
pub proof fn lemma_opens_item(
    resolutions: Seq<(Seq<char>, Val)>,
    first: bool,
    unordered: bool,
    fuel: nat,
    items: Seq<Val>,
    i: int,
)
    requires
        0 <= i < items.len(),
    ensures
        opens(resolutions, first, unordered, fuel, items[i]) <= opens_all(
            resolutions,
            first,
            unordered,
            fuel,
            items,
        ),
    decreases items.len(),
{
    if i < items.len() - 1 {
        lemma_opens_item(resolutions, first, unordered, fuel, items.drop_last(), i);
    }
}

/// Where nothing stands for tokens, none is opened.
pub proof fn lemma_nothing_opened(first: bool, unordered: bool, fuel: nat, value: Val)
    ensures
        opens(seq![], first, unordered, fuel, value) == 0,
    decreases value,
{
    match value {
        Val::Array(items) => lemma_nothing_opened_in(first, unordered, fuel, items),
        Val::Tuple(items) => lemma_nothing_opened_in(first, unordered, fuel, items),
        _ => {},
    }
}

proof fn lemma_nothing_opened_in(first: bool, unordered: bool, fuel: nat, items: Seq<Val>)
    ensures
        opens_all(seq![], first, unordered, fuel, items) == 0,
    decreases items,
{
    if items.len() > 0 {
        lemma_nothing_opened_in(first, unordered, fuel, items.drop_last());
        lemma_nothing_opened(first, unordered, fuel, items.last());
    }
}

/// A value that opens fewer tokens than it may opens no more with one token more.
proof fn lemma_opens_ended(
    resolutions: Seq<(Seq<char>, Val)>,
    first: bool,
    unordered: bool,
    fuel: nat,
    value: Val,
)
    requires
        opens(resolutions, first, unordered, fuel + 1, value) <= fuel,
    ensures
        opens(resolutions, first, unordered, fuel, value) == opens(
            resolutions,
            first,
            unordered,
            fuel + 1,
            value,
        ),
    decreases fuel, value,
{
    match value {
        Val::Object(object) => if counts(first, object.kind) && fuel > 0 {
            if let Some(r) = resolution(resolutions, object.identity) {
                lemma_opens_ended(resolutions, first, unordered, (fuel - 1) as nat, r);
            }
        },
        Val::Array(items) => if unordered {
            lemma_opens_all_ended(resolutions, first, unordered, fuel, items);
        },
        Val::Tuple(items) => if unordered {
            lemma_opens_all_ended(resolutions, first, unordered, fuel, items);
        },
        _ => {},
    }
}

proof fn lemma_opens_all_ended(
    resolutions: Seq<(Seq<char>, Val)>,
    first: bool,
    unordered: bool,
    fuel: nat,
    items: Seq<Val>,
)
    requires
        opens_all(resolutions, first, unordered, fuel + 1, items) <= fuel,
    ensures
        opens_all(resolutions, first, unordered, fuel, items) == opens_all(
            resolutions,
            first,
            unordered,
            fuel + 1,
            items,
        ),
    decreases fuel, items,
{
    if items.len() > 0 {
        lemma_opens_all_ended(resolutions, first, unordered, fuel, items.drop_last());
        lemma_opens_ended(resolutions, first, unordered, fuel, items.last());
    }
}

/// A value that opens fewer tokens than it may opens as many for one token more.
proof fn lemma_opens_stays(
    resolutions: Seq<(Seq<char>, Val)>,
    first: bool,
    unordered: bool,
    fuel: nat,
    value: Val,
)
    requires
        opens(resolutions, first, unordered, fuel, value) < fuel,
    ensures
        opens(resolutions, first, unordered, fuel, value) == opens(
            resolutions,
            first,
            unordered,
            fuel + 1,
            value,
        ),
    decreases fuel, value,
{
    match value {
        Val::Object(object) => if counts(first, object.kind) {
            if let Some(r) = resolution(resolutions, object.identity) {
                lemma_opens_stays(resolutions, first, unordered, (fuel - 1) as nat, r);
            }
        },
        Val::Array(items) => if unordered {
            lemma_opens_all_stays(resolutions, first, unordered, fuel, items);
        },
        Val::Tuple(items) => if unordered {
            lemma_opens_all_stays(resolutions, first, unordered, fuel, items);
        },
        _ => {},
    }
}

proof fn lemma_opens_all_stays(
    resolutions: Seq<(Seq<char>, Val)>,
    first: bool,
    unordered: bool,
    fuel: nat,
    items: Seq<Val>,
)
    requires
        opens_all(resolutions, first, unordered, fuel, items) < fuel,
    ensures
        opens_all(resolutions, first, unordered, fuel, items) == opens_all(
            resolutions,
            first,
            unordered,
            fuel + 1,
            items,
        ),
    decreases fuel, items,
{
    if items.len() > 0 {
        lemma_opens_all_stays(resolutions, first, unordered, fuel, items.drop_last());
        lemma_opens_stays(resolutions, first, unordered, fuel, items.last());
    }
}

/// The chains of a token end where those of the value for it do, which is nearer to
/// their end.
pub proof fn lemma_nearer(
    resolutions: Seq<(Seq<char>, Val)>,
    first: bool,
    unordered: bool,
    object: ObjectVal,
)
    requires
        counts(first, object.kind),
    ensures
        chains_end(resolutions, first, unordered, Val::Object(object)) == token_ends(
            resolutions,
            first,
            unordered,
            object.identity,
        ),
        token_ends(resolutions, first, unordered, object.identity) && resolution(
            resolutions,
            object.identity,
        ) is Some ==> {
            let r = resolution(resolutions, object.identity)->Some_0;
            &&& chains_end(resolutions, first, unordered, r)
            &&& opens(resolutions, first, unordered, resolutions.len(), r) < opens(
                resolutions,
                first,
                unordered,
                resolutions.len(),
                Val::Object(object),
            )
        },
{
    if let Some(r) = resolution(resolutions, object.identity) {
        lemma_resolution(resolutions, object.identity);
        let fuel: nat = (resolutions.len() - 1) as nat;
        assert(fuel + 1 == resolutions.len());
        if token_ends(resolutions, first, unordered, object.identity) {
            lemma_opens_ended(resolutions, first, unordered, fuel, r);
            lemma_opens_stays(resolutions, first, unordered, resolutions.len(), r);
        }
    }
}

/// Chains that are no longer for one token more are so for the next, too.
proof fn lemma_steady_value(
    resolutions: Seq<(Seq<char>, Val)>,
    first: bool,
    unordered: bool,
    fuel: nat,
    value: Val,
)
    requires
        all_steady(resolutions, first, unordered, fuel),
    ensures
        steady(resolutions, first, unordered, fuel + 1, value),
    decreases value,
{
    match value {
        Val::Object(object) => {
            lemma_resolution(resolutions, object.identity);
            if let Some(r) = resolution(resolutions, object.identity) {
                let i: int = choose|i: int|
                    0 <= i < resolutions.len() && #[trigger] resolutions[i] == (
                        object.identity,
                        r,
                    );
                assert(steady(resolutions, first, unordered, fuel, resolutions[i].1));
            }
        },
        Val::Array(items) => lemma_steady_items(resolutions, first, unordered, fuel, items),
        Val::Tuple(items) => lemma_steady_items(resolutions, first, unordered, fuel, items),
        _ => {},
    }
}

proof fn lemma_steady_items(
    resolutions: Seq<(Seq<char>, Val)>,
    first: bool,
    unordered: bool,
    fuel: nat,
    items: Seq<Val>,
)
    requires
        all_steady(resolutions, first, unordered, fuel),
    ensures
        opens_all(resolutions, first, unordered, fuel + 1, items) == opens_all(
            resolutions,
            first,
            unordered,
            fuel + 2,
            items,
        ),
    decreases items,
{
    if items.len() > 0 {
        lemma_steady_items(resolutions, first, unordered, fuel, items.drop_last());
        lemma_steady_value(resolutions, first, unordered, fuel, items.last());
    }
}

/// Chains that are no longer for one token more have ended.
proof fn lemma_steady_from(
    resolutions: Seq<(Seq<char>, Val)>,
    first: bool,
    unordered: bool,
    fuel: nat,
    more: nat,
)
    requires
        all_steady(resolutions, first, unordered, fuel),
        fuel <= more,
    ensures
        all_steady(resolutions, first, unordered, more),
    decreases more - fuel,
{
    if fuel < more {
        assert forall|i: int| 0 <= i < resolutions.len() implies steady(
            resolutions,
            first,
            unordered,
            fuel + 1,
            (#[trigger] resolutions[i]).1,
        ) by {
            lemma_steady_value(resolutions, first, unordered, fuel, resolutions[i].1);
        }
        lemma_steady_from(resolutions, first, unordered, fuel + 1, more);
    }
}

/// Chains that are no longer for one token more are as long for any more.
proof fn lemma_steady_levels(
    resolutions: Seq<(Seq<char>, Val)>,
    first: bool,
    unordered: bool,
    fuel: nat,
    more: nat,
)
    requires
        all_steady(resolutions, first, unordered, fuel),
        fuel <= more,
    ensures
        forall|i: int|
            0 <= i < resolutions.len() ==> opens(
                resolutions,
                first,
                unordered,
                more,
                (#[trigger] resolutions[i]).1,
            ) == opens(resolutions, first, unordered, fuel, resolutions[i].1),
    decreases more - fuel,
{
    if fuel < more {
        let less: nat = (more - 1) as nat;
        lemma_steady_levels(resolutions, first, unordered, fuel, less);
        lemma_steady_from(resolutions, first, unordered, fuel, less);
        assert forall|i: int| 0 <= i < resolutions.len() implies opens(
            resolutions,
            first,
            unordered,
            more,
            (#[trigger] resolutions[i]).1,
        ) == opens(resolutions, first, unordered, fuel, resolutions[i].1) by {
            assert(steady(resolutions, first, unordered, less, resolutions[i].1));
            assert(less + 1 == more);
        }
    }
}

/// One of two lists of values opens the most.
proof fn lemma_opens_all_add(
    resolutions: Seq<(Seq<char>, Val)>,
    first: bool,
    unordered: bool,
    fuel: nat,
    x: Seq<Val>,
    y: Seq<Val>,
)
    ensures
        opens_all(resolutions, first, unordered, fuel, x + y) == most(
            opens_all(resolutions, first, unordered, fuel, x),
            opens_all(resolutions, first, unordered, fuel, y),
        ),
    decreases y.len(),
{
    if y.len() == 0 {
        assert(x + y =~= x);
    } else {
        lemma_opens_all_add(resolutions, first, unordered, fuel, x, y.drop_last());
        assert((x + y).drop_last() =~= x + y.drop_last());
        assert((x + y).last() == y.last());
    }
}

/// The larger of two numbers.
pub open spec fn most(x: nat, y: nat) -> nat {
    if x > y {
        x
    } else {
        y
    }
}

/// One of two lists of values holds a token.
proof fn lemma_one_holds_add(first: bool, x: Seq<Val>, y: Seq<Val>, identity: Seq<char>)
    ensures
        one_holds(first, x + y, identity) == (one_holds(first, x, identity) || one_holds(
            first,
            y,
            identity,
        )),
{
    if one_holds(first, x, identity) {
        let i: int = choose|i: int| 0 <= i < x.len() && holds(first, #[trigger] x[i], identity);
        assert(holds(first, (x + y)[i], identity));
    }
    if one_holds(first, y, identity) {
        let i: int = choose|i: int| 0 <= i < y.len() && holds(first, #[trigger] y[i], identity);
        assert(holds(first, (x + y)[x.len() + i], identity));
    }
    if one_holds(first, x + y, identity) {
        let i: int = choose|i: int|
            0 <= i < (x + y).len() && holds(first, #[trigger] (x + y)[i], identity);
        if i < x.len() {
            assert(holds(first, x[i], identity));
        } else {
            assert(holds(first, y[i - x.len()], identity));
        }
    }
}

/// Whether a value is a token of an identity that is compared as what stands for it.
pub open spec fn met(first: bool, value: Val, identity: Seq<char>) -> bool {
    value matches Val::Object(object) && object.identity == identity && counts(
        first,
        object.kind,
    )
}

/// A value holds a token where it is one, or where one of the values in it does; the
/// members of sets are never compared as what stands for them.
proof fn lemma_holds(first: bool, value: Val, identity: Seq<char>)
    ensures
        holds(first, value, identity) == (met(first, value, identity) || (!(value is MutableSet
            || value is FrozenSet) && one_holds(first, children(value), identity))),
{
    if let Val::Object(object) = value {
        let held: Seq<Val> = children(value);
        if one_holds(first, held, identity) {
            let i: int = choose|i: int|
                0 <= i < held.len() && holds(first, #[trigger] held[i], identity);
            assert(holds(first, object.entries[i].1, identity));
        }
        if exists|i: int|
            #![trigger object.entries[i]]
            0 <= i < object.entries.len() && holds(first, object.entries[i].1, identity) {
            let i: int = choose|i: int|
                #![trigger object.entries[i]]
                0 <= i < object.entries.len() && holds(first, object.entries[i].1, identity);
            assert(held[i] == object.entries[i].1);
        }
    }
}

/// Whether marks say which identities of a table a comparison comes upon.
pub open spec fn marked(
    resolutions: Seq<(Seq<char>, Val)>,
    first: bool,
    fuel: nat,
    value: Val,
    marks: Seq<bool>,
) -> bool {
    &&& marks.len() == resolutions.len()
    &&& forall|j: int|
        0 <= j < marks.len() ==> (#[trigger] marks[j]) == reached(
            resolutions,
            first,
            fuel,
            value,
            resolutions[j].0,
        )
}

/// What is come upon is so with one token more.
proof fn lemma_reached_grows(
    resolutions: Seq<(Seq<char>, Val)>,
    first: bool,
    fuel: nat,
    value: Val,
    identity: Seq<char>,
)
    ensures
        reached(resolutions, first, fuel, value, identity) ==> reached(
            resolutions,
            first,
            fuel + 1,
            value,
            identity,
        ),
    decreases fuel,
{
    if reached(resolutions, first, fuel, value, identity) && !holds(first, value, identity) {
        let j: int = choose|j: int|
            #![trigger resolutions[j]]
            0 <= j < resolutions.len() && reached(
                resolutions,
                first,
                (fuel - 1) as nat,
                value,
                resolutions[j].0,
            ) && (resolution(resolutions, resolutions[j].0) matches Some(r) && holds(
                first,
                r,
                identity,
            ));
        lemma_reached_grows(resolutions, first, (fuel - 1) as nat, value, resolutions[j].0);
        assert((fuel + 1 - 1) as nat == fuel);
        assert(reached(resolutions, first, fuel, value, resolutions[j].0));
    }
}

/// What is come upon is so with more tokens.
proof fn lemma_reached_stays(
    resolutions: Seq<(Seq<char>, Val)>,
    first: bool,
    fuel: nat,
    more: nat,
    value: Val,
    identity: Seq<char>,
)
    requires
        fuel <= more,
        reached(resolutions, first, fuel, value, identity),
    ensures
        reached(resolutions, first, more, value, identity),
    decreases more - fuel,
{
    if fuel < more {
        lemma_reached_stays(resolutions, first, fuel, (more - 1) as nat, value, identity);
        lemma_reached_grows(resolutions, first, (more - 1) as nat, value, identity);
    }
}

/// How many marks are not set.
pub open spec fn unmarked(marks: Seq<bool>) -> nat
    decreases marks.len(),
{
    if marks.len() == 0 {
        0
    } else {
        unmarked(marks.drop_last()) + if marks.last() {
            0nat
        } else {
            1
        }
    }
}

/// Setting marks leaves fewer that are not set.
proof fn lemma_unmarked(marks: Seq<bool>, next: Seq<bool>)
    requires
        marks.len() == next.len(),
        forall|k: int| 0 <= k < marks.len() && marks[k] ==> #[trigger] next[k],
    ensures
        unmarked(next) <= unmarked(marks),
        next != marks ==> unmarked(next) < unmarked(marks),
    decreases marks.len(),
{
    if marks.len() > 0 {
        assert forall|k: int| 0 <= k < marks.drop_last().len() && marks.drop_last()[k] implies (
        #[trigger] next.drop_last()[k]) by {
            assert(marks[k] ==> next[k]);
        }
        lemma_unmarked(marks.drop_last(), next.drop_last());
        assert(marks.last() ==> next[next.len() - 1]);
        if marks.drop_last() == next.drop_last() && marks.last() == next.last() {
            assert(marks =~= marks.drop_last().push(marks.last()));
            assert(next =~= next.drop_last().push(next.last()));
        }
    } else {
        assert(marks =~= next);
    }
}

/// What is marked for a number of tokens one behind the other and no different for one
/// more is so for any more.
proof fn lemma_marked(
    resolutions: Seq<(Seq<char>, Val)>,
    first: bool,
    fuel: nat,
    more: nat,
    value: Val,
    marks: Seq<bool>,
)
    requires
        marked(resolutions, first, fuel, value, marks),
        marked(resolutions, first, fuel + 1, value, marks),
        fuel <= more,
    ensures
        marked(resolutions, first, more, value, marks),
    decreases more - fuel,
{
    if fuel < more {
        assert forall|j: int| 0 <= j < marks.len() implies (#[trigger] marks[j]) == reached(
            resolutions,
            first,
            fuel + 2,
            value,
            resolutions[j].0,
        ) by {
            let identity: Seq<char> = resolutions[j].0;
            assert(marks[j] == reached(resolutions, first, fuel + 1, value, identity));
            assert forall|k: int|
                #![trigger resolutions[k]]
                0 <= k < resolutions.len() implies reached(
                resolutions,
                first,
                fuel,
                value,
                resolutions[k].0,
            ) == reached(resolutions, first, fuel + 1, value, resolutions[k].0) by {
                assert(marks[k] == reached(resolutions, first, fuel, value, resolutions[k].0));
                assert(marks[k] == reached(resolutions, first, fuel + 1, value, resolutions[k].0));
            }
        }
        lemma_marked(resolutions, first, fuel + 1, more, value, marks);
    }
}

/// What a value holds all of comes upon no more than the value.
proof fn lemma_reached_part(
    resolutions: Seq<(Seq<char>, Val)>,
    first: bool,
    fuel: nat,
    part: Val,
    value: Val,
    identity: Seq<char>,
)
    requires
        forall|id: Seq<char>| #[trigger] holds(first, part, id) ==> holds(first, value, id),
        reached(resolutions, first, fuel, part, identity),
    ensures
        reached(resolutions, first, fuel, value, identity),
    decreases fuel,
{
    if !holds(first, part, identity) {
        let j: int = choose|j: int|
            #![trigger resolutions[j]]
            0 <= j < resolutions.len() && reached(
                resolutions,
                first,
                (fuel - 1) as nat,
                part,
                resolutions[j].0,
            ) && (resolution(resolutions, resolutions[j].0) matches Some(r) && holds(
                first,
                r,
                identity,
            ));
        lemma_reached_part(
            resolutions,
            first,
            (fuel - 1) as nat,
            part,
            value,
            resolutions[j].0,
        );
    }
}

/// Where the chains from a value end that a comparison may come upon, they do from the
/// values that it holds.
pub proof fn lemma_settled_part(
    resolutions: Seq<(Seq<char>, Val)>,
    first: bool,
    unordered: bool,
    value: Val,
    i: int,
)
    requires
        settled(resolutions, first, unordered, value),
        !(value is MutableSet || value is FrozenSet),
        0 <= i < children(value).len(),
    ensures
        settled(resolutions, first, unordered, children(value)[i]),
{
    let part: Val = children(value)[i];
    assert forall|id: Seq<char>| #[trigger] holds(first, part, id) implies holds(
        first,
        value,
        id,
    ) by {
        lemma_holds(first, value, id);
        assert(one_holds(first, children(value), id));
    }
    assert forall|fuel: nat, j: int|
        0 <= j < resolutions.len() && #[trigger] reached(
            resolutions,
            first,
            fuel,
            part,
            resolutions[j].0,
        ) implies token_ends(resolutions, first, unordered, resolutions[j].0) by {
        lemma_reached_part(resolutions, first, fuel, part, value, resolutions[j].0);
    }
}

/// What stands for a token comes upon no more than the token.
proof fn lemma_reached_resolved(
    resolutions: Seq<(Seq<char>, Val)>,
    first: bool,
    fuel: nat,
    object: ObjectVal,
    identity: Seq<char>,
)
    requires
        counts(first, object.kind),
        resolution(resolutions, object.identity) is Some,
        reached(
            resolutions,
            first,
            fuel,
            resolution(resolutions, object.identity)->Some_0,
            identity,
        ),
    ensures
        reached(resolutions, first, fuel + 1, Val::Object(object), identity),
    decreases fuel,
{
    let r: Val = resolution(resolutions, object.identity)->Some_0;
    let value: Val = Val::Object(object);
    assert((fuel + 1 - 1) as nat == fuel);
    if holds(first, r, identity) {
        lemma_resolution(resolutions, object.identity);
        let j: int = choose|j: int|
            0 <= j < resolutions.len() && #[trigger] resolutions[j] == (object.identity, r);
        assert(holds(first, value, resolutions[j].0));
        assert(reached(resolutions, first, fuel, value, resolutions[j].0));
    } else {
        let j: int = choose|j: int|
            #![trigger resolutions[j]]
            0 <= j < resolutions.len() && reached(
                resolutions,
                first,
                (fuel - 1) as nat,
                r,
                resolutions[j].0,
            ) && (resolution(resolutions, resolutions[j].0) matches Some(s) && holds(
                first,
                s,
                identity,
            ));
        lemma_reached_resolved(resolutions, first, (fuel - 1) as nat, object, resolutions[j].0);
        assert(reached(resolutions, first, fuel, value, resolutions[j].0));
    }
}

/// Where the chains from a token end that a comparison may come upon, they do from what
/// stands for it.
pub proof fn lemma_settled_resolved(
    resolutions: Seq<(Seq<char>, Val)>,
    first: bool,
    unordered: bool,
    object: ObjectVal,
)
    requires
        counts(first, object.kind),
        settled(resolutions, first, unordered, Val::Object(object)),
    ensures
        token_ends(resolutions, first, unordered, object.identity),
        resolution(resolutions, object.identity) matches Some(r) ==> settled(
            resolutions,
            first,
            unordered,
            r,
        ),
{
    if let Some(r) = resolution(resolutions, object.identity) {
        lemma_resolution(resolutions, object.identity);
        let i: int = choose|i: int|
            0 <= i < resolutions.len() && #[trigger] resolutions[i] == (object.identity, r);
        assert(holds(first, Val::Object(object), resolutions[i].0));
        assert(reached(resolutions, first, 0, Val::Object(object), resolutions[i].0));
        assert forall|fuel: nat, j: int|
            0 <= j < resolutions.len() && #[trigger] reached(
                resolutions,
                first,
                fuel,
                r,
                resolutions[j].0,
            ) implies token_ends(resolutions, first, unordered, resolutions[j].0) by {
            lemma_reached_resolved(resolutions, first, fuel, object, resolutions[j].0);
        }
    }
}

/// Where the chains of all tokens end that a comparison may come upon, those from the
/// value itself do.
pub proof fn lemma_settled_ends(
    resolutions: Seq<(Seq<char>, Val)>,
    first: bool,
    unordered: bool,
    value: Val,
)
    requires
        settled(resolutions, first, unordered, value),
    ensures
        chains_end(resolutions, first, unordered, value),
    decreases value, 0int,
{
    match value {
        Val::Object(object) => if counts(first, object.kind) {
            lemma_settled_resolved(resolutions, first, unordered, object);
            lemma_nearer(resolutions, first, unordered, object);
        },
        Val::Array(items) => {
            assert forall|i: int| 0 <= i < items.len() implies settled(
                resolutions,
                first,
                unordered,
                #[trigger] items[i],
            ) by {
                lemma_settled_part(resolutions, first, unordered, value, i);
            }
            lemma_settled_items(resolutions, first, unordered, items);
        },
        Val::Tuple(items) => {
            assert forall|i: int| 0 <= i < items.len() implies settled(
                resolutions,
                first,
                unordered,
                #[trigger] items[i],
            ) by {
                lemma_settled_part(resolutions, first, unordered, value, i);
            }
            lemma_settled_items(resolutions, first, unordered, items);
        },
        _ => {},
    }
}

proof fn lemma_settled_items(
    resolutions: Seq<(Seq<char>, Val)>,
    first: bool,
    unordered: bool,
    items: Seq<Val>,
)
    requires
        forall|i: int|
            0 <= i < items.len() ==> settled(resolutions, first, unordered, #[trigger] items[i]),
    ensures
        opens_all(resolutions, first, unordered, resolutions.len() + 1, items)
            <= resolutions.len(),
    decreases items, 1int,
{
    if items.len() > 0 {
        let front: Seq<Val> = items.drop_last();
        assert forall|i: int| 0 <= i < front.len() implies settled(
            resolutions,
            first,
            unordered,
            #[trigger] front[i],
        ) by {
            assert(front[i] == items[i]);
        }
        lemma_settled_items(resolutions, first, unordered, front);
        assert(settled(resolutions, first, unordered, items[items.len() - 1]));
        lemma_settled_ends(resolutions, first, unordered, items.last());
    }
}

/// The models of several resolutions.
pub open spec fn resolution_views(entries: Seq<(String, Resolution<'_>)>) -> Seq<(Seq<char>, Val)> {
    Seq::new(entries.len(), |i: int| (entries[i].0@, entries[i].1@))
}

/// The values that stand for tokens, by the tokens' identities.
#[derive(Debug)]
pub struct Resolver<'r> {
    entries: Vec<(String, Resolution<'r>)>,
}

impl<'r> View for Resolver<'r> {
    type V = Seq<(Seq<char>, Val)>;

    closed spec fn view(&self) -> Seq<(Seq<char>, Val)> {
        resolution_views(self.entries@)
    }
}

impl<'r> Resolver<'r> {
    /// No values for any token.
    pub fn new() -> (resolver: Self)
        ensures
            resolver@ == Seq::<(Seq<char>, Val)>::empty(),
    {
        let resolver = Resolver { entries: Vec::new() };
        assert(resolver@ =~= Seq::<(Seq<char>, Val)>::empty());
        resolver
    }

    /// Lets a value stand for the tokens of an identity for which none does yet.
    pub fn add(&mut self, identity: String, value: Resolution<'r>)
        ensures
            final(self)@ == old(self)@.push((identity@, value@)),
    {
        self.entries.push((identity, value));
        assert(self@ =~= old(self)@.push((identity@, value@)));
    }

    /// The place of the value for the tokens of an identity.
    pub(crate) fn position(&self, identity: &String) -> (found: Option<usize>)
        ensures
            match found {
                Some(i) => i < self@.len() && resolution(self@, identity@) == Some(
                    self@[i as int].1,
                ),
                None => resolution(self@, identity@) is None,
            },
    {
        let ghost all: Seq<(Seq<char>, Val)> = self@;
        let mut i: usize = 0;
        proof {
            assert(all.skip(0) =~= all);
        }
        while i < self.entries.len()
            invariant
                i <= self.entries.len(),
                all == resolution_views(self.entries@),
                resolution(all.skip(i as int), identity@) == resolution(all, identity@),
            decreases self.entries.len() - i,
        {
            proof {
                assert(all.skip(i as int)[0] == all[i as int]);
                assert(all.skip(i as int).drop_first() =~= all.skip(i as int + 1));
            }
            if self.entries[i].0.eq(identity) {
                return Some(i);
            }
            i = i + 1;
        }
        proof {
            assert(all.skip(i as int).len() == 0);
        }
        None
    }

    /// The value at a place.
    pub(crate) fn value_at(&'r self, i: usize) -> (value: &'r Value)
        requires
            i < self@.len(),
        ensures
            value@ == self@[i as int].1,
    {
        self.entries[i].1.value()
    }

    /// The value for the tokens of an identity.
    pub fn find(&'r self, identity: &str) -> (value: Option<&'r Value>)
        ensures
            (match value {
                Some(value) => Some(value@),
                None => None,
            }) == resolution(self@, identity@),
    {
        let wanted: String = String::from_str(identity);
        match self.position(&wanted) {
            Some(i) => Some(self.entries[i].1.value()),
            None => None,
        }
    }

    /// How many tokens a value opens, given how many each value of the table opens
    /// with one token less.
    fn opened(
        &self,
        first: bool,
        unordered: bool,
        value: &Value,
        levels: &Vec<usize>,
        Ghost(fuel): Ghost<nat>,
    ) -> (count: usize)
        requires
            fuel < self@.len(),
            leveled(self@, first, unordered, fuel, levels@),
        ensures
            count == opens(self@, first, unordered, fuel + 1, value@),
    {
        let ghost all: Seq<(Seq<char>, Val)> = self@;
        let mut most_opened: usize = 0;
        let mut stack: Vec<&Value> = Vec::new();
        stack.push(value);
        proof {
            assert(borrowed(stack@) =~= seq![].push(value@));
            reveal_with_fuel(opens_all, 2);
            assert(borrowed(stack@).drop_last() =~= seq![]);
        }
        while stack.len() > 0
            invariant
                all == self@,
                fuel < all.len(),
                leveled(all, first, unordered, fuel, levels@),
                most(
                    most_opened as nat,
                    opens_all(all, first, unordered, fuel + 1, borrowed(stack@)),
                ) == opens(all, first, unordered, fuel + 1, value@),
            decreases total(borrowed(stack@)),
        {
            let ghost before: Seq<Val> = borrowed(stack@);
            if let Some(next) = stack.pop() {
                let ghost rest: Seq<Val> = borrowed(stack@);
                proof {
                    assert(before =~= rest.push(next@));
                    assert(before.drop_last() =~= rest);
                    lemma_total_push(rest, next@);
                    lemma_children(next@);
                    lemma_total_add(rest, children(next@));
                    lemma_opens_all_add(all, first, unordered, fuel + 1, rest, children(next@));
                    assert(opens_all(all, first, unordered, fuel + 1, before) == most(
                        opens_all(all, first, unordered, fuel + 1, rest),
                        opens(all, first, unordered, fuel + 1, next@),
                    ));
                }
                match next {
                    Value::Object(object) => if token_counts(first, object.kind()) {
                        if let Some(i) = self.position(object.identity()) {
                            proof {
                                lemma_opens_bound(all, first, unordered, fuel, all[i as int].1);
                                assert(levels@[i as int] <= fuel < self.entries.len());
                            }
                            let count: usize = 1 + levels[i];
                            if count > most_opened {
                                most_opened = count;
                            }
                        }
                    },
                    Value::Array(_) | Value::Tuple(_) => if unordered {
                        push_children(&mut stack, next);
                        assert(borrowed(stack@) =~= rest + children(next@));
                    },
                    _ => {},
                }
            }
        }
        most_opened
    }

    /// For each value whether its chains of tokens end on one side of a comparison, in
    /// order or without.
    pub(crate) fn chains(&self, first: bool, unordered: bool) -> (ends: Vec<bool>)
        ensures
            charted(self@, first, unordered, ends@),
    {
        let count: usize = self.entries.len();
        let mut levels: Vec<usize> = Vec::new();
        let mut i: usize = 0;
        while i < count
            invariant
                i <= count,
                count == self@.len(),
                levels@.len() == i,
                forall|k: int| 0 <= k < i ==> (#[trigger] levels@[k]) == 0,
            decreases count - i,
        {
            levels.push(0);
            i = i + 1;
        }
        proof {
            assert forall|k: int| 0 <= k < count implies (#[trigger] levels@[k]) == opens(
                self@,
                first,
                unordered,
                0,
                self@[k].1,
            ) by {
                lemma_opens_bound(self@, first, unordered, 0, self@[k].1);
            }
        }
        let mut fuel: usize = 0;
        let mut same: bool = false;
        while fuel < count && !same
            invariant
                count == self@.len(),
                count == self.entries@.len(),
                fuel <= count,
                leveled(self@, first, unordered, fuel as nat, levels@),
                same ==> all_steady(self@, first, unordered, fuel as nat),
            decreases count - fuel,
        {
            let mut next: Vec<usize> = Vec::new();
            same = true;
            let mut i: usize = 0;
            while i < count
                invariant
                    i <= count,
                    fuel < count,
                    count == self@.len(),
                    count == self.entries@.len(),
                    leveled(self@, first, unordered, fuel as nat, levels@),
                    next@.len() == i,
                    forall|k: int|
                        0 <= k < i ==> (#[trigger] next@[k]) == opens(
                            self@,
                            first,
                            unordered,
                            fuel as nat + 1,
                            self@[k].1,
                        ),
                    same ==> forall|k: int|
                        0 <= k < i ==> steady(
                            self@,
                            first,
                            unordered,
                            fuel as nat,
                            (#[trigger] self@[k]).1,
                        ),
                decreases count - i,
            {
                let value: &Value = self.entries[i].1.value();
                let level: usize = self.opened(
                    first,
                    unordered,
                    value,
                    &levels,
                    Ghost(fuel as nat),
                );
                proof {
                    assert(self@[i as int].1 == value@);
                    assert(levels@[i as int] == opens(
                        self@,
                        first,
                        unordered,
                        fuel as nat,
                        value@,
                    ));
                }
                if level != levels[i] {
                    same = false;
                }
                next.push(level);
                i = i + 1;
            }
            proof {
                if same {
                    lemma_steady_from(self@, first, unordered, fuel as nat, fuel as nat + 1);
                }
            }
            levels = next;
            fuel = fuel + 1;
        }
        proof {
            if same {
                lemma_steady_levels(self@, first, unordered, fuel as nat, count as nat);
            }
        }
        let mut ends: Vec<bool> = Vec::new();
        let mut i: usize = 0;
        while i < count
            invariant
                i <= count,
                count == self@.len(),
                ends@.len() == i,
                leveled(self@, first, unordered, fuel as nat, levels@),
                fuel <= count,
                forall|k: int|
                    0 <= k < count ==> opens(
                        self@,
                        first,
                        unordered,
                        count as nat,
                        (#[trigger] self@[k]).1,
                    ) == opens(self@, first, unordered, fuel as nat, self@[k].1),
                forall|k: int|
                    0 <= k < i ==> (#[trigger] ends@[k]) == (opens(
                        self@,
                        first,
                        unordered,
                        self@.len(),
                        self@[k].1,
                    ) < self@.len()),
            decreases count - i,
        {
            proof {
                assert(levels@[i as int] == opens(
                    self@,
                    first,
                    unordered,
                    fuel as nat,
                    self@[i as int].1,
                ));
            }
            ends.push(levels[i] < count);
            i = i + 1;
        }
        ends
    }

    /// Whether the chains of tokens from a value end, given of which values of the
    /// table they do.
    pub(crate) fn value_ends(
        &self,
        first: bool,
        unordered: bool,
        value: &Value,
        ends: &Vec<bool>,
    ) -> (result: bool)
        requires
            charted(self@, first, unordered, ends@),
        ensures
            result == chains_end(self@, first, unordered, value@),
    {
        let ghost all: Seq<(Seq<char>, Val)> = self@;
        let ghost fuel: nat = all.len() + 1;
        let mut stack: Vec<&Value> = Vec::new();
        stack.push(value);
        proof {
            assert(borrowed(stack@) =~= seq![].push(value@));
            reveal_with_fuel(opens_all, 2);
            assert(borrowed(stack@).drop_last() =~= seq![]);
        }
        while stack.len() > 0
            invariant
                all == self@,
                fuel == all.len() + 1,
                charted(all, first, unordered, ends@),
                (opens_all(all, first, unordered, fuel, borrowed(stack@)) <= all.len())
                    == chains_end(all, first, unordered, value@),
            decreases total(borrowed(stack@)),
        {
            let ghost before: Seq<Val> = borrowed(stack@);
            if let Some(next) = stack.pop() {
                let ghost rest: Seq<Val> = borrowed(stack@);
                proof {
                    assert(before =~= rest.push(next@));
                    assert(before.drop_last() =~= rest);
                    lemma_total_push(rest, next@);
                    lemma_children(next@);
                    lemma_total_add(rest, children(next@));
                    lemma_opens_all_add(all, first, unordered, fuel, rest, children(next@));
                    assert(opens_all(all, first, unordered, fuel, before) == most(
                        opens_all(all, first, unordered, fuel, rest),
                        opens(all, first, unordered, fuel, next@),
                    ));
                }
                match next {
                    Value::Object(object) => if token_counts(first, object.kind()) {
                        proof {
                            lemma_nearer(all, first, unordered, object@);
                        }
                        if let Some(i) = self.position(object.identity()) {
                            if !ends[i] {
                                return false;
                            }
                        }
                    },
                    Value::Array(_) | Value::Tuple(_) => if unordered {
                        push_children(&mut stack, next);
                        assert(borrowed(stack@) =~= rest + children(next@));
                    },
                    _ => {},
                }
            }
        }
        true
    }

    /// Marks the identities of the tokens that a value holds.
    fn mark(&self, first: bool, value: &Value, marks: &mut Vec<bool>)
        requires
            old(marks)@.len() == self@.len(),
        ensures
            final(marks)@.len() == self@.len(),
            forall|j: int|
                0 <= j < self@.len() ==> (#[trigger] final(marks)@[j]) == (old(marks)@[j] || holds(
                    first,
                    value@,
                    self@[j].0,
                )),
    {
        let ghost all: Seq<(Seq<char>, Val)> = self@;
        let mut stack: Vec<&Value> = Vec::new();
        stack.push(value);
        proof {
            assert(borrowed(stack@) =~= seq![value@]);
            assert forall|j: int| 0 <= j < all.len() implies one_holds(
                first,
                borrowed(stack@),
                (#[trigger] all[j]).0,
            ) == holds(first, value@, all[j].0) by {
                if holds(first, value@, all[j].0) {
                    assert(holds(first, borrowed(stack@)[0], all[j].0));
                }
            }
        }
        while stack.len() > 0
            invariant
                all == self@,
                marks@.len() == all.len(),
                old(marks)@.len() == all.len(),
                forall|j: int|
                    0 <= j < all.len() ==> (marks@[j] || one_holds(
                        first,
                        borrowed(stack@),
                        (#[trigger] all[j]).0,
                    )) == (old(marks)@[j] || holds(first, value@, all[j].0)),
            decreases total(borrowed(stack@)),
        {
            let ghost before: Seq<Val> = borrowed(stack@);
            let ghost known: Seq<bool> = marks@;
            if let Some(next) = stack.pop() {
                let ghost rest: Seq<Val> = borrowed(stack@);
                if let Value::Object(object) = next {
                    if token_counts(first, object.kind()) {
                        self.mark_identity(object.identity(), marks);
                    }
                }
                match next {
                    Value::MutableSet(_) | Value::FrozenSet(_) => {},
                    _ => {
                        push_children(&mut stack, next);
                    },
                }
                proof {
                    assert(before =~= rest + seq![next@]);
                    assert(before =~= rest.push(next@));
                    lemma_total_push(rest, next@);
                    lemma_children(next@);
                    lemma_total_add(rest, children(next@));
                    assert forall|j: int| 0 <= j < all.len() implies (marks@[j] || one_holds(
                        first,
                        borrowed(stack@),
                        (#[trigger] all[j]).0,
                    )) == (old(marks)@[j] || holds(first, value@, all[j].0)) by {
                        lemma_holds(first, next@, all[j].0);
                        lemma_one_holds_add(first, rest, seq![next@], all[j].0);
                        lemma_one_holds_add(first, rest, children(next@), all[j].0);
                        assert(marks@[j] == (known[j] || met(first, next@, all[j].0)));
                        if holds(first, next@, all[j].0) {
                            assert(holds(first, seq![next@][0], all[j].0));
                        }
                    }
                }
            }
        }
        proof {
            assert forall|j: int| 0 <= j < all.len() implies (#[trigger] marks@[j]) == (old(
                marks,
            )@[j] || holds(first, value@, all[j].0)) by {
                assert(!one_holds(first, borrowed(stack@), all[j].0));
            }
        }
    }

    /// Marks an identity wherever the table has it.
    fn mark_identity(&self, identity: &String, marks: &mut Vec<bool>)
        requires
            old(marks)@.len() == self@.len(),
        ensures
            final(marks)@.len() == self@.len(),
            forall|j: int|
                0 <= j < self@.len() ==> (#[trigger] final(marks)@[j]) == (old(marks)@[j]
                    || self@[j].0 == identity@),
    {
        let mut j: usize = 0;
        while j < self.entries.len()
            invariant
                j <= self.entries.len(),
                self.entries@.len() == self@.len(),
                marks@.len() == self@.len(),
                old(marks)@.len() == self@.len(),
                forall|k: int|
                    0 <= k < j ==> (#[trigger] marks@[k]) == (old(marks)@[k] || self@[k].0
                        == identity@),
                forall|k: int| j <= k < marks@.len() ==> (#[trigger] marks@[k]) == old(marks)@[k],
            decreases self.entries.len() - j,
        {
            if self.entries[j].0.eq(identity) {
                marks.set(j, true);
            }
            j = j + 1;
        }
    }

    /// Whether the chains of all tokens end that a comparison of a value may come
    /// upon.
    fn is_settled(&self, first: bool, unordered: bool, value: &Value) -> (result: bool)
        ensures
            result == settled(self@, first, unordered, value@),
    {
        let ghost all: Seq<(Seq<char>, Val)> = self@;
        let count: usize = self.entries.len();
        let mut none: Vec<bool> = Vec::new();
        let mut i: usize = 0;
        while i < count
            invariant
                i <= count,
                none@.len() == i,
                forall|k: int| 0 <= k < i ==> !(#[trigger] none@[k]),
            decreases count - i,
        {
            none.push(false);
            i = i + 1;
        }
        self.mark(first, value, &mut none);
        let mut marks: Vec<bool> = none;
        let ghost mut fuel: nat = 0;
        let mut same: bool = false;
        while !same
            invariant
                all == self@,
                count == all.len(),
                count == self.entries@.len(),
                marked(all, first, fuel, value@, marks@),
                same ==> marked(all, first, fuel + 1, value@, marks@),
            decreases
                    unmarked(marks@),
                    if same {
                        0int
                    } else {
                        1int
                    },
        {
            let next: Vec<bool> = self.marked_next(first, value, &marks, Ghost(fuel));
            same = true;
            let mut j: usize = 0;
            while j < count
                invariant
                    j <= count,
                    count == next@.len(),
                    count == marks@.len(),
                    same ==> forall|k: int| 0 <= k < j ==> (#[trigger] next@[k]) == marks@[k],
                    !same ==> next@ != marks@,
                decreases count - j,
            {
                if next[j] != marks[j] {
                    same = false;
                }
                j = j + 1;
            }
            proof {
                if same {
                    assert(next@ =~= marks@);
                    lemma_marked(all, first, fuel, fuel + 2, value@, marks@);
                } else {
                    assert forall|k: int| 0 <= k < count && marks@[k] implies #[trigger] next@[k] by {
                        lemma_reached_grows(all, first, fuel, value@, all[k].0);
                        assert(marks@[k] == reached(all, first, fuel, value@, all[k].0));
                    }
                    lemma_unmarked(marks@, next@);
                }
                fuel = fuel + 1;
            }
            marks = next;
        }
        let ends: Vec<bool> = self.chains(first, unordered);
        let mut j: usize = 0;
        while j < count
            invariant
                j <= count,
                all == self@,
                count == all.len(),
                count == self.entries@.len(),
                marked(all, first, fuel, value@, marks@),
                marked(all, first, fuel + 1, value@, marks@),
                charted(all, first, unordered, ends@),
                forall|k: int|
                    0 <= k < j && (#[trigger] marks@[k]) ==> token_ends(
                        all,
                        first,
                        unordered,
                        all[k].0,
                    ),
            decreases count - j,
        {
            if marks[j] {
                let ended: bool = match self.position(&self.entries[j].0) {
                    Some(i) => ends[i],
                    None => true,
                };
                if !ended {
                    proof {
                        assert(all[j as int].0 == self.entries@[j as int].0@);
                        assert(!token_ends(all, first, unordered, all[j as int].0));
                        assert(marks@[j as int] == reached(
                            all,
                            first,
                            fuel,
                            value@,
                            all[j as int].0,
                        ));
                    }
                    return false;
                }
            }
            j = j + 1;
        }
        proof {
            assert forall|steps: nat, k: int|
                0 <= k < all.len() && #[trigger] reached(
                    all,
                    first,
                    steps,
                    value@,
                    all[k].0,
                ) implies token_ends(all, first, unordered, all[k].0) by {
                if steps <= fuel {
                    lemma_reached_stays(all, first, steps, fuel, value@, all[k].0);
                } else {
                    lemma_marked(all, first, fuel, steps, value@, marks@);
                }
                assert(marks@[k]);
            }
        }
        true
    }

    /// What is marked with one more value for a token between.
    fn marked_next(
        &self,
        first: bool,
        value: &Value,
        marks: &Vec<bool>,
        Ghost(fuel): Ghost<nat>,
    ) -> (next: Vec<bool>)
        requires
            marked(self@, first, fuel, value@, marks@),
        ensures
            marked(self@, first, fuel + 1, value@, next@),
    {
        let ghost all: Seq<(Seq<char>, Val)> = self@;
        let count: usize = self.entries.len();
        let mut next: Vec<bool> = Vec::new();
        let mut i: usize = 0;
        while i < count
            invariant
                i <= count,
                next@.len() == i,
                forall|k: int| 0 <= k < i ==> !(#[trigger] next@[k]),
            decreases count - i,
        {
            next.push(false);
            i = i + 1;
        }
        self.mark(first, value, &mut next);
        let mut j: usize = 0;
        while j < count
            invariant
                j <= count,
                all == self@,
                count == all.len(),
                count == self.entries@.len(),
                next@.len() == count,
                marked(all, first, fuel, value@, marks@),
                forall|k: int|
                    0 <= k < count ==> (#[trigger] next@[k]) == (holds(first, value@, all[k].0)
                        || passed_on(all, first, fuel, value@, j as int, all[k].0)),
            decreases count - j,
        {
            let ghost before: Seq<bool> = next@;
            if marks[j] {
                if let Some(i) = self.position(&self.entries[j].0) {
                    self.mark(first, self.entries[i].1.value(), &mut next);
                }
            }
            proof {
                assert(all[j as int].0 == self.entries@[j as int].0@);
                assert(marks@[j as int] == reached(all, first, fuel, value@, all[j as int].0));
                assert forall|k: int| 0 <= k < count implies (#[trigger] next@[k]) == (holds(
                    first,
                    value@,
                    all[k].0,
                ) || passed_on(all, first, fuel, value@, j + 1, all[k].0)) by {
                    assert(before[k] == (holds(first, value@, all[k].0) || passed_on(
                        all,
                        first,
                        fuel,
                        value@,
                        j as int,
                        all[k].0,
                    )));
                    lemma_passed_on(all, first, fuel, value@, j as int, all[k].0);
                }
            }
            j = j + 1;
        }
        proof {
            assert forall|k: int| 0 <= k < count implies (#[trigger] next@[k]) == reached(
                all,
                first,
                fuel + 1,
                value@,
                all[k].0,
            ) by {
                assert((fuel + 1 - 1) as nat == fuel);
            }
        }
        next
    }

    /// Whether a comparison of two values comes to an end, in order or without.
    pub fn is_resolvable(&self, unordered: bool, a: &Value, b: &Value) -> (result: bool)
        ensures
            result == resolvable(self@, unordered, a@, b@),
    {
        self.is_settled(true, false, a) && self.is_settled(false, false, b) && (
        self.is_settled(true, unordered, a) || self.is_settled(false, unordered, b))
    }
}

/// Whether one of the first values for the tokens that a comparison comes upon holds
/// a token of an identity.
pub open spec fn passed_on(
    resolutions: Seq<(Seq<char>, Val)>,
    first: bool,
    fuel: nat,
    value: Val,
    count: int,
    identity: Seq<char>,
) -> bool {
    exists|j: int|
        #![trigger resolutions[j]]
        0 <= j < count && reached(resolutions, first, fuel, value, resolutions[j].0) && (resolution(
            resolutions,
            resolutions[j].0,
        ) matches Some(r) && holds(first, r, identity))
}

/// One more value passes on what it holds.
proof fn lemma_passed_on(
    resolutions: Seq<(Seq<char>, Val)>,
    first: bool,
    fuel: nat,
    value: Val,
    count: int,
    identity: Seq<char>,
)
    requires
        0 <= count < resolutions.len(),
    ensures
        passed_on(resolutions, first, fuel, value, count + 1, identity) == (passed_on(
            resolutions,
            first,
            fuel,
            value,
            count,
            identity,
        ) || (reached(resolutions, first, fuel, value, resolutions[count].0) && (resolution(
            resolutions,
            resolutions[count].0,
        ) matches Some(r) && holds(first, r, identity)))),
{
}

/// Whether a token is compared as the value that stands for it.
fn token_counts(first: bool, kind: ObjectKind) -> (result: bool)
    ensures
        result == counts(first, kind),
{
    match kind {
        ObjectKind::Opaque => true,
        ObjectKind::Cycle => !first,
        _ => false,
    }
}

/// Whether truth values say of which values of a table the chains of tokens end.
pub open spec fn charted(
    resolutions: Seq<(Seq<char>, Val)>,
    first: bool,
    unordered: bool,
    ends: Seq<bool>,
) -> bool {
    &&& ends.len() == resolutions.len()
    &&& forall|i: int|
        0 <= i < ends.len() ==> (#[trigger] ends[i]) == (opens(
            resolutions,
            first,
            unordered,
            resolutions.len(),
            resolutions[i].1,
        ) < resolutions.len())
}

/// Whether numbers say how many tokens each value of a table opens.
pub open spec fn leveled(
    resolutions: Seq<(Seq<char>, Val)>,
    first: bool,
    unordered: bool,
    fuel: nat,
    levels: Seq<usize>,
) -> bool {
    &&& levels.len() == resolutions.len()
    &&& forall|i: int|
        0 <= i < levels.len() ==> (#[trigger] levels[i]) == opens(
            resolutions,
            first,
            unordered,
            fuel,
            resolutions[i].1,
        )
}

} // verus!
