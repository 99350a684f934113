//! The keys of items: two items are matched where their keys agree.

use vstd::prelude::*;

use super::keys::{ItemNode, Part};
use super::memo::IgnoreOrderMemo;
use crate::float::fold_signed_zero;
use crate::intern::Interner;
use crate::order::put_pair;
use crate::scalar_key::lasting_key;
use crate::value::{Number, Object, ObjectKey, ObjectKind, SetItems, Value};

#[allow(unused_imports)]
use super::keys::{ItemVal, Keys, PartVal};
#[allow(unused_imports)]
use super::memo::{with_item, with_part, with_tuple, MemoVal};
#[allow(unused_imports)]
use crate::float::folded;
#[allow(unused_imports)]
use crate::order::{ascending, pair_views, put};
#[allow(unused_imports)]
use crate::scalar_key::lasting_scalar;
#[allow(unused_imports)]
use crate::value::{views, KeyVal, ObjectVal, Val};
#[allow(unused_imports)]
use crate::walk::{
    key_weight, lemma_entry_member, lemma_member, total, total_entries, weight,
};

verus! {

// ---------------------------------------------------------------------
// What keys are
// ---------------------------------------------------------------------

/// What the item of a number holds.
pub open spec fn number_item(n: Number) -> ItemVal {
    match n {
        Number::Float(f) => ItemVal::Float(folded(f.bits)),
        _ => ItemVal::Int(n.integer()),
    }
}

/// What the item of a scalar holds.
pub open spec fn scalar_item(value: Val) -> ItemVal {
    match value {
        Val::Bool(b) => ItemVal::Bool(b),
        Val::Number(n) => number_item(n),
        Val::Str(s) => ItemVal::Str(s),
        Val::DateTime(d) => ItemVal::DateTime(d.spec_instant()),
        Val::Date(d) => ItemVal::Date(d.spec_ordinal()),
        Val::Time(t) => ItemVal::Time(t.spec_hash_seconds_of_day()),
        Val::TimeDelta(d) => ItemVal::TimeDelta(d),
        _ => ItemVal::Null,
    }
}

/// The identity by which a token's item is told apart; none for what is not a
/// token.
pub open spec fn token_identity(object: ObjectVal) -> Seq<char> {
    match object.kind {
        ObjectKind::Opaque | ObjectKind::Cycle => object.identity,
        _ => seq![],
    }
}

/// What the item of an object holds, given the keys of its entries.
pub open spec fn object_item(object: ObjectVal, pairs: Seq<(usize, usize)>) -> ItemVal {
    match object.kind {
        ObjectKind::Dict => ItemVal::Dict(pairs),
        _ => ItemVal::Object(object.class_name, token_identity(object), pairs),
    }
}

/// The key of a value's item, and the part that it is of a hashable value.
///
/// A list has no part, nor has a set, a dict or what is not a number; a part
/// is looked for in a scalar only where it is wanted.
pub open spec fn keyed_of(m: MemoVal, value: Val, wanted: bool) -> (MemoVal, usize, Option<usize>)
    decreases value, 0int,
{
    match value {
        Val::Array(items) => {
            let (n, keys) = keys_of(m, items, items.len() as int);
            let (n, item) = with_item(n, ItemVal::List(keys));
            (n, item, None)
        },
        Val::MutableSet(items) => {
            let (n, keys) = keys_of(m, items, items.len() as int);
            let (n, item) = with_item(n, ItemVal::MutableSet(keys));
            (n, item, None)
        },
        Val::FrozenSet(items) => {
            let (n, keys) = keys_of(m, items, items.len() as int);
            let (n, item) = with_item(n, ItemVal::FrozenSet(keys));
            (n, item, None)
        },
        Val::Tuple(items) => {
            let (n, keys, parts) = tuple_keys(m, items, items.len() as int);
            match parts {
                None => {
                    let (n, item) = with_item(n, ItemVal::Tuple(keys));
                    (n, item, None)
                },
                Some(parts) => {
                    let (n, tuple, item) = with_tuple(n, parts, keys);
                    let (n, part) = with_part(n, PartVal::Tuple(tuple));
                    (n, item, Some(part))
                },
            }
        },
        Val::Object(object) => {
            let (n, pairs) = entry_keys(m, object.entries, object.entries.len() as int);
            let (n, item) = with_item(n, object_item(object, pairs));
            (n, item, None)
        },
        _ => {
            let (n, item) = with_item(m, scalar_item(value));
            match lasting_scalar(value) {
                Some(key) if wanted => {
                    let (n, part) = with_part(n, PartVal::Scalar(key));
                    (n, item, Some(part))
                },
                _ => (n, item, None),
            }
        },
    }
}

/// The keys of the first `count` items, without order or repetition.
pub open spec fn keys_of(m: MemoVal, items: Seq<Val>, count: int) -> (MemoVal, Keys)
    decreases items, count,
{
    if count <= 0 || count > items.len() {
        (m, seq![])
    } else {
        let (n, keys) = keys_of(m, items, count - 1);
        let (n, item, _) = keyed_of(n, items[count - 1], false);
        (n, put::<usize, ()>(keys, item, ()))
    }
}

/// The keys of the first `count` items, and their parts in order if all of
/// them have one.
pub open spec fn tuple_keys(m: MemoVal, items: Seq<Val>, count: int) -> (
    MemoVal,
    Keys,
    Option<Seq<usize>>,
)
    decreases items, count,
{
    if count <= 0 || count > items.len() {
        (m, seq![], Some(seq![]))
    } else {
        let (n, keys, parts) = tuple_keys(m, items, count - 1);
        let (n, item, part) = keyed_of(n, items[count - 1], parts is Some);
        let parts = match (parts, part) {
            (Some(parts), Some(part)) => Some(parts.push(part)),
            _ => None,
        };
        (n, put::<usize, ()>(keys, item, ()), parts)
    }
}

/// The keys of the first `count` entries: of the value by that of the key.
pub open spec fn entry_keys(m: MemoVal, entries: Seq<(KeyVal, Val)>, count: int) -> (
    MemoVal,
    Seq<(usize, usize)>,
)
    decreases entries, count,
{
    if count <= 0 || count > entries.len() {
        (m, seq![])
    } else {
        let (n, pairs) = entry_keys(m, entries, count - 1);
        let (n, key) = key_item(n, entries[count - 1].0);
        let (n, item, _) = keyed_of(n, entries[count - 1].1, false);
        (n, put::<usize, usize>(pairs, key, item))
    }
}

/// The key of the item of an entry's key.
pub open spec fn key_item(m: MemoVal, key: KeyVal) -> (MemoVal, usize)
    decreases key, 0int,
{
    match key {
        KeyVal::Str(s) => with_item(m, ItemVal::Str(s)),
        KeyVal::Other(value) => {
            let (n, item, _) = keyed_of(m, *value, false);
            (n, item)
        },
    }
}

/// The key of a value's item.
pub open spec fn item_of(m: MemoVal, value: Val) -> (MemoVal, usize) {
    let (n, item, _) = keyed_of(m, value, false);
    (n, item)
}

// ---------------------------------------------------------------------
// Finding them
// ---------------------------------------------------------------------

/// What the item of a scalar holds.
pub fn scalar_content_key(value: &Value) -> (node: ItemNode)
    ensures
        node@ == scalar_item(value@),
{
    match value {
        Value::Bool(b) => ItemNode::Bool(*b),
        Value::Number(n) => match n {
            Number::Int(i) => ItemNode::Int(*i as i128),
            Number::Uint(i) => ItemNode::Int(*i as i128),
            Number::Float(f) => ItemNode::Float(fold_signed_zero(f.bits)),
        },
        Value::Str(s) => ItemNode::Str(s.clone()),
        Value::DateTime(d) => ItemNode::DateTime(d.instant()),
        Value::Date(d) => ItemNode::Date(d.ordinal()),
        Value::Time(t) => ItemNode::Time(t.hash_seconds_of_day()),
        Value::TimeDelta(d) => ItemNode::TimeDelta(*d),
        _ => ItemNode::Null,
    }
}

/// The key of a value's item, and its part where one is wanted.
pub fn keyed(value: &Value, wanted: bool, memo: &mut IgnoreOrderMemo<'_>) -> (result: (
    usize,
    Option<usize>,
))
    requires
        old(memo).well_formed(),
    ensures
        final(memo).well_formed(),
        final(memo).table() == old(memo).table(),
        (final(memo)@, result.0, result.1) == keyed_of(old(memo)@, value@, wanted),
        result.0 < final(memo)@.items.len(),
        old(memo)@.items.len() <= final(memo)@.items.len(),
    decreases weight(value@), 0int,
{
    match value {
        Value::Array(items) => {
            let keys: Vec<(usize, ())> = list_keys(items, memo);
            (memo.item(ItemNode::List(keys)), None)
        },
        Value::MutableSet(items) => {
            let keys: Vec<(usize, ())> = set_keys(items, memo);
            (memo.item(ItemNode::MutableSet(keys)), None)
        },
        Value::FrozenSet(items) => {
            let keys: Vec<(usize, ())> = set_keys(items, memo);
            (memo.item(ItemNode::FrozenSet(keys)), None)
        },
        Value::Tuple(items) => tuple_keyed(items, memo),
        Value::Object(object) => {
            let pairs: Vec<(usize, usize)> = object_keys(object, memo);
            let node: ItemNode = match object.kind() {
                ObjectKind::Dict => ItemNode::Dict(pairs),
                ObjectKind::Opaque | ObjectKind::Cycle => ItemNode::Object(
                    object.class_name().clone(),
                    object.identity().clone(),
                    pairs,
                ),
                _ => {
                    let none: String = String::new();
                    proof {
                        assert(none@ =~= seq![]);
                    }
                    ItemNode::Object(object.class_name().clone(), none, pairs)
                },
            };
            (memo.item(node), None)
        },
        _ => {
            let item: usize = memo.item(scalar_content_key(value));
            if !wanted {
                return (item, None);
            }
            match lasting_key(value) {
                Some(key) => (item, Some(memo.part(Part::Scalar(key)))),
                None => (item, None),
            }
        },
    }
}

fn list_keys(items: &Vec<Value>, memo: &mut IgnoreOrderMemo<'_>) -> (keys: Vec<(usize, ())>)
    requires
        old(memo).well_formed(),
    ensures
        final(memo).well_formed(),
        final(memo).table() == old(memo).table(),
        (final(memo)@, keys@) == keys_of(old(memo)@, views(items@), items@.len() as int),
        old(memo)@.items.len() <= final(memo)@.items.len(),
    decreases total(views(items@)), 1int,
{
    let ghost all: Seq<Val> = views(items@);
    let ghost m: MemoVal = memo@;
    let mut keys: Vec<(usize, ())> = Vec::new();
    let mut i: usize = 0;
    proof {
        assert(pair_views(keys@) =~= seq![]);
    }
    while i < items.len()
        invariant
            i <= items.len(),
            all == views(items@),
            memo.well_formed(),
            memo.table() == old(memo).table(),
            (memo@, keys@) == keys_of(m, all, i as int),
            m.items.len() <= memo@.items.len(),
            ascending::<usize, ()>(pair_views(keys@)),
        decreases items.len() - i,
    {
        proof {
            lemma_member(all, i as int);
        }
        let (item, _) = keyed(&items[i], false, memo);
        let ghost before: Keys = keys@;
        proof {
            assert(pair_views(before) =~= before);
        }
        put_pair(&mut keys, item, ());
        proof {
            assert(pair_views(keys@) =~= keys@);
        }
        i = i + 1;
    }
    keys
}

fn set_keys(items: &SetItems, memo: &mut IgnoreOrderMemo<'_>) -> (keys: Vec<(usize, ())>)
    requires
        old(memo).well_formed(),
    ensures
        final(memo).well_formed(),
        final(memo).table() == old(memo).table(),
        (final(memo)@, keys@) == keys_of(old(memo)@, items@, items@.len() as int),
        old(memo)@.items.len() <= final(memo)@.items.len(),
    decreases total(items@), 1int,
{
    let ghost m: MemoVal = memo@;
    let mut keys: Vec<(usize, ())> = Vec::new();
    let mut i: usize = 0;
    proof {
        assert(pair_views(keys@) =~= seq![]);
    }
    while i < items.len()
        invariant
            i <= items@.len(),
            memo.well_formed(),
            memo.table() == old(memo).table(),
            (memo@, keys@) == keys_of(m, items@, i as int),
            m.items.len() <= memo@.items.len(),
            ascending::<usize, ()>(pair_views(keys@)),
        decreases items@.len() - i,
    {
        proof {
            lemma_member(items@, i as int);
        }
        let (item, _) = keyed(items.get(i), false, memo);
        proof {
            assert(pair_views(keys@) =~= keys@);
        }
        put_pair(&mut keys, item, ());
        proof {
            assert(pair_views(keys@) =~= keys@);
        }
        i = i + 1;
    }
    keys
}

fn tuple_keyed(items: &Vec<Value>, memo: &mut IgnoreOrderMemo<'_>) -> (result: (
    usize,
    Option<usize>,
))
    requires
        old(memo).well_formed(),
    ensures
        final(memo).well_formed(),
        final(memo).table() == old(memo).table(),
        (final(memo)@, result.0, result.1) == keyed_of(
            old(memo)@,
            Val::Tuple(views(items@)),
            false,
        ),
        result.0 < final(memo)@.items.len(),
        old(memo)@.items.len() <= final(memo)@.items.len(),
    decreases total(views(items@)), 1int,
{
    let ghost all: Seq<Val> = views(items@);
    let ghost m: MemoVal = memo@;
    let mut keys: Vec<(usize, ())> = Vec::new();
    let mut parts: Vec<usize> = Vec::new();
    let mut hashable: bool = true;
    let mut i: usize = 0;
    proof {
        assert(pair_views(keys@) =~= seq![]);
    }
    while i < items.len()
        invariant
            i <= items.len(),
            all == views(items@),
            memo.well_formed(),
            memo.table() == old(memo).table(),
            memo@ == tuple_keys(m, all, i as int).0,
            keys@ == tuple_keys(m, all, i as int).1,
            tuple_keys(m, all, i as int).2 is Some <==> hashable,
            hashable ==> parts@ == tuple_keys(m, all, i as int).2->Some_0,
            m.items.len() <= memo@.items.len(),
            ascending::<usize, ()>(pair_views(keys@)),
        decreases items.len() - i,
    {
        proof {
            lemma_member(all, i as int);
        }
        let (item, part) = keyed(&items[i], hashable, memo);
        proof {
            assert(pair_views(keys@) =~= keys@);
        }
        put_pair(&mut keys, item, ());
        proof {
            assert(pair_views(keys@) =~= keys@);
        }
        match part {
            Some(part) => {
                if hashable {
                    parts.push(part);
                }
            },
            None => {
                hashable = false;
            },
        }
        i = i + 1;
    }
    if !hashable {
        return (memo.item(ItemNode::Tuple(keys)), None);
    }
    let (tuple, item) = memo.tuple_digest(parts, keys);
    let part: usize = memo.part(Part::Tuple(tuple));
    (item, Some(part))
}

/// The keys of the items of an object's entries.
pub fn object_keys(object: &Object, memo: &mut IgnoreOrderMemo<'_>) -> (pairs: Vec<(usize, usize)>)
    requires
        old(memo).well_formed(),
    ensures
        final(memo).well_formed(),
        final(memo).table() == old(memo).table(),
        (final(memo)@, pairs@) == entry_keys(
            old(memo)@,
            object@.entries,
            object@.entries.len() as int,
        ),
        old(memo)@.items.len() <= final(memo)@.items.len(),
    decreases total_entries(object@.entries), 1int,
{
    let ghost entries: Seq<(KeyVal, Val)> = object@.entries;
    let ghost m: MemoVal = memo@;
    let mut pairs: Vec<(usize, usize)> = Vec::new();
    let mut i: usize = 0;
    proof {
        assert(pair_views(pairs@) =~= seq![]);
    }
    while i < object.len()
        invariant
            i <= entries.len(),
            entries == object@.entries,
            memo.well_formed(),
            memo.table() == old(memo).table(),
            (memo@, pairs@) == entry_keys(m, entries, i as int),
            m.items.len() <= memo@.items.len(),
            ascending::<usize, usize>(pair_views(pairs@)),
        decreases entries.len() - i,
    {
        proof {
            lemma_entry_member(entries, i as int);
        }
        let key: usize = object_key_item_key(object.key_at(i), memo);
        let (item, _) = keyed(object.value_at(i), false, memo);
        proof {
            assert(pair_views(pairs@) =~= pairs@);
        }
        put_pair(&mut pairs, key, item);
        proof {
            assert(pair_views(pairs@) =~= pairs@);
        }
        i = i + 1;
    }
    pairs
}

/// The key of the item of an entry's key.
pub fn object_key_item_key(key: &ObjectKey, memo: &mut IgnoreOrderMemo<'_>) -> (item: usize)
    requires
        old(memo).well_formed(),
    ensures
        final(memo).well_formed(),
        final(memo).table() == old(memo).table(),
        (final(memo)@, item) == key_item(old(memo)@, key@),
        item < final(memo)@.items.len(),
        old(memo)@.items.len() <= final(memo)@.items.len(),
    decreases key_weight(key@), 1int,
{
    match key {
        ObjectKey::Str(s) => memo.item(ItemNode::Str(s.clone())),
        ObjectKey::Other(value) => {
            let (item, _) = keyed(value, false, memo);
            item
        },
    }
}

/// The key of a value's item.
pub fn item_key(value: &Value, memo: &mut IgnoreOrderMemo<'_>) -> (item: usize)
    requires
        old(memo).well_formed(),
    ensures
        final(memo).well_formed(),
        final(memo).table() == old(memo).table(),
        (final(memo)@, item) == item_of(old(memo)@, value@),
        item < final(memo)@.items.len(),
        old(memo)@.items.len() <= final(memo)@.items.len(),
{
    let (item, _) = keyed(value, false, memo);
    item
}

// ---------------------------------------------------------------------
// Lists of items
// ---------------------------------------------------------------------

/// The model of a [`HashedList`].
#[verifier::ext_equal]
pub struct HashedVal {
    /// The keys of the items, each once, in the order of the list.
    pub keys: Seq<usize>,
    /// The position of the first item with each key.
    pub firsts: Seq<usize>,
}

/// The keys of the first `count` items of a list.
pub open spec fn hashed(m: MemoVal, items: Seq<Val>, count: int) -> (MemoVal, HashedVal)
    decreases count,
{
    if count <= 0 {
        (m, HashedVal { keys: seq![], firsts: seq![] })
    } else {
        let (n, list) = hashed(m, items, count - 1);
        let (n, key) = item_of(n, items[count - 1]);
        if list.keys.contains(key) {
            (n, list)
        } else {
            (
                n,
                HashedVal {
                    keys: list.keys.push(key),
                    firsts: list.firsts.push((count - 1) as usize),
                },
            )
        }
    }
}

/// The keys of a list's items, and where each is met first.
#[derive(Debug)]
pub struct HashedList {
    table: Interner<usize>,
    firsts: Vec<usize>,
}

impl View for HashedList {
    type V = HashedVal;

    closed spec fn view(&self) -> HashedVal {
        HashedVal { keys: self.table@, firsts: self.firsts@ }
    }
}

impl HashedList {
    /// Whether the keys can be found.
    pub closed spec fn well_formed(&self) -> bool {
        self.table.well_formed()
    }

    /// The keys of a list's items.
    pub fn build(items: &Vec<Value>, memo: &mut IgnoreOrderMemo<'_>) -> (list: Self)
        requires
            old(memo).well_formed(),
        ensures
            final(memo).well_formed(),
            final(memo).table() == old(memo).table(),
            list.well_formed(),
            (final(memo)@, list@) == hashed(old(memo)@, views(items@), items@.len() as int),
            list@.keys.len() == list@.firsts.len(),
            forall|k: int|
                0 <= k < list@.firsts.len() ==> (#[trigger] list@.firsts[k]) < items@.len(),
            forall|k: int|
                0 <= k < list@.keys.len() ==> (#[trigger] list@.keys[k]) < final(memo)@.items.len(),
            old(memo)@.items.len() <= final(memo)@.items.len(),
    {
        let ghost all: Seq<Val> = views(items@);
        let ghost m: MemoVal = memo@;
        let mut table: Interner<usize> = Interner::new();
        let mut firsts: Vec<usize> = Vec::new();
        let mut i: usize = 0;
        proof {
            assert(HashedVal { keys: table@, firsts: firsts@ } =~= hashed(m, all, 0).1);
        }
        while i < items.len()
            invariant
                i <= items.len(),
                all == views(items@),
                memo.well_formed(),
                memo.table() == old(memo).table(),
                table.well_formed(),
                memo@ == hashed(m, all, i as int).0,
                (HashedVal { keys: table@, firsts: firsts@ }) == hashed(m, all, i as int).1,
                table@.len() == firsts@.len(),
                forall|k: int| 0 <= k < firsts@.len() ==> (#[trigger] firsts@[k]) < items@.len(),
                forall|k: int|
                    0 <= k < table@.len() ==> (#[trigger] table@[k]) < memo@.items.len(),
                m.items.len() <= memo@.items.len(),
            decreases items.len() - i,
        {
            let key: usize = item_key(&items[i], memo);
            match table.find(&key) {
                Some(_) => {},
                None => {
                    let _: usize = table.insert(key);
                    firsts.push(i);
                    proof {
                        assert(HashedVal { keys: table@, firsts: firsts@ } =~= hashed(
                            m,
                            all,
                            i as int + 1,
                        ).1);
                    }
                },
            }
            i = i + 1;
        }
        HashedList { table, firsts }
    }

    /// The number of keys.
    pub fn len(&self) -> (len: usize)
        ensures
            len == self@.keys.len(),
    {
        self.table.len()
    }

    /// A key by its place among the keys.
    pub fn key(&self, i: usize) -> (key: usize)
        requires
            i < self@.keys.len(),
        ensures
            key == self@.keys[i as int],
    {
        *self.table.get(i)
    }

    /// The position of the first item with a key.
    pub fn first(&self, i: usize) -> (position: usize)
        requires
            i < self@.firsts.len(),
        ensures
            position == self@.firsts[i as int],
    {
        self.firsts[i]
    }

    /// Whether an item of the list has the key.
    pub fn contains(&self, key: usize) -> (result: bool)
        requires
            self.well_formed(),
        ensures
            result == self@.keys.contains(key),
    {
        match self.table.find(&key) {
            Some(_) => true,
            None => false,
        }
    }
}

/// The places of the keys of one list, among the first `count`, that another
/// list lacks.
pub open spec fn lacking(list: HashedVal, other: HashedVal, count: int) -> Seq<usize>
    decreases count,
{
    if count <= 0 {
        seq![]
    } else if other.keys.contains(list.keys[count - 1]) {
        lacking(list, other, count - 1)
    } else {
        lacking(list, other, count - 1).push((count - 1) as usize)
    }
}

/// The places of the keys of one list that another lacks.
pub fn places_lacking(list: &HashedList, other: &HashedList) -> (places: Vec<usize>)
    requires
        other.well_formed(),
    ensures
        places@ == lacking(list@, other@, list@.keys.len() as int),
        forall|k: int| 0 <= k < places@.len() ==> (#[trigger] places@[k]) < list@.keys.len(),
{
    let mut places: Vec<usize> = Vec::new();
    let mut i: usize = 0;
    while i < list.len()
        invariant
            i <= list@.keys.len(),
            other.well_formed(),
            places@ == lacking(list@, other@, i as int),
            forall|k: int| 0 <= k < places@.len() ==> (#[trigger] places@[k]) < list@.keys.len(),
        decreases list@.keys.len() - i,
    {
        if !other.contains(list.key(i)) {
            places.push(i);
        }
        i = i + 1;
    }
    places
}

} // verus!
