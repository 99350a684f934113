//! The values that are compared: what JSON can express, and beyond it Python's
//! calendar types, tuples, sets, and dicts and objects of every kind.

use vstd::prelude::*;

use crate::datetime::{Date, DateTime, Time, TimeDelta};
use crate::float::is_finite;
use crate::order::{put_pairs, Ordered, Place};

#[allow(unused_imports)]
use crate::canonical::{key_place, val_place};
#[allow(unused_imports)]
use crate::float::finite;
#[allow(unused_imports)]
use crate::order::{ascending, lookup, pair_views, put_all};

verus! {

// ---------------------------------------------------------------------
// Models
// ---------------------------------------------------------------------

/// The model of a [`Value`].
pub enum Val {
    Null,
    Bool(bool),
    Number(Number),
    Str(Seq<char>),
    DateTime(DateTime),
    Date(Date),
    Time(Time),
    TimeDelta(TimeDelta),
    Array(Seq<Val>),
    Tuple(Seq<Val>),
    MutableSet(Seq<Val>),
    FrozenSet(Seq<Val>),
    Object(ObjectVal),
}

/// The model of an [`Object`].
pub struct ObjectVal {
    pub kind: ObjectKind,
    pub class_name: Seq<char>,
    pub identity: Seq<char>,
    pub entries: Seq<(KeyVal, Val)>,
}

/// The model of an [`ObjectKey`].
pub enum KeyVal {
    Str(Seq<char>),
    Other(Box<Val>),
}

// ---------------------------------------------------------------------
// Numbers
// ---------------------------------------------------------------------

/// A double-precision number, as its bit pattern.
#[derive(Debug, Clone, Copy, PartialEq, Eq, Structural)]
pub struct Float {
    pub bits: u64,
}

/// A Python `int` or `float`.
#[derive(Debug, Clone, Copy, PartialEq, Eq, Structural)]
pub enum Number {
    Int(i64),
    Uint(u64),
    Float(Float),
}

impl Number {
    /// Whether the number is a float.
    pub open spec fn is_float(self) -> bool {
        self is Float
    }

    /// The integer that a number other than a float is.
    pub open spec fn integer(self) -> int {
        match self {
            Number::Int(n) => n as int,
            Number::Uint(n) => n as int,
            Number::Float(_) => 0,
        }
    }

    /// An integer.
    pub fn from_i64(n: i64) -> (number: Self)
        ensures
            !number.is_float(),
            number.integer() == n,
            number is Int,
    {
        Number::Int(n)
    }

    /// An integer; one that fits the signed type is held in it.
    pub fn from_u64(n: u64) -> (number: Self)
        ensures
            !number.is_float(),
            number.integer() == n,
            number is Int <==> n <= i64::MAX,
    {
        if n <= 0x7fff_ffff_ffff_ffff {
            Number::Int(n as i64)
        } else {
            Number::Uint(n)
        }
    }

    /// The float of a bit pattern; `None` unless it is finite.
    pub fn from_f64(bits: u64) -> (number: Option<Self>)
        ensures
            number == (if finite(bits) {
                Some(Number::Float(Float { bits }))
            } else {
                None
            }),
    {
        if is_finite(bits) {
            Some(Number::Float(Float { bits }))
        } else {
            None
        }
    }

    /// Whether the number is a float.
    pub fn is_f64(self) -> (result: bool)
        ensures
            result == self.is_float(),
    {
        match self {
            Number::Float(_) => true,
            _ => false,
        }
    }

    /// The integer, `None` for a float.
    pub fn as_i128(self) -> (result: Option<i128>)
        ensures
            result.is_some() == !self.is_float(),
            result matches Some(n) ==> n == self.integer(),
            result matches Some(n) ==> i64::MIN <= n <= u64::MAX,
    {
        match self {
            Number::Int(n) => Some(n as i128),
            Number::Uint(n) => Some(n as i128),
            Number::Float(_) => None,
        }
    }
}

// ---------------------------------------------------------------------
// Values
// ---------------------------------------------------------------------

/// A value of the shapes that Python's JSON and calendar types have, and
/// tuples, sets and objects.
#[derive(Debug)]
pub enum Value {
    Null,
    Bool(bool),
    Number(Number),
    Str(String),
    DateTime(DateTime),
    Date(Date),
    Time(Time),
    TimeDelta(TimeDelta),
    Array(Vec<Value>),
    Tuple(Vec<Value>),
    MutableSet(SetItems),
    FrozenSet(SetItems),
    Object(Object),
}

/// What kind of thing an [`Object`] stands for.
#[derive(Debug, Clone, Copy, PartialEq, Eq, Structural)]
pub enum ObjectKind {
    /// A `dict`.
    Dict,
    /// An object that is compared attribute by attribute.
    CustomObject,
    /// A token for an object that was not converted.
    Opaque,
    /// A token for an object that encloses it.
    Cycle,
    /// An object whose conversion failed part of the way.
    Failed,
}

/// A key of an [`Object`].
#[derive(Debug)]
pub enum ObjectKey {
    Str(String),
    Other(Box<Value>),
}

/// A `dict`, or an object seen as one of its attributes: entries in the order
/// of their keys, no key twice.
#[derive(Debug)]
pub struct Object {
    kind: ObjectKind,
    class_name: String,
    identity: String,
    entries: Vec<(ObjectKey, Value)>,
}

/// The members of a `set` or `frozenset`: in a fixed order, none twice.
#[derive(Debug)]
pub struct SetItems {
    members: Vec<(Value, ())>,
}

/// The models of a list of values.
pub open spec fn views(items: Seq<Value>) -> Seq<Val>
    decreases items,
{
    Seq::new(
        items.len(),
        |i: int|
            if 0 <= i < items.len() {
                items[i].model()
            } else {
                arbitrary()
            },
    )
}

/// The models of the members of a set.
pub open spec fn member_views(members: Seq<(Value, ())>) -> Seq<Val>
    decreases members,
{
    Seq::new(
        members.len(),
        |i: int|
            if 0 <= i < members.len() {
                members[i].0.model()
            } else {
                arbitrary()
            },
    )
}

/// The models of the entries of an object.
pub open spec fn entry_views(entries: Seq<(ObjectKey, Value)>) -> Seq<(KeyVal, Val)>
    decreases entries,
{
    Seq::new(
        entries.len(),
        |i: int|
            if 0 <= i < entries.len() {
                (entries[i].0.model(), entries[i].1.model())
            } else {
                arbitrary()
            },
    )
}

impl Value {
    /// The model of the value.
    pub open spec fn model(&self) -> Val
        decreases self,
    {
        match self {
            Value::Null => Val::Null,
            Value::Bool(b) => Val::Bool(*b),
            Value::Number(n) => Val::Number(*n),
            Value::Str(s) => Val::Str(s@),
            Value::DateTime(d) => Val::DateTime(*d),
            Value::Date(d) => Val::Date(*d),
            Value::Time(t) => Val::Time(*t),
            Value::TimeDelta(d) => Val::TimeDelta(*d),
            Value::Array(items) => Val::Array(views(items@)),
            Value::Tuple(items) => Val::Tuple(views(items@)),
            Value::MutableSet(items) => Val::MutableSet(items.model()),
            Value::FrozenSet(items) => Val::FrozenSet(items.model()),
            Value::Object(object) => Val::Object(object.model()),
        }
    }
}

impl ObjectKey {
    /// The model of the key.
    pub open spec fn model(&self) -> KeyVal
        decreases self,
    {
        match self {
            ObjectKey::Str(s) => KeyVal::Str(s@),
            ObjectKey::Other(value) => KeyVal::Other(Box::new(value.model())),
        }
    }
}

impl SetItems {
    /// The models of the members.
    pub closed spec fn model(&self) -> Seq<Val>
        decreases self,
    {
        member_views(self.members@)
    }
}

impl Object {
    /// The model of the object.
    pub closed spec fn model(&self) -> ObjectVal
        decreases self,
    {
        ObjectVal {
            kind: self.kind,
            class_name: self.class_name@,
            identity: self.identity@,
            entries: entry_views(self.entries@),
        }
    }
}

impl View for Value {
    type V = Val;

    open spec fn view(&self) -> Val {
        self.model()
    }
}

impl View for ObjectKey {
    type V = KeyVal;

    open spec fn view(&self) -> KeyVal {
        self.model()
    }
}

impl View for SetItems {
    type V = Seq<Val>;

    open spec fn view(&self) -> Seq<Val> {
        self.model()
    }
}

impl View for Object {
    type V = ObjectVal;

    open spec fn view(&self) -> ObjectVal {
        self.model()
    }
}

// ---------------------------------------------------------------------
// Keys
// ---------------------------------------------------------------------

impl Ordered for Value {
    open spec fn place(a: Val, b: Val) -> Place {
        val_place(a, b)
    }

    proof fn lemma_total(a: Val, b: Val) {
        crate::canonical::lemma_val_place(a, b);
    }

    proof fn lemma_transitive(a: Val, b: Val, c: Val) {
        crate::canonical::lemma_val_transitive(a, b, c);
    }

    fn order(&self, other: &Self) -> (place: Place) {
        crate::canonical::order_values(self, other)
    }
}

impl Ordered for ObjectKey {
    open spec fn place(a: KeyVal, b: KeyVal) -> Place {
        key_place(a, b)
    }

    proof fn lemma_total(a: KeyVal, b: KeyVal) {
        crate::canonical::lemma_key_place(a, b);
    }

    proof fn lemma_transitive(a: KeyVal, b: KeyVal, c: KeyVal) {
        crate::canonical::lemma_key_transitive(a, b, c);
    }

    fn order(&self, other: &Self) -> (place: Place) {
        crate::canonical::order_keys(self, other)
    }
}

// ---------------------------------------------------------------------
// Sets
// ---------------------------------------------------------------------

/// The members as keys of nothing.
pub open spec fn as_members(items: Seq<Val>) -> Seq<(Val, ())> {
    Seq::new(items.len(), |i: int| (items[i], ()))
}

/// The members that a list of values makes: in their order, each once.
pub open spec fn set_of(items: Seq<Val>) -> Seq<Val> {
    put_all::<Value, ()>(seq![], as_members(items)).map_values(|member: (Val, ())| member.0)
}

impl SetItems {
    #[verifier::type_invariant]
    spec fn well_formed(self) -> bool {
        ascending::<Value, ()>(pair_views(self.members@))
    }

    /// The members of a list of values, in a fixed order, each once.
    pub fn new(items: Vec<Value>) -> (set: Self)
        ensures
            set@ == set_of(views(items@)),
    {
        let ghost given: Seq<Val> = views(items@);
        let mut members: Vec<(Value, ())> = Vec::new();
        let mut rest: Vec<Value> = items;
        let mut backward: Vec<Value> = Vec::new();
        while rest.len() > 0
            invariant
                views(rest@) + views(backward@).reverse() =~= given,
            decreases rest.len(),
        {
            let ghost before: Seq<Value> = rest@;
            let ghost moved: Seq<Value> = backward@;
            if let Some(item) = rest.pop() {
                backward.push(item);
                proof {
                    assert(views(before) =~= views(rest@).push(item@));
                    assert(views(backward@) =~= views(moved).push(item@));
                }
            }
        }
        let mut pairs: Vec<(Value, ())> = Vec::new();
        while backward.len() > 0
            invariant
                pair_views(pairs@).map_values(|member: (Val, ())| member.0) + views(
                    backward@,
                ).reverse() =~= given,
            decreases backward.len(),
        {
            let ghost before: Seq<Value> = backward@;
            let ghost moved: Seq<(Value, ())> = pairs@;
            if let Some(item) = backward.pop() {
                pairs.push((item, ()));
                proof {
                    assert(views(before) =~= views(backward@).push(item@));
                    assert(pair_views(pairs@) =~= pair_views(moved).push((item@, ())));
                }
            }
        }
        proof {
            assert(pair_views(pairs@) =~= as_members(given)) by {
                let firsts: Seq<Val> = pair_views(pairs@).map_values(
                    |member: (Val, ())| member.0,
                );
                assert(firsts =~= given);
                assert forall|i: int| 0 <= i < pairs@.len() implies pair_views(pairs@)[i]
                    == as_members(given)[i] by {
                    assert(firsts[i] == given[i]);
                }
            }
            assert(pair_views(members@) =~= seq![]);
        }
        put_pairs(&mut members, pairs);
        proof {
            assert(member_views(members@) =~= pair_views(members@).map_values(
                |member: (Val, ())| member.0,
            ));
        }
        SetItems { members }
    }

    /// The number of members.
    pub fn len(&self) -> (len: usize)
        ensures
            len == self@.len(),
    {
        self.members.len()
    }

    /// Whether there are no members.
    pub fn is_empty(&self) -> (empty: bool)
        ensures
            empty == (self@.len() == 0),
    {
        self.members.len() == 0
    }

    /// The member at a position.
    pub fn get(&self, i: usize) -> (item: &Value)
        requires
            i < self@.len(),
        ensures
            item@ == self@[i as int],
    {
        &self.members[i].0
    }

    /// The members, as a list.
    pub fn to_vec(&self) -> (items: Vec<Value>)
        ensures
            views(items@) == self@,
    {
        let mut items: Vec<Value> = Vec::new();
        let mut i: usize = 0;
        while i < self.members.len()
            invariant
                i <= self.members.len(),
                self.members.len() == self@.len(),
                views(items@) =~= self@.take(i as int),
            decreases self.members.len() - i,
        {
            let item: Value = self.members[i].0.duplicate();
            let ghost before: Seq<Value> = items@;
            items.push(item);
            assert(views(items@) =~= views(before).push(item@));
            i = i + 1;
        }
        assert(self@.take(i as int) =~= self@);
        items
    }

    /// A copy.
    pub fn duplicate(&self) -> (copy: Self)
        ensures
            copy@ == self@,
        decreases self,
    {
        proof {
            use_type_invariant(self);
        }
        let mut members: Vec<(Value, ())> = Vec::new();
        let mut i: usize = 0;
        while i < self.members.len()
            invariant
                i <= self.members.len(),
                pair_views(members@) =~= pair_views(self.members@).take(i as int),
            decreases self.members.len() - i,
        {
            let ghost before: Seq<(Value, ())> = members@;
            let item: Value = self.members[i].0.duplicate();
            members.push((item, ()));
            assert(pair_views(members@) =~= pair_views(before).push((item@, ())));
            i = i + 1;
        }
        proof {
            assert(pair_views(members@) =~= pair_views(self.members@));
            assert(member_views(members@) =~= member_views(self.members@)) by {
                assert forall|j: int| 0 <= j < members@.len() implies member_views(members@)[j]
                    == member_views(self.members@)[j] by {
                    assert(pair_views(members@)[j] == pair_views(self.members@)[j]);
                }
            }
        }
        SetItems { members }
    }
}

// ---------------------------------------------------------------------
// Objects
// ---------------------------------------------------------------------

impl ObjectKey {
    /// A copy.
    pub fn duplicate(&self) -> (copy: Self)
        ensures
            copy@ == self@,
        decreases self,
    {
        match self {
            ObjectKey::Str(s) => ObjectKey::Str(s.clone()),
            ObjectKey::Other(value) => ObjectKey::Other(Box::new((&**value).duplicate())),
        }
    }
}

impl Object {
    #[verifier::type_invariant]
    spec fn well_formed(self) -> bool {
        ascending::<ObjectKey, Val>(pair_views(self.entries@))
    }

    /// An object of any kind; of two entries with one key the later one stays.
    pub fn new(
        kind: ObjectKind,
        class_name: String,
        identity: String,
        pairs: Vec<(ObjectKey, Value)>,
    ) -> (object: Self)
        ensures
            object@ == (ObjectVal {
                kind,
                class_name: class_name@,
                identity: identity@,
                entries: put_all::<ObjectKey, Val>(seq![], pair_views(pairs@)),
            }),
    {
        let mut entries: Vec<(ObjectKey, Value)> = Vec::new();
        proof {
            assert(pair_views(entries@) =~= seq![]);
        }
        put_pairs(&mut entries, pairs);
        proof {
            assert(entry_views(entries@) =~= pair_views(entries@));
        }
        Object { kind, class_name, identity, entries }
    }

    /// A `dict`; of two entries with one key the later one stays.
    pub fn from_pairs(pairs: Vec<(ObjectKey, Value)>) -> (object: Self)
        ensures
            object@ == dict_of(pair_views(pairs@)),
    {
        Object::new(ObjectKind::Dict, String::new(), String::new(), pairs)
    }

    /// What kind of thing the object stands for.
    pub fn kind(&self) -> (kind: ObjectKind)
        ensures
            kind == self@.kind,
    {
        self.kind
    }

    /// The name of the object's class; empty for a `dict`.
    pub fn class_name(&self) -> (name: &String)
        ensures
            name@ == self@.class_name,
    {
        &self.class_name
    }

    /// What identifies the object; empty where nothing does.
    pub fn identity(&self) -> (identity: &String)
        ensures
            identity@ == self@.identity,
    {
        &self.identity
    }

    /// The number of entries.
    pub fn len(&self) -> (len: usize)
        ensures
            len == self@.entries.len(),
    {
        self.entries.len()
    }

    /// Whether there are no entries.
    pub fn is_empty(&self) -> (empty: bool)
        ensures
            empty == (self@.entries.len() == 0),
    {
        self.entries.len() == 0
    }

    /// The key at a position.
    pub fn key_at(&self, i: usize) -> (key: &ObjectKey)
        requires
            i < self@.entries.len(),
        ensures
            key@ == self@.entries[i as int].0,
    {
        &self.entries[i].0
    }

    /// The value at a position.
    pub fn value_at(&self, i: usize) -> (value: &Value)
        requires
            i < self@.entries.len(),
        ensures
            value@ == self@.entries[i as int].1,
    {
        &self.entries[i].1
    }

    /// The position of a key.
    pub fn position(&self, key: &ObjectKey) -> (found: Option<usize>)
        ensures
            match found {
                Some(i) => i < self@.entries.len() && self@.entries[i as int].0 == key@
                    && crate::order::lookup(self@.entries, key@) == Some(
                    self@.entries[i as int].1,
                ) && (forall|j: int|
                    0 <= j < self@.entries.len() && j != i ==> (#[trigger] self@.entries[j]).0
                        != key@),
                None => crate::order::lookup(self@.entries, key@) is None,
            },
    {
        proof {
            use_type_invariant(self);
            assert(entry_views(self.entries@) =~= pair_views(self.entries@));
        }
        let found: Option<usize> = crate::order::find_pair(&self.entries, key);
        proof {
            if let Some(i) = found {
                let entries: Seq<(KeyVal, Val)> = self@.entries;
                assert forall|j: int| 0 <= j < entries.len() && j != i implies (
                #[trigger] entries[j]).0 != key@ by {
                    let at: int = i as int;
                    ObjectKey::lemma_total(entries[j].0, entries[at].0);
                    if j < at {
                        assert(ObjectKey::place(entries[j].0, entries[at].0) == Place::Before);
                    } else {
                        assert(ObjectKey::place(entries[at].0, entries[j].0) == Place::Before);
                    }
                }
            }
        }
        found
    }

    /// Whether there is an entry under a key.
    pub fn contains_key(&self, key: &ObjectKey) -> (found: bool)
        ensures
            found == (crate::order::lookup(self@.entries, key@) is Some),
    {
        self.position(key).is_some()
    }

    /// A copy.
    pub fn duplicate(&self) -> (copy: Self)
        ensures
            copy@ == self@,
        decreases self,
    {
        proof {
            use_type_invariant(self);
        }
        let mut entries: Vec<(ObjectKey, Value)> = Vec::new();
        let mut i: usize = 0;
        while i < self.entries.len()
            invariant
                i <= self.entries.len(),
                pair_views(entries@) =~= pair_views(self.entries@).take(i as int),
            decreases self.entries.len() - i,
        {
            let key: ObjectKey = self.entries[i].0.duplicate();
            let value: Value = self.entries[i].1.duplicate();
            let ghost before: Seq<(ObjectKey, Value)> = entries@;
            entries.push((key, value));
            assert(pair_views(entries@) =~= pair_views(before).push((key@, value@)));
            i = i + 1;
        }
        proof {
            assert(pair_views(entries@) =~= pair_views(self.entries@));
            assert(entry_views(entries@) =~= pair_views(entries@));
            assert(entry_views(self.entries@) =~= pair_views(self.entries@));
        }
        Object {
            kind: self.kind,
            class_name: self.class_name.clone(),
            identity: self.identity.clone(),
            entries,
        }
    }
}

/// The `dict` that a list of entries makes.
pub open spec fn dict_of(pairs: Seq<(KeyVal, Val)>) -> ObjectVal {
    ObjectVal {
        kind: ObjectKind::Dict,
        class_name: seq![],
        identity: seq![],
        entries: put_all::<ObjectKey, Val>(seq![], pairs),
    }
}

impl Value {
    /// A copy.
    pub fn duplicate(&self) -> (copy: Self)
        ensures
            copy@ == self@,
        decreases self,
    {
        match self {
            Value::Null => Value::Null,
            Value::Bool(b) => Value::Bool(*b),
            Value::Number(n) => Value::Number(*n),
            Value::Str(s) => Value::Str(s.clone()),
            Value::DateTime(d) => Value::DateTime(*d),
            Value::Date(d) => Value::Date(*d),
            Value::Time(t) => Value::Time(*t),
            Value::TimeDelta(d) => Value::TimeDelta(*d),
            Value::Array(items) => Value::Array(duplicate_all(items)),
            Value::Tuple(items) => Value::Tuple(duplicate_all(items)),
            Value::MutableSet(items) => Value::MutableSet(items.duplicate()),
            Value::FrozenSet(items) => Value::FrozenSet(items.duplicate()),
            Value::Object(object) => Value::Object(object.duplicate()),
        }
    }
}

/// A copy of each value.
pub fn duplicate_all(items: &Vec<Value>) -> (copies: Vec<Value>)
    ensures
        views(copies@) == views(items@),
    decreases items,
{
    let mut copies: Vec<Value> = Vec::new();
    let mut i: usize = 0;
    while i < items.len()
        invariant
            i <= items.len(),
            views(copies@) =~= views(items@).take(i as int),
        decreases items.len() - i,
    {
        let ghost before: Seq<Value> = copies@;
        let copy: Value = items[i].duplicate();
        copies.push(copy);
        assert(views(copies@) =~= views(before).push(copy@));
        i = i + 1;
    }
    assert(views(copies@) =~= views(items@));
    copies
}

impl Clone for Value {
    fn clone(&self) -> (copy: Self)
        ensures
            copy@ == self@,
    {
        self.duplicate()
    }
}

impl Clone for ObjectKey {
    fn clone(&self) -> (copy: Self)
        ensures
            copy@ == self@,
    {
        self.duplicate()
    }
}

impl Clone for Object {
    fn clone(&self) -> (copy: Self)
        ensures
            copy@ == self@,
    {
        self.duplicate()
    }
}

impl Clone for SetItems {
    fn clone(&self) -> (copy: Self)
        ensures
            copy@ == self@,
    {
        self.duplicate()
    }
}

/// The entries of a list of named values.
pub open spec fn named(entries: Seq<(String, Value)>) -> Seq<(KeyVal, Val)> {
    Seq::new(entries.len(), |i: int| (KeyVal::Str(entries[i].0@), entries[i].1@))
}

/// Makes values that hold others.
#[derive(Debug, Clone, Copy)]
pub struct Builder;

impl Builder {
    /// A builder.
    pub fn new() -> Self {
        Builder
    }

    /// A `dict` of named values; of two with one name the later one stays.
    pub fn object(&mut self, entries: Vec<(String, Value)>) -> (value: Value)
        ensures
            value@ == Val::Object(dict_of(named(entries@))),
    {
        let ghost given: Seq<(KeyVal, Val)> = named(entries@);
        let mut rest: Vec<(String, Value)> = entries;
        let mut backward: Vec<(ObjectKey, Value)> = Vec::new();
        while rest.len() > 0
            invariant
                named(rest@) + pair_views(backward@).reverse() =~= given,
            decreases rest.len(),
        {
            let ghost before: Seq<(String, Value)> = rest@;
            let ghost moved: Seq<(ObjectKey, Value)> = backward@;
            if let Some(entry) = rest.pop() {
                let key: ObjectKey = ObjectKey::Str(entry.0);
                backward.push((key, entry.1));
                proof {
                    assert(named(before) =~= named(rest@).push((key@, entry.1@)));
                    assert(pair_views(backward@) =~= pair_views(moved).push((key@, entry.1@)));
                }
            }
        }
        let pairs: Vec<(ObjectKey, Value)> = crate::order::reversed(backward);
        proof {
            assert(pair_views(pairs@) =~= given);
        }
        Value::Object(Object::from_pairs(pairs))
    }
}

// ---------------------------------------------------------------------
// Order
// ---------------------------------------------------------------------

/// The members of a set do not depend on the order or the repetition in which
/// they are given.
pub proof fn lemma_set_order(x: Seq<Val>, y: Seq<Val>)
    requires
        forall|v: Val| x.contains(v) <==> #[trigger] y.contains(v),
    ensures
        set_of(x) == set_of(y),
{
    let p: Seq<(Val, ())> = put_all::<Value, ()>(seq![], as_members(x));
    let q: Seq<(Val, ())> = put_all::<Value, ()>(seq![], as_members(y));
    crate::order::lemma_put_all::<Value, ()>(seq![], as_members(x));
    crate::order::lemma_put_all::<Value, ()>(seq![], as_members(y));
    assert forall|v: Val| #[trigger] lookup(p, v) == lookup(q, v) by {
        lemma_members_found(x, v);
        lemma_members_found(y, v);
        assert(x.contains(v) <==> y.contains(v));
    }
    crate::order::lemma_ascending_identified::<Value, ()>(p, q);
}

proof fn lemma_members_found(items: Seq<Val>, v: Val)
    ensures
        lookup(as_members(items), v) is Some <==> items.contains(v),
{
    crate::order::lemma_lookup(as_members(items), v);
    if items.contains(v) {
        let i: int = choose|i: int| 0 <= i < items.len() && items[i] == v;
        assert(as_members(items)[i].0 == v);
    }
    if lookup(as_members(items), v) is Some {
        let i: int = choose|i: int|
            0 <= i < as_members(items).len() && #[trigger] as_members(items)[i] == (v, ());
        assert(items[i] == v);
    }
}

/// The entries of a dict do not depend on the order in which they are given,
/// each key once.
pub proof fn lemma_dict_order(p: Seq<(KeyVal, Val)>, q: Seq<(KeyVal, Val)>)
    requires
        forall|i: int, j: int|
            0 <= i < p.len() && 0 <= j < p.len() && i != j ==> (#[trigger] p[i]).0 != (
            #[trigger] p[j]).0,
        forall|e: (KeyVal, Val)| p.contains(e) <==> #[trigger] q.contains(e),
    ensures
        dict_of(p) == dict_of(q),
{
    let x: Seq<(KeyVal, Val)> = dict_of(p).entries;
    let y: Seq<(KeyVal, Val)> = dict_of(q).entries;
    crate::order::lemma_put_all::<ObjectKey, Val>(seq![], p);
    crate::order::lemma_put_all::<ObjectKey, Val>(seq![], q);
    assert forall|key: KeyVal| #[trigger] lookup(x, key) == lookup(y, key) by {
        crate::order::lemma_lookup(p, key);
        crate::order::lemma_lookup(q, key);
        match (lookup(p, key), lookup(q, key)) {
            (Some(v), Some(w)) => {
                let i: int = choose|i: int| 0 <= i < p.len() && #[trigger] p[i] == (key, v);
                let j: int = choose|j: int| 0 <= j < q.len() && #[trigger] q[j] == (key, w);
                assert(q.contains((key, w)));
                let k: int = choose|k: int| 0 <= k < p.len() && p[k] == (key, w);
                assert(p[i].0 == p[k].0);
            },
            (Some(v), None) => {
                assert(q.contains((key, v))) by {
                    assert(p.contains((key, v)));
                }
                let j: int = choose|j: int| 0 <= j < q.len() && q[j] == (key, v);
                assert(q[j].0 == key);
            },
            (None, Some(w)) => {
                let j: int = choose|j: int| 0 <= j < q.len() && #[trigger] q[j] == (key, w);
                assert(q.contains((key, w)));
                assert(p.contains((key, w)));
                let k: int = choose|k: int| 0 <= k < p.len() && p[k] == (key, w);
                assert(p[k].0 == key);
            },
            (None, None) => {},
        }
    }
    crate::order::lemma_ascending_identified::<ObjectKey, Val>(x, y);
}

} // verus!
