//! The fixed order of values in which sets hold their members and objects
//! their keys.

use vstd::prelude::*;

use crate::order::{order_ints, order_texts, Place};
use crate::value::{Number, Object, ObjectKey, ObjectKind, SetItems, Value};

#[allow(unused_imports)]
use crate::float::SIGN;
#[allow(unused_imports)]
use crate::order::{
    code_points, flip, int_place, ints_place, lemma_code_points, lemma_ints_place,
    lemma_ints_place_transitive, refine, text_place,
};
#[allow(unused_imports)]
use crate::value::{views, KeyVal, ObjectVal, Val};

verus! {

/// The rank of a value's kind.
pub open spec fn rank(value: Val) -> int {
    match value {
        Val::Null => 0,
        Val::Bool(_) => 1,
        Val::Number(_) => 2,
        Val::Str(_) => 3,
        Val::DateTime(_) => 4,
        Val::Date(_) => 5,
        Val::Time(_) => 6,
        Val::TimeDelta(_) => 7,
        Val::Array(_) => 8,
        Val::Tuple(_) => 9,
        Val::MutableSet(_) => 10,
        Val::FrozenSet(_) => 11,
        Val::Object(_) => 12,
    }
}

/// The rank of an object's kind.
pub open spec fn kind_rank(kind: ObjectKind) -> int {
    match kind {
        ObjectKind::Dict => 0,
        ObjectKind::CustomObject => 1,
        ObjectKind::Opaque => 2,
        ObjectKind::Cycle => 3,
        ObjectKind::Failed => 4,
    }
}

/// The place of a bit pattern on the line of floats, negative zero before zero.
pub open spec fn float_line(bits: u64) -> int {
    if bits >= SIGN {
        SIGN - bits - 1
    } else {
        bits as int
    }
}

/// An offset as two integers.
pub open spec fn offset_code(offset: Option<i32>) -> Seq<int> {
    match offset {
        None => seq![0int, 0],
        Some(seconds) => seq![1int, seconds as int],
    }
}

/// What a scalar is ordered by within its kind.
pub open spec fn code(value: Val) -> Seq<int> {
    match value {
        Val::Bool(b) => seq![
            if b {
                1int
            } else {
                0
            },
        ],
        Val::Number(n) => number_code(n),
        Val::Str(s) => code_points(s),
        Val::DateTime(d) => seq![d.spec_instant()] + offset_code(d.spec_utc_offset_seconds())
            + seq![
            d.spec_date().spec_year() as int,
            d.spec_date().spec_month() as int,
            d.spec_date().spec_day() as int,
            d.spec_hour() as int,
            d.spec_minute() as int,
            d.spec_second() as int,
            d.spec_microsecond() as int,
        ],
        Val::Date(d) => seq![d.spec_year() as int, d.spec_month() as int, d.spec_day() as int],
        Val::Time(t) => seq![
            if t.spec_utc_offset_seconds() is Some {
                1int
            } else {
                0
            },
            t.spec_sort_instant(),
        ] + offset_code(t.spec_utc_offset_seconds()) + seq![
            t.spec_hour() as int,
            t.spec_minute() as int,
            t.spec_second() as int,
            t.spec_microsecond() as int,
        ],
        Val::TimeDelta(d) => seq![
            d.spec_whole_seconds() as int,
            d.spec_subsecond_microseconds() as int,
        ],
        _ => seq![],
    }
}

/// Integers before floats; the former by value, the latter along the line.
pub open spec fn number_code(n: Number) -> Seq<int> {
    match n {
        Number::Int(i) => seq![0int, i as int, 0],
        Number::Uint(i) => seq![0int, i as int, 1],
        Number::Float(f) => seq![1int, float_line(f.bits)],
    }
}

/// The fixed order of values.
pub open spec fn val_place(a: Val, b: Val) -> Place
    decreases a,
{
    refine(
        int_place(rank(a), rank(b)),
        match (a, b) {
            (Val::Array(x), Val::Array(y)) => vals_place(x, y),
            (Val::Tuple(x), Val::Tuple(y)) => vals_place(x, y),
            (Val::MutableSet(x), Val::MutableSet(y)) => vals_place(x, y),
            (Val::FrozenSet(x), Val::FrozenSet(y)) => vals_place(x, y),
            (Val::Object(x), Val::Object(y)) => object_place(x, y),
            _ => ints_place(code(a), code(b)),
        },
    )
}

/// The lexicographic order of lists of values.
pub open spec fn vals_place(a: Seq<Val>, b: Seq<Val>) -> Place
    decreases a,
{
    if a.len() == 0 {
        if b.len() == 0 {
            Place::Same
        } else {
            Place::Before
        }
    } else if b.len() == 0 {
        Place::After
    } else {
        refine(val_place(a[0], b[0]), vals_place(a.drop_first(), b.drop_first()))
    }
}

/// The order of objects: by kind, class, identity and entries.
pub open spec fn object_place(a: ObjectVal, b: ObjectVal) -> Place
    decreases a,
{
    refine(
        int_place(kind_rank(a.kind), kind_rank(b.kind)),
        refine(
            text_place(a.class_name, b.class_name),
            refine(text_place(a.identity, b.identity), entries_place(a.entries, b.entries)),
        ),
    )
}

/// The lexicographic order of lists of entries.
pub open spec fn entries_place(a: Seq<(KeyVal, Val)>, b: Seq<(KeyVal, Val)>) -> Place
    decreases a,
{
    if a.len() == 0 {
        if b.len() == 0 {
            Place::Same
        } else {
            Place::Before
        }
    } else if b.len() == 0 {
        Place::After
    } else {
        refine(
            key_place(a[0].0, b[0].0),
            refine(val_place(a[0].1, b[0].1), entries_place(a.drop_first(), b.drop_first())),
        )
    }
}

/// The order of keys: texts first.
pub open spec fn key_place(a: KeyVal, b: KeyVal) -> Place
    decreases a,
{
    match (a, b) {
        (KeyVal::Str(x), KeyVal::Str(y)) => text_place(x, y),
        (KeyVal::Str(_), KeyVal::Other(_)) => Place::Before,
        (KeyVal::Other(_), KeyVal::Str(_)) => Place::After,
        (KeyVal::Other(x), KeyVal::Other(y)) => val_place(*x, *y),
    }
}

/// Whether the value holds no other values.
pub open spec fn scalar(value: Val) -> bool {
    rank(value) < 8
}

/// Scalars of one kind are equal where their codes are.
proof fn lemma_code(a: Val, b: Val)
    requires
        rank(a) == rank(b),
        scalar(a),
    ensures
        code(a) == code(b) <==> a == b,
{
    if code(a) == code(b) {
        match (a, b) {
            (Val::Bool(_), Val::Bool(_)) => {
                assert(code(a)[0] == code(b)[0]);
            },
            (Val::Number(x), Val::Number(y)) => {
                assert(code(a)[0] == code(b)[0]);
                assert(code(a)[1] == code(b)[1]);
                assert(code(a)[2] == code(b)[2]);
                if x is Float {
                    assert(code(a)[3] == code(b)[3]);
                }
            },
            (Val::Str(x), Val::Str(y)) => {
                lemma_code_points(x, y);
            },
            (Val::DateTime(x), Val::DateTime(y)) => {
                assert(code(a)[1] == code(b)[1]);
                assert(code(a)[2] == code(b)[2]);
                assert(code(a)[3] == code(b)[3]);
                assert(code(a)[4] == code(b)[4]);
                assert(code(a)[5] == code(b)[5]);
                assert(code(a)[6] == code(b)[6]);
                assert(code(a)[7] == code(b)[7]);
                assert(code(a)[8] == code(b)[8]);
                assert(code(a)[9] == code(b)[9]);
                x.spec_date().lemma_fields(y.spec_date());
                x.lemma_fields(y);
            },
            (Val::Date(x), Val::Date(y)) => {
                assert(code(a)[0] == code(b)[0]);
                assert(code(a)[1] == code(b)[1]);
                assert(code(a)[2] == code(b)[2]);
                x.lemma_fields(y);
            },
            (Val::Time(x), Val::Time(y)) => {
                assert(code(a)[2] == code(b)[2]);
                assert(code(a)[3] == code(b)[3]);
                assert(code(a)[4] == code(b)[4]);
                assert(code(a)[5] == code(b)[5]);
                assert(code(a)[6] == code(b)[6]);
                assert(code(a)[7] == code(b)[7]);
                x.lemma_fields(y);
            },
            (Val::TimeDelta(x), Val::TimeDelta(y)) => {
                assert(code(a)[0] == code(b)[0]);
                assert(code(a)[1] == code(b)[1]);
                x.lemma_fields(y);
            },
            _ => {},
        }
    }
}

/// The order of values is total, and ties are equalities.
pub proof fn lemma_val_place(a: Val, b: Val)
    ensures
        val_place(b, a) == flip(val_place(a, b)),
        val_place(a, b) == Place::Same <==> a == b,
    decreases a,
{
    match (a, b) {
        (Val::Array(x), Val::Array(y)) => lemma_vals_place(x, y),
        (Val::Tuple(x), Val::Tuple(y)) => lemma_vals_place(x, y),
        (Val::MutableSet(x), Val::MutableSet(y)) => lemma_vals_place(x, y),
        (Val::FrozenSet(x), Val::FrozenSet(y)) => lemma_vals_place(x, y),
        (Val::Object(x), Val::Object(y)) => lemma_object_place(x, y),
        _ => {
            lemma_ints_place(code(a), code(b));
            if rank(a) == rank(b) {
                lemma_code(a, b);
            }
        },
    }
}

proof fn lemma_vals_place(a: Seq<Val>, b: Seq<Val>)
    ensures
        vals_place(b, a) == flip(vals_place(a, b)),
        vals_place(a, b) == Place::Same <==> a == b,
    decreases a,
{
    if a.len() > 0 && b.len() > 0 {
        lemma_val_place(a[0], b[0]);
        lemma_vals_place(a.drop_first(), b.drop_first());
        if vals_place(a, b) == Place::Same {
            assert(a =~= seq![a[0]] + a.drop_first());
            assert(b =~= seq![b[0]] + b.drop_first());
        }
    } else if a.len() == 0 && b.len() == 0 {
        assert(a =~= b);
    }
}

proof fn lemma_object_place(a: ObjectVal, b: ObjectVal)
    ensures
        object_place(b, a) == flip(object_place(a, b)),
        object_place(a, b) == Place::Same <==> a == b,
    decreases a,
{
    lemma_ints_place(code_points(a.class_name), code_points(b.class_name));
    lemma_code_points(a.class_name, b.class_name);
    lemma_ints_place(code_points(a.identity), code_points(b.identity));
    lemma_code_points(a.identity, b.identity);
    lemma_entries_place(a.entries, b.entries);
}

proof fn lemma_entries_place(a: Seq<(KeyVal, Val)>, b: Seq<(KeyVal, Val)>)
    ensures
        entries_place(b, a) == flip(entries_place(a, b)),
        entries_place(a, b) == Place::Same <==> a == b,
    decreases a,
{
    if a.len() > 0 && b.len() > 0 {
        lemma_key_place(a[0].0, b[0].0);
        lemma_val_place(a[0].1, b[0].1);
        lemma_entries_place(a.drop_first(), b.drop_first());
        if entries_place(a, b) == Place::Same {
            assert(a =~= seq![a[0]] + a.drop_first());
            assert(b =~= seq![b[0]] + b.drop_first());
        }
    } else if a.len() == 0 && b.len() == 0 {
        assert(a =~= b);
    }
}

/// The order of keys is total, and ties are equalities.
pub proof fn lemma_key_place(a: KeyVal, b: KeyVal)
    ensures
        key_place(b, a) == flip(key_place(a, b)),
        key_place(a, b) == Place::Same <==> a == b,
    decreases a,
{
    match (a, b) {
        (KeyVal::Str(x), KeyVal::Str(y)) => {
            lemma_ints_place(code_points(x), code_points(y));
            lemma_code_points(x, y);
        },
        (KeyVal::Other(x), KeyVal::Other(y)) => {
            lemma_val_place(*x, *y);
        },
        _ => {},
    }
}

/// The order of values is transitive.
pub proof fn lemma_val_transitive(a: Val, b: Val, c: Val)
    requires
        val_place(a, b) == Place::Before,
        val_place(b, c) == Place::Before,
    ensures
        val_place(a, c) == Place::Before,
    decreases a,
{
    match (a, b, c) {
        (Val::Array(x), Val::Array(y), Val::Array(z)) => lemma_vals_transitive(x, y, z),
        (Val::Tuple(x), Val::Tuple(y), Val::Tuple(z)) => lemma_vals_transitive(x, y, z),
        (Val::MutableSet(x), Val::MutableSet(y), Val::MutableSet(z)) => lemma_vals_transitive(
            x,
            y,
            z,
        ),
        (Val::FrozenSet(x), Val::FrozenSet(y), Val::FrozenSet(z)) => lemma_vals_transitive(x, y, z),
        (Val::Object(x), Val::Object(y), Val::Object(z)) => lemma_object_transitive(x, y, z),
        _ => {
            if rank(a) == rank(b) && rank(b) == rank(c) {
                lemma_ints_place_transitive(code(a), code(b), code(c));
            }
        },
    }
}

proof fn lemma_vals_transitive(a: Seq<Val>, b: Seq<Val>, c: Seq<Val>)
    requires
        vals_place(a, b) == Place::Before,
        vals_place(b, c) == Place::Before,
    ensures
        vals_place(a, c) == Place::Before,
    decreases a,
{
    if a.len() > 0 && b.len() > 0 && c.len() > 0 {
        lemma_val_place(a[0], b[0]);
        lemma_val_place(b[0], c[0]);
        if val_place(a[0], b[0]) == Place::Before && val_place(b[0], c[0]) == Place::Before {
            lemma_val_transitive(a[0], b[0], c[0]);
        } else if a[0] == b[0] && b[0] == c[0] {
            lemma_vals_transitive(a.drop_first(), b.drop_first(), c.drop_first());
        }
    }
}

proof fn lemma_object_transitive(a: ObjectVal, b: ObjectVal, c: ObjectVal)
    requires
        object_place(a, b) == Place::Before,
        object_place(b, c) == Place::Before,
    ensures
        object_place(a, c) == Place::Before,
    decreases a,
{
    lemma_text_chain(a.class_name, b.class_name, c.class_name);
    lemma_text_chain(a.identity, b.identity, c.identity);
    if a.kind == b.kind && b.kind == c.kind && a.class_name == b.class_name && b.class_name
        == c.class_name && a.identity == b.identity && b.identity == c.identity {
        lemma_entries_transitive(a.entries, b.entries, c.entries);
    }
}

/// What is needed of the order of texts, for three of them.
proof fn lemma_text_chain(a: Seq<char>, b: Seq<char>, c: Seq<char>)
    ensures
        text_place(a, b) == Place::Same <==> a == b,
        text_place(b, c) == Place::Same <==> b == c,
        text_place(a, c) == Place::Same <==> a == c,
        text_place(a, b) == Place::Before && text_place(b, c) == Place::Before ==> text_place(a, c)
            == Place::Before,
{
    lemma_ints_place(code_points(a), code_points(b));
    lemma_ints_place(code_points(b), code_points(c));
    lemma_ints_place(code_points(a), code_points(c));
    lemma_code_points(a, b);
    lemma_code_points(b, c);
    lemma_code_points(a, c);
    if text_place(a, b) == Place::Before && text_place(b, c) == Place::Before {
        lemma_ints_place_transitive(code_points(a), code_points(b), code_points(c));
    }
}

proof fn lemma_entries_transitive(
    a: Seq<(KeyVal, Val)>,
    b: Seq<(KeyVal, Val)>,
    c: Seq<(KeyVal, Val)>,
)
    requires
        entries_place(a, b) == Place::Before,
        entries_place(b, c) == Place::Before,
    ensures
        entries_place(a, c) == Place::Before,
    decreases a,
{
    if a.len() > 0 && b.len() > 0 && c.len() > 0 {
        lemma_key_place(a[0].0, b[0].0);
        lemma_key_place(b[0].0, c[0].0);
        lemma_val_place(a[0].1, b[0].1);
        lemma_val_place(b[0].1, c[0].1);
        if key_place(a[0].0, b[0].0) == Place::Before && key_place(b[0].0, c[0].0)
            == Place::Before {
            lemma_key_transitive(a[0].0, b[0].0, c[0].0);
        } else if a[0].0 == b[0].0 && b[0].0 == c[0].0 {
            if val_place(a[0].1, b[0].1) == Place::Before && val_place(b[0].1, c[0].1)
                == Place::Before {
                lemma_val_transitive(a[0].1, b[0].1, c[0].1);
            } else if a[0].1 == b[0].1 && b[0].1 == c[0].1 {
                lemma_entries_transitive(a.drop_first(), b.drop_first(), c.drop_first());
            }
        }
    }
}

/// The order of keys is transitive.
pub proof fn lemma_key_transitive(a: KeyVal, b: KeyVal, c: KeyVal)
    requires
        key_place(a, b) == Place::Before,
        key_place(b, c) == Place::Before,
    ensures
        key_place(a, c) == Place::Before,
    decreases a,
{
    match (a, b, c) {
        (KeyVal::Str(x), KeyVal::Str(y), KeyVal::Str(z)) => {
            lemma_text_chain(x, y, z);
        },
        (KeyVal::Other(x), KeyVal::Other(y), KeyVal::Other(z)) => {
            lemma_val_transitive(*x, *y, *z);
        },
        _ => {},
    }
}

/// The integers of a list.
pub open spec fn widened(list: Seq<i128>) -> Seq<int> {
    Seq::new(list.len(), |i: int| list[i] as int)
}

/// The order of two lists of integers.
fn order_codes(a: &Vec<i128>, b: &Vec<i128>) -> (place: Place)
    ensures
        place == ints_place(widened(a@), widened(b@)),
{
    let mut i: usize = 0;
    proof {
        assert(widened(a@).skip(0) =~= widened(a@));
        assert(widened(b@).skip(0) =~= widened(b@));
    }
    while i < a.len() && i < b.len()
        invariant
            i <= a.len(),
            i <= b.len(),
            ints_place(widened(a@), widened(b@)) == ints_place(
                widened(a@).skip(i as int),
                widened(b@).skip(i as int),
            ),
        decreases a.len() - i,
    {
        proof {
            assert(widened(a@).skip(i as int).drop_first() =~= widened(a@).skip(i as int + 1));
            assert(widened(b@).skip(i as int).drop_first() =~= widened(b@).skip(i as int + 1));
        }
        let place: Place = order_ints(a[i], b[i]);
        if place != Place::Same {
            return place;
        }
        i = i + 1;
    }
    if i < b.len() {
        Place::Before
    } else if i < a.len() {
        Place::After
    } else {
        Place::Same
    }
}

/// Appends an offset as two integers.
fn push_offset_code(list: &mut Vec<i128>, offset: Option<i32>)
    ensures
        widened(final(list)@) == widened(old(list)@) + offset_code(offset),
{
    match offset {
        None => {
            list.push(0);
            list.push(0);
        },
        Some(seconds) => {
            list.push(1);
            list.push(seconds as i128);
        },
    }
    assert(widened(list@) =~= widened(old(list)@) + offset_code(offset));
}

/// What a scalar other than a text is ordered by within its kind.
fn code_of(value: &Value) -> (list: Vec<i128>)
    requires
        !(value@ is Str),
    ensures
        widened(list@) == code(value@),
{
    let mut list: Vec<i128> = Vec::new();
    match value {
        Value::Bool(b) => {
            list.push(
                if *b {
                    1
                } else {
                    0
                },
            );
        },
        Value::Number(n) => match n {
            Number::Int(i) => {
                list.push(0);
                list.push(*i as i128);
                list.push(0);
            },
            Number::Uint(i) => {
                list.push(0);
                list.push(*i as i128);
                list.push(1);
            },
            Number::Float(f) => {
                list.push(1);
                list.push(
                    if f.bits >= SIGN {
                        SIGN as i128 - f.bits as i128 - 1
                    } else {
                        f.bits as i128
                    },
                );
                assert(widened(list@) =~= code(value@));
            },
        },
        Value::DateTime(d) => {
            list.push(d.instant() as i128);
            assert(widened(list@) =~= seq![d.spec_instant()]);
            push_offset_code(&mut list, d.utc_offset_seconds());
            let ghost head: Seq<int> = widened(list@);
            let date = d.date();
            list.push(date.year() as i128);
            list.push(date.month() as i128);
            list.push(date.day() as i128);
            list.push(d.hour() as i128);
            list.push(d.minute() as i128);
            list.push(d.second() as i128);
            list.push(d.microsecond() as i128);
            assert(widened(list@) =~= head + seq![
                d.spec_date().spec_year() as int,
                d.spec_date().spec_month() as int,
                d.spec_date().spec_day() as int,
                d.spec_hour() as int,
                d.spec_minute() as int,
                d.spec_second() as int,
                d.spec_microsecond() as int,
            ]);
        },
        Value::Date(d) => {
            list.push(d.year() as i128);
            list.push(d.month() as i128);
            list.push(d.day() as i128);
            assert(widened(list@) =~= code(value@));
        },
        Value::Time(t) => {
            list.push(
                if t.utc_offset_seconds().is_some() {
                    1
                } else {
                    0
                },
            );
            list.push(t.sort_instant() as i128);
            assert(widened(list@) =~= seq![
                if t.spec_utc_offset_seconds() is Some {
                    1int
                } else {
                    0
                },
                t.spec_sort_instant(),
            ]);
            push_offset_code(&mut list, t.utc_offset_seconds());
            let ghost head: Seq<int> = widened(list@);
            list.push(t.hour() as i128);
            list.push(t.minute() as i128);
            list.push(t.second() as i128);
            list.push(t.microsecond() as i128);
            assert(widened(list@) =~= head + seq![
                t.spec_hour() as int,
                t.spec_minute() as int,
                t.spec_second() as int,
                t.spec_microsecond() as int,
            ]);
        },
        Value::TimeDelta(d) => {
            list.push(d.whole_seconds() as i128);
            list.push(d.microseconds() as i128);
            assert(widened(list@) =~= code(value@));
        },
        _ => {},
    }
    assert(widened(list@) =~= code(value@));
    list
}

/// The rank of a value's kind.
fn rank_of(value: &Value) -> (result: u8)
    ensures
        result == rank(value@),
{
    match value {
        Value::Null => 0,
        Value::Bool(_) => 1,
        Value::Number(_) => 2,
        Value::Str(_) => 3,
        Value::DateTime(_) => 4,
        Value::Date(_) => 5,
        Value::Time(_) => 6,
        Value::TimeDelta(_) => 7,
        Value::Array(_) => 8,
        Value::Tuple(_) => 9,
        Value::MutableSet(_) => 10,
        Value::FrozenSet(_) => 11,
        Value::Object(_) => 12,
    }
}

/// The rank of an object's kind.
fn kind_rank_of(kind: ObjectKind) -> (result: u8)
    ensures
        result == kind_rank(kind),
{
    match kind {
        ObjectKind::Dict => 0,
        ObjectKind::CustomObject => 1,
        ObjectKind::Opaque => 2,
        ObjectKind::Cycle => 3,
        ObjectKind::Failed => 4,
    }
}

/// The order of two values.
pub fn order_values(a: &Value, b: &Value) -> (place: Place)
    ensures
        place == val_place(a@, b@),
    decreases a@, 1int,
{
    let ranks: Place = order_ints(rank_of(a) as i128, rank_of(b) as i128);
    if ranks != Place::Same {
        return ranks;
    }
    match (a, b) {
        (Value::Str(x), Value::Str(y)) => order_texts(x.as_str(), y.as_str()),
        (Value::Array(x), Value::Array(y)) => order_lists(x, y),
        (Value::Tuple(x), Value::Tuple(y)) => order_lists(x, y),
        (Value::MutableSet(x), Value::MutableSet(y)) => order_sets(x, y),
        (Value::FrozenSet(x), Value::FrozenSet(y)) => order_sets(x, y),
        (Value::Object(x), Value::Object(y)) => order_objects(x, y),
        _ => order_codes(&code_of(a), &code_of(b)),
    }
}

/// The order of two lists of values.
fn order_lists(a: &Vec<Value>, b: &Vec<Value>) -> (place: Place)
    ensures
        place == vals_place(views(a@), views(b@)),
    decreases views(a@), 0int,
{
    let mut i: usize = 0;
    proof {
        assert(views(a@).skip(0) =~= views(a@));
        assert(views(b@).skip(0) =~= views(b@));
    }
    while i < a.len() && i < b.len()
        invariant
            i <= a.len(),
            i <= b.len(),
            vals_place(views(a@), views(b@)) == vals_place(
                views(a@).skip(i as int),
                views(b@).skip(i as int),
            ),
        decreases a.len() - i,
    {
        proof {
            assert(views(a@).skip(i as int).drop_first() =~= views(a@).skip(i as int + 1));
            assert(views(b@).skip(i as int).drop_first() =~= views(b@).skip(i as int + 1));
            assert(views(a@)[i as int] == a@[i as int]@);
        }
        let place: Place = order_values(&a[i], &b[i]);
        if place != Place::Same {
            return place;
        }
        i = i + 1;
    }
    if i < b.len() {
        Place::Before
    } else if i < a.len() {
        Place::After
    } else {
        Place::Same
    }
}

/// The order of two sets of members.
fn order_sets(a: &SetItems, b: &SetItems) -> (place: Place)
    ensures
        place == vals_place(a@, b@),
    decreases a@, 0int,
{
    let mut i: usize = 0;
    proof {
        assert(a@.skip(0) =~= a@);
        assert(b@.skip(0) =~= b@);
    }
    while i < a.len() && i < b.len()
        invariant
            i <= a@.len(),
            i <= b@.len(),
            vals_place(a@, b@) == vals_place(a@.skip(i as int), b@.skip(i as int)),
        decreases a@.len() - i,
    {
        proof {
            assert(a@.skip(i as int).drop_first() =~= a@.skip(i as int + 1));
            assert(b@.skip(i as int).drop_first() =~= b@.skip(i as int + 1));
        }
        let place: Place = order_values(a.get(i), b.get(i));
        if place != Place::Same {
            return place;
        }
        i = i + 1;
    }
    if i < b.len() {
        Place::Before
    } else if i < a.len() {
        Place::After
    } else {
        Place::Same
    }
}

/// The order of two objects.
fn order_objects(a: &Object, b: &Object) -> (place: Place)
    ensures
        place == object_place(a@, b@),
    decreases a@, 0int,
{
    let kinds: Place = order_ints(kind_rank_of(a.kind()) as i128, kind_rank_of(b.kind()) as i128);
    if kinds != Place::Same {
        return kinds;
    }
    let classes: Place = order_texts(a.class_name().as_str(), b.class_name().as_str());
    if classes != Place::Same {
        return classes;
    }
    let identities: Place = order_texts(a.identity().as_str(), b.identity().as_str());
    if identities != Place::Same {
        return identities;
    }
    let ghost x: Seq<(KeyVal, Val)> = a@.entries;
    let ghost y: Seq<(KeyVal, Val)> = b@.entries;
    let mut i: usize = 0;
    proof {
        assert(x.skip(0) =~= x);
        assert(y.skip(0) =~= y);
    }
    while i < a.len() && i < b.len()
        invariant
            x == a@.entries,
            y == b@.entries,
            i <= x.len(),
            i <= y.len(),
            entries_place(x, y) == entries_place(x.skip(i as int), y.skip(i as int)),
            object_place(a@, b@) == entries_place(x, y),
        decreases x.len() - i,
    {
        proof {
            assert(x.skip(i as int).drop_first() =~= x.skip(i as int + 1));
            assert(y.skip(i as int).drop_first() =~= y.skip(i as int + 1));
        }
        let keys: Place = order_keys(a.key_at(i), b.key_at(i));
        if keys != Place::Same {
            return keys;
        }
        let values: Place = order_values(a.value_at(i), b.value_at(i));
        if values != Place::Same {
            return values;
        }
        i = i + 1;
    }
    if i < b.len() {
        Place::Before
    } else if i < a.len() {
        Place::After
    } else {
        Place::Same
    }
}

/// The order of two keys.
pub fn order_keys(a: &ObjectKey, b: &ObjectKey) -> (place: Place)
    ensures
        place == key_place(a@, b@),
    decreases a@, 1int,
{
    match (a, b) {
        (ObjectKey::Str(x), ObjectKey::Str(y)) => order_texts(x.as_str(), y.as_str()),
        (ObjectKey::Str(_), ObjectKey::Other(_)) => Place::Before,
        (ObjectKey::Other(_), ObjectKey::Str(_)) => Place::After,
        (ObjectKey::Other(x), ObjectKey::Other(y)) => order_values(&**x, &**y),
    }
}

} // verus!
