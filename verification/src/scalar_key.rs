//! Python's own equality of scalars: `1`, `1.0` and `True` are one key.

use vstd::prelude::*;
use vstd::std_specs::cmp::PartialEqSpecImpl;

use crate::datetime::TimeDelta;
use crate::float::{float_to_integer, is_nan};
use crate::ignore_order::fxhash::FxHasher;
use crate::intern::{Interner, Keyed};
use crate::value::{Number, Value};

#[allow(unused_imports)]
use crate::float::{exact_integer, nan};
#[allow(unused_imports)]
use crate::ignore_order::fxhash::{fx_step, fx_words, words_of_text};
#[allow(unused_imports)]
use crate::value::{views, Val};

verus! {

/// What two scalars share exactly when Python calls them equal.
#[derive(Debug)]
pub enum ScalarKey {
    Null,
    Str(String),
    /// An integer, a truth value, or a float that is an integer of magnitude
    /// at most two to the power 53.
    Int(i128),
    /// The bit pattern of any other float.
    Float(u64),
    /// What is not a number: a key that equals no other, not even another of its
    /// kind.
    Nan,
    DateTime { aware: bool, instant: i64 },
    Date(i64),
    Time { aware: bool, instant: i64 },
    TimeDelta(TimeDelta),
}

/// The model of a [`ScalarKey`].
pub enum ScalarVal {
    Null,
    Str(Seq<char>),
    Int(int),
    Float(u64),
    Nan,
    DateTime { aware: bool, instant: int },
    Date(int),
    Time { aware: bool, instant: int },
    TimeDelta(TimeDelta),
}

impl View for ScalarKey {
    type V = ScalarVal;

    open spec fn view(&self) -> ScalarVal {
        match self {
            ScalarKey::Null => ScalarVal::Null,
            ScalarKey::Str(s) => ScalarVal::Str(s@),
            ScalarKey::Int(n) => ScalarVal::Int(*n as int),
            ScalarKey::Float(bits) => ScalarVal::Float(*bits),
            ScalarKey::Nan => ScalarVal::Nan,
            ScalarKey::DateTime { aware, instant } => ScalarVal::DateTime {
                aware: *aware,
                instant: *instant as int,
            },
            ScalarKey::Date(ordinal) => ScalarVal::Date(*ordinal as int),
            ScalarKey::Time { aware, instant } => ScalarVal::Time {
                aware: *aware,
                instant: *instant as int,
            },
            ScalarKey::TimeDelta(delta) => ScalarVal::TimeDelta(*delta),
        }
    }
}

/// The key of a number.
pub open spec fn number_scalar(n: Number) -> ScalarVal {
    match n {
        Number::Float(f) => if nan(f.bits) {
            ScalarVal::Nan
        } else {
            match exact_integer(f.bits) {
                Some(i) => ScalarVal::Int(i),
                None => ScalarVal::Float(f.bits),
            }
        },
        _ => ScalarVal::Int(n.integer()),
    }
}

/// The key of a value; none for a container.
pub open spec fn python_scalar(value: Val) -> Option<ScalarVal> {
    match value {
        Val::Null => Some(ScalarVal::Null),
        Val::Str(s) => Some(ScalarVal::Str(s)),
        Val::Bool(b) => Some(
            ScalarVal::Int(
                if b {
                    1
                } else {
                    0
                },
            ),
        ),
        Val::Number(n) => Some(number_scalar(n)),
        Val::DateTime(d) => Some(
            ScalarVal::DateTime {
                aware: d.spec_utc_offset_seconds() is Some,
                instant: d.spec_instant(),
            },
        ),
        Val::Date(d) => Some(ScalarVal::Date(d.spec_ordinal())),
        Val::Time(t) => Some(
            ScalarVal::Time {
                aware: t.spec_utc_offset_seconds() is Some,
                instant: t.spec_sort_instant(),
            },
        ),
        Val::TimeDelta(d) => Some(ScalarVal::TimeDelta(d)),
        _ => None,
    }
}

/// The keys of several values.
pub open spec fn python_scalars(values: Seq<Val>) -> Seq<Option<ScalarVal>> {
    Seq::new(values.len(), |i: int| python_scalar(values[i]))
}

/// Whether two keys are equal: what is not a number has a key that equals none.
pub open spec fn equal_keys(a: ScalarVal, b: ScalarVal) -> bool {
    a == b && !(a is Nan)
}

/// Whether two values have keys that are equal.
pub open spec fn share_key(a: Option<ScalarVal>, b: Option<ScalarVal>) -> bool {
    a is Some && b is Some && equal_keys(a->Some_0, b->Some_0)
}

/// The key by which a value is found again; none for a container and for what
/// equals nothing.
pub open spec fn lasting_scalar(value: Val) -> Option<ScalarVal> {
    match python_scalar(value) {
        Some(ScalarVal::Nan) => None,
        key => key,
    }
}

/// Whether a value holds no others.
pub open spec fn basic(value: Val) -> bool {
    crate::canonical::scalar(value)
}

/// The model of an optional key.
pub open spec fn key_view(key: Option<ScalarKey>) -> Option<ScalarVal> {
    match key {
        None => None,
        Some(k) => Some(k@),
    }
}

/// Spreads the high bits of a float's pattern into the low ones, which alone
/// differ little between floats that are integers or halves.
pub open spec fn mixed_bits(bits: u64) -> u64 {
    let x: u64 = (bits ^ (bits >> 32u64)).wrapping_mul(0xd6e8_feb8_6659_fd93u64);
    x ^ (x >> 32u64)
}

/// Spreads the high bits of a float's pattern into the low ones.
pub fn mix_float_bits(bits: u64) -> (mixed: u64)
    ensures
        mixed == mixed_bits(bits),
{
    let x: u64 = (bits ^ (bits >> 32u64)).wrapping_mul(0xd6e8_feb8_6659_fd93u64);
    x ^ (x >> 32u64)
}

/// Whether every value is a scalar.
pub fn all_basic_scalars(items: &[Value]) -> (result: bool)
    ensures
        result == (forall|i: int| 0 <= i < items@.len() ==> basic(#[trigger] views(items@)[i])),
{
    let mut i: usize = 0;
    while i < items.len()
        invariant
            i <= items.len(),
            forall|k: int| 0 <= k < i ==> basic(#[trigger] views(items@)[k]),
        decreases items.len() - i,
    {
        let is_scalar: bool = match &items[i] {
            Value::Null
            | Value::Bool(_)
            | Value::Number(_)
            | Value::Str(_)
            | Value::DateTime(_)
            | Value::Date(_)
            | Value::Time(_)
            | Value::TimeDelta(_) => true,
            _ => false,
        };
        if !is_scalar {
            assert(!basic(views(items@)[i as int]));
            return false;
        }
        i = i + 1;
    }
    true
}

/// The key of a value; none for a container.
pub fn python_scalar_key(value: &Value) -> (key: Option<ScalarKey>)
    ensures
        key_view(key) == python_scalar(value@),
{
    match value {
        Value::Null => Some(ScalarKey::Null),
        Value::Str(s) => Some(ScalarKey::Str(s.clone())),
        Value::Bool(b) => Some(
            ScalarKey::Int(
                if *b {
                    1
                } else {
                    0
                },
            ),
        ),
        Value::Number(n) => match n {
            Number::Int(i) => Some(ScalarKey::Int(*i as i128)),
            Number::Uint(i) => Some(ScalarKey::Int(*i as i128)),
            Number::Float(f) => if is_nan(f.bits) {
                Some(ScalarKey::Nan)
            } else {
                match float_to_integer(f.bits) {
                    Some(i) => Some(ScalarKey::Int(i as i128)),
                    None => Some(ScalarKey::Float(f.bits)),
                }
            },
        },
        Value::DateTime(d) => Some(
            ScalarKey::DateTime { aware: d.utc_offset_seconds().is_some(), instant: d.instant() },
        ),
        Value::Date(d) => Some(ScalarKey::Date(d.ordinal())),
        Value::Time(t) => Some(
            ScalarKey::Time { aware: t.utc_offset_seconds().is_some(), instant: t.sort_instant() },
        ),
        Value::TimeDelta(d) => Some(ScalarKey::TimeDelta(*d)),
        _ => None,
    }
}

/// The key by which a value is found again; none for a container and for what
/// equals nothing.
pub fn lasting_key(value: &Value) -> (key: Option<ScalarKey>)
    ensures
        key_view(key) == lasting_scalar(value@),
{
    match python_scalar_key(value) {
        Some(ScalarKey::Nan) => None,
        key => key,
    }
}

/// One word for an integer.
pub open spec fn int_word(n: int) -> u64 {
    if n >= 0 {
        (n % 0x1_0000_0000_0000_0000) as u64
    } else {
        ((-(n + 1)) % 0x1_0000_0000_0000_0000) as u64
    }
}

/// One word for an integer.
pub fn word_of_int(n: i128) -> (word: u64)
    ensures
        word == int_word(n as int),
{
    if n >= 0 {
        (n as u128 % 0x1_0000_0000_0000_0000) as u64
    } else {
        ((-(n + 1)) as u128 % 0x1_0000_0000_0000_0000) as u64
    }
}

/// A truth value as a word.
pub open spec fn bool_word(b: bool) -> u64 {
    if b {
        1
    } else {
        0
    }
}

/// The words that a key is hashed from.
pub open spec fn scalar_words(key: ScalarVal) -> Seq<u64> {
    match key {
        ScalarVal::Null => seq![0u64],
        ScalarVal::Str(s) => seq![1u64] + words_of_text(s),
        ScalarVal::Int(n) => seq![2u64, int_word(n)],
        ScalarVal::Float(bits) => seq![3u64, mixed_bits(bits)],
        ScalarVal::DateTime { aware, instant } => seq![4u64, bool_word(aware), int_word(instant)],
        ScalarVal::Date(ordinal) => seq![5u64, int_word(ordinal)],
        ScalarVal::Time { aware, instant } => seq![6u64, bool_word(aware), int_word(instant)],
        ScalarVal::TimeDelta(d) => seq![
            7u64,
            int_word(d.spec_whole_seconds() as int),
            int_word(d.spec_subsecond_microseconds() as int),
        ],
        ScalarVal::Nan => seq![8u64],
    }
}

proof fn lemma_words_2(hash: u64, a: u64, b: u64)
    ensures
        fx_words(hash, seq![a, b]) == fx_step(fx_step(hash, a), b),
{
    reveal_with_fuel(fx_words, 3);
    assert(seq![a, b].drop_last() =~= seq![a]);
    assert(seq![a].drop_last() =~= seq![]);
}

proof fn lemma_words_3(hash: u64, a: u64, b: u64, c: u64)
    ensures
        fx_words(hash, seq![a, b, c]) == fx_step(fx_step(fx_step(hash, a), b), c),
{
    lemma_words_2(hash, a, b);
    assert(seq![a, b, c].drop_last() =~= seq![a, b]);
}

impl Keyed for ScalarKey {
    open spec fn digest(key: ScalarVal) -> u64 {
        fx_words(0, scalar_words(key))
    }

    fn hash_key(&self) -> (hash: u64) {
        let mut hasher: FxHasher = FxHasher { hash: 0 };
        match self {
            ScalarKey::Null => {
                hasher.write_u8(0);
                proof {
                    reveal_with_fuel(fx_words, 2);
                    assert(seq![0u64].drop_last() =~= seq![]);
                }
            },
            ScalarKey::Str(s) => {
                hasher.write_u8(1);
                hasher.write_text(s.as_str());
                proof {
                    reveal_with_fuel(fx_words, 2);
                    assert(seq![1u64].drop_last() =~= seq![]);
                    crate::ignore_order::fxhash::lemma_hash_continues(
                        0,
                        seq![1u64],
                        words_of_text(s@),
                    );
                }
            },
            ScalarKey::Int(n) => {
                hasher.write_u8(2);
                hasher.write_u64(word_of_int(*n));
                proof {
                    lemma_words_2(0, 2, int_word(*n as int));
                }
            },
            ScalarKey::Float(bits) => {
                hasher.write_u8(3);
                hasher.write_u64(mix_float_bits(*bits));
                proof {
                    lemma_words_2(0, 3, mixed_bits(*bits));
                }
            },
            ScalarKey::DateTime { aware, instant } => {
                hasher.write_u8(4);
                hasher.write_u64(
                    if *aware {
                        1
                    } else {
                        0
                    },
                );
                hasher.write_u64(word_of_int(*instant as i128));
                proof {
                    lemma_words_3(0, 4, bool_word(*aware), int_word(*instant as int));
                }
            },
            ScalarKey::Date(ordinal) => {
                hasher.write_u8(5);
                hasher.write_u64(word_of_int(*ordinal as i128));
                proof {
                    lemma_words_2(0, 5, int_word(*ordinal as int));
                }
            },
            ScalarKey::Time { aware, instant } => {
                hasher.write_u8(6);
                hasher.write_u64(
                    if *aware {
                        1
                    } else {
                        0
                    },
                );
                hasher.write_u64(word_of_int(*instant as i128));
                proof {
                    lemma_words_3(0, 6, bool_word(*aware), int_word(*instant as int));
                }
            },
            ScalarKey::TimeDelta(d) => {
                hasher.write_u8(7);
                hasher.write_u64(word_of_int(d.whole_seconds() as i128));
                hasher.write_u64(word_of_int(d.microseconds() as i128));
                proof {
                    lemma_words_3(
                        0,
                        7,
                        int_word(d.spec_whole_seconds() as int),
                        int_word(d.spec_subsecond_microseconds() as int),
                    );
                }
            },
            ScalarKey::Nan => {
                hasher.write_u8(8);
                proof {
                    reveal_with_fuel(fx_words, 2);
                    assert(seq![8u64].drop_last() =~= seq![]);
                }
            },
        }
        hasher.finish()
    }

    fn same_as(&self, other: &Self) -> (result: bool) {
        match (self, other) {
            (ScalarKey::Null, ScalarKey::Null) => true,
            (ScalarKey::Str(x), ScalarKey::Str(y)) => x.eq(y),
            (ScalarKey::Int(x), ScalarKey::Int(y)) => *x == *y,
            (ScalarKey::Float(x), ScalarKey::Float(y)) => *x == *y,
            (ScalarKey::Nan, ScalarKey::Nan) => true,
            (
                ScalarKey::DateTime { aware: p, instant: x },
                ScalarKey::DateTime { aware: q, instant: y },
            ) => *p == *q && *x == *y,
            (ScalarKey::Date(x), ScalarKey::Date(y)) => *x == *y,
            (
                ScalarKey::Time { aware: p, instant: x },
                ScalarKey::Time { aware: q, instant: y },
            ) => *p == *q && *x == *y,
            (ScalarKey::TimeDelta(x), ScalarKey::TimeDelta(y)) => *x == *y,
            _ => false,
        }
    }
}

impl PartialEq for ScalarKey {
    fn eq(&self, other: &Self) -> (result: bool) {
        match self {
            ScalarKey::Nan => false,
            _ => self.same_as(other),
        }
    }
}

impl PartialEqSpecImpl for ScalarKey {
    open spec fn obeys_eq_spec() -> bool {
        true
    }

    open spec fn eq_spec(&self, other: &Self) -> bool {
        equal_keys(self@, other@)
    }
}

/// The first position that holds the key of position `i`; `i` itself where
/// there is no key, or one that equals none.
pub open spec fn class_of(keys: Seq<Option<ScalarVal>>, i: int) -> int {
    if share_key(keys[i], keys[i]) {
        keys.index_of_first(keys[i])->Some_0
    } else {
        i
    }
}

/// The positions stand for the keys: equal keys, and they alone, share one.
pub open spec fn classes(keys: Seq<Option<ScalarVal>>) -> Seq<int> {
    Seq::new(keys.len(), |i: int| class_of(keys, i))
}

/// Positions share a class where they hold the same key.
pub proof fn lemma_classes(keys: Seq<Option<ScalarVal>>, i: int, j: int)
    requires
        0 <= i < keys.len(),
        0 <= j < keys.len(),
    ensures
        classes(keys)[i] == classes(keys)[j] <==> i == j || share_key(keys[i], keys[j]),
        0 <= classes(keys)[i] <= i,
{
    keys.index_of_first_ensures(keys[i]);
    keys.index_of_first_ensures(keys[j]);
    assert(keys.contains(keys[i]));
    assert(keys.contains(keys[j]));
}

/// The class of each value: the first position with its key.
pub fn scalar_classes(items: &Vec<Option<ScalarKey>>) -> (result: Vec<usize>)
    ensures
        result@.len() == items@.len(),
        forall|i: int|
            0 <= i < result@.len() ==> (#[trigger] result@[i]) as int == classes(
                Seq::new(items@.len(), |k: int| key_view(items@[k])),
            )[i],
{
    let ghost keys: Seq<Option<ScalarVal>> = Seq::new(items@.len(), |k: int| key_view(items@[k]));
    let mut table: Interner<ScalarKey> = Interner::new();
    let mut firsts: Vec<usize> = Vec::new();
    let mut result: Vec<usize> = Vec::new();
    let mut i: usize = 0;
    while i < items.len()
        invariant
            i <= items.len(),
            keys == Seq::new(items@.len(), |k: int| key_view(items@[k])),
            result@.len() == i,
            table.well_formed(),
            firsts@.len() == table@.len(),
            forall|s: int|
                0 <= s < firsts@.len() ==> {
                    let at: int = (#[trigger] firsts@[s]) as int;
                    at < i && keys[at] == Some(table@[s]) && (forall|k: int|
                        0 <= k < at ==> keys[k] != keys[at])
                },
            forall|k: int|
                0 <= k < i ==> (share_key(#[trigger] keys[k], keys[k]) ==> table@.contains(
                    keys[k]->Some_0,
                )),
            forall|k: int| 0 <= k < i ==> (#[trigger] result@[k]) as int == classes(keys)[k],
        decreases items.len() - i,
    {
        match &items[i] {
            None | Some(ScalarKey::Nan) => {
                result.push(i);
            },
            Some(key) => {
                proof {
                    assert(keys[i as int] == Some(key@));
                    keys.index_of_first_ensures(keys[i as int]);
                    assert(keys.contains(keys[i as int]));
                }
                match table.find(key) {
                    Some(s) => {
                        proof {
                            let at: int = firsts@[s as int] as int;
                            assert(keys[at] == Some(key@));
                            assert(keys.index_of_first(keys[i as int])->Some_0 == at);
                        }
                        result.push(firsts[s]);
                    },
                    None => {
                        proof {
                            assert forall|k: int| 0 <= k < i implies keys[k] != keys[i as int] by {
                                if keys[k] == keys[i as int] {
                                    assert(table@.contains(keys[k]->Some_0));
                                }
                            }
                            assert(keys.index_of_first(keys[i as int])->Some_0 == i);
                        }
                        let ghost before: Seq<ScalarVal> = table@;
                        let copy: ScalarKey = key.duplicate();
                        let s: usize = table.insert(copy);
                        firsts.push(i);
                        result.push(i);
                        proof {
                            assert(table@ == before.push(key@));
                            assert forall|k: int|
                                0 <= k < i + 1 && share_key(
                                    #[trigger] keys[k],
                                    keys[k],
                                ) implies table@.contains(keys[k]->Some_0) by {
                                if k < i {
                                    let at: int = choose|at: int|
                                        0 <= at < before.len() && before[at] == keys[k]->Some_0;
                                    assert(table@[at] == keys[k]->Some_0);
                                } else {
                                    assert(table@[before.len() as int] == key@);
                                }
                            }
                        }
                    },
                }
            },
        }
        i = i + 1;
    }
    result
}

impl ScalarKey {
    /// A copy.
    pub fn duplicate(&self) -> (copy: Self)
        ensures
            copy@ == self@,
    {
        match self {
            ScalarKey::Null => ScalarKey::Null,
            ScalarKey::Str(s) => ScalarKey::Str(s.clone()),
            ScalarKey::Int(n) => ScalarKey::Int(*n),
            ScalarKey::Float(bits) => ScalarKey::Float(*bits),
            ScalarKey::Nan => ScalarKey::Nan,
            ScalarKey::DateTime { aware, instant } => ScalarKey::DateTime {
                aware: *aware,
                instant: *instant,
            },
            ScalarKey::Date(ordinal) => ScalarKey::Date(*ordinal),
            ScalarKey::Time { aware, instant } => ScalarKey::Time {
                aware: *aware,
                instant: *instant,
            },
            ScalarKey::TimeDelta(d) => ScalarKey::TimeDelta(*d),
        }
    }
}

} // verus!
