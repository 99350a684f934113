//! The keys under which items are found again: each is a number in a table of
//! what the items hold.

use vstd::prelude::*;

use super::fxhash::FxHasher;
use crate::datetime::TimeDelta;
use crate::intern::Keyed;
use crate::order::{order_ints, Ordered, Place};
use crate::scalar_key::{mix_float_bits, word_of_int, ScalarKey};

#[allow(unused_imports)]
use super::fxhash::{fx_step, fx_words, words_of_text};
#[allow(unused_imports)]
use crate::order::int_place;
#[allow(unused_imports)]
use crate::scalar_key::{bool_word, int_word, mixed_bits, ScalarVal};

verus! {

// ---------------------------------------------------------------------
// Numbers as keys
// ---------------------------------------------------------------------

impl Ordered for usize {
    open spec fn place(a: usize, b: usize) -> Place {
        int_place(a as int, b as int)
    }

    proof fn lemma_total(a: usize, b: usize) {
    }

    proof fn lemma_transitive(a: usize, b: usize, c: usize) {
    }

    fn order(&self, other: &Self) -> (place: Place) {
        order_ints(*self as i128, *other as i128)
    }
}

impl Keyed for usize {
    open spec fn digest(key: usize) -> u64 {
        fx_step(0, key as u64)
    }

    fn hash_key(&self) -> (hash: u64) {
        let mut hasher: FxHasher = FxHasher { hash: 0 };
        hasher.write_usize(*self);
        hasher.finish()
    }

    fn same_as(&self, other: &Self) -> (result: bool) {
        *self == *other
    }
}

/// The hash of words.
fn hash_words(words: &Vec<u64>) -> (hash: u64)
    ensures
        hash == fx_words(0, words@),
{
    let mut hasher: FxHasher = FxHasher { hash: 0 };
    hasher.write_words(words);
    hasher.finish()
}

/// Appends a word for each character.
pub(crate) fn push_text_words(words: &mut Vec<u64>, text: &str)
    ensures
        final(words)@ == old(words)@ + words_of_text(text@),
{
    let chars: Vec<char> = crate::text::chars_of(text);
    let ghost before: Seq<u64> = words@;
    let ghost all: Seq<u64> = words_of_text(text@);
    let mut i: usize = 0;
    proof {
        assert(before + all.take(0) =~= before);
    }
    while i < chars.len()
        invariant
            i <= chars.len(),
            chars@ == text@,
            all == words_of_text(text@),
            words@ == before + all.take(i as int),
        decreases chars.len() - i,
    {
        words.push(chars[i] as u64);
        proof {
            assert(words@ =~= before + all.take(i as int + 1));
        }
        i = i + 1;
    }
    proof {
        assert(all.take(i as int) =~= all);
    }
}

// ---------------------------------------------------------------------
// What items hold
// ---------------------------------------------------------------------

/// A set of keys, in order.
pub type Keys = Seq<(usize, ())>;

/// What an item holds, the items inside it by their keys.
///
/// Lists, tuples and sets are held without order or repetition.
#[derive(Debug)]
pub enum ItemNode {
    Null,
    Bool(bool),
    Int(i128),
    Float(u64),
    Str(String),
    DateTime(i64),
    Date(i64),
    Time(i64),
    TimeDelta(TimeDelta),
    List(Vec<(usize, ())>),
    Tuple(Vec<(usize, ())>),
    MutableSet(Vec<(usize, ())>),
    FrozenSet(Vec<(usize, ())>),
    Dict(Vec<(usize, usize)>),
    Object(String, String, Vec<(usize, usize)>),
}

/// The model of an [`ItemNode`].
pub enum ItemVal {
    Null,
    Bool(bool),
    Int(int),
    Float(u64),
    Str(Seq<char>),
    DateTime(int),
    Date(int),
    Time(int),
    TimeDelta(TimeDelta),
    List(Keys),
    Tuple(Keys),
    MutableSet(Keys),
    FrozenSet(Keys),
    Dict(Seq<(usize, usize)>),
    Object(Seq<char>, Seq<char>, Seq<(usize, usize)>),
}

impl View for ItemNode {
    type V = ItemVal;

    open spec fn view(&self) -> ItemVal {
        match self {
            ItemNode::Null => ItemVal::Null,
            ItemNode::Bool(b) => ItemVal::Bool(*b),
            ItemNode::Int(n) => ItemVal::Int(*n as int),
            ItemNode::Float(bits) => ItemVal::Float(*bits),
            ItemNode::Str(s) => ItemVal::Str(s@),
            ItemNode::DateTime(n) => ItemVal::DateTime(*n as int),
            ItemNode::Date(n) => ItemVal::Date(*n as int),
            ItemNode::Time(n) => ItemVal::Time(*n as int),
            ItemNode::TimeDelta(d) => ItemVal::TimeDelta(*d),
            ItemNode::List(keys) => ItemVal::List(keys@),
            ItemNode::Tuple(keys) => ItemVal::Tuple(keys@),
            ItemNode::MutableSet(keys) => ItemVal::MutableSet(keys@),
            ItemNode::FrozenSet(keys) => ItemVal::FrozenSet(keys@),
            ItemNode::Dict(pairs) => ItemVal::Dict(pairs@),
            ItemNode::Object(class, identity, pairs) => ItemVal::Object(
                class@,
                identity@,
                pairs@,
            ),
        }
    }
}

/// A word for each key.
pub open spec fn key_words(keys: Keys) -> Seq<u64> {
    Seq::new(keys.len(), |i: int| keys[i].0 as u64)
}

/// Two words for each pair of keys.
pub open spec fn pair_words(pairs: Seq<(usize, usize)>) -> Seq<u64>
    decreases pairs.len(),
{
    if pairs.len() == 0 {
        seq![]
    } else {
        pair_words(pairs.drop_last()).push(pairs.last().0 as u64).push(pairs.last().1 as u64)
    }
}

/// The words that what an item holds is hashed from.
pub open spec fn item_words(item: ItemVal) -> Seq<u64> {
    match item {
        ItemVal::Null => seq![0u64],
        ItemVal::Bool(b) => seq![1u64, bool_word(b)],
        ItemVal::Int(n) => seq![2u64, int_word(n)],
        ItemVal::Float(bits) => seq![3u64, mixed_bits(bits)],
        ItemVal::Str(s) => seq![4u64] + words_of_text(s),
        ItemVal::DateTime(n) => seq![5u64, int_word(n)],
        ItemVal::Date(n) => seq![6u64, int_word(n)],
        ItemVal::Time(n) => seq![7u64, int_word(n)],
        ItemVal::TimeDelta(d) => seq![
            8u64,
            int_word(d.spec_whole_seconds() as int),
            int_word(d.spec_subsecond_microseconds() as int),
        ],
        ItemVal::List(keys) => seq![9u64] + key_words(keys),
        ItemVal::Tuple(keys) => seq![10u64] + key_words(keys),
        ItemVal::MutableSet(keys) => seq![11u64] + key_words(keys),
        ItemVal::FrozenSet(keys) => seq![12u64] + key_words(keys),
        ItemVal::Dict(pairs) => seq![13u64] + pair_words(pairs),
        ItemVal::Object(class, identity, pairs) => seq![14u64] + words_of_text(class)
            + words_of_text(identity) + pair_words(pairs),
    }
}

fn push_key_words(words: &mut Vec<u64>, keys: &Vec<(usize, ())>)
    ensures
        final(words)@ == old(words)@ + key_words(keys@),
{
    let ghost before: Seq<u64> = words@;
    let ghost all: Seq<u64> = key_words(keys@);
    let mut i: usize = 0;
    proof {
        assert(before + all.take(0) =~= before);
    }
    while i < keys.len()
        invariant
            i <= keys.len(),
            all == key_words(keys@),
            words@ == before + all.take(i as int),
        decreases keys.len() - i,
    {
        words.push(keys[i].0 as u64);
        proof {
            assert(words@ =~= before + all.take(i as int + 1));
        }
        i = i + 1;
    }
    proof {
        assert(all.take(i as int) =~= all);
    }
}

fn push_pair_words(words: &mut Vec<u64>, pairs: &Vec<(usize, usize)>)
    ensures
        final(words)@ == old(words)@ + pair_words(pairs@),
{
    let ghost before: Seq<u64> = words@;
    let ghost all: Seq<(usize, usize)> = pairs@;
    let mut i: usize = 0;
    proof {
        assert(all.take(0) =~= Seq::<(usize, usize)>::empty());
        assert(before + pair_words(all.take(0)) =~= before);
    }
    while i < pairs.len()
        invariant
            i <= pairs.len(),
            all == pairs@,
            words@ == before + pair_words(all.take(i as int)),
        decreases pairs.len() - i,
    {
        words.push(pairs[i].0 as u64);
        words.push(pairs[i].1 as u64);
        proof {
            let upto: Seq<(usize, usize)> = all.take(i as int + 1);
            assert(upto.drop_last() =~= all.take(i as int));
            assert(upto.last() == all[i as int]);
            assert(words@ =~= before + pair_words(upto));
        }
        i = i + 1;
    }
    proof {
        assert(all.take(i as int) =~= all);
    }
}

fn same_keys(a: &Vec<(usize, ())>, b: &Vec<(usize, ())>) -> (result: bool)
    ensures
        result == (a@ == b@),
{
    if a.len() != b.len() {
        return false;
    }
    let mut i: usize = 0;
    while i < a.len()
        invariant
            i <= a.len(),
            a@.len() == b@.len(),
            forall|k: int| 0 <= k < i ==> #[trigger] a@[k] == b@[k],
        decreases a.len() - i,
    {
        if a[i].0 != b[i].0 {
            return false;
        }
        i = i + 1;
    }
    proof {
        assert(a@ =~= b@);
    }
    true
}

fn same_pairs(a: &Vec<(usize, usize)>, b: &Vec<(usize, usize)>) -> (result: bool)
    ensures
        result == (a@ == b@),
{
    if a.len() != b.len() {
        return false;
    }
    let mut i: usize = 0;
    while i < a.len()
        invariant
            i <= a.len(),
            a@.len() == b@.len(),
            forall|k: int| 0 <= k < i ==> #[trigger] a@[k] == b@[k],
        decreases a.len() - i,
    {
        if a[i].0 != b[i].0 || a[i].1 != b[i].1 {
            return false;
        }
        i = i + 1;
    }
    proof {
        assert(a@ =~= b@);
    }
    true
}

impl Keyed for ItemNode {
    open spec fn digest(key: ItemVal) -> u64 {
        fx_words(0, item_words(key))
    }

    fn hash_key(&self) -> (hash: u64) {
        let mut words: Vec<u64> = Vec::new();
        match self {
            ItemNode::Null => {
                words.push(0);
            },
            ItemNode::Bool(b) => {
                words.push(1);
                words.push(
                    if *b {
                        1
                    } else {
                        0
                    },
                );
            },
            ItemNode::Int(n) => {
                words.push(2);
                words.push(word_of_int(*n));
            },
            ItemNode::Float(bits) => {
                words.push(3);
                words.push(mix_float_bits(*bits));
            },
            ItemNode::Str(s) => {
                words.push(4);
                push_text_words(&mut words, s.as_str());
            },
            ItemNode::DateTime(n) => {
                words.push(5);
                words.push(word_of_int(*n as i128));
            },
            ItemNode::Date(n) => {
                words.push(6);
                words.push(word_of_int(*n as i128));
            },
            ItemNode::Time(n) => {
                words.push(7);
                words.push(word_of_int(*n as i128));
            },
            ItemNode::TimeDelta(d) => {
                words.push(8);
                words.push(word_of_int(d.whole_seconds() as i128));
                words.push(word_of_int(d.microseconds() as i128));
            },
            ItemNode::List(keys) => {
                words.push(9);
                push_key_words(&mut words, keys);
            },
            ItemNode::Tuple(keys) => {
                words.push(10);
                push_key_words(&mut words, keys);
            },
            ItemNode::MutableSet(keys) => {
                words.push(11);
                push_key_words(&mut words, keys);
            },
            ItemNode::FrozenSet(keys) => {
                words.push(12);
                push_key_words(&mut words, keys);
            },
            ItemNode::Dict(pairs) => {
                words.push(13);
                push_pair_words(&mut words, pairs);
            },
            ItemNode::Object(class, identity, pairs) => {
                words.push(14);
                push_text_words(&mut words, class.as_str());
                push_text_words(&mut words, identity.as_str());
                push_pair_words(&mut words, pairs);
            },
        }
        proof {
            assert(words@ =~= item_words(self@));
        }
        hash_words(&words)
    }

    fn same_as(&self, other: &Self) -> (result: bool) {
        match (self, other) {
            (ItemNode::Null, ItemNode::Null) => true,
            (ItemNode::Bool(x), ItemNode::Bool(y)) => *x == *y,
            (ItemNode::Int(x), ItemNode::Int(y)) => *x == *y,
            (ItemNode::Float(x), ItemNode::Float(y)) => *x == *y,
            (ItemNode::Str(x), ItemNode::Str(y)) => x.eq(y),
            (ItemNode::DateTime(x), ItemNode::DateTime(y)) => *x == *y,
            (ItemNode::Date(x), ItemNode::Date(y)) => *x == *y,
            (ItemNode::Time(x), ItemNode::Time(y)) => *x == *y,
            (ItemNode::TimeDelta(x), ItemNode::TimeDelta(y)) => *x == *y,
            (ItemNode::List(x), ItemNode::List(y)) => same_keys(x, y),
            (ItemNode::Tuple(x), ItemNode::Tuple(y)) => same_keys(x, y),
            (ItemNode::MutableSet(x), ItemNode::MutableSet(y)) => same_keys(x, y),
            (ItemNode::FrozenSet(x), ItemNode::FrozenSet(y)) => same_keys(x, y),
            (ItemNode::Dict(x), ItemNode::Dict(y)) => same_pairs(x, y),
            (ItemNode::Object(p, i, x), ItemNode::Object(q, j, y)) => p.eq(q) && i.eq(j)
                && same_pairs(x, y),
            _ => false,
        }
    }
}

// ---------------------------------------------------------------------
// Parts of hashable values
// ---------------------------------------------------------------------

/// What Python tells a part of a hashable value apart by.
#[derive(Debug)]
pub enum Part {
    Scalar(ScalarKey),
    /// A tuple among the items, by its number.
    Tuple(usize),
    /// A tuple or `frozenset` among the members of sets, by its number.
    Node(usize),
}

/// The model of a [`Part`].
pub enum PartVal {
    Scalar(ScalarVal),
    Tuple(usize),
    Node(usize),
}

impl View for Part {
    type V = PartVal;

    open spec fn view(&self) -> PartVal {
        match self {
            Part::Scalar(key) => PartVal::Scalar(key@),
            Part::Tuple(i) => PartVal::Tuple(*i),
            Part::Node(i) => PartVal::Node(*i),
        }
    }
}

impl Keyed for Part {
    open spec fn digest(key: PartVal) -> u64 {
        match key {
            PartVal::Scalar(k) => fx_step(ScalarKey::digest(k), 0),
            PartVal::Tuple(i) => fx_step(fx_step(0, 1), i as u64),
            PartVal::Node(i) => fx_step(fx_step(0, 2), i as u64),
        }
    }

    fn hash_key(&self) -> (hash: u64) {
        let mut hasher: FxHasher = FxHasher { hash: 0 };
        match self {
            Part::Scalar(key) => {
                hasher.hash = key.hash_key();
                hasher.write_u64(0);
            },
            Part::Tuple(i) => {
                hasher.write_u64(1);
                hasher.write_usize(*i);
            },
            Part::Node(i) => {
                hasher.write_u64(2);
                hasher.write_usize(*i);
            },
        }
        hasher.finish()
    }

    fn same_as(&self, other: &Self) -> (result: bool) {
        match (self, other) {
            (Part::Scalar(x), Part::Scalar(y)) => x.same_as(y),
            (Part::Tuple(x), Part::Tuple(y)) => *x == *y,
            (Part::Node(x), Part::Node(y)) => *x == *y,
            _ => false,
        }
    }
}

// ---------------------------------------------------------------------
// Lists of numbers, and what members of sets hold
// ---------------------------------------------------------------------

/// A word for each number.
pub open spec fn number_words(list: Seq<usize>) -> Seq<u64> {
    Seq::new(list.len(), |i: int| list[i] as u64)
}

fn push_number_words(words: &mut Vec<u64>, list: &Vec<usize>)
    ensures
        final(words)@ == old(words)@ + number_words(list@),
{
    let ghost before: Seq<u64> = words@;
    let ghost all: Seq<u64> = number_words(list@);
    let mut i: usize = 0;
    proof {
        assert(before + all.take(0) =~= before);
    }
    while i < list.len()
        invariant
            i <= list.len(),
            all == number_words(list@),
            words@ == before + all.take(i as int),
        decreases list.len() - i,
    {
        words.push(list[i] as u64);
        proof {
            assert(words@ =~= before + all.take(i as int + 1));
        }
        i = i + 1;
    }
    proof {
        assert(all.take(i as int) =~= all);
    }
}

fn same_numbers(a: &Vec<usize>, b: &Vec<usize>) -> (result: bool)
    ensures
        result == (a@ == b@),
{
    if a.len() != b.len() {
        return false;
    }
    let mut i: usize = 0;
    while i < a.len()
        invariant
            i <= a.len(),
            a@.len() == b@.len(),
            forall|k: int| 0 <= k < i ==> #[trigger] a@[k] == b@[k],
        decreases a.len() - i,
    {
        if a[i] != b[i] {
            return false;
        }
        i = i + 1;
    }
    proof {
        assert(a@ =~= b@);
    }
    true
}

/// The parts of a hashable container, by their numbers: those of a tuple in
/// their order, those of a `frozenset` without order or repetition.
#[derive(Debug)]
pub enum HashKey {
    Tuple(Vec<usize>),
    FrozenSet(Vec<(usize, ())>),
}

/// The model of a [`HashKey`].
pub enum HashVal {
    Tuple(Seq<usize>),
    FrozenSet(Keys),
}

impl View for HashKey {
    type V = HashVal;

    open spec fn view(&self) -> HashVal {
        match self {
            HashKey::Tuple(parts) => HashVal::Tuple(parts@),
            HashKey::FrozenSet(parts) => HashVal::FrozenSet(parts@),
        }
    }
}

/// The words that a [`HashKey`] is hashed from.
pub open spec fn hash_key_words(key: HashVal) -> Seq<u64> {
    match key {
        HashVal::Tuple(parts) => seq![0u64] + number_words(parts),
        HashVal::FrozenSet(parts) => seq![1u64] + key_words(parts),
    }
}

impl Keyed for HashKey {
    open spec fn digest(key: HashVal) -> u64 {
        fx_words(0, hash_key_words(key))
    }

    fn hash_key(&self) -> (hash: u64) {
        let mut words: Vec<u64> = Vec::new();
        match self {
            HashKey::Tuple(parts) => {
                words.push(0);
                push_number_words(&mut words, parts);
            },
            HashKey::FrozenSet(parts) => {
                words.push(1);
                push_key_words(&mut words, parts);
            },
        }
        proof {
            assert(words@ =~= hash_key_words(self@));
        }
        hash_words(&words)
    }

    fn same_as(&self, other: &Self) -> (result: bool) {
        match (self, other) {
            (HashKey::Tuple(x), HashKey::Tuple(y)) => same_numbers(x, y),
            (HashKey::FrozenSet(x), HashKey::FrozenSet(y)) => same_keys(x, y),
            _ => false,
        }
    }
}

/// What a member of a set holds: a scalar by its item's key, a container by
/// what stands for its parts.
#[derive(Debug)]
pub enum MemberContent {
    Scalar(usize),
    Tuple(Vec<usize>),
    FrozenSet(Vec<(usize, ())>),
    UnhashableList(Vec<usize>),
    UnhashableSet(Vec<usize>),
    UnhashableDict(Vec<(usize, usize)>),
}

/// The model of a [`MemberContent`].
pub enum ContentVal {
    Scalar(usize),
    Tuple(Seq<usize>),
    FrozenSet(Keys),
    UnhashableList(Seq<usize>),
    UnhashableSet(Seq<usize>),
    UnhashableDict(Seq<(usize, usize)>),
}

impl View for MemberContent {
    type V = ContentVal;

    open spec fn view(&self) -> ContentVal {
        match self {
            MemberContent::Scalar(item) => ContentVal::Scalar(*item),
            MemberContent::Tuple(reps) => ContentVal::Tuple(reps@),
            MemberContent::FrozenSet(reps) => ContentVal::FrozenSet(reps@),
            MemberContent::UnhashableList(reps) => ContentVal::UnhashableList(reps@),
            MemberContent::UnhashableSet(reps) => ContentVal::UnhashableSet(reps@),
            MemberContent::UnhashableDict(pairs) => ContentVal::UnhashableDict(pairs@),
        }
    }
}

/// The words that a [`MemberContent`] is hashed from.
pub open spec fn content_words(content: ContentVal) -> Seq<u64> {
    match content {
        ContentVal::Scalar(item) => seq![0u64, item as u64],
        ContentVal::Tuple(reps) => seq![1u64] + number_words(reps),
        ContentVal::FrozenSet(reps) => seq![2u64] + key_words(reps),
        ContentVal::UnhashableList(reps) => seq![3u64] + number_words(reps),
        ContentVal::UnhashableSet(reps) => seq![4u64] + number_words(reps),
        ContentVal::UnhashableDict(pairs) => seq![5u64] + pair_words(pairs),
    }
}

impl Keyed for MemberContent {
    open spec fn digest(key: ContentVal) -> u64 {
        fx_words(0, content_words(key))
    }

    fn hash_key(&self) -> (hash: u64) {
        let mut words: Vec<u64> = Vec::new();
        match self {
            MemberContent::Scalar(item) => {
                words.push(0);
                words.push(*item as u64);
            },
            MemberContent::Tuple(reps) => {
                words.push(1);
                push_number_words(&mut words, reps);
            },
            MemberContent::FrozenSet(reps) => {
                words.push(2);
                push_key_words(&mut words, reps);
            },
            MemberContent::UnhashableList(reps) => {
                words.push(3);
                push_number_words(&mut words, reps);
            },
            MemberContent::UnhashableSet(reps) => {
                words.push(4);
                push_number_words(&mut words, reps);
            },
            MemberContent::UnhashableDict(pairs) => {
                words.push(5);
                push_pair_words(&mut words, pairs);
            },
        }
        proof {
            assert(words@ =~= content_words(self@));
        }
        hash_words(&words)
    }

    fn same_as(&self, other: &Self) -> (result: bool) {
        match (self, other) {
            (MemberContent::Scalar(x), MemberContent::Scalar(y)) => *x == *y,
            (MemberContent::Tuple(x), MemberContent::Tuple(y)) => same_numbers(x, y),
            (MemberContent::FrozenSet(x), MemberContent::FrozenSet(y)) => same_keys(x, y),
            (
                MemberContent::UnhashableList(x),
                MemberContent::UnhashableList(y),
            ) => same_numbers(x, y),
            (
                MemberContent::UnhashableSet(x),
                MemberContent::UnhashableSet(y),
            ) => same_numbers(x, y),
            (
                MemberContent::UnhashableDict(x),
                MemberContent::UnhashableDict(y),
            ) => same_pairs(x, y),
            _ => false,
        }
    }
}

// ---------------------------------------------------------------------
// What distances are remembered by
// ---------------------------------------------------------------------

/// Two values whose distance is remembered, by their numbers.
#[derive(Debug, Clone, Copy, PartialEq, Eq, Structural)]
pub struct PairKey {
    pub removed: usize,
    pub added: usize,
}

impl View for PairKey {
    type V = PairKey;

    open spec fn view(&self) -> PairKey {
        *self
    }
}

impl Keyed for PairKey {
    open spec fn digest(key: PairKey) -> u64 {
        fx_step(fx_step(0, key.removed as u64), key.added as u64)
    }

    fn hash_key(&self) -> (hash: u64) {
        let mut hasher: FxHasher = FxHasher { hash: 0 };
        hasher.write_usize(self.removed);
        hasher.write_usize(self.added);
        hasher.finish()
    }

    fn same_as(&self, other: &Self) -> (result: bool) {
        self.removed == other.removed && self.added == other.added
    }
}

} // verus!
