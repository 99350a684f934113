//! What one comparison remembers: the tables that number items and members of
//! sets, the distances measured so far, and the values that stand for tokens.

use vstd::prelude::*;

use super::digest::digest_of;
use super::keys::{HashKey, ItemNode, MemberContent, PairKey, Part};
use super::resolver::Resolver;
use crate::diff::equality::values_equal;
use crate::intern::Interner;
use crate::value::Value;

#[allow(unused_imports)]
use super::digest::{lemma_equal_hash, value_digest};
#[allow(unused_imports)]
use super::keys::{ContentVal, HashVal, ItemVal, Keys, PartVal};
#[allow(unused_imports)]
use super::rearranged::tables;
#[allow(unused_imports)]
use super::resolver::{chains_end, charted, lemma_nothing_opened, standing};
#[allow(unused_imports)]
use crate::diff::equality::same_value;
#[allow(unused_imports)]
use crate::intern::{slot, with_key};
#[allow(unused_imports)]
use crate::value::Val;

verus! {

/// The model of an [`IgnoreOrderMemo`].
pub struct MemoVal {
    /// What each item holds; an item's key is its number here.
    pub items: Seq<ItemVal>,
    /// The parts of hashable values.
    pub parts: Seq<PartVal>,
    /// The parts of each hashable tuple among the items.
    pub tuples: Seq<HashVal>,
    /// The key of the first item with the parts of each of these tuples.
    pub tuple_items: Seq<usize>,
    /// The parts of each hashable container among members of sets.
    pub nodes: Seq<HashVal>,
    /// What stands for the first member with the parts of each of these.
    pub node_reps: Seq<usize>,
    /// What each member of a set holds; what stands for it is its number here.
    pub contents: Seq<ContentVal>,
    /// The values whose distances are remembered.
    pub held: Seq<(usize, Val)>,
    /// The pairs of them whose distance is known.
    pub pairs: Seq<PairKey>,
    /// The distance of each of these pairs.
    pub distances: Seq<u64>,
    /// Whether distances are remembered at all.
    pub enabled: bool,
}

/// The model of a memo that remembers nothing yet.
pub open spec fn fresh(enabled: bool) -> MemoVal {
    MemoVal {
        items: seq![],
        parts: seq![],
        tuples: seq![],
        tuple_items: seq![],
        nodes: seq![],
        node_reps: seq![],
        contents: seq![],
        held: seq![],
        pairs: seq![],
        distances: seq![],
        enabled,
    }
}

// ---------------------------------------------------------------------
// What each step remembers, and the number that it gives
// ---------------------------------------------------------------------

/// Numbers what an item holds.
pub open spec fn with_item(m: MemoVal, item: ItemVal) -> (MemoVal, usize) {
    (MemoVal { items: with_key(m.items, item), ..m }, slot(m.items, item) as usize)
}

/// Numbers a part of a hashable value.
pub open spec fn with_part(m: MemoVal, part: PartVal) -> (MemoVal, usize) {
    (MemoVal { parts: with_key(m.parts, part), ..m }, slot(m.parts, part) as usize)
}

/// Numbers a hashable tuple by its parts. Its item's key is that of the first
/// tuple with these parts, whatever this one holds.
pub open spec fn with_tuple(m: MemoVal, parts: Seq<usize>, children: Keys) -> (
    MemoVal,
    usize,
    usize,
) {
    let key = HashVal::Tuple(parts);
    if m.tuples.contains(key) {
        let i = slot(m.tuples, key);
        (m, i as usize, m.tuple_items[i as int])
    } else {
        let (n, item) = with_item(m, ItemVal::Tuple(children));
        (
            MemoVal { tuples: n.tuples.push(key), tuple_items: n.tuple_items.push(item), ..n },
            m.tuples.len() as usize,
            item,
        )
    }
}

/// Numbers what a member of a set holds.
pub open spec fn with_content(m: MemoVal, content: ContentVal) -> (MemoVal, usize) {
    (MemoVal { contents: with_key(m.contents, content), ..m }, slot(m.contents, content) as usize)
}

/// Numbers a hashable container among the members of sets by its parts. What
/// stands for it is what stands for the first container with these parts.
pub open spec fn with_node(m: MemoVal, key: HashVal, content: ContentVal) -> (
    MemoVal,
    usize,
    usize,
) {
    if m.nodes.contains(key) {
        let i = slot(m.nodes, key);
        (m, i as usize, m.node_reps[i as int])
    } else {
        let (n, rep) = with_content(m, content);
        (
            MemoVal { nodes: n.nodes.push(key), node_reps: n.node_reps.push(rep), ..n },
            m.nodes.len() as usize,
            rep,
        )
    }
}

/// Whether an item holds others whose differences its distance counts.
pub open spec fn container(m: MemoVal, item: usize) -> bool {
    match m.items[item as int] {
        ItemVal::List(_) | ItemVal::Tuple(_) | ItemVal::Dict(_) | ItemVal::Object(_, _, _) => true,
        _ => false,
    }
}

/// The first position from `k` on with an item's key and a value equal to a
/// value; the number of positions where there is none.
pub open spec fn held_from(held: Seq<(usize, Val)>, item: usize, value: Val, k: int) -> int
    decreases held.len() - k,
{
    if k < 0 || k >= held.len() {
        held.len() as int
    } else if held[k].0 == item && same_value(held[k].1, value) {
        k
    } else {
        held_from(held, item, value, k + 1)
    }
}

/// Numbers a value whose distances are remembered; equal values share a number.
pub open spec fn with_held(m: MemoVal, item: usize, value: Val) -> (MemoVal, usize) {
    let k = held_from(m.held, item, value, 0);
    if k < m.held.len() {
        (m, k as usize)
    } else {
        (MemoVal { held: m.held.push((item, value)), ..m }, k as usize)
    }
}

/// The distance of two values, if it is known.
pub open spec fn known(m: MemoVal, removed: usize, added: usize) -> Option<u64> {
    let key = PairKey { removed, added };
    if m.pairs.contains(key) {
        Some(m.distances[slot(m.pairs, key) as int])
    } else {
        None
    }
}

/// Remembers the distance of two values.
pub open spec fn with_distance(m: MemoVal, removed: usize, added: usize, distance: u64) -> MemoVal {
    let key = PairKey { removed, added };
    if m.pairs.contains(key) {
        MemoVal { distances: m.distances.update(slot(m.pairs, key) as int, distance), ..m }
    } else {
        MemoVal { pairs: m.pairs.push(key), distances: m.distances.push(distance), ..m }
    }
}

/// The value that stands for the tokens of an identity: the first one given
/// for it.
pub open spec fn resolution(resolutions: Seq<(Seq<char>, Val)>, identity: Seq<char>) -> Option<Val>
    decreases resolutions.len(),
{
    if resolutions.len() == 0 {
        None
    } else if resolutions[0].0 == identity {
        Some(resolutions[0].1)
    } else {
        resolution(resolutions.drop_first(), identity)
    }
}

// ---------------------------------------------------------------------
// The memo
// ---------------------------------------------------------------------

/// A value whose distances are remembered, with its item's key and its hash.
#[derive(Debug)]
pub struct DistKey {
    pub item: usize,
    pub digest: u64,
    pub value: Value,
}

/// The models of several such values.
pub open spec fn held_views(held: Seq<DistKey>) -> Seq<(usize, Val)> {
    Seq::new(held.len(), |i: int| (held[i].item, held[i].value@))
}

/// What one comparison remembers.
#[derive(Debug)]
pub struct IgnoreOrderMemo<'r> {
    items: Interner<ItemNode>,
    parts: Interner<Part>,
    tuples: Interner<HashKey>,
    tuple_items: Vec<usize>,
    nodes: Interner<HashKey>,
    node_reps: Vec<usize>,
    contents: Interner<MemberContent>,
    held: Vec<DistKey>,
    pairs: Interner<PairKey>,
    distances: Vec<u64>,
    enabled: bool,
    resolver: Option<&'r Resolver<'r>>,
    first_in_order: Vec<bool>,
    first_without_order: Vec<bool>,
    second_in_order: Vec<bool>,
    second_without_order: Vec<bool>,
}

impl<'r> View for IgnoreOrderMemo<'r> {
    type V = MemoVal;

    closed spec fn view(&self) -> MemoVal {
        MemoVal {
            items: self.items@,
            parts: self.parts@,
            tuples: self.tuples@,
            tuple_items: self.tuple_items@,
            nodes: self.nodes@,
            node_reps: self.node_reps@,
            contents: self.contents@,
            held: held_views(self.held@),
            pairs: self.pairs@,
            distances: self.distances@,
            enabled: self.enabled,
        }
    }
}

impl<'r> IgnoreOrderMemo<'r> {
    /// The values that stand for tokens, by identity.
    pub closed spec fn table(&self) -> Seq<(Seq<char>, Val)> {
        match self.resolver {
            Some(resolver) => resolver@,
            None => seq![],
        }
    }

    /// Whether every table is in order.
    pub closed spec fn well_formed(&self) -> bool {
        &&& self.items.well_formed()
        &&& self.parts.well_formed()
        &&& self.tuples.well_formed()
        &&& self.nodes.well_formed()
        &&& self.contents.well_formed()
        &&& self.pairs.well_formed()
        &&& self.tuple_items@.len() == self.tuples@.len()
        &&& self.node_reps@.len() == self.nodes@.len()
        &&& self.distances@.len() == self.pairs@.len()
        &&& forall|i: int|
            0 <= i < self.tuple_items@.len() ==> (#[trigger] self.tuple_items@[i])
                < self.items@.len()
        &&& forall|i: int|
            0 <= i < self.held@.len() ==> (#[trigger] self.held@[i]).digest == value_digest(
                self.held@[i].value@,
            )
        &&& charted(self.table(), true, false, self.first_in_order@)
        &&& charted(self.table(), true, true, self.first_without_order@)
        &&& charted(self.table(), false, false, self.second_in_order@)
        &&& charted(self.table(), false, true, self.second_without_order@)
    }

    /// The tables of a memo hold nothing twice.
    pub proof fn lemma_tables(&self)
        requires
            self.well_formed(),
        ensures
            tables(self@),
    {
        self.items.lemma_distinct();
        self.parts.lemma_distinct();
        self.tuples.lemma_distinct();
        self.nodes.lemma_distinct();
        self.contents.lemma_distinct();
    }

    /// Of which values for tokens the chains of tokens end.
    fn chart(resolver: Option<&'r Resolver<'r>>, first: bool, unordered: bool) -> (ends: Vec<bool>)
        ensures
            charted(
                (match resolver {
                    Some(resolver) => resolver@,
                    None => seq![],
                }),
                first,
                unordered,
                ends@,
            ),
    {
        match resolver {
            Some(resolver) => resolver.chains(first, unordered),
            None => Vec::new(),
        }
    }

    fn start(enabled: bool, resolver: Option<&'r Resolver<'r>>) -> (memo: Self)
        ensures
            memo.well_formed(),
            memo@ == fresh(enabled),
            memo.table() == (match resolver {
                Some(resolver) => resolver@,
                None => seq![],
            }),
    {
        let memo: IgnoreOrderMemo<'r> = IgnoreOrderMemo {
            items: Interner::new(),
            parts: Interner::new(),
            tuples: Interner::new(),
            tuple_items: Vec::new(),
            nodes: Interner::new(),
            node_reps: Vec::new(),
            contents: Interner::new(),
            held: Vec::new(),
            pairs: Interner::new(),
            distances: Vec::new(),
            enabled,
            resolver,
            first_in_order: Self::chart(resolver, true, false),
            first_without_order: Self::chart(resolver, true, true),
            second_in_order: Self::chart(resolver, false, false),
            second_without_order: Self::chart(resolver, false, true),
        };
        proof {
            assert(memo@.held =~= seq![]);
        }
        memo
    }

    /// A memo that remembers nothing yet.
    pub fn new() -> (memo: Self)
        ensures
            memo.well_formed(),
            memo@ == fresh(true),
            memo.table() == Seq::<(Seq<char>, Val)>::empty(),
    {
        Self::start(true, None)
    }

    /// A memo that never remembers a distance.
    pub fn disabled() -> (memo: Self)
        ensures
            memo.well_formed(),
            memo@ == fresh(false),
            memo.table() == Seq::<(Seq<char>, Val)>::empty(),
    {
        Self::start(false, None)
    }

    /// A memo in which values stand for tokens.
    pub fn with_resolver(resolver: &'r Resolver<'r>) -> (memo: Self)
        ensures
            memo.well_formed(),
            memo@ == fresh(true),
            memo.table() == resolver@,
    {
        Self::start(true, Some(resolver))
    }

    /// Whether distances are remembered.
    pub fn caching_enabled(&self) -> (enabled: bool)
        ensures
            enabled == self@.enabled,
    {
        self.enabled
    }

    /// The number of distances that are remembered.
    pub fn cache_len(&self) -> (len: usize)
        ensures
            len == self@.pairs.len(),
    {
        self.pairs.len()
    }

    /// The number of what an item holds.
    pub fn item(&mut self, node: ItemNode) -> (item: usize)
        requires
            old(self).well_formed(),
        ensures
            final(self).well_formed(),
            final(self).table() == old(self).table(),
            (final(self)@, item) == with_item(old(self)@, node@),
            item < final(self)@.items.len(),
            old(self)@.items.len() <= final(self)@.items.len(),
    {
        self.items.intern(node)
    }

    /// The number of a part.
    pub fn part(&mut self, part: Part) -> (number: usize)
        requires
            old(self).well_formed(),
        ensures
            final(self).well_formed(),
            final(self).table() == old(self).table(),
            (final(self)@, number) == with_part(old(self)@, part@),
    {
        self.parts.intern(part)
    }

    /// The number of a hashable tuple, and its item's key.
    pub fn tuple_digest(&mut self, parts: Vec<usize>, children: Vec<(usize, ())>) -> (result: (
        usize,
        usize,
    ))
        requires
            old(self).well_formed(),
        ensures
            final(self).well_formed(),
            final(self).table() == old(self).table(),
            (final(self)@, result.0, result.1) == with_tuple(old(self)@, parts@, children@),
            result.1 < final(self)@.items.len(),
            old(self)@.items.len() <= final(self)@.items.len(),
    {
        let key: HashKey = HashKey::Tuple(parts);
        match self.tuples.find(&key) {
            Some(i) => (i, self.tuple_items[i]),
            None => {
                let item: usize = self.item(ItemNode::Tuple(children));
                let i: usize = self.tuples.insert(key);
                self.tuple_items.push(item);
                (i, item)
            },
        }
    }

    /// What stands for a member of a set that holds this.
    pub fn content_rep(&mut self, content: MemberContent) -> (rep: usize)
        requires
            old(self).well_formed(),
        ensures
            final(self).well_formed(),
            final(self).table() == old(self).table(),
            (final(self)@, rep) == with_content(old(self)@, content@),
    {
        self.contents.intern(content)
    }

    /// The number of a hashable container, and what stands for it.
    pub fn member_rep(&mut self, key: HashKey, content: MemberContent) -> (result: (usize, usize))
        requires
            old(self).well_formed(),
        ensures
            final(self).well_formed(),
            final(self).table() == old(self).table(),
            (final(self)@, result.0, result.1) == with_node(old(self)@, key@, content@),
    {
        match self.nodes.find(&key) {
            Some(i) => (i, self.node_reps[i]),
            None => {
                let rep: usize = self.content_rep(content);
                let i: usize = self.nodes.insert(key);
                self.node_reps.push(rep);
                (i, rep)
            },
        }
    }

    /// Whether an item holds others whose differences its distance counts.
    pub fn is_container(&self, item: usize) -> (result: bool)
        requires
            item < self@.items.len(),
        ensures
            result == container(self@, item),
    {
        match self.items.get(item) {
            ItemNode::List(_)
            | ItemNode::Tuple(_)
            | ItemNode::Dict(_)
            | ItemNode::Object(_, _, _) => true,
            _ => false,
        }
    }

    /// The number of a value whose distances are remembered.
    pub fn hold(&mut self, item: usize, value: &Value) -> (number: usize)
        requires
            old(self).well_formed(),
        ensures
            final(self).well_formed(),
            final(self).table() == old(self).table(),
            (final(self)@, number) == with_held(old(self)@, item, value@),
    {
        let ghost held: Seq<(usize, Val)> = held_views(self.held@);
        let digest: u64 = digest_of(value);
        let mut i: usize = 0;
        while i < self.held.len()
            invariant
                digest == value_digest(value@),
                i <= self.held.len(),
                *self == *old(self),
                self.well_formed(),
                held == held_views(self.held@),
                held_from(held, item, value@, i as int) == held_from(held, item, value@, 0),
            decreases self.held.len() - i,
        {
            if self.held[i].item == item && self.held[i].digest == digest && values_equal(
                &self.held[i].value,
                value,
            ) {
                return i;
            }
            proof {
                if same_value(held[i as int].1, value@) {
                    lemma_equal_hash(held[i as int].1, value@);
                }
            }
            i = i + 1;
        }
        self.held.push(DistKey { item, digest, value: value.duplicate() });
        proof {
            assert(held_views(self.held@) =~= held.push((item, value@)));
        }
        i
    }

    /// The distance of two values, if it is known.
    pub fn get(&self, removed: usize, added: usize) -> (distance: Option<u64>)
        requires
            self.well_formed(),
        ensures
            distance == known(self@, removed, added),
    {
        match self.pairs.find(&PairKey { removed, added }) {
            Some(i) => Some(self.distances[i]),
            None => None,
        }
    }

    /// Remembers the distance of two values.
    pub fn put(&mut self, removed: usize, added: usize, distance: u64)
        requires
            old(self).well_formed(),
        ensures
            final(self).well_formed(),
            final(self).table() == old(self).table(),
            final(self)@ == with_distance(old(self)@, removed, added, distance),
    {
        let key: PairKey = PairKey { removed, added };
        match self.pairs.find(&key) {
            Some(i) => {
                self.distances.set(i, distance);
            },
            None => {
                let _: usize = self.pairs.insert(key);
                self.distances.push(distance);
            },
        }
    }

    /// The value that is compared in place of the tokens of an identity, if the tokens
    /// that stand for one another come to an end.
    pub fn standing_for(&self, first: bool, identity: &String) -> (value: Option<&'r Value>)
        requires
            self.well_formed(),
        ensures
            (match value {
                Some(value) => Some(value@),
                None => None,
            }) == standing(self.table(), first, identity@),
    {
        match self.resolver {
            Some(resolver) => match resolver.position(identity) {
                Some(i) => {
                    let ends: bool = if first {
                        self.first_in_order[i]
                    } else {
                        self.second_in_order[i]
                    };
                    if ends {
                        Some(resolver.value_at(i))
                    } else {
                        None
                    }
                },
                None => None,
            },
            None => None,
        }
    }

    /// Whether the chains of tokens from a value end on one side of a comparison, in
    /// order or without.
    pub fn value_ends(&self, first: bool, unordered: bool, value: &Value) -> (result: bool)
        requires
            self.well_formed(),
        ensures
            result == chains_end(self.table(), first, unordered, value@),
    {
        match self.resolver {
            Some(resolver) => {
                let ends: &Vec<bool> = match (first, unordered) {
                    (true, false) => &self.first_in_order,
                    (true, true) => &self.first_without_order,
                    (false, false) => &self.second_in_order,
                    (false, true) => &self.second_without_order,
                };
                resolver.value_ends(first, unordered, value, ends)
            },
            None => {
                proof {
                    lemma_nothing_opened(first, unordered, 1, value@);
                }
                true
            },
        }
    }
}

} // verus!
