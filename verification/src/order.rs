//! Total orders, and lists of pairs kept in the order of their keys.

use vstd::prelude::*;

verus! {

/// Where one thing stands relative to another.
#[derive(Debug, Clone, Copy, PartialEq, Eq, Structural)]
pub enum Place {
    Before,
    Same,
    After,
}

/// The same relation, read from the other side.
pub open spec fn flip(place: Place) -> Place {
    match place {
        Place::Before => Place::After,
        Place::Same => Place::Same,
        Place::After => Place::Before,
    }
}

/// The first comparison, or the second where the first decides nothing.
pub open spec fn refine(first: Place, second: Place) -> Place {
    if first == Place::Same {
        second
    } else {
        first
    }
}

/// The order of the integers.
pub open spec fn int_place(a: int, b: int) -> Place {
    if a < b {
        Place::Before
    } else if a == b {
        Place::Same
    } else {
        Place::After
    }
}

/// The lexicographic order of sequences of integers.
pub open spec fn ints_place(a: Seq<int>, b: Seq<int>) -> Place
    decreases a.len(),
{
    if a.len() == 0 {
        if b.len() == 0 {
            Place::Same
        } else {
            Place::Before
        }
    } else if b.len() == 0 {
        Place::After
    } else {
        refine(int_place(a[0], b[0]), ints_place(a.drop_first(), b.drop_first()))
    }
}

/// The order of sequences of integers is total, and ties are equalities.
pub proof fn lemma_ints_place(a: Seq<int>, b: Seq<int>)
    ensures
        ints_place(b, a) == flip(ints_place(a, b)),
        ints_place(a, b) == Place::Same <==> a == b,
    decreases a.len(),
{
    if a.len() > 0 && b.len() > 0 {
        lemma_ints_place(a.drop_first(), b.drop_first());
        if ints_place(a, b) == Place::Same {
            assert(a =~= seq![a[0]] + a.drop_first());
            assert(b =~= seq![b[0]] + b.drop_first());
        }
    } else if a.len() == 0 && b.len() == 0 {
        assert(a =~= b);
    }
}

/// The order of sequences of integers is transitive.
pub proof fn lemma_ints_place_transitive(a: Seq<int>, b: Seq<int>, c: Seq<int>)
    requires
        ints_place(a, b) == Place::Before,
        ints_place(b, c) == Place::Before,
    ensures
        ints_place(a, c) == Place::Before,
    decreases a.len(),
{
    if a.len() > 0 && b.len() > 0 && c.len() > 0 {
        if a[0] == b[0] && b[0] == c[0] {
            lemma_ints_place_transitive(a.drop_first(), b.drop_first(), c.drop_first());
        }
    }
}

/// The characters of a text as integers.
pub open spec fn code_points(text: Seq<char>) -> Seq<int> {
    Seq::new(text.len(), |i: int| text[i] as int)
}

/// Texts with the same code points are the same.
pub proof fn lemma_code_points(a: Seq<char>, b: Seq<char>)
    ensures
        code_points(a) == code_points(b) <==> a == b,
{
    if code_points(a) == code_points(b) {
        assert(a.len() == code_points(a).len());
        assert forall|i: int| 0 <= i < a.len() implies a[i] == b[i] by {
            assert(code_points(a)[i] == code_points(b)[i]);
        }
        assert(a =~= b);
    }
}

/// The order of texts: by their code points.
pub open spec fn text_place(a: Seq<char>, b: Seq<char>) -> Place {
    ints_place(code_points(a), code_points(b))
}

/// The order of two 128-bit integers.
pub fn order_ints(a: i128, b: i128) -> (place: Place)
    ensures
        place == int_place(a as int, b as int),
{
    if a < b {
        Place::Before
    } else if a == b {
        Place::Same
    } else {
        Place::After
    }
}

/// The order of two texts.
pub fn order_texts(a: &str, b: &str) -> (place: Place)
    ensures
        place == text_place(a@, b@),
{
    let x: Vec<char> = crate::text::chars_of(a);
    let y: Vec<char> = crate::text::chars_of(b);
    let mut i: usize = 0;
    proof {
        assert(code_points(a@).skip(0) =~= code_points(a@));
        assert(code_points(b@).skip(0) =~= code_points(b@));
    }
    while i < x.len() && i < y.len()
        invariant
            x@ == a@,
            y@ == b@,
            i <= x.len(),
            i <= y.len(),
            text_place(a@, b@) == ints_place(
                code_points(a@).skip(i as int),
                code_points(b@).skip(i as int),
            ),
        decreases x.len() - i,
    {
        proof {
            assert(code_points(a@).skip(i as int).drop_first() =~= code_points(a@).skip(
                i as int + 1,
            ));
            assert(code_points(b@).skip(i as int).drop_first() =~= code_points(b@).skip(
                i as int + 1,
            ));
        }
        let c: char = x[i];
        let d: char = y[i];
        if c < d {
            return Place::Before;
        }
        if c != d {
            return Place::After;
        }
        i = i + 1;
    }
    if i < y.len() {
        Place::Before
    } else if i < x.len() {
        Place::After
    } else {
        Place::Same
    }
}

/// A type whose models are totally ordered.
pub trait Ordered: View + Sized {
    /// Where `a` stands relative to `b`.
    spec fn place(a: Self::V, b: Self::V) -> Place;

    /// The order reads the same from both sides, and ties are equalities.
    proof fn lemma_total(a: Self::V, b: Self::V)
        ensures
            Self::place(b, a) == flip(Self::place(a, b)),
            Self::place(a, b) == Place::Same <==> a == b,
    ;

    /// The order is transitive.
    proof fn lemma_transitive(a: Self::V, b: Self::V, c: Self::V)
        requires
            Self::place(a, b) == Place::Before,
            Self::place(b, c) == Place::Before,
        ensures
            Self::place(a, c) == Place::Before,
    ;

    /// Where `self` stands relative to `other`.
    fn order(&self, other: &Self) -> (place: Place)
        ensures
            place == Self::place(self@, other@),
    ;
}

impl Ordered for String {
    open spec fn place(a: Seq<char>, b: Seq<char>) -> Place {
        text_place(a, b)
    }

    proof fn lemma_total(a: Seq<char>, b: Seq<char>) {
        lemma_ints_place(code_points(a), code_points(b));
        lemma_code_points(a, b);
    }

    proof fn lemma_transitive(a: Seq<char>, b: Seq<char>, c: Seq<char>) {
        lemma_ints_place_transitive(code_points(a), code_points(b), code_points(c));
    }

    fn order(&self, other: &Self) -> (place: Place) {
        order_texts(self.as_str(), other.as_str())
    }
}

// ---------------------------------------------------------------------
// Lists of pairs in the order of their keys
// ---------------------------------------------------------------------

/// The models of a list of pairs.
pub open spec fn pair_views<K: View, V: View>(pairs: Seq<(K, V)>) -> Seq<(K::V, V::V)> {
    Seq::new(pairs.len(), |i: int| (pairs[i].0@, pairs[i].1@))
}

/// Whether the keys strictly ascend.
pub open spec fn ascending<K: Ordered, W>(pairs: Seq<(K::V, W)>) -> bool {
    forall|i: int, j: int|
        0 <= i < j < pairs.len() ==> #[trigger] K::place(pairs[i].0, pairs[j].0) == Place::Before
}

/// The value under a key.
pub open spec fn lookup<K, W>(pairs: Seq<(K, W)>, key: K) -> Option<W>
    decreases pairs.len(),
{
    if pairs.len() == 0 {
        None
    } else if pairs.last().0 == key {
        Some(pairs.last().1)
    } else {
        lookup(pairs.drop_last(), key)
    }
}

/// The list with `value` under `key`: in its place, or over the value that was
/// there.
pub open spec fn put<K: Ordered, W>(pairs: Seq<(K::V, W)>, key: K::V, value: W) -> Seq<(K::V, W)>
    decreases pairs.len(),
{
    if pairs.len() == 0 {
        seq![(key, value)]
    } else {
        match K::place(pairs.last().0, key) {
            Place::Before => pairs.push((key, value)),
            Place::Same => pairs.drop_last().push((key, value)),
            Place::After => put::<K, W>(pairs.drop_last(), key, value).push(pairs.last()),
        }
    }
}

/// The list of the pairs put in one after another, a later one over an earlier
/// one with its key.
pub open spec fn put_all<K: Ordered, W>(
    pairs: Seq<(K::V, W)>,
    more: Seq<(K::V, W)>,
) -> Seq<(K::V, W)>
    decreases more.len(),
{
    if more.len() == 0 {
        pairs
    } else {
        put::<K, W>(put_all::<K, W>(pairs, more.drop_last()), more.last().0, more.last().1)
    }
}

/// A pair that stands in the list is found under its key only if no other one
/// follows with that key.
pub proof fn lemma_lookup<K, W>(pairs: Seq<(K, W)>, key: K)
    ensures
        lookup(pairs, key) is None <==> (forall|i: int|
            0 <= i < pairs.len() ==> (#[trigger] pairs[i]).0 != key),
        lookup(pairs, key) matches Some(w) ==> exists|i: int|
            0 <= i < pairs.len() && #[trigger] pairs[i] == (key, w),
    decreases pairs.len(),
{
    if pairs.len() > 0 {
        lemma_lookup(pairs.drop_last(), key);
        if pairs.last().0 == key {
            assert(pairs[pairs.len() - 1] == (key, pairs.last().1));
        } else if lookup(pairs.drop_last(), key) is None {
            assert forall|i: int| 0 <= i < pairs.len() implies (#[trigger] pairs[i]).0 != key by {
                if i < pairs.len() - 1 {
                    assert(pairs.drop_last()[i] == pairs[i]);
                }
            }
        } else {
            let w: W = lookup(pairs.drop_last(), key)->Some_0;
            let i: int = choose|i: int|
                0 <= i < pairs.drop_last().len() && #[trigger] pairs.drop_last()[i] == (key, w);
            assert(pairs[i] == (key, w));
        }
    }
}

/// In an ascending list, what stands at a position is found under its key.
pub proof fn lemma_lookup_at<K: Ordered, W>(pairs: Seq<(K::V, W)>, i: int)
    requires
        ascending::<K, W>(pairs),
        0 <= i < pairs.len(),
    ensures
        lookup(pairs, pairs[i].0) == Some(pairs[i].1),
    decreases pairs.len(),
{
    if i < pairs.len() - 1 {
        K::lemma_total(pairs[i].0, pairs.last().0);
        assert(K::place(pairs[i].0, pairs[pairs.len() - 1].0) == Place::Before);
        assert forall|x: int, y: int| 0 <= x < y < pairs.drop_last().len() implies #[trigger] K::place(
            pairs.drop_last()[x].0,
            pairs.drop_last()[y].0,
        ) == Place::Before by {
            assert(K::place(pairs[x].0, pairs[y].0) == Place::Before);
        }
        lemma_lookup_at::<K, W>(pairs.drop_last(), i);
    }
}

/// Putting a value in keeps the list ascending, and changes what is found under
/// that key alone.
pub proof fn lemma_put<K: Ordered, W>(pairs: Seq<(K::V, W)>, key: K::V, value: W)
    requires
        ascending::<K, W>(pairs),
    ensures
        ascending::<K, W>(put::<K, W>(pairs, key, value)),
        forall|other: K::V| #[trigger]
            lookup(put::<K, W>(pairs, key, value), other) == if other == key {
                Some(value)
            } else {
                lookup(pairs, other)
            },
        forall|i: int|
            0 <= i < put::<K, W>(pairs, key, value).len() ==> {
                let found = #[trigger] put::<K, W>(pairs, key, value)[i];
                found.0 == key || exists|j: int| 0 <= j < pairs.len() && #[trigger] pairs[j] == found
            },
        put::<K, W>(pairs, key, value).len() == pairs.len() + if lookup(pairs, key) is None {
            1int
        } else {
            0
        },
    decreases pairs.len(),
{
    let result: Seq<(K::V, W)> = put::<K, W>(pairs, key, value);
    if pairs.len() == 0 {
        assert(result.drop_last() =~= pairs);
        assert forall|other: K::V| #[trigger] lookup(result, other) == if other == key {
            Some(value)
        } else {
            lookup(pairs, other)
        } by {}
    } else {
        let front: Seq<(K::V, W)> = pairs.drop_last();
        assert forall|x: int, y: int| 0 <= x < y < front.len() implies #[trigger] K::place(
            front[x].0,
            front[y].0,
        ) == Place::Before by {
            assert(K::place(pairs[x].0, pairs[y].0) == Place::Before);
        }
        let last = pairs.last();
        K::lemma_total(last.0, key);
        match K::place(last.0, key) {
            Place::Before => {
                assert(result.drop_last() =~= pairs);
                assert forall|x: int, y: int| 0 <= x < y < result.len() implies #[trigger] K::place(
                    result[x].0,
                    result[y].0,
                ) == Place::Before by {
                    if y < pairs.len() {
                        assert(K::place(pairs[x].0, pairs[y].0) == Place::Before);
                    } else if x < pairs.len() - 1 {
                        assert(K::place(pairs[x].0, pairs[pairs.len() - 1].0) == Place::Before);
                        K::lemma_transitive(pairs[x].0, last.0, key);
                    }
                }
                lemma_lookup(pairs, key);
                assert forall|i: int| 0 <= i < pairs.len() implies (#[trigger] pairs[i]).0 != key by {
                    if i < pairs.len() - 1 {
                        assert(K::place(pairs[i].0, pairs[pairs.len() - 1].0) == Place::Before);
                        K::lemma_transitive(pairs[i].0, last.0, key);
                        K::lemma_total(pairs[i].0, key);
                    }
                }
                assert forall|i: int| 0 <= i < result.len() implies {
                    let found = #[trigger] result[i];
                    found.0 == key || exists|j: int|
                        0 <= j < pairs.len() && #[trigger] pairs[j] == found
                } by {
                    if i < pairs.len() {
                        assert(pairs[i] == result[i]);
                    }
                }
            },
            Place::Same => {
                assert(result.drop_last() =~= front);
                assert forall|x: int, y: int| 0 <= x < y < result.len() implies #[trigger] K::place(
                    result[x].0,
                    result[y].0,
                ) == Place::Before by {
                    assert(K::place(pairs[x].0, pairs[y].0) == Place::Before);
                }
                assert forall|i: int| 0 <= i < result.len() implies {
                    let found = #[trigger] result[i];
                    found.0 == key || exists|j: int|
                        0 <= j < pairs.len() && #[trigger] pairs[j] == found
                } by {
                    if i < front.len() {
                        assert(pairs[i] == result[i]);
                    }
                }
            },
            Place::After => {
                lemma_put::<K, W>(front, key, value);
                let inner: Seq<(K::V, W)> = put::<K, W>(front, key, value);
                assert(result.drop_last() =~= inner);
                assert forall|x: int, y: int| 0 <= x < y < result.len() implies #[trigger] K::place(
                    result[x].0,
                    result[y].0,
                ) == Place::Before by {
                    if y < inner.len() {
                        assert(K::place(inner[x].0, inner[y].0) == Place::Before);
                    } else {
                        let found = inner[x];
                        if found.0 != key {
                            let j: int = choose|j: int|
                                0 <= j < front.len() && #[trigger] front[j] == found;
                            assert(K::place(pairs[j].0, pairs[pairs.len() - 1].0) == Place::Before);
                        }
                    }
                }
                assert forall|other: K::V| #[trigger] lookup(result, other) == if other == key {
                    Some(value)
                } else {
                    lookup(pairs, other)
                } by {
                    assert(lookup(inner, other) == if other == key {
                        Some(value)
                    } else {
                        lookup(front, other)
                    });
                }
                assert forall|i: int| 0 <= i < result.len() implies {
                    let found = #[trigger] result[i];
                    found.0 == key || exists|j: int|
                        0 <= j < pairs.len() && #[trigger] pairs[j] == found
                } by {
                    if i < inner.len() {
                        let found = inner[i];
                        assert(result[i] == found);
                        if found.0 != key {
                            let j: int = choose|j: int|
                                0 <= j < front.len() && #[trigger] front[j] == found;
                            assert(pairs[j] == found);
                        }
                    } else {
                        assert(pairs[pairs.len() - 1] == result[i]);
                    }
                }
            },
        }
    }
}

/// Putting in several pairs keeps the list ascending.
pub proof fn lemma_put_all<K: Ordered, W>(pairs: Seq<(K::V, W)>, more: Seq<(K::V, W)>)
    requires
        ascending::<K, W>(pairs),
    ensures
        ascending::<K, W>(put_all::<K, W>(pairs, more)),
        forall|key: K::V| #[trigger]
            lookup(put_all::<K, W>(pairs, more), key) == if lookup(more, key) is Some {
                lookup(more, key)
            } else {
                lookup(pairs, key)
            },
    decreases more.len(),
{
    if more.len() > 0 {
        lemma_put_all::<K, W>(pairs, more.drop_last());
        lemma_put::<K, W>(
            put_all::<K, W>(pairs, more.drop_last()),
            more.last().0,
            more.last().1,
        );
    }
}

/// An ascending list is determined by what is found in it.
pub proof fn lemma_ascending_identified<K: Ordered, W>(a: Seq<(K::V, W)>, b: Seq<(K::V, W)>)
    requires
        ascending::<K, W>(a),
        ascending::<K, W>(b),
        forall|key: K::V| #[trigger] lookup(a, key) == lookup(b, key),
    ensures
        a == b,
    decreases a.len() + b.len(),
{
    if a.len() == 0 {
        if b.len() > 0 {
            lemma_lookup_at::<K, W>(b, 0);
            assert(lookup(a, b[0].0) is None);
        }
        assert(a =~= b);
    } else if b.len() == 0 {
        lemma_lookup_at::<K, W>(a, 0);
        assert(lookup(b, a[0].0) is None);
    } else {
        let x = a.last();
        let y = b.last();
        lemma_lookup_at::<K, W>(a, a.len() - 1);
        lemma_lookup_at::<K, W>(b, b.len() - 1);
        lemma_lookup(b, x.0);
        lemma_lookup(a, y.0);
        K::lemma_total(x.0, y.0);
        assert(lookup(b, x.0) == Some(x.1));
        assert(lookup(a, y.0) == Some(y.1));
        let i: int = choose|i: int| 0 <= i < b.len() && #[trigger] b[i] == (x.0, x.1);
        let j: int = choose|j: int| 0 <= j < a.len() && #[trigger] a[j] == (y.0, y.1);
        if x.0 != y.0 {
            assert(i < b.len() - 1);
            assert(K::place(b[i].0, b[b.len() - 1].0) == Place::Before);
            assert(j < a.len() - 1);
            assert(K::place(a[j].0, a[a.len() - 1].0) == Place::Before);
            assert(false);
        }
        assert(x == y);
        lemma_front_ascending::<K, W>(a);
        lemma_front_ascending::<K, W>(b);
        assert forall|key: K::V| #[trigger] lookup(a.drop_last(), key) == lookup(
            b.drop_last(),
            key,
        ) by {
            assert(lookup(a, key) == lookup(b, key));
            if key == x.0 {
                lemma_lookup(a.drop_last(), key);
                lemma_lookup(b.drop_last(), key);
                assert forall|k: int| 0 <= k < a.drop_last().len() implies (
                #[trigger] a.drop_last()[k]).0 != key by {
                    assert(K::place(a[k].0, a[a.len() - 1].0) == Place::Before);
                    K::lemma_total(a[k].0, key);
                }
                assert forall|k: int| 0 <= k < b.drop_last().len() implies (
                #[trigger] b.drop_last()[k]).0 != key by {
                    assert(K::place(b[k].0, b[b.len() - 1].0) == Place::Before);
                    K::lemma_total(b[k].0, key);
                }
            }
        }
        lemma_ascending_identified::<K, W>(a.drop_last(), b.drop_last());
        assert(a =~= a.drop_last().push(x));
        assert(b =~= b.drop_last().push(y));
    }
}

/// The front of an ascending list ascends.
pub proof fn lemma_front_ascending<K: Ordered, W>(pairs: Seq<(K::V, W)>)
    requires
        ascending::<K, W>(pairs),
        pairs.len() > 0,
    ensures
        ascending::<K, W>(pairs.drop_last()),
{
    let front: Seq<(K::V, W)> = pairs.drop_last();
    assert forall|x: int, y: int| 0 <= x < y < front.len() implies #[trigger] K::place(
        front[x].0,
        front[y].0,
    ) == Place::Before by {
        assert(K::place(pairs[x].0, pairs[y].0) == Place::Before);
    }
}

/// A list in order, put in pair by pair, is itself.
pub proof fn lemma_put_all_itself<K: Ordered, W>(pairs: Seq<(K::V, W)>)
    requires
        ascending::<K, W>(pairs),
    ensures
        put_all::<K, W>(seq![], pairs) == pairs,
    decreases pairs.len(),
{
    if pairs.len() > 0 {
        lemma_front_ascending::<K, W>(pairs);
        lemma_put_all_itself::<K, W>(pairs.drop_last());
        assert(pairs.drop_last().push(pairs.last()) =~= pairs);
        if pairs.len() > 1 {
            assert(K::place(pairs[pairs.len() - 2].0, pairs[pairs.len() - 1].0) == Place::Before);
        } else {
            assert(seq![pairs.last()] =~= pairs);
        }
    }
}

/// What `put` does, by position: everything before `at` stands before the key,
/// and everything from `at` on after it.
proof fn lemma_put_inserts<K: Ordered, W>(pairs: Seq<(K::V, W)>, key: K::V, value: W, at: int)
    requires
        0 <= at <= pairs.len(),
        forall|i: int| 0 <= i < at ==> K::place((#[trigger] pairs[i]).0, key) == Place::Before,
        forall|i: int|
            at <= i < pairs.len() ==> K::place((#[trigger] pairs[i]).0, key) == Place::After,
    ensures
        put::<K, W>(pairs, key, value) == pairs.insert(at, (key, value)),
    decreases pairs.len(),
{
    if at < pairs.len() {
        lemma_put_inserts::<K, W>(pairs.drop_last(), key, value, at);
        assert(pairs.drop_last().insert(at, (key, value)).push(pairs.last()) =~= pairs.insert(
            at,
            (key, value),
        ));
    } else if pairs.len() > 0 {
        assert(K::place(pairs[pairs.len() - 1].0, key) == Place::Before);
        assert(pairs.push((key, value)) =~= pairs.insert(at, (key, value)));
    } else {
        assert(seq![(key, value)] =~= pairs.insert(at, (key, value)));
    }
}

/// What `put` does to a key that is there already.
proof fn lemma_put_replaces<K: Ordered, W>(pairs: Seq<(K::V, W)>, key: K::V, value: W, at: int)
    requires
        0 <= at < pairs.len(),
        K::place(pairs[at].0, key) == Place::Same,
        forall|i: int|
            at < i < pairs.len() ==> K::place((#[trigger] pairs[i]).0, key) == Place::After,
    ensures
        put::<K, W>(pairs, key, value) == pairs.update(at, (key, value)),
    decreases pairs.len(),
{
    if at < pairs.len() - 1 {
        lemma_put_replaces::<K, W>(pairs.drop_last(), key, value, at);
        assert(pairs.drop_last().update(at, (key, value)).push(pairs.last()) =~= pairs.update(
            at,
            (key, value),
        ));
    } else {
        assert(pairs.drop_last().push((key, value)) =~= pairs.update(at, (key, value)));
    }
}

/// The position of the first pair that does not stand before the key.
fn lower_bound<K: Ordered, V: View>(pairs: &Vec<(K, V)>, key: &K) -> (at: usize)
    requires
        ascending::<K, V::V>(pair_views(pairs@)),
    ensures
        at <= pairs.len(),
        forall|i: int|
            0 <= i < at ==> K::place((#[trigger] pair_views(pairs@)[i]).0, key@) == Place::Before,
        forall|i: int|
            at <= i < pairs.len() ==> K::place((#[trigger] pair_views(pairs@)[i]).0, key@)
                != Place::Before,
{
    let ghost views: Seq<(K::V, V::V)> = pair_views(pairs@);
    let mut low: usize = 0;
    let mut high: usize = pairs.len();
    while low < high
        invariant
            low <= high <= pairs.len(),
            views == pair_views(pairs@),
            views.len() == pairs.len(),
            ascending::<K, V::V>(views),
            forall|i: int| 0 <= i < low ==> K::place((#[trigger] views[i]).0, key@) == Place::Before,
            forall|i: int|
                high <= i < views.len() ==> K::place((#[trigger] views[i]).0, key@) != Place::Before,
        decreases high - low,
    {
        let middle: usize = low + (high - low) / 2;
        let place: Place = pairs[middle].0.order(key);
        proof {
            assert(views[middle as int].0 == pairs[middle as int].0@);
        }
        match place {
            Place::Before => {
                proof {
                    assert forall|i: int| 0 <= i < middle + 1 implies K::place(
                        (#[trigger] views[i]).0,
                        key@,
                    ) == Place::Before by {
                        if i < middle {
                            assert(K::place(views[i].0, views[middle as int].0) == Place::Before);
                            K::lemma_transitive(views[i].0, views[middle as int].0, key@);
                        }
                    }
                }
                low = middle + 1;
            },
            _ => {
                proof {
                    assert forall|i: int| middle <= i < views.len() implies K::place(
                        (#[trigger] views[i]).0,
                        key@,
                    ) != Place::Before by {
                        if i > middle {
                            assert(K::place(views[middle as int].0, views[i].0) == Place::Before);
                            if K::place(views[i].0, key@) == Place::Before {
                                K::lemma_transitive(views[middle as int].0, views[i].0, key@);
                            }
                        }
                    }
                }
                high = middle;
            },
        }
    }
    low
}

/// The position of a key.
pub fn find_pair<K: Ordered, V: View>(pairs: &Vec<(K, V)>, key: &K) -> (found: Option<usize>)
    requires
        ascending::<K, V::V>(pair_views(pairs@)),
    ensures
        match found {
            Some(at) => at < pairs.len() && pairs@[at as int].0@ == key@ && lookup(
                pair_views(pairs@),
                key@,
            ) == Some(pairs@[at as int].1@),
            None => lookup(pair_views(pairs@), key@) is None,
        },
{
    let ghost views: Seq<(K::V, V::V)> = pair_views(pairs@);
    let at: usize = lower_bound(pairs, key);
    proof {
        lemma_lookup(views, key@);
    }
    if at < pairs.len() {
        let place: Place = pairs[at].0.order(key);
        proof {
            assert(views[at as int].0 == pairs[at as int].0@);
            K::lemma_total(views[at as int].0, key@);
        }
        if place == Place::Same {
            proof {
                lemma_lookup_at::<K, V::V>(views, at as int);
            }
            return Some(at);
        }
    }
    proof {
        assert forall|i: int| 0 <= i < views.len() implies (#[trigger] views[i]).0 != key@ by {
            K::lemma_total(views[i].0, key@);
            if i > at {
                assert(K::place(views[at as int].0, views[i].0) == Place::Before);
                K::lemma_total(views[at as int].0, views[i].0);
            }
        }
    }
    None
}

/// Puts a value under a key: in its place, or over the value that was there.
pub fn put_pair<K: Ordered, V: View>(pairs: &mut Vec<(K, V)>, key: K, value: V)
    requires
        ascending::<K, V::V>(pair_views(old(pairs)@)),
    ensures
        pair_views(final(pairs)@) == put::<K, V::V>(pair_views(old(pairs)@), key@, value@),
        ascending::<K, V::V>(pair_views(final(pairs)@)),
{
    let ghost views: Seq<(K::V, V::V)> = pair_views(pairs@);
    let ghost before: Seq<(K, V)> = pairs@;
    proof {
        lemma_put::<K, V::V>(views, key@, value@);
    }
    let at: usize = lower_bound(pairs, &key);
    if at < pairs.len() {
        let place: Place = pairs[at].0.order(&key);
        proof {
            assert(views[at as int].0 == pairs@[at as int].0@);
            assert forall|i: int| at < i < views.len() implies K::place(
                (#[trigger] views[i]).0,
                key@,
            ) == Place::After by {
                assert(K::place(views[at as int].0, views[i].0) == Place::Before);
                K::lemma_total(views[i].0, key@);
                K::lemma_total(views[at as int].0, views[i].0);
            }
        }
        if place == Place::Same {
            proof {
                lemma_put_replaces::<K, V::V>(views, key@, value@, at as int);
            }
            pairs.set(at, (key, value));
            assert(pair_views(pairs@) =~= views.update(at as int, (key@, value@)));
            return ;
        }
    }
    proof {
        lemma_put_inserts::<K, V::V>(views, key@, value@, at as int);
    }
    pairs.insert(at, (key, value));
    assert(pair_views(pairs@) =~= views.insert(at as int, (key@, value@)));
}

/// The list in reverse.
pub fn reversed<K: View, V: View>(pairs: Vec<(K, V)>) -> (result: Vec<(K, V)>)
    ensures
        pair_views(result@) == pair_views(pairs@).reverse(),
{
    let ghost given: Seq<(K::V, V::V)> = pair_views(pairs@);
    let mut rest: Vec<(K, V)> = pairs;
    let mut result: Vec<(K, V)> = Vec::new();
    while rest.len() > 0
        invariant
            pair_views(rest@) + pair_views(result@).reverse() =~= given,
        decreases rest.len(),
    {
        let ghost before: Seq<(K, V)> = rest@;
        let ghost moved: Seq<(K, V)> = result@;
        if let Some(pair) = rest.pop() {
            result.push(pair);
            proof {
                assert(pair_views(before) =~= pair_views(rest@).push((pair.0@, pair.1@)));
                assert(pair_views(result@) =~= pair_views(moved).push((pair.0@, pair.1@)));
            }
        }
    }
    proof {
        assert(pair_views(result@) =~= given.reverse());
    }
    result
}

/// Puts several values in, one after another.
pub fn put_pairs<K: Ordered, V: View>(pairs: &mut Vec<(K, V)>, more: Vec<(K, V)>)
    requires
        ascending::<K, V::V>(pair_views(old(pairs)@)),
    ensures
        pair_views(final(pairs)@) == put_all::<K, V::V>(pair_views(old(pairs)@), pair_views(more@)),
        ascending::<K, V::V>(pair_views(final(pairs)@)),
{
    let ghost given: Seq<(K::V, V::V)> = pair_views(more@);
    let ghost start: Seq<(K::V, V::V)> = pair_views(pairs@);
    let mut rest: Vec<(K, V)> = reversed(more);
    let ghost mut done: nat = 0;
    proof {
        assert(given.take(0) =~= seq![]);
        assert(pair_views(rest@).len() == rest@.len());
        assert forall|i: int| 0 <= i < rest.len() implies ((#[trigger] rest@[i]).0@
            == given[given.len() - 1 - i].0 && rest@[i].1@ == given[given.len() - 1 - i].1) by {
            assert(pair_views(rest@)[i] == given.reverse()[i]);
        }
    }
    while rest.len() > 0
        invariant
            done + rest.len() == given.len(),
            forall|i: int|
                0 <= i < rest.len() ==> ((#[trigger] rest@[i]).0@ == given[given.len() - 1 - i].0
                    && rest@[i].1@ == given[given.len() - 1 - i].1),
            ascending::<K, V::V>(pair_views(pairs@)),
            pair_views(pairs@) == put_all::<K, V::V>(start, given.take(done as int)),
        decreases rest.len(),
    {
        if let Some(pair) = rest.pop() {
            proof {
                let now: Seq<(K::V, V::V)> = given.take(done as int + 1);
                assert(now.drop_last() =~= given.take(done as int));
                assert(now.last() == (pair.0@, pair.1@));
                done = done + 1;
            }
            put_pair(pairs, pair.0, pair.1);
        }
    }
    proof {
        assert(given.take(done as int) =~= given);
    }
}

/// The list without what is under a key.
pub open spec fn without<K, W>(pairs: Seq<(K, W)>, key: K) -> Seq<(K, W)>
    decreases pairs.len(),
{
    if pairs.len() == 0 {
        pairs
    } else if pairs.last().0 == key {
        pairs.drop_last()
    } else {
        without(pairs.drop_last(), key).push(pairs.last())
    }
}

/// What is under a key is taken out of its place.
pub proof fn lemma_without<K: Ordered, W>(pairs: Seq<(K::V, W)>, at: int)
    requires
        ascending::<K, W>(pairs),
        0 <= at < pairs.len(),
    ensures
        without(pairs, pairs[at].0) == pairs.remove(at),
        ascending::<K, W>(pairs.remove(at)),
    decreases pairs.len(),
{
    let key: K::V = pairs[at].0;
    let result: Seq<(K::V, W)> = pairs.remove(at);
    assert forall|x: int, y: int| 0 <= x < y < result.len() implies #[trigger] K::place(
        result[x].0,
        result[y].0,
    ) == Place::Before by {
        let i: int = if x < at {
            x
        } else {
            x + 1
        };
        let j: int = if y < at {
            y
        } else {
            y + 1
        };
        assert(K::place(pairs[i].0, pairs[j].0) == Place::Before);
    }
    if at == pairs.len() - 1 {
        assert(result =~= pairs.drop_last());
    } else {
        K::lemma_total(key, pairs.last().0);
        assert(K::place(pairs[at].0, pairs[pairs.len() - 1].0) == Place::Before);
        lemma_front_ascending::<K, W>(pairs);
        lemma_without::<K, W>(pairs.drop_last(), at);
        assert(result =~= pairs.drop_last().remove(at).push(pairs.last()));
    }
}

/// Taking a pair out changes what is found under its key alone.
pub proof fn lemma_lookup_without<K: Ordered, W>(pairs: Seq<(K::V, W)>, key: K::V, other: K::V)
    requires
        ascending::<K, W>(pairs),
    ensures
        lookup(without(pairs, key), other) == if other == key {
            None
        } else {
            lookup(pairs, other)
        },
    decreases pairs.len(),
{
    if pairs.len() > 0 {
        let front: Seq<(K::V, W)> = pairs.drop_last();
        lemma_front_ascending::<K, W>(pairs);
        lemma_lookup_without::<K, W>(front, key, other);
        if pairs.last().0 == key {
            if lookup(front, key) is Some {
                lemma_lookup(front, key);
                let i: int = choose|i: int|
                    0 <= i < front.len() && #[trigger] front[i] == (key, lookup(front, key)->Some_0);
                K::lemma_total(pairs[i].0, pairs.last().0);
                assert(K::place(pairs[i].0, pairs[pairs.len() - 1].0) == Place::Before);
            }
        } else {
            assert(without(pairs, key).drop_last() =~= without(front, key));
        }
    }
}

/// Takes what is under a key out of the list.
pub fn take_pair<K: Ordered, V: View>(pairs: &mut Vec<(K, V)>, key: &K) -> (taken: Option<(K, V)>)
    requires
        ascending::<K, V::V>(pair_views(old(pairs)@)),
    ensures
        ascending::<K, V::V>(pair_views(final(pairs)@)),
        match taken {
            Some(pair) => pair.0@ == key@ && lookup(pair_views(old(pairs)@), key@) == Some(pair.1@)
                && pair_views(final(pairs)@) == without(pair_views(old(pairs)@), key@),
            None => lookup(pair_views(old(pairs)@), key@) is None && pair_views(final(pairs)@)
                == pair_views(old(pairs)@),
        },
{
    let ghost before: Seq<(K::V, V::V)> = pair_views(pairs@);
    match find_pair(pairs, key) {
        None => None,
        Some(at) => {
            proof {
                lemma_without::<K, V::V>(before, at as int);
            }
            let pair: (K, V) = pairs.remove(at);
            proof {
                assert(pair_views(pairs@) =~= before.remove(at as int));
            }
            Some(pair)
        },
    }
}

} // verus!
