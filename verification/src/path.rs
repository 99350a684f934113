//! Paths into nested values, and how they are rendered: `root['a'][3]`.

use vstd::prelude::*;

use crate::order::{order_ints, order_texts, Ordered, Place};
use crate::repr::{
    occurs, push_date_repr, push_datetime_repr, push_delta_repr, push_number_repr, push_str_repr,
    push_time_repr,
};
use crate::text::{chars_of, push_decimal};
use crate::value::{Object, ObjectKey, ObjectKind, SetItems, Value};

#[allow(unused_imports)]
use crate::order::{
    code_points, flip, int_place, lemma_code_points, lemma_ints_place,
    lemma_ints_place_transitive, refine, text_place,
};
#[allow(unused_imports)]
use crate::repr::{date_text, datetime_text, delta_text, number_text, str_repr, time_text};
#[allow(unused_imports)]
use crate::text::decimal;
#[allow(unused_imports)]
use crate::value::{views, KeyVal, Val};
#[allow(unused_imports)]
use crate::walk::{key_weight, total, total_entries, weight};

verus! {

// ---------------------------------------------------------------------
// Paths
// ---------------------------------------------------------------------

/// One step of a path.
#[derive(Debug, Clone, PartialEq, Eq, PartialOrd, Ord)]
pub enum PathSegment {
    /// A text as a `dict` key: the `'a'` of `root['a']`.
    Key(String),
    /// A position in a list: the `3` of `root[3]`.
    Index(usize),
    /// A member of a set, as it is rendered.
    SetItem(String),
    /// An attribute of an object: the `a` of `root.a`.
    Attribute(String),
    /// A `dict` key that is no text, as it is rendered.
    OtherKey(String),
}

/// The model of a [`PathSegment`].
pub enum Seg {
    Key(Seq<char>),
    Index(int),
    SetItem(Seq<char>),
    Attribute(Seq<char>),
    OtherKey(Seq<char>),
}

impl View for PathSegment {
    type V = Seg;

    open spec fn view(&self) -> Seg {
        match self {
            PathSegment::Key(key) => Seg::Key(key@),
            PathSegment::Index(index) => Seg::Index(*index as int),
            PathSegment::SetItem(item) => Seg::SetItem(item@),
            PathSegment::Attribute(name) => Seg::Attribute(name@),
            PathSegment::OtherKey(key) => Seg::OtherKey(key@),
        }
    }
}

/// The models of the steps of a path.
pub open spec fn segs(segments: Seq<PathSegment>) -> Seq<Seg> {
    Seq::new(segments.len(), |i: int| segments[i]@)
}

/// A whole path.
#[derive(Debug, Clone, PartialEq, Eq)]
pub struct Path {
    pub segments: Vec<PathSegment>,
}

impl View for Path {
    type V = Seq<Seg>;

    open spec fn view(&self) -> Seq<Seg> {
        segs(self.segments@)
    }
}

impl PathSegment {
    /// A copy.
    pub fn duplicate(&self) -> (copy: Self)
        ensures
            copy@ == self@,
    {
        match self {
            PathSegment::Key(key) => PathSegment::Key(key.clone()),
            PathSegment::Index(index) => PathSegment::Index(*index),
            PathSegment::SetItem(item) => PathSegment::SetItem(item.clone()),
            PathSegment::Attribute(name) => PathSegment::Attribute(name.clone()),
            PathSegment::OtherKey(key) => PathSegment::OtherKey(key.clone()),
        }
    }
}

/// A copy of the steps of a path.
pub fn duplicate_segments(segments: &Vec<PathSegment>) -> (copies: Vec<PathSegment>)
    ensures
        segs(copies@) == segs(segments@),
{
    let mut copies: Vec<PathSegment> = Vec::new();
    let mut i: usize = 0;
    while i < segments.len()
        invariant
            i <= segments.len(),
            segs(copies@) =~= segs(segments@).take(i as int),
        decreases segments.len() - i,
    {
        let ghost before: Seq<PathSegment> = copies@;
        let copy: PathSegment = segments[i].duplicate();
        copies.push(copy);
        proof {
            assert(segs(copies@) =~= segs(before).push(copy@));
        }
        i = i + 1;
    }
    proof {
        assert(segs(copies@) =~= segs(segments@));
    }
    copies
}

// ---------------------------------------------------------------------
// The order of paths
// ---------------------------------------------------------------------

/// The rank of a step among steps of other kinds.
pub open spec fn seg_rank(seg: Seg) -> int {
    match seg {
        Seg::Key(_) => 0,
        Seg::Index(_) => 1,
        Seg::SetItem(_) => 2,
        Seg::Attribute(_) => 3,
        Seg::OtherKey(_) => 4,
    }
}

/// The order of steps: by kind, then texts by their code points and positions
/// as numbers.
pub open spec fn seg_place(a: Seg, b: Seg) -> Place {
    match (a, b) {
        (Seg::Key(x), Seg::Key(y)) => text_place(x, y),
        (Seg::Index(x), Seg::Index(y)) => int_place(x, y),
        (Seg::SetItem(x), Seg::SetItem(y)) => text_place(x, y),
        (Seg::Attribute(x), Seg::Attribute(y)) => text_place(x, y),
        (Seg::OtherKey(x), Seg::OtherKey(y)) => text_place(x, y),
        _ => int_place(seg_rank(a), seg_rank(b)),
    }
}

/// The order of paths: step by step, a path before its extensions.
pub open spec fn path_place(a: Seq<Seg>, b: Seq<Seg>) -> Place
    decreases a.len(),
{
    if a.len() == 0 {
        if b.len() == 0 {
            Place::Same
        } else {
            Place::Before
        }
    } else if b.len() == 0 {
        Place::After
    } else {
        refine(seg_place(a[0], b[0]), path_place(a.drop_first(), b.drop_first()))
    }
}

/// The text that a step carries.
spec fn seg_label(seg: Seg) -> Seq<char> {
    match seg {
        Seg::Key(x) => x,
        Seg::Index(_) => seq![],
        Seg::SetItem(x) => x,
        Seg::Attribute(x) => x,
        Seg::OtherKey(x) => x,
    }
}

proof fn lemma_seg_place(a: Seg, b: Seg)
    ensures
        seg_place(b, a) == flip(seg_place(a, b)),
        seg_place(a, b) == Place::Same <==> a == b,
{
    lemma_ints_place(code_points(seg_label(a)), code_points(seg_label(b)));
    lemma_code_points(seg_label(a), seg_label(b));
}

proof fn lemma_seg_transitive(a: Seg, b: Seg, c: Seg)
    requires
        seg_place(a, b) == Place::Before,
        seg_place(b, c) == Place::Before,
    ensures
        seg_place(a, c) == Place::Before,
{
    if seg_rank(a) == seg_rank(b) && seg_rank(b) == seg_rank(c) && !(a is Index) {
        lemma_ints_place_transitive(
            code_points(seg_label(a)),
            code_points(seg_label(b)),
            code_points(seg_label(c)),
        );
    }
}

proof fn lemma_path_place(a: Seq<Seg>, b: Seq<Seg>)
    ensures
        path_place(b, a) == flip(path_place(a, b)),
        path_place(a, b) == Place::Same <==> a == b,
    decreases a.len(),
{
    if a.len() > 0 && b.len() > 0 {
        lemma_seg_place(a[0], b[0]);
        lemma_path_place(a.drop_first(), b.drop_first());
        if path_place(a, b) == Place::Same {
            assert(a =~= seq![a[0]] + a.drop_first());
            assert(b =~= seq![b[0]] + b.drop_first());
        }
    } else if a.len() == 0 && b.len() == 0 {
        assert(a =~= b);
    }
}

proof fn lemma_path_transitive(a: Seq<Seg>, b: Seq<Seg>, c: Seq<Seg>)
    requires
        path_place(a, b) == Place::Before,
        path_place(b, c) == Place::Before,
    ensures
        path_place(a, c) == Place::Before,
    decreases a.len(),
{
    if a.len() > 0 && b.len() > 0 && c.len() > 0 {
        lemma_seg_place(a[0], b[0]);
        lemma_seg_place(b[0], c[0]);
        lemma_seg_place(a[0], c[0]);
        if a[0] == b[0] && b[0] == c[0] {
            lemma_path_transitive(a.drop_first(), b.drop_first(), c.drop_first());
        } else if a[0] != b[0] && b[0] != c[0] {
            lemma_seg_transitive(a[0], b[0], c[0]);
        }
    }
}

fn order_segments(a: &PathSegment, b: &PathSegment) -> (place: Place)
    ensures
        place == seg_place(a@, b@),
{
    match (a, b) {
        (PathSegment::Key(x), PathSegment::Key(y)) => order_texts(x.as_str(), y.as_str()),
        (PathSegment::Index(x), PathSegment::Index(y)) => order_ints(*x as i128, *y as i128),
        (PathSegment::SetItem(x), PathSegment::SetItem(y)) => order_texts(x.as_str(), y.as_str()),
        (PathSegment::Attribute(x), PathSegment::Attribute(y)) => order_texts(
            x.as_str(),
            y.as_str(),
        ),
        (PathSegment::OtherKey(x), PathSegment::OtherKey(y)) => order_texts(
            x.as_str(),
            y.as_str(),
        ),
        _ => order_ints(segment_rank(a), segment_rank(b)),
    }
}

fn segment_rank(segment: &PathSegment) -> (rank: i128)
    ensures
        rank == seg_rank(segment@),
{
    match segment {
        PathSegment::Key(_) => 0,
        PathSegment::Index(_) => 1,
        PathSegment::SetItem(_) => 2,
        PathSegment::Attribute(_) => 3,
        PathSegment::OtherKey(_) => 4,
    }
}

impl Ordered for Path {
    open spec fn place(a: Seq<Seg>, b: Seq<Seg>) -> Place {
        path_place(a, b)
    }

    proof fn lemma_total(a: Seq<Seg>, b: Seq<Seg>) {
        lemma_path_place(a, b);
    }

    proof fn lemma_transitive(a: Seq<Seg>, b: Seq<Seg>, c: Seq<Seg>) {
        lemma_path_transitive(a, b, c);
    }

    fn order(&self, other: &Self) -> (place: Place) {
        let ghost a: Seq<Seg> = self@;
        let ghost b: Seq<Seg> = other@;
        let mut i: usize = 0;
        proof {
            assert(a.skip(0) =~= a);
            assert(b.skip(0) =~= b);
        }
        while i < self.segments.len() && i < other.segments.len()
            invariant
                a == self@,
                b == other@,
                i <= self.segments.len(),
                i <= other.segments.len(),
                path_place(a, b) == path_place(a.skip(i as int), b.skip(i as int)),
            decreases self.segments.len() - i,
        {
            proof {
                assert(a.skip(i as int).drop_first() =~= a.skip(i as int + 1));
                assert(b.skip(i as int).drop_first() =~= b.skip(i as int + 1));
            }
            let place: Place = order_segments(&self.segments[i], &other.segments[i]);
            if place != Place::Same {
                return place;
            }
            i = i + 1;
        }
        if i < other.segments.len() {
            Place::Before
        } else if i < self.segments.len() {
            Place::After
        } else {
            Place::Same
        }
    }
}

// ---------------------------------------------------------------------
// Rendered paths
// ---------------------------------------------------------------------

/// A text between quotes, the single ones unless it holds one; nothing in it is
/// escaped.
pub open spec fn quoted(key: Seq<char>) -> Seq<char> {
    if key.contains('\'') {
        seq!['"'] + key + seq!['"']
    } else {
        seq!['\''] + key + seq!['\'']
    }
}

/// One step, rendered.
pub open spec fn seg_text(seg: Seg) -> Seq<char> {
    match seg {
        Seg::Key(key) => seq!['['] + quoted(key) + seq![']'],
        Seg::Index(index) => seq!['['] + decimal(index as nat) + seq![']'],
        Seg::SetItem(item) => seq!['['] + item + seq![']'],
        Seg::Attribute(name) => seq!['.'] + name,
        Seg::OtherKey(key) => seq!['['] + key + seq![']'],
    }
}

/// The steps behind the root, rendered.
pub open spec fn steps_text(path: Seq<Seg>) -> Seq<char>
    decreases path.len(),
{
    if path.len() == 0 {
        seq![]
    } else {
        steps_text(path.drop_last()) + seg_text(path.last())
    }
}

/// A path, rendered.
pub open spec fn path_text(path: Seq<Seg>) -> Seq<char> {
    "root"@ + steps_text(path)
}

/// A text between quotes, the single ones unless it holds one; nothing in it is
/// escaped.
pub fn quote_key(key: &str) -> (result: String)
    ensures
        result@ == quoted(key@),
{
    let quote: char = if occurs(&chars_of(key), '\'') {
        '"'
    } else {
        '\''
    };
    let mut out: String = String::new();
    out.push(quote);
    out.append(key);
    out.push(quote);
    proof {
        assert(out@ =~= quoted(key@));
    }
    out
}

fn push_segment(out: &mut String, segment: &PathSegment)
    ensures
        final(out)@ == old(out)@ + seg_text(segment@),
{
    let ghost before: Seq<char> = out@;
    match segment {
        PathSegment::Key(key) => {
            let text: String = quote_key(key.as_str());
            out.push('[');
            out.append(text.as_str());
            out.push(']');
        },
        PathSegment::Index(index) => {
            out.push('[');
            push_decimal(out, *index as u64);
            out.push(']');
        },
        PathSegment::SetItem(item) => {
            out.push('[');
            out.append(item.as_str());
            out.push(']');
        },
        PathSegment::Attribute(name) => {
            out.push('.');
            out.append(name.as_str());
        },
        PathSegment::OtherKey(key) => {
            out.push('[');
            out.append(key.as_str());
            out.push(']');
        },
    }
    proof {
        assert(out@ =~= before + seg_text(segment@));
    }
}

/// A path, rendered: `root`, then its steps.
pub fn render_path(segments: &[PathSegment]) -> (result: String)
    ensures
        result@ == path_text(segs(segments@)),
{
    let ghost all: Seq<Seg> = segs(segments@);
    let mut out: String = String::new();
    out.append("root");
    let mut i: usize = 0;
    proof {
        assert(all.take(0) =~= Seq::<Seg>::empty());
        assert(out@ =~= path_text(all.take(0)));
    }
    while i < segments.len()
        invariant
            i <= segments.len(),
            all == segs(segments@),
            out@ == path_text(all.take(i as int)),
        decreases segments.len() - i,
    {
        push_segment(&mut out, &segments[i]);
        proof {
            let upto: Seq<Seg> = all.take(i as int + 1);
            assert(upto.drop_last() =~= all.take(i as int));
            assert(upto.last() == segments@[i as int]@);
            assert(out@ =~= path_text(upto));
        }
        i = i + 1;
    }
    proof {
        assert(all.take(i as int) =~= all);
    }
    out
}

/// A step further renders as the path before it and the step.
pub proof fn lemma_path_extends(path: Seq<Seg>, seg: Seg)
    ensures
        path_text(path.push(seg)) == path_text(path) + seg_text(seg),
{
    assert(path.push(seg).drop_last() =~= path);
    assert(path_text(path.push(seg)) =~= path_text(path) + seg_text(seg));
}

// ---------------------------------------------------------------------
// Values
// ---------------------------------------------------------------------

/// Python's `repr` of a value.
pub open spec fn repr(value: Val) -> Seq<char>
    decreases value, 0int,
{
    match value {
        Val::Null => "None"@,
        Val::Bool(b) => if b {
            "True"@
        } else {
            "False"@
        },
        Val::Number(n) => number_text(n),
        Val::Str(s) => str_repr(s),
        Val::DateTime(d) => datetime_text(d),
        Val::Date(d) => date_text(d),
        Val::Time(t) => time_text(t),
        Val::TimeDelta(d) => delta_text(d),
        Val::Array(items) => "["@ + reprs_from(items, 0) + "]"@,
        Val::Tuple(items) => "("@ + reprs_from(items, 0) + (if items.len() == 1 {
            ",)"@
        } else {
            ")"@
        }),
        Val::MutableSet(items) => if items.len() == 0 {
            "set()"@
        } else {
            "{"@ + reprs_from(items, 0) + "}"@
        },
        Val::FrozenSet(items) => if items.len() == 0 {
            "frozenset()"@
        } else {
            "frozenset({"@ + reprs_from(items, 0) + "})"@
        },
        Val::Object(object) => "{"@ + entry_reprs_from(object.entries, 0) + "}"@,
    }
}

/// The values from position `k` on, each but the very first behind a comma.
pub open spec fn reprs_from(items: Seq<Val>, k: int) -> Seq<char>
    decreases items, items.len() - k,
{
    if 0 <= k < items.len() {
        (if k > 0 {
            ", "@
        } else {
            seq![]
        }) + repr(items[k]) + reprs_from(items, k + 1)
    } else {
        seq![]
    }
}

/// The entries from position `k` on, each but the very first behind a comma.
pub open spec fn entry_reprs_from(entries: Seq<(KeyVal, Val)>, k: int) -> Seq<char>
    decreases entries, entries.len() - k,
{
    if 0 <= k < entries.len() {
        (if k > 0 {
            ", "@
        } else {
            seq![]
        }) + key_repr(entries[k].0) + ": "@ + repr(entries[k].1) + entry_reprs_from(entries, k + 1)
    } else {
        seq![]
    }
}

/// Python's `repr` of a key.
pub open spec fn key_repr(key: KeyVal) -> Seq<char>
    decreases key, 0int,
{
    match key {
        KeyVal::Str(s) => str_repr(s),
        KeyVal::Other(value) => repr(*value),
    }
}

/// How a member of a set is named in a path: a text between single quotes with
/// nothing escaped, a calendar value as Python's `str` has it, any other value
/// as its `repr`.
pub open spec fn item_text(item: Val) -> Seq<char> {
    match item {
        Val::Str(s) => seq!['\''] + s + seq!['\''],
        Val::DateTime(d) => d.spec_rendered(' '),
        Val::Date(d) => d.spec_isoformat(),
        Val::Time(t) => t.spec_isoformat(),
        Val::TimeDelta(d) => d.spec_python_str(),
        other => repr(other),
    }
}

/// What is still to be written, the next on top.
enum Work<'a> {
    Value(&'a Value),
    Text(&'static str),
    Key(&'a ObjectKey),
}

/// What one piece of work writes.
spec fn written(work: Work) -> Seq<char> {
    match work {
        Work::Value(value) => repr(value@),
        Work::Text(text) => text@,
        Work::Key(key) => key_repr(key@) + ": "@,
    }
}

/// What the pieces of work write, from the top down.
spec fn all_written(stack: Seq<Work>) -> Seq<char>
    decreases stack.len(),
{
    if stack.len() == 0 {
        seq![]
    } else {
        written(stack.last()) + all_written(stack.drop_last())
    }
}

/// How much one piece of work takes.
spec fn effort(work: Work) -> int {
    match work {
        Work::Value(value) => 4 * weight(value@) - 1,
        Work::Text(_) => 1,
        Work::Key(key) => 4 * key_weight(key@) as int + 2,
    }
}

/// How much the pieces of work take.
spec fn efforts(stack: Seq<Work>) -> int
    decreases stack.len(),
{
    if stack.len() == 0 {
        0
    } else {
        effort(stack.last()) + efforts(stack.drop_last())
    }
}

proof fn lemma_work_push(stack: Seq<Work>, work: Work)
    ensures
        all_written(stack.push(work)) == written(work) + all_written(stack),
        efforts(stack.push(work)) == effort(work) + efforts(stack),
{
    assert(stack.push(work).drop_last() =~= stack);
}

proof fn lemma_weight_positive(value: Val)
    ensures
        weight(value) >= 1,
{
}

proof fn lemma_efforts_positive(stack: Seq<Work>)
    ensures
        efforts(stack) >= 0,
    decreases stack.len(),
{
    if stack.len() > 0 {
        lemma_efforts_positive(stack.drop_last());
        match stack.last() {
            Work::Value(value) => lemma_weight_positive(value@),
            _ => {},
        }
    }
}

/// One more value of a list adds its nodes.
proof fn lemma_item_step(items: Seq<Val>, k: int)
    requires
        0 <= k < items.len(),
    ensures
        total(items.skip(k)) == weight(items[k]) + total(items.skip(k + 1)),
{
    let rest: Seq<Val> = items.skip(k);
    assert(rest =~= seq![items[k]] + items.skip(k + 1));
    crate::walk::lemma_total_add(seq![items[k]], items.skip(k + 1));
    crate::walk::lemma_total_push(seq![], items[k]);
    assert(Seq::<Val>::empty().push(items[k]) =~= seq![items[k]]);
}

fn push_sequence<'a>(stack: &mut Vec<Work<'a>>, items: &'a Vec<Value>, close: &'static str)
    ensures
        all_written(final(stack)@) == reprs_from(views(items@), 0) + close@ + all_written(
            old(stack)@,
        ),
        efforts(final(stack)@) <= efforts(old(stack)@) + 4 * total(views(items@)) + 1,
{
    let ghost all: Seq<Val> = views(items@);
    let ghost base: Seq<Work<'a>> = stack@;
    proof {
        lemma_work_push(base, Work::Text(close));
    }
    stack.push(Work::Text(close));
    let mut k: usize = items.len();
    proof {
        assert(all.skip(k as int) =~= Seq::<Val>::empty());
        assert(reprs_from(all, k as int) + close@ + all_written(base) =~= close@ + all_written(
            base,
        ));
    }
    while k > 0
        invariant
            k <= items.len(),
            all == views(items@),
            all_written(stack@) == reprs_from(all, k as int) + close@ + all_written(base),
            efforts(stack@) <= efforts(base) + 4 * total(all.skip(k as int)) + 1,
        decreases k,
    {
        k = k - 1;
        proof {
            lemma_work_push(stack@, Work::Value(&items@[k as int]));
            lemma_item_step(all, k as int);
            assert(all[k as int] == items@[k as int]@);
        }
        stack.push(Work::Value(&items[k]));
        if k > 0 {
            proof {
                lemma_work_push(stack@, Work::Text(", "));
            }
            stack.push(Work::Text(", "));
        }
        proof {
            let rest: Seq<char> = reprs_from(all, k as int + 1);
            let tail: Seq<char> = rest + close@ + all_written(base);
            if k > 0 {
                assert(all_written(stack@) =~= ", "@ + (repr(all[k as int]) + tail));
                assert(", "@ + repr(all[k as int]) + rest + close@ + all_written(base) =~= ", "@ + (
                repr(all[k as int]) + tail));
            } else {
                assert(all_written(stack@) =~= repr(all[k as int]) + tail);
                assert(Seq::<char>::empty() + repr(all[k as int]) + rest + close@ + all_written(
                    base,
                ) =~= repr(all[k as int]) + tail);
            }
        }
    }
    proof {
        assert(all.skip(0) =~= all);
    }
}

fn push_set<'a>(stack: &mut Vec<Work<'a>>, items: &'a SetItems, close: &'static str)
    ensures
        all_written(final(stack)@) == reprs_from(items@, 0) + close@ + all_written(old(stack)@),
        efforts(final(stack)@) <= efforts(old(stack)@) + 4 * total(items@) + 1,
{
    let ghost all: Seq<Val> = items@;
    let ghost base: Seq<Work<'a>> = stack@;
    proof {
        lemma_work_push(base, Work::Text(close));
    }
    stack.push(Work::Text(close));
    let mut k: usize = items.len();
    proof {
        assert(all.skip(k as int) =~= Seq::<Val>::empty());
        assert(reprs_from(all, k as int) + close@ + all_written(base) =~= close@ + all_written(
            base,
        ));
    }
    while k > 0
        invariant
            k <= all.len(),
            all == items@,
            all_written(stack@) == reprs_from(all, k as int) + close@ + all_written(base),
            efforts(stack@) <= efforts(base) + 4 * total(all.skip(k as int)) + 1,
        decreases k,
    {
        k = k - 1;
        let item: &'a Value = items.get(k);
        proof {
            lemma_work_push(stack@, Work::Value(item));
            lemma_item_step(all, k as int);
        }
        stack.push(Work::Value(item));
        if k > 0 {
            proof {
                lemma_work_push(stack@, Work::Text(", "));
            }
            stack.push(Work::Text(", "));
        }
        proof {
            let rest: Seq<char> = reprs_from(all, k as int + 1);
            let tail: Seq<char> = rest + close@ + all_written(base);
            if k > 0 {
                assert(all_written(stack@) =~= ", "@ + (repr(all[k as int]) + tail));
                assert(", "@ + repr(all[k as int]) + rest + close@ + all_written(base) =~= ", "@ + (
                repr(all[k as int]) + tail));
            } else {
                assert(all_written(stack@) =~= repr(all[k as int]) + tail);
                assert(Seq::<char>::empty() + repr(all[k as int]) + rest + close@ + all_written(
                    base,
                ) =~= repr(all[k as int]) + tail);
            }
        }
    }
    proof {
        assert(all.skip(0) =~= all);
    }
}

proof fn lemma_entry_step(entries: Seq<(KeyVal, Val)>, k: int)
    requires
        0 <= k < entries.len(),
    ensures
        total_entries(entries.skip(k)) == key_weight(entries[k].0) + weight(entries[k].1) + 1
            + total_entries(entries.skip(k + 1)),
    decreases entries.len(),
{
    let rest: Seq<(KeyVal, Val)> = entries.skip(k);
    let later: Seq<(KeyVal, Val)> = entries.skip(k + 1);
    if k + 1 == entries.len() {
        assert(rest.drop_last() =~= Seq::<(KeyVal, Val)>::empty());
        assert(later =~= Seq::<(KeyVal, Val)>::empty());
    } else {
        let front: Seq<(KeyVal, Val)> = entries.drop_last();
        lemma_entry_step(front, k);
        assert(rest.drop_last() =~= front.skip(k));
        assert(later.drop_last() =~= front.skip(k + 1));
        assert(rest.last() == later.last());
    }
}

#[verifier::rlimit(60)]
#[verifier::spinoff_prover]
fn push_object<'a>(stack: &mut Vec<Work<'a>>, object: &'a Object)
    ensures
        all_written(final(stack)@) == entry_reprs_from(object@.entries, 0) + "}"@ + all_written(
            old(stack)@,
        ),
        efforts(final(stack)@) <= efforts(old(stack)@) + 4 * total_entries(object@.entries) + 1,
{
    let ghost all: Seq<(KeyVal, Val)> = object@.entries;
    let ghost base: Seq<Work<'a>> = stack@;
    proof {
        lemma_work_push(base, Work::Text("}"));
    }
    stack.push(Work::Text("}"));
    let mut k: usize = object.len();
    proof {
        assert(all.skip(k as int) =~= Seq::<(KeyVal, Val)>::empty());
        assert(entry_reprs_from(all, k as int) + "}"@ + all_written(base) =~= "}"@ + all_written(
            base,
        ));
    }
    while k > 0
        invariant
            k <= all.len(),
            all == object@.entries,
            all_written(stack@) == entry_reprs_from(all, k as int) + "}"@ + all_written(base),
            efforts(stack@) <= efforts(base) + 4 * total_entries(all.skip(k as int)) + 1,
        decreases k,
    {
        k = k - 1;
        let key: &'a ObjectKey = object.key_at(k);
        let value: &'a Value = object.value_at(k);
        let ghost before: Seq<Work<'a>> = stack@;
        proof {
            lemma_work_push(before, Work::Value(value));
            lemma_entry_step(all, k as int);
        }
        stack.push(Work::Value(value));
        proof {
            lemma_work_push(stack@, Work::Key(key));
        }
        stack.push(Work::Key(key));
        if k > 0 {
            proof {
                lemma_work_push(stack@, Work::Text(", "));
            }
            stack.push(Work::Text(", "));
        }
        proof {
            let rest: Seq<char> = entry_reprs_from(all, k as int + 1);
            let tail: Seq<char> = rest + "}"@ + all_written(base);
            let body: Seq<char> = (key_repr(key@) + ": "@) + (repr(value@) + tail);
            if k > 0 {
                assert(all_written(stack@) =~= ", "@ + body);
                assert(", "@ + key_repr(key@) + ": "@ + repr(value@) + rest + "}"@ + all_written(
                    base,
                ) =~= ", "@ + body);
            } else {
                assert(all_written(stack@) =~= body);
                assert(Seq::<char>::empty() + key_repr(key@) + ": "@ + repr(value@) + rest + "}"@
                    + all_written(base) =~= body);
            }
        }
    }
    proof {
        assert(all.skip(0) =~= all);
    }
}

/// Writes the start of a value, and leaves the rest of it as work.
fn write_repr_head<'a>(out: &mut String, stack: &mut Vec<Work<'a>>, value: &'a Value)
    ensures
        final(out)@ + all_written(final(stack)@) == old(out)@ + (repr(value@) + all_written(
            old(stack)@,
        )),
        efforts(final(stack)@) < efforts(old(stack)@) + 4 * weight(value@) - 1,
{
    let ghost before: Seq<char> = out@;
    let ghost base: Seq<Work<'a>> = stack@;
    let ghost goal: Seq<char> = before + (repr(value@) + all_written(base));
    proof {
        lemma_weight_positive(value@);
    }
    match value {
        Value::Null => {
            out.append("None");
        },
        Value::Bool(b) => {
            if *b {
                out.append("True");
            } else {
                out.append("False");
            }
        },
        Value::Number(n) => {
            push_number_repr(out, n);
        },
        Value::Str(s) => {
            push_str_repr(out, s.as_str());
        },
        Value::DateTime(d) => {
            push_datetime_repr(out, *d);
        },
        Value::Date(d) => {
            push_date_repr(out, *d);
        },
        Value::Time(t) => {
            push_time_repr(out, *t);
        },
        Value::TimeDelta(d) => {
            push_delta_repr(out, *d);
        },
        Value::Array(items) => {
            out.append("[");
            push_sequence(stack, items, "]");
        },
        Value::Tuple(items) => {
            out.append("(");
            let close: &'static str = if items.len() == 1 {
                ",)"
            } else {
                ")"
            };
            push_sequence(stack, items, close);
        },
        Value::MutableSet(items) => {
            if items.is_empty() {
                out.append("set()");
            } else {
                out.append("{");
                push_set(stack, items, "}");
            }
        },
        Value::FrozenSet(items) => {
            if items.is_empty() {
                out.append("frozenset()");
            } else {
                out.append("frozenset({");
                push_set(stack, items, "})");
            }
        },
        Value::Object(object) => {
            out.append("{");
            push_object(stack, object);
        },
    }
    proof {
        assert(out@ + all_written(stack@) =~= goal);
    }
}

/// Python's `repr` of a value.
///
/// Walks with a stack of its own, so no nesting overflows the thread's.
pub fn python_repr(value: &Value) -> (result: String)
    ensures
        result@ == repr(value@),
{
    let mut out: String = String::new();
    let mut stack: Vec<Work> = Vec::new();
    proof {
        lemma_work_push(stack@, Work::Value(value));
    }
    stack.push(Work::Value(value));
    proof {
        assert(out@ + all_written(stack@) =~= repr(value@));
    }
    while stack.len() > 0
        invariant
            out@ + all_written(stack@) == repr(value@),
        decreases efforts(stack@),
    {
        let ghost before: Seq<Work> = stack@;
        let ghost shown: Seq<char> = out@;
        let work: Work = stack.pop().unwrap();
        let ghost rest: Seq<Work> = stack@;
        proof {
            assert(before =~= rest.push(work));
            lemma_work_push(rest, work);
            lemma_efforts_positive(rest);
        }
        match work {
            Work::Text(text) => {
                out.append(text);
                proof {
                    assert(out@ + all_written(rest) =~= shown + (text@ + all_written(rest)));
                }
            },
            Work::Key(key) => {
                match key {
                    ObjectKey::Str(s) => {
                        push_str_repr(&mut out, s.as_str());
                        out.append(": ");
                        proof {
                            assert(out@ + all_written(rest) =~= shown + ((key_repr(key@) + ": "@)
                                + all_written(rest)));
                        }
                    },
                    ObjectKey::Other(inner) => {
                        proof {
                            lemma_work_push(rest, Work::Text(": "));
                            lemma_work_push(rest.push(Work::Text(": ")), Work::Value(&**inner));
                            assert(shown + (repr(inner@) + (": "@ + all_written(rest))) =~= shown
                                + ((key_repr(key@) + ": "@) + all_written(rest)));
                            lemma_efforts_positive(
                                rest.push(Work::Text(": ")).push(Work::Value(&**inner)),
                            );
                        }
                        stack.push(Work::Text(": "));
                        stack.push(Work::Value(&**inner));
                    },
                }
            },
            Work::Value(inner) => {
                write_repr_head(&mut out, &mut stack, inner);
                proof {
                    lemma_efforts_positive(stack@);
                }
            },
        }
    }
    proof {
        assert(out@ + Seq::<char>::empty() =~= out@);
    }
    out
}

/// How a member of a set is named in a path.
pub fn set_item_repr(item: &Value) -> (result: String)
    ensures
        result@ == item_text(item@),
{
    match item {
        Value::Str(s) => {
            let mut out: String = String::new();
            out.push('\'');
            out.append(s.as_str());
            out.push('\'');
            proof {
                assert(out@ =~= item_text(item@));
            }
            out
        },
        Value::DateTime(d) => d.python_str(),
        Value::Date(d) => d.python_str(),
        Value::Time(t) => t.python_str(),
        Value::TimeDelta(d) => d.python_str(),
        _ => python_repr(item),
    }
}

// ---------------------------------------------------------------------
// The steps to the entries of an object
// ---------------------------------------------------------------------

/// The step to an entry of a `dict`.
pub open spec fn key_seg(key: KeyVal) -> Seg {
    match key {
        KeyVal::Str(s) => Seg::Key(s),
        KeyVal::Other(value) => Seg::OtherKey(repr(*value)),
    }
}

/// The step to an entry of an object: an attribute unless it is a `dict`.
pub open spec fn entry_seg(kind: ObjectKind, key: KeyVal) -> Seg {
    match (kind, key) {
        (ObjectKind::Dict, _) => key_seg(key),
        (_, KeyVal::Str(s)) => Seg::Attribute(s),
        _ => key_seg(key),
    }
}

/// The step to an entry of a `dict`.
pub fn object_key_path_segment(key: &ObjectKey) -> (segment: PathSegment)
    ensures
        segment@ == key_seg(key@),
{
    match key {
        ObjectKey::Str(s) => PathSegment::Key(s.clone()),
        ObjectKey::Other(value) => PathSegment::OtherKey(python_repr(&**value)),
    }
}

/// The step to an entry of an object: an attribute unless it is a `dict`.
pub fn entry_path_segment(kind: ObjectKind, key: &ObjectKey) -> (segment: PathSegment)
    ensures
        segment@ == entry_seg(kind, key@),
{
    match kind {
        ObjectKind::Dict => object_key_path_segment(key),
        _ => {
            match key {
                ObjectKey::Str(s) => PathSegment::Attribute(s.clone()),
                _ => object_key_path_segment(key),
            }
        },
    }
}

} // verus!
