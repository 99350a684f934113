//! The matching of two sequences that Python's `difflib.SequenceMatcher` does.
//!
//! The longest block that the two have in common is found first, then the
//! longest on either side of it, and so on; the gaps between the blocks are
//! what was replaced, deleted or inserted. With the heuristic for popular
//! elements on, an element that is very frequent in a long second sequence
//! starts no block, but a block may be extended over it.

use vstd::prelude::*;

use crate::scalar_key::{python_scalar_key, scalar_classes, ScalarKey};
use crate::value::Value;

#[allow(unused_imports)]
use crate::scalar_key::{basic, classes, key_view, lemma_classes, python_scalar, python_scalars, ScalarVal};
#[allow(unused_imports)]
use crate::value::{views, Val};

verus! {

// ---------------------------------------------------------------------
// Blocks
// ---------------------------------------------------------------------

/// A run of `size` elements, from `a` on in the first sequence and from `b` on
/// in the second.
pub struct Block {
    pub a: int,
    pub b: int,
    pub size: int,
}

/// A part of both sequences, the bounds half open.
pub struct Span {
    pub alo: int,
    pub ahi: int,
    pub blo: int,
    pub bhi: int,
}

/// How often a class occurs.
pub open spec fn occurrences(s: Seq<int>, class: int) -> nat
    decreases s.len(),
{
    if s.len() == 0 {
        0
    } else {
        occurrences(s.drop_last(), class) + if s.last() == class {
            1nat
        } else {
            0
        }
    }
}

/// The classes at which blocks may start: those of the second sequence, but
/// with the heuristic on not the popular ones of a long sequence.
pub open spec fn kept_classes(b: Seq<int>, autojunk: bool) -> Set<int> {
    Set::new(
        |class: int|
            occurrences(b, class) > 0 && (autojunk && b.len() >= 200 ==> occurrences(b, class)
                <= b.len() / 100 + 1),
    )
}

/// Whether two positions hold the same element, and one that starts blocks.
pub open spec fn meets(a: Seq<int>, b: Seq<int>, kept: Set<int>, i: int, j: int) -> bool {
    a[i] == b[j] && kept.contains(b[j])
}

/// Whether a run of such positions.
pub open spec fn common(a: Seq<int>, b: Seq<int>, kept: Set<int>, m: Block) -> bool {
    forall|t: int| 0 <= t < m.size ==> #[trigger] meets(a, b, kept, m.a + t, m.b + t)
}

/// Whether a block lies inside a part.
pub open spec fn inside(w: Span, m: Block) -> bool {
    w.alo <= m.a && m.a + m.size <= w.ahi && w.blo <= m.b && m.b + m.size <= w.bhi && m.size >= 0
}

/// Whether the bounds of a part are in order.
pub open spec fn proper(a: Seq<int>, b: Seq<int>, w: Span) -> bool {
    0 <= w.alo <= w.ahi <= a.len() && 0 <= w.blo <= w.bhi <= b.len()
}

/// Whether `m` is the longest common block of a part: the earliest in the first
/// sequence among the longest, and then the earliest in the second.
pub open spec fn is_longest(a: Seq<int>, b: Seq<int>, kept: Set<int>, w: Span, m: Block) -> bool {
    &&& inside(w, m)
    &&& common(a, b, kept, m)
    &&& m.size == 0 ==> m.a == w.alo && m.b == w.blo
    &&& forall|n: Block|
        #![trigger inside(w, n)]
        inside(w, n) && common(a, b, kept, n) ==> n.size <= m.size && (n.size == m.size
            && n.size > 0 ==> m.a < n.a || (m.a == n.a && m.b <= n.b))
}

/// The longest common block of a part.
pub open spec fn longest(a: Seq<int>, b: Seq<int>, kept: Set<int>, w: Span) -> Block {
    choose|m: Block| is_longest(a, b, kept, w, m)
}

/// The block extended backward over equal elements.
pub open spec fn extended_back(a: Seq<int>, b: Seq<int>, w: Span, m: Block) -> Block
    decreases m.a - w.alo,
{
    if m.a > w.alo && m.b > w.blo && a[m.a - 1] == b[m.b - 1] {
        extended_back(a, b, w, Block { a: m.a - 1, b: m.b - 1, size: m.size + 1 })
    } else {
        m
    }
}

/// The block extended forward over equal elements.
pub open spec fn extended_forward(a: Seq<int>, b: Seq<int>, w: Span, m: Block) -> Block
    decreases w.ahi - m.a - m.size,
{
    if m.a + m.size < w.ahi && m.b + m.size < w.bhi && a[m.a + m.size] == b[m.b + m.size] {
        extended_forward(a, b, w, Block { a: m.a, b: m.b, size: m.size + 1 })
    } else {
        m
    }
}

/// The block that a part is split at: the longest common one, extended where
/// popular elements were passed over.
pub open spec fn best_match(
    a: Seq<int>,
    b: Seq<int>,
    kept: Set<int>,
    extend: bool,
    w: Span,
) -> Block {
    let m: Block = longest(a, b, kept, w);
    if extend {
        extended_forward(a, b, w, extended_back(a, b, w, m))
    } else {
        m
    }
}

/// The part in front of a block.
pub open spec fn part_before(w: Span, m: Block) -> Span {
    Span { alo: w.alo, ahi: m.a, blo: w.blo, bhi: m.b }
}

/// The part behind a block.
pub open spec fn part_behind(w: Span, m: Block) -> Span {
    Span { alo: m.a + m.size, ahi: w.ahi, blo: m.b + m.size, bhi: w.bhi }
}

/// The blocks of a part, in their order: those in front of its best match, the
/// match, and those behind it.
pub open spec fn raw_blocks(
    a: Seq<int>,
    b: Seq<int>,
    kept: Set<int>,
    extend: bool,
    w: Span,
) -> Seq<Block>
    decreases w.ahi - w.alo,
{
    let m: Block = best_match(a, b, kept, extend, w);
    if m.size > 0 && inside(w, m) {
        raw_blocks(a, b, kept, extend, part_before(w, m)).push(m) + raw_blocks(
            a,
            b,
            kept,
            extend,
            part_behind(w, m),
        )
    } else {
        seq![]
    }
}

/// Joins the blocks that touch, `pending` standing in front of them.
pub open spec fn collapsed(blocks: Seq<Block>, pending: Block) -> Seq<Block>
    decreases blocks.len(),
{
    if blocks.len() == 0 {
        if pending.size > 0 {
            seq![pending]
        } else {
            seq![]
        }
    } else {
        let m: Block = blocks[0];
        if pending.a + pending.size == m.a && pending.b + pending.size == m.b {
            collapsed(
                blocks.drop_first(),
                Block { a: pending.a, b: pending.b, size: pending.size + m.size },
            )
        } else if pending.size > 0 {
            seq![pending] + collapsed(blocks.drop_first(), m)
        } else {
            collapsed(blocks.drop_first(), m)
        }
    }
}

/// Both sequences whole.
pub open spec fn whole(a: Seq<int>, b: Seq<int>) -> Span {
    Span { alo: 0, ahi: a.len() as int, blo: 0, bhi: b.len() as int }
}

/// The matching blocks, with an empty one at the end of both sequences.
pub open spec fn matching_blocks(a: Seq<int>, b: Seq<int>, autojunk: bool) -> Seq<Block> {
    collapsed(
        raw_blocks(a, b, kept_classes(b, autojunk), autojunk, whole(a, b)),
        Block { a: 0, b: 0, size: 0 },
    ).push(
        Block { a: a.len() as int, b: b.len() as int, size: 0 },
    )
}

// ---------------------------------------------------------------------
// The longest common block
// ---------------------------------------------------------------------

/// The length of the run of meeting positions that ends at `(i, j)`.
spec fn run_to(a: Seq<int>, b: Seq<int>, kept: Set<int>, w: Span, i: int, j: int) -> int
    decreases i - w.alo + 1,
{
    if i < w.alo || j < w.blo || !meets(a, b, kept, i, j) {
        0
    } else {
        run_to(a, b, kept, w, i - 1, j - 1) + 1
    }
}

proof fn lemma_run_common(a: Seq<int>, b: Seq<int>, kept: Set<int>, w: Span, i: int, j: int)
    ensures
        ({
            let size: int = run_to(a, b, kept, w, i, j);
            let m: Block = Block { a: i + 1 - size, b: j + 1 - size, size };
            size >= 0 && common(a, b, kept, m) && (size > 0 ==> w.alo <= m.a && w.blo <= m.b)
        }),
    decreases i - w.alo + 1,
{
    if !(i < w.alo || j < w.blo || !meets(a, b, kept, i, j)) {
        lemma_run_common(a, b, kept, w, i - 1, j - 1);
        let size: int = run_to(a, b, kept, w, i, j);
        let m: Block = Block { a: i + 1 - size, b: j + 1 - size, size };
        let shorter: Block = Block { a: i + 1 - size, b: j + 1 - size, size: size - 1 };
        assert(common(a, b, kept, shorter));
        assert forall|t: int| 0 <= t < m.size implies #[trigger] meets(
            a,
            b,
            kept,
            m.a + t,
            m.b + t,
        ) by {
            if t < size - 1 {
                assert(meets(a, b, kept, shorter.a + t, shorter.b + t));
            }
        }
    }
}

/// A common block is no longer than the run that ends where it ends.
proof fn lemma_common_run(a: Seq<int>, b: Seq<int>, kept: Set<int>, w: Span, m: Block)
    requires
        inside(w, m),
        common(a, b, kept, m),
    ensures
        m.size <= run_to(a, b, kept, w, m.a + m.size - 1, m.b + m.size - 1),
    decreases m.size,
{
    lemma_run_common(a, b, kept, w, m.a + m.size - 1, m.b + m.size - 1);
    if m.size > 0 {
        let shorter: Block = Block { a: m.a, b: m.b, size: m.size - 1 };
        assert forall|t: int| 0 <= t < shorter.size implies #[trigger] meets(
            a,
            b,
            kept,
            shorter.a + t,
            shorter.b + t,
        ) by {
            assert(meets(a, b, kept, m.a + t, m.b + t));
        }
        lemma_common_run(a, b, kept, w, shorter);
        assert(meets(a, b, kept, m.a + (m.size - 1), m.b + (m.size - 1)));
    }
}

/// There is at most one longest common block.
pub proof fn lemma_longest_unique(
    a: Seq<int>,
    b: Seq<int>,
    kept: Set<int>,
    w: Span,
    m: Block,
    n: Block,
)
    requires
        is_longest(a, b, kept, w, m),
        is_longest(a, b, kept, w, n),
    ensures
        m == n,
{
    assert(inside(w, m) && common(a, b, kept, m));
    assert(inside(w, n) && common(a, b, kept, n));
    assert(m.size == n.size);
    if m.size > 0 {
        assert(m.a == n.a && m.b == n.b);
    }
}

/// What has been found so far: the best of the runs that end before `(i, j)`,
/// row by row.
spec fn best_so_far(
    a: Seq<int>,
    b: Seq<int>,
    kept: Set<int>,
    w: Span,
    m: Block,
    i: int,
    j: int,
) -> bool {
    &&& inside(w, m)
    &&& common(a, b, kept, m)
    &&& m.size == 0 ==> m.a == w.alo && m.b == w.blo
    &&& m.size > 0 ==> m.a + m.size - 1 < i || (m.a + m.size - 1 == i && m.b + m.size - 1 < j)
    &&& forall|x: int, y: int|
        w.alo <= x < w.ahi && w.blo <= y < w.bhi && (x < i || (x == i && y < j)) ==> {
            let size: int = #[trigger] run_to(a, b, kept, w, x, y);
            size <= m.size && (size == m.size && size > 0 ==> m.a < x + 1 - size || (m.a == x + 1
                - size && m.b <= y + 1 - size))
        }
}

proof fn lemma_best_is_longest(
    a: Seq<int>,
    b: Seq<int>,
    kept: Set<int>,
    w: Span,
    m: Block,
    j: int,
)
    requires
        proper(a, b, w),
        best_so_far(a, b, kept, w, m, w.ahi, j),
    ensures
        is_longest(a, b, kept, w, m),
{
    assert forall|n: Block|
        #![trigger inside(w, n)]
        inside(w, n) && common(a, b, kept, n) implies n.size <= m.size && (n.size == m.size
        && n.size > 0 ==> m.a < n.a || (m.a == n.a && m.b <= n.b)) by {
        if n.size > 0 {
            let x: int = n.a + n.size - 1;
            let y: int = n.b + n.size - 1;
            lemma_common_run(a, b, kept, w, n);
            lemma_run_common(a, b, kept, w, x, y);
            assert(run_to(a, b, kept, w, x, y) <= m.size);
        }
    }
}

/// A block of the search: positions and length in machine words.
#[derive(Debug, Clone, Copy, PartialEq, Eq, Structural)]
pub struct Match {
    pub a: usize,
    pub b: usize,
    pub size: usize,
}

impl View for Match {
    type V = Block;

    open spec fn view(&self) -> Block {
        Block { a: self.a as int, b: self.b as int, size: self.size as int }
    }
}

/// A part of both sequences, in machine words.
#[derive(Debug, Clone, Copy, PartialEq, Eq, Structural)]
pub struct Window {
    pub alo: usize,
    pub ahi: usize,
    pub blo: usize,
    pub bhi: usize,
}

impl View for Window {
    type V = Span;

    open spec fn view(&self) -> Span {
        Span {
            alo: self.alo as int,
            ahi: self.ahi as int,
            blo: self.blo as int,
            bhi: self.bhi as int,
        }
    }
}

/// The positions as integers.
pub open spec fn ints(s: Seq<usize>) -> Seq<int> {
    Seq::new(s.len(), |i: int| s[i] as int)
}

/// Whether `lists` holds, under each class, all the positions of the second
/// sequence with that class in ascending order, or none.
pub open spec fn is_index(lists: Seq<Vec<usize>>, b: Seq<int>) -> bool {
    forall|class: int|
        0 <= class < lists.len() ==> (#[trigger] lists[class])@.len() == 0 || lists_class(
            lists[class]@,
            b,
            class,
        )
}

/// The classes whose positions are listed.
pub open spec fn listed_classes(lists: Seq<Vec<usize>>) -> Set<int> {
    Set::new(|class: int| 0 <= class < lists.len() && lists[class]@.len() > 0)
}

/// Whether a list holds all positions of a class, ascending.
pub open spec fn lists_class(list: Seq<usize>, b: Seq<int>, class: int) -> bool {
    &&& forall|k: int|
        0 <= k < list.len() ==> (#[trigger] list[k]) < b.len() && b[list[k] as int] == class
    &&& forall|k: int, l: int| 0 <= k < l < list.len() ==> list[k] < list[l]
    &&& forall|j: int|
        0 <= j < b.len() && #[trigger] b[j] == class ==> list.contains(j as usize)
}

/// The number of positions listed is the number of occurrences.
proof fn lemma_listed(list: Seq<usize>, b: Seq<int>, class: int)
    requires
        lists_class(list, b, class),
        b.len() <= usize::MAX,
    ensures
        list.len() == occurrences(b, class),
    decreases b.len(),
{
    if b.len() == 0 {
        if list.len() > 0 {
            assert(list[0] < b.len());
        }
    } else {
        let front: Seq<int> = b.drop_last();
        let at: int = b.len() - 1;
        if b.last() == class {
            assert(list.contains(at as usize));
            let k: int = choose|k: int| 0 <= k < list.len() && list[k] == at as usize;
            if k < list.len() - 1 {
                assert(list[k] < list[list.len() - 1]);
                assert(list[list.len() - 1] < b.len());
            }
            let shorter: Seq<usize> = list.drop_last();
            assert forall|i: int| 0 <= i < shorter.len() implies (#[trigger] shorter[i])
                < front.len() && front[shorter[i] as int] == class by {
                assert(list[i] < list[list.len() - 1]);
                assert(b[list[i] as int] == class);
            }
            assert forall|j: int| 0 <= j < front.len() && #[trigger] front[j] == class implies shorter.contains(
                j as usize,
            ) by {
                assert(b[j] == class);
                assert(list.contains(j as usize));
                let i: int = choose|i: int| 0 <= i < list.len() && list[i] == j as usize;
                assert(shorter[i] == j as usize);
            }
            lemma_listed(shorter, front, class);
        } else {
            assert forall|i: int| 0 <= i < list.len() implies (#[trigger] list[i]) < front.len()
                && front[list[i] as int] == class by {
                assert(b[list[i] as int] == class);
            }
            assert forall|j: int| 0 <= j < front.len() && #[trigger] front[j] == class implies list.contains(
                j as usize,
            ) by {
                assert(b[j] == class);
            }
            lemma_listed(list, front, class);
        }
    }
}

/// The positions of the second sequence by class; with the heuristic on, a
/// class that occurs in more than one in a hundred positions of a sequence of
/// two hundred or more is left out.
pub fn build_b2j(b: &Vec<usize>, count: usize, autojunk: bool) -> (lists: Vec<Vec<usize>>)
    requires
        forall|j: int| 0 <= j < b@.len() ==> (#[trigger] b@[j]) < count,
    ensures
        lists@.len() == count,
        is_index(lists@, ints(b@)),
        listed_classes(lists@) == kept_classes(ints(b@), autojunk),
{
    let ghost classes: Seq<int> = ints(b@);
    let mut lists: Vec<Vec<usize>> = Vec::new();
    let mut c: usize = 0;
    while c < count
        invariant
            c <= count,
            lists@.len() == c,
            forall|k: int| 0 <= k < c ==> (#[trigger] lists@[k])@.len() == 0,
        decreases count - c,
    {
        lists.push(Vec::new());
        c = c + 1;
    }
    let mut j: usize = 0;
    proof {
        assert(classes.take(0) =~= seq![]);
    }
    while j < b.len()
        invariant
            j <= b.len(),
            classes == ints(b@),
            lists@.len() == count,
            forall|i: int| 0 <= i < b@.len() ==> (#[trigger] b@[i]) < count,
            forall|class: int|
                0 <= class < count ==> lists_class(
                    #[trigger] lists@[class]@,
                    classes.take(j as int),
                    class,
                ),
        decreases b.len() - j,
    {
        let which: usize = b[j];
        let ghost before: Seq<Vec<usize>> = lists@;
        let mut list: Vec<usize> = Vec::new();
        std::mem::swap(&mut list, &mut lists[which]);
        let ghost held: Seq<usize> = list@;
        list.push(j);
        std::mem::swap(&mut list, &mut lists[which]);
        proof {
            let now: Seq<int> = classes.take(j as int + 1);
            let then: Seq<int> = classes.take(j as int);
            assert(lists@[which as int]@ == held.push(j));
            assert forall|class: int| 0 <= class < count implies lists_class(
                #[trigger] lists@[class]@,
                now,
                class,
            ) by {
                let old_list: Seq<usize> = before[class]@;
                let new_list: Seq<usize> = lists@[class]@;
                assert(lists_class(old_list, then, class));
                assert forall|k: int| 0 <= k < new_list.len() implies (#[trigger] new_list[k])
                    < now.len() && now[new_list[k] as int] == class by {
                    if k < old_list.len() {
                        assert(old_list[k] < then.len() && then[old_list[k] as int] == class);
                    }
                }
                assert forall|k: int, l: int| 0 <= k < l < new_list.len() implies new_list[k]
                    < new_list[l] by {
                    if l < old_list.len() {
                        assert(old_list[k] < old_list[l]);
                    } else {
                        assert(old_list[k] < then.len());
                    }
                }
                assert forall|i: int| 0 <= i < now.len() && #[trigger] now[i] == class implies new_list.contains(
                    i as usize,
                ) by {
                    if i < then.len() {
                        assert(then[i] == class);
                        assert(old_list.contains(i as usize));
                        let k: int = choose|k: int|
                            0 <= k < old_list.len() && old_list[k] == i as usize;
                        assert(new_list[k] == i as usize);
                    } else {
                        assert(new_list[old_list.len() as int] == i as usize);
                    }
                }
            }
        }
        j = j + 1;
    }
    proof {
        assert(classes.take(j as int) =~= classes);
    }
    let ghost full: Seq<Vec<usize>> = lists@;
    if autojunk && b.len() >= 200 {
        let most: usize = b.len() / 100 + 1;
        let mut c: usize = 0;
        while c < count
            invariant
                c <= count,
                classes == ints(b@),
                most == b.len() / 100 + 1,
                lists@.len() == count,
                full.len() == count,
                forall|class: int|
                    0 <= class < count ==> lists_class(#[trigger] full[class]@, classes, class),
                forall|class: int|
                    0 <= class < c ==> (#[trigger] lists@[class])@ == if occurrences(classes, class)
                        > most {
                        Seq::<usize>::empty()
                    } else {
                        full[class]@
                    },
                forall|class: int| c <= class < count ==> #[trigger] lists@[class] == full[class],
            decreases count - c,
        {
            proof {
                assert(lists@[c as int] == full[c as int]);
                lemma_listed(full[c as int]@, classes, c as int);
            }
            if lists[c].len() > most {
                lists.set(c, Vec::new());
            }
            c = c + 1;
        }
    }
    proof {
        assert forall|class: int| listed_classes(lists@).contains(class) <==> kept_classes(
            classes,
            autojunk,
        ).contains(class) by {
            if 0 <= class < count {
                assert(lists_class(full[class]@, classes, class));
                lemma_listed(full[class]@, classes, class);
            } else {
                lemma_absent(classes, class);
            }
        }
        assert(listed_classes(lists@) =~= kept_classes(classes, autojunk));
    }
    lists
}

/// What stands nowhere does not occur.
proof fn lemma_absent(s: Seq<int>, class: int)
    requires
        forall|i: int| 0 <= i < s.len() ==> #[trigger] s[i] != class,
    ensures
        occurrences(s, class) == 0,
    decreases s.len(),
{
    if s.len() > 0 {
        assert forall|i: int| 0 <= i < s.drop_last().len() implies #[trigger] s.drop_last()[i]
            != class by {
            assert(s[i] != class);
        }
        assert(s[s.len() - 1] != class);
        lemma_absent(s.drop_last(), class);
    }
}

/// A run is no longer than the rows it has.
proof fn lemma_run_bound(a: Seq<int>, b: Seq<int>, kept: Set<int>, w: Span, i: int, j: int)
    ensures
        0 <= run_to(a, b, kept, w, i, j),
        i >= w.alo ==> run_to(a, b, kept, w, i, j) <= i - w.alo + 1,
        j >= w.blo ==> run_to(a, b, kept, w, i, j) <= j - w.blo + 1,
    decreases i - w.alo + 1,
{
    if !(i < w.alo || j < w.blo || !meets(a, b, kept, i, j)) {
        lemma_run_bound(a, b, kept, w, i - 1, j - 1);
    }
}

/// The run lengths of one row, each valid where its stamp is that of the row.
spec fn row_holds(
    a: Seq<int>,
    b: Seq<int>,
    kept: Set<int>,
    w: Span,
    lengths: Seq<usize>,
    stamps: Seq<usize>,
    i: int,
    below: int,
) -> bool {
    forall|y: int|
        w.blo <= y < below && y < w.bhi ==> (#[trigger] run_to(a, b, kept, w, i, y)) == if stamps[y
            - w.blo] == i + 1 {
            lengths[y - w.blo] as int
        } else {
            0
        }
}

/// A list of zeros.
fn zeros_list(len: usize) -> (list: Vec<usize>)
    ensures
        list@.len() == len,
        forall|i: int| 0 <= i < len ==> #[trigger] list@[i] == 0,
{
    let mut list: Vec<usize> = Vec::new();
    let mut i: usize = 0;
    while i < len
        invariant
            i <= len,
            list@.len() == i,
            forall|k: int| 0 <= k < i ==> #[trigger] list@[k] == 0,
        decreases len - i,
    {
        list.push(0);
        i = i + 1;
    }
    list
}

/// The longest common block of a part, found row by row from the runs that end
/// in the row before.
fn longest_run(
    a: &Vec<usize>,
    b: &Vec<usize>,
    window: Window,
    b2j: &Vec<Vec<usize>>,
) -> (best: Match)
    requires
        proper(ints(a@), ints(b@), window@),
        is_index(b2j@, ints(b@)),
        forall|i: int| 0 <= i < a@.len() ==> (#[trigger] a@[i]) < b2j@.len(),
    ensures
        is_longest(ints(a@), ints(b@), listed_classes(b2j@), window@, best@),
{
    let ghost x: Seq<int> = ints(a@);
    let ghost y: Seq<int> = ints(b@);
    let ghost kept: Set<int> = listed_classes(b2j@);
    let ghost w: Span = window@;
    let width: usize = window.bhi - window.blo;
    let mut best: Match = Match { a: window.alo, b: window.blo, size: 0 };
    let mut last_lengths: Vec<usize> = zeros_list(width);
    let mut last_stamps: Vec<usize> = zeros_list(width);
    let mut lengths: Vec<usize> = zeros_list(width);
    let mut stamps: Vec<usize> = zeros_list(width);
    let mut i: usize = window.alo;
    proof {
        assert forall|j: int| w.blo <= j < w.bhi implies (#[trigger] run_to(
            x,
            y,
            kept,
            w,
            i as int - 1,
            j,
        )) == if last_stamps@[j - w.blo] == i {
            last_lengths@[j - w.blo] as int
        } else {
            0
        } by {
            assert(last_lengths@[j - w.blo] == 0);
        }
    }
    while i < window.ahi
        invariant
            x == ints(a@),
            y == ints(b@),
            kept == listed_classes(b2j@),
            w == window@,
            proper(x, y, w),
            is_index(b2j@, y),
            forall|k: int| 0 <= k < a@.len() ==> (#[trigger] a@[k]) < b2j@.len(),
                window.alo <= i <= window.ahi,
            width == window.bhi - window.blo,
            last_lengths@.len() == width,
            last_stamps@.len() == width,
            lengths@.len() == width,
            stamps@.len() == width,
            forall|k: int| 0 <= k < width ==> (#[trigger] last_stamps@[k]) <= i,
            forall|k: int| 0 <= k < width ==> (#[trigger] stamps@[k]) <= i,
            row_holds(x, y, kept, w, last_lengths@, last_stamps@, i as int - 1, w.bhi),
            best_so_far(x, y, kept, w, best@, i as int, w.blo),
        decreases window.ahi - i,
    {
        let list: &Vec<usize> = &b2j[a[i]];
        let ghost class: int = a@[i as int] as int;
        let ghost mut upto: int = w.blo;
        let mut k: usize = 0;
        while k < list.len() && list[k] < window.blo
            invariant
                k <= list.len(),
                forall|l: int| 0 <= l < k ==> (#[trigger] list@[l]) < window.blo,
            decreases list.len() - k,
        {
            k = k + 1;
        }
        proof {
            assert(list@ == b2j@[class]@);
            assert forall|l: int| k <= l < list@.len() implies (#[trigger] list@[l]) >= upto by {
                assert(lists_class(list@, y, class));
                if l > k {
                    assert(list@[k as int] < list@[l]);
                }
            }
        }
        while k < list.len() && list[k] < window.bhi
            invariant
                x == ints(a@),
                y == ints(b@),
                kept == listed_classes(b2j@),
                w == window@,
                proper(x, y, w),
                is_index(b2j@, y),
                        window.alo <= i < window.ahi,
                class == a@[i as int],
                0 <= class < b2j@.len(),
                list@ == b2j@[class]@,
                k <= list.len(),
                width == window.bhi - window.blo,
                last_lengths@.len() == width,
                last_stamps@.len() == width,
                lengths@.len() == width,
                stamps@.len() == width,
                w.blo <= upto <= w.bhi,
                forall|l: int| 0 <= l < k ==> (#[trigger] list@[l]) < upto,
                forall|l: int| k <= l < list@.len() ==> (#[trigger] list@[l]) >= upto,
                forall|l: int| 0 <= l < width ==> (#[trigger] last_stamps@[l]) <= i,
                forall|l: int| 0 <= l < width ==> (#[trigger] stamps@[l]) <= i + 1,
                forall|l: int| upto - w.blo <= l < width ==> (#[trigger] stamps@[l]) <= i,
                row_holds(x, y, kept, w, last_lengths@, last_stamps@, i as int - 1, w.bhi),
                row_holds(x, y, kept, w, lengths@, stamps@, i as int, upto),
                best_so_far(x, y, kept, w, best@, i as int, upto),
            decreases list.len() - k,
        {
            let j: usize = list[k];
            let ghost lengths_before: Seq<usize> = lengths@;
            let ghost stamps_before: Seq<usize> = stamps@;
            let ghost best_before: Block = best@;
            proof {
                assert(lists_class(list@, y, class));
                assert(y[j as int] == class);
                assert(kept.contains(class));
                assert(meets(x, y, kept, i as int, j as int));
                lemma_run_bound(x, y, kept, w, i as int, j as int);
                lemma_run_common(x, y, kept, w, i as int, j as int);
                assert forall|z: int| upto <= z < j implies (#[trigger] run_to(
                    x,
                    y,
                    kept,
                    w,
                    i as int,
                    z,
                )) == 0 by {
                    if meets(x, y, kept, i as int, z) {
                        assert(y[z] == class);
                        assert(list@.contains(z as usize));
                        let l: int = choose|l: int| 0 <= l < list@.len() && list@[l] == z as usize;
                        assert(list@[l] == z);
                        if l < k {
                            assert(list@[l] < upto);
                        } else if l > k {
                            assert(list@[k as int] < list@[l]);
                        }
                    }
                }
            }
            let before: usize = if j > window.blo && last_stamps[j - 1 - window.blo] == i {
                last_lengths[j - 1 - window.blo]
            } else {
                0
            };
            proof {
                assert(run_to(x, y, kept, w, i as int - 1, j as int - 1) == before);
                lemma_run_bound(x, y, kept, w, i as int - 1, j as int - 1);
            }
            let length: usize = before + 1;
            lengths.set(j - window.blo, length);
            stamps.set(j - window.blo, i + 1);
            if length > best.size {
                best = Match { a: i + 1 - length, b: j + 1 - length, size: length };
            }
            proof {
                assert(run_to(x, y, kept, w, i as int, j as int) == length);
                assert forall|z: int| w.blo <= z < j + 1 && z < w.bhi implies (#[trigger] run_to(
                    x,
                    y,
                    kept,
                    w,
                    i as int,
                    z,
                )) == if stamps@[z - w.blo] == i + 1 {
                    lengths@[z - w.blo] as int
                } else {
                    0
                } by {
                    if z < upto {
                        assert(stamps@[z - w.blo] == stamps_before[z - w.blo]);
                    } else if z < j {
                        assert(stamps@[z - w.blo] == stamps_before[z - w.blo]);
                        assert(stamps_before[z - w.blo] <= i);
                    }
                }
                assert forall|p: int, q: int|
                    w.alo <= p < w.ahi && w.blo <= q < w.bhi && (p < i || (p == i && q < j
                        + 1)) implies {
                    let size: int = #[trigger] run_to(x, y, kept, w, p, q);
                    size <= best@.size && (size == best@.size && size > 0 ==> best@.a < p + 1 - size
                        || (best@.a == p + 1 - size && best@.b <= q + 1 - size))
                } by {
                    let size: int = run_to(x, y, kept, w, p, q);
                    if p < i || q < upto {
                        assert(size <= best_before.size);
                    } else if q < j {
                        assert(size == 0);
                    }
                }
                upto = j as int + 1;
                assert forall|l: int| k + 1 <= l < list@.len() implies (#[trigger] list@[l])
                    >= upto by {
                    assert(list@[k as int] < list@[l]);
                }
            }
            k = k + 1;
        }
        proof {
            assert forall|z: int| upto <= z < w.bhi implies (#[trigger] run_to(
                x,
                y,
                kept,
                w,
                i as int,
                z,
            )) == 0 by {
                if meets(x, y, kept, i as int, z) {
                    assert(y[z] == class);
                    assert(lists_class(list@, y, class));
                    assert(list@.contains(z as usize));
                    let l: int = choose|l: int| 0 <= l < list@.len() && list@[l] == z as usize;
                    assert(list@[l] == z);
                    if l < k {
                        assert(list@[l] < upto);
                    } else {
                        if l > k {
                            assert(list@[k as int] < list@[l]);
                        }
                        assert(list@[k as int] >= window.bhi);
                    }
                }
            }
            assert forall|z: int| w.blo <= z < w.bhi implies (#[trigger] run_to(
                x,
                y,
                kept,
                w,
                i as int,
                z,
            )) == if stamps@[z - w.blo] == i + 1 {
                lengths@[z - w.blo] as int
            } else {
                0
            } by {
                if z >= upto {
                    assert(stamps@[z - w.blo] <= i);
                }
            }
            assert forall|p: int, q: int|
                w.alo <= p < w.ahi && w.blo <= q < w.bhi && (p < i + 1 || (p == i + 1 && q
                    < w.blo)) implies {
                let size: int = #[trigger] run_to(x, y, kept, w, p, q);
                size <= best@.size && (size == best@.size && size > 0 ==> best@.a < p + 1 - size || (
                best@.a == p + 1 - size && best@.b <= q + 1 - size))
            } by {
                let size: int = run_to(x, y, kept, w, p, q);
                if p == i && q >= upto {
                    assert(size == 0);
                }
            }
        }
        std::mem::swap(&mut last_lengths, &mut lengths);
        std::mem::swap(&mut last_stamps, &mut stamps);
        i = i + 1;
    }
    proof {
        lemma_best_is_longest(x, y, kept, w, best@, w.blo);
    }
    best
}

/// The block that a part is split at; with `extend`, the longest common block
/// of listed elements is extended over equal ones on both sides.
pub fn find_longest_match(
    a: &Vec<usize>,
    b: &Vec<usize>,
    window: Window,
    b2j: &Vec<Vec<usize>>,
    extend: bool,
) -> (best: Match)
    requires
        proper(ints(a@), ints(b@), window@),
        is_index(b2j@, ints(b@)),
        forall|i: int| 0 <= i < a@.len() ==> (#[trigger] a@[i]) < b2j@.len(),
    ensures
        best@ == best_match(ints(a@), ints(b@), listed_classes(b2j@), extend, window@),
        inside(window@, best@),
{
    let ghost x: Seq<int> = ints(a@);
    let ghost y: Seq<int> = ints(b@);
    let ghost kept: Set<int> = listed_classes(b2j@);
    let ghost w: Span = window@;
    let mut best: Match = longest_run(a, b, window, b2j);
    proof {
        lemma_longest_unique(x, y, kept, w, best@, longest(x, y, kept, w));
    }
    if extend {
        let ghost found: Block = best@;
        while best.a > window.alo && best.b > window.blo && a[best.a - 1] == b[best.b - 1]
            invariant
                x == ints(a@),
                y == ints(b@),
                w == window@,
                proper(x, y, w),
                inside(w, best@),
                extended_back(x, y, w, best@) == extended_back(x, y, w, found),
            decreases best.a,
        {
            best = Match { a: best.a - 1, b: best.b - 1, size: best.size + 1 };
        }
        let ghost back: Block = best@;
        while best.a + best.size < window.ahi && best.b + best.size < window.bhi && a[best.a
            + best.size] == b[best.b + best.size]
            invariant
                x == ints(a@),
                y == ints(b@),
                w == window@,
                proper(x, y, w),
                inside(w, best@),
                extended_forward(x, y, w, best@) == extended_forward(x, y, w, back),
            decreases window.ahi - best.a - best.size,
        {
            best = Match { a: best.a, b: best.b, size: best.size + 1 };
        }
    }
    best
}

// ---------------------------------------------------------------------
// Matching blocks
// ---------------------------------------------------------------------

/// What the search still has to do, the next on top.
enum Todo {
    Search(Window),
    Emit(Match),
}

/// The blocks that one piece of work gives.
spec fn given(a: Seq<int>, b: Seq<int>, kept: Set<int>, extend: bool, work: Todo) -> Seq<Block> {
    match work {
        Todo::Search(window) => raw_blocks(a, b, kept, extend, window@),
        Todo::Emit(m) => seq![m@],
    }
}

/// The blocks that are still to come.
spec fn to_come(
    a: Seq<int>,
    b: Seq<int>,
    kept: Set<int>,
    extend: bool,
    stack: Seq<Todo>,
) -> Seq<Block>
    decreases stack.len(),
{
    if stack.len() == 0 {
        seq![]
    } else {
        given(a, b, kept, extend, stack.last()) + to_come(a, b, kept, extend, stack.drop_last())
    }
}

proof fn lemma_to_come_push(
    a: Seq<int>,
    b: Seq<int>,
    kept: Set<int>,
    extend: bool,
    stack: Seq<Todo>,
    work: Todo,
)
    ensures
        to_come(a, b, kept, extend, stack.push(work)) == given(a, b, kept, extend, work) + to_come(
            a,
            b,
            kept,
            extend,
            stack,
        ),
{
    assert(stack.push(work).drop_last() =~= stack);
}

/// How much work there is at most.
spec fn work_left(stack: Seq<Todo>) -> int
    decreases stack.len(),
{
    if stack.len() == 0 {
        0
    } else {
        work_left(stack.drop_last()) + match stack.last() {
            Todo::Search(window) => 3 * (window.ahi - window.alo) + 1,
            Todo::Emit(_) => 1,
        }
    }
}

proof fn lemma_work_push(stack: Seq<Todo>, work: Todo)
    ensures
        work_left(stack.push(work)) == work_left(stack) + match work {
            Todo::Search(window) => 3 * (window.ahi - window.alo) + 1,
            Todo::Emit(_) => 1,
        },
{
    assert(stack.push(work).drop_last() =~= stack);
}

proof fn lemma_work_positive(a: Seq<int>, b: Seq<int>, stack: Seq<Todo>)
    requires
        todo_fits(a, b, stack),
    ensures
        work_left(stack) >= stack.len(),
    decreases stack.len(),
{
    if stack.len() > 0 {
        assert(fits(a, b, stack.last()));
        assert forall|k: int| 0 <= k < stack.drop_last().len() implies #[trigger] fits(
            a,
            b,
            stack.drop_last()[k],
        ) by {
            assert(fits(a, b, stack[k]));
        }
        lemma_work_positive(a, b, stack.drop_last());
    }
}

/// Whether a piece of work speaks of positions that there are.
spec fn fits(a: Seq<int>, b: Seq<int>, work: Todo) -> bool {
    match work {
        Todo::Search(window) => proper(a, b, window@),
        Todo::Emit(m) => inside(whole(a, b), m@),
    }
}

spec fn todo_fits(a: Seq<int>, b: Seq<int>, stack: Seq<Todo>) -> bool {
    forall|k: int| 0 <= k < stack.len() ==> #[trigger] fits(a, b, stack[k])
}

/// The models of blocks.
pub open spec fn blocks_view(blocks: Seq<Match>) -> Seq<Block> {
    Seq::new(blocks.len(), |i: int| blocks[i]@)
}

/// The blocks of both sequences in their order, before those that touch are
/// joined.
#[verifier::rlimit(40)]
#[verifier::spinoff_prover]
fn search_blocks(
    a: &Vec<usize>,
    b: &Vec<usize>,
    b2j: &Vec<Vec<usize>>,
    extend: bool,
) -> (blocks: Vec<Match>)
    requires
        is_index(b2j@, ints(b@)),
        forall|i: int| 0 <= i < a@.len() ==> (#[trigger] a@[i]) < b2j@.len(),
    ensures
        blocks_view(blocks@) == raw_blocks(
            ints(a@),
            ints(b@),
            listed_classes(b2j@),
            extend,
            whole(ints(a@), ints(b@)),
        ),
        forall|i: int|
            0 <= i < blocks@.len() ==> inside(
                whole(ints(a@), ints(b@)),
                (#[trigger] blocks@[i])@,
            ),
{
    let ghost x: Seq<int> = ints(a@);
    let ghost y: Seq<int> = ints(b@);
    let ghost kept: Set<int> = listed_classes(b2j@);
    let mut blocks: Vec<Match> = Vec::new();
    let mut stack: Vec<Todo> = Vec::new();
    let all: Window = Window { alo: 0, ahi: a.len(), blo: 0, bhi: b.len() };
    let ghost total: Seq<Block> = raw_blocks(x, y, kept, extend, whole(x, y));
    proof {
        lemma_to_come_push(x, y, kept, extend, stack@, Todo::Search(all));
        assert(all@ == whole(x, y));
    }
    stack.push(Todo::Search(all));
    proof {
        assert(blocks_view(blocks@) + to_come(x, y, kept, extend, stack@) =~= total);
    }
    while stack.len() > 0
        invariant
            x == ints(a@),
            y == ints(b@),
            kept == listed_classes(b2j@),
            is_index(b2j@, y),
            forall|i: int| 0 <= i < a@.len() ==> (#[trigger] a@[i]) < b2j@.len(),
            total == raw_blocks(x, y, kept, extend, whole(x, y)),
            todo_fits(x, y, stack@),
            blocks_view(blocks@) + to_come(x, y, kept, extend, stack@) == total,
            forall|i: int|
                0 <= i < blocks@.len() ==> inside(whole(x, y), (#[trigger] blocks@[i])@),
        decreases work_left(stack@),
    {
        let ghost before: Seq<Todo> = stack@;
        let ghost done: Seq<Block> = blocks_view(blocks@);
        let work: Todo = stack.pop().unwrap();
        let ghost rest: Seq<Todo> = stack@;
        proof {
            assert(before =~= rest.push(work));
            lemma_to_come_push(x, y, kept, extend, rest, work);
            lemma_work_push(rest, work);
            assert(fits(x, y, before[before.len() - 1]));
            assert forall|k: int| 0 <= k < rest.len() implies #[trigger] fits(x, y, rest[k]) by {
                assert(fits(x, y, before[k]));
            }
            lemma_work_positive(x, y, rest);
        }
        match work {
            Todo::Emit(m) => {
                blocks.push(m);
                proof {
                    assert(blocks_view(blocks@) =~= done.push(m@));
                    assert(done.push(m@) + to_come(x, y, kept, extend, rest) =~= done + (seq![m@]
                        + to_come(x, y, kept, extend, rest)));
                }
            },
            Todo::Search(window) => {
                let m: Match = find_longest_match(a, b, window, b2j, extend);
                if m.size > 0 {
                    let front: Window = Window {
                        alo: window.alo,
                        ahi: m.a,
                        blo: window.blo,
                        bhi: m.b,
                    };
                    let behind: Window = Window {
                        alo: m.a + m.size,
                        ahi: window.ahi,
                        blo: m.b + m.size,
                        bhi: window.bhi,
                    };
                    let ghost tail: Seq<Block> = to_come(x, y, kept, extend, rest);
                    let ghost one: Seq<Block> = raw_blocks(x, y, kept, extend, front@);
                    let ghost two: Seq<Block> = raw_blocks(x, y, kept, extend, behind@);
                    if behind.alo < behind.ahi && behind.blo < behind.bhi {
                        proof {
                            lemma_to_come_push(
                                x,
                                y,
                                kept,
                                extend,
                                stack@,
                                Todo::Search(behind),
                            );
                            lemma_work_push(stack@, Todo::Search(behind));
                        }
                        stack.push(Todo::Search(behind));
                    }
                    proof {
                        assert(to_come(x, y, kept, extend, stack@) =~= two + tail);
                        lemma_to_come_push(x, y, kept, extend, stack@, Todo::Emit(m));
                        lemma_work_push(stack@, Todo::Emit(m));
                    }
                    stack.push(Todo::Emit(m));
                    if front.alo < front.ahi && front.blo < front.bhi {
                        proof {
                            lemma_to_come_push(
                                x,
                                y,
                                kept,
                                extend,
                                stack@,
                                Todo::Search(front),
                            );
                            lemma_work_push(stack@, Todo::Search(front));
                        }
                        stack.push(Todo::Search(front));
                    }
                    proof {
                        assert(front@ == part_before(window@, m@));
                        assert(behind@ == part_behind(window@, m@));
                        assert(to_come(x, y, kept, extend, stack@) =~= one + (seq![m@] + (two
                            + tail)));
                        assert(one + (seq![m@] + (two + tail)) =~= (one.push(m@) + two) + tail);
                    }
                } else {
                    proof {
                        assert(raw_blocks(x, y, kept, extend, window@) =~= Seq::<Block>::empty());
                        assert(Seq::<Block>::empty() + to_come(x, y, kept, extend, rest)
                            =~= to_come(x, y, kept, extend, rest));
                    }
                }
            },
        }
    }
    proof {
        assert(blocks_view(blocks@) + Seq::<Block>::empty() =~= blocks_view(blocks@));
    }
    blocks
}

/// The blocks, those that touch joined.
fn collapse(blocks: &Vec<Match>, Ghost(w): Ghost<Span>) -> (joined: Vec<Match>)
    requires
        forall|i: int| 0 <= i < blocks@.len() ==> inside(w, (#[trigger] blocks@[i])@),
        w.alo == 0,
        w.blo == 0,
        0 <= w.ahi <= usize::MAX,
        0 <= w.bhi <= usize::MAX,
    ensures
        blocks_view(joined@) == collapsed(
            blocks_view(blocks@),
            (Block { a: 0, b: 0, size: 0 }),
        ),
        forall|i: int| 0 <= i < joined@.len() ==> inside(w, (#[trigger] joined@[i])@),
{
    let ghost all: Seq<Block> = blocks_view(blocks@);
    let ghost none: Block = Block { a: 0, b: 0, size: 0 };
    let mut joined: Vec<Match> = Vec::new();
    let mut pending: Match = Match { a: 0, b: 0, size: 0 };
    let mut i: usize = 0;
    proof {
        assert(all.skip(0) =~= all);
        assert(blocks_view(joined@) + collapsed(all.skip(0), pending@) =~= collapsed(all, none));
    }
    while i < blocks.len()
        invariant
            i <= blocks.len(),
            all == blocks_view(blocks@),
            forall|k: int| 0 <= k < blocks@.len() ==> inside(w, (#[trigger] blocks@[k])@),
            w.alo == 0,
            w.blo == 0,
            0 <= w.ahi <= usize::MAX,
            0 <= w.bhi <= usize::MAX,
            inside(w, pending@),
            forall|k: int| 0 <= k < joined@.len() ==> inside(w, (#[trigger] joined@[k])@),
            blocks_view(joined@) + collapsed(all.skip(i as int), pending@) == collapsed(all, none),
        decreases blocks.len() - i,
    {
        let m: Match = blocks[i];
        let ghost done: Seq<Block> = blocks_view(joined@);
        proof {
            assert(inside(w, blocks@[i as int]@));
            assert(all.skip(i as int)[0] == m@);
            assert(all.skip(i as int).drop_first() =~= all.skip(i as int + 1));
        }
        if pending.a + pending.size == m.a && pending.b + pending.size == m.b {
            pending = Match { a: pending.a, b: pending.b, size: pending.size + m.size };
        } else {
            if pending.size > 0 {
                joined.push(pending);
                proof {
                    assert(blocks_view(joined@) =~= done.push(pending@));
                    assert(done.push(pending@) + collapsed(all.skip(i as int + 1), m@) =~= done + (
                    seq![pending@] + collapsed(all.skip(i as int + 1), m@)));
                }
            }
            pending = m;
        }
        i = i + 1;
    }
    let ghost done: Seq<Block> = blocks_view(joined@);
    if pending.size > 0 {
        joined.push(pending);
        proof {
            assert(blocks_view(joined@) =~= done + seq![pending@]);
        }
    } else {
        proof {
            assert(done + Seq::<Block>::empty() =~= done);
        }
    }
    joined
}

/// The classes of two lists of values, equal ones and they alone sharing one.
pub open spec fn class_lists(a: Seq<Val>, b: Seq<Val>) -> (Seq<int>, Seq<int>) {
    let all: Seq<int> = classes(python_scalars(a + b));
    (all.take(a.len() as int), all.skip(a.len() as int))
}

/// The matching blocks of two lists of scalars.
pub fn get_matching_blocks(a: &[Value], b: &[Value], autojunk: bool) -> (blocks: Vec<Match>)
    requires
        forall|i: int| 0 <= i < a@.len() ==> basic(#[trigger] views(a@)[i]),
        forall|i: int| 0 <= i < b@.len() ==> basic(#[trigger] views(b@)[i]),
    ensures
        blocks_view(blocks@) == matching_blocks(
            class_lists(views(a@), views(b@)).0,
            class_lists(views(a@), views(b@)).1,
            autojunk,
        ),
        forall|i: int|
            0 <= i < blocks@.len() ==> (#[trigger] blocks@[i]).a + blocks@[i].size <= a@.len()
                && blocks@[i].b + blocks@[i].size <= b@.len(),
{
    let ghost both: Seq<Val> = views(a@) + views(b@);
    let mut keys: Vec<Option<ScalarKey>> = Vec::new();
    let mut i: usize = 0;
    while i < a.len()
        invariant
            i <= a.len(),
            both == views(a@) + views(b@),
            keys@.len() == i,
            forall|k: int| 0 <= k < i ==> key_view(#[trigger] keys@[k]) == python_scalar(both[k]),
        decreases a.len() - i,
    {
        keys.push(python_scalar_key(&a[i]));
        i = i + 1;
    }
    let mut j: usize = 0;
    while j < b.len()
        invariant
            j <= b.len(),
            both == views(a@) + views(b@),
            keys@.len() == a@.len() + j,
            forall|k: int|
                0 <= k < keys@.len() ==> key_view(#[trigger] keys@[k]) == python_scalar(both[k]),
        decreases b.len() - j,
    {
        keys.push(python_scalar_key(&b[j]));
        j = j + 1;
    }
    let all: Vec<usize> = scalar_classes(&keys);
    let ghost kinds: Seq<Option<ScalarVal>> = python_scalars(both);
    proof {
        assert(Seq::new(keys@.len(), |k: int| key_view(keys@[k])) =~= kinds);
        assert forall|k: int| 0 <= k < all@.len() implies (#[trigger] all@[k]) < all@.len() by {
            lemma_classes(kinds, k, k);
        }
    }
    let mut first: Vec<usize> = Vec::new();
    let mut second: Vec<usize> = Vec::new();
    let mut k: usize = 0;
    while k < all.len()
        invariant
            k <= all.len(),
            all@.len() == a@.len() + b@.len(),
            forall|l: int| 0 <= l < all@.len() ==> (#[trigger] all@[l]) < all@.len(),
            first@.len() + second@.len() == k,
            first@.len() == if k < a@.len() {
                k as int
            } else {
                a@.len() as int
            },
            forall|l: int| 0 <= l < first@.len() ==> (#[trigger] first@[l]) == all@[l],
            forall|l: int|
                0 <= l < second@.len() ==> (#[trigger] second@[l]) == all@[a@.len() + l],
        decreases all.len() - k,
    {
        if k < a.len() {
            first.push(all[k]);
        } else {
            second.push(all[k]);
        }
        k = k + 1;
    }
    let ghost x: Seq<int> = class_lists(views(a@), views(b@)).0;
    let ghost y: Seq<int> = class_lists(views(a@), views(b@)).1;
    proof {
        assert(ints(first@) =~= x);
        assert(ints(second@) =~= y);
        assert forall|l: int| 0 <= l < first@.len() implies (#[trigger] first@[l]) < all@.len() by {
            assert(all@[l] < all@.len());
        }
        assert forall|l: int| 0 <= l < second@.len() implies (#[trigger] second@[l])
            < all@.len() by {
            assert(all@[a@.len() + l] < all@.len());
        }
    }
    let b2j: Vec<Vec<usize>> = build_b2j(&second, all.len(), autojunk);
    let raw: Vec<Match> = search_blocks(&first, &second, &b2j, autojunk);
    let ghost all_of: Span = whole(x, y);
    let mut blocks: Vec<Match> = collapse(&raw, Ghost(all_of));
    let ghost joined: Seq<Match> = blocks@;
    let end: Match = Match { a: a.len(), b: b.len(), size: 0 };
    blocks.push(end);
    proof {
        assert(blocks_view(blocks@) =~= blocks_view(joined).push(end@));
        assert forall|l: int| 0 <= l < blocks@.len() implies (#[trigger] blocks@[l]).a
            + blocks@[l].size <= a@.len() && blocks@[l].b + blocks@[l].size <= b@.len() by {
            if l < joined.len() {
                assert(inside(all_of, joined[l]@));
            }
        }
    }
    blocks
}

// ---------------------------------------------------------------------
// The blocks lie in order
// ---------------------------------------------------------------------

/// Whether a block holds the same elements in both sequences.
pub open spec fn same_run(a: Seq<int>, b: Seq<int>, m: Block) -> bool {
    forall|t: int| 0 <= t < m.size ==> #[trigger] a[m.a + t] == b[m.b + t]
}

/// Whether blocks of equal elements follow each other inside a part, none
/// overlapping the one before it in either sequence.
pub open spec fn in_order(a: Seq<int>, b: Seq<int>, blocks: Seq<Block>, w: Span) -> bool
    decreases blocks.len(),
{
    if blocks.len() == 0 {
        w.alo <= w.ahi && w.blo <= w.bhi
    } else {
        inside(w, blocks[0]) && same_run(a, b, blocks[0]) && in_order(
            a,
            b,
            blocks.drop_first(),
            part_behind(w, blocks[0]),
        )
    }
}

/// Among the runs that end before `(i, j)` there is a best one.
proof fn lemma_best_exists(
    a: Seq<int>,
    b: Seq<int>,
    kept: Set<int>,
    w: Span,
    i: int,
    j: int,
) -> (m: Block)
    requires
        proper(a, b, w),
        w.alo <= i <= w.ahi,
        w.blo <= j <= w.bhi,
        i < w.ahi || j == w.blo,
    ensures
        best_so_far(a, b, kept, w, m, i, j),
    decreases i - w.alo, j - w.blo,
{
    if j == w.blo {
        if i == w.alo {
            Block { a: w.alo, b: w.blo, size: 0 }
        } else {
            lemma_best_exists(a, b, kept, w, i - 1, w.bhi)
        }
    } else {
        let m: Block = lemma_best_exists(a, b, kept, w, i, j - 1);
        let size: int = run_to(a, b, kept, w, i, j - 1);
        lemma_run_common(a, b, kept, w, i, j - 1);
        let n: Block = if size > m.size {
            Block { a: i + 1 - size, b: j - size, size }
        } else {
            m
        };
        assert forall|x: int, y: int|
            w.alo <= x < w.ahi && w.blo <= y < w.bhi && (x < i || (x == i && y < j)) implies {
            let run: int = #[trigger] run_to(a, b, kept, w, x, y);
            run <= n.size && (run == n.size && run > 0 ==> n.a < x + 1 - run || (n.a == x + 1 - run
                && n.b <= y + 1 - run))
        } by {
            let run: int = run_to(a, b, kept, w, x, y);
            if x < i || y < j - 1 {
                assert(run <= m.size);
            }
        }
        n
    }
}

proof fn lemma_extended_back(a: Seq<int>, b: Seq<int>, w: Span, m: Block)
    requires
        inside(w, m),
        same_run(a, b, m),
    ensures
        inside(w, extended_back(a, b, w, m)),
        same_run(a, b, extended_back(a, b, w, m)),
    decreases m.a - w.alo,
{
    if m.a > w.alo && m.b > w.blo && a[m.a - 1] == b[m.b - 1] {
        let n: Block = Block { a: m.a - 1, b: m.b - 1, size: m.size + 1 };
        assert forall|t: int| 0 <= t < n.size implies #[trigger] a[n.a + t] == b[n.b + t] by {
            if t > 0 {
                assert(a[m.a + (t - 1)] == b[m.b + (t - 1)]);
            }
        }
        lemma_extended_back(a, b, w, n);
    }
}

proof fn lemma_extended_forward(a: Seq<int>, b: Seq<int>, w: Span, m: Block)
    requires
        inside(w, m),
        same_run(a, b, m),
    ensures
        inside(w, extended_forward(a, b, w, m)),
        same_run(a, b, extended_forward(a, b, w, m)),
    decreases w.ahi - m.a - m.size,
{
    if m.a + m.size < w.ahi && m.b + m.size < w.bhi && a[m.a + m.size] == b[m.b + m.size] {
        let n: Block = Block { a: m.a, b: m.b, size: m.size + 1 };
        assert forall|t: int| 0 <= t < n.size implies #[trigger] a[n.a + t] == b[n.b + t] by {
            if t < m.size {
                assert(a[m.a + t] == b[m.b + t]);
            }
        }
        lemma_extended_forward(a, b, w, n);
    }
}

/// The best match of a part lies inside it and holds equal elements.
pub proof fn lemma_best_match(a: Seq<int>, b: Seq<int>, kept: Set<int>, extend: bool, w: Span)
    requires
        proper(a, b, w),
    ensures
        is_longest(a, b, kept, w, longest(a, b, kept, w)),
        inside(w, best_match(a, b, kept, extend, w)),
        same_run(a, b, best_match(a, b, kept, extend, w)),
{
    let found: Block = lemma_best_exists(a, b, kept, w, w.ahi, w.blo);
    lemma_best_is_longest(a, b, kept, w, found, w.blo);
    let m: Block = longest(a, b, kept, w);
    assert(same_run(a, b, m)) by {
        assert forall|t: int| 0 <= t < m.size implies #[trigger] a[m.a + t] == b[m.b + t] by {
            assert(meets(a, b, kept, m.a + t, m.b + t));
        }
    }
    lemma_extended_back(a, b, w, m);
    lemma_extended_forward(a, b, w, extended_back(a, b, w, m));
}

/// Blocks in front of a block, it, and blocks behind it are in order.
proof fn lemma_in_order_joined(
    a: Seq<int>,
    b: Seq<int>,
    front: Seq<Block>,
    m: Block,
    behind: Seq<Block>,
    w: Span,
)
    requires
        in_order(a, b, front, part_before(w, m)),
        inside(w, m),
        same_run(a, b, m),
        in_order(a, b, behind, part_behind(w, m)),
    ensures
        in_order(a, b, front.push(m) + behind, w),
    decreases front.len(),
{
    let all: Seq<Block> = front.push(m) + behind;
    if front.len() == 0 {
        assert(all.drop_first() =~= behind);
    } else {
        let f: Block = front[0];
        assert(all.drop_first() =~= front.drop_first().push(m) + behind);
        assert(part_before(part_behind(w, f), m) == part_behind(part_before(w, m), f));
        lemma_in_order_front(a, b, front.drop_first(), part_behind(part_before(w, m), f));
        lemma_in_order_joined(a, b, front.drop_first(), m, behind, part_behind(w, f));
    }
}

/// A part that holds blocks in order has its bounds in order.
proof fn lemma_in_order_front(a: Seq<int>, b: Seq<int>, blocks: Seq<Block>, w: Span)
    requires
        in_order(a, b, blocks, w),
    ensures
        w.alo <= w.ahi,
        w.blo <= w.bhi,
    decreases blocks.len(),
{
    if blocks.len() > 0 {
        lemma_in_order_front(a, b, blocks.drop_first(), part_behind(w, blocks[0]));
    }
}

proof fn lemma_raw_in_order(a: Seq<int>, b: Seq<int>, kept: Set<int>, extend: bool, w: Span)
    requires
        proper(a, b, w),
    ensures
        in_order(a, b, raw_blocks(a, b, kept, extend, w), w),
    decreases w.ahi - w.alo,
{
    let m: Block = best_match(a, b, kept, extend, w);
    if m.size > 0 && inside(w, m) {
        lemma_best_match(a, b, kept, extend, w);
        lemma_raw_in_order(a, b, kept, extend, part_before(w, m));
        lemma_raw_in_order(a, b, kept, extend, part_behind(w, m));
        lemma_in_order_joined(
            a,
            b,
            raw_blocks(a, b, kept, extend, part_before(w, m)),
            m,
            raw_blocks(a, b, kept, extend, part_behind(w, m)),
            w,
        );
    }
}

proof fn lemma_collapsed_in_order(
    a: Seq<int>,
    b: Seq<int>,
    blocks: Seq<Block>,
    pending: Block,
    w: Span,
)
    requires
        inside(w, pending),
        same_run(a, b, pending),
        in_order(a, b, blocks, part_behind(w, pending)),
    ensures
        in_order(a, b, collapsed(blocks, pending), w),
    decreases blocks.len(),
{
    if blocks.len() == 0 {
        if pending.size > 0 {
            reveal_with_fuel(in_order, 2);
            let one: Seq<Block> = seq![pending];
            assert(one.drop_first() =~= Seq::<Block>::empty());
            lemma_in_order_front(a, b, blocks, part_behind(w, pending));
        }
    } else {
        let m: Block = blocks[0];
        let rest: Seq<Block> = blocks.drop_first();
        if pending.a + pending.size == m.a && pending.b + pending.size == m.b {
            let joined: Block = Block { a: pending.a, b: pending.b, size: pending.size + m.size };
            assert forall|t: int| 0 <= t < joined.size implies #[trigger] a[joined.a + t]
                == b[joined.b + t] by {
                if t < pending.size {
                    assert(a[pending.a + t] == b[pending.b + t]);
                } else {
                    assert(a[m.a + (t - pending.size)] == b[m.b + (t - pending.size)]);
                }
            }
            assert(part_behind(w, joined) == part_behind(part_behind(w, pending), m));
            lemma_collapsed_in_order(a, b, rest, joined, w);
        } else if pending.size > 0 {
            let v: Span = part_behind(w, pending);
            assert(part_behind(v, m) == part_behind(w, m));
            lemma_collapsed_in_order(a, b, rest, m, v);
            let all: Seq<Block> = seq![pending] + collapsed(rest, m);
            assert(all.drop_first() =~= collapsed(rest, m));
        } else {
            assert(part_behind(part_behind(w, pending), m) == part_behind(w, m));
            lemma_collapsed_in_order(a, b, rest, m, w);
        }
    }
}

/// A last block may follow blocks in order.
proof fn lemma_in_order_push(a: Seq<int>, b: Seq<int>, blocks: Seq<Block>, w: Span)
    requires
        in_order(a, b, blocks, w),
    ensures
        in_order(a, b, blocks.push(Block { a: w.ahi, b: w.bhi, size: 0 }), w),
    decreases blocks.len(),
{
    let end: Block = Block { a: w.ahi, b: w.bhi, size: 0 };
    let all: Seq<Block> = blocks.push(end);
    if blocks.len() == 0 {
        reveal_with_fuel(in_order, 2);
        assert(all.drop_first() =~= Seq::<Block>::empty());
    } else {
        assert(all.drop_first() =~= blocks.drop_first().push(end));
        lemma_in_order_push(a, b, blocks.drop_first(), part_behind(w, blocks[0]));
        lemma_in_order_front(a, b, blocks, w);
    }
}

/// The matching blocks hold equal elements and follow each other, none
/// overlapping another.
pub proof fn lemma_blocks_in_order(a: Seq<int>, b: Seq<int>, autojunk: bool)
    ensures
        in_order(a, b, matching_blocks(a, b, autojunk), whole(a, b)),
{
    let kept: Set<int> = kept_classes(b, autojunk);
    let w: Span = whole(a, b);
    let none: Block = Block { a: 0, b: 0, size: 0 };
    lemma_raw_in_order(a, b, kept, autojunk, w);
    assert(part_behind(w, none) == w);
    lemma_collapsed_in_order(a, b, raw_blocks(a, b, kept, autojunk, w), none, w);
    lemma_in_order_push(a, b, collapsed(raw_blocks(a, b, kept, autojunk, w), none), w);
}

// ---------------------------------------------------------------------
// Opcodes
// ---------------------------------------------------------------------

/// What becomes of a range of the first sequence.
#[derive(Debug, Clone, Copy, PartialEq, Eq, Structural)]
pub enum Tag {
    Equal,
    Replace,
    Delete,
    Insert,
}

/// A range of the first sequence and the range of the second that it becomes.
#[derive(Debug, Clone, Copy, PartialEq, Eq, Structural)]
pub struct Opcode {
    pub tag: Tag,
    pub a1: usize,
    pub a2: usize,
    pub b1: usize,
    pub b2: usize,
}

/// The model of an opcode.
pub struct Code {
    pub tag: Tag,
    pub a1: int,
    pub a2: int,
    pub b1: int,
    pub b2: int,
}

impl View for Opcode {
    type V = Code;

    open spec fn view(&self) -> Code {
        Code {
            tag: self.tag,
            a1: self.a1 as int,
            a2: self.a2 as int,
            b1: self.b1 as int,
            b2: self.b2 as int,
        }
    }
}

/// The models of opcodes.
pub open spec fn codes_view(codes: Seq<Opcode>) -> Seq<Code> {
    Seq::new(codes.len(), |i: int| codes[i]@)
}

/// What stands between two positions and the next block.
pub open spec fn gap(i: int, j: int, m: Block) -> Seq<Code> {
    if i < m.a && j < m.b {
        seq![Code { tag: Tag::Replace, a1: i, a2: m.a, b1: j, b2: m.b }]
    } else if i < m.a {
        seq![Code { tag: Tag::Delete, a1: i, a2: m.a, b1: j, b2: m.b }]
    } else if j < m.b {
        seq![Code { tag: Tag::Insert, a1: i, a2: m.a, b1: j, b2: m.b }]
    } else {
        seq![]
    }
}

/// The opcode of a block; none of an empty one.
pub open spec fn kept_range(m: Block) -> Seq<Code> {
    if m.size > 0 {
        seq![Code { tag: Tag::Equal, a1: m.a, a2: m.a + m.size, b1: m.b, b2: m.b + m.size }]
    } else {
        seq![]
    }
}

/// The opcodes from two positions on.
pub open spec fn codes_from(blocks: Seq<Block>, i: int, j: int) -> Seq<Code>
    decreases blocks.len(),
{
    if blocks.len() == 0 {
        seq![]
    } else {
        let m: Block = blocks[0];
        gap(i, j, m) + kept_range(m) + codes_from(blocks.drop_first(), m.a + m.size, m.b + m.size)
    }
}

/// The opcodes that turn one list of scalars into another.
pub open spec fn opcodes_of(a: Seq<Val>, b: Seq<Val>, autojunk: bool) -> Seq<Code> {
    codes_from(matching_blocks(class_lists(a, b).0, class_lists(a, b).1, autojunk), 0, 0)
}

/// Whether opcodes cover the part of both sequences from two positions on,
/// without gap or overlap, each with the tag that its ranges call for.
pub open spec fn tiles(codes: Seq<Code>, w: Span) -> bool
    decreases codes.len(),
{
    if codes.len() == 0 {
        w.alo == w.ahi && w.blo == w.bhi
    } else {
        let c: Code = codes[0];
        &&& c.a1 == w.alo && c.b1 == w.blo
        &&& c.a1 <= c.a2 <= w.ahi && c.b1 <= c.b2 <= w.bhi
        &&& match c.tag {
            Tag::Equal => c.a1 < c.a2 && c.a2 - c.a1 == c.b2 - c.b1,
            Tag::Replace => c.a1 < c.a2 && c.b1 < c.b2,
            Tag::Delete => c.a1 < c.a2 && c.b1 == c.b2,
            Tag::Insert => c.a1 == c.a2 && c.b1 < c.b2,
        }
        &&& tiles(codes.drop_first(), Span { alo: c.a2, blo: c.b2, ..w })
    }
}

/// Whether the ranges that are called equal hold equal elements.
pub open spec fn equal_ranges_match(a: Seq<int>, b: Seq<int>, codes: Seq<Code>) -> bool {
    forall|i: int|
        0 <= i < codes.len() && (#[trigger] codes[i]).tag == Tag::Equal ==> same_run(
            a,
            b,
            (Block { a: codes[i].a1, b: codes[i].b1, size: codes[i].a2 - codes[i].a1 }),
        )
}

proof fn lemma_tiles_front(c: Code, codes: Seq<Code>, w: Span)
    requires
        tiles(codes, Span { alo: c.a2, blo: c.b2, ..w }),
        tiles(seq![c], Span { ahi: c.a2, bhi: c.b2, ..w }),
        c.a2 <= w.ahi,
        c.b2 <= w.bhi,
    ensures
        tiles(seq![c] + codes, w),
{
    assert((seq![c] + codes).drop_first() =~= codes);
}

proof fn lemma_codes_tile(a: Seq<int>, b: Seq<int>, blocks: Seq<Block>, w: Span)
    requires
        in_order(a, b, blocks, w),
        blocks.len() > 0,
        blocks.last() == (Block { a: w.ahi, b: w.bhi, size: 0 }),
    ensures
        tiles(codes_from(blocks, w.alo, w.blo), w),
        equal_ranges_match(a, b, codes_from(blocks, w.alo, w.blo)),
    decreases blocks.len(),
{
    reveal_with_fuel(tiles, 2);
    let m: Block = blocks[0];
    let rest: Seq<Block> = blocks.drop_first();
    let v: Span = part_behind(w, m);
    let after: Seq<Code> = codes_from(rest, v.alo, v.blo);
    if rest.len() > 0 {
        assert(rest.last() == blocks.last());
        lemma_codes_tile(a, b, rest, v);
    }
    assert(tiles(after, v));
    assert(equal_ranges_match(a, b, after));
    let middle: Seq<Code> = kept_range(m) + after;
    let at: Span = Span { alo: m.a, blo: m.b, ..w };
    if m.size > 0 {
        let c: Code = kept_range(m)[0];
        assert(seq![c].drop_first() =~= Seq::<Code>::empty());
        lemma_tiles_front(c, after, at);
        assert(kept_range(m) =~= seq![c]);
    } else {
        assert(middle =~= after);
        assert(v == at);
    }
    assert(tiles(middle, at));
    let all: Seq<Code> = gap(w.alo, w.blo, m) + middle;
    if w.alo < m.a || w.blo < m.b {
        let c: Code = gap(w.alo, w.blo, m)[0];
        assert(seq![c].drop_first() =~= Seq::<Code>::empty());
        lemma_tiles_front(c, middle, w);
        assert(gap(w.alo, w.blo, m) =~= seq![c]);
    } else {
        assert(all =~= middle);
        assert(at == w);
    }
    assert(codes_from(blocks, w.alo, w.blo) =~= all);
    assert forall|i: int| 0 <= i < all.len() && (#[trigger] all[i]).tag == Tag::Equal implies same_run(
        a,
        b,
        (Block { a: all[i].a1, b: all[i].b1, size: all[i].a2 - all[i].a1 }),
    ) by {
        let front: int = (gap(w.alo, w.blo, m).len() + kept_range(m).len()) as int;
        if i >= front {
            assert(all[i] == after[i - front]);
        }
    }
}

/// The opcodes cover both lists from end to end, in order, and what they call
/// equal is equal.
pub proof fn lemma_opcodes_cover(a: Seq<Val>, b: Seq<Val>, autojunk: bool)
    ensures
        tiles(
            opcodes_of(a, b, autojunk),
            Span { alo: 0, ahi: a.len() as int, blo: 0, bhi: b.len() as int },
        ),
        equal_ranges_match(
            class_lists(a, b).0,
            class_lists(a, b).1,
            opcodes_of(a, b, autojunk),
        ),
{
    let x: Seq<int> = class_lists(a, b).0;
    let y: Seq<int> = class_lists(a, b).1;
    lemma_blocks_in_order(x, y, autojunk);
    lemma_codes_tile(x, y, matching_blocks(x, y, autojunk), whole(x, y));
}

/// Whether no element of the one range of a part equals one of the other.
pub open spec fn apart(a: Seq<int>, b: Seq<int>, w: Span) -> bool {
    forall|i: int, j: int|
        w.alo <= i < w.ahi && w.blo <= j < w.bhi ==> (#[trigger] a[i]) != (#[trigger] b[j])
}

/// Whether nothing between the blocks of a part, nor in front of them or behind
/// them, matches.
spec fn gaps_apart(a: Seq<int>, b: Seq<int>, blocks: Seq<Block>, w: Span) -> bool
    decreases blocks.len(),
{
    if blocks.len() == 0 {
        apart(a, b, w)
    } else {
        apart(a, b, part_before(w, blocks[0])) && gaps_apart(
            a,
            b,
            blocks.drop_first(),
            part_behind(w, blocks[0]),
        )
    }
}

/// An element that occurs is counted.
proof fn lemma_occurs(b: Seq<int>, j: int)
    requires
        0 <= j < b.len(),
    ensures
        occurrences(b, b[j]) > 0,
    decreases b.len(),
{
    if j < b.len() - 1 {
        lemma_occurs(b.drop_last(), j);
    }
}

proof fn lemma_gaps_joined(
    a: Seq<int>,
    b: Seq<int>,
    front: Seq<Block>,
    m: Block,
    behind: Seq<Block>,
    w: Span,
)
    requires
        gaps_apart(a, b, front, part_before(w, m)),
        gaps_apart(a, b, behind, part_behind(w, m)),
    ensures
        gaps_apart(a, b, front.push(m) + behind, w),
    decreases front.len(),
{
    let all: Seq<Block> = front.push(m) + behind;
    if front.len() == 0 {
        assert(all.drop_first() =~= behind);
    } else {
        let f: Block = front[0];
        assert(all.drop_first() =~= front.drop_first().push(m) + behind);
        assert(part_before(part_behind(w, f), m) == part_behind(part_before(w, m), f));
        lemma_gaps_joined(a, b, front.drop_first(), m, behind, part_behind(w, f));
    }
}

proof fn lemma_raw_gaps(a: Seq<int>, b: Seq<int>, w: Span)
    requires
        proper(a, b, w),
    ensures
        gaps_apart(a, b, raw_blocks(a, b, kept_classes(b, false), false, w), w),
    decreases w.ahi - w.alo,
{
    let kept: Set<int> = kept_classes(b, false);
    let m: Block = best_match(a, b, kept, false, w);
    lemma_best_match(a, b, kept, false, w);
    if m.size > 0 {
        lemma_raw_gaps(a, b, part_before(w, m));
        lemma_raw_gaps(a, b, part_behind(w, m));
        lemma_gaps_joined(
            a,
            b,
            raw_blocks(a, b, kept, false, part_before(w, m)),
            m,
            raw_blocks(a, b, kept, false, part_behind(w, m)),
            w,
        );
    } else {
        assert forall|i: int, j: int| w.alo <= i < w.ahi && w.blo <= j < w.bhi implies (
        #[trigger] a[i]) != (#[trigger] b[j]) by {
            if a[i] == b[j] {
                lemma_occurs(b, j);
                let one: Block = Block { a: i, b: j, size: 1 };
                assert(inside(w, one));
                assert(common(a, b, kept, one)) by {
                    assert(meets(a, b, kept, i, j));
                }
            }
        }
    }
}

proof fn lemma_collapsed_gaps(
    a: Seq<int>,
    b: Seq<int>,
    blocks: Seq<Block>,
    pending: Block,
    w: Span,
)
    requires
        pending.size > 0 || (pending.size == 0 && pending.a == w.alo && pending.b == w.blo),
        apart(a, b, part_before(w, pending)),
        gaps_apart(a, b, blocks, part_behind(w, pending)),
        forall|i: int| 0 <= i < blocks.len() ==> (#[trigger] blocks[i]).size > 0,
    ensures
        gaps_apart(a, b, collapsed(blocks, pending), w),
    decreases blocks.len(),
{
    if blocks.len() == 0 {
        if pending.size > 0 {
            let one: Seq<Block> = seq![pending];
            assert(one.drop_first() =~= Seq::<Block>::empty());
            reveal_with_fuel(gaps_apart, 2);
        } else {
            assert(part_behind(w, pending) == w);
        }
    } else {
        let m: Block = blocks[0];
        let rest: Seq<Block> = blocks.drop_first();
        assert forall|i: int| 0 <= i < rest.len() implies (#[trigger] rest[i]).size > 0 by {
            assert(blocks[i + 1].size > 0);
        }
        if pending.a + pending.size == m.a && pending.b + pending.size == m.b {
            let joined: Block = Block { a: pending.a, b: pending.b, size: pending.size + m.size };
            assert(part_behind(w, joined) == part_behind(part_behind(w, pending), m));
            assert(part_before(w, joined) == part_before(w, pending));
            lemma_collapsed_gaps(a, b, rest, joined, w);
        } else if pending.size > 0 {
            let v: Span = part_behind(w, pending);
            lemma_collapsed_gaps(a, b, rest, m, v);
            let all: Seq<Block> = seq![pending] + collapsed(rest, m);
            assert(all.drop_first() =~= collapsed(rest, m));
        } else {
            assert(part_behind(w, pending) == w);
            lemma_collapsed_gaps(a, b, rest, m, w);
        }
    }
}

proof fn lemma_gaps_push(a: Seq<int>, b: Seq<int>, blocks: Seq<Block>, w: Span)
    requires
        gaps_apart(a, b, blocks, w),
    ensures
        gaps_apart(a, b, blocks.push(Block { a: w.ahi, b: w.bhi, size: 0 }), w),
    decreases blocks.len(),
{
    let end: Block = Block { a: w.ahi, b: w.bhi, size: 0 };
    let all: Seq<Block> = blocks.push(end);
    if blocks.len() == 0 {
        reveal_with_fuel(gaps_apart, 2);
        assert(all.drop_first() =~= Seq::<Block>::empty());
        assert(part_before(w, end) == w);
    } else {
        assert(all.drop_first() =~= blocks.drop_first().push(end));
        lemma_gaps_push(a, b, blocks.drop_first(), part_behind(w, blocks[0]));
    }
}

proof fn lemma_raw_sizes(a: Seq<int>, b: Seq<int>, kept: Set<int>, extend: bool, w: Span)
    ensures
        forall|i: int|
            0 <= i < raw_blocks(a, b, kept, extend, w).len() ==> (#[trigger] raw_blocks(
                a,
                b,
                kept,
                extend,
                w,
            )[i]).size > 0,
    decreases w.ahi - w.alo,
{
    let m: Block = best_match(a, b, kept, extend, w);
    if m.size > 0 && inside(w, m) {
        let front: Seq<Block> = raw_blocks(a, b, kept, extend, part_before(w, m));
        let behind: Seq<Block> = raw_blocks(a, b, kept, extend, part_behind(w, m));
        lemma_raw_sizes(a, b, kept, extend, part_before(w, m));
        lemma_raw_sizes(a, b, kept, extend, part_behind(w, m));
        let all: Seq<Block> = raw_blocks(a, b, kept, extend, w);
        assert(all == front.push(m) + behind);
        assert forall|i: int| 0 <= i < all.len() implies (#[trigger] all[i]).size > 0 by {
            if i < front.len() {
                assert(all[i] == front[i]);
            } else if i > front.len() {
                assert(all[i] == behind[i - front.len() - 1]);
            }
        }
    }
}

/// Whether the ranges of every replacement are free of equal elements.
pub open spec fn replacements_apart(a: Seq<int>, b: Seq<int>, codes: Seq<Code>) -> bool {
    forall|i: int|
        0 <= i < codes.len() && (#[trigger] codes[i]).tag == Tag::Replace ==> apart(
            a,
            b,
            (Span { alo: codes[i].a1, ahi: codes[i].a2, blo: codes[i].b1, bhi: codes[i].b2 }),
        )
}

proof fn lemma_codes_apart(a: Seq<int>, b: Seq<int>, blocks: Seq<Block>, w: Span)
    requires
        gaps_apart(a, b, blocks, w),
    ensures
        replacements_apart(a, b, codes_from(blocks, w.alo, w.blo)),
    decreases blocks.len(),
{
    if blocks.len() > 0 {
        let m: Block = blocks[0];
        let v: Span = part_behind(w, m);
        let after: Seq<Code> = codes_from(blocks.drop_first(), v.alo, v.blo);
        lemma_codes_apart(a, b, blocks.drop_first(), v);
        let all: Seq<Code> = codes_from(blocks, w.alo, w.blo);
        let front: int = (gap(w.alo, w.blo, m).len() + kept_range(m).len()) as int;
        assert forall|i: int| 0 <= i < all.len() && (#[trigger] all[i]).tag == Tag::Replace implies apart(
            a,
            b,
            (Span { alo: all[i].a1, ahi: all[i].a2, blo: all[i].b1, bhi: all[i].b2 }),
        ) by {
            if i >= front {
                assert(all[i] == after[i - front]);
            } else {
                let c: Code = all[i];
                assert((Span { alo: c.a1, ahi: c.a2, blo: c.b1, bhi: c.b2 }) == part_before(w, m));
            }
        }
    }
}

/// Where popular elements are not passed over, no element of a range that is
/// replaced equals one of the range that replaces it.
pub proof fn lemma_replacements_apart(a: Seq<Val>, b: Seq<Val>)
    ensures
        replacements_apart(
            class_lists(a, b).0,
            class_lists(a, b).1,
            opcodes_of(a, b, false),
        ),
{
    let x: Seq<int> = class_lists(a, b).0;
    let y: Seq<int> = class_lists(a, b).1;
    let w: Span = whole(x, y);
    let none: Block = Block { a: 0, b: 0, size: 0 };
    let raw: Seq<Block> = raw_blocks(x, y, kept_classes(y, false), false, w);
    lemma_raw_gaps(x, y, w);
    lemma_raw_sizes(x, y, kept_classes(y, false), false, w);
    assert(part_behind(w, none) == w);
    lemma_collapsed_gaps(x, y, raw, none, w);
    lemma_gaps_push(x, y, collapsed(raw, none), w);
    lemma_codes_apart(x, y, matching_blocks(x, y, false), w);
}

/// Opcodes that cover a part lie inside it.
pub proof fn lemma_tiles_bounds(codes: Seq<Code>, w: Span, i: int)
    requires
        tiles(codes, w),
        0 <= i < codes.len(),
    ensures
        w.alo <= codes[i].a1 <= codes[i].a2 <= w.ahi,
        w.blo <= codes[i].b1 <= codes[i].b2 <= w.bhi,
        codes[i].tag == Tag::Equal ==> codes[i].a2 - codes[i].a1 == codes[i].b2 - codes[i].b1,
    decreases codes.len(),
{
    let c: Code = codes[0];
    if i > 0 {
        lemma_tiles_bounds(codes.drop_first(), Span { alo: c.a2, blo: c.b2, ..w }, i - 1);
    }
}

/// The opcodes that turn one list of scalars into another, with the heuristic
/// for popular elements or without it.
pub fn opcodes_with(a: &[Value], b: &[Value], autojunk: bool) -> (codes: Vec<Opcode>)
    requires
        forall|i: int| 0 <= i < a@.len() ==> basic(#[trigger] views(a@)[i]),
        forall|i: int| 0 <= i < b@.len() ==> basic(#[trigger] views(b@)[i]),
    ensures
        codes_view(codes@) == opcodes_of(views(a@), views(b@), autojunk),
{
    let blocks: Vec<Match> = get_matching_blocks(a, b, autojunk);
    let ghost all: Seq<Block> = blocks_view(blocks@);
    let mut codes: Vec<Opcode> = Vec::new();
    let mut i: usize = 0;
    let mut j: usize = 0;
    let mut k: usize = 0;
    let a_len: usize = a.len();
    let b_len: usize = b.len();
    proof {
        assert(all.skip(0) =~= all);
        assert(codes_view(codes@) + codes_from(all.skip(0), 0, 0) =~= codes_from(all, 0, 0));
    }
    while k < blocks.len()
        invariant
            k <= blocks.len(),
            all == blocks_view(blocks@),
            forall|l: int|
                0 <= l < blocks@.len() ==> (#[trigger] blocks@[l]).a + blocks@[l].size <= a_len
                    && blocks@[l].b + blocks@[l].size <= b_len,
            codes_view(codes@) + codes_from(all.skip(k as int), i as int, j as int) == codes_from(
                all,
                0,
                0,
            ),
        decreases blocks.len() - k,
    {
        let m: Match = blocks[k];
        let ghost done: Seq<Code> = codes_view(codes@);
        let ghost rest: Seq<Block> = all.skip(k as int + 1);
        proof {
            assert(all.skip(k as int)[0] == m@);
            assert(all.skip(k as int).drop_first() =~= rest);
        }
        if i < m.a || j < m.b {
            let tag: Tag = if i < m.a && j < m.b {
                Tag::Replace
            } else if i < m.a {
                Tag::Delete
            } else {
                Tag::Insert
            };
            codes.push(Opcode { tag, a1: i, a2: m.a, b1: j, b2: m.b });
        }
        proof {
            assert(codes_view(codes@) =~= done + gap(i as int, j as int, m@));
        }
        let ghost between: Seq<Code> = codes_view(codes@);
        let ghost gone: Seq<Code> = gap(i as int, j as int, m@);
        i = m.a + m.size;
        j = m.b + m.size;
        if m.size > 0 {
            codes.push(Opcode { tag: Tag::Equal, a1: m.a, a2: i, b1: m.b, b2: j });
        }
        proof {
            let tail: Seq<Code> = codes_from(rest, i as int, j as int);
            assert(codes_view(codes@) =~= between + kept_range(m@));
            assert(codes_view(codes@) + tail =~= done + (gone + kept_range(m@) + tail));
        }
        k = k + 1;
    }
    proof {
        assert(all.skip(k as int) =~= Seq::<Block>::empty());
        assert(codes_view(codes@) + Seq::<Code>::empty() =~= codes_view(codes@));
    }
    codes
}

/// The opcodes that turn one list of scalars into another.
pub fn compute_opcodes(a: &[Value], b: &[Value]) -> (codes: Vec<Opcode>)
    requires
        forall|i: int| 0 <= i < a@.len() ==> basic(#[trigger] views(a@)[i]),
        forall|i: int| 0 <= i < b@.len() ==> basic(#[trigger] views(b@)[i]),
    ensures
        codes_view(codes@) == opcodes_of(views(a@), views(b@), false),
{
    opcodes_with(a, b, false)
}

// ---------------------------------------------------------------------
// Groups of opcodes
// ---------------------------------------------------------------------

pub open spec fn least(x: int, y: int) -> int {
    if x < y {
        x
    } else {
        y
    }
}

pub open spec fn greatest(x: int, y: int) -> int {
    if x > y {
        x
    } else {
        y
    }
}

/// The last `n` elements of a range.
pub open spec fn range_end(c: Code, n: int) -> Code {
    Code { a1: greatest(c.a1, c.a2 - n), b1: greatest(c.b1, c.b2 - n), ..c }
}

/// The first `n` elements of a range.
pub open spec fn range_start(c: Code, n: int) -> Code {
    Code { a2: least(c.a2, c.a1 + n), b2: least(c.b2, c.b1 + n), ..c }
}

/// The opcodes with one that stands for nothing kept where there are none.
pub open spec fn never_empty(codes: Seq<Code>) -> Seq<Code> {
    if codes.len() == 0 {
        seq![Code { tag: Tag::Equal, a1: 0, a2: 1, b1: 0, b2: 1 }]
    } else {
        codes
    }
}

/// The opcodes with the equal range in front cut to its last `n` elements.
pub open spec fn front_cut(codes: Seq<Code>, n: int) -> Seq<Code> {
    if codes.len() > 0 && codes[0].tag == Tag::Equal {
        codes.update(0, range_end(codes[0], n))
    } else {
        codes
    }
}

/// The opcodes with the equal range at the end cut to its first `n` elements.
pub open spec fn back_cut(codes: Seq<Code>, n: int) -> Seq<Code> {
    if codes.len() > 0 && codes.last().tag == Tag::Equal {
        codes.update(codes.len() - 1, range_start(codes.last(), n))
    } else {
        codes
    }
}

/// The opcodes in groups, a long equal range parting one from the next; a last
/// group that is an equal range alone is left out.
pub open spec fn groups_from(codes: Seq<Code>, group: Seq<Code>, n: int) -> Seq<Seq<Code>>
    decreases codes.len(),
{
    if codes.len() == 0 {
        if group.len() == 0 || (group.len() == 1 && group[0].tag == Tag::Equal) {
            seq![]
        } else {
            seq![group]
        }
    } else {
        let c: Code = codes[0];
        if c.tag == Tag::Equal && c.a2 - c.a1 > n + n {
            seq![group.push(range_start(c, n))] + groups_from(
                codes.drop_first(),
                seq![range_end(c, n)],
                n,
            )
        } else {
            groups_from(codes.drop_first(), group.push(c), n)
        }
    }
}

/// The groups of changes between two lists of scalars, with up to `n` elements
/// of context about each.
pub open spec fn groups_of(a: Seq<Val>, b: Seq<Val>, n: int) -> Seq<Seq<Code>> {
    groups_from(back_cut(front_cut(never_empty(opcodes_of(a, b, true)), n), n), seq![], n)
}

/// Whether an opcode speaks of positions that there are.
pub open spec fn code_fits(c: Code, a_len: int, b_len: int) -> bool {
    0 <= c.a1 <= c.a2 <= a_len && 0 <= c.b1 <= c.b2 <= b_len
}

spec fn codes_fit(codes: Seq<Code>, a_len: int, b_len: int) -> bool {
    forall|i: int| 0 <= i < codes.len() ==> code_fits(#[trigger] codes[i], a_len, b_len)
}

/// Whether no opcode reaches into one behind it.
spec fn one_by_one(codes: Seq<Code>) -> bool {
    forall|i: int, j: int|
        0 <= i < j < codes.len() ==> (#[trigger] codes[i]).a2 <= (#[trigger] codes[j]).a1
            && codes[i].b2 <= codes[j].b1
}

/// Opcodes that cover a part follow each other.
pub proof fn lemma_tiles_one_by_one(codes: Seq<Code>, w: Span, i: int, j: int)
    requires
        tiles(codes, w),
        0 <= i < j < codes.len(),
    ensures
        codes[i].a2 <= codes[j].a1,
        codes[i].b2 <= codes[j].b1,
    decreases codes.len(),
{
    let c: Code = codes[0];
    let v: Span = Span { alo: c.a2, blo: c.b2, ..w };
    if i > 0 {
        lemma_tiles_one_by_one(codes.drop_first(), v, i - 1, j - 1);
    } else {
        lemma_tiles_bounds(codes.drop_first(), v, j - 1);
    }
}

spec fn groups_fit(groups: Seq<Seq<Code>>, a_len: int, b_len: int) -> bool {
    forall|g: int|
        0 <= g < groups.len() ==> (#[trigger] groups[g]).len() > 0 && codes_fit(
            groups[g],
            a_len,
            b_len,
        ) && one_by_one(groups[g])
}

proof fn lemma_groups_from(codes: Seq<Code>, group: Seq<Code>, n: int, a_len: int, b_len: int)
    requires
        codes_fit(codes, a_len, b_len),
        codes_fit(group, a_len, b_len),
        one_by_one(group + codes),
        n >= 0,
    ensures
        groups_fit(groups_from(codes, group, n), a_len, b_len),
    decreases codes.len(),
{
    if codes.len() == 0 {
        assert(group + codes =~= group);
    } else {
        let c: Code = codes[0];
        let rest: Seq<Code> = codes.drop_first();
        assert(code_fits(codes[0], a_len, b_len));
        assert forall|i: int| 0 <= i < rest.len() implies code_fits(
            #[trigger] rest[i],
            a_len,
            b_len,
        ) by {
            assert(code_fits(codes[i + 1], a_len, b_len));
        }
        if c.tag == Tag::Equal && c.a2 - c.a1 > n + n {
            let all_codes: Seq<Code> = group + codes;
            let fresh: Seq<Code> = seq![range_end(c, n)];
            assert forall|i: int, j: int| 0 <= i < j < (fresh + rest).len() implies (
            #[trigger] (fresh + rest)[i]).a2 <= (#[trigger] (fresh + rest)[j]).a1 && (fresh
                + rest)[i].b2 <= (fresh + rest)[j].b1 by {
                assert(all_codes[group.len() + i].a2 <= all_codes[group.len() + j].a1);
            }
            lemma_groups_from(rest, fresh, n, a_len, b_len);
            let first: Seq<Code> = group.push(range_start(c, n));
            assert(codes_fit(first, a_len, b_len));
            assert forall|i: int, j: int| 0 <= i < j < first.len() implies (#[trigger] first[i]).a2
                <= (#[trigger] first[j]).a1 && first[i].b2 <= first[j].b1 by {
                assert(all_codes[i].a2 <= all_codes[j].a1);
            }
            let later: Seq<Seq<Code>> = groups_from(rest, seq![range_end(c, n)], n);
            let all: Seq<Seq<Code>> = seq![first] + later;
            assert forall|g: int| 0 <= g < all.len() implies (#[trigger] all[g]).len() > 0
                && codes_fit(all[g], a_len, b_len) && one_by_one(all[g]) by {
                if g > 0 {
                    assert(all[g] == later[g - 1]);
                }
            }
        } else {
            assert(group.push(c) + rest =~= group + codes);
            lemma_groups_from(rest, group.push(c), n, a_len, b_len);
        }
    }
}

/// No group is empty, it runs from its first opcode to its last, and every
/// opcode of a group speaks of positions that there are.
pub proof fn lemma_groups(a: Seq<Val>, b: Seq<Val>, n: int)
    requires
        n >= 0,
    ensures
        forall|g: int|
            0 <= g < groups_of(a, b, n).len() ==> {
                let group: Seq<Code> = #[trigger] groups_of(a, b, n)[g];
                group.len() > 0 && group[0].a1 <= group.last().a2 && group[0].b1 <= group.last().b2
            },
        forall|g: int, i: int|
            0 <= g < groups_of(a, b, n).len() && 0 <= i < groups_of(a, b, n)[g].len()
                ==> code_fits(
                #[trigger] groups_of(a, b, n)[g][i],
                a.len() as int,
                b.len() as int,
            ),
{
    let codes: Seq<Code> = opcodes_of(a, b, true);
    let w: Span = Span { alo: 0, ahi: a.len() as int, blo: 0, bhi: b.len() as int };
    lemma_opcodes_cover(a, b, true);
    let cut: Seq<Code> = back_cut(front_cut(never_empty(codes), n), n);
    if codes.len() == 0 {
        reveal_with_fuel(groups_from, 2);
        let only: Seq<Code> = Seq::<Code>::empty().push(cut[0]);
        assert(cut.drop_first() =~= Seq::<Code>::empty());
        assert(groups_from(cut, seq![], n) =~= Seq::<Seq<Code>>::empty());
    } else {
        assert forall|i: int| 0 <= i < codes.len() implies code_fits(
            #[trigger] codes[i],
            w.ahi,
            w.bhi,
        ) by {
            lemma_tiles_bounds(codes, w, i);
        }
        let front: Seq<Code> = front_cut(codes, n);
        assert forall|i: int| 0 <= i < front.len() implies code_fits(
            #[trigger] front[i],
            w.ahi,
            w.bhi,
        ) by {
            assert(code_fits(codes[i], w.ahi, w.bhi));
        }
        assert forall|i: int| 0 <= i < cut.len() implies code_fits(
            #[trigger] cut[i],
            w.ahi,
            w.bhi,
        ) by {
            assert(code_fits(front[i], w.ahi, w.bhi));
        }
        assert forall|i: int, j: int| 0 <= i < j < cut.len() implies (#[trigger] cut[i]).a2 <= (
        #[trigger] cut[j]).a1 && cut[i].b2 <= cut[j].b1 by {
            lemma_tiles_one_by_one(codes, w, i, j);
            lemma_tiles_bounds(codes, w, i);
            lemma_tiles_bounds(codes, w, j);
        }
        assert(Seq::<Code>::empty() + cut =~= cut);
        lemma_groups_from(cut, seq![], n, w.ahi, w.bhi);
        assert forall|g: int| 0 <= g < groups_of(a, b, n).len() implies {
            let group: Seq<Code> = #[trigger] groups_of(a, b, n)[g];
            group.len() > 0 && group[0].a1 <= group.last().a2 && group[0].b1 <= group.last().b2
        } by {
            let group: Seq<Code> = groups_of(a, b, n)[g];
            assert(group.len() > 0 && codes_fit(group, w.ahi, w.bhi) && one_by_one(group));
            assert(code_fits(group[0], w.ahi, w.bhi));
            assert(code_fits(group[group.len() - 1], w.ahi, w.bhi));
            if group.len() > 1 {
                assert(group[0].a2 <= group[group.len() - 1].a1);
            }
        }
        assert forall|g: int, i: int|
            0 <= g < groups_of(a, b, n).len() && 0 <= i < groups_of(a, b, n)[g].len() implies code_fits(
            #[trigger] groups_of(a, b, n)[g][i],
            a.len() as int,
            b.len() as int,
        ) by {
            assert(codes_fit(groups_of(a, b, n)[g], w.ahi, w.bhi));
        }
    }
}

/// The models of groups.
pub open spec fn groups_view(groups: Seq<Vec<Opcode>>) -> Seq<Seq<Code>> {
    Seq::new(groups.len(), |i: int| codes_view(groups[i]@))
}

fn cut_to_end(code: Opcode, n: usize) -> (cut: Opcode)
    ensures
        cut@ == range_end(code@, n as int),
{
    let a1: usize = if code.a2 > n && code.a2 - n > code.a1 {
        code.a2 - n
    } else {
        code.a1
    };
    let b1: usize = if code.b2 > n && code.b2 - n > code.b1 {
        code.b2 - n
    } else {
        code.b1
    };
    Opcode { tag: code.tag, a1, a2: code.a2, b1, b2: code.b2 }
}

fn cut_to_start(code: Opcode, n: usize) -> (cut: Opcode)
    requires
        code.a1 <= code.a2,
        code.b1 <= code.b2,
    ensures
        cut@ == range_start(code@, n as int),
{
    let a2: usize = if code.a2 - code.a1 > n {
        code.a1 + n
    } else {
        code.a2
    };
    let b2: usize = if code.b2 - code.b1 > n {
        code.b1 + n
    } else {
        code.b2
    };
    Opcode { tag: code.tag, a1: code.a1, a2, b1: code.b1, b2 }
}

/// The groups of changes between two lists of scalars, with up to `n` elements
/// of context about each, as a unified diff shows them.
pub fn grouped_opcodes(a: &[Value], b: &[Value], n: usize) -> (groups: Vec<Vec<Opcode>>)
    requires
        forall|i: int| 0 <= i < a@.len() ==> basic(#[trigger] views(a@)[i]),
        forall|i: int| 0 <= i < b@.len() ==> basic(#[trigger] views(b@)[i]),
        n <= usize::MAX / 2,
    ensures
        groups_view(groups@) == groups_of(views(a@), views(b@), n as int),
{
    let mut codes: Vec<Opcode> = opcodes_with(a, b, true);
    let ghost w: Span = Span { alo: 0, ahi: a@.len() as int, blo: 0, bhi: b@.len() as int };
    let ghost plain: Seq<Code> = codes_view(codes@);
    proof {
        lemma_opcodes_cover(views(a@), views(b@), true);
        assert forall|i: int| 0 <= i < codes@.len() implies (#[trigger] codes@[i]).a1
            <= codes@[i].a2 && codes@[i].b1 <= codes@[i].b2 by {
            lemma_tiles_bounds(plain, w, i);
            assert(plain[i] == codes@[i]@);
        }
    }
    if codes.len() == 0 {
        codes.push(Opcode { tag: Tag::Equal, a1: 0, a2: 1, b1: 0, b2: 1 });
    }
    proof {
        assert(codes_view(codes@) =~= never_empty(plain));
    }
    let ghost filled: Seq<Code> = codes_view(codes@);
    let first: Opcode = codes[0];
    if first.tag == Tag::Equal {
        codes.set(0, cut_to_end(first, n));
    }
    proof {
        assert(codes_view(codes@) =~= front_cut(filled, n as int));
    }
    let ghost front: Seq<Code> = codes_view(codes@);
    let at: usize = codes.len() - 1;
    let last: Opcode = codes[at];
    if last.tag == Tag::Equal {
        codes.set(at, cut_to_start(last, n));
    }
    let ghost cut: Seq<Code> = codes_view(codes@);
    proof {
        assert(cut =~= back_cut(front, n as int));
    }
    let mut groups: Vec<Vec<Opcode>> = Vec::new();
    let mut group: Vec<Opcode> = Vec::new();
    let mut i: usize = 0;
    let ghost all: Seq<Seq<Code>> = groups_from(cut, seq![], n as int);
    proof {
        assert(cut.skip(0) =~= cut);
        assert(codes_view(group@) =~= Seq::<Code>::empty());
        assert(groups_view(groups@) + all =~= all);
    }
    while i < codes.len()
        invariant
            i <= codes.len(),
            n <= usize::MAX / 2,
            cut == codes_view(codes@),
            forall|k: int|
                0 <= k < codes@.len() ==> (#[trigger] codes@[k]).a1 <= codes@[k].a2
                    && codes@[k].b1 <= codes@[k].b2,
            groups_view(groups@) + groups_from(cut.skip(i as int), codes_view(group@), n as int)
                == all,
        decreases codes.len() - i,
    {
        let code: Opcode = codes[i];
        let ghost done: Seq<Seq<Code>> = groups_view(groups@);
        let ghost open: Seq<Code> = codes_view(group@);
        let ghost rest: Seq<Code> = cut.skip(i as int + 1);
        proof {
            assert(cut.skip(i as int)[0] == code@);
            assert(cut.skip(i as int).drop_first() =~= rest);
        }
        if code.tag == Tag::Equal && code.a2 - code.a1 > n + n {
            group.push(cut_to_start(code, n));
            proof {
                assert(codes_view(group@) =~= open.push(range_start(code@, n as int)));
            }
            let ghost closed: Seq<Code> = codes_view(group@);
            let mut fresh: Vec<Opcode> = Vec::new();
            fresh.push(cut_to_end(code, n));
            std::mem::swap(&mut group, &mut fresh);
            groups.push(fresh);
            proof {
                assert(codes_view(group@) =~= seq![range_end(code@, n as int)]);
                assert(groups_view(groups@) =~= done.push(closed));
                let tail: Seq<Seq<Code>> = groups_from(rest, codes_view(group@), n as int);
                assert(done.push(closed) + tail =~= done + (seq![closed] + tail));
            }
        } else {
            group.push(code);
            proof {
                assert(codes_view(group@) =~= open.push(code@));
            }
        }
        i = i + 1;
    }
    let ghost done: Seq<Seq<Code>> = groups_view(groups@);
    let ghost open: Seq<Code> = codes_view(group@);
    proof {
        assert(cut.skip(i as int) =~= Seq::<Code>::empty());
    }
    if group.len() == 0 || (group.len() == 1 && group[0].tag == Tag::Equal) {
        proof {
            assert(done + Seq::<Seq<Code>>::empty() =~= done);
        }
    } else {
        groups.push(group);
        proof {
            assert(groups_view(groups@) =~= done + seq![open]);
        }
    }
    groups
}

} // verus!
