//! The unified diff that is shown for a changed text of several lines.

use vstd::prelude::*;

use crate::lcs::{grouped_opcodes, Opcode, Tag};
use crate::repr::occurs;
use crate::text::{chars_of, push_decimal};
use crate::value::Value;

#[allow(unused_imports)]
use crate::lcs::{code_fits, codes_view, groups_of, groups_view, lemma_groups, Code};
#[allow(unused_imports)]
use crate::scalar_key::basic;
#[allow(unused_imports)]
use crate::text::decimal;
#[allow(unused_imports)]
use crate::value::{views, Val};

verus! {

/// The lines of context about a change.
pub const CONTEXT_LINES: usize = 3;

// ---------------------------------------------------------------------
// Lines
// ---------------------------------------------------------------------

/// Whether Python's `str.splitlines` ends a line at a character.
pub open spec fn ends_line(c: char) -> bool {
    c == '\n' || c == '\r' || c == '\u{0b}' || c == '\u{0c}' || c == '\u{1c}' || c == '\u{1d}' || c
        == '\u{1e}' || c == '\u{85}' || c == '\u{2028}' || c == '\u{2029}'
}

/// What follows the line end at the front of a text; a carriage return takes
/// the line feed behind it along.
pub open spec fn past_line_end(text: Seq<char>) -> Seq<char> {
    if text[0] == '\r' && text.len() > 1 && text[1] == '\n' {
        text.skip(2)
    } else {
        text.skip(1)
    }
}

/// The lines of a text that follows `line`, the start of its first line. There
/// is no empty line behind the last line end.
pub open spec fn lines_from(text: Seq<char>, line: Seq<char>) -> Seq<Seq<char>>
    decreases text.len(),
{
    if text.len() == 0 {
        if line.len() == 0 {
            seq![]
        } else {
            seq![line]
        }
    } else if ends_line(text[0]) {
        seq![line] + lines_from(past_line_end(text), seq![])
    } else {
        lines_from(text.skip(1), line.push(text[0]))
    }
}

/// The lines of a text, without their ends.
pub open spec fn lines(text: Seq<char>) -> Seq<Seq<char>> {
    lines_from(text, seq![])
}

/// The models of strings.
pub open spec fn texts(strings: Seq<String>) -> Seq<Seq<char>> {
    Seq::new(strings.len(), |i: int| strings[i]@)
}

/// Whether a line ends at a character.
pub fn is_line_boundary(c: char) -> (result: bool)
    ensures
        result == ends_line(c),
{
    c == '\n' || c == '\r' || c == '\u{0b}' || c == '\u{0c}' || c == '\u{1c}' || c == '\u{1d}' || c
        == '\u{1e}' || c == '\u{85}' || c == '\u{2028}' || c == '\u{2029}'
}

/// The lines of a text, without their ends.
pub fn splitlines(text: &str) -> (result: Vec<String>)
    ensures
        texts(result@) == lines(text@),
{
    let chars: Vec<char> = chars_of(text);
    let ghost all: Seq<char> = text@;
    let mut result: Vec<String> = Vec::new();
    let mut line: String = String::new();
    let mut empty: bool = true;
    let mut i: usize = 0;
    proof {
        assert(all.skip(0) =~= all);
        assert(line@ =~= Seq::<char>::empty());
        assert(texts(result@) + lines_from(all.skip(0), line@) =~= lines(all));
    }
    while i < chars.len()
        invariant
            i <= chars.len(),
            chars@ == all,
            empty == (line@.len() == 0),
            texts(result@) + lines_from(all.skip(i as int), line@) == lines(all),
        decreases chars.len() - i,
    {
        let c: char = chars[i];
        let ghost done: Seq<Seq<char>> = texts(result@);
        let ghost open: Seq<char> = line@;
        let ghost rest: Seq<char> = all.skip(i as int);
        proof {
            assert(rest[0] == c);
            assert(rest.skip(1) =~= all.skip(i as int + 1));
            assert(i + 1 < all.len() ==> rest[1] == all[i as int + 1]);
            assert(i + 1 < all.len() ==> rest.skip(2) =~= all.skip(i as int + 2));
        }
        if is_line_boundary(c) {
            let mut fresh: String = String::new();
            std::mem::swap(&mut line, &mut fresh);
            result.push(fresh);
            empty = true;
            if c == '\r' && i + 1 < chars.len() && chars[i + 1] == '\n' {
                i = i + 2;
            } else {
                i = i + 1;
            }
            proof {
                assert(line@ =~= Seq::<char>::empty());
                assert(texts(result@) =~= done.push(open));
                let tail: Seq<Seq<char>> = lines_from(all.skip(i as int), seq![]);
                assert(done.push(open) + tail =~= done + (seq![open] + tail));
            }
        } else {
            line.push(c);
            empty = false;
            i = i + 1;
        }
    }
    let ghost done: Seq<Seq<char>> = texts(result@);
    proof {
        assert(all.skip(i as int) =~= Seq::<char>::empty());
    }
    if !empty {
        let ghost open: Seq<char> = line@;
        result.push(line);
        proof {
            assert(texts(result@) =~= done + seq![open]);
        }
    } else {
        proof {
            assert(done + Seq::<Seq<char>>::empty() =~= done);
        }
    }
    result
}

/// Whether no line holds a line end.
pub open spec fn single_lines(parts: Seq<Seq<char>>) -> bool {
    forall|i: int, k: int|
        0 <= i < parts.len() && 0 <= k < parts[i].len() ==> !ends_line(#[trigger] parts[i][k])
}

/// The lines of a text hold no line end.
pub proof fn lemma_lines_are_single(text: Seq<char>)
    ensures
        single_lines(lines(text)),
{
    lemma_lines_from_single(text, seq![]);
}

proof fn lemma_lines_from_single(text: Seq<char>, line: Seq<char>)
    requires
        forall|k: int| 0 <= k < line.len() ==> !ends_line(#[trigger] line[k]),
    ensures
        single_lines(lines_from(text, line)),
    decreases text.len(),
{
    if text.len() > 0 {
        if ends_line(text[0]) {
            let later: Seq<Seq<char>> = lines_from(past_line_end(text), seq![]);
            lemma_lines_from_single(past_line_end(text), seq![]);
            let all: Seq<Seq<char>> = seq![line] + later;
            assert forall|i: int, k: int|
                0 <= i < all.len() && 0 <= k < all[i].len() implies !ends_line(
                #[trigger] all[i][k],
            ) by {
                if i > 0 {
                    assert(all[i] == later[i - 1]);
                    assert(!ends_line(later[i - 1][k]));
                }
            }
        } else {
            lemma_lines_from_single(text.skip(1), line.push(text[0]));
        }
    }
}

// ---------------------------------------------------------------------
// The diff
// ---------------------------------------------------------------------

/// The range of lines `start..stop` as a hunk's header gives it: where it
/// starts, counted from one, and how long it is, unless it is a single line; an
/// empty range starts behind the line in front of it.
pub open spec fn range_text(start: int, stop: int) -> Seq<char> {
    if stop - start == 1 {
        decimal((start + 1) as nat)
    } else if stop == start {
        decimal(start as nat) + seq![',', '0']
    } else {
        decimal((start + 1) as nat) + seq![','] + decimal((stop - start) as nat)
    }
}

/// A hunk's header.
pub open spec fn header(group: Seq<Code>) -> Seq<char> {
    seq!['@', '@', ' ', '-'] + range_text(group[0].a1, group.last().a2) + seq![' ', '+']
        + range_text(group[0].b1, group.last().b2) + seq![' ', '@', '@']
}

/// The lines of a range behind a mark.
pub open spec fn marked(mark: char, from: Seq<Seq<char>>, start: int, stop: int) -> Seq<
    Seq<char>,
> {
    Seq::new((stop - start) as nat, |i: int| seq![mark] + from[start + i])
}

/// The lines that an opcode shows.
pub open spec fn code_lines(code: Code, a: Seq<Seq<char>>, b: Seq<Seq<char>>) -> Seq<Seq<char>> {
    match code.tag {
        Tag::Equal => marked(' ', a, code.a1, code.a2),
        Tag::Delete => marked('-', a, code.a1, code.a2),
        Tag::Insert => marked('+', b, code.b1, code.b2),
        Tag::Replace => marked('-', a, code.a1, code.a2) + marked('+', b, code.b1, code.b2),
    }
}

/// The lines that the opcodes of a group show.
pub open spec fn codes_lines(group: Seq<Code>, a: Seq<Seq<char>>, b: Seq<Seq<char>>) -> Seq<
    Seq<char>,
>
    decreases group.len(),
{
    if group.len() == 0 {
        seq![]
    } else {
        codes_lines(group.drop_last(), a, b) + code_lines(group.last(), a, b)
    }
}

/// The hunks, each behind its header.
pub open spec fn hunks(groups: Seq<Seq<Code>>, a: Seq<Seq<char>>, b: Seq<Seq<char>>) -> Seq<
    Seq<char>,
>
    decreases groups.len(),
{
    if groups.len() == 0 {
        seq![]
    } else {
        hunks(groups.drop_last(), a, b) + (seq![header(groups.last())] + codes_lines(
            groups.last(),
            a,
            b,
        ))
    }
}

/// Lines joined by line feeds.
pub open spec fn joined(parts: Seq<Seq<char>>) -> Seq<char>
    decreases parts.len(),
{
    if parts.len() == 0 {
        seq![]
    } else if parts.len() == 1 {
        parts[0]
    } else {
        joined(parts.drop_last()).push('\n') + parts.last()
    }
}

/// Lines of text as values.
pub open spec fn text_values(parts: Seq<Seq<char>>) -> Seq<Val> {
    Seq::new(parts.len(), |i: int| Val::Str(parts[i]))
}

/// The lines in front of the hunks.
pub open spec fn file_lines() -> Seq<Seq<char>> {
    seq![seq!['-', '-', '-', ' '], seq!['+', '+', '+', ' ']]
}

/// The unified diff of two texts: none where neither has a line feed, and none
/// where their lines are the same.
pub open spec fn unified(t1: Seq<char>, t2: Seq<char>) -> Option<Seq<char>> {
    let groups: Seq<Seq<Code>> = groups_of(
        text_values(lines(t1)),
        text_values(lines(t2)),
        CONTEXT_LINES as int,
    );
    if (!t1.contains('\n') && !t2.contains('\n')) || groups.len() == 0 {
        None
    } else {
        Some(joined(file_lines() + hunks(groups, lines(t1), lines(t2))))
    }
}

/// The unified diff of two values: none unless both are texts.
pub open spec fn unified_values(a: Val, b: Val) -> Option<Seq<char>> {
    match (a, b) {
        (Val::Str(t1), Val::Str(t2)) => unified(t1, t2),
        _ => None,
    }
}

/// The model of an optional text.
pub open spec fn text_of(text: Option<String>) -> Option<Seq<char>> {
    match text {
        None => None,
        Some(s) => Some(s@),
    }
}

/// Appends a range of lines as a hunk's header gives it.
fn push_range(out: &mut String, start: usize, stop: usize)
    requires
        start <= stop,
    ensures
        final(out)@ == old(out)@ + range_text(start as int, stop as int),
{
    if stop - start == 1 {
        push_decimal(out, (start + 1) as u64);
    } else if stop == start {
        push_decimal(out, start as u64);
        out.push(',');
        out.push('0');
    } else {
        push_decimal(out, (start + 1) as u64);
        out.push(',');
        push_decimal(out, (stop - start) as u64);
    }
    assert(out@ =~= old(out)@ + range_text(start as int, stop as int));
}

/// The range of lines `start..stop` as a hunk's header gives it.
pub fn format_range_unified(start: usize, stop: usize) -> (result: String)
    requires
        start <= stop,
    ensures
        result@ == range_text(start as int, stop as int),
{
    let mut out: String = String::new();
    push_range(&mut out, start, stop);
    proof {
        assert(out@ =~= range_text(start as int, stop as int));
    }
    out
}

proof fn lemma_joined_push(parts: Seq<Seq<char>>, part: Seq<char>)
    requires
        parts.len() > 0,
    ensures
        joined(parts.push(part)) == joined(parts).push('\n') + part,
{
    assert(parts.push(part).drop_last() =~= parts);
}

/// Appends a range of lines, each on a line of its own behind a mark.
fn push_marked(
    out: &mut String,
    mark: char,
    from: &Vec<String>,
    start: usize,
    stop: usize,
    Ghost(written): Ghost<Seq<Seq<char>>>,
)
    requires
        start <= stop <= from@.len(),
        written.len() > 0,
        old(out)@ == joined(written),
    ensures
        final(out)@ == joined(written + marked(mark, texts(from@), start as int, stop as int)),
{
    let ghost source: Seq<Seq<char>> = texts(from@);
    let mut i: usize = start;
    proof {
        assert(written + marked(mark, source, start as int, start as int) =~= written);
    }
    while i < stop
        invariant
            start <= i <= stop <= from@.len(),
            written.len() > 0,
            source == texts(from@),
            out@ == joined(written + marked(mark, source, start as int, i as int)),
        decreases stop - i,
    {
        let ghost before: Seq<Seq<char>> = written + marked(mark, source, start as int, i as int);
        let ghost line: Seq<char> = seq![mark] + source[i as int];
        let ghost shown: Seq<char> = out@;
        out.push('\n');
        out.push(mark);
        out.append(from[i].as_str());
        proof {
            lemma_joined_push(before, line);
            assert(out@ =~= shown.push('\n') + line);
            assert(written + marked(mark, source, start as int, i as int + 1) =~= before.push(
                line,
            ));
        }
        i = i + 1;
    }
}

/// Lines of text as values.
fn line_values(parts: &Vec<String>) -> (values: Vec<Value>)
    ensures
        views(values@) == text_values(texts(parts@)),
{
    let mut values: Vec<Value> = Vec::new();
    let mut i: usize = 0;
    while i < parts.len()
        invariant
            i <= parts.len(),
            values@.len() == i,
            forall|k: int| 0 <= k < i ==> (#[trigger] values@[k])@ == Val::Str(parts@[k]@),
        decreases parts.len() - i,
    {
        values.push(Value::Str(parts[i].clone()));
        i = i + 1;
    }
    proof {
        assert(views(values@) =~= text_values(texts(parts@)));
    }
    values
}

/// Appends what a group shows.
fn push_group(
    out: &mut String,
    group: &Vec<Opcode>,
    a_lines: &Vec<String>,
    b_lines: &Vec<String>,
    Ghost(written): Ghost<Seq<Seq<char>>>,
)
    requires
        group@.len() > 0,
        forall|i: int|
            0 <= i < group@.len() ==> code_fits(
                (#[trigger] group@[i])@,
                a_lines@.len() as int,
                b_lines@.len() as int,
            ),
        group@[0].a1 <= group@.last().a2,
        group@[0].b1 <= group@.last().b2,
        written.len() > 0,
        old(out)@ == joined(written),
    ensures
        final(out)@ == joined(
            written + (seq![header(codes_view(group@))] + codes_lines(
                codes_view(group@),
                texts(a_lines@),
                texts(b_lines@),
            )),
        ),
{
    let ghost a: Seq<Seq<char>> = texts(a_lines@);
    let ghost b: Seq<Seq<char>> = texts(b_lines@);
    let ghost codes: Seq<Code> = codes_view(group@);
    let first: Opcode = group[0];
    let last: Opcode = group[group.len() - 1];
    let ghost shown: Seq<char> = out@;
    out.push('\n');
    out.push('@');
    out.push('@');
    out.push(' ');
    out.push('-');
    push_range(out, first.a1, last.a2);
    out.push(' ');
    out.push('+');
    push_range(out, first.b1, last.b2);
    out.push(' ');
    out.push('@');
    out.push('@');
    let ghost mut parts: Seq<Seq<char>> = written.push(header(codes));
    proof {
        assert(codes[0] == first@);
        assert(codes.last() == last@);
        assert(out@ =~= shown.push('\n') + header(codes));
        lemma_joined_push(written, header(codes));
        assert(codes.take(0) =~= Seq::<Code>::empty());
        assert(parts =~= written + (seq![header(codes)] + codes_lines(codes.take(0), a, b)));
    }
    let mut i: usize = 0;
    while i < group.len()
        invariant
            i <= group.len(),
            codes == codes_view(group@),
            a == texts(a_lines@),
            b == texts(b_lines@),
            forall|k: int|
                0 <= k < group@.len() ==> code_fits(
                    (#[trigger] group@[k])@,
                    a_lines@.len() as int,
                    b_lines@.len() as int,
                ),
            parts.len() > 0,
            parts == written + (seq![header(codes)] + codes_lines(codes.take(i as int), a, b)),
            out@ == joined(parts),
        decreases group.len() - i,
    {
        let code: Opcode = group[i];
        proof {
            assert(code_fits(group@[i as int]@, a_lines@.len() as int, b_lines@.len() as int));
        }
        match code.tag {
            Tag::Equal => {
                push_marked(out, ' ', a_lines, code.a1, code.a2, Ghost(parts));
            },
            Tag::Delete => {
                push_marked(out, '-', a_lines, code.a1, code.a2, Ghost(parts));
            },
            Tag::Insert => {
                push_marked(out, '+', b_lines, code.b1, code.b2, Ghost(parts));
            },
            Tag::Replace => {
                push_marked(out, '-', a_lines, code.a1, code.a2, Ghost(parts));
                let ghost between: Seq<Seq<char>> = parts + marked(
                    '-',
                    a,
                    code.a1 as int,
                    code.a2 as int,
                );
                push_marked(out, '+', b_lines, code.b1, code.b2, Ghost(between));
                proof {
                    assert(between + marked('+', b, code.b1 as int, code.b2 as int) =~= parts
                        + code_lines(code@, a, b));
                }
            },
        }
        proof {
            let next: Seq<Seq<char>> = parts + code_lines(code@, a, b);
            let upto: Seq<Code> = codes.take(i as int + 1);
            assert(upto.last() == code@);
            assert(upto.drop_last() =~= codes.take(i as int));
            assert(next =~= written + (seq![header(codes)] + codes_lines(upto, a, b)));
            parts = next;
        }
        i = i + 1;
    }
    proof {
        assert(codes.take(i as int) =~= codes);
    }
}

/// The unified diff of two texts: none where neither has a line feed, and none
/// where their lines are the same.
pub fn str_diff(t1: &str, t2: &str) -> (result: Option<String>)
    ensures
        text_of(result) == unified(t1@, t2@),
{
    if !occurs(&chars_of(t1), '\n') && !occurs(&chars_of(t2), '\n') {
        return None;
    }
    let a_lines: Vec<String> = splitlines(t1);
    let b_lines: Vec<String> = splitlines(t2);
    let a_values: Vec<Value> = line_values(&a_lines);
    let b_values: Vec<Value> = line_values(&b_lines);
    let ghost a: Seq<Seq<char>> = texts(a_lines@);
    let ghost b: Seq<Seq<char>> = texts(b_lines@);
    proof {
        assert forall|i: int| 0 <= i < a_values@.len() implies basic(
            #[trigger] views(a_values@)[i],
        ) by {
            assert(text_values(a)[i] is Str);
        }
        assert forall|i: int| 0 <= i < b_values@.len() implies basic(
            #[trigger] views(b_values@)[i],
        ) by {
            assert(text_values(b)[i] is Str);
        }
        lemma_groups(text_values(a), text_values(b), CONTEXT_LINES as int);
    }
    let groups: Vec<Vec<Opcode>> = grouped_opcodes(
        a_values.as_slice(),
        b_values.as_slice(),
        CONTEXT_LINES,
    );
    let ghost all: Seq<Seq<Code>> = groups_view(groups@);
    if groups.len() == 0 {
        return None;
    }
    let mut out: String = String::new();
    out.append("--- ");
    out.push('\n');
    out.append("+++ ");
    proof {
        reveal_strlit("--- ");
        reveal_strlit("+++ ");
        reveal_with_fuel(joined, 2);
        assert(file_lines().drop_last() =~= seq![seq!['-', '-', '-', ' ']]);
        assert(out@ =~= joined(file_lines()));
    }
    let ghost mut parts: Seq<Seq<char>> = file_lines();
    let mut i: usize = 0;
    proof {
        assert(all.take(0) =~= Seq::<Seq<Code>>::empty());
        assert(parts =~= file_lines() + hunks(all.take(0), a, b));
    }
    while i < groups.len()
        invariant
            i <= groups.len(),
            all == groups_view(groups@),
            a == texts(a_lines@),
            b == texts(b_lines@),
            forall|g: int| 0 <= g < all.len() ==> (#[trigger] all[g]).len() > 0,
            forall|g: int| 0 <= g < all.len() ==> (#[trigger] all[g])[0].a1 <= all[g].last().a2,
            forall|g: int| 0 <= g < all.len() ==> (#[trigger] all[g])[0].b1 <= all[g].last().b2,
            forall|g: int, k: int|
                0 <= g < all.len() && 0 <= k < all[g].len() ==> code_fits(
                    #[trigger] all[g][k],
                    a.len() as int,
                    b.len() as int,
                ),
            parts.len() > 0,
            parts == file_lines() + hunks(all.take(i as int), a, b),
            out@ == joined(parts),
        decreases groups.len() - i,
    {
        let group: &Vec<Opcode> = &groups[i];
        proof {
            let codes: Seq<Code> = all[i as int];
            assert(codes == codes_view(group@));
            assert forall|k: int| 0 <= k < group@.len() implies code_fits(
                (#[trigger] group@[k])@,
                a_lines@.len() as int,
                b_lines@.len() as int,
            ) by {
                assert(all[i as int][k] == group@[k]@);
            }
            assert(codes[0] == group@[0]@);
            assert(codes.last() == group@.last()@);
        }
        push_group(&mut out, group, &a_lines, &b_lines, Ghost(parts));
        proof {
            let upto: Seq<Seq<Code>> = all.take(i as int + 1);
            assert(upto.drop_last() =~= all.take(i as int));
            assert(upto.last() == all[i as int]);
            let next: Seq<Seq<char>> = parts + (seq![header(all[i as int])] + codes_lines(
                all[i as int],
                a,
                b,
            ));
            assert(next =~= file_lines() + hunks(upto, a, b));
            parts = next;
        }
        i = i + 1;
    }
    proof {
        assert(all.take(i as int) =~= all);
    }
    Some(out)
}

/// The unified diff of two values: none unless both are texts.
pub fn str_diff_field(a: &Value, b: &Value) -> (result: Option<String>)
    ensures
        text_of(result) == unified_values(a@, b@),
{
    match a {
        Value::Str(t1) => {
            match b {
                Value::Str(t2) => str_diff(t1.as_str(), t2.as_str()),
                _ => None,
            }
        },
        _ => None,
    }
}

} // verus!
