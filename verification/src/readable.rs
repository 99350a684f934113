//! What Python's `repr` of a text says.

use vstd::prelude::*;

#[allow(unused_imports)]
use crate::repr::{char_repr, chars_repr, escape, hex, hex_digit, quote_of, str_repr};

verus! {

/// The number that hexadecimal digits write.
pub open spec fn read_hex(digits: Seq<char>) -> int
    decreases digits.len(),
{
    if digits.len() == 0 {
        0
    } else {
        let c = digits.last() as int;
        read_hex(digits.drop_last()) * 16 + (if c < 97 {
            c - 48
        } else {
            c - 87
        })
    }
}

/// Sixteen to a power.
spec fn sixteen_to(width: nat) -> int
    decreases width,
{
    if width == 0 {
        1
    } else {
        16 * sixteen_to((width - 1) as nat)
    }
}

/// Hexadecimal digits, if there are enough of them, write their number.
proof fn lemma_hex_read(n: nat, width: nat)
    requires
        n < sixteen_to(width),
    ensures
        hex(n, width).len() == width,
        read_hex(hex(n, width)) == n,
    decreases width,
{
    if width > 0 {
        let front: nat = n / 16;
        lemma_hex_read(front, (width - 1) as nat);
        assert(hex(n, width).drop_last() =~= hex(front, (width - 1) as nat));
        assert(hex(n, width).last() == hex_digit((n % 16) as int));
    }
}

/// Whether a piece of a text between quotes stands for a character: the character
/// itself, unless it is a backslash, the quote, a tab or a line end; or an escape, which
/// is a backslash with a letter or the character for one of those, or with the code
/// point in two, four or eight hexadecimal digits.
pub open spec fn stands_for(piece: Seq<char>, c: char, quote: char) -> bool {
    ||| piece == seq![c] && c != '\\' && c != quote && c != '\t' && c != '\n' && c != '\r'
    ||| piece == seq!['\\', '\\'] && c == '\\'
    ||| piece == seq!['\\', 't'] && c == '\t'
    ||| piece == seq!['\\', 'n'] && c == '\n'
    ||| piece == seq!['\\', 'r'] && c == '\r'
    ||| piece == seq!['\\', quote] && c == quote
    ||| piece.len() == 4 && piece.take(2) == seq!['\\', 'x'] && read_hex(piece.skip(2)) == c as int
    ||| piece.len() == 6 && piece.take(2) == seq!['\\', 'u'] && read_hex(piece.skip(2)) == c as int
    ||| piece.len() == 10 && piece.take(2) == seq!['\\', 'U'] && read_hex(piece.skip(2))
        == c as int
}

/// An escape stands for its character.
proof fn lemma_escape_stands(c: char, quote: char)
    ensures
        stands_for(escape(c), c, quote),
{
    reveal_with_fuel(sixteen_to, 9);
    let width: nat = if (c as int) < 0x100 {
        2
    } else if (c as int) < 0x1_0000 {
        4
    } else {
        8
    };
    lemma_hex_read(c as nat, width);
    let piece: Seq<char> = escape(c);
    assert(piece.skip(2) =~= hex(c as nat, width));
    assert(piece.take(2) =~= seq![piece[0], piece[1]]);
}

/// Pieces, one behind the other.
pub open spec fn pieced(pieces: Seq<Seq<char>>) -> Seq<char>
    decreases pieces.len(),
{
    if pieces.len() == 0 {
        seq![]
    } else {
        pieced(pieces.drop_last()) + pieces.last()
    }
}

proof fn lemma_pieces(text: Seq<char>, quote: char) -> (pieces: Seq<Seq<char>>)
    ensures
        pieces.len() == text.len(),
        pieced(pieces) == chars_repr(text, quote),
        forall|i: int|
            0 <= i < text.len() ==> stands_for(#[trigger] pieces[i], text[i], quote),
    decreases text.len(),
{
    if text.len() == 0 {
        seq![]
    } else {
        let c: char = text.last();
        let front: Seq<Seq<char>> = lemma_pieces(text.drop_last(), quote);
        let pieces: Seq<Seq<char>> = front.push(char_repr(c, quote));
        lemma_escape_stands(c, quote);
        assert(pieces.drop_last() =~= front);
        assert forall|i: int| 0 <= i < text.len() implies stands_for(
            #[trigger] pieces[i],
            text[i],
            quote,
        ) by {
            if i < text.len() - 1 {
                assert(pieces[i] == front[i]);
                assert(text.drop_last()[i] == text[i]);
            }
        }
        pieces
    }
}

/// Python's `repr` of a text stands between two equal quotes, double ones exactly if the
/// text holds a single one and no double one; between them each character of the text
/// has its piece, which stands for it.
pub proof fn lemma_repr_reads_back(text: Seq<char>)
    ensures
        exists|pieces: Seq<Seq<char>>|
            #![trigger pieced(pieces)]
            {
                let quote = if text.contains('\'') && !text.contains('"') {
                    '"'
                } else {
                    '\''
                };
                &&& str_repr(text) == seq![quote] + pieced(pieces) + seq![quote]
                &&& pieces.len() == text.len()
                &&& forall|i: int|
                    0 <= i < text.len() ==> stands_for(#[trigger] pieces[i], text[i], quote)
            },
{
    let pieces: Seq<Seq<char>> = lemma_pieces(text, quote_of(text));
    assert(str_repr(text) == seq![quote_of(text)] + pieced(pieces) + seq![quote_of(text)]);
}

} // verus!
