//! What the fields of a FEN say: where its pieces stand, who is to move, and the rest.

use vstd::prelude::*;

use crate::fen::{
    castling_code, castling_set, char_cells, en_passant_code, fen_model, fen_text, lemma_fen_fields,
    letter_text, piece_code, rank_cells, rank_fault, rank_text, rank_texts, ranks_cells,
    ranks_fault, read_fen, run_text, state_word, FenError, FenModel,
};
use crate::position::{blanks, fill, read_board, BoardModel};
use crate::text::{
    decimal, digit_value, fields, is_digit, joined, lemma_utf8_ascii, number, pieces, utf8,
};
use crate::wording::law_decimal;

verus! {

/// The code of the letter of a piece; capitals are white, and the pieces are pawn,
/// knight, bishop, rook, queen and king. Zero for any other character.
pub open spec fn code_of_letter(c: char) -> u8 {
    if c == 'P' {
        1
    } else if c == 'N' {
        2
    } else if c == 'B' {
        3
    } else if c == 'R' {
        4
    } else if c == 'Q' {
        5
    } else if c == 'K' {
        6
    } else if c == 'p' {
        7
    } else if c == 'n' {
        8
    } else if c == 'b' {
        9
    } else if c == 'r' {
        10
    } else if c == 'q' {
        11
    } else if c == 'k' {
        12
    } else {
        0
    }
}

/// Whether a character can stand in a rank: a digit or the letter of a piece.
pub open spec fn fits_a_rank(c: char) -> bool {
    '0' <= c <= '9' || code_of_letter(c) != 0
}

/// How many squares the characters of a rank stand for: a digit for as many as it
/// says, a letter for one.
pub open spec fn width(s: Seq<char>) -> nat
    decreases s.len(),
{
    if s.len() == 0 {
        0
    } else {
        width(s.drop_last()) + (if '0' <= s.last() <= '9' {
            (s.last() as u32 - 48) as nat
        } else {
            1
        })
    }
}

/// Whether a text is a rank: its characters fit, and stand for eight squares.
pub open spec fn is_rank(s: Seq<char>) -> bool {
    &&& forall|i: int| 0 <= i < s.len() ==> fits_a_rank(#[trigger] s[i])
    &&& width(s) == 8
}

proof fn lemma_letter(c: char)
    ensures
        code_of_letter(c) != 0 ==> piece_code(c) == Some(code_of_letter(c)),
        code_of_letter(c) == 0 ==> piece_code(c) is None,
{
}

proof fn lemma_width_front(s: Seq<char>)
    requires
        s.len() > 0,
    ensures
        width(s) == width(s.skip(1)) + width(seq![s[0]]),
        width(seq![s[0]]) == (if '0' <= s[0] <= '9' {
            (s[0] as u32 - 48) as nat
        } else {
            1
        }),
    decreases s.len(),
{
    let one = seq![s[0]];
    assert(one.drop_last() =~= Seq::empty());
    assert(width(one.drop_last()) == 0);
    if s.len() == 1 {
        assert(s.skip(1) =~= Seq::empty());
        assert(s =~= one);
    } else {
        let init = s.drop_last();
        lemma_width_front(init);
        assert(init.skip(1) =~= s.skip(1).drop_last());
        assert(s.skip(1).last() == s.last());
    }
}

/// A rank has no fault if and only if it is a rank, behind so many squares.
proof fn lemma_rank_fault(s: Seq<char>, r: nat, file: nat)
    requires
        r < 8,
    ensures
        rank_fault(s, r, file) is None <==> (forall|i: int|
            0 <= i < s.len() ==> fits_a_rank(#[trigger] s[i])) && file + width(s) == 8,
    decreases s.len(),
{
    if s.len() > 0 {
        let rest = s.skip(1);
        lemma_letter(s[0]);
        lemma_width_front(s);
        let step = width(seq![s[0]]);
        lemma_rank_fault(rest, r, file + step);
        assert(forall|i: int| 0 <= i < rest.len() ==> rest[i] == s[i + 1]);
        if forall|i: int| 0 <= i < s.len() ==> fits_a_rank(#[trigger] s[i]) {
            assert forall|i: int| 0 <= i < rest.len() implies fits_a_rank(#[trigger] rest[i]) by {
                assert(fits_a_rank(s[i + 1]));
            }
            assert(fits_a_rank(s[0]));
        }
        if (forall|i: int| 0 <= i < rest.len() ==> fits_a_rank(#[trigger] rest[i]))
            && fits_a_rank(s[0]) {
            assert forall|i: int| 0 <= i < s.len() implies fits_a_rank(#[trigger] s[i]) by {
                if i > 0 {
                    assert(fits_a_rank(rest[i - 1]));
                }
            }
        }
        if !is_digit(s[0]) && piece_code(s[0]) is Some && 8 * r + file >= 64 {
            assert(file >= 8);
        }
    }
}

proof fn lemma_ranks_fault(ranks: Seq<Seq<char>>, r: nat)
    requires
        ranks.len() == 8,
        r <= 8,
    ensures
        ranks_fault(ranks, r) is None <==> forall|i: int|
            r <= i < 8 ==> is_rank(#[trigger] ranks[i]),
    decreases 8 - r,
{
    if r < 8 {
        lemma_rank_fault(ranks[r as int], r, 0);
        lemma_ranks_fault(ranks, r + 1);
        if forall|i: int| r <= i < 8 ==> is_rank(#[trigger] ranks[i]) {
            assert(is_rank(ranks[r as int]));
        }
    }
}

proof fn lemma_cells_split(a: Seq<char>, b: Seq<char>)
    ensures
        rank_cells(a + b) == rank_cells(a) + rank_cells(b),
    decreases a.len(),
{
    if a.len() == 0 {
        assert(a + b =~= b);
        assert(rank_cells(a) + rank_cells(b) =~= rank_cells(b));
    } else {
        lemma_cells_split(a.skip(1), b);
        assert((a + b).skip(1) =~= a.skip(1) + b);
        assert((a + b)[0] == a[0]);
        assert(char_cells(a[0]) + (rank_cells(a.skip(1)) + rank_cells(b)) =~= char_cells(a[0])
            + rank_cells(a.skip(1)) + rank_cells(b));
    }
}

proof fn lemma_cells_width(s: Seq<char>)
    requires
        forall|i: int| 0 <= i < s.len() ==> fits_a_rank(#[trigger] s[i]),
    ensures
        rank_cells(s).len() == width(s),
    decreases s.len(),
{
    if s.len() > 0 {
        let rest = s.skip(1);
        assert forall|i: int| 0 <= i < rest.len() implies fits_a_rank(#[trigger] rest[i]) by {
            assert(fits_a_rank(s[i + 1]));
        }
        lemma_cells_width(rest);
        lemma_width_front(s);
        lemma_letter(s[0]);
        assert(fits_a_rank(s[0]));
    }
}

proof fn lemma_cells_at(ranks: Seq<Seq<char>>, r: int)
    requires
        forall|i: int| 0 <= i < ranks.len() ==> is_rank(#[trigger] ranks[i]),
        0 <= r < ranks.len(),
    ensures
        ranks_cells(ranks).len() == 8 * ranks.len(),
        rank_cells(ranks[r]).len() == 8,
        ranks_cells(ranks).subrange(8 * r, 8 * r + 8) == rank_cells(ranks[r]),
    decreases ranks.len(),
{
    let init = ranks.drop_last();
    let all = ranks_cells(ranks);
    lemma_cells_width(ranks.last());
    assert(is_rank(ranks.last()));
    if init.len() > 0 {
        assert forall|i: int| 0 <= i < init.len() implies is_rank(#[trigger] init[i]) by {
            assert(is_rank(ranks[i]));
        }
        let k = if r < init.len() {
            r
        } else {
            0
        };
        lemma_cells_at(init, k);
        if r < init.len() {
            assert(all.subrange(8 * r, 8 * r + 8) =~= ranks_cells(init).subrange(
                8 * r,
                8 * r + 8,
            ));
        } else {
            assert(all.subrange(8 * r, 8 * r + 8) =~= rank_cells(ranks[r]));
        }
    } else {
        assert(ranks_cells(init) =~= Seq::empty());
        assert(all.subrange(8 * r, 8 * r + 8) =~= rank_cells(ranks[r]));
    }
}

/// The pieces of a FEN stand where it says: the letter of a rank on the square behind
/// those that the characters before it stand for, and no piece on the squares of a
/// digit. The first rank is the eighth.
pub proof fn law_pieces_stand_where_the_fen_says(
    fs: Seq<Seq<char>>,
    m: FenModel,
    r: int,
    pre: Seq<char>,
    c: char,
    post: Seq<char>,
)
    requires
        read_fen(fs) == Ok::<FenModel, FenError>(m),
        0 <= r < 8,
        pieces(fs[0], '/')[r] == pre + seq![c] + post,
    ensures
        m.cells.len() == 64,
        code_of_letter(c) != 0 ==> width(pre) < 8 && m.cells[8 * r + width(pre)] == code_of_letter(
            c,
        ),
        '0' <= c <= '9' ==> forall|j: int|
            0 <= j < c as u32 - 48 ==> width(pre) + j < 8 && #[trigger] m.cells[8 * r + width(pre)
                + j] == 0,
        fits_a_rank(c),
{
    let ranks = pieces(fs[0], '/');
    let rank = ranks[r];
    lemma_ranks_fault(ranks, 0);
    lemma_cells_at(ranks, r);
    assert(is_rank(rank));
    lemma_cells_split(pre + seq![c], post);
    lemma_cells_split(pre, seq![c]);
    let one = seq![c];
    assert(rank[pre.len() as int] == c);
    lemma_letter(c);
    assert forall|i: int| 0 <= i < pre.len() implies fits_a_rank(#[trigger] pre[i]) by {
        assert(rank[i] == pre[i]);
    }
    lemma_cells_width(pre);
    assert(one.skip(1) =~= Seq::empty());
    assert(rank_cells(one.skip(1)) =~= Seq::empty());
    assert(one[0] == c && one.len() == 1);
    assert(rank_cells(one) =~= char_cells(c));
    let cells = rank_cells(rank);
    let w = width(pre) as int;
    assert(cells == rank_cells(pre) + char_cells(c) + rank_cells(post));
    assert forall|j: int| 0 <= j < char_cells(c).len() implies m.cells[8 * r + w + j]
        == #[trigger] char_cells(c)[j] && w + j < 8 by {
        assert(cells[w + j] == char_cells(c)[j]);
        assert(m.cells.subrange(8 * r, 8 * r + 8)[w + j] == cells[w + j]);
    }
    if code_of_letter(c) != 0 {
        assert(char_cells(c)[0] == code_of_letter(c));
    }
    if '0' <= c <= '9' {
        assert forall|j: int| 0 <= j < c as u32 - 48 implies w + j < 8 && #[trigger] m.cells[8 * r
            + w + j] == 0 by {
            assert(char_cells(c)[j] == 0);
        }
    }
}

/// Whether a field is a castling field: a dash, or letters for the rights alone.
pub open spec fn is_castling_field(s: Seq<char>) -> bool {
    s == seq!['-'] || forall|i: int|
        0 <= i < s.len() ==> #[trigger] s[i] == 'K' || s[i] == 'Q' || s[i] == 'k' || s[i] == 'q'
}

/// Whether a field is an en-passant field: a dash, or the name of a square.
pub open spec fn is_passant_field(s: Seq<char>) -> bool {
    s == seq!['-'] || (s.len() == 2 && 'a' <= s[0] <= 'h' && '1' <= s[1] <= '8')
}

/// A FEN is read if and only if it has a placement of eight ranks of eight squares, and,
/// where it has them, a side to move, castling rights and an en-passant square.
pub proof fn law_fens_that_are_read(fs: Seq<Seq<char>>)
    ensures
        read_fen(fs) is Ok <==> {
            &&& fs.len() > 0
            &&& pieces(fs[0], '/').len() == 8
            &&& forall|r: int| 0 <= r < 8 ==> is_rank(#[trigger] pieces(fs[0], '/')[r])
            &&& fs.len() > 1 ==> fs[1] == seq!['w'] || fs[1] == seq!['b']
            &&& fs.len() > 2 ==> is_castling_field(fs[2])
            &&& fs.len() > 3 ==> is_passant_field(fs[3])
        },
{
    if fs.len() > 0 && pieces(fs[0], '/').len() == 8 {
        lemma_ranks_fault(pieces(fs[0], '/'), 0);
    }
}

/// What the fields of a FEN behind the placement say is kept: the side to move, each
/// castling right, the en-passant square and the clocks. What is left out is white, no
/// right, no square, 0 and 1.
pub proof fn law_state_of_a_fen(fs: Seq<Seq<char>>, m: FenModel, half: nat, full: nat)
    requires
        read_fen(fs) == Ok::<FenModel, FenError>(m),
    ensures
        m.state % 2 == 1 <==> fs.len() > 1 && fs[1] == seq!['b'],
        (m.state / 2) % 2 == 1 <==> fs.len() > 2 && fs[2].contains('K'),
        (m.state / 4) % 2 == 1 <==> fs.len() > 2 && fs[2].contains('Q'),
        (m.state / 8) % 2 == 1 <==> fs.len() > 2 && fs[2].contains('k'),
        (m.state / 16) % 2 == 1 <==> fs.len() > 2 && fs[2].contains('q'),
        fs.len() <= 3 || fs[3] == seq!['-'] ==> m.state / 32 == 0,
        fs.len() > 3 && fs[3] != seq!['-'] ==> m.state / 32 == 1 + (56 - fs[3][1] as u32) * 8 + (
        fs[3][0] as u32 - 97),
        fs.len() > 4 && fs[4] == decimal(half) && half <= 255 ==> m.halfmove == half,
        fs.len() > 5 && fs[5] == decimal(full) && full <= 65535 ==> m.fullmove == full,
        fs.len() <= 4 || number(fs[4], 255) is None ==> m.halfmove == 0,
        fs.len() <= 5 || number(fs[5], 65535) is None ==> m.fullmove == 1,
{
    law_decimal(half, 255);
    law_decimal(full, 65535);
    lemma_small_numbers();
    let dash = seq!['-'];
    lemma_dash();
    assert(seq!['w'][0] != seq!['b'][0]);
    let castling = if fs.len() > 2 {
        fs[2]
    } else {
        dash
    };
    let code = castling_code(castling)->0;
    assert(castling_code(castling) is Some);
    lemma_castling(castling);
    let black = fs.len() > 1 && fs[1] == seq!['b'];
    let ep = if fs.len() > 3 {
        en_passant_code(fs[3])->0
    } else {
        0
    };
    assert(m.state == state_word(black, code, ep));
    lemma_state(black, code, ep);
}

proof fn lemma_small_numbers()
    ensures
        number(seq!['0'], 255) == Some(0nat),
        number(seq!['1'], 65535) == Some(1nat),
        number(seq!['1'], usize::MAX as nat) == Some(1nat),
{
    law_decimal(0, 255);
    law_decimal(1, 65535);
    law_decimal(1, usize::MAX as nat);
    assert(decimal(0) =~= seq!['0']);
    assert(decimal(1) =~= seq!['1']);
}

proof fn lemma_dash()
    ensures
        !seq!['-'].contains('K'),
        !seq!['-'].contains('Q'),
        !seq!['-'].contains('k'),
        !seq!['-'].contains('q'),
{
    let dash = seq!['-'];
    assert forall|c: char| c != '-' implies !#[trigger] dash.contains(c) by {
        if dash.contains(c) {
            let i = choose|i: int| 0 <= i < dash.len() && dash[i] == c;
            assert(dash[i] == '-');
        }
    }
}

proof fn lemma_castling(s: Seq<char>)
    requires
        castling_code(s) is Some,
    ensures
        castling_code(s)->0 < 16,
        castling_code(s)->0 % 2 == 1 <==> s.contains('K'),
        (castling_code(s)->0 / 2) % 2 == 1 <==> s.contains('Q'),
        (castling_code(s)->0 / 4) % 2 == 1 <==> s.contains('k'),
        castling_code(s)->0 / 8 == 1 <==> s.contains('q'),
{
    lemma_dash();
    assert(castling_code(s)->0 == castling_set(
        s.contains('K'),
        s.contains('Q'),
        s.contains('k'),
        s.contains('q'),
    ));
}

proof fn lemma_state(black: bool, castling: nat, ep: nat)
    requires
        castling < 16,
    ensures
        ({
            let s = state_word(black, castling, ep);
            &&& (s % 2 == 1) == black
            &&& (s / 2) % 2 == castling % 2
            &&& (s / 4) % 2 == (castling / 2) % 2
            &&& (s / 8) % 2 == (castling / 4) % 2
            &&& (s / 16) % 2 == castling / 8
            &&& s / 32 == ep
        }),
{
    let s = state_word(black, castling, ep);
    assert(s / 2 == castling + 16 * ep);
    assert(s / 4 == castling / 2 + 8 * ep) by {
        assert(s / 4 == s / 2 / 2);
    }
    assert(s / 8 == castling / 4 + 4 * ep) by {
        assert(s / 8 == s / 4 / 2);
    }
    assert(s / 16 == castling / 8 + 2 * ep) by {
        assert(s / 16 == s / 8 / 2);
    }
}

// ---------------------------------------------------------------------------
// Positions to play on
// ---------------------------------------------------------------------------

/// How many squares the characters of a placement stand for; slashes for none.
pub open spec fn span_of(s: Seq<char>) -> nat
    decreases s.len(),
{
    if s.len() == 0 {
        0
    } else {
        span_of(s.drop_last()) + (if '0' <= s.last() <= '9' {
            (s.last() as u32 - 48) as nat
        } else if s.last() == '/' {
            0
        } else {
            1
        })
    }
}

proof fn lemma_span_front(s: Seq<char>)
    requires
        s.len() > 0,
    ensures
        span_of(s) == span_of(s.skip(1)) + (if '0' <= s[0] <= '9' {
            (s[0] as u32 - 48) as nat
        } else if s[0] == '/' {
            0
        } else {
            1
        }),
    decreases s.len(),
{
    if s.len() == 1 {
        assert(s.skip(1) =~= Seq::empty());
        assert(s.drop_last() =~= Seq::empty());
    } else {
        let init = s.drop_last();
        lemma_span_front(init);
        assert(init.skip(1) =~= s.skip(1).drop_last());
        assert(s.skip(1).last() == s.last());
    }
}

/// Filling on by one text and another.
proof fn lemma_fill(acc: Seq<u8>, a: Seq<char>, b: Seq<char>)
    requires
        fill(acc, a + b) is Some,
    ensures
        fill(acc, a) is Some,
        fill(acc, a)->0.len() == acc.len() + span_of(a),
        fill(acc, a)->0.take(acc.len() as int) == acc,
        fill(acc, a + b) == fill(fill(acc, a)->0, b),
    decreases a.len(),
{
    let s = a + b;
    if a.len() == 0 {
        assert(s =~= b);
        assert(acc.take(acc.len() as int) =~= acc);
    } else {
        let c = a[0];
        let rest = a.skip(1);
        assert(s[0] == c);
        assert(s.skip(1) =~= rest + b);
        lemma_span_front(a);
        let next = if c == '/' {
            acc
        } else if is_digit(c) {
            acc + blanks(digit_value(c))
        } else {
            acc.push(piece_code(c)->0)
        };
        lemma_fill(next, rest, b);
        let v = fill(acc, a)->0;
        assert(v.take(acc.len() as int) =~= v.take(next.len() as int).take(acc.len() as int));
        assert(next.take(acc.len() as int) =~= acc);
    }
}

/// The pieces of a position stand where its placement says: a letter on the square
/// behind those that the characters before it stand for, and no piece on the squares of
/// a digit. The squares are counted from a8 along the ranks.
pub proof fn law_pieces_stand_where_they_are_set(
    fs: Seq<Seq<char>>,
    m: BoardModel,
    pre: Seq<char>,
    c: char,
    post: Seq<char>,
)
    requires
        read_board(fs) == Some(m),
        fs[0] == pre + seq![c] + post,
    ensures
        m.squares.len() == 64,
        c == '/' || fits_a_rank(c),
        code_of_letter(c) != 0 ==> span_of(pre) < 64 && m.squares[span_of(pre) as int]
            == code_of_letter(c),
        '0' <= c <= '9' ==> forall|j: int|
            0 <= j < c as u32 - 48 && span_of(pre) + j < 64 ==> #[trigger] m.squares[span_of(pre)
                + j] == 0,
{
    let none = Seq::<u8>::empty();
    let one = seq![c];
    lemma_fill(none, pre + one, post);
    lemma_fill(none, pre, one);
    lemma_letter(c);
    let before = fill(none, pre)->0;
    let n = span_of(pre) as int;
    let with = fill(none, pre + one)->0;
    assert(one.skip(1) =~= Seq::empty());
    assert(one[0] == c && one.len() == 1);
    let all = fill(none, fs[0])->0;
    assert(Some(with) == fill(before, one));
    lemma_fill(with, post, Seq::empty());
    assert(post + Seq::<char>::empty() =~= post);
    assert(all.take(with.len() as int) == with);
    assert forall|j: int| 0 <= j < with.len() && j < 64 implies #[trigger] m.squares[j]
        == with[j] by {
        assert(all.take(with.len() as int)[j] == all[j]);
    }
    if code_of_letter(c) != 0 {
        assert(fill(before.push(code_of_letter(c)), one.skip(1)) == Some(
            before.push(code_of_letter(c)),
        ));
        assert(with[n] == code_of_letter(c));
    }
    if '0' <= c <= '9' {
        let more = before + blanks(digit_value(c));
        assert(fill(more, one.skip(1)) == Some(more));
        assert(with =~= more);
    }
}

/// A position has the side to move, each castling right, the en-passant square and the
/// clocks of the fields behind its placement. What is left out is white, no right, no
/// square, 0 and 1.
pub proof fn law_state_of_a_position(fs: Seq<Seq<char>>, m: BoardModel, half: nat, full: nat)
    requires
        read_board(fs) == Some(m),
    ensures
        m.black <==> fs.len() > 1 && fs[1] == seq!['b'],
        m.castling % 2 == 1 <==> fs.len() > 2 && fs[2].contains('K'),
        (m.castling / 2) % 2 == 1 <==> fs.len() > 2 && fs[2].contains('Q'),
        (m.castling / 4) % 2 == 1 <==> fs.len() > 2 && fs[2].contains('k'),
        m.castling / 8 == 1 <==> fs.len() > 2 && fs[2].contains('q'),
        fs.len() <= 3 || fs[3] == seq!['-'] ==> m.ep is None,
        fs.len() > 3 && fs[3].len() == 2 && 'a' <= fs[3][0] <= 'h' && '1' <= fs[3][1] <= '8' ==> m.ep
            == Some(((56 - fs[3][1] as u32) * 8 + (fs[3][0] as u32 - 97)) as nat),
        fs.len() > 4 && fs[4] == decimal(half) && half <= 255 ==> m.halfmove == half,
        fs.len() > 5 && fs[5] == decimal(full) && full <= usize::MAX ==> m.fullmove == full,
        fs.len() <= 4 || number(fs[4], 255) is None ==> m.halfmove == 0,
        fs.len() <= 5 || number(fs[5], usize::MAX as nat) is None ==> m.fullmove == 1,
{
    law_decimal(half, 255);
    law_decimal(full, usize::MAX as nat);
    lemma_small_numbers();
    let dash = seq!['-'];
    lemma_dash();
    assert(seq!['w'][0] != seq!['b'][0]);
    lemma_utf8_ascii(dash);
    if fs.len() > 3 && fs[3].len() == 2 && 'a' <= fs[3][0] <= 'h' && '1' <= fs[3][1] <= '8' {
        lemma_utf8_ascii(fs[3]);
        assert(utf8(fs[3])[0] == fs[3][0] as u8 && utf8(fs[3])[1] == fs[3][1] as u8);
    }
}

// ---------------------------------------------------------------------------
// FENs that are written
// ---------------------------------------------------------------------------

/// Whether empty squares are counted together: no two digits are neighbours, and none is
/// zero.
pub open spec fn counts_together(s: Seq<char>) -> bool {
    &&& forall|i: int|
        0 <= i < s.len() - 1 && '0' <= #[trigger] s[i] <= '9' ==> !('0' <= s[i + 1] <= '9')
    &&& forall|i: int| 0 <= i < s.len() ==> #[trigger] s[i] != '0'
}

/// The place of a letter among the castling rights.
pub open spec fn place_of_right(c: char) -> int {
    if c == 'K' {
        0
    } else if c == 'Q' {
        1
    } else if c == 'k' {
        2
    } else if c == 'q' {
        3
    } else {
        4
    }
}

proof fn lemma_rank_counts(cells: Seq<u8>, run: nat)
    requires
        run + cells.len() <= 8,
        forall|i: int| 0 <= i < cells.len() ==> #[trigger] cells[i] <= 12,
    ensures
        counts_together(rank_text(cells, run)),
    decreases cells.len(),
{
    lemma_run(run);
    if cells.len() > 0 {
        let rest = cells.skip(1);
        assert forall|i: int| 0 <= i < rest.len() implies #[trigger] rest[i] <= 12 by {
            assert(rest[i] == cells[i + 1]);
        }
        if cells[0] == 0 {
            lemma_rank_counts(rest, run + 1);
        } else {
            lemma_rank_counts(rest, 0);
            lemma_letter_text(cells[0]);
            lemma_counts_go_on(run_text(run), letter_text(cells[0]), rank_text(rest, 0));
        }
    }
}

proof fn lemma_letter_text(code: u8)
    requires
        1 <= code <= 12,
    ensures
        letter_text(code).len() == 1,
        !('0' <= letter_text(code)[0] <= '9'),
{
}

proof fn lemma_counts_go_on(a: Seq<char>, b: Seq<char>, c: Seq<char>)
    requires
        a.len() <= 1,
        a.len() == 1 ==> '1' <= a[0] <= '9',
        b.len() == 1,
        !('0' <= b[0] <= '9'),
        counts_together(c),
    ensures
        counts_together(a + b + c),
{
    let t = a + b + c;
    assert forall|i: int| 0 <= i < t.len() - 1 && '0' <= #[trigger] t[i] <= '9' implies !('0'
        <= t[i + 1] <= '9') by {
        if i > a.len() {
            assert(t[i] == c[i - a.len() - 1]);
            assert(t[i + 1] == c[i - a.len()]);
        }
    }
    assert forall|i: int| 0 <= i < t.len() implies #[trigger] t[i] != '0' by {
        if i > a.len() {
            assert(t[i] == c[i - a.len() - 1]);
        }
    }
}

proof fn lemma_run(run: nat)
    requires
        run <= 8,
    ensures
        run_text(run).len() <= 1,
        run > 0 ==> run_text(run).len() == 1 && '1' <= run_text(run)[0] <= '9',
{
}

/// The FEN of a position has six fields with a space between neighbours: the ranks with
/// their empty squares counted together, the castling rights in the order of white and
/// black, king side first, and the clocks as plain numbers.
pub proof fn law_fen_is_plain(m: FenModel)
    requires
        fen_model(m),
    ensures
        ({
            let fs = fields(fen_text(m));
            &&& fs.len() == 6
            &&& fen_text(m) == joined(fs, seq![' '])
            &&& pieces(fs[0], '/').len() == 8
            &&& forall|r: int| 0 <= r < 8 ==> counts_together(#[trigger] pieces(fs[0], '/')[r])
            &&& forall|i: int, j: int|
                0 <= i < j < fs[2].len() ==> place_of_right(#[trigger] fs[2][i]) < place_of_right(
                    #[trigger] fs[2][j],
                )
            &&& fs[2].len() > 0
            &&& fs[4] == decimal(m.halfmove)
            &&& fs[5] == decimal(m.fullmove)
        }),
{
    lemma_fen_fields(m);
    reveal(fen_text);
    let ranks = rank_texts(m.cells);
    assert forall|r: int| 0 <= r < 8 implies counts_together(#[trigger] ranks[r]) by {
        let cells = m.cells.subrange(8 * r, 8 * r + 8);
        assert forall|i: int| 0 <= i < cells.len() implies #[trigger] cells[i] <= 12 by {
            assert(cells[i] == m.cells[8 * r + i]);
        }
        lemma_rank_counts(cells, 0);
    }
}

} // verus!
