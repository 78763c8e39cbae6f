//! What a move does to a position, told from the squares that its text names.

use vstd::prelude::*;

use crate::position::{board_ok, kept_rights, moved_squares, san, step, step_safe, BoardModel};
use crate::text::utf8;

verus! {

/// Whether a text starts with the names of two squares, as `e2e4` does. Squares are
/// counted from a8 along the ranks.
pub open spec fn names_move(s: Seq<char>, from: int, to: int) -> bool {
    let b = utf8(s);
    &&& b.len() >= 4
    &&& 97 <= b[0] <= 104
    &&& 49 <= b[1] <= 56
    &&& 97 <= b[2] <= 104
    &&& 49 <= b[3] <= 56
    &&& from == (56 - b[1]) * 8 + (b[0] - 97)
    &&& to == (56 - b[3]) * 8 + (b[2] - 97)
}

/// Whether a text of five bytes ends with one of two.
pub open spec fn ends_with(s: Seq<char>, small: u8, capital: u8) -> bool {
    utf8(s).len() == 5 && (utf8(s)[4] == small || utf8(s)[4] == capital)
}

/// Whether a text asks for a promotion: to a queen, a rook, a bishop or a knight.
pub open spec fn asks_promotion(s: Seq<char>) -> bool {
    ends_with(s, 113, 81) || ends_with(s, 114, 82) || ends_with(s, 98, 66) || ends_with(s, 110, 78)
}

/// Whether a move of a piece is castling: a king goes from the e-file to the g- or
/// the c-file.
pub open spec fn castles(code: u8, from: int, to: int) -> bool {
    (code == 6 || code == 12) && from % 8 == 4 && (to % 8 == 6 || to % 8 == 2)
}

/// The square whose pawn a pawn takes that goes to the en-passant square.
pub open spec fn passed_pawn(code: u8, to: int) -> int {
    if code == 1 {
        to + 8
    } else {
        to - 8
    }
}

/// The piece that moved stands on the target square with the colour that it had, and
/// where the text asks for a promotion it is of the kind that is named, else what it
/// was. The square that it left is empty.
pub proof fn law_piece_arrives(m: BoardModel, s: Seq<char>, from: int, to: int)
    requires
        board_ok(m),
        names_move(s, from, to),
        m.squares[from] != 0,
        step_safe(m, s),
    ensures
        ({
            let code = m.squares[from];
            let now = step(m, s).squares;
            &&& now.len() == 64
            &&& now[to] != 0
            &&& now[to] >= 7 <==> code >= 7
            &&& ends_with(s, 113, 81) ==> now[to] == 5 || now[to] == 11
            &&& ends_with(s, 114, 82) ==> now[to] == 4 || now[to] == 10
            &&& ends_with(s, 98, 66) ==> now[to] == 3 || now[to] == 9
            &&& ends_with(s, 110, 78) ==> now[to] == 2 || now[to] == 8
            &&& !asks_promotion(s) ==> now[to] == code
            &&& from != to ==> now[from] == 0
        }),
{
    reveal(moved_squares);
}

/// A move touches the two squares that it names, the pawn that is taken en passant
/// and the rook that castles: every other square stays as it was. The pawn is gone,
/// and the rook stands on the other side of the king.
pub proof fn law_rest_of_the_board(m: BoardModel, s: Seq<char>, from: int, to: int, sq: int)
    requires
        board_ok(m),
        names_move(s, from, to),
        m.squares[from] != 0,
        step_safe(m, s),
        0 <= sq < 64,
        sq != from,
        sq != to,
    ensures
        ({
            let code = m.squares[from];
            let row = from - from % 8;
            let now = step(m, s).squares;
            let en_passant = (code == 1 || code == 7) && m.ep == Some(to as nat);
            if en_passant && sq == passed_pawn(code, to) {
                now[sq] == 0
            } else if castles(code, from, to) && to % 8 == 6 && sq == row + 5 {
                now[sq] == m.squares[row + 7]
            } else if castles(code, from, to) && to % 8 == 6 && sq == row + 7 {
                now[sq] == 0
            } else if castles(code, from, to) && to % 8 == 2 && sq == row + 3 {
                now[sq] == m.squares[row]
            } else if castles(code, from, to) && to % 8 == 2 && sq == row {
                now[sq] == 0
            } else {
                now[sq] == m.squares[sq]
            }
        }),
{
    reveal(moved_squares);
    assert(from / 8 * 8 == from - from % 8);
}

/// A castling right is held after a move if and only if it was held before, the king
/// of its side did not move, and the corner of its rook was neither left nor reached.
/// The rights are those of the kings of white and black, king side and queen side.
pub proof fn law_castling_rights(m: BoardModel, s: Seq<char>, from: int, to: int)
    requires
        board_ok(m),
        names_move(s, from, to),
        m.squares[from] != 0,
    ensures
        ({
            let code = m.squares[from];
            let was = m.castling;
            let now = step(m, s).castling;
            &&& now < 16
            &&& now % 2 == 1 <==> was % 2 == 1 && code != 6 && from != 63 && to != 63
            &&& (now / 2) % 2 == 1 <==> (was / 2) % 2 == 1 && code != 6 && from != 56 && to != 56
            &&& (now / 4) % 2 == 1 <==> (was / 4) % 2 == 1 && code != 12 && from != 7 && to != 7
            &&& now / 8 == 1 <==> was / 8 == 1 && code != 12 && from != 0 && to != 0
        }),
{
    reveal(kept_rights);
}

/// After a move the other side is to move. A pawn that went two ranks leaves the
/// square between as the en-passant square, and nothing else does. The halfmove clock
/// is zero after a move of a pawn or onto a square that was not empty, and one more
/// after every other; the move number is one more after a move of black.
pub proof fn law_clocks_go_on(m: BoardModel, s: Seq<char>, from: int, to: int)
    requires
        board_ok(m),
        names_move(s, from, to),
        m.squares[from] != 0,
    ensures
        ({
            let code = m.squares[from];
            let pawn = code == 1 || code == 7;
            let now = step(m, s);
            &&& now.black == !m.black
            &&& pawn && to == from + 16 ==> now.ep == Some((from + 8) as nat)
            &&& pawn && to == from - 16 ==> now.ep == Some((from - 8) as nat)
            &&& !pawn || (to != from + 16 && to != from - 16) ==> now.ep is None
            &&& pawn || m.squares[to] != 0 ==> now.halfmove == 0
            &&& !pawn && m.squares[to] == 0 ==> now.halfmove == m.halfmove + 1
            &&& m.black ==> now.fullmove == m.fullmove + 1
            &&& !m.black ==> now.fullmove == m.fullmove
        }),
{
}

/// A text that is shorter than two squares, or that names an empty square first, is
/// no move: it changes nothing and stands for itself.
pub proof fn law_other_texts(m: BoardModel, s: Seq<char>, from: int, to: int)
    requires
        board_ok(m),
    ensures
        utf8(s).len() < 4 ==> step(m, s) == m && san(m, s) == s,
        names_move(s, from, to) && m.squares[from] == 0 ==> step(m, s) == m && san(m, s) == s,
{
}

} // verus!
