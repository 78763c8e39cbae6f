//! What the notation of a move tells, and when a king is in check, told from the
//! coordinates of squares.

use vstd::prelude::*;

use crate::playing::{asks_promotion, castles, ends_with, names_move};
use crate::position::{
    attacks, board_ok, check_sign, file_char, first_code, has_legal_move, has_rival, hint, in_check,
    is_legal, king_code, line_len, moved, on_line, path_clear, promotion, rank_char, rival,
    rival_on_file, rival_on_rank, san, san_body, step, threatens, towards, BoardModel,
};
use crate::text::utf8;

verus! {

// ---------------------------------------------------------------------------
// Attacks
// ---------------------------------------------------------------------------

/// How far two squares are apart in ranks.
pub open spec fn ranks_apart(a: int, b: int) -> int {
    if a / 8 >= b / 8 {
        a / 8 - b / 8
    } else {
        b / 8 - a / 8
    }
}

/// How far two squares are apart in files.
pub open spec fn files_apart(a: int, b: int) -> int {
    if a % 8 >= b % 8 {
        a % 8 - b % 8
    } else {
        b % 8 - a % 8
    }
}

/// Whether a square lies on a rank or file between two squares of it.
pub open spec fn stands_between(a: int, b: int, sq: int) -> bool {
    &&& a < sq < b || b < sq < a
    &&& (a / 8 == b / 8 && sq / 8 == a / 8) || (a % 8 == b % 8 && sq % 8 == a % 8)
}

/// Whether a square lies on a diagonal between two squares of it.
pub open spec fn slants_between(a: int, b: int, sq: int) -> bool {
    &&& a / 8 < sq / 8 < b / 8 || b / 8 < sq / 8 < a / 8
    &&& ranks_apart(a, sq) == files_apart(a, sq)
    &&& ranks_apart(sq, b) == files_apart(sq, b)
}

/// Whether two squares share a rank or a file with nothing between them.
pub open spec fn sees_straight(squares: Seq<u8>, a: int, b: int) -> bool {
    &&& a / 8 == b / 8 || a % 8 == b % 8
    &&& forall|sq: int|
        0 <= sq < 64 && #[trigger] stands_between(a, b, sq) ==> squares[sq] == 0
}

/// Whether two squares share a diagonal with nothing between them.
pub open spec fn sees_slanted(squares: Seq<u8>, a: int, b: int) -> bool {
    &&& ranks_apart(a, b) == files_apart(a, b)
    &&& forall|sq: int|
        0 <= sq < 64 && #[trigger] slants_between(a, b, sq) ==> squares[sq] == 0
}

/// Whether the piece on a square attacks another square, as the rules of chess have
/// it: white pawns one rank up, black ones one rank down, to the files beside theirs.
pub open spec fn hits_square(squares: Seq<u8>, a: int, b: int) -> bool {
    let code = squares[a];
    if code == 1 {
        b / 8 == a / 8 - 1 && files_apart(a, b) == 1
    } else if code == 7 {
        b / 8 == a / 8 + 1 && files_apart(a, b) == 1
    } else if code == 2 || code == 8 {
        (ranks_apart(a, b) == 1 && files_apart(a, b) == 2) || (ranks_apart(a, b) == 2
            && files_apart(a, b) == 1)
    } else if code == 3 || code == 9 {
        sees_slanted(squares, a, b)
    } else if code == 4 || code == 10 {
        sees_straight(squares, a, b)
    } else if code == 5 || code == 11 {
        sees_straight(squares, a, b) || sees_slanted(squares, a, b)
    } else {
        ranks_apart(a, b) <= 1 && files_apart(a, b) <= 1
    }
}

/// A square on a rank or file between two others is one of those on the way.
proof fn lemma_on_the_way(a: int, b: int, sq: int)
    requires
        0 <= a < 64,
        0 <= b < 64,
        0 <= sq < 64,
        stands_between(a, b, sq),
    ensures
        ({
            let k = if a / 8 == b / 8 {
                files_apart(a, sq)
            } else {
                ranks_apart(a, sq)
            };
            0 < k < line_len(a, b) && on_line(a, b, k) == sq
        }),
{
}

/// So is a square on a diagonal between two others.
proof fn lemma_on_the_slant(a: int, b: int, sq: int)
    requires
        0 <= a < 64,
        0 <= b < 64,
        0 <= sq < 64,
        ranks_apart(a, b) == files_apart(a, b),
        slants_between(a, b, sq),
    ensures
        0 < ranks_apart(a, sq) < line_len(a, b),
        on_line(a, b, ranks_apart(a, sq)) == sq,
{
}

/// A square on the way lies between the ends.
proof fn lemma_way_between(a: int, b: int, k: int)
    requires
        0 <= a < 64,
        0 <= b < 64,
        0 < k < line_len(a, b),
    ensures
        a / 8 == b / 8 || a % 8 == b % 8 ==> 0 <= on_line(a, b, k) < 64 && stands_between(
            a,
            b,
            on_line(a, b, k),
        ),
        ranks_apart(a, b) == files_apart(a, b) ==> 0 <= on_line(a, b, k) < 64 && slants_between(
            a,
            b,
            on_line(a, b, k),
        ),
{
    let r = towards(a / 8, b / 8, k);
    let f = towards(a % 8, b % 8, k);
    if a / 8 == b / 8 || a % 8 == b % 8 || ranks_apart(a, b) == files_apart(a, b) {
        assert(0 <= r < 8 && 0 <= f < 8);
        assert((r * 8 + f) / 8 == r && (r * 8 + f) % 8 == f);
    }
}

/// Nothing stands on the way if and only if nothing stands between.
proof fn lemma_clear(squares: Seq<u8>, a: int, b: int)
    requires
        squares.len() == 64,
        0 <= a < 64,
        0 <= b < 64,
    ensures
        a / 8 == b / 8 || a % 8 == b % 8 ==> path_clear(squares, a, b) == sees_straight(
            squares,
            a,
            b,
        ),
        ranks_apart(a, b) == files_apart(a, b) ==> path_clear(squares, a, b) == sees_slanted(
            squares,
            a,
            b,
        ),
{
    if path_clear(squares, a, b) {
        if a / 8 == b / 8 || a % 8 == b % 8 {
            assert forall|sq: int| 0 <= sq < 64 && #[trigger] stands_between(a, b, sq) implies
                squares[sq] == 0 by {
                lemma_on_the_way(a, b, sq);
            }
        }
        if ranks_apart(a, b) == files_apart(a, b) {
            assert forall|sq: int| 0 <= sq < 64 && #[trigger] slants_between(a, b, sq) implies
                squares[sq] == 0 by {
                lemma_on_the_slant(a, b, sq);
            }
        }
    } else {
        let k = choose|k: int|
            0 < k < line_len(a, b) && squares[#[trigger] on_line(a, b, k)] != 0;
        lemma_way_between(a, b, k);
    }
}

/// A piece attacks a square if and only if it does so by the rules of chess: knights
/// jump, kings go one square, and bishops, rooks and queens see as far as nothing
/// stands between.
pub proof fn law_attacks(squares: Seq<u8>, a: int, b: int)
    requires
        squares.len() == 64,
        0 <= a < 64,
        0 <= b < 64,
        1 <= squares[a] <= 12,
    ensures
        attacks(squares, a, b) == hits_square(squares, a, b),
{
    lemma_clear(squares, a, b);
}

/// A king is in check if and only if a piece of the other colour attacks it; a side
/// without a king never is.
pub proof fn law_in_check(squares: Seq<u8>, black: bool, king: int)
    requires
        squares.len() == 64,
        forall|i: int| 0 <= i < 64 ==> #[trigger] squares[i] <= 12,
    ensures
        0 <= king < 64 && squares[king] == (if black {
            12u8
        } else {
            6u8
        }) && (forall|i: int|
            0 <= i < king ==> #[trigger] squares[i] != squares[king]) ==> (in_check(squares, black)
            <==> exists|a: int|
            0 <= a < 64 && squares[a] != 0 && (squares[a] >= 7) != black && #[trigger] hits_square(
                squares,
                a,
                king,
            )),
        (forall|i: int|
            0 <= i < 64 ==> #[trigger] squares[i] != (if black {
                12u8
            } else {
                6u8
            })) ==> !in_check(squares, black),
{
    let code = king_code(black);
    lemma_first_code(squares, code, 0);
    if 0 <= king < 64 && squares[king] == code && (forall|i: int|
        0 <= i < king ==> #[trigger] squares[i] != squares[king]) {
        let k = first_code(squares, code, 0)->0 as int;
        assert(k == king);
        if in_check(squares, black) {
            let a = choose|a: int| 0 <= a < 64 && #[trigger] threatens(squares, black, a, king);
            law_attacks(squares, a, king);
            assert(hits_square(squares, a, king));
        }
        if exists|a: int|
            0 <= a < 64 && squares[a] != 0 && (squares[a] >= 7) != black && #[trigger] hits_square(
                squares,
                a,
                king,
            ) {
            let a = choose|a: int|
                0 <= a < 64 && squares[a] != 0 && (squares[a] >= 7) != black
                    && #[trigger] hits_square(squares, a, king);
            law_attacks(squares, a, king);
            assert(threatens(squares, black, a, king));
        }
    }
}

proof fn lemma_first_code(squares: Seq<u8>, code: u8, i: nat)
    ensures
        match first_code(squares, code, i) {
            Some(k) => i <= k < squares.len() && squares[k as int] == code && forall|j: int|
                i <= j < k ==> #[trigger] squares[j] != code,
            None => forall|j: int| i <= j < squares.len() ==> #[trigger] squares[j] != code,
        },
    decreases squares.len() - i,
{
    if i < squares.len() {
        lemma_first_code(squares, code, i + 1);
    }
}

// ---------------------------------------------------------------------------
// Moves that the rules allow
// ---------------------------------------------------------------------------

/// Whether a piece of the side to move can go to a square by the rules of chess,
/// castling and the safety of its king aside: pawns go ahead to empty squares, two
/// from where they start, and to the side where they take.
pub open spec fn can_go(m: BoardModel, a: int, b: int) -> bool {
    let code = m.squares[a];
    let takes = m.squares[b] != 0 || m.ep == Some(b as nat);
    &&& code != 0 && (code >= 7) == m.black
    &&& m.squares[b] == 0 || (m.squares[b] >= 7) != m.black
    &&& if code == 1 {
        ||| b == a - 8 && m.squares[b] == 0
        ||| b == a - 16 && a / 8 == 6 && m.squares[a - 8] == 0 && m.squares[b] == 0
        ||| hits_square(m.squares, a, b) && takes
    } else if code == 7 {
        ||| b == a + 8 && m.squares[b] == 0
        ||| b == a + 16 && a / 8 == 1 && m.squares[a + 8] == 0 && m.squares[b] == 0
        ||| hits_square(m.squares, a, b) && takes
    } else {
        hits_square(m.squares, a, b)
    }
}

/// A move is legal if and only if the piece can go there by the rules of chess and its
/// king is not in check afterwards.
pub proof fn law_legal_moves(m: BoardModel, a: int, b: int)
    requires
        board_ok(m),
        0 <= a < 64,
        0 <= b < 64,
    ensures
        is_legal(m, a, b) <==> can_go(m, a, b) && !in_check(
            moved(m, a, b, None).squares,
            m.black,
        ),
{
    if m.squares[a] != 0 {
        law_attacks(m.squares, a, b);
    }
}

/// A move gives check where its notation ends with a plus or a hash sign: with the
/// hash sign if and only if no move that the rules allow takes the king out of check.
/// A move that gives no check has neither.
pub proof fn law_signs(m: BoardModel, s: Seq<char>, from: int, to: int)
    requires
        board_ok(m),
        board_ok(step(m, s)),
        names_move(s, from, to),
        m.squares[from] != 0,
    ensures
        ({
            let next = step(m, s);
            let check = in_check(next.squares, next.black);
            let t = san(m, s);
            &&& t.contains('+') || t.contains('#') <==> check
            &&& t.contains('#') <==> check && forall|a: int, b: int|
                0 <= a < 64 && 0 <= b < 64 && can_go(next, a, b) ==> in_check(
                    (#[trigger] moved(next, a, b, None)).squares,
                    next.black,
                )
            &&& t.contains('+') ==> t.last() == '+'
            &&& t.contains('#') ==> t.last() == '#'
        }),
{
    let next = step(m, s);
    let check = in_check(next.squares, next.black);
    let body = san_body(m, from, to, promotion(utf8(s)));
    let sign = check_sign(next);
    lemma_body_plain(m, from, to, promotion(utf8(s)));
    let t = san(m, s);
    assert(t == body + sign);
    if sign.len() > 0 {
        assert(t.last() == sign[0]);
        assert(t[t.len() - 1] == sign[0]);
    }
    assert forall|c: char| c == '+' || c == '#' implies t.contains(c) == (sign == seq![c]) by {
        if t.contains(c) {
            let i = choose|i: int| 0 <= i < t.len() && t[i] == c;
            if i < body.len() {
                assert(body[i] == c);
            } else {
                assert(sign[i - body.len()] == c);
                assert(sign =~= seq![c]);
            }
        }
        if sign == seq![c] {
            assert(t[body.len() as int] == c);
        }
    }
    assert(seq!['+'][0] != seq!['#'][0]);
    assert(t.contains('+') == (sign == seq!['+']));
    assert(t.contains('#') == (sign == seq!['#']));
    if has_legal_move(next) {
        let (a, b) = choose|a: int, b: int|
            0 <= a < 64 && 0 <= b < 64 && #[trigger] is_legal(next, a, b);
        law_legal_moves(next, a, b);
        assert(!in_check(moved(next, a, b, None).squares, next.black));
    } else {
        assert forall|a: int, b: int|
            0 <= a < 64 && 0 <= b < 64 && can_go(next, a, b) implies in_check(
            (#[trigger] moved(next, a, b, None)).squares,
            next.black,
        ) by {
            law_legal_moves(next, a, b);
            assert(!is_legal(next, a, b));
        }
    }
}

/// No sign stands in the notation before the end.
proof fn lemma_body_plain(m: BoardModel, from: int, to: int, promo: Option<int>)
    requires
        0 <= from < 64,
        0 <= to < 64,
    ensures
        forall|i: int|
            0 <= i < san_body(m, from, to, promo).len() ==> {
                let c = #[trigger] san_body(m, from, to, promo)[i];
                c != '+' && c != '#'
            },
{
    reveal_strlit("O-O");
    reveal_strlit("O-O-O");
    lemma_square_chars(from);
    lemma_square_chars(to);
}

/// The characters of the name of a square.
proof fn lemma_square_chars(sq: int)
    requires
        0 <= sq < 64,
    ensures
        'a' <= file_char(sq) <= 'h',
        '1' <= rank_char(sq) <= '8',
        file_char(sq) as u32 == 97 + sq % 8,
        rank_char(sq) as u32 == 56 - sq / 8,
{
}

// ---------------------------------------------------------------------------
// The parts of the notation
// ---------------------------------------------------------------------------

/// A notation without the sign of a check or a mate.
pub open spec fn unsigned(t: Seq<char>) -> Seq<char> {
    if t.len() > 0 && (t.last() == '+' || t.last() == '#') {
        t.drop_last()
    } else {
        t
    }
}

proof fn lemma_unsigned(m: BoardModel, s: Seq<char>, from: int, to: int)
    requires
        names_move(s, from, to),
        m.squares[from] != 0,
    ensures
        unsigned(san(m, s)) == san_body(m, from, to, promotion(utf8(s))),
{
    let body = san_body(m, from, to, promotion(utf8(s)));
    let sign = check_sign(step(m, s));
    lemma_body_plain(m, from, to, promotion(utf8(s)));
    reveal_strlit("O-O");
    reveal_strlit("O-O-O");
    assert(body.len() > 0);
    assert(san(m, s) == body + sign);
    if sign.len() > 0 {
        assert((body + sign).drop_last() =~= body);
    } else {
        assert(body + sign =~= body);
        assert(body.last() == body[body.len() - 1]);
    }
}

/// The squares of a text are named by its characters.
proof fn lemma_names(s: Seq<char>, from: int, to: int)
    requires
        names_move(s, from, to),
    ensures
        0 <= from < 64,
        0 <= to < 64,
        file_char(from) == utf8(s)[0] as char,
        rank_char(from) == utf8(s)[1] as char,
        file_char(to) == utf8(s)[2] as char,
        rank_char(to) == utf8(s)[3] as char,
{
    let b = utf8(s);
    assert(from % 8 == b[0] - 97 && from / 8 == 56 - b[1]);
    assert(to % 8 == b[2] - 97 && to / 8 == 56 - b[3]);
}

/// The notation of a move of a piece other than a pawn, castling aside: it starts with
/// the letter of the piece and ends with the target square. An `x` stands before that
/// square if and only if something stood on it, whatever the piece. What is left
/// between, if anything, names the file or the rank of the piece or both, and then
/// there is another such piece.
pub proof fn law_piece_notation(m: BoardModel, s: Seq<char>, from: int, to: int)
    requires
        board_ok(m),
        names_move(s, from, to),
        m.squares[from] != 0,
        m.squares[from] != 1,
        m.squares[from] != 7,
        !castles(m.squares[from], from, to),
    ensures
        ({
            let code = m.squares[from];
            let b = utf8(s);
            let t = unsigned(san(m, s));
            let n = t.len();
            let taken = m.squares[to] != 0;
            let rest = t.subrange(
                1,
                n - (if taken {
                    3int
                } else {
                    2
                }),
            );
            &&& n >= 3
            &&& code == 2 || code == 8 ==> t[0] == 'N'
            &&& code == 3 || code == 9 ==> t[0] == 'B'
            &&& code == 4 || code == 10 ==> t[0] == 'R'
            &&& code == 5 || code == 11 ==> t[0] == 'Q'
            &&& code == 6 || code == 12 ==> t[0] == 'K'
            &&& t[n - 2] == b[2] as char
            &&& t[n - 1] == b[3] as char
            &&& san(m, s).contains('x') <==> taken
            &&& taken ==> n >= 4 && t[n - 3] == 'x'
            &&& rest == Seq::<char>::empty() || rest == seq![b[0] as char] || rest
                == seq![b[1] as char] || rest == seq![b[0] as char, b[1] as char]
            &&& rest.len() > 0 ==> exists|sq: int|
                0 <= sq < 64 && sq != from && #[trigger] m.squares[sq] == code
        }),
{
    lemma_unsigned(m, s, from, to);
    lemma_names(s, from, to);
    lemma_x(m, s, from, to);
    lemma_piece_body(m, from, to, promotion(utf8(s)));
    lemma_hint(m, from, to);
    lemma_parts_of_body(
        piece_name(m.squares[from]),
        hint(m, from, to),
        m.squares[to] != 0,
        utf8(s),
    );
}

/// The letter of a piece other than a pawn.
spec fn piece_name(code: u8) -> char {
    if code == 2 || code == 8 {
        'N'
    } else if code == 3 || code == 9 {
        'B'
    } else if code == 4 || code == 10 {
        'R'
    } else if code == 5 || code == 11 {
        'Q'
    } else {
        'K'
    }
}

/// The parts of a notation, put together.
spec fn assembled(letter: char, h: Seq<char>, taken: bool, file: char, rank: char) -> Seq<char> {
    seq![letter] + h + (if taken {
        seq!['x']
    } else {
        Seq::empty()
    }) + seq![file, rank]
}

proof fn lemma_piece_body(m: BoardModel, from: int, to: int, promo: Option<int>)
    requires
        board_ok(m),
        0 <= from < 64,
        0 <= to < 64,
        m.squares[from] != 0,
        m.squares[from] != 1,
        m.squares[from] != 7,
        !castles(m.squares[from], from, to),
    ensures
        san_body(m, from, to, promo) == assembled(
            piece_name(m.squares[from]),
            hint(m, from, to),
            m.squares[to] != 0,
            file_char(to),
            rank_char(to),
        ),
{
    let code = m.squares[from];
    assert(code <= 12);
    assert(san_body(m, from, to, promo) =~= assembled(
        piece_name(code),
        hint(m, from, to),
        m.squares[to] != 0,
        file_char(to),
        rank_char(to),
    ));
}

/// What tells a piece from another names its file or its rank or both, and then there
/// is another.
proof fn lemma_hint(m: BoardModel, from: int, to: int)
    requires
        0 <= from < 64,
    ensures
        ({
            let h = hint(m, from, to);
            &&& h == Seq::<char>::empty() || h == seq![file_char(from)] || h
                == seq![rank_char(from)] || h == seq![file_char(from), rank_char(from)]
            &&& h.len() > 0 ==> exists|sq: int|
                0 <= sq < 64 && sq != from && #[trigger] m.squares[sq] == m.squares[from]
        }),
{
    if has_rival(m, from, to) {
        let sq = choose|sq: int| 0 <= sq < 64 && #[trigger] rival(m, from, to, sq);
        assert(m.squares[sq] == m.squares[from]);
    }
}

proof fn lemma_parts_of_body(letter: char, h: Seq<char>, taken: bool, b: Seq<u8>)
    requires
        letter != 'x',
        97 <= b[0] <= 104,
        49 <= b[1] <= 56,
        97 <= b[2] <= 104,
        49 <= b[3] <= 56,
        h == Seq::<char>::empty() || h == seq![b[0] as char] || h == seq![b[1] as char] || h == seq![
            b[0] as char,
            b[1] as char,
        ],
    ensures
        ({
            let t = assembled(letter, h, taken, b[2] as char, b[3] as char);
            let n = t.len();
            &&& n >= 3
            &&& t[0] == letter
            &&& t[n - 2] == b[2] as char
            &&& t[n - 1] == b[3] as char
            &&& t.contains('x') == taken
            &&& taken ==> n >= 4 && t[n - 3] == 'x'
            &&& t.subrange(
                1,
                n - (if taken {
                    3int
                } else {
                    2
                }),
            ) == h
        }),
{
    let t = assembled(letter, h, taken, b[2] as char, b[3] as char);
    let n = t.len();
    assert(t.subrange(
        1,
        n - (if taken {
            3int
        } else {
            2
        }),
    ) =~= h);
    if taken {
        assert(t[n - 3] == 'x');
    } else if t.contains('x') {
        let i = choose|i: int| 0 <= i < t.len() && t[i] == 'x';
        if 1 <= i < 1 + h.len() {
            assert(t[i] == h[i - 1]);
        }
    }
}

/// The sign at the end is no `x`.
proof fn lemma_x(m: BoardModel, s: Seq<char>, from: int, to: int)
    requires
        names_move(s, from, to),
        m.squares[from] != 0,
    ensures
        san(m, s).contains('x') == unsigned(san(m, s)).contains('x'),
{
    let t = san(m, s);
    let u = unsigned(t);
    if t.contains('x') {
        let i = choose|i: int| 0 <= i < t.len() && t[i] == 'x';
        assert(i < u.len());
        assert(u[i] == 'x');
    }
    if u.contains('x') {
        let i = choose|i: int| 0 <= i < u.len() && u[i] == 'x';
        assert(t[i] == 'x');
    }
}

/// The notation of a move of a pawn: where it takes, en passant or not, the file that
/// it leaves and an `x`; then the target square; then, where the text asks for a
/// promotion, an equals sign and the letter of the piece that is named.
pub proof fn law_pawn_notation(m: BoardModel, s: Seq<char>, from: int, to: int)
    requires
        board_ok(m),
        names_move(s, from, to),
        m.squares[from] == 1 || m.squares[from] == 7,
    ensures
        ({
            let b = utf8(s);
            let t = unsigned(san(m, s));
            let taken = m.squares[to] != 0 || m.ep == Some(to as nat);
            let k: int = if taken {
                2
            } else {
                0
            };
            &&& taken ==> t.len() >= 2 && t[0] == b[0] as char && t[1] == 'x'
            &&& san(m, s).contains('x') <==> taken
            &&& t.len() >= k + 2
            &&& t[k] == b[2] as char
            &&& t[k + 1] == b[3] as char
            &&& !asks_promotion(s) ==> t.len() == k + 2
            &&& asks_promotion(s) ==> t.len() == k + 4 && t[k + 2] == '='
            &&& ends_with(s, 113, 81) ==> t[k + 3] == 'Q'
            &&& ends_with(s, 114, 82) ==> t[k + 3] == 'R'
            &&& ends_with(s, 98, 66) ==> t[k + 3] == 'B'
            &&& ends_with(s, 110, 78) ==> t[k + 3] == 'N'
        }),
{
    lemma_unsigned(m, s, from, to);
    lemma_names(s, from, to);
    lemma_square_chars(from);
    lemma_square_chars(to);
    lemma_x(m, s, from, to);
    let t = unsigned(san(m, s));
    let taken = m.squares[to] != 0 || m.ep == Some(to as nat);
    assert(t.contains('x') == taken) by {
        if taken {
            assert(t[1] == 'x');
        } else if t.contains('x') {
            let i = choose|i: int| 0 <= i < t.len() && t[i] == 'x';
            assert(t[i] != 'x');
        }
    }
}

/// Castling is written with one `O` for each square between the king and the corner
/// and a dash between neighbours.
pub proof fn law_castling_notation(m: BoardModel, s: Seq<char>, from: int, to: int)
    requires
        board_ok(m),
        names_move(s, from, to),
        castles(m.squares[from], from, to),
    ensures
        to % 8 == 6 ==> unsigned(san(m, s)) == seq!['O', '-', 'O'],
        to % 8 == 2 ==> unsigned(san(m, s)) == seq!['O', '-', 'O', '-', 'O'],
{
    lemma_unsigned(m, s, from, to);
    reveal_strlit("O-O");
    reveal_strlit("O-O-O");
    if to % 8 == 6 {
        assert(unsigned(san(m, s)) =~= seq!['O', '-', 'O']);
    } else {
        assert(unsigned(san(m, s)) =~= seq!['O', '-', 'O', '-', 'O']);
    }
}

/// Whether a text moves a piece to a square that it attacks, and the king of its side
/// is not in check then.
pub open spec fn moves_soundly(m: BoardModel, s: Seq<char>, from: int, to: int) -> bool {
    &&& names_move(s, from, to)
    &&& utf8(s).len() == 4
    &&& hits_square(m.squares, from, to)
    &&& !in_check(step(m, s).squares, m.squares[from] >= 7)
}

/// Two pieces of the same kind and colour that can go to the same square are told
/// apart: the notations of the two moves differ.
pub proof fn law_pieces_are_told_apart(
    m: BoardModel,
    s: Seq<char>,
    t: Seq<char>,
    from: int,
    other: int,
    to: int,
)
    requires
        board_ok(m),
        moves_soundly(m, s, from, to),
        moves_soundly(m, t, other, to),
        from != other,
        m.squares[from] == m.squares[other],
        m.squares[from] != 0,
        m.squares[from] != 1,
        m.squares[from] != 7,
        !castles(m.squares[from], from, to),
        !castles(m.squares[from], other, to),
    ensures
        san(m, s) != san(m, t),
{
    lemma_names(s, from, to);
    lemma_names(t, other, to);
    lemma_unsigned(m, s, from, to);
    lemma_unsigned(m, t, other, to);
    law_attacks(m.squares, from, to);
    law_attacks(m.squares, other, to);
    assert(rival(m, from, to, other));
    assert(rival(m, other, to, from));
    lemma_hints_differ(m, from, other, to);
    lemma_piece_body(m, from, to, promotion(utf8(s)));
    lemma_piece_body(m, other, to, promotion(utf8(t)));
    lemma_assembled(
        piece_name(m.squares[from]),
        hint(m, from, to),
        hint(m, other, to),
        m.squares[to] != 0,
        file_char(to),
        rank_char(to),
    );
}

proof fn lemma_assembled(
    letter: char,
    h: Seq<char>,
    g: Seq<char>,
    taken: bool,
    file: char,
    rank: char,
)
    requires
        h != g,
    ensures
        assembled(letter, h, taken, file, rank) != assembled(letter, g, taken, file, rank),
{
    let a = assembled(letter, h, taken, file, rank);
    let b = assembled(letter, g, taken, file, rank);
    let n: int = if taken {
        3
    } else {
        2
    };
    assert(a.subrange(1, a.len() - n) =~= h);
    assert(b.subrange(1, b.len() - n) =~= g);
}

proof fn lemma_hints_differ(m: BoardModel, from: int, other: int, to: int)
    requires
        0 <= from < 64,
        0 <= other < 64,
        from != other,
        rival(m, from, to, other),
        rival(m, other, to, from),
    ensures
        hint(m, from, to) != hint(m, other, to),
{
    lemma_square_chars(from);
    lemma_square_chars(other);
    let h = hint(m, from, to);
    let g = hint(m, other, to);
    assert(h.len() > 0 && g.len() > 0);
    if h == g {
        assert(h[0] == g[0]);
        if h.len() == 2 {
            assert(h[1] == g[1]);
            assert(from % 8 == other % 8 && from / 8 == other / 8);
        } else if h[0] == file_char(from) {
            assert(from % 8 == other % 8);
            assert(rival(m, from, to, other) && other % 8 == from % 8);
        } else {
            assert(from / 8 == other / 8);
            assert(rival(m, from, to, other) && other / 8 == from / 8);
        }
    }
}

/// Whether another piece of the same kind and colour could go to the target too,
/// without leaving its king in check.
pub open spec fn could_go_too(m: BoardModel, from: int, to: int, sq: int) -> bool {
    &&& 0 <= sq < 64
    &&& sq != from
    &&& m.squares[sq] == m.squares[from]
    &&& hits_square(m.squares, sq, to)
    &&& !in_check(moved(m, sq, to, None).squares, m.squares[from] >= 7)
}

/// What stands between the letter of a piece and its target, the `x` aside, is as
/// short as it can be: nothing where no other such piece could go there, the file
/// where none of those stands on it, else the rank where none stands on that, else
/// both.
pub proof fn law_shortest_hint(m: BoardModel, s: Seq<char>, from: int, to: int)
    requires
        board_ok(m),
        names_move(s, from, to),
        m.squares[from] != 0,
        m.squares[from] != 1,
        m.squares[from] != 7,
        !castles(m.squares[from], from, to),
    ensures
        ({
            let b = utf8(s);
            let t = unsigned(san(m, s));
            let rest = t.subrange(
                1,
                t.len() - (if m.squares[to] != 0 {
                    3int
                } else {
                    2
                }),
            );
            let some = exists|sq: int| #[trigger] could_go_too(m, from, to, sq);
            let on_file = exists|sq: int| #[trigger]
                could_go_too(m, from, to, sq) && sq % 8 == from % 8;
            let on_rank = exists|sq: int| #[trigger]
                could_go_too(m, from, to, sq) && sq / 8 == from / 8;
            if !some {
                rest == Seq::<char>::empty()
            } else if !on_file {
                rest == seq![b[0] as char]
            } else if !on_rank {
                rest == seq![b[1] as char]
            } else {
                rest == seq![b[0] as char, b[1] as char]
            }
        }),
{
    lemma_unsigned(m, s, from, to);
    lemma_names(s, from, to);
    lemma_piece_body(m, from, to, promotion(utf8(s)));
    lemma_hint(m, from, to);
    lemma_parts_of_body(
        piece_name(m.squares[from]),
        hint(m, from, to),
        m.squares[to] != 0,
        utf8(s),
    );
    lemma_rivals(m, from, to);
}

proof fn lemma_rivals(m: BoardModel, from: int, to: int)
    requires
        board_ok(m),
        0 <= from < 64,
        0 <= to < 64,
        m.squares[from] != 0,
        m.squares[from] != 1,
        m.squares[from] != 7,
    ensures
        (exists|sq: int| #[trigger] could_go_too(m, from, to, sq)) == has_rival(m, from, to),
        (exists|sq: int| #[trigger] could_go_too(m, from, to, sq) && sq % 8 == from % 8)
            == rival_on_file(m, from, to),
        (exists|sq: int| #[trigger] could_go_too(m, from, to, sq) && sq / 8 == from / 8)
            == rival_on_rank(m, from, to),
{
    assert forall|sq: int| #[trigger] could_go_too(m, from, to, sq) == (0 <= sq < 64 && rival(
        m,
        from,
        to,
        sq,
    )) by {
        lemma_same_rival(m, from, to, sq);
    }
    assert forall|sq: int| 0 <= sq < 64 && #[trigger] rival(m, from, to, sq) implies could_go_too(
        m,
        from,
        to,
        sq,
    ) by {
        lemma_same_rival(m, from, to, sq);
    }
}

proof fn lemma_same_rival(m: BoardModel, from: int, to: int, sq: int)
    requires
        board_ok(m),
        0 <= from < 64,
        0 <= to < 64,
        m.squares[from] != 0,
        m.squares[from] != 1,
        m.squares[from] != 7,
    ensures
        could_go_too(m, from, to, sq) == (0 <= sq < 64 && rival(m, from, to, sq)),
{
    if 0 <= sq < 64 && m.squares[sq] == m.squares[from] {
        law_attacks(m.squares, sq, to);
    }
}

} // verus!
