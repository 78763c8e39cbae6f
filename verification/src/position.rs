//! Positions on which moves are made, and the standard notation of the moves.

use vstd::prelude::*;

use crate::fen::{
    castling_set, castling_text, en_passant_text, fen_fields, fen_string_of, fen_text, field_or,
    law_piece_round_trip, lemma_fen_fields, piece_code, piece_letter, piece_to_nibble, rank_text,
    rank_texts, run_text, state_word, FenModel,
};
use crate::text::{
    chars_of, digit_char, digit_value, fields, is_digit, joined, lemma_decimal_number,
    lemma_utf8_ascii, number, parse_number, split_fields, string_of, utf8, words,
};

verus! {

/// A position. The squares hold piece codes, from a8 along the ranks; 0 is empty.
pub struct BoardState {
    pub squares: Vec<u8>,
    pub black_to_move: bool,
    /// The castling rights of white and black, king side and queen side.
    pub white_king_side: bool,
    pub white_queen_side: bool,
    pub black_king_side: bool,
    pub black_queen_side: bool,
    pub ep_square: Option<u8>,
    pub halfmove: usize,
    pub fullmove: usize,
}

/// What a position says.
#[verifier::ext_equal]
pub struct BoardModel {
    pub squares: Seq<u8>,
    pub black: bool,
    pub castling: nat,
    pub ep: Option<nat>,
    pub halfmove: nat,
    pub fullmove: nat,
}

impl View for BoardState {
    type V = BoardModel;

    open spec fn view(&self) -> BoardModel {
        BoardModel {
            squares: self.squares@,
            black: self.black_to_move,
            castling: castling_set(
                self.white_king_side,
                self.white_queen_side,
                self.black_king_side,
                self.black_queen_side,
            ),
            ep: match self.ep_square {
                Some(e) => Some(e as nat),
                None => None,
            },
            halfmove: self.halfmove as nat,
            fullmove: self.fullmove as nat,
        }
    }
}

/// 64 squares with piece codes or nothing, and an en-passant square on the board.
pub open spec fn board_ok(m: BoardModel) -> bool {
    &&& m.squares.len() == 64
    &&& forall|i: int| 0 <= i < 64 ==> #[trigger] m.squares[i] <= 12
    &&& m.castling < 16
    &&& match m.ep {
        Some(e) => e < 64,
        None => true,
    }
}

// ---------------------------------------------------------------------------
// Reading
// ---------------------------------------------------------------------------

/// So many empty squares.
pub open spec fn blanks(n: nat) -> Seq<u8> {
    Seq::new(n, |i: int| 0u8)
}

/// Squares filled on by the characters of a placement: digits are empty squares,
/// slashes do not count. None where a character is no piece, or a piece comes
/// behind the last square.
pub open spec fn fill(acc: Seq<u8>, s: Seq<char>) -> Option<Seq<u8>>
    decreases s.len(),
{
    if s.len() == 0 {
        Some(acc)
    } else {
        let c = s[0];
        let rest = s.skip(1);
        if c == '/' {
            fill(acc, rest)
        } else if is_digit(c) {
            fill(acc + blanks(digit_value(c)), rest)
        } else if acc.len() >= 64 {
            None
        } else {
            match piece_code(c) {
                Some(k) => fill(acc.push(k), rest),
                None => None,
            }
        }
    }
}

/// The first 64 squares, the missing ones empty.
pub open spec fn board64(v: Seq<u8>) -> Seq<u8> {
    Seq::new(
        64,
        |i: int|
            if i < v.len() {
                v[i]
            } else {
                0
            },
    )
}

/// The en-passant square of a field of two bytes: none where they name no square.
/// Bytes below the first file or rank are a fault.
pub open spec fn ep_field(s: Seq<char>) -> Option<Option<nat>> {
    let b = utf8(s);
    if b.len() != 2 {
        Some(None)
    } else if b[0] < 97 || b[1] < 49 {
        None
    } else if b[0] < 105 && b[1] < 57 {
        Some(Some(((7 - (b[1] - 49)) * 8 + (b[0] - 97)) as nat))
    } else {
        Some(None)
    }
}

/// The position of the fields of a text. Only the placement is needed.
pub open spec fn read_board(fs: Seq<Seq<char>>) -> Option<BoardModel> {
    if fs.len() == 0 {
        None
    } else {
        let cells = fill(Seq::empty(), fs[0]);
        let castling = field_or(fs, 2, seq!['-']);
        let ep = ep_field(field_or(fs, 3, seq!['-']));
        if cells is None || ep is None {
            None
        } else {
            Some(
                BoardModel {
                    squares: board64(cells->0),
                    black: field_or(fs, 1, seq!['w']) == seq!['b'],
                    castling: castling_set(
                        castling.contains('K'),
                        castling.contains('Q'),
                        castling.contains('k'),
                        castling.contains('q'),
                    ),
                    ep: ep->0,
                    halfmove: match number(field_or(fs, 4, seq!['0']), 255) {
                        Some(n) => n,
                        None => 0,
                    },
                    fullmove: match number(field_or(fs, 5, seq!['1']), usize::MAX as nat) {
                        Some(n) => n,
                        None => 1,
                    },
                },
            )
        }
    }
}

/// Reads a placement.
fn read_squares(s: &[char]) -> (r: Option<Vec<u8>>)
    ensures
        match r {
            Some(v) => fill(Seq::empty(), s@) is Some && v@ == board64(
                fill(Seq::empty(), s@)->0,
            ) && forall|i: int| 0 <= i < 64 ==> #[trigger] v@[i] <= 12,
            None => fill(Seq::empty(), s@) is None,
        },
{
    let mut squares: Vec<u8> = Vec::new();
    for i in 0..64usize
        invariant
            squares@.len() == i,
            forall|j: int| 0 <= j < i ==> #[trigger] squares@[j] == 0,
    {
        squares.push(0);
    }
    let ghost mut acc: Seq<u8> = Seq::empty();
    let mut sq: usize = 0;
    assert(squares@ =~= board64(acc));
    assert(s@.skip(0) =~= s@);
    let mut i: usize = 0;
    while i < s.len()
        invariant
            i <= s@.len(),
            fill(Seq::empty(), s@) == fill(acc, s@.skip(i as int)),
            squares@ == board64(acc),
            sq <= 64,
            sq == acc.len() || (sq == 64 && acc.len() >= 64),
            forall|j: int| 0 <= j < 64 ==> #[trigger] squares@[j] <= 12,
        decreases s@.len() - i,
    {
        let c = s[i];
        assert(s@.skip(i as int)[0] == c);
        assert(s@.skip(i as int).skip(1) =~= s@.skip(i + 1));
        if c == '/' {
        } else if '0' <= c && c <= '9' {
            let d: usize = ((c as u8) - ('0' as u8)) as usize;
            proof {
                let more = acc + blanks(digit_value(c));
                assert(board64(more) =~= board64(acc));
                acc = more;
            }
            sq = if sq + d >= 64 {
                64
            } else {
                sq + d
            };
        } else {
            if sq >= 64 {
                return None;
            }
            match piece_to_nibble(c) {
                Ok(k) => {
                    squares.set(sq, k);
                    proof {
                        let more = acc.push(k);
                        assert(board64(more) =~= board64(acc).update(sq as int, k));
                        acc = more;
                    }
                    sq = sq + 1;
                },
                Err(_) => {
                    return None;
                },
            }
        }
        i = i + 1;
    }
    assert(s@.skip(i as int) =~= Seq::empty());
    Some(squares)
}

/// Whether a text holds a character.
fn holds_char(s: &[char], c: char) -> (r: bool)
    ensures
        r == s@.contains(c),
{
    for i in 0..s.len()
        invariant
            forall|j: int| 0 <= j < i ==> #[trigger] s@[j] != c,
    {
        if s[i] == c {
            assert(s@[i as int] == c);
            return true;
        }
    }
    false
}

/// Reads an en-passant field.
fn read_ep(s: &[char]) -> (r: Option<Option<u8>>)
    ensures
        match ep_field(s@) {
            None => r is None,
            Some(None) => r == Some(None::<u8>),
            Some(Some(e)) => r matches Some(Some(v)) && v == e && e < 64,
        },
{
    let text = string_of(s);
    let b = text.as_str().as_bytes();
    if b.len() != 2 {
        return Some(None);
    }
    if b[0] < 97 || b[1] < 49 {
        return None;
    }
    if b[0] < 105 && b[1] < 57 {
        let file: u8 = b[0] - 97;
        let rank: u8 = 7 - (b[1] - 49);
        Some(Some(rank * 8 + file))
    } else {
        Some(None)
    }
}

impl BoardState {
    /// The position is one with 64 squares.
    pub open spec fn wf(&self) -> bool {
        board_ok(self@)
    }

    /// The position of a FEN text.
    pub fn from_fen(fen: &str) -> (r: Option<Self>)
        ensures
            match r {
                Some(b) => b.wf() && read_board(fields(fen@)) == Some(b@),
                None => read_board(fields(fen@)) is None,
            },
    {
        let chars = chars_of(fen);
        let parts = split_fields(chars.as_slice());
        let ghost fs = fields(fen@);
        assert(words(parts@).len() == parts@.len());
        if parts.len() == 0 {
            return None;
        }
        assert(fs[0] == parts@[0]@);
        let squares = match read_squares(parts[0].as_slice()) {
            Some(v) => v,
            None => {
                return None;
            },
        };
        let black = if parts.len() > 1 {
            assert(fs[1] == parts@[1]@);
            let is_b = parts[1].len() == 1 && parts[1][0] == 'b';
            assert(is_b == (fs[1] == seq!['b'])) by {
                if is_b {
                    assert(fs[1] =~= seq!['b']);
                }
            }
            is_b
        } else {
            assert(seq!['w'][0] != seq!['b'][0]);
            false
        };
        let ghost cf = field_or(fs, 2, seq!['-']);
        let dash: Vec<char> = vec!['-'];
        assert(dash@ =~= seq!['-']);
        let castling: &Vec<char> = if parts.len() > 2 {
            assert(fs[2] == parts@[2]@);
            &parts[2]
        } else {
            &dash
        };
        let wk = holds_char(castling.as_slice(), 'K');
        let wq = holds_char(castling.as_slice(), 'Q');
        let bk = holds_char(castling.as_slice(), 'k');
        let bq = holds_char(castling.as_slice(), 'q');
        let ep_chars: &Vec<char> = if parts.len() > 3 {
            assert(fs[3] == parts@[3]@);
            &parts[3]
        } else {
            &dash
        };
        let ep_square: Option<u8> = match read_ep(ep_chars.as_slice()) {
            Some(e) => e,
            None => {
                return None;
            },
        };
        let halfmove: usize = if parts.len() > 4 {
            assert(fs[4] == parts@[4]@);
            match parse_number(parts[4].as_slice(), 255) {
                Some(n) => n as usize,
                None => 0,
            }
        } else {
            proof {
                lemma_digit_number('0', 255);
            }
            0
        };
        let fullmove: usize = if parts.len() > 5 {
            assert(fs[5] == parts@[5]@);
            match parse_number(parts[5].as_slice(), usize::MAX as u64) {
                Some(n) => n as usize,
                None => 1,
            }
        } else {
            proof {
                lemma_digit_number('1', usize::MAX as nat);
            }
            1
        };
        let b = BoardState {
            squares,
            black_to_move: black,
            white_king_side: wk,
            white_queen_side: wq,
            black_king_side: bk,
            black_queen_side: bq,
            ep_square,
            halfmove,
            fullmove,
        };
        assert(b@ =~= read_board(fs)->0);
        Some(b)
    }
}

/// One digit is a number.
proof fn lemma_digit_number(c: char, max: nat)
    requires
        is_digit(c),
        max >= 9,
    ensures
        number(seq![c], max) == Some(digit_value(c)),
{
    let s = seq![c];
    assert(s.drop_last() =~= Seq::empty());
    reveal_with_fuel(crate::text::digits_value, 2);
}

// ---------------------------------------------------------------------------
// Writing
// ---------------------------------------------------------------------------

/// A position as a FEN says it.
pub open spec fn board_fen(m: BoardModel) -> FenModel {
    FenModel {
        cells: m.squares,
        state: state_word(
            m.black,
            m.castling,
            match m.ep {
                Some(e) => e + 1,
                None => 0,
            },
        ),
        halfmove: m.halfmove,
        fullmove: m.fullmove,
    }
}

impl BoardState {
    /// The FEN of the position.
    pub fn to_fen(&self) -> (r: String)
        requires
            self.wf(),
        ensures
            r@ == fen_text(board_fen(self@)),
    {
        let mut state: u16 = 0;
        if self.black_to_move {
            state = state + 1;
        }
        if self.white_king_side {
            state = state + 2;
        }
        if self.white_queen_side {
            state = state + 4;
        }
        if self.black_king_side {
            state = state + 8;
        }
        if self.black_queen_side {
            state = state + 16;
        }
        if let Some(e) = self.ep_square {
            state = state + (e as u16 + 1) * 32;
        }
        assert(state == board_fen(self@).state);
        fen_string_of(&self.squares, state, self.halfmove as u64, self.fullmove as u64)
    }
}

// ---------------------------------------------------------------------------
// How pieces move
// ---------------------------------------------------------------------------

/// The kind of a piece code: 0 for a pawn, then knight, bishop, rook, queen, king.
pub open spec fn kind_of(code: u8) -> int {
    (code - 1) % 6
}

/// Whether a piece code is one of black.
pub open spec fn black_code(code: u8) -> bool {
    code >= 7
}

/// The distance of two numbers.
pub open spec fn apart(a: int, b: int) -> int {
    if a <= b {
        b - a
    } else {
        a - b
    }
}

/// A coordinate after `k` steps towards another.
pub open spec fn towards(a: int, b: int, k: int) -> int {
    if a < b {
        a + k
    } else if a > b {
        a - k
    } else {
        a
    }
}

/// The number of king's moves between two squares of a line.
pub open spec fn line_len(from: int, to: int) -> int {
    let dr = apart(from / 8, to / 8);
    let df = apart(from % 8, to % 8);
    if dr >= df {
        dr
    } else {
        df
    }
}

/// The square after `k` steps from a square towards another.
pub open spec fn on_line(from: int, to: int, k: int) -> int {
    towards(from / 8, to / 8, k) * 8 + towards(from % 8, to % 8, k)
}

/// Whether two squares are on a rank, a file or a diagonal.
pub open spec fn straight(from: int, to: int) -> bool {
    from / 8 == to / 8 || from % 8 == to % 8
}

/// Whether two squares are on a diagonal.
pub open spec fn diagonal(from: int, to: int) -> bool {
    apart(from / 8, to / 8) == apart(from % 8, to % 8)
}

/// Whether the squares between two squares of a line are empty.
pub open spec fn path_clear(squares: Seq<u8>, from: int, to: int) -> bool {
    forall|k: int| 0 < k < line_len(from, to) ==> squares[#[trigger] on_line(from, to, k)] == 0
}

/// Whether a piece of a kind on a square reaches another; pawns reach none.
pub open spec fn reaches(squares: Seq<u8>, from: int, to: int, kind: int) -> bool {
    let dr = apart(from / 8, to / 8);
    let df = apart(from % 8, to % 8);
    if kind == 1 {
        (dr == 1 && df == 2) || (dr == 2 && df == 1)
    } else if kind == 2 {
        diagonal(from, to) && path_clear(squares, from, to)
    } else if kind == 3 {
        straight(from, to) && path_clear(squares, from, to)
    } else if kind == 4 {
        (diagonal(from, to) || straight(from, to)) && path_clear(squares, from, to)
    } else if kind == 5 {
        dr <= 1 && df <= 1
    } else {
        false
    }
}

/// Whether the piece on a square attacks another square.
pub open spec fn attacks(squares: Seq<u8>, sq: int, target: int) -> bool {
    let code = squares[sq];
    if kind_of(code) == 0 {
        (if black_code(code) {
            sq / 8 + 1 == target / 8
        } else {
            sq / 8 - 1 == target / 8
        }) && apart(sq % 8, target % 8) == 1
    } else {
        reaches(squares, sq, target, kind_of(code))
    }
}

/// The first square from `i` on with a code.
pub open spec fn first_code(squares: Seq<u8>, code: u8, i: nat) -> Option<nat>
    decreases squares.len() - i,
{
    if i >= squares.len() {
        None
    } else if squares[i as int] == code {
        Some(i)
    } else {
        first_code(squares, code, i + 1)
    }
}

/// Whether a square holds a piece of the other side that attacks another square.
pub open spec fn threatens(squares: Seq<u8>, black: bool, sq: int, target: int) -> bool {
    squares[sq] != 0 && black_code(squares[sq]) != black && attacks(squares, sq, target)
}

/// Whether some piece of the other side attacks a square.
pub open spec fn threatened(squares: Seq<u8>, black: bool, target: int) -> bool {
    exists|sq: int| 0 <= sq < 64 && #[trigger] threatens(squares, black, sq, target)
}

/// The code of the king of a side.
pub open spec fn king_code(black: bool) -> u8 {
    if black {
        12
    } else {
        6
    }
}

/// Whether the first king of a side is attacked; without a king it is not.
pub open spec fn in_check(squares: Seq<u8>, black: bool) -> bool {
    match first_code(squares, king_code(black), 0) {
        Some(k) => threatened(squares, black, k as int),
        None => false,
    }
}

fn apart_of(a: u8, b: u8) -> (r: u8)
    ensures
        r == apart(a as int, b as int),
{
    if a <= b {
        b - a
    } else {
        a - b
    }
}

fn towards_of(a: u8, b: u8, k: u8) -> (r: u8)
    requires
        a <= 7,
        b <= 7,
        a == b || k <= apart(a as int, b as int),
    ensures
        r == towards(a as int, b as int, k as int),
        r <= 7,
{
    if a < b {
        a + k
    } else if a > b {
        a - k
    } else {
        a
    }
}

impl BoardState {
    /// Whether the squares between two squares of a line are empty.
    pub fn is_path_clear(&self, from_sq: usize, to_sq: usize) -> (r: bool)
        requires
            self.wf(),
            from_sq < 64,
            to_sq < 64,
            straight(from_sq as int, to_sq as int) || diagonal(from_sq as int, to_sq as int),
        ensures
            r == path_clear(self@.squares, from_sq as int, to_sq as int),
    {
        let fr: u8 = (from_sq / 8) as u8;
        let ff: u8 = (from_sq % 8) as u8;
        let tr: u8 = (to_sq / 8) as u8;
        let tf: u8 = (to_sq % 8) as u8;
        let dr: u8 = apart_of(fr, tr);
        let df: u8 = apart_of(ff, tf);
        let len: u8 = if dr >= df {
            dr
        } else {
            df
        };
        let mut k: u8 = 1;
        while k < len
            invariant
                self.wf(),
                from_sq < 64,
                to_sq < 64,
                straight(from_sq as int, to_sq as int) || diagonal(from_sq as int, to_sq as int),
                fr == from_sq / 8,
                ff == from_sq % 8,
                tr == to_sq / 8,
                tf == to_sq % 8,
                dr == apart(fr as int, tr as int),
                df == apart(ff as int, tf as int),
                len == line_len(from_sq as int, to_sq as int),
                1 <= k,
                len <= 7,
                forall|j: int|
                    0 < j < k && j < len ==> self.squares@[#[trigger] on_line(
                        from_sq as int,
                        to_sq as int,
                        j,
                    )] == 0,
            decreases len - k,
        {
            let r: u8 = towards_of(fr, tr, k);
            let f: u8 = towards_of(ff, tf, k);
            let sq: usize = (r as usize) * 8 + (f as usize);
            assert(sq == on_line(from_sq as int, to_sq as int, k as int));
            if self.squares[sq] != 0 {
                return false;
            }
            k = k + 1;
        }
        true
    }

    /// Whether a piece of a kind on a square reaches another.
    pub fn can_piece_reach(&self, from_sq: usize, to_sq: usize, kind: u8) -> (r: bool)
        requires
            self.wf(),
            from_sq < 64,
            to_sq < 64,
        ensures
            r == reaches(self@.squares, from_sq as int, to_sq as int, kind as int),
    {
        let dr: u8 = apart_of((from_sq / 8) as u8, (to_sq / 8) as u8);
        let df: u8 = apart_of((from_sq % 8) as u8, (to_sq % 8) as u8);
        let is_straight = from_sq / 8 == to_sq / 8 || from_sq % 8 == to_sq % 8;
        match kind {
            1 => (dr == 1 && df == 2) || (dr == 2 && df == 1),
            2 => dr == df && self.is_path_clear(from_sq, to_sq),
            3 => is_straight && self.is_path_clear(from_sq, to_sq),
            4 => (dr == df || is_straight) && self.is_path_clear(from_sq, to_sq),
            5 => dr <= 1 && df <= 1,
            _ => false,
        }
    }

    /// Whether the piece on a square attacks another square.
    fn attacks_square(&self, sq: usize, target: usize) -> (r: bool)
        requires
            self.wf(),
            sq < 64,
            target < 64,
            self@.squares[sq as int] != 0,
        ensures
            r == attacks(self@.squares, sq as int, target as int),
    {
        let code: u8 = self.squares[sq];
        let kind: u8 = (code - 1) % 6;
        if kind == 0 {
            let df: u8 = apart_of((sq % 8) as u8, (target % 8) as u8);
            if code >= 7 {
                sq / 8 + 1 == target / 8 && df == 1
            } else {
                sq / 8 == target / 8 + 1 && df == 1
            }
        } else {
            self.can_piece_reach(sq, target, kind)
        }
    }

    /// Whether the king of a side is attacked.
    pub fn is_in_check(&self, black: bool) -> (r: bool)
        requires
            self.wf(),
        ensures
            r == in_check(self@.squares, black),
    {
        let king: u8 = if black {
            12
        } else {
            6
        };
        let mut k: usize = 0;
        while k < 64 && self.squares[k] != king
            invariant
                self.wf(),
                k <= 64,
                first_code(self@.squares, king, 0) == first_code(self@.squares, king, k as nat),
            decreases 64 - k,
        {
            k = k + 1;
        }
        if k == 64 {
            return false;
        }
        assert(first_code(self@.squares, king, 0) == Some(k as nat));
        for sq in 0..64usize
            invariant
                self.wf(),
                k < 64,
                first_code(self@.squares, king_code(black), 0) == Some(k as nat),
                forall|j: int|
                    0 <= j < sq ==> !#[trigger] threatens(self@.squares, black, j, k as int),
        {
            let code: u8 = self.squares[sq];
            if code != 0 && (code >= 7) != black && self.attacks_square(sq, k) {
                proof {
                    assert(threatens(self@.squares, black, sq as int, k as int));
                    assert(threatened(self@.squares, black, k as int));
                }
                return true;
            }
        }
        false
    }
}

// ---------------------------------------------------------------------------
// Making a move
// ---------------------------------------------------------------------------

/// What is left of a number above another, or zero.
pub open spec fn above(a: int, b: int) -> int {
    if a > b {
        a - b
    } else {
        0
    }
}

/// The squares of the first four bytes of a move; none where there are fewer, or
/// where a file is not on the board.
pub open spec fn move_squares(b: Seq<u8>) -> Option<(int, int)> {
    if b.len() < 4 {
        None
    } else {
        let ff = above(b[0] as int, 97);
        let tf = above(b[2] as int, 97);
        if ff > 7 || tf > 7 {
            None
        } else {
            Some(
                (
                    above(7, above(b[1] as int, 49)) * 8 + ff,
                    above(7, above(b[3] as int, 49)) * 8 + tf,
                ),
            )
        }
    }
}

/// The kind of piece that the fifth byte of a move of five bytes names.
pub open spec fn promotion(b: Seq<u8>) -> Option<int> {
    if b.len() != 5 {
        None
    } else if b[4] == 113 || b[4] == 81 {
        Some(4)
    } else if b[4] == 114 || b[4] == 82 {
        Some(3)
    } else if b[4] == 98 || b[4] == 66 {
        Some(2)
    } else if b[4] == 110 || b[4] == 78 {
        Some(1)
    } else {
        None
    }
}

/// The piece that stands on the target square after a move.
pub open spec fn placed(code: u8, promo: Option<int>) -> u8 {
    match promo {
        Some(k) => (if black_code(code) {
            7 + k
        } else {
            1 + k
        }) as u8,
        None => code,
    }
}

/// Whether a move captures en passant.
pub open spec fn takes_ep(m: BoardModel, from: int, to: int) -> bool {
    kind_of(m.squares[from]) == 0 && m.ep == Some(to as nat)
}

/// The square of the pawn that is captured en passant.
pub open spec fn ep_victim(code: u8, to: int) -> int {
    if black_code(code) {
        to - 8
    } else {
        to + 8
    }
}

/// The squares after a move: a king's move from the e-file to the g- or c-file
/// also moves the rook.
#[verifier::opaque]
pub open spec fn moved_squares(m: BoardModel, from: int, to: int, promo: Option<int>) -> Seq<u8> {
    let code = m.squares[from];
    let s1 = m.squares.update(from, 0);
    let s2 = if takes_ep(m, from, to) {
        s1.update(ep_victim(code, to), 0)
    } else {
        s1
    };
    let row = from / 8 * 8;
    let s3 = if kind_of(code) == 5 && from % 8 == 4 && to % 8 == 6 {
        s2.update(row + 7, 0).update(row + 5, s2[row + 7])
    } else if kind_of(code) == 5 && from % 8 == 4 && to % 8 == 2 {
        s2.update(row, 0).update(row + 3, s2[row])
    } else {
        s2
    };
    s3.update(to, placed(code, promo))
}

/// Whether a move captures.
pub open spec fn captures(m: BoardModel, from: int, to: int) -> bool {
    m.squares[to] != 0 || takes_ep(m, from, to)
}

/// Whether a move of a piece leaves a castling right of a side alone: the king stays
/// where it is, and nothing leaves or reaches the corner of the rook.
pub open spec fn leaves_right(code: u8, from: int, to: int, black: bool, corner: int) -> bool {
    code != king_code(black) && from != corner && to != corner
}

/// The castling rights after a move.
#[verifier::opaque]
pub open spec fn kept_rights(m: BoardModel, from: int, to: int) -> nat {
    let code = m.squares[from];
    let c = m.castling;
    castling_set(
        c % 2 == 1 && leaves_right(code, from, to, false, 63),
        (c / 2) % 2 == 1 && leaves_right(code, from, to, false, 56),
        (c / 4) % 2 == 1 && leaves_right(code, from, to, true, 7),
        c / 8 == 1 && leaves_right(code, from, to, true, 0),
    )
}

/// Whether a move sets the halfmove clock back: a move of a pawn, or a capture.
pub open spec fn resets_clock(m: BoardModel, from: int, to: int) -> bool {
    kind_of(m.squares[from]) == 0 || captures(m, from, to)
}

/// The position after a move.
pub open spec fn moved(m: BoardModel, from: int, to: int, promo: Option<int>) -> BoardModel {
    BoardModel {
        squares: moved_squares(m, from, to, promo),
        black: !m.black,
        castling: kept_rights(m, from, to),
        ep: if kind_of(m.squares[from]) == 0 && apart(from, to) == 16 {
            Some(((from + to) / 2) as nat)
        } else {
            None
        },
        halfmove: if resets_clock(m, from, to) {
            0
        } else {
            m.halfmove + 1
        },
        fullmove: if m.black {
            m.fullmove + 1
        } else {
            m.fullmove
        },
    }
}

/// Whether a pawn that a move captures en passant is on the board.
pub open spec fn ep_safe(m: BoardModel, from: int, to: int) -> bool {
    takes_ep(m, from, to) ==> 0 <= ep_victim(m.squares[from], to) < 64
}

/// Whether a move can be made: a pawn that is captured en passant is on the board,
/// and neither the move number nor the halfmove clock runs over.
pub open spec fn move_safe(m: BoardModel, from: int, to: int) -> bool {
    &&& ep_safe(m, from, to)
    &&& m.black ==> m.fullmove < usize::MAX
    &&& !resets_clock(m, from, to) ==> m.halfmove < usize::MAX
}

fn promo_code(code: u8, promo: Option<u8>) -> (r: u8)
    requires
        1 <= code <= 12,
        promo matches Some(k) ==> k <= 5,
    ensures
        r == placed(code, promo_kind(promo)),
        r <= 12,
{
    match promo {
        Some(k) => if code >= 7 {
            7 + k
        } else {
            1 + k
        },
        None => code,
    }
}

/// An optional kind as a number.
pub open spec fn promo_kind(promo: Option<u8>) -> Option<int> {
    match promo {
        Some(k) => Some(k as int),
        None => None,
    }
}

/// The rights of a castling code are those it was made of.
proof fn lemma_rights_back(wk: bool, wq: bool, bk: bool, bq: bool)
    ensures
        ({
            let c = castling_set(wk, wq, bk, bq);
            &&& c < 16
            &&& (c % 2 == 1) == wk
            &&& ((c / 2) % 2 == 1) == wq
            &&& ((c / 4) % 2 == 1) == bk
            &&& (c / 8 == 1) == bq
        }),
{
}

/// The square that a pawn steps over, if it goes two ranks.
fn double_step(kind: u8, from_sq: usize, to_sq: usize) -> (r: Option<u8>)
    requires
        from_sq < 64,
        to_sq < 64,
    ensures
        match r {
            Some(e) => kind == 0 && apart(from_sq as int, to_sq as int) == 16 && e == (from_sq
                + to_sq) / 2 && e < 64,
            None => !(kind == 0 && apart(from_sq as int, to_sq as int) == 16),
        },
{
    let far: usize = if from_sq <= to_sq {
        to_sq - from_sq
    } else {
        from_sq - to_sq
    };
    if kind == 0 && far == 16 {
        Some(((from_sq + to_sq) / 2) as u8)
    } else {
        None
    }
}

/// The squares after a move depend on the squares and the en-passant square alone.
proof fn lemma_same_squares(a: BoardModel, b: BoardModel, from: int, to: int, promo: Option<int>)
    requires
        a.squares == b.squares,
        a.ep == b.ep,
    ensures
        moved_squares(a, from, to, promo) == moved_squares(b, from, to, promo),
{
    reveal(moved_squares);
}

impl BoardState {
    /// Moves the pieces of a move.
    fn move_piece(&mut self, from_sq: usize, to_sq: usize, promo: Option<u8>, is_ep: bool)
        requires
            old(self).wf(),
            from_sq < 64,
            to_sq < 64,
            old(self)@.squares[from_sq as int] != 0,
            promo matches Some(k) ==> k <= 5,
            ep_safe(old(self)@, from_sq as int, to_sq as int),
            is_ep == takes_ep(old(self)@, from_sq as int, to_sq as int),
        ensures
            *final(self) == (BoardState { squares: final(self).squares, ..*old(self) }),
            final(self).squares@ == moved_squares(
                old(self)@,
                from_sq as int,
                to_sq as int,
                promo_kind(promo),
            ),
            final(self).squares@.len() == 64,
            forall|i: int| 0 <= i < 64 ==> #[trigger] final(self).squares@[i] <= 12,
    {
        let code: u8 = self.squares[from_sq];
        let kind: u8 = (code - 1) % 6;
        self.squares.set(from_sq, 0);
        if is_ep {
            let victim: usize = if code >= 7 {
                to_sq - 8
            } else {
                to_sq + 8
            };
            self.squares.set(victim, 0);
        }
        let row: usize = from_sq / 8 * 8;
        if kind == 5 && from_sq % 8 == 4 && to_sq % 8 == 6 {
            let rook: u8 = self.squares[row + 7];
            self.squares.set(row + 7, 0);
            self.squares.set(row + 5, rook);
        } else if kind == 5 && from_sq % 8 == 4 && to_sq % 8 == 2 {
            let rook: u8 = self.squares[row];
            self.squares.set(row, 0);
            self.squares.set(row + 3, rook);
        }
        self.squares.set(to_sq, promo_code(code, promo));
        proof {
            reveal(moved_squares);
        }
    }

    /// Drops the castling rights that a move ends.
    fn drop_rights(&mut self, from_sq: usize, to_sq: usize)
        requires
            old(self).wf(),
            from_sq < 64,
            to_sq < 64,
        ensures
            final(self).wf(),
            final(self)@ == (BoardModel {
                castling: kept_rights(old(self)@, from_sq as int, to_sq as int),
                ..old(self)@
            }),
            final(self).ep_square == old(self).ep_square,
    {
        let code: u8 = self.squares[from_sq];
        if code == 6 || from_sq == 63 || to_sq == 63 {
            self.white_king_side = false;
        }
        if code == 6 || from_sq == 56 || to_sq == 56 {
            self.white_queen_side = false;
        }
        if code == 12 || from_sq == 7 || to_sq == 7 {
            self.black_king_side = false;
        }
        if code == 12 || from_sq == 0 || to_sq == 0 {
            self.black_queen_side = false;
        }
        proof {
            reveal(kept_rights);
            lemma_rights_back(
                old(self).white_king_side,
                old(self).white_queen_side,
                old(self).black_king_side,
                old(self).black_queen_side,
            );
        }
    }

    /// Hands the turn on: the clocks go on, and the en-passant square is set.
    fn pass_turn(&mut self, resets: bool, ep_square: Option<u8>)
        requires
            old(self).black_to_move ==> old(self).fullmove < usize::MAX,
            !resets ==> old(self).halfmove < usize::MAX,
        ensures
            *final(self) == (BoardState {
                black_to_move: !old(self).black_to_move,
                ep_square,
                halfmove: (if resets {
                    0
                } else {
                    old(self).halfmove + 1
                }) as usize,
                fullmove: (if old(self).black_to_move {
                    old(self).fullmove + 1
                } else {
                    old(self).fullmove as int
                }) as usize,
                ..*old(self)
            }),
    {
        self.halfmove = if resets {
            0
        } else {
            self.halfmove + 1
        };
        if self.black_to_move {
            self.fullmove = self.fullmove + 1;
        }
        self.black_to_move = !self.black_to_move;
        self.ep_square = ep_square;
    }

    /// Makes a move.
    pub fn apply_move_internal(&mut self, from_sq: usize, to_sq: usize, promo: Option<u8>)
        requires
            old(self).wf(),
            from_sq < 64,
            to_sq < 64,
            old(self)@.squares[from_sq as int] != 0,
            promo matches Some(k) ==> k <= 5,
            move_safe(old(self)@, from_sq as int, to_sq as int),
        ensures
            final(self).wf(),
            final(self)@ == moved(
                old(self)@,
                from_sq as int,
                to_sq as int,
                promo_kind(promo),
            ),
    {
        let ghost was = self@;
        let code: u8 = self.squares[from_sq];
        let kind: u8 = (code - 1) % 6;
        let is_ep = kind == 0 && match self.ep_square {
            Some(e) => e as usize == to_sq,
            None => false,
        };
        assert(is_ep == takes_ep(was, from_sq as int, to_sq as int));
        let resets = kind == 0 || self.squares[to_sq] != 0;
        assert(resets == resets_clock(was, from_sq as int, to_sq as int));
        self.drop_rights(from_sq, to_sq);
        let ghost mid = self@;
        let ghost rights = mid.castling;
        self.move_piece(from_sq, to_sq, promo, is_ep);
        proof {
            lemma_same_squares(mid, was, from_sq as int, to_sq as int, promo_kind(promo));
        }
        self.pass_turn(resets, double_step(kind, from_sq, to_sq));
        assert(self@.castling == rights);
    }
}

// ---------------------------------------------------------------------------
// Legal moves
// ---------------------------------------------------------------------------

/// The square in front of a pawn.
pub open spec fn ahead(code: u8, sq: int) -> int {
    if black_code(code) {
        sq + 8
    } else {
        sq - 8
    }
}

/// Whether a pawn can go to a square: to the empty one in front of it, from its first
/// rank over that one to the empty one behind it, or to one beside it that holds a
/// piece or is the en-passant square.
pub open spec fn pawn_goes(m: BoardModel, from: int, to: int) -> bool {
    let code = m.squares[from];
    let next = ahead(code, from);
    ||| to == next && m.squares[to] == 0
    ||| {
        &&& from / 8 == (if black_code(code) {
            1int
        } else {
            6
        })
        &&& to == ahead(code, next)
        &&& m.squares[next] == 0
        &&& m.squares[to] == 0
    }
    ||| attacks(m.squares, from, to) && captures(m, from, to)
}

/// Whether a piece of the side to move can go to a square where none of its own
/// stands, as pieces of its kind move.
pub open spec fn goes(m: BoardModel, from: int, to: int) -> bool {
    let code = m.squares[from];
    &&& code != 0 && black_code(code) == m.black
    &&& m.squares[to] == 0 || black_code(m.squares[to]) != m.black
    &&& if kind_of(code) == 0 {
        pawn_goes(m, from, to)
    } else {
        reaches(m.squares, from, to, kind_of(code))
    }
}

/// Whether the side to move can go from a square to another without leaving its king
/// in check.
pub open spec fn is_legal(m: BoardModel, from: int, to: int) -> bool {
    goes(m, from, to) && !in_check(moved_squares(m, from, to, None), m.black)
}

/// Whether the side to move has a legal move. Castling adds none: the king could go
/// where the rook then stands.
pub open spec fn has_legal_move(m: BoardModel) -> bool {
    exists|from: int, to: int|
        0 <= from < 64 && 0 <= to < 64 && #[trigger] is_legal(m, from, to)
}

impl BoardState {
    /// Whether the king of a side is attacked after a move of a piece.
    fn checked_after(&self, from_sq: usize, to_sq: usize, black: bool) -> (r: bool)
        requires
            self.wf(),
            from_sq < 64,
            to_sq < 64,
            self@.squares[from_sq as int] != 0,
            ep_safe(self@, from_sq as int, to_sq as int),
        ensures
            r == in_check(moved_squares(self@, from_sq as int, to_sq as int, None), black),
    {
        let mut next = BoardState {
            squares: self.squares.clone(),
            black_to_move: self.black_to_move,
            white_king_side: self.white_king_side,
            white_queen_side: self.white_queen_side,
            black_king_side: self.black_king_side,
            black_queen_side: self.black_queen_side,
            ep_square: self.ep_square,
            halfmove: self.halfmove,
            fullmove: self.fullmove,
        };
        assert(next@ =~= self@);
        let is_ep = (self.squares[from_sq] - 1) % 6 == 0 && match self.ep_square {
            Some(e) => e as usize == to_sq,
            None => false,
        };
        next.move_piece(from_sq, to_sq, None, is_ep);
        next.is_in_check(black)
    }

    /// Whether a pawn can go to a square.
    fn pawn_can_go(&self, from_sq: usize, to_sq: usize) -> (r: bool)
        requires
            self.wf(),
            from_sq < 64,
            to_sq < 64,
            self@.squares[from_sq as int] != 0,
            kind_of(self@.squares[from_sq as int]) == 0,
        ensures
            r == pawn_goes(self@, from_sq as int, to_sq as int),
    {
        let code: u8 = self.squares[from_sq];
        if self.attacks_square(from_sq, to_sq) {
            if self.squares[to_sq] != 0 {
                return true;
            }
            return match self.ep_square {
                Some(e) => e as usize == to_sq,
                None => false,
            };
        }
        if self.squares[to_sq] != 0 {
            return false;
        }
        if code >= 7 {
            to_sq == from_sq + 8 || (from_sq / 8 == 1 && to_sq == from_sq + 16
                && self.squares[from_sq + 8] == 0)
        } else {
            to_sq + 8 == from_sq || (from_sq / 8 == 6 && to_sq + 16 == from_sq
                && self.squares[from_sq - 8] == 0)
        }
    }

    /// Whether a move of the side to move is legal.
    pub fn is_legal_move(&self, from_sq: usize, to_sq: usize) -> (r: bool)
        requires
            self.wf(),
            from_sq < 64,
            to_sq < 64,
        ensures
            r == is_legal(self@, from_sq as int, to_sq as int),
    {
        let code: u8 = self.squares[from_sq];
        let there: u8 = self.squares[to_sq];
        if code == 0 || (code >= 7) != self.black_to_move {
            return false;
        }
        if there != 0 && (there >= 7) == self.black_to_move {
            return false;
        }
        let kind: u8 = (code - 1) % 6;
        let can_go = if kind == 0 {
            self.pawn_can_go(from_sq, to_sq)
        } else {
            self.can_piece_reach(from_sq, to_sq, kind)
        };
        can_go && !self.checked_after(from_sq, to_sq, self.black_to_move)
    }

    /// Whether the side to move has no legal move.
    pub fn has_no_legal_moves(&self) -> (r: bool)
        requires
            self.wf(),
        ensures
            r == !has_legal_move(self@),
    {
        for from_sq in 0..64usize
            invariant
                self.wf(),
                forall|i: int, j: int|
                    0 <= i < from_sq && 0 <= j < 64 ==> !#[trigger] is_legal(self@, i, j),
        {
            for to_sq in 0..64usize
                invariant
                    self.wf(),
                    from_sq < 64,
                    forall|i: int, j: int|
                        0 <= i < from_sq && 0 <= j < 64 ==> !#[trigger] is_legal(self@, i, j),
                    forall|j: int|
                        0 <= j < to_sq ==> !#[trigger] is_legal(self@, from_sq as int, j),
            {
                if self.is_legal_move(from_sq, to_sq) {
                    assert(is_legal(self@, from_sq as int, to_sq as int));
                    return false;
                }
            }
        }
        true
    }
}

// ---------------------------------------------------------------------------
// The notation of a move
// ---------------------------------------------------------------------------

/// The letter of the file of a square.
pub open spec fn file_char(sq: int) -> char {
    ('a' as u32 + sq % 8) as char
}

/// The digit of the rank of a square.
pub open spec fn rank_char(sq: int) -> char {
    ('1' as u32 + (7 - sq / 8)) as char
}

/// The name of a square.
pub open spec fn square_name(sq: int) -> Seq<char> {
    seq![file_char(sq), rank_char(sq)]
}

/// The letter of a kind of piece; pawns have none.
pub open spec fn kind_letter(kind: int) -> Seq<char> {
    if kind == 1 {
        seq!['N']
    } else if kind == 2 {
        seq!['B']
    } else if kind == 3 {
        seq!['R']
    } else if kind == 4 {
        seq!['Q']
    } else if kind == 5 {
        seq!['K']
    } else {
        Seq::empty()
    }
}

/// Whether a square holds another piece of the same kind and side that can go to
/// the target too, without leaving its king in check.
pub open spec fn rival(m: BoardModel, from: int, to: int, sq: int) -> bool {
    let code = m.squares[from];
    sq != from && m.squares[sq] == code && reaches(m.squares, sq, to, kind_of(code))
        && !in_check(moved_squares(m, sq, to, None), black_code(code))
}

/// Whether there is a rival.
pub open spec fn has_rival(m: BoardModel, from: int, to: int) -> bool {
    exists|sq: int| 0 <= sq < 64 && #[trigger] rival(m, from, to, sq)
}

/// Whether there is a rival on the file of the piece.
pub open spec fn rival_on_file(m: BoardModel, from: int, to: int) -> bool {
    exists|sq: int| 0 <= sq < 64 && #[trigger] rival(m, from, to, sq) && sq % 8 == from % 8
}

/// Whether there is a rival on the rank of the piece.
pub open spec fn rival_on_rank(m: BoardModel, from: int, to: int) -> bool {
    exists|sq: int| 0 <= sq < 64 && #[trigger] rival(m, from, to, sq) && sq / 8 == from / 8
}

/// What tells a piece from its rivals: the file, or the rank where a rival is on
/// the file, or both where rivals are on both.
pub open spec fn hint(m: BoardModel, from: int, to: int) -> Seq<char> {
    if !has_rival(m, from, to) {
        Seq::empty()
    } else if !rival_on_file(m, from, to) {
        seq![file_char(from)]
    } else if !rival_on_rank(m, from, to) {
        seq![rank_char(from)]
    } else {
        square_name(from)
    }
}

/// The sign of a capture.
pub open spec fn capture_sign(capture: bool) -> Seq<char> {
    if capture {
        seq!['x']
    } else {
        Seq::empty()
    }
}

/// What a promotion adds.
pub open spec fn promo_sign(promo: Option<int>) -> Seq<char> {
    match promo {
        Some(k) => seq!['='] + kind_letter(k),
        None => Seq::empty(),
    }
}

/// The notation of a move without the sign of a check.
pub open spec fn san_body(m: BoardModel, from: int, to: int, promo: Option<int>) -> Seq<char> {
    let kind = kind_of(m.squares[from]);
    if kind == 5 && from % 8 == 4 && to % 8 == 6 {
        "O-O"@
    } else if kind == 5 && from % 8 == 4 && to % 8 == 2 {
        "O-O-O"@
    } else if kind == 0 {
        (if captures(m, from, to) {
            seq![file_char(from), 'x']
        } else {
            Seq::empty()
        }) + square_name(to) + promo_sign(promo)
    } else {
        kind_letter(kind) + hint(m, from, to) + capture_sign(captures(m, from, to))
            + square_name(to)
    }
}

/// Whether a text is a move of a piece of the position.
pub open spec fn is_move(m: BoardModel, s: Seq<char>) -> bool {
    match move_squares(utf8(s)) {
        Some((from, to)) => m.squares[from] != 0,
        None => false,
    }
}

/// The position after a text; unchanged where it is no move.
pub open spec fn step(m: BoardModel, s: Seq<char>) -> BoardModel {
    if is_move(m, s) {
        let (from, to) = move_squares(utf8(s))->0;
        moved(m, from, to, promotion(utf8(s)))
    } else {
        m
    }
}

/// The sign of a position that gives check: a hash sign where there is no legal move
/// out of it, else a plus sign.
pub open spec fn check_sign(m: BoardModel) -> Seq<char> {
    if !in_check(m.squares, m.black) {
        Seq::empty()
    } else if has_legal_move(m) {
        seq!['+']
    } else {
        seq!['#']
    }
}

/// The notation of a text: that of the move with the sign of a check or a mate, or
/// the text itself where it is no move.
pub open spec fn san(m: BoardModel, s: Seq<char>) -> Seq<char> {
    if is_move(m, s) {
        let (from, to) = move_squares(utf8(s))->0;
        san_body(m, from, to, promotion(utf8(s))) + check_sign(step(m, s))
    } else {
        s
    }
}

/// Whether a text can be played: where it is a move, the move can be made.
pub open spec fn step_safe(m: BoardModel, s: Seq<char>) -> bool {
    is_move(m, s) ==> {
        let (from, to) = move_squares(utf8(s))->0;
        move_safe(m, from, to)
    }
}

fn push_file(out: &mut String, sq: usize)
    requires
        sq < 64,
    ensures
        final(out)@ == old(out)@.push(file_char(sq as int)),
{
    out.push(('a' as u8 + (sq % 8) as u8) as char);
}

fn push_rank_digit(out: &mut String, sq: usize)
    requires
        sq < 64,
    ensures
        final(out)@ == old(out)@.push(rank_char(sq as int)),
{
    out.push(('1' as u8 + (7 - (sq / 8) as u8)) as char);
}

fn push_square(out: &mut String, sq: usize)
    requires
        sq < 64,
    ensures
        final(out)@ == old(out)@ + square_name(sq as int),
{
    push_file(out, sq);
    push_rank_digit(out, sq);
    assert(out@ =~= old(out)@ + square_name(sq as int));
}

fn push_kind(out: &mut String, kind: u8)
    ensures
        final(out)@ == old(out)@ + kind_letter(kind as int),
{
    match kind {
        1 => out.push('N'),
        2 => out.push('B'),
        3 => out.push('R'),
        4 => out.push('Q'),
        5 => out.push('K'),
        _ => {},
    }
    assert(out@ =~= old(out)@ + kind_letter(kind as int));
}

/// The two squares of a move.
fn squares_of(b: &[u8]) -> (r: Option<(usize, usize)>)
    ensures
        match r {
            Some((from, to)) => from < 64 && to < 64 && move_squares(b@) == Some(
                (from as int, to as int),
            ),
            None => move_squares(b@) is None,
        },
{
    if b.len() < 4 {
        return None;
    }
    let ff: u8 = above_of(b[0], 97);
    let fr: u8 = above_of(7, above_of(b[1], 49));
    let tf: u8 = above_of(b[2], 97);
    let tr: u8 = above_of(7, above_of(b[3], 49));
    if ff > 7 || tf > 7 {
        return None;
    }
    Some(((fr as usize) * 8 + (ff as usize), (tr as usize) * 8 + (tf as usize)))
}

fn above_of(a: u8, b: u8) -> (r: u8)
    ensures
        r == above(a as int, b as int),
        r <= a,
{
    if a > b {
        a - b
    } else {
        0
    }
}

fn promotion_of(b: &[u8]) -> (r: Option<u8>)
    ensures
        promo_kind(r) == promotion(b@),
        r matches Some(k) ==> k <= 5,
{
    if b.len() != 5 {
        return None;
    }
    let c: u8 = b[4];
    if c == 113 || c == 81 {
        Some(4)
    } else if c == 114 || c == 82 {
        Some(3)
    } else if c == 98 || c == 66 {
        Some(2)
    } else if c == 110 || c == 78 {
        Some(1)
    } else {
        None
    }
}

impl BoardState {
    /// Appends what tells a piece from its rivals.
    fn push_hint(&self, out: &mut String, from_sq: usize, to_sq: usize)
        requires
            self.wf(),
            from_sq < 64,
            to_sq < 64,
            self@.squares[from_sq as int] != 0,
        ensures
            final(out)@ == old(out)@ + hint(self@, from_sq as int, to_sq as int),
    {
        let ghost m = self@;
        let ghost from = from_sq as int;
        let ghost to = to_sq as int;
        let code: u8 = self.squares[from_sq];
        let kind: u8 = (code - 1) % 6;
        let mut any = false;
        let mut same_file = false;
        let mut same_rank = false;
        for sq in 0..64usize
            invariant
                self.wf(),
                m == self@,
                from_sq < 64,
                to_sq < 64,
                from == from_sq,
                to == to_sq,
                code == m.squares[from],
                code != 0,
                kind == kind_of(code),
                any == (exists|j: int| 0 <= j < sq && #[trigger] rival(m, from, to, j)),
                same_file == (exists|j: int|
                    0 <= j < sq && #[trigger] rival(m, from, to, j) && j % 8 == from % 8),
                same_rank == (exists|j: int|
                    0 <= j < sq && #[trigger] rival(m, from, to, j) && j / 8 == from / 8),
        {
            if sq != from_sq && self.squares[sq] == code && kind != 0 && self.can_piece_reach(
                sq,
                to_sq,
                kind,
            ) && !self.checked_after(sq, to_sq, code >= 7) {
                assert(rival(m, from, to, sq as int));
                any = true;
                if sq % 8 == from_sq % 8 {
                    same_file = true;
                }
                if sq / 8 == from_sq / 8 {
                    same_rank = true;
                }
            } else {
                assert(!rival(m, from, to, sq as int));
            }
        }
        assert(any == has_rival(m, from, to));
        assert(same_file == rival_on_file(m, from, to));
        assert(same_rank == rival_on_rank(m, from, to));
        if any {
            if !same_file {
                push_file(out, from_sq);
            } else if !same_rank {
                push_rank_digit(out, from_sq);
            } else {
                push_square(out, from_sq);
            }
        }
        assert(out@ =~= old(out)@ + hint(m, from, to));
    }

    /// The notation of a move, without the sign of a check.
    #[verifier::rlimit(40)]
    fn san_of(&self, from_sq: usize, to_sq: usize, promo: Option<u8>) -> (r: String)
        requires
            self.wf(),
            from_sq < 64,
            to_sq < 64,
            self@.squares[from_sq as int] != 0,
        ensures
            r@ == san_body(self@, from_sq as int, to_sq as int, promo_kind(promo)),
    {
        let ghost m = self@;
        let ghost from = from_sq as int;
        let ghost to = to_sq as int;
        let code: u8 = self.squares[from_sq];
        let kind: u8 = (code - 1) % 6;
        let is_ep = kind == 0 && match self.ep_square {
            Some(e) => e as usize == to_sq,
            None => false,
        };
        let capture = self.squares[to_sq] != 0 || is_ep;
        assert(capture == captures(m, from, to));
        let mut out = String::new();
        if kind == 5 && from_sq % 8 == 4 && to_sq % 8 == 6 {
            out.append("O-O");
            assert(out@ =~= "O-O"@);
        } else if kind == 5 && from_sq % 8 == 4 && to_sq % 8 == 2 {
            out.append("O-O-O");
            assert(out@ =~= "O-O-O"@);
        } else if kind == 0 {
            if capture {
                push_file(&mut out, from_sq);
                out.push('x');
                assert(out@ =~= seq![file_char(from), 'x']);
            }
            push_square(&mut out, to_sq);
            if let Some(k) = promo {
                out.push('=');
                push_kind(&mut out, k);
            }
            assert(out@ =~= san_body(m, from, to, promo_kind(promo)));
        } else {
            push_kind(&mut out, kind);
            self.push_hint(&mut out, from_sq, to_sq);
            if capture {
                out.push('x');
            }
            push_square(&mut out, to_sq);
            assert(out@ =~= san_body(m, from, to, promo_kind(promo)));
        }
        out
    }

    /// Plays a move such as `e2e4` or `e7e8q`, and returns its standard notation. A
    /// text that is no move is returned as it is, and nothing is played.
    pub fn uci_to_san_and_apply(&mut self, uci: &str) -> (r: String)
        requires
            old(self).wf(),
            step_safe(old(self)@, uci@),
        ensures
            final(self).wf(),
            final(self)@ == step(old(self)@, uci@),
            r@ == san(old(self)@, uci@),
    {
        let bytes = uci.as_bytes();
        let (from_sq, to_sq): (usize, usize) = match squares_of(bytes) {
            Some(x) => x,
            None => {
                return uci.to_string();
            },
        };
        if self.squares[from_sq] == 0 {
            return uci.to_string();
        }
        let promo: Option<u8> = promotion_of(bytes);
        let mut out = self.san_of(from_sq, to_sq, promo);
        let ghost body = out@;
        self.apply_move_internal(from_sq, to_sq, promo);
        if self.is_in_check(self.black_to_move) {
            if self.has_no_legal_moves() {
                out.push('#');
            } else {
                out.push('+');
            }
        }
        assert(out@ =~= body + check_sign(self@));
        out
    }

    /// Whether a text can be played.
    pub fn can_play(&self, uci: &str) -> (r: bool)
        requires
            self.wf(),
        ensures
            r == step_safe(self@, uci@),
    {
        let bytes = uci.as_bytes();
        let (from_sq, to_sq): (usize, usize) = match squares_of(bytes) {
            Some(x) => x,
            None => {
                return true;
            },
        };
        let code: u8 = self.squares[from_sq];
        if code == 0 {
            return true;
        }
        let is_ep = (code - 1) % 6 == 0 && match self.ep_square {
            Some(e) => e as usize == to_sq,
            None => false,
        };
        let on_board = if code >= 7 {
            to_sq >= 8
        } else {
            to_sq < 56
        };
        let resets = (code - 1) % 6 == 0 || self.squares[to_sq] != 0;
        (!is_ep || on_board) && (!self.black_to_move || self.fullmove < usize::MAX) && (resets
            || self.halfmove < usize::MAX)
    }
}

// ---------------------------------------------------------------------------
// What holds of positions and moves
// ---------------------------------------------------------------------------

/// Filling on with the text of a rank.
proof fn lemma_fill_rank(acc: Seq<u8>, cells: Seq<u8>, run: nat, rest: Seq<char>)
    requires
        run + cells.len() <= 8,
        acc.len() + run + cells.len() <= 64,
        forall|i: int| 0 <= i < cells.len() ==> #[trigger] cells[i] <= 12,
    ensures
        fill(acc, rank_text(cells, run) + rest) == fill(acc + blanks(run) + cells, rest),
    decreases cells.len(),
{
    if cells.len() == 0 {
        lemma_fill_run(acc, run, rest);
        assert(acc + blanks(run) + cells =~= acc + blanks(run));
    } else {
        let tail = cells.skip(1);
        assert forall|i: int| 0 <= i < tail.len() implies #[trigger] tail[i] <= 12 by {
            assert(tail[i] == cells[i + 1]);
        }
        if cells[0] == 0 {
            lemma_fill_rank(acc, tail, run + 1, rest);
            assert(acc + blanks(run + 1) + tail =~= acc + blanks(run) + cells);
        } else {
            let c = piece_letter(cells[0])->0;
            assert(cells[0] <= 12);
            law_piece_round_trip(c, cells[0]);
            let after = seq![c] + (rank_text(tail, 0) + rest);
            assert(rank_text(cells, run) + rest =~= run_text(run) + after);
            lemma_fill_run(acc, run, after);
            let next = acc + blanks(run);
            assert(after.skip(1) =~= rank_text(tail, 0) + rest);
            lemma_fill_rank(next.push(cells[0]), tail, 0, rest);
            assert(next.push(cells[0]) + blanks(0) + tail =~= acc + blanks(run) + cells);
        }
    }
}

/// Filling on with the digit of a run of empty squares.
proof fn lemma_fill_run(acc: Seq<u8>, run: nat, rest: Seq<char>)
    requires
        run <= 8,
    ensures
        fill(acc, run_text(run) + rest) == fill(acc + blanks(run), rest),
{
    let s = run_text(run) + rest;
    if run > 0 {
        let c = digit_char(run);
        assert(s.skip(1) =~= rest);
        assert(s[0] == c && is_digit(c) && digit_value(c) == run);
    } else {
        assert(s =~= rest);
        assert(acc + blanks(0) =~= acc);
    }
}

/// Filling on with the ranks from one on gives all squares.
proof fn lemma_fill_ranks(cells: Seq<u8>, k: int)
    requires
        0 <= k < 8,
        cells.len() == 64,
        forall|i: int| 0 <= i < 64 ==> #[trigger] cells[i] <= 12,
    ensures
        fill(cells.take(8 * k), joined(rank_texts(cells).skip(k), seq!['/']))
            == Some(cells),
    decreases 8 - k,
{
    let ranks = rank_texts(cells).skip(k);
    let row = cells.subrange(8 * k, 8 * k + 8);
    let acc = cells.take(8 * k);
    assert(ranks[0] == rank_text(row, 0));
    assert forall|i: int| 0 <= i < row.len() implies #[trigger] row[i] <= 12 by {
        assert(row[i] == cells[8 * k + i]);
    }
    assert(acc + blanks(0) + row =~= cells.take(8 * k + 8));
    if k == 7 {
        lemma_fill_rank(acc, row, 0, Seq::empty());
        assert(rank_text(row, 0) + Seq::<char>::empty() =~= rank_text(row, 0));
        assert(joined(ranks, seq!['/']) =~= rank_text(row, 0));
        assert(cells.take(64) =~= cells);
    } else {
        lemma_fill_ranks(cells, k + 1);
        let tail = ranks.skip(1);
        assert(tail =~= rank_texts(cells).skip(k + 1));
        let rest = seq!['/'] + joined(tail, seq!['/']);
        assert(joined(ranks, seq!['/']) =~= rank_text(row, 0) + rest);
        lemma_fill_rank(acc, row, 0, rest);
        assert(rest.skip(1) =~= joined(tail, seq!['/']));
        assert(8 * (k + 1) == 8 * k + 8);
    }
}

/// The en-passant field of a square is read back.
proof fn lemma_ep_field(state: nat)
    requires
        state / 32 <= 64,
    ensures
        ep_field(en_passant_text(state)) == Some(
            if state / 32 == 0 {
                None
            } else {
                Some((state / 32 - 1) as nat)
            },
        ),
{
    let t = en_passant_text(state);
    let ep = state / 32;
    if ep == 0 {
        lemma_utf8_ascii(t);
    } else {
        let f = (ep - 1) % 8;
        let k = (ep - 1) / 8;
        assert(0 <= f < 8 && 0 <= k < 8);
        assert(t[0] as u32 == 97 + f);
        assert(t[1] as u32 == 49 + (7 - k));
        lemma_utf8_ascii(t);
        let b = utf8(t);
        assert(b[0] == 97 + f);
        assert(b[1] == 49 + (7 - k));
        assert((7 - (b[1] - 49)) * 8 + (b[0] - 97) == ep - 1);
    }
}

/// A position comes back from its FEN; of a halfmove clock above 255, zero.
#[verifier::rlimit(40)]
pub proof fn law_position_round_trip(m: BoardModel)
    requires
        board_ok(m),
        m.fullmove <= usize::MAX,
    ensures
        read_board(fields(fen_text(board_fen(m)))) == Some(
            BoardModel {
                halfmove: if m.halfmove <= 255 {
                    m.halfmove
                } else {
                    0
                },
                ..m
            },
        ),
{
    let f = board_fen(m);
    let state = f.state;
    let ep: nat = match m.ep {
        Some(e) => e + 1,
        None => 0,
    };
    assert(state / 32 == ep && (state / 2) % 16 == m.castling && (state % 2 != 0) == m.black);
    lemma_fen_fields(f);
    let fs = fen_fields(f);
    lemma_fill_ranks(m.squares, 0);
    assert(m.squares.take(0) =~= Seq::empty());
    assert(rank_texts(m.squares).skip(0) =~= rank_texts(m.squares));
    assert(board64(m.squares) =~= m.squares);
    lemma_ep_field(state);
    lemma_decimal_number(m.halfmove, 255);
    lemma_decimal_number(m.fullmove, usize::MAX as nat);
    assert(seq!['b'][0] != seq!['w'][0]);
    let c = castling_text(state);
    if c == seq!['-'] {
        assert(c[0] == '-');
    }
    let half: nat = if m.halfmove <= 255 {
        m.halfmove
    } else {
        0
    };
    assert(read_board(fs)->0 =~= (BoardModel { halfmove: half, ..m }));
}

/// A text that is a move changes the side to move; the move number grows after a
/// move of black, and the halfmove clock after every move that is neither one of a
/// pawn nor a capture, which set it back. Castling rights are only lost: those of a
/// side with the move of its king. Any other text changes nothing and is its own
/// notation.
pub proof fn law_step(m: BoardModel, s: Seq<char>)
    requires
        board_ok(m),
    ensures
        is_move(m, s) ==> step(m, s).black == !m.black,
        is_move(m, s) ==> step(m, s).fullmove == m.fullmove + (if m.black {
            1int
        } else {
            0
        }),
        is_move(m, s) ==> step(m, s).halfmove == 0 || step(m, s).halfmove == m.halfmove + 1,
        is_move(m, s) ==> {
            let (from, to) = move_squares(utf8(s))->0;
            let c = step(m, s).castling;
            &&& (step(m, s).halfmove == 0) == resets_clock(m, from, to)
            &&& c <= m.castling
            &&& m.squares[from] == 6 ==> c % 4 == 0
            &&& m.squares[from] == 12 ==> c < 4
        },
        !is_move(m, s) ==> step(m, s) == m && san(m, s) == s,
{
    if is_move(m, s) {
        let (from, to) = move_squares(utf8(s))->0;
        reveal(kept_rights);
        lemma_rights_of(m.castling);
        assert(m.squares[from] == 6 ==> !leaves_right(6, from, to, false, 63));
    }
}

/// A castling code is made of its four rights.
proof fn lemma_rights_of(c: nat)
    requires
        c < 16,
    ensures
        castling_set(c % 2 == 1, (c / 2) % 2 == 1, (c / 4) % 2 == 1, c / 8 == 1) == c,
{
}

/// A move that mates is marked so, and no other: a hash sign stands where the side
/// that is to move is in check and has no legal move, a plus sign where it is in check
/// and has one.
pub proof fn law_check_signs(m: BoardModel, s: Seq<char>)
    requires
        board_ok(m),
        is_move(m, s),
    ensures
        ({
            let (from, to) = move_squares(utf8(s))->0;
            let next = step(m, s);
            let body = san_body(m, from, to, promotion(utf8(s)));
            let check = in_check(next.squares, next.black);
            &&& check && !has_legal_move(next) ==> san(m, s) == body.push('#')
            &&& check && has_legal_move(next) ==> san(m, s) == body.push('+')
            &&& !check ==> san(m, s) == body
        }),
{
    let (from, to) = move_squares(utf8(s))->0;
    let body = san_body(m, from, to, promotion(utf8(s)));
    assert(body + seq!['#'] =~= body.push('#'));
    assert(body + seq!['+'] =~= body.push('+'));
    assert(body + Seq::<char>::empty() =~= body);
}

/// The halfmove clock has no part in the notation of a move, nor in what it does to
/// the rest of a position.
pub proof fn law_clock_is_apart(m: BoardModel, half: nat, s: Seq<char>)
    ensures
        ({
            let other = BoardModel { halfmove: half, ..m };
            &&& san(other, s) == san(m, s)
            &&& step(other, s) == (BoardModel {
                halfmove: step(other, s).halfmove,
                ..step(m, s)
            })
        }),
{
    let other = BoardModel { halfmove: half, ..m };
    if is_move(m, s) {
        let (from, to) = move_squares(utf8(s))->0;
        let promo = promotion(utf8(s));
        lemma_same_squares(m, other, from, to, promo);
        reveal(kept_rights);
        lemma_same_rivals(m, half, from, to);
        let next = step(m, s);
        let after = step(other, s);
        assert(after =~= (BoardModel { halfmove: after.halfmove, ..next }));
        lemma_same_legal(next, after.halfmove);
    }
}

proof fn lemma_same_rivals(m: BoardModel, half: nat, from: int, to: int)
    ensures
        hint(BoardModel { halfmove: half, ..m }, from, to) == hint(m, from, to),
{
    let other = BoardModel { halfmove: half, ..m };
    assert forall|sq: int| #[trigger] rival(other, from, to, sq) == rival(m, from, to, sq) by {
        lemma_same_squares(m, other, sq, to, None);
    }
    assert forall|sq: int| #[trigger] rival(m, from, to, sq) == rival(other, from, to, sq) by {}
}

proof fn lemma_same_legal(m: BoardModel, half: nat)
    ensures
        has_legal_move(BoardModel { halfmove: half, ..m }) == has_legal_move(m),
{
    let other = BoardModel { halfmove: half, ..m };
    assert forall|from: int, to: int| #[trigger] is_legal(other, from, to) == is_legal(
        m,
        from,
        to,
    ) by {
        lemma_same_squares(m, other, from, to, None);
        assert(goes(other, from, to) == goes(m, from, to));
    }
    assert forall|from: int, to: int| #[trigger] is_legal(m, from, to) == is_legal(
        other,
        from,
        to,
    ) by {}
}

/// After a move the piece, or what it was promoted to, stands on the target
/// square, and the square that it left is empty.
pub proof fn law_move_places(m: BoardModel, from: int, to: int, promo: Option<int>)
    requires
        board_ok(m),
        0 <= from < 64,
        0 <= to < 64,
        m.squares[from] != 0,
        move_safe(m, from, to),
    ensures
        moved(m, from, to, promo).squares[to] == placed(m.squares[from], promo),
        from != to ==> moved(m, from, to, promo).squares[from] == 0,
        moved(m, from, to, promo).squares.len() == 64,
{
    reveal(moved_squares);
}

proof fn lemma_fill_codes(acc: Seq<u8>, s: Seq<char>)
    requires
        forall|i: int| 0 <= i < acc.len() ==> #[trigger] acc[i] <= 12,
    ensures
        fill(acc, s) matches Some(v) ==> forall|i: int| 0 <= i < v.len() ==> #[trigger] v[i] <= 12,
    decreases s.len(),
{
    if s.len() > 0 {
        let c = s[0];
        let rest = s.skip(1);
        if c == '/' {
            lemma_fill_codes(acc, rest);
        } else if is_digit(c) {
            lemma_fill_codes(acc + blanks(digit_value(c)), rest);
        } else if acc.len() < 64 {
            match piece_code(c) {
                Some(k) => {
                    lemma_fill_codes(acc.push(k), rest);
                },
                None => {},
            }
        }
    }
}

/// A position that was read is sound, and so is one after a move that can be made.
pub proof fn law_positions_stay_sound(fs: Seq<Seq<char>>, m: BoardModel, s: Seq<char>)
    ensures
        read_board(fs) matches Some(b) ==> board_ok(b) && b.halfmove <= 255 && b.fullmove
            <= usize::MAX,
        board_ok(m) && step_safe(m, s) ==> board_ok(step(m, s)),
        board_ok(m) && step_safe(m, s) && m.fullmove <= usize::MAX ==> step(m, s).fullmove
            <= usize::MAX,
        board_ok(m) && step_safe(m, s) && m.halfmove <= usize::MAX ==> step(m, s).halfmove
            <= usize::MAX,
{
    if read_board(fs) is Some {
        lemma_fill_codes(Seq::empty(), fs[0]);
        let v = fill(Seq::empty(), fs[0])->0;
        let b = read_board(fs)->0;
        assert forall|i: int| 0 <= i < 64 implies #[trigger] b.squares[i] <= 12 by {
            assert(b.squares[i] == board64(v)[i]);
        }
    }
    if board_ok(m) && step_safe(m, s) && is_move(m, s) {
        let (from, to) = move_squares(utf8(s))->0;
        let promo = promotion(utf8(s));
        let next = moved(m, from, to, promo);
        assert(0 <= from < 64 && 0 <= to < 64);
        assert(m.squares[from] <= 12);
        assert(placed(m.squares[from], promo) <= 12);
        lemma_moved_codes(m, from, to, promo);
        reveal(kept_rights);
    }
}

proof fn lemma_moved_codes(m: BoardModel, from: int, to: int, promo: Option<int>)
    requires
        board_ok(m),
        0 <= from < 64,
        0 <= to < 64,
        placed(m.squares[from], promo) <= 12,
        move_safe(m, from, to),
    ensures
        moved_squares(m, from, to, promo).len() == 64,
        forall|i: int| 0 <= i < 64 ==> #[trigger] moved_squares(m, from, to, promo)[i] <= 12,
{
    reveal(moved_squares);
    let row = from / 8 * 8;
    assert(0 <= row && row + 7 < 64);
    assert(m.squares[row] <= 12 && m.squares[row + 7] <= 12);
}

} // verus!
