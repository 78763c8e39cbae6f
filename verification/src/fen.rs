//! Packed chess positions and their FEN text.
//!
//! The 64 squares take four bits each; the side to move, the castling rights and
//! the en-passant square share 16 bits.

use vstd::prelude::*;

use crate::text::{
    chars_of, decimal, digit_value, fields, is_digit, joined, number, parse_number, pieces,
    push_decimal, push_joined, split_fields, split_on, texts, words,
};

verus! {

/// Why a text is no FEN.
#[derive(Debug, Clone, Copy, PartialEq, Eq)]
pub enum FenError {
    InvalidRankCount,
    InvalidSquareCount,
    InvalidPiece(char),
    InvalidTurn,
    InvalidCastling,
    InvalidEnPassant,
    InvalidHalfmove,
    InvalidFullmove,
    MalformedFen,
}

/// The code of a piece letter: 1-6 for the white pawn, knight, bishop, rook,
/// queen and king, 7-12 for the black ones.
pub open spec fn piece_code(c: char) -> Option<u8> {
    if c == 'P' {
        Some(1)
    } else if c == 'N' {
        Some(2)
    } else if c == 'B' {
        Some(3)
    } else if c == 'R' {
        Some(4)
    } else if c == 'Q' {
        Some(5)
    } else if c == 'K' {
        Some(6)
    } else if c == 'p' {
        Some(7)
    } else if c == 'n' {
        Some(8)
    } else if c == 'b' {
        Some(9)
    } else if c == 'r' {
        Some(10)
    } else if c == 'q' {
        Some(11)
    } else if c == 'k' {
        Some(12)
    } else {
        None
    }
}

/// The piece letter of a code.
pub open spec fn piece_letter(n: u8) -> Option<char> {
    if n == 1 {
        Some('P')
    } else if n == 2 {
        Some('N')
    } else if n == 3 {
        Some('B')
    } else if n == 4 {
        Some('R')
    } else if n == 5 {
        Some('Q')
    } else if n == 6 {
        Some('K')
    } else if n == 7 {
        Some('p')
    } else if n == 8 {
        Some('n')
    } else if n == 9 {
        Some('b')
    } else if n == 10 {
        Some('r')
    } else if n == 11 {
        Some('q')
    } else if n == 12 {
        Some('k')
    } else {
        None
    }
}

/// The code of a piece letter.
pub fn piece_to_nibble(c: char) -> (r: Result<u8, FenError>)
    ensures
        match piece_code(c) {
            Some(n) => r == Ok::<u8, FenError>(n),
            None => r == Err::<u8, FenError>(FenError::InvalidPiece(c)),
        },
{
    match c {
        'P' => Ok(1),
        'N' => Ok(2),
        'B' => Ok(3),
        'R' => Ok(4),
        'Q' => Ok(5),
        'K' => Ok(6),
        'p' => Ok(7),
        'n' => Ok(8),
        'b' => Ok(9),
        'r' => Ok(10),
        'q' => Ok(11),
        'k' => Ok(12),
        _ => Err(FenError::InvalidPiece(c)),
    }
}

/// The piece letter of a code.
pub fn nibble_to_piece(n: u8) -> (r: Option<char>)
    ensures
        r == piece_letter(n),
{
    match n {
        1 => Some('P'),
        2 => Some('N'),
        3 => Some('B'),
        4 => Some('R'),
        5 => Some('Q'),
        6 => Some('K'),
        7 => Some('p'),
        8 => Some('n'),
        9 => Some('b'),
        10 => Some('r'),
        11 => Some('q'),
        12 => Some('k'),
        _ => None,
    }
}

/// Code and letter of a piece belong together.
pub proof fn law_piece_round_trip(c: char, n: u8)
    ensures
        piece_code(c) == Some(n) <==> piece_letter(n) == Some(c),
        piece_letter(n) is Some <==> 1 <= n <= 12,
{
}

// ---------------------------------------------------------------------------
// Squares: 64 cells, and four bits for each
// ---------------------------------------------------------------------------

/// The four bits of a square: the high half of a byte for even squares, the low
/// half for odd ones.
pub open spec fn nibble(board: Seq<u8>, sq: int) -> u8 {
    if sq % 2 == 0 {
        board[sq / 2] / 16
    } else {
        board[sq / 2] % 16
    }
}

/// The 64 cells of a board.
pub open spec fn cells_of(board: Seq<u8>) -> Seq<u8> {
    Seq::new(64, |sq: int| nibble(board, sq))
}

/// The 64 cells of a board.
pub fn unpack_board(board: &[u8; 32]) -> (r: Vec<u8>)
    ensures
        r@ == cells_of(board@),
{
    let mut cells: Vec<u8> = Vec::new();
    for sq in 0..64usize
        invariant
            cells@ == cells_of(board@).take(sq as int),
    {
        let byte: u8 = board[sq / 2];
        let n: u8 = if sq % 2 == 0 {
            byte / 16
        } else {
            byte % 16
        };
        cells.push(n);
        assert(cells@ =~= cells_of(board@).take(sq + 1));
    }
    assert(cells_of(board@).take(64) =~= cells_of(board@));
    cells
}

/// Packs 64 cells, two to a byte.
pub fn pack_cells(cells: &Vec<u8>) -> (r: [u8; 32])
    requires
        cells@.len() == 64,
        forall|i: int| 0 <= i < 64 ==> #[trigger] cells@[i] < 16,
    ensures
        cells_of(r@) == cells@,
{
    let mut board: [u8; 32] = [0u8; 32];
    for i in 0..32usize
        invariant
            cells@.len() == 64,
            forall|j: int| 0 <= j < 64 ==> #[trigger] cells@[j] < 16,
            forall|j: int| 0 <= j < 2 * i ==> #[trigger] nibble(board@, j) == cells@[j],
    {
        let hi: u8 = cells[2 * i];
        let lo: u8 = cells[2 * i + 1];
        let ghost before = board@;
        board[i] = hi * 16 + lo;
        assert forall|j: int| 0 <= j < 2 * (i + 1) implies #[trigger] nibble(board@, j) == cells@[j] by {
            if j < 2 * i {
                assert(nibble(before, j) == cells@[j]);
            }
        }
    }
    assert(cells_of(board@) =~= cells@);
    board
}

// ---------------------------------------------------------------------------
// Ranks
// ---------------------------------------------------------------------------

/// Empty cells.
pub open spec fn empty_cells(n: nat) -> Seq<u8> {
    Seq::new(n, |i: int| 0u8)
}

/// The cells that one character of a rank stands for.
pub open spec fn char_cells(c: char) -> Seq<u8> {
    if is_digit(c) {
        empty_cells(digit_value(c))
    } else {
        match piece_code(c) {
            Some(n) => seq![n],
            None => Seq::empty(),
        }
    }
}

/// The cells that a rank stands for.
pub open spec fn rank_cells(s: Seq<char>) -> Seq<u8>
    decreases s.len(),
{
    if s.len() == 0 {
        Seq::empty()
    } else {
        char_cells(s[0]) + rank_cells(s.skip(1))
    }
}

/// The first fault in rank `r` (0 is the topmost), `file` cells of which are
/// already read: an unknown letter, a piece behind the last square of the board,
/// or a rank that does not have eight cells.
pub open spec fn rank_fault(s: Seq<char>, r: nat, file: nat) -> Option<FenError>
    decreases s.len(),
{
    if s.len() == 0 {
        if file == 8 {
            None
        } else {
            Some(FenError::InvalidSquareCount)
        }
    } else if is_digit(s[0]) {
        rank_fault(s.skip(1), r, file + digit_value(s[0]))
    } else if piece_code(s[0]) is None {
        Some(FenError::InvalidPiece(s[0]))
    } else if 8 * r + file >= 64 {
        Some(FenError::InvalidSquareCount)
    } else {
        rank_fault(s.skip(1), r, file + 1)
    }
}

/// The first fault in the ranks from `r` on.
pub open spec fn ranks_fault(ranks: Seq<Seq<char>>, r: nat) -> Option<FenError>
    decreases ranks.len() - r,
{
    if r >= ranks.len() {
        None
    } else {
        match rank_fault(ranks[r as int], r, 0) {
            Some(e) => Some(e),
            None => ranks_fault(ranks, r + 1),
        }
    }
}

/// The cells of ranks, one rank after the other.
pub open spec fn ranks_cells(ranks: Seq<Seq<char>>) -> Seq<u8>
    decreases ranks.len(),
{
    if ranks.len() == 0 {
        Seq::empty()
    } else {
        ranks_cells(ranks.drop_last()) + rank_cells(ranks.last())
    }
}

/// Reads rank `r`, appending its cells.
fn read_rank(s: &[char], r: usize, cells: &mut Vec<u8>) -> (res: Result<(), FenError>)
    requires
        r < 8,
        forall|i: int| 0 <= i < old(cells)@.len() ==> #[trigger] old(cells)@[i] < 16,
    ensures
        match rank_fault(s@, r as nat, 0) {
            None => {
                &&& res is Ok
                &&& final(cells)@ == old(cells)@ + rank_cells(s@)
                &&& final(cells)@.len() == old(cells)@.len() + 8
                &&& forall|i: int| 0 <= i < final(cells)@.len() ==> #[trigger] final(cells)@[i] < 16
            },
            Some(e) => res == Err::<(), FenError>(e),
        },
{
    // Counts the cells read, up to one more than a board has.
    let mut file: usize = 0;
    let ghost mut count: nat = 0;
    assert(s@.skip(0) =~= s@);
    for i in 0..s.len()
        invariant
            r < 8,
            file == if count <= 65 { count } else { 65 },
            rank_fault(s@.skip(i as int), r as nat, count) == rank_fault(s@, r as nat, 0),
            count <= 8 ==> {
                &&& cells@ + rank_cells(s@.skip(i as int)) == old(cells)@ + rank_cells(s@)
                &&& cells@.len() == old(cells)@.len() + count
            },
            forall|j: int| 0 <= j < cells@.len() ==> #[trigger] cells@[j] < 16,
    {
        let c = s[i];
        let ghost rest = s@.skip(i as int);
        assert(rest[0] == c);
        assert(rest.skip(1) =~= s@.skip(i + 1));
        let ghost before = cells@;
        if '0' <= c && c <= '9' {
            let d: usize = ((c as u8) - ('0' as u8)) as usize;
            assert(d as nat == digit_value(c));
            assert(rank_fault(rest, r as nat, count) == rank_fault(
                rest.skip(1),
                r as nat,
                count + d as nat,
            ));
            proof {
                count = count + d as nat;
            }
            if file + d <= 8 {
                for k in 0..d
                    invariant
                        cells@ == before + empty_cells(k as nat),
                        forall|j: int| 0 <= j < cells@.len() ==> #[trigger] cells@[j] < 16,
                {
                    cells.push(0);
                    assert(cells@ =~= before + empty_cells((k + 1) as nat));
                }
                assert(cells@ + rank_cells(rest.skip(1)) =~= before + rank_cells(rest));
            }
            file = if file + d <= 65 {
                file + d
            } else {
                65
            };
        } else {
            let n: u8 = match piece_to_nibble(c) {
                Ok(n) => n,
                Err(e) => {
                    return Err(e);
                },
            };
            if 8 * r + file >= 64 {
                return Err(FenError::InvalidSquareCount);
            }
            assert(rank_fault(rest, r as nat, count) == rank_fault(rest.skip(1), r as nat, count + 1));
            proof {
                count = count + 1;
            }
            if file < 8 {
                cells.push(n);
                assert(cells@ + rank_cells(rest.skip(1)) =~= before + rank_cells(rest));
            }
            file = file + 1;
        }
    }
    assert(s@.skip(s@.len() as int) =~= Seq::empty());
    if file != 8 {
        return Err(FenError::InvalidSquareCount);
    }
    assert(cells@ + rank_cells(Seq::empty()) =~= cells@);
    Ok(())
}

// ---------------------------------------------------------------------------
// The fields behind the placement
// ---------------------------------------------------------------------------

/// The castling rights that a field gives: 1 for `K`, 2 for `Q`, 4 for `k`, 8
/// for `q`, and none for a dash.
pub open spec fn castling_code(s: Seq<char>) -> Option<nat> {
    if s == seq!['-'] {
        Some(0)
    } else if forall|i: int|
        0 <= i < s.len() ==> (#[trigger] s[i] == 'K' || s[i] == 'Q' || s[i] == 'k' || s[i] == 'q') {
        Some(castling_set(s.contains('K'), s.contains('Q'), s.contains('k'), s.contains('q')))
    } else {
        None
    }
}

/// The code of a set of castling rights.
pub open spec fn castling_set(wk: bool, wq: bool, bk: bool, bq: bool) -> nat {
    (if wk {
        1nat
    } else {
        0
    }) + (if wq {
        2nat
    } else {
        0
    }) + (if bk {
        4nat
    } else {
        0
    }) + (if bq {
        8nat
    } else {
        0
    })
}

/// The en-passant code of a field: 0 for a dash, else one more than the number of
/// the square, counted from a8 along the ranks.
pub open spec fn en_passant_code(s: Seq<char>) -> Option<nat> {
    if s == seq!['-'] {
        Some(0)
    } else if s.len() == 2 && 'a' <= s[0] <= 'h' && '1' <= s[1] <= '8' {
        Some(((7 - (s[1] as u32 - '1' as u32)) * 8 + (s[0] as u32 - 'a' as u32) + 1) as nat)
    } else {
        None
    }
}

fn read_castling(s: &[char]) -> (r: Option<u16>)
    ensures
        match r {
            Some(v) => castling_code(s@) == Some(v as nat) && v < 16,
            None => castling_code(s@) is None,
        },
{
    if s.len() == 1 && s[0] == '-' {
        assert(s@ =~= seq!['-']);
        return Some(0);
    }
    let mut wk: bool = false;
    let mut wq: bool = false;
    let mut bk: bool = false;
    let mut bq: bool = false;
    let ghost start = s@.take(0);
    for i in 0..s.len()
        invariant
            s@ != seq!['-'],
            forall|j: int|
                0 <= j < i ==> (#[trigger] s@[j] == 'K' || s@[j] == 'Q' || s@[j] == 'k' || s@[j]
                    == 'q'),
            wk == s@.take(i as int).contains('K'),
            wq == s@.take(i as int).contains('Q'),
            bk == s@.take(i as int).contains('k'),
            bq == s@.take(i as int).contains('q'),
    {
        let c = s[i];
        let ghost before = s@.take(i as int);
        assert(s@.take(i + 1) =~= before.push(c));
        proof {
            lemma_push_contains(before, c, 'K');
            lemma_push_contains(before, c, 'Q');
            lemma_push_contains(before, c, 'k');
            lemma_push_contains(before, c, 'q');
        }
        if c == 'K' {
            wk = true;
        } else if c == 'Q' {
            wq = true;
        } else if c == 'k' {
            bk = true;
        } else if c == 'q' {
            bq = true;
        } else {
            assert(s@[i as int] == c);
            return None;
        }
    }
    assert(s@.take(s@.len() as int) =~= s@);
    let mut v: u16 = 0;
    if wk {
        v = v + 1;
    }
    if wq {
        v = v + 2;
    }
    if bk {
        v = v + 4;
    }
    if bq {
        v = v + 8;
    }
    Some(v)
}

proof fn lemma_push_contains(s: Seq<char>, c: char, x: char)
    ensures
        s.push(c).contains(x) == (s.contains(x) || c == x),
{
    if s.contains(x) {
        let i = choose|i: int| 0 <= i < s.len() && s[i] == x;
        assert(s.push(c)[i] == x);
    }
    if c == x {
        assert(s.push(c)[s.len() as int] == x);
    }
    if s.push(c).contains(x) {
        let i = choose|i: int| 0 <= i < s.push(c).len() && s.push(c)[i] == x;
        if i < s.len() {
            assert(s[i] == x);
        }
    }
}

fn read_en_passant(s: &[char]) -> (r: Option<u16>)
    ensures
        match r {
            Some(v) => en_passant_code(s@) == Some(v as nat) && v <= 64,
            None => en_passant_code(s@) is None,
        },
{
    if s.len() == 1 && s[0] == '-' {
        assert(s@ =~= seq!['-']);
        return Some(0);
    }
    if s.len() != 2 {
        return None;
    }
    let f = s[0];
    let k = s[1];
    if !('a' <= f && f <= 'h') || !('1' <= k && k <= '8') {
        return None;
    }
    let file: u8 = (f as u8) - ('a' as u8);
    let rank: u8 = 7 - ((k as u8) - ('1' as u8));
    Some((rank * 8 + file + 1) as u16)
}

// ---------------------------------------------------------------------------
// Packed positions
// ---------------------------------------------------------------------------

/// A packed position.
#[derive(Debug, Clone, Copy, PartialEq, Eq)]
pub struct PackedFen {
    /// The squares from a8 along the ranks, two to a byte, the first in the high
    /// half.
    pub board: [u8; 32],
    /// Bit 0: the side to move, set for Black. Bits 1-4: the castling rights.
    /// Bits 5-11: the en-passant code.
    pub state: u16,
    /// The halfmove clock.
    pub halfmove: u8,
    /// The fullmove number.
    pub fullmove: u16,
}

/// What a packed position says.
#[verifier::ext_equal]
pub struct FenModel {
    /// The codes on the 64 squares, from a8 along the ranks.
    pub cells: Seq<u8>,
    pub state: nat,
    pub halfmove: nat,
    pub fullmove: nat,
}

impl View for PackedFen {
    type V = FenModel;

    open spec fn view(&self) -> FenModel {
        FenModel {
            cells: cells_of(self.board@),
            state: self.state as nat,
            halfmove: self.halfmove as nat,
            fullmove: self.fullmove as nat,
        }
    }
}

/// The word of a side to move, castling rights and an en-passant code.
pub open spec fn state_word(black: bool, castling: nat, ep: nat) -> nat {
    (if black {
        1nat
    } else {
        0
    }) + castling * 2 + ep * 32
}

/// The `k`-th field, or a default where there are fewer.
pub open spec fn field_or(fs: Seq<Seq<char>>, k: int, default: Seq<char>) -> Seq<char> {
    if k < fs.len() {
        fs[k]
    } else {
        default
    }
}

/// The position that the fields of a text give, or the first fault in it. Only
/// the placement is needed; clocks that are no numbers in range count as 0 and
/// 1.
pub open spec fn read_fen(fs: Seq<Seq<char>>) -> Result<FenModel, FenError> {
    if fs.len() == 0 {
        Err(FenError::MalformedFen)
    } else {
        let ranks = pieces(fs[0], '/');
        let turn = field_or(fs, 1, seq!['w']);
        let castling = castling_code(field_or(fs, 2, seq!['-']));
        let ep = en_passant_code(field_or(fs, 3, seq!['-']));
        if ranks.len() != 8 {
            Err(FenError::InvalidRankCount)
        } else if ranks_fault(ranks, 0) is Some {
            Err(ranks_fault(ranks, 0)->0)
        } else if turn != seq!['w'] && turn != seq!['b'] {
            Err(FenError::InvalidTurn)
        } else if castling is None {
            Err(FenError::InvalidCastling)
        } else if ep is None {
            Err(FenError::InvalidEnPassant)
        } else {
            Ok(
                FenModel {
                    cells: ranks_cells(ranks),
                    state: state_word(turn == seq!['b'], castling->0, ep->0),
                    halfmove: match number(field_or(fs, 4, seq!['0']), 255) {
                        Some(n) => n,
                        None => 0,
                    },
                    fullmove: match number(field_or(fs, 5, seq!['1']), 65535) {
                        Some(n) => n,
                        None => 1,
                    },
                },
            )
        }
    }
}

impl PackedFen {
    /// Packs the position of a FEN text.
    pub fn encode(fen: &str) -> (r: Result<Self, FenError>)
        ensures
            match r {
                Ok(p) => read_fen(fields(fen@)) == Ok::<FenModel, FenError>(p@),
                Err(e) => read_fen(fields(fen@)) == Err::<FenModel, FenError>(e),
            },
    {
        let chars = chars_of(fen);
        let parts = split_fields(chars.as_slice());
        let ghost fs = fields(fen@);
        assert(words(parts@).len() == parts@.len());
        if parts.len() == 0 {
            return Err(FenError::MalformedFen);
        }
        assert(fs[0] == parts@[0]@);
        let ranks = split_on(parts[0].as_slice(), '/');
        let ghost rs = pieces(fs[0], '/');
        assert(words(ranks@).len() == ranks@.len());
        if ranks.len() != 8 {
            return Err(FenError::InvalidRankCount);
        }
        let mut cells: Vec<u8> = Vec::new();
        assert(rs.take(0) =~= Seq::empty());
        for r in 0..8usize
            invariant
                ranks@.len() == 8,
                rs == words(ranks@),
                rs == pieces(fs[0], '/'),
                fs == fields(fen@),
                fs.len() > 0,
                cells@ == ranks_cells(rs.take(r as int)),
                cells@.len() == 8 * r,
                ranks_fault(rs, r as nat) == ranks_fault(rs, 0),
                forall|j: int| 0 <= j < cells@.len() ==> #[trigger] cells@[j] < 16,
        {
            assert(rs[r as int] == ranks@[r as int]@);
            assert(rs.take(r + 1).drop_last() =~= rs.take(r as int));
            match read_rank(ranks[r].as_slice(), r, &mut cells) {
                Ok(_) => {},
                Err(e) => {
                    return Err(e);
                },
            }
        }
        assert(rs.take(8) =~= rs);
        let board = pack_cells(&cells);

        let turn_bit: u16 = if parts.len() > 1 {
            let t = &parts[1];
            assert(fs[1] == t@);
            if t.len() == 1 && t[0] == 'w' {
                assert(t@ =~= seq!['w']);
                0
            } else if t.len() == 1 && t[0] == 'b' {
                assert(t@ =~= seq!['b']);
                assert(seq!['b'][0] != seq!['w'][0]);
                1
            } else {
                return Err(FenError::InvalidTurn);
            }
        } else {
            assert(seq!['b'][0] != seq!['w'][0]);
            0
        };
        assert(seq!['b'][0] != seq!['w'][0]);

        let castling_bits: u16 = if parts.len() > 2 {
            assert(fs[2] == parts@[2]@);
            match read_castling(parts[2].as_slice()) {
                Some(v) => v,
                None => {
                    return Err(FenError::InvalidCastling);
                },
            }
        } else {
            0
        };

        let ep_bits: u16 = if parts.len() > 3 {
            assert(fs[3] == parts@[3]@);
            match read_en_passant(parts[3].as_slice()) {
                Some(v) => v,
                None => {
                    return Err(FenError::InvalidEnPassant);
                },
            }
        } else {
            0
        };

        let state: u16 = turn_bit + castling_bits * 2 + ep_bits * 32;

        let halfmove: u8 = if parts.len() > 4 {
            assert(fs[4] == parts@[4]@);
            match parse_number(parts[4].as_slice(), 255) {
                Some(n) => n as u8,
                None => 0,
            }
        } else {
            proof {
                lemma_one_digit('0');
            }
            0
        };
        let fullmove: u16 = if parts.len() > 5 {
            assert(fs[5] == parts@[5]@);
            match parse_number(parts[5].as_slice(), 65535) {
                Some(n) => n as u16,
                None => 1,
            }
        } else {
            proof {
                lemma_one_digit('1');
            }
            1
        };
        Ok(PackedFen { board, state, halfmove, fullmove })
    }
}

proof fn lemma_one_digit(c: char)
    requires
        is_digit(c),
    ensures
        number(seq![c], 255) == Some(digit_value(c)),
        number(seq![c], 65535) == Some(digit_value(c)),
{
    let s = seq![c];
    assert(s.drop_last() =~= Seq::empty());
    assert(crate::text::digits_value(Seq::empty()) == 0);
    assert(crate::text::digits_value(s) == digit_value(c));
}

// ---------------------------------------------------------------------------
// Writing a position
// ---------------------------------------------------------------------------

/// The digit for a run of empty squares, nothing for no squares.
pub open spec fn run_text(run: nat) -> Seq<char> {
    if run > 0 {
        decimal(run)
    } else {
        Seq::empty()
    }
}

/// The letter of a code, nothing for a code without a piece.
pub open spec fn letter_text(n: u8) -> Seq<char> {
    match piece_letter(n) {
        Some(c) => seq![c],
        None => Seq::empty(),
    }
}

/// The text of the cells of a rank, behind a run of empty cells: letters for
/// pieces, the length of each run of empty cells between them.
pub open spec fn rank_text(cells: Seq<u8>, run: nat) -> Seq<char>
    decreases cells.len(),
{
    if cells.len() == 0 {
        run_text(run)
    } else if cells[0] == 0 {
        rank_text(cells.skip(1), run + 1)
    } else {
        run_text(run) + letter_text(cells[0]) + rank_text(cells.skip(1), 0)
    }
}

/// The texts of the eight ranks.
pub open spec fn rank_texts(cells: Seq<u8>) -> Seq<Seq<char>> {
    Seq::new(8, |r: int| rank_text(cells.subrange(8 * r, 8 * r + 8), 0))
}

/// The placement field: the eight ranks with a slash between neighbours.
pub open spec fn placement_text(cells: Seq<u8>) -> Seq<char> {
    joined(rank_texts(cells), seq!['/'])
}

/// The side-to-move field.
pub open spec fn turn_text(state: nat) -> Seq<char> {
    if state % 2 == 0 {
        seq!['w']
    } else {
        seq!['b']
    }
}

/// A letter where a right is held, else nothing.
pub open spec fn right_text(held: bool, c: char) -> Seq<char> {
    if held {
        seq![c]
    } else {
        Seq::empty()
    }
}

/// The castling field.
pub open spec fn castling_text(state: nat) -> Seq<char> {
    let c = (state / 2) % 16;
    if c == 0 {
        seq!['-']
    } else {
        right_text(c % 2 == 1, 'K') + right_text((c / 2) % 2 == 1, 'Q') + right_text(
            (c / 4) % 2 == 1,
            'k',
        ) + right_text(c / 8 == 1, 'q')
    }
}

/// The en-passant field.
pub open spec fn en_passant_text(state: nat) -> Seq<char> {
    let ep = (state / 32) % 128;
    if ep == 0 || ep > 64 {
        seq!['-']
    } else {
        seq![
            ('a' as u32 + (ep - 1) % 8) as char,
            ('1' as u32 + (7 - (ep - 1) / 8)) as char,
        ]
    }
}

/// The fields of the FEN of a position.
pub open spec fn fen_fields(m: FenModel) -> Seq<Seq<char>> {
    seq![
        placement_text(m.cells),
        turn_text(m.state),
        castling_text(m.state),
        en_passant_text(m.state),
        decimal(m.halfmove),
        decimal(m.fullmove),
    ]
}

/// The FEN of a position.
#[verifier::opaque]
pub open spec fn fen_text(m: FenModel) -> Seq<char> {
    joined(fen_fields(m), seq![' '])
}

/// Appends the text of eight cells from a position on.
fn push_rank(out: &mut String, cells: &Vec<u8>, start: usize)
    requires
        start + 8 <= cells@.len(),
    ensures
        final(out)@ == old(out)@ + rank_text(cells@.subrange(start as int, start + 8), 0),
{
    let ghost all = cells@.subrange(start as int, start + 8);
    let mut empty_run: u64 = 0;
    assert(all.skip(0) =~= all);
    for file in 0..8usize
        invariant
            start + 8 <= cells.len(),
            all == cells@.subrange(start as int, start + 8),
            empty_run <= file,
            out@ + rank_text(all.skip(file as int), empty_run as nat) == old(out)@ + rank_text(all, 0),
    {
        let n: u8 = cells[start + file];
        let ghost rest = all.skip(file as int);
        assert(rest[0] == n);
        assert(rest.skip(1) =~= all.skip(file + 1));
        let ghost before = out@;
        if n == 0 {
            empty_run = empty_run + 1;
        } else {
            let ghost run = empty_run as nat;
            if empty_run > 0 {
                push_decimal(out, empty_run);
                empty_run = 0;
            }
            if let Some(p) = nibble_to_piece(n) {
                out.push(p);
            }
            assert(out@ =~= before + run_text(run) + letter_text(n));
            assert(out@ + rank_text(rest.skip(1), 0) =~= before + rank_text(rest, run));
        }
    }
    let ghost before = out@;
    assert(all.skip(8) =~= Seq::empty());
    if empty_run > 0 {
        push_decimal(out, empty_run);
    }
    assert(out@ =~= before + run_text(empty_run as nat));
}

/// Appends the placement of 64 cells.
pub fn push_placement(out: &mut String, cells: &Vec<u8>)
    requires
        cells@.len() == 64,
    ensures
        final(out)@ == old(out)@ + placement_text(cells@),
{
    let ghost ranks = rank_texts(cells@);
    let ghost slash = seq!['/'];
    for r in 0..8usize
        invariant
            cells@.len() == 64,
            ranks == rank_texts(cells@),
            slash == seq!['/'],
            out@ + crate::text::joined_from(ranks, slash, r as int) == old(out)@ + joined(
                ranks,
                slash,
            ),
    {
        let ghost before = out@;
        if r > 0 {
            out.push('/');
        }
        push_rank(out, cells, 8 * r);
        proof {
            let tail = ranks.skip(r as int);
            assert(tail[0] == ranks[r as int]);
            assert(tail.skip(1) =~= ranks.skip(r + 1));
            if r == 0 {
                assert(tail =~= ranks);
            }
            assert(out@ + crate::text::joined_from(ranks, slash, r + 1) =~= before
                + crate::text::joined_from(ranks, slash, r as int));
        }
    }
    assert(out@ =~= old(out)@ + joined(ranks, slash));
}

fn push_castling(out: &mut String, state: u16)
    ensures
        final(out)@ == old(out)@ + castling_text(state as nat),
{
    let c: u16 = (state / 2) % 16;
    if c == 0 {
        out.push('-');
    } else {
        if c % 2 == 1 {
            out.push('K');
        }
        if (c / 2) % 2 == 1 {
            out.push('Q');
        }
        if (c / 4) % 2 == 1 {
            out.push('k');
        }
        if c / 8 == 1 {
            out.push('q');
        }
    }
    assert(out@ =~= old(out)@ + castling_text(state as nat));
}

fn push_en_passant(out: &mut String, state: u16)
    ensures
        final(out)@ == old(out)@ + en_passant_text(state as nat),
{
    let ep: u16 = (state / 32) % 128;
    if ep == 0 || ep > 64 {
        out.push('-');
    } else {
        let sq: u8 = (ep - 1) as u8;
        out.push(('a' as u8 + sq % 8) as char);
        out.push(('1' as u8 + (7 - sq / 8)) as char);
    }
    assert(out@ =~= old(out)@ + en_passant_text(state as nat));
}

/// The FEN of 64 cells, a state word and the two clocks.
pub fn fen_string_of(cells: &Vec<u8>, state: u16, halfmove: u64, fullmove: u64) -> (r: String)
    requires
        cells@.len() == 64,
    ensures
        r@ == fen_text(
            (FenModel {
                cells: cells@,
                state: state as nat,
                halfmove: halfmove as nat,
                fullmove: fullmove as nat,
            }),
        ),
{
    let mut placement = String::new();
    push_placement(&mut placement, cells);
    let mut turn = String::new();
    if state % 2 == 0 {
        turn.push('w');
    } else {
        turn.push('b');
    }
    let mut castling = String::new();
    push_castling(&mut castling, state);
    let mut en_passant = String::new();
    push_en_passant(&mut en_passant, state);
    let mut half = String::new();
    push_decimal(&mut half, halfmove);
    let mut full = String::new();
    push_decimal(&mut full, fullmove);
    let ghost m = FenModel {
        cells: cells@,
        state: state as nat,
        halfmove: halfmove as nat,
        fullmove: fullmove as nat,
    };
    assert(placement@ =~= placement_text(m.cells));
    assert(turn@ =~= turn_text(m.state));
    assert(castling@ =~= castling_text(m.state));
    assert(en_passant@ =~= en_passant_text(m.state));
    assert(half@ =~= decimal(m.halfmove));
    assert(full@ =~= decimal(m.fullmove));
    let parts: Vec<String> = vec![placement, turn, castling, en_passant, half, full];
    assert(texts(parts@) =~= fen_fields(m));
    let mut out = String::new();
    proof {
        reveal_strlit(" ");
        assert(" "@ =~= seq![' ']);
    }
    push_joined(&mut out, &parts, " ");
    proof {
        reveal(fen_text);
    }
    assert(out@ =~= fen_text(m));
    out
}

impl PackedFen {
    /// The FEN of the position.
    pub fn to_fen(&self) -> (r: String)
        ensures
            r@ == fen_text(self@),
    {
        let cells = unpack_board(&self.board);
        fen_string_of(&cells, self.state, self.halfmove as u64, self.fullmove as u64)
    }
}

// ---------------------------------------------------------------------------
// Writing and reading belong together
// ---------------------------------------------------------------------------

/// A position that FEN can carry: pieces or nothing on every square, and an
/// en-passant code that is a square or none.
pub open spec fn fen_model(m: FenModel) -> bool {
    &&& m.cells.len() == 64
    &&& forall|i: int| 0 <= i < 64 ==> #[trigger] m.cells[i] <= 12
    &&& m.state / 32 <= 64
    &&& m.halfmove <= 255
    &&& m.fullmove <= 65535
}

/// A character of a placement: a digit or a piece letter.
pub open spec fn placement_char(c: char) -> bool {
    is_digit(c) || piece_code(c) is Some
}

/// Reading the text of a rank gives its cells, without a fault.
proof fn lemma_rank_text(cells: Seq<u8>, run: nat, r: nat, file: nat)
    requires
        r < 8,
        file + run + cells.len() == 8,
        forall|i: int| 0 <= i < cells.len() ==> #[trigger] cells[i] <= 12,
    ensures
        rank_fault(rank_text(cells, run), r, file) is None,
        rank_cells(rank_text(cells, run)) == empty_cells(run) + cells,
        forall|i: int|
            0 <= i < rank_text(cells, run).len() ==> placement_char(#[trigger] rank_text(cells, run)[i]),
    decreases cells.len(),
{
    if cells.len() == 0 {
        lemma_run_text(run, Seq::empty(), r, file);
        assert(run_text(run) + Seq::<char>::empty() =~= run_text(run));
        assert(empty_cells(run) + cells =~= empty_cells(run));
        assert(empty_cells(run) + rank_cells(Seq::empty()) =~= empty_cells(run));
    } else {
        let tail = cells.skip(1);
        assert forall|i: int| 0 <= i < tail.len() implies #[trigger] tail[i] <= 12 by {
            assert(tail[i] == cells[i + 1]);
        }
        assert(cells[0] <= 12);
        if cells[0] == 0 {
            lemma_rank_text(tail, run + 1, r, file);
            assert(empty_cells(run + 1) + tail =~= empty_cells(run) + cells);
        } else {
            lemma_rank_text(tail, 0, r, file + run + 1);
            let c = piece_letter(cells[0])->0;
            law_piece_round_trip(c, cells[0]);
            let rest = seq![c] + rank_text(tail, 0);
            assert(rest.skip(1) =~= rank_text(tail, 0));
            assert(run_text(run) + letter_text(cells[0]) + rank_text(tail, 0) =~= run_text(run) + rest);
            lemma_run_text(run, rest, r, file);
            assert(empty_cells(0) + tail =~= tail);
            assert(empty_cells(run) + rank_cells(rest) =~= empty_cells(run) + cells);
        }
    }
}

/// Reading the digit for a run of empty squares.
proof fn lemma_run_text(run: nat, rest: Seq<char>, r: nat, file: nat)
    requires
        run <= 8,
        forall|i: int| 0 <= i < rest.len() ==> placement_char(#[trigger] rest[i]),
    ensures
        rank_fault(run_text(run) + rest, r, file) == rank_fault(rest, r, file + run),
        rank_cells(run_text(run) + rest) == empty_cells(run) + rank_cells(rest),
        forall|i: int|
            0 <= i < (run_text(run) + rest).len() ==> placement_char(
                #[trigger] (run_text(run) + rest)[i],
            ),
{
    let s = run_text(run) + rest;
    if run > 0 {
        let c = crate::text::digit_char(run);
        assert(s.skip(1) =~= rest);
        assert(s[0] == c && is_digit(c) && digit_value(c) == run);
    } else {
        assert(s =~= rest);
        assert(empty_cells(0) + rank_cells(rest) =~= rank_cells(rest));
    }
}

/// Reading the ranks of a placement gives its cells, without a fault.
proof fn lemma_placement(cells: Seq<u8>)
    requires
        cells.len() == 64,
        forall|i: int| 0 <= i < 64 ==> #[trigger] cells[i] <= 12,
    ensures
        pieces(placement_text(cells), '/') == rank_texts(cells),
        ranks_fault(rank_texts(cells), 0) is None,
        ranks_cells(rank_texts(cells)) == cells,
        crate::text::no_white(placement_text(cells)),
        placement_text(cells).len() > 0,
{
    let ranks = rank_texts(cells);
    assert forall|r: int| 0 <= r < 8 implies {
        &&& rank_fault(#[trigger] ranks[r], r as nat, 0) is None
        &&& rank_cells(ranks[r]) == cells.subrange(8 * r, 8 * r + 8)
        &&& !ranks[r].contains('/')
        &&& crate::text::no_white(ranks[r])
        &&& ranks[r].len() > 0
    } by {
        let sub = cells.subrange(8 * r, 8 * r + 8);
        assert forall|i: int| 0 <= i < sub.len() implies #[trigger] sub[i] <= 12 by {
            assert(sub[i] == cells[8 * r + i]);
        }
        lemma_rank_text(sub, 0, r as nat, 0);
        assert(empty_cells(0) + sub =~= sub);
        let t = ranks[r];
        if t.contains('/') {
            let i = choose|i: int| 0 <= i < t.len() && t[i] == '/';
            assert(placement_char(t[i]));
        }
        assert forall|i: int| 0 <= i < t.len() implies !crate::text::is_white(#[trigger] t[i]) by {
            assert(placement_char(t[i]));
        }
        if t.len() == 0 {
            assert(rank_cells(t).len() == 0);
        }
    }
    crate::text::lemma_pieces_joined(ranks, '/');
    lemma_ranks_clear(ranks, 0);
    lemma_ranks_joined(ranks, cells, 8);
    assert(ranks.take(8) =~= ranks);
    assert(cells.take(64) =~= cells);
    lemma_joined_no_white(ranks, '/');
    assert(ranks[0].len() > 0);
}

proof fn lemma_ranks_clear(ranks: Seq<Seq<char>>, r: nat)
    requires
        ranks.len() == 8,
        r <= 8,
        forall|i: int| 0 <= i < 8 ==> rank_fault(#[trigger] ranks[i], i as nat, 0) is None,
    ensures
        ranks_fault(ranks, r) is None,
    decreases 8 - r,
{
    if r < 8 {
        assert(rank_fault(ranks[r as int], r, 0) is None);
        lemma_ranks_clear(ranks, r + 1);
    }
}

proof fn lemma_ranks_joined(ranks: Seq<Seq<char>>, cells: Seq<u8>, n: nat)
    requires
        ranks.len() == 8,
        cells.len() == 64,
        n <= 8,
        forall|i: int|
            0 <= i < 8 ==> rank_cells(#[trigger] ranks[i]) == cells.subrange(8 * i, 8 * i + 8),
    ensures
        ranks_cells(ranks.take(n as int)) == cells.take(8 * n as int),
    decreases n,
{
    if n > 0 {
        lemma_ranks_joined(ranks, cells, (n - 1) as nat);
        assert(ranks.take(n as int).drop_last() =~= ranks.take(n - 1));
        assert(ranks.take(n as int).last() == ranks[n - 1]);
        assert(cells.take(8 * (n - 1)) + cells.subrange(8 * (n - 1), 8 * (n - 1) + 8) =~= cells.take(
            8 * n as int,
        ));
    } else {
        assert(ranks_cells(ranks.take(0)) =~= cells.take(0));
    }
}

/// Joining texts without white space with a character that is none adds none.
proof fn lemma_joined_no_white(parts: Seq<Seq<char>>, sep: char)
    requires
        !crate::text::is_white(sep),
        forall|i: int| 0 <= i < parts.len() ==> crate::text::no_white(#[trigger] parts[i]),
    ensures
        crate::text::no_white(joined(parts, seq![sep])),
        parts.len() > 0 ==> joined(parts, seq![sep]).len() >= parts[0].len(),
    decreases parts.len(),
{
    if parts.len() == 1 {
        assert(crate::text::no_white(parts[0]));
    } else if parts.len() > 1 {
        let tail = parts.skip(1);
        assert forall|i: int| 0 <= i < tail.len() implies crate::text::no_white(#[trigger] tail[i]) by {
            assert(tail[i] == parts[i + 1]);
        }
        lemma_joined_no_white(tail, sep);
        assert(crate::text::no_white(parts[0]));
        let whole = joined(parts, seq![sep]);
        let rest = joined(tail, seq![sep]);
        assert forall|i: int| 0 <= i < whole.len() implies !crate::text::is_white(#[trigger] whole[i]) by {
            if i < parts[0].len() {
                assert(whole[i] == parts[0][i]);
            } else if i > parts[0].len() {
                assert(whole[i] == rest[i - parts[0].len() - 1]);
            }
        }
    }
}

/// A state word is made of its three parts.
proof fn lemma_state_word(state: nat)
    ensures
        state_word(state % 2 != 0, (state / 2) % 16, state / 32) == state,
{
    assert(state / 2 / 16 == state / 32);
}

/// A castling code is made of its four rights.
proof fn lemma_rights_code(c: nat)
    requires
        c < 16,
    ensures
        castling_set(c % 2 == 1, (c / 2) % 2 == 1, (c / 4) % 2 == 1, c / 8 == 1) == c,
        c > 0 ==> c % 2 == 1 || (c / 2) % 2 == 1 || (c / 4) % 2 == 1 || c / 8 == 1,
{
}

/// The castling field is read back.
proof fn lemma_castling_field(state: nat)
    ensures
        castling_code(castling_text(state)) == Some((state / 2) % 16),
        crate::text::no_white(castling_text(state)),
        castling_text(state).len() > 0,
{
    let c = (state / 2) % 16;
    if c == 0 {
        assert(castling_text(state) == seq!['-']);
    } else {
        lemma_rights_code(c);
        lemma_rights(c % 2 == 1, (c / 2) % 2 == 1, (c / 4) % 2 == 1, c / 8 == 1);
    }
}

/// The en-passant field is read back.
proof fn lemma_en_passant_field(state: nat)
    requires
        state / 32 <= 64,
    ensures
        en_passant_code(en_passant_text(state)) == Some(state / 32),
        crate::text::no_white(en_passant_text(state)),
{
    let ep = state / 32;
    let u = en_passant_text(state);
    if ep == 0 {
        assert(u == seq!['-']);
    } else {
        let (f, k) = ((ep - 1) % 8, (ep - 1) / 8);
        assert(0 <= f < 8 && 0 <= k < 8);
        assert(u.len() == 2);
        assert(u[0] as u32 - 'a' as u32 == f);
        assert(u[1] as u32 - '1' as u32 == 7 - k);
        assert('a' <= u[0] <= 'h' && '1' <= u[1] <= '8');
    }
}

/// The letters of a set of castling rights say which rights are held.
proof fn lemma_rights(a: bool, b: bool, d: bool, e: bool)
    requires
        a || b || d || e,
    ensures
        ({
            let t = right_text(a, 'K') + right_text(b, 'Q') + right_text(d, 'k') + right_text(
                e,
                'q',
            );
            &&& castling_code(t) == Some(castling_set(a, b, d, e))
            &&& crate::text::no_white(t)
            &&& t.len() > 0
        }),
{
    let ka = right_text(a, 'K');
    let kb = right_text(b, 'Q');
    let kd = right_text(d, 'k');
    let ke = right_text(e, 'q');
    let t = ka + kb + kd + ke;
    let (i, j, k) = (ka.len() as int, (ka + kb).len() as int, (ka + kb + kd).len() as int);
    assert forall|x: int| 0 <= x < t.len() implies (#[trigger] t[x] == 'K' || t[x] == 'Q' || t[x]
        == 'k' || t[x] == 'q') by {
        if x < i {
            assert(t[x] == ka[x]);
        } else if x < j {
            assert(t[x] == kb[x - i]);
        } else if x < k {
            assert(t[x] == kd[x - j]);
        } else {
            assert(t[x] == ke[x - k]);
        }
    }
    assert(t.contains('K') == a) by {
        if a {
            assert(t[0] == 'K');
        } else if t.contains('K') {
            let x = choose|x: int| 0 <= x < t.len() && t[x] == 'K';
            assert(x >= i);
        }
    }
    assert(t.contains('Q') == b) by {
        if b {
            assert(t[i] == 'Q');
        } else if t.contains('Q') {
            let x = choose|x: int| 0 <= x < t.len() && t[x] == 'Q';
            assert(x < i || x >= j);
        }
    }
    assert(t.contains('k') == d) by {
        if d {
            assert(t[j] == 'k');
        } else if t.contains('k') {
            let x = choose|x: int| 0 <= x < t.len() && t[x] == 'k';
            assert(x < j || x >= k);
        }
    }
    assert(t.contains('q') == e) by {
        if e {
            assert(t[k] == 'q');
        } else if t.contains('q') {
            let x = choose|x: int| 0 <= x < t.len() && t[x] == 'q';
            assert(x < k);
        }
    }
    assert(t[0] != '-');
    if t == seq!['-'] {
        assert(t[0] == '-');
    }
}

/// The fields of the FEN of a position are read apart again, and what they say of
/// the state is the state.
pub proof fn lemma_fen_fields(m: FenModel)
    requires
        m.cells.len() == 64,
        forall|i: int| 0 <= i < 64 ==> #[trigger] m.cells[i] <= 12,
        m.state / 32 <= 64,
    ensures
        fields(fen_text(m)) == fen_fields(m),
        castling_code(castling_text(m.state)) == Some((m.state / 2) % 16),
        en_passant_code(en_passant_text(m.state)) == Some(m.state / 32),
        state_word(m.state % 2 != 0, (m.state / 2) % 16, m.state / 32) == m.state,
        pieces(placement_text(m.cells), '/') == rank_texts(m.cells),
        ranks_fault(rank_texts(m.cells), 0) is None,
        ranks_cells(rank_texts(m.cells)) == m.cells,
{
    reveal(fen_text);
    lemma_placement(m.cells);
    lemma_state_word(m.state);
    lemma_castling_field(m.state);
    lemma_en_passant_field(m.state);
    crate::text::lemma_decimal(m.halfmove);
    crate::text::lemma_decimal(m.fullmove);
    let fs = fen_fields(m);
    assert forall|i: int| 0 <= i < fs.len() implies (#[trigger] fs[i]).len() > 0
        && crate::text::no_white(fs[i]) by {
        assert(i == 0 || i == 1 || i == 2 || i == 3 || i == 4 || i == 5);
    }
    crate::text::lemma_fields_joined(fs);
}

/// A position that FEN can carry comes back from its FEN: encoding what
/// `to_fen` writes gives the position.
pub proof fn law_fen_round_trip(m: FenModel)
    requires
        fen_model(m),
    ensures
        read_fen(fields(fen_text(m))) == Ok::<FenModel, FenError>(m),
{
    lemma_fen_fields(m);
    crate::text::lemma_decimal_number(m.halfmove, 255);
    crate::text::lemma_decimal_number(m.fullmove, 65535);
    assert(seq!['b'][0] != seq!['w'][0]);
    assert(m.state % 2 != 0 ==> turn_text(m.state) == seq!['b']);
}

/// A text that is the FEN of a position is unchanged by reading and writing it.
pub proof fn law_fen_text_round_trip(s: Seq<char>, m: FenModel)
    requires
        fen_model(m),
        s == fen_text(m),
    ensures
        read_fen(fields(s)) matches Ok(read) && fen_text(read) == s,
{
    law_fen_round_trip(m);
}

} // verus!
