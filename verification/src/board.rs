//! Boards as an occupancy mask and the codes of the pieces on it: eight bytes
//! and sixteen, for up to 32 pieces.

use vstd::prelude::*;

use crate::fen::{cells_of, nibble, pack_cells, placement_text, push_placement, unpack_board};

verus! {

/// A board: which squares hold a piece, and the pieces in the order of the
/// squares.
#[derive(Debug, Clone, Copy, PartialEq, Eq)]
pub struct CompactBoard {
    /// Bit `i` is set where square `i`, counted from a8 along the ranks, holds a
    /// piece.
    pub occupied: u64,
    /// The codes of the first 32 pieces, two to a byte, the first in the high
    /// half.
    pub pieces: [u8; 16],
}

/// Whether a square is in a mask.
pub open spec fn holds(occupied: u64, sq: int) -> bool {
    (occupied >> (sq as u64)) & 1 == 1
}

/// How many squares of a mask lie before a square.
pub open spec fn before(occupied: u64, sq: int) -> nat
    decreases sq,
{
    if sq <= 0 {
        0
    } else {
        before(occupied, sq - 1) + (if holds(occupied, sq - 1) {
            1nat
        } else {
            0
        })
    }
}

/// The codes of the cells that are not empty, in order.
pub open spec fn pieces_of(cells: Seq<u8>) -> Seq<u8>
    decreases cells.len(),
{
    if cells.len() == 0 {
        Seq::empty()
    } else if cells.last() == 0 {
        pieces_of(cells.drop_last())
    } else {
        pieces_of(cells.drop_last()).push(cells.last())
    }
}

/// The first `n` codes, filled up with empty ones.
pub open spec fn filled(codes: Seq<u8>, n: nat) -> Seq<u8> {
    Seq::new(
        n,
        |k: int|
            if k < codes.len() {
                codes[k]
            } else {
                0
            },
    )
}

/// The first 32 codes, filled up with empty ones.
pub open spec fn first_codes(codes: Seq<u8>) -> Seq<u8> {
    filled(codes, 32)
}

/// The codes behind the 32nd.
pub open spec fn more_codes(codes: Seq<u8>) -> Seq<u8> {
    if codes.len() <= 32 {
        Seq::empty()
    } else {
        codes.skip(32)
    }
}

/// The codes that bytes hold, two to a byte.
pub open spec fn codes_of(pieces: Seq<u8>) -> Seq<u8> {
    Seq::new(2 * pieces.len(), |k: int| nibble(pieces, k))
}

/// The cells of a mask and the codes on it; squares behind the last code are empty.
pub open spec fn spread(occupied: u64, codes: Seq<u8>) -> Seq<u8> {
    Seq::new(
        64,
        |sq: int|
            if holds(occupied, sq) && before(occupied, sq) < codes.len() {
                codes[before(occupied, sq) as int]
            } else {
                0
            },
    )
}

/// The mask holds exactly the squares whose cells are not empty.
pub open spec fn mask_of(occupied: u64, cells: Seq<u8>) -> bool {
    forall|sq: int| 0 <= sq < 64 ==> #[trigger] holds(occupied, sq) == (cells[sq] != 0)
}

proof fn lemma_set_bit(occupied: u64, i: u64, j: u64)
    by (bit_vector)
    requires
        i < 64,
        j < 64,
    ensures
        ((occupied | (1u64 << i)) >> j) & 1 == 1 <==> (((occupied >> j) & 1 == 1) || i == j),
{
}

proof fn lemma_no_bits(j: u64)
    by (bit_vector)
    requires
        j < 64,
    ensures
        (0u64 >> j) & 1 != 1,
{
}

/// Where the mask is that of the cells, the count before a square is the number
/// of pieces on the squares before it, and the piece of a square is the one with
/// that number.
pub proof fn lemma_pieces_before(occupied: u64, cells: Seq<u8>, n: int)
    requires
        0 <= n <= 64,
        cells.len() == 64,
        mask_of(occupied, cells),
    ensures
        before(occupied, n) == pieces_of(cells.take(n)).len(),
        forall|sq: int|
            0 <= sq < n && holds(occupied, sq) ==> {
                &&& #[trigger] before(occupied, sq) < pieces_of(cells.take(n)).len()
                &&& pieces_of(cells.take(n))[before(occupied, sq) as int] == cells[sq]
            },
    decreases n,
{
    if n > 0 {
        lemma_pieces_before(occupied, cells, n - 1);
        assert(cells.take(n).drop_last() =~= cells.take(n - 1));
        assert(holds(occupied, n - 1) == (cells[n - 1] != 0));
        let init = pieces_of(cells.take(n - 1));
        assert forall|sq: int| 0 <= sq < n && holds(occupied, sq) implies {
            &&& #[trigger] before(occupied, sq) < pieces_of(cells.take(n)).len()
            &&& pieces_of(cells.take(n))[before(occupied, sq) as int] == cells[sq]
        } by {
            if sq < n - 1 {
                assert(before(occupied, sq) < init.len());
            }
        }
    }
}

/// The pieces of cells that fit in four bits fit in four bits.
pub proof fn lemma_pieces_of_small(cells: Seq<u8>)
    requires
        forall|i: int| 0 <= i < cells.len() ==> #[trigger] cells[i] < 16,
    ensures
        pieces_of(cells).len() <= cells.len(),
        forall|i: int| 0 <= i < pieces_of(cells).len() ==> 0 < #[trigger] pieces_of(cells)[i] < 16,
    decreases cells.len(),
{
    if cells.len() > 0 {
        lemma_pieces_of_small(cells.drop_last());
    }
}

/// The squares of a mask.
pub fn count_squares(occupied: u64) -> (r: usize)
    ensures
        r == before(occupied, 64),
        r <= 64,
{
    let mut n: usize = 0;
    for sq in 0..64u64
        invariant
            n == before(occupied, sq as int),
            n <= sq,
    {
        if (occupied >> sq) & 1 == 1 {
            n = n + 1;
        }
    }
    n
}

/// The cells of a mask and the pieces on it.
pub fn unpack_pieces(occupied: u64, pieces: &[u8]) -> (r: Vec<u8>)
    ensures
        r@ == spread(occupied, codes_of(pieces@)),
        forall|i: int| 0 <= i < 64 ==> #[trigger] r@[i] < 16,
{
    let ghost all = spread(occupied, codes_of(pieces@));
    let mut cells: Vec<u8> = Vec::new();
    let mut piece_idx: usize = 0;
    for sq in 0..64u64
        invariant
            piece_idx == before(occupied, sq as int),
            piece_idx <= sq,
            all == spread(occupied, codes_of(pieces@)),
            cells@ == all.take(sq as int),
            forall|i: int| 0 <= i < cells@.len() ==> #[trigger] cells@[i] < 16,
    {
        let mut n: u8 = 0;
        if (occupied >> sq) & 1 == 1 {
            if piece_idx / 2 < pieces.len() {
                let byte: u8 = pieces[piece_idx / 2];
                n = if piece_idx % 2 == 0 {
                    byte / 16
                } else {
                    byte % 16
                };
            }
            piece_idx = piece_idx + 1;
        }
        cells.push(n);
        assert(cells@ =~= all.take(sq + 1));
    }
    assert(all.take(64) =~= all);
    cells
}

/// The pieces of a board behind the 32nd, two to a byte.
pub fn more_pieces(board: &[u8; 32]) -> (r: Vec<u8>)
    ensures
        r@.len() == (more_codes(pieces_of(cells_of(board@))).len() + 1) / 2,
        codes_of(r@) == filled(more_codes(pieces_of(cells_of(board@))), 2 * r@.len()),
{
    let cells = unpack_board(board);
    let mut codes: Vec<u8> = Vec::new();
    let mut count: usize = 0;
    assert(cells@.take(0) =~= Seq::empty());
    for sq in 0..64usize
        invariant
            cells@ == cells_of(board@),
            cells@.len() == 64,
            count <= sq,
            count == pieces_of(cells@.take(sq as int)).len(),
            codes@ == more_codes(pieces_of(cells@.take(sq as int))),
    {
        let n: u8 = cells[sq];
        assert(cells@.take(sq + 1).drop_last() =~= cells@.take(sq as int));
        if n != 0 {
            if count >= 32 {
                codes.push(n);
            }
            count = count + 1;
            assert(codes@ =~= more_codes(pieces_of(cells@.take(sq + 1))));
        }
    }
    assert(cells@.take(64) =~= cells@);
    let ghost list = more_codes(pieces_of(cells@));
    proof {
        lemma_cells_small(board@);
        lemma_pieces_of_small(cells@);
        assert forall|i: int| 0 <= i < list.len() implies #[trigger] list[i] < 16 by {
            assert(list[i] == pieces_of(cells@)[i + 32]);
        }
    }
    pack_codes(&codes)
}

/// Codes of four bits, two to a byte, the first in the high half.
fn pack_codes(codes: &Vec<u8>) -> (r: Vec<u8>)
    requires
        codes@.len() < usize::MAX,
        forall|i: int| 0 <= i < codes@.len() ==> #[trigger] codes@[i] < 16,
    ensures
        r@.len() == (codes@.len() + 1) / 2,
        codes_of(r@) == filled(codes@, 2 * r@.len()),
{
    let mut out: Vec<u8> = Vec::new();
    let len: usize = (codes.len() + 1) / 2;
    for i in 0..len
        invariant
            len == (codes@.len() + 1) / 2,
            codes@.len() < usize::MAX,
            forall|j: int| 0 <= j < codes@.len() ==> #[trigger] codes@[j] < 16,
            out@.len() == i,
            forall|j: int|
                0 <= j < 2 * i ==> #[trigger] nibble(out@, j) == filled(codes@, 2 * len as nat)[j],
    {
        let hi: u8 = codes[2 * i];
        let lo: u8 = if 2 * i + 1 < codes.len() {
            codes[2 * i + 1]
        } else {
            0
        };
        let ghost was = out@;
        assert(hi < 16 && lo < 16);
        out.push(hi * 16 + lo);
        assert forall|j: int| 0 <= j < 2 * (i + 1) implies #[trigger] nibble(out@, j) == filled(
            codes@,
            2 * len as nat,
        )[j] by {
            if j < 2 * i {
                assert(nibble(was, j) == filled(codes@, 2 * len as nat)[j]);
            }
        }
    }
    assert(codes_of(out@) =~= filled(codes@, 2 * len as nat));
    out
}

impl CompactBoard {
    /// The board without pieces.
    pub fn empty() -> (r: Self)
        ensures
            r.occupied == 0,
            forall|i: int| 0 <= i < 16 ==> #[trigger] r.pieces@[i] == 0,
    {
        CompactBoard { occupied: 0, pieces: [0u8; 16] }
    }

    /// The 32 codes of the board.
    pub open spec fn codes(&self) -> Seq<u8> {
        codes_of(self.pieces@)
    }

    /// The cells of the board.
    pub open spec fn cells(&self) -> Seq<u8> {
        spread(self.occupied, self.codes())
    }

    /// The mask and the first 32 pieces of a board of 64 four-bit cells.
    pub fn from_board_nibbles(board: &[u8; 32]) -> (r: Self)
        ensures
            mask_of(r.occupied, cells_of(board@)),
            r.codes() == first_codes(pieces_of(cells_of(board@))),
    {
        let cells = unpack_board(board);
        let mut occupied: u64 = 0;
        let mut codes: Vec<u8> = Vec::new();
        assert forall|j: int| 0 <= j < 64 implies !#[trigger] holds(0, j) by {
            lemma_no_bits(j as u64);
        }
        assert(cells@.take(0) =~= Seq::empty());
        for sq in 0..64u64
            invariant
                cells@ == cells_of(board@),
                forall|j: int|
                    0 <= j < 64 ==> #[trigger] holds(occupied, j) == (j < sq && cells@[j] != 0),
                codes@ == first_part(pieces_of(cells@.take(sq as int))),
        {
            let n: u8 = cells[sq as usize];
            assert(cells@.take(sq + 1).drop_last() =~= cells@.take(sq as int));
            if n != 0 {
                let ghost was = occupied;
                occupied = occupied | (1u64 << sq);
                assert forall|j: int| 0 <= j < 64 implies #[trigger] holds(occupied, j) == (j < sq
                    + 1 && cells@[j] != 0) by {
                    lemma_set_bit(was, sq, j as u64);
                    assert(holds(was, j) == (j < sq && cells@[j] != 0));
                }
                if codes.len() < 32 {
                    codes.push(n);
                    assert(codes@ =~= first_part(pieces_of(cells@.take(sq + 1))));
                } else {
                    assert(codes@ =~= first_part(pieces_of(cells@.take(sq + 1))));
                }
            }
        }
        assert(cells@.take(64) =~= cells@);
        let ghost list = pieces_of(cells@);
        proof {
            lemma_cells_small(board@);
            lemma_pieces_of_small(cells@);
        }
        while codes.len() < 32
            invariant
                codes@.len() <= 32,
                forall|i: int| 0 <= i < list.len() ==> 0 < #[trigger] list[i] < 16,
                forall|i: int|
                    0 <= i < codes@.len() ==> #[trigger] codes@[i] == if i < list.len() {
                        list[i]
                    } else {
                        0
                    },
                codes@.len() >= 32 || codes@.len() >= list.len(),
            decreases 32 - codes@.len(),
        {
            codes.push(0);
        }
        let mut pieces: [u8; 16] = [0u8; 16];
        for i in 0..16usize
            invariant
                codes@.len() == 32,
                forall|j: int| 0 <= j < 32 ==> #[trigger] codes@[j] < 16,
                forall|j: int| 0 <= j < 2 * i ==> #[trigger] nibble(pieces@, j) == codes@[j],
        {
            let hi: u8 = codes[2 * i];
            let lo: u8 = codes[2 * i + 1];
            let ghost was = pieces@;
            pieces[i] = hi * 16 + lo;
            assert forall|j: int| 0 <= j < 2 * (i + 1) implies #[trigger] nibble(pieces@, j)
                == codes@[j] by {
                if j < 2 * i {
                    assert(nibble(was, j) == codes@[j]);
                }
            }
        }
        assert(codes_of(pieces@) =~= first_codes(list));
        CompactBoard { occupied, pieces }
    }

    /// The cells of the board, one after the other.
    pub fn unpack(&self) -> (r: Vec<u8>)
        ensures
            r@ == self.cells(),
            forall|i: int| 0 <= i < 64 ==> #[trigger] r@[i] < 16,
    {
        unpack_pieces(self.occupied, vstd::array::array_as_slice(&self.pieces))
    }

    /// The board as 64 four-bit cells.
    pub fn to_board_nibbles(&self) -> (r: [u8; 32])
        ensures
            cells_of(r@) == self.cells(),
    {
        let cells = self.unpack();
        pack_cells(&cells)
    }

    /// Appends the placement field of the board.
    pub fn write_fen_ranks(&self, result: &mut String)
        ensures
            final(result)@ == old(result)@ + placement_text(self.cells()),
    {
        let cells = self.unpack();
        push_placement(result, &cells);
    }
}

/// The first 32 of a sequence.
pub open spec fn first_part(codes: Seq<u8>) -> Seq<u8> {
    if codes.len() <= 32 {
        codes
    } else {
        codes.take(32)
    }
}

/// Cells have four bits.
pub proof fn lemma_cells_small(board: Seq<u8>)
    ensures
        forall|i: int| 0 <= i < 64 ==> #[trigger] cells_of(board)[i] < 16,
{
}

/// Spreading the pieces of cells over their mask gives the cells, where all the
/// pieces are there.
pub proof fn lemma_spread_pieces(occupied: u64, cells: Seq<u8>, n: nat)
    requires
        cells.len() == 64,
        mask_of(occupied, cells),
        pieces_of(cells).len() <= n,
    ensures
        spread(occupied, filled(pieces_of(cells), n)) == cells,
{
    assert(cells.take(64) =~= cells);
    lemma_pieces_before(occupied, cells, 64);
    let r = spread(occupied, filled(pieces_of(cells), n));
    assert forall|sq: int| 0 <= sq < 64 implies #[trigger] r[sq] == cells[sq] by {
        assert(holds(occupied, sq) == (cells[sq] != 0));
        if holds(occupied, sq) {
            assert(before(occupied, sq) < pieces_of(cells).len());
        }
    }
    assert(r =~= cells);
}

/// The codes of bytes that follow others follow their codes.
pub proof fn lemma_codes_of(a: Seq<u8>, b: Seq<u8>)
    ensures
        codes_of(a + b) == codes_of(a) + codes_of(b),
{
    let all = codes_of(a + b);
    let two = codes_of(a) + codes_of(b);
    assert forall|k: int| 0 <= k < all.len() implies #[trigger] all[k] == two[k] by {
        if k >= 2 * a.len() {
            let j = k - 2 * a.len();
            assert(k / 2 == a.len() + j / 2 && k % 2 == j % 2);
            assert((a + b)[k / 2] == b[j / 2]);
        } else {
            assert((a + b)[k / 2] == a[k / 2]);
        }
    }
    assert(all =~= two);
}

/// Boards of 32 bytes with the same cells are the same.
proof fn lemma_same_board(a: Seq<u8>, b: Seq<u8>)
    requires
        a.len() == 32,
        b.len() == 32,
        cells_of(a) == cells_of(b),
    ensures
        a == b,
{
    assert forall|i: int| 0 <= i < 32 implies #[trigger] a[i] == b[i] by {
        let even = 2 * i;
        let odd = 2 * i + 1;
        assert(cells_of(a)[even] == nibble(a, even) && cells_of(b)[even] == nibble(b, even));
        assert(cells_of(a)[odd] == nibble(a, odd) && cells_of(b)[odd] == nibble(b, odd));
        assert(even / 2 == i && odd / 2 == i && even % 2 == 0 && odd % 2 == 1);
        assert(a[i] / 16 == b[i] / 16);
        assert(a[i] % 16 == b[i] % 16);
    }
    assert(a =~= b);
}

/// A board with at most 32 pieces is unchanged by packing and unpacking: what
/// `from_board_nibbles` keeps is the whole board, and `to_board_nibbles` gives its
/// bytes back.
pub proof fn law_board_round_trip(board: Seq<u8>, compact: CompactBoard, back: Seq<u8>)
    requires
        board.len() == 32,
        back.len() == 32,
        mask_of(compact.occupied, cells_of(board)),
        compact.codes() == first_codes(pieces_of(cells_of(board))),
        pieces_of(cells_of(board)).len() <= 32,
        cells_of(back) == compact.cells(),
    ensures
        compact.cells() == cells_of(board),
        back == board,
{
    lemma_spread_pieces(compact.occupied, cells_of(board), 32);
    lemma_same_board(back, board);
}

} // verus!
