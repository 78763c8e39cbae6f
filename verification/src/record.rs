//! The fixed 40-byte puzzle record.
//!
//! - board_occupied: 8 bytes
//! - board_pieces: 16 bytes
//! - id: 4 bytes, base 62
//! - move_packed: 4 bytes: bits 0..25 move offset, bits 26..31 move count
//! - theme_rating_packed: 4 bytes: bits 0..19 theme id, bits 20..31 rating
//! - fen_packed: 4 bytes: bits 0..15 state, bits 16..23 halfmove clock, bits
//!   24..31 reserved

use vstd::prelude::*;

use crate::board::{codes_of, spread, CompactBoard};
use crate::fen::{fen_string_of, fen_text, FenModel};
use crate::id::{decode_base62_id, encode_base62_id, id_number, id_text};
use crate::moves::PackedMove;
use crate::theme::{mask_all, mask_any, ThemeMask};
use crate::wire::{le, le_value, lemma_le, lemma_le_of_value, lemma_spans, put, take};

verus! {

/// One puzzle of a database with fixed records.
#[derive(Debug, Clone, Copy, PartialEq, Eq)]
pub struct PuzzleRecord {
    /// The squares with a piece.
    pub board_occupied: u64,
    /// Up to 32 piece codes, two to a byte.
    pub board_pieces: [u8; 16],
    /// The number of the identifier.
    pub id_base62: u32,
    /// Bits 0..25: the offset of the moves, bits 26..31: their number.
    pub move_packed: u32,
    /// Bits 0..19: the theme id, bits 20..31: the rating.
    pub theme_rating_packed: u32,
    /// Bits 0..15: the state word, bits 16..23: the halfmove clock.
    pub fen_packed: u32,
}

/// The bytes of a record.
pub open spec fn record_bytes(r: PuzzleRecord) -> Seq<u8> {
    le(r.board_occupied as nat, 8) + r.board_pieces@ + le(r.id_base62 as nat, 4) + le(
        r.move_packed as nat,
        4,
    ) + le(r.theme_rating_packed as nat, 4) + le(r.fen_packed as nat, 4)
}

/// The moves from an offset on, or none where they run past the pool.
pub open spec fn pool_moves(pool: Seq<PackedMove>, offset: nat, count: nat) -> Seq<PackedMove> {
    if offset + count <= pool.len() {
        pool.subrange(offset as int, (offset + count) as int)
    } else {
        Seq::empty()
    }
}

impl PuzzleRecord {
    /// The rating of the record.
    pub open spec fn rating_of(&self) -> nat {
        (self.theme_rating_packed / 1048576) as nat
    }

    /// The theme id of the record.
    pub open spec fn theme_of(&self) -> nat {
        (self.theme_rating_packed % 1048576) as nat
    }

    /// Where the moves of the record start.
    pub open spec fn offset_of(&self) -> nat {
        (self.move_packed % 67108864) as nat
    }

    /// How many moves the record has.
    pub open spec fn count_of(&self) -> nat {
        (self.move_packed / 67108864) as nat
    }

    /// The state word of the record.
    pub open spec fn state_of(&self) -> nat {
        (self.fen_packed % 65536) as nat
    }

    /// The halfmove clock of the record.
    pub open spec fn halfmove_of(&self) -> nat {
        ((self.fen_packed / 65536) % 256) as nat
    }

    /// The position of the record; its fullmove number is one.
    pub open spec fn position(&self) -> FenModel {
        FenModel {
            cells: spread(self.board_occupied, codes_of(self.board_pieces@)),
            state: self.state_of(),
            halfmove: self.halfmove_of(),
            fullmove: 1,
        }
    }

    /// Packs a record. Of the rating 12 bits are kept, of the theme id 20, of the
    /// move offset 26 and of the move count 6.
    pub fn new(
        id_str: &str,
        compact_board: &CompactBoard,
        rating: u16,
        theme_id: u32,
        move_offset: u32,
        move_count: u8,
        fen_state: u16,
        fen_halfmove: u8,
    ) -> (r: Self)
        ensures
            r.board_occupied == compact_board.occupied,
            r.board_pieces == compact_board.pieces,
            r.id_base62 == id_number(id_str@),
            r.move_packed == move_offset % 67108864 + (move_count % 64) * 67108864,
            r.theme_rating_packed == theme_id % 1048576 + (rating % 4096) * 1048576,
            r.fen_packed == fen_state + fen_halfmove * 65536,
            r.rating_of() == rating % 4096,
            r.theme_of() == theme_id % 1048576,
            r.offset_of() == move_offset % 67108864,
            r.count_of() == move_count % 64,
            r.state_of() == fen_state,
            r.halfmove_of() == fen_halfmove,
    {
        let id_base62: u32 = encode_base62_id(id_str);
        PuzzleRecord {
            board_occupied: compact_board.occupied,
            board_pieces: compact_board.pieces,
            id_base62,
            move_packed: move_offset % 67108864 + ((move_count % 64) as u32) * 67108864,
            theme_rating_packed: theme_id % 1048576 + ((rating % 4096) as u32) * 1048576,
            fen_packed: (fen_state as u32) + (fen_halfmove as u32) * 65536,
        }
    }

    /// The five characters of the identifier.
    pub fn id_string(&self) -> (r: String)
        ensures
            r@ == id_text(self.id_base62 as nat),
    {
        decode_base62_id(self.id_base62)
    }

    /// The rating.
    pub fn rating(&self) -> (r: u16)
        ensures
            r == self.rating_of(),
            r < 4096,
    {
        (self.theme_rating_packed / 1048576) as u16
    }

    /// The index of the themes in the theme dictionary.
    pub fn theme_id(&self) -> (r: u32)
        ensures
            r == self.theme_of(),
            r < 1048576,
    {
        self.theme_rating_packed % 1048576
    }

    /// Where the moves start in the move pool.
    pub fn move_offset(&self) -> (r: usize)
        ensures
            r == self.offset_of(),
            r < 67108864,
    {
        (self.move_packed % 67108864) as usize
    }

    /// The number of moves.
    pub fn move_count(&self) -> (r: usize)
        ensures
            r == self.count_of(),
            r < 64,
    {
        (self.move_packed / 67108864) as usize
    }

    /// The state word: side to move, castling rights, en-passant square.
    pub fn fen_state(&self) -> (r: u16)
        ensures
            r == self.state_of(),
    {
        (self.fen_packed % 65536) as u16
    }

    /// The halfmove clock.
    pub fn fen_halfmove(&self) -> (r: u8)
        ensures
            r == self.halfmove_of(),
    {
        ((self.fen_packed / 65536) % 256) as u8
    }

    /// The board.
    pub fn compact_board(&self) -> (r: CompactBoard)
        ensures
            r.occupied == self.board_occupied,
            r.pieces == self.board_pieces,
    {
        CompactBoard { occupied: self.board_occupied, pieces: self.board_pieces }
    }

    /// The FEN of the position, with fullmove number one.
    pub fn fen_string(&self) -> (r: String)
        ensures
            r@ == fen_text(self.position()),
    {
        let cells = self.compact_board().unpack();
        fen_string_of(&cells, self.fen_state(), self.fen_halfmove() as u64, 1)
    }

    /// Whether the puzzle has all the themes of a mask; without an entry in the
    /// dictionary it has not.
    pub fn has_themes_all(&self, required: ThemeMask, theme_dict: &[ThemeMask]) -> (r: bool)
        ensures
            r == (self.theme_of() < theme_dict@.len() && mask_all(
                theme_dict@[self.theme_of() as int].0,
                required.0,
            )),
    {
        let t_id: usize = self.theme_id() as usize;
        if t_id < theme_dict.len() {
            theme_dict[t_id].contains_all(required)
        } else {
            false
        }
    }

    /// Whether the puzzle has a theme of a mask; without an entry in the dictionary
    /// it has not.
    pub fn has_themes_any(&self, any: ThemeMask, theme_dict: &[ThemeMask]) -> (r: bool)
        ensures
            r == (self.theme_of() < theme_dict@.len() && mask_any(
                theme_dict@[self.theme_of() as int].0,
                any.0,
            )),
    {
        let t_id: usize = self.theme_id() as usize;
        if t_id < theme_dict.len() {
            theme_dict[t_id].contains_any(any)
        } else {
            false
        }
    }

    /// The moves of the puzzle in a move pool; none where they run past its end.
    pub fn get_moves<'a>(&self, move_pool: &'a [PackedMove]) -> (r: &'a [PackedMove])
        ensures
            r@ == pool_moves(move_pool@, self.offset_of(), self.count_of()),
    {
        let start: usize = self.move_offset();
        let end: usize = start + self.move_count();
        if end <= move_pool.len() {
            vstd::slice::slice_subrange(move_pool, start, end)
        } else {
            let none = vstd::slice::slice_subrange(move_pool, 0, 0);
            assert(none@ =~= Seq::empty());
            none
        }
    }

    /// Appends the bytes of the record.
    pub fn write(&self, out: &mut Vec<u8>)
        ensures
            final(out)@ == old(out)@ + record_bytes(*self),
    {
        put(out, self.board_occupied as u128, 8);
        push_array(out, &self.board_pieces);
        put(out, self.id_base62 as u128, 4);
        put(out, self.move_packed as u128, 4);
        put(out, self.theme_rating_packed as u128, 4);
        put(out, self.fen_packed as u128, 4);
        assert(out@ =~= old(out)@ + record_bytes(*self));
    }

    /// The record whose bytes stand at a position.
    pub fn read(data: &[u8], pos: usize) -> (r: Self)
        requires
            pos + 40 <= data.len(),
        ensures
            record_bytes(r) == data@.subrange(pos as int, pos + 40),
    {
        proof {
            lemma_spans();
        }
        let r = PuzzleRecord {
            board_occupied: take(data, pos, 8) as u64,
            board_pieces: take_array(data, pos + 8),
            id_base62: take(data, pos + 24, 4) as u32,
            move_packed: take(data, pos + 28, 4) as u32,
            theme_rating_packed: take(data, pos + 32, 4) as u32,
            fen_packed: take(data, pos + 36, 4) as u32,
        };
        proof {
            lemma_le_of_value(data@.subrange(pos as int, pos + 8));
            lemma_le_of_value(data@.subrange(pos + 24, pos + 28));
            lemma_le_of_value(data@.subrange(pos + 28, pos + 32));
            lemma_le_of_value(data@.subrange(pos + 32, pos + 36));
            lemma_le_of_value(data@.subrange(pos + 36, pos + 40));
            assert(record_bytes(r) =~= data@.subrange(pos as int, pos + 40));
        }
        r
    }
}

/// Appends sixteen bytes.
pub fn push_array(out: &mut Vec<u8>, a: &[u8; 16])
    ensures
        final(out)@ == old(out)@ + a@,
{
    for i in 0..16usize
        invariant
            out@ == old(out)@ + a@.take(i as int),
    {
        out.push(a[i]);
        assert(out@ =~= old(out)@ + a@.take(i + 1));
    }
    assert(a@.take(16) =~= a@);
}

/// The sixteen bytes at a position.
pub fn take_array(data: &[u8], pos: usize) -> (r: [u8; 16])
    requires
        pos + 16 <= data.len(),
    ensures
        r@ == data@.subrange(pos as int, pos + 16),
{
    let mut a: [u8; 16] = [0u8; 16];
    for i in 0..16usize
        invariant
            pos + 16 <= data.len(),
            forall|j: int| 0 <= j < i ==> #[trigger] a@[j] == data@[pos + j],
    {
        a[i] = data[pos + i];
    }
    assert(a@ =~= data@.subrange(pos as int, pos + 16));
    a
}

/// The 40 bytes of a record fix it: reading what was written gives the record.
pub proof fn law_record_round_trip(a: PuzzleRecord, b: PuzzleRecord)
    requires
        record_bytes(a) == record_bytes(b),
    ensures
        a == b,
{
    lemma_spans();
    lemma_record_fields(a);
    lemma_record_fields(b);
    assert(a.board_pieces@ == b.board_pieces@);
    assert(a.board_pieces =~= b.board_pieces);
}

/// The fields of a record stand at their places among its bytes.
pub proof fn lemma_record_fields(a: PuzzleRecord)
    ensures
        record_bytes(a).len() == 40,
        a.board_occupied == le_value(record_bytes(a).subrange(0, 8)),
        a.board_pieces@ == record_bytes(a).subrange(8, 24),
        a.id_base62 == le_value(record_bytes(a).subrange(24, 28)),
        a.move_packed == le_value(record_bytes(a).subrange(28, 32)),
        a.theme_rating_packed == le_value(record_bytes(a).subrange(32, 36)),
        a.fen_packed == le_value(record_bytes(a).subrange(36, 40)),
{
    lemma_spans();
    lemma_le(a.board_occupied as nat, 8);
    lemma_le(a.id_base62 as nat, 4);
    lemma_le(a.move_packed as nat, 4);
    lemma_le(a.theme_rating_packed as nat, 4);
    lemma_le(a.fen_packed as nat, 4);
    let b = record_bytes(a);
    assert(b.subrange(0, 8) =~= le(a.board_occupied as nat, 8));
    assert(b.subrange(8, 24) =~= a.board_pieces@);
    assert(b.subrange(24, 28) =~= le(a.id_base62 as nat, 4));
    assert(b.subrange(28, 32) =~= le(a.move_packed as nat, 4));
    assert(b.subrange(32, 36) =~= le(a.theme_rating_packed as nat, 4));
    assert(b.subrange(36, 40) =~= le(a.fen_packed as nat, 4));
}

} // verus!
