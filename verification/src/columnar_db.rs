//! The reader of databases whose blocks hold columns (format 4).
//!
//! A block is the number of its puzzles and then, column by column, their
//! identifiers, ratings as differences, theme ids, states and halfmove clocks,
//! occupancy masks, pieces and moves. Identifiers that are not five letters and
//! digits follow as texts, and then the fullmove numbers.

use vstd::prelude::*;

use crate::appendix::{appendix_at, read_appendix};
use crate::block_file::{entries_at, file_fault, is_block_range, payload_of, BlockEntry, BlockFile};
use crate::board::{codes_of, spread, unpack_pieces};
use crate::chance::{draw, pick};
use crate::columns::{lemma_total_part, runs, summed, total};
use crate::db::{number_at, take_four};
use crate::fen::{fen_string_of, FenModel};
use crate::id::{decode_base62_id, id_text};
use crate::moves::{uci_strings, PackedMove};
use crate::puzzle::{
    found_model, puzzle_models, puzzle_of, theme_strings, Puzzle, PuzzleModel, QueryCriteria,
};
use crate::query::{
    answers_draws, are_drawn, at_most, block_hits, first_drawn, has_hit, hit, hit_places, hits,
    is_answer, is_hit, is_random_answer, is_range_answer, lemma_block_hits_prefix,
    lemma_first_drawn, lemma_hit_places, query_of, Query, QueryRow,
};
use crate::section::{masks_at, moves_at, read_moves, DbError};
use crate::text::{chars_of, same_chars, texts, trim, trimmed};
use crate::theme::ThemeMask;
use crate::wire::{cell, column, lemma_spans, slot, take};

verus! {

/// The format version of these databases.
pub const LPDB_VERSION_V4: u32 = 4;

/// How many puzzles a block has, unless asked otherwise.
pub const DEFAULT_V4_BLOCK_SIZE: usize = 2048;

/// The header of a database.
#[derive(Debug, Clone, Copy)]
pub struct DbHeaderV4 {
    pub magic: [u8; 4],
    pub version: u32,
    pub puzzle_count: u64,
    pub block_count: u32,
    pub block_size: u32,
    pub block_index_offset: u64,
    pub theme_dict_offset: u64,
    pub theme_dict_count: u32,
    pub min_rating: u16,
    pub max_rating: u16,
    pub compression_level: u8,
    pub reserved: [u8; 15],
}

impl DbHeaderV4 {
    /// What the header says of the bytes of a file.
    pub open spec fn reads(&self, data: Seq<u8>) -> bool {
        &&& self.magic@ == data.take(4)
        &&& self.version == number_at(data, 4, 4)
        &&& self.puzzle_count == number_at(data, 8, 8)
        &&& self.block_count == number_at(data, 16, 4)
        &&& self.block_size == number_at(data, 20, 4)
        &&& self.block_index_offset == number_at(data, 24, 8)
        &&& self.theme_dict_offset == number_at(data, 32, 8)
        &&& self.theme_dict_count == number_at(data, 40, 4)
        &&& self.min_rating == number_at(data, 44, 2)
        &&& self.max_rating == number_at(data, 46, 2)
        &&& self.compression_level == data[48]
        &&& self.reserved@ == data.subrange(49, 64)
    }

    /// The header of a file.
    pub fn read(data: &[u8]) -> (r: Self)
        requires
            data.len() >= 64,
        ensures
            r.reads(data@),
    {
        proof {
            lemma_spans();
            assert(data@.take(4) =~= data@.subrange(0, 4));
        }
        let mut reserved: [u8; 15] = [0u8; 15];
        for i in 0..15usize
            invariant
                data.len() >= 64,
                forall|j: int| 0 <= j < i ==> #[trigger] reserved@[j] == data@[49 + j],
        {
            reserved[i] = data[49 + i];
        }
        assert(reserved@ =~= data@.subrange(49, 64));
        DbHeaderV4 {
            magic: take_four(data, 0),
            version: take(data, 4, 4) as u32,
            puzzle_count: take(data, 8, 8) as u64,
            block_count: take(data, 16, 4) as u32,
            block_size: take(data, 20, 4) as u32,
            block_index_offset: take(data, 24, 8) as u64,
            theme_dict_offset: take(data, 32, 8) as u64,
            theme_dict_count: take(data, 40, 4) as u32,
            min_rating: take(data, 44, 2) as u16,
            max_rating: take(data, 46, 2) as u16,
            compression_level: data[48],
            reserved,
        }
    }
}

/// An entry of the block index.
#[derive(Debug, Clone, Copy)]
pub struct BlockEntryV4 {
    pub file_offset: u64,
    pub compressed_size: u32,
    pub uncompressed_size: u32,
    pub puzzle_count: u16,
    pub min_rating: u16,
    pub max_rating: u16,
    /// 1 where the block has identifiers as texts, else 0.
    pub flags: u16,
}

/// An entry of the container as an entry of this format.
pub open spec fn entry_v4(e: BlockEntry) -> BlockEntryV4 {
    BlockEntryV4 {
        file_offset: e.file_offset,
        compressed_size: e.compressed_size,
        uncompressed_size: e.uncompressed_size,
        puzzle_count: e.puzzle_count,
        min_rating: e.min_rating,
        max_rating: e.max_rating,
        flags: e.reserved,
    }
}

/// What a block holds.
#[verifier::ext_equal]
pub struct ColumnBlock {
    pub ids: Seq<u32>,
    pub overflow: Seq<Seq<char>>,
    pub ratings: Seq<u16>,
    pub theme_ids: Seq<u32>,
    pub states: Seq<u16>,
    pub halfmoves: Seq<u8>,
    pub fullmoves: Seq<u16>,
    pub occupied: Seq<u64>,
    pub pieces: Seq<Seq<u8>>,
    pub moves: Seq<Seq<PackedMove>>,
}

/// The block without puzzles.
pub open spec fn empty_block() -> ColumnBlock {
    ColumnBlock {
        ids: Seq::empty(),
        overflow: Seq::empty(),
        ratings: Seq::empty(),
        theme_ids: Seq::empty(),
        states: Seq::empty(),
        halfmoves: Seq::empty(),
        fullmoves: Seq::empty(),
        occupied: Seq::empty(),
        pieces: Seq::empty(),
        moves: Seq::empty(),
    }
}

/// The 32-bit column of a position.
pub open spec fn column32(data: Seq<u8>, pos: int, n: nat) -> Seq<u32> {
    Seq::new(n, |i: int| cell(data, pos, 4, i) as u32)
}

/// The 64-bit column of a position.
pub open spec fn column64(data: Seq<u8>, pos: int, n: nat) -> Seq<u64> {
    Seq::new(n, |i: int| cell(data, pos, 8, i) as u64)
}

/// The states of a column of three-byte pairs: the first two bytes.
pub open spec fn states_at(data: Seq<u8>, pos: int, n: nat) -> Seq<u16> {
    Seq::new(n, |i: int| (cell(data, pos, 3, i) % 65536) as u16)
}

/// The halfmove clocks of a column of three-byte pairs: the third byte.
pub open spec fn halfmoves_at(data: Seq<u8>, pos: int, n: nat) -> Seq<u8> {
    Seq::new(n, |i: int| (cell(data, pos, 3, i) / 65536) as u8)
}

/// The numbers of moves as numbers of bytes.
pub open spec fn doubled(counts: Seq<nat>) -> Seq<nat> {
    counts.map_values(|c: nat| c * 2)
}

/// The moves of runs of bytes.
pub open spec fn move_runs(parts: Seq<Seq<u8>>) -> Seq<Seq<PackedMove>> {
    parts.map_values(|p: Seq<u8>| moves_at(p, 0, p.len() / 2))
}

/// What the content of a block says; none where it ends too early.
#[verifier::opaque]
pub open spec fn decode_columns(data: Seq<u8>) -> Option<ColumnBlock> {
    let size = data.len();
    let n = number_at(data, 0, 4);
    let p = (4 + 22 * n) as int;
    let lens = column(data, 4 + 21 * n as int, n, 1);
    let p_counts = p + total(lens);
    let counts = column(data, p_counts, n, 1);
    let p_moves = p_counts + n;
    let p_end = p_moves + total(doubled(counts));
    if size < 4 {
        None
    } else if n == 0 {
        Some(empty_block())
    } else if p > size || p_moves > size || p_end > size {
        None
    } else {
        match appendix_at(data, p_end, n) {
            Some(a) => Some(
                ColumnBlock {
                    ids: column32(data, 4, n),
                    overflow: a.ids,
                    ratings: summed(column(data, 4 + 4 * n as int, n, 2)),
                    theme_ids: column32(data, 4 + 6 * n as int, n),
                    states: states_at(data, 4 + 10 * n as int, n),
                    halfmoves: halfmoves_at(data, 4 + 10 * n as int, n),
                    fullmoves: a.fullmoves,
                    occupied: column64(data, 4 + 13 * n as int, n),
                    pieces: runs(data, p, lens),
                    moves: move_runs(runs(data, p_moves, doubled(counts))),
                },
            ),
            None => None,
        }
    }
}

/// A decompressed block.
pub struct DecompressedColumnarBlock {
    pub block_idx: usize,
    pub puzzle_count: usize,
    pub ids: Vec<u32>,
    pub overflow_ids: Vec<String>,
    pub ratings: Vec<u16>,
    pub theme_ids: Vec<u32>,
    pub fen_states: Vec<u16>,
    pub fen_halfmoves: Vec<u8>,
    pub fen_fullmoves: Vec<u16>,
    pub board_occupancies: Vec<u64>,
    pub piece_streams: Vec<Vec<u8>>,
    pub move_streams: Vec<Vec<PackedMove>>,
}

/// The runs of bytes of a list.
pub open spec fn byte_runs(v: Seq<Vec<u8>>) -> Seq<Seq<u8>> {
    Seq::new(v.len(), |i: int| v[i]@)
}

/// The lines of moves of a list.
pub open spec fn move_lines(v: Seq<Vec<PackedMove>>) -> Seq<Seq<PackedMove>> {
    Seq::new(v.len(), |i: int| v[i]@)
}

impl View for DecompressedColumnarBlock {
    type V = ColumnBlock;

    open spec fn view(&self) -> ColumnBlock {
        ColumnBlock {
            ids: self.ids@,
            overflow: texts(self.overflow_ids@),
            ratings: self.ratings@,
            theme_ids: self.theme_ids@,
            states: self.fen_states@,
            halfmoves: self.fen_halfmoves@,
            fullmoves: self.fen_fullmoves@,
            occupied: self.board_occupancies@,
            pieces: byte_runs(self.piece_streams@),
            moves: move_lines(self.move_streams@),
        }
    }
}

/// The identifier of a number: one of five base-62 digits, or, where the highest
/// bit is set, the text with the number of the other bits; empty where there is no
/// such text.
pub open spec fn column_id(b: ColumnBlock, raw: u32) -> Seq<char> {
    if raw < 0x8000_0000 {
        id_text(raw as nat)
    } else {
        let k = raw - 0x8000_0000;
        if k < b.overflow.len() {
            b.overflow[k]
        } else {
            Seq::empty()
        }
    }
}

/// The position of a puzzle of a block.
pub open spec fn column_position(b: ColumnBlock, i: int) -> FenModel {
    FenModel {
        cells: spread(b.occupied[i], codes_of(b.pieces[i])),
        state: b.states[i] as nat,
        halfmove: b.halfmoves[i] as nat,
        fullmove: b.fullmoves[i] as nat,
    }
}

/// A puzzle of a block.
pub open spec fn column_puzzle(b: ColumnBlock, i: int, dict: Seq<ThemeMask>) -> PuzzleModel {
    puzzle_of(
        column_id(b, b.ids[i]),
        column_position(b, i),
        b.moves[i],
        b.ratings[i],
        b.theme_ids[i] as nat,
        dict,
    )
}

/// Reads a column of 32-bit numbers.
fn read_column32(data: &[u8], pos: usize, n: usize) -> (r: Vec<u32>)
    requires
        pos + n * 4 <= data.len(),
    ensures
        r@ == column32(data@, pos as int, n as nat),
{
    let mut out: Vec<u32> = Vec::new();
    for i in 0..n
        invariant
            pos + n * 4 <= data.len(),
            out@ == column32(data@, pos as int, i as nat),
    {
        proof {
            lemma_spans();
        }
        out.push(take(data, pos + i * 4, 4) as u32);
        assert(slot(data@, pos as int, 4, i as int) =~= data@.subrange(
            pos + i * 4,
            pos + i * 4 + 4,
        ));
        assert(out@ =~= column32(data@, pos as int, (i + 1) as nat));
    }
    out
}

/// Reads a column of 64-bit numbers.
fn read_column64(data: &[u8], pos: usize, n: usize) -> (r: Vec<u64>)
    requires
        pos + n * 8 <= data.len(),
    ensures
        r@ == column64(data@, pos as int, n as nat),
{
    let mut out: Vec<u64> = Vec::new();
    for i in 0..n
        invariant
            pos + n * 8 <= data.len(),
            out@ == column64(data@, pos as int, i as nat),
    {
        proof {
            lemma_spans();
        }
        out.push(take(data, pos + i * 8, 8) as u64);
        assert(slot(data@, pos as int, 8, i as int) =~= data@.subrange(
            pos + i * 8,
            pos + i * 8 + 8,
        ));
        assert(out@ =~= column64(data@, pos as int, (i + 1) as nat));
    }
    out
}

/// Reads a column of 16-bit differences and adds them up.
fn read_ratings(data: &[u8], pos: usize, n: usize) -> (r: Vec<u16>)
    requires
        pos + n * 2 <= data.len(),
    ensures
        r@ == summed(column(data@, pos as int, n as nat, 2)),
{
    let ghost ds = column(data@, pos as int, n as nat, 2);
    let mut out: Vec<u16> = Vec::new();
    let mut current: u16 = 0;
    assert(ds.take(0) =~= Seq::empty());
    for i in 0..n
        invariant
            pos + n * 2 <= data.len(),
            ds == column(data@, pos as int, n as nat, 2),
            out@ == summed(ds).take(i as int),
            current == total(ds.take(i as int)) % 65536,
    {
        proof {
            lemma_spans();
        }
        let delta: u16 = take(data, pos + i * 2, 2) as u16;
        proof {
            assert(slot(data@, pos as int, 2, i as int) =~= data@.subrange(
                pos + i * 2,
                pos + i * 2 + 2,
            ));
            assert(ds[i as int] == delta);
            lemma_total_part(ds, i as int);
        }
        current = current.wrapping_add(delta);
        assert(current == total(ds.take(i + 1)) % 65536);
        out.push(current);
        assert(out@ =~= summed(ds).take(i + 1));
    }
    assert(summed(ds).take(n as int) =~= summed(ds));
    out
}

/// Reads the state words of a column of three-byte pairs.
fn read_states(data: &[u8], pos: usize, n: usize) -> (r: (Vec<u16>, Vec<u8>))
    requires
        pos + n * 3 <= data.len(),
    ensures
        r.0@ == states_at(data@, pos as int, n as nat),
        r.1@ == halfmoves_at(data@, pos as int, n as nat),
{
    let mut states: Vec<u16> = Vec::new();
    let mut halfmoves: Vec<u8> = Vec::new();
    for i in 0..n
        invariant
            pos + n * 3 <= data.len(),
            states@ == states_at(data@, pos as int, i as nat),
            halfmoves@ == halfmoves_at(data@, pos as int, i as nat),
    {
        let v: u128 = take(data, pos + i * 3, 3);
        proof {
            reveal_with_fuel(crate::wire::span, 4);
            assert(v < 16777216);
        }
        states.push((v % 65536) as u16);
        halfmoves.push((v / 65536) as u8);
        assert(slot(data@, pos as int, 3, i as int) =~= data@.subrange(
            pos + i * 3,
            pos + i * 3 + 3,
        ));
        assert(states@ =~= states_at(data@, pos as int, (i + 1) as nat));
        assert(halfmoves@ =~= halfmoves_at(data@, pos as int, (i + 1) as nat));
    }
    (states, halfmoves)
}

/// The sum of a column of bytes.
fn sum_bytes(data: &[u8], pos: usize, n: usize) -> (r: u64)
    requires
        pos + n <= data.len(),
        n <= 0xFFFF_FFFF,
    ensures
        r == total(column(data@, pos as int, n as nat, 1)),
        r <= 255 * n,
{
    let ghost v = column(data@, pos as int, n as nat, 1);
    let mut sum: u64 = 0;
    assert(v.take(0) =~= Seq::empty());
    for i in 0..n
        invariant
            pos + n <= data.len(),
            n <= 0xFFFF_FFFF,
            v == column(data@, pos as int, n as nat, 1),
            sum == total(v.take(i as int)),
            sum <= 255 * i,
    {
        proof {
            lemma_byte_cell(data@, pos as int, i as int);
            lemma_total_part(v, i as int);
        }
        sum = sum + data[pos + i] as u64;
    }
    assert(v.take(n as int) =~= v);
    sum
}

/// A cell of one byte is the byte.
proof fn lemma_byte_cell(data: Seq<u8>, pos: int, i: int)
    requires
        0 <= pos,
        0 <= i,
        pos + i < data.len(),
    ensures
        cell(data, pos, 1, i) == data[pos + i],
{
    let s = slot(data, pos, 1, i);
    assert(s =~= seq![data[pos + i]]);
    reveal_with_fuel(crate::wire::le_value, 2);
    assert(s.skip(1) =~= Seq::empty());
}

/// Reads the runs of bytes whose lengths are a column of bytes.
fn read_runs(data: &[u8], lens_pos: usize, pos: usize, n: usize) -> (r: Vec<Vec<u8>>)
    requires
        lens_pos + n <= data.len(),
        pos + total(column(data@, lens_pos as int, n as nat, 1)) <= data.len(),
    ensures
        byte_runs(r@) == runs(
            data@,
            pos as int,
            column(data@, lens_pos as int, n as nat, 1),
        ),
{
    let ghost lens = column(data@, lens_pos as int, n as nat, 1);
    let ghost all = runs(data@, pos as int, lens);
    let mut out: Vec<Vec<u8>> = Vec::new();
    let mut at: usize = pos;
    assert(lens.take(0) =~= Seq::empty());
    for i in 0..n
        invariant
            lens_pos + n <= data.len(),
            pos + total(lens) <= data.len(),
            lens == column(data@, lens_pos as int, n as nat, 1),
            all == runs(data@, pos as int, lens),
            at == pos + total(lens.take(i as int)),
            byte_runs(out@) == all.take(i as int),
    {
        proof {
            lemma_byte_cell(data@, lens_pos as int, i as int);
            lemma_total_part(lens, i as int);
        }
        let len: usize = data[lens_pos + i] as usize;
        let run = vstd::slice::slice_to_vec(vstd::slice::slice_subrange(data, at, at + len));
        let ghost before = byte_runs(out@);
        assert(run@ == all[i as int]);
        out.push(run);
        at = at + len;
        assert(byte_runs(out@) =~= before.push(run@));
        assert(all.take(i + 1) =~= before.push(run@));
    }
    assert(all.take(n as int) =~= all);
    out
}

/// Reads the moves whose numbers are a column of bytes.
fn read_lines(data: &[u8], counts_pos: usize, pos: usize, n: usize) -> (r: Vec<Vec<PackedMove>>)
    requires
        counts_pos + n <= data.len(),
        pos + total(doubled(column(data@, counts_pos as int, n as nat, 1))) <= data.len(),
    ensures
        move_lines(r@) == move_runs(
            runs(data@, pos as int, doubled(column(data@, counts_pos as int, n as nat, 1))),
        ),
{
    let ghost counts = column(data@, counts_pos as int, n as nat, 1);
    let ghost lens = doubled(counts);
    let ghost parts = runs(data@, pos as int, lens);
    let ghost all = move_runs(parts);
    let mut out: Vec<Vec<PackedMove>> = Vec::new();
    let mut at: usize = pos;
    assert(lens.take(0) =~= Seq::empty());
    for i in 0..n
        invariant
            counts_pos + n <= data.len(),
            pos + total(lens) <= data.len(),
            counts == column(data@, counts_pos as int, n as nat, 1),
            lens == doubled(counts),
            parts == runs(data@, pos as int, lens),
            all == move_runs(parts),
            at == pos + total(lens.take(i as int)),
            move_lines(out@) == all.take(i as int),
    {
        proof {
            lemma_byte_cell(data@, counts_pos as int, i as int);
            lemma_total_part(lens, i as int);
            assert(lens[i as int] == counts[i as int] * 2);
        }
        let count: usize = data[counts_pos + i] as usize;
        let line = read_moves(data, at, count);
        let ghost before = move_lines(out@);
        proof {
            let part = parts[i as int];
            assert(part.len() == count * 2);
            let short = moves_at(part, 0, part.len() / 2);
            assert forall|k: int| 0 <= k < count implies #[trigger] line@[k] == short[k] by {
                assert(slot(data@, at as int, 2, k) =~= slot(part, 0, 2, k));
            }
            assert(line@ =~= short);
            assert(line@ == all[i as int]);
        }
        out.push(line);
        at = at + count * 2;
        assert(move_lines(out@) =~= before.push(line@));
        assert(all.take(i + 1) =~= before.push(line@));
    }
    assert(all.take(n as int) =~= all);
    out
}

impl DecompressedColumnarBlock {
    /// The columns have a value for every puzzle.
    pub open spec fn wf(&self) -> bool {
        let n = self.puzzle_count as nat;
        &&& self.ids@.len() == n
        &&& self.ratings@.len() == n
        &&& self.theme_ids@.len() == n
        &&& self.fen_states@.len() == n
        &&& self.fen_halfmoves@.len() == n
        &&& self.fen_fullmoves@.len() == n
        &&& self.board_occupancies@.len() == n
        &&& self.piece_streams@.len() == n
        &&& self.move_streams@.len() == n
    }

    /// The block of some content.
    pub fn decode_from_bytes(block_idx: usize, data: &[u8]) -> (r: Result<Self, DbError>)
        ensures
            match r {
                Ok(b) => b.wf() && b.block_idx == block_idx && decode_columns(data@) == Some(b@),
                Err(e) => e == DbError::UnexpectedEnd && decode_columns(data@) is None,
            },
    {
        proof {
            reveal(decode_columns);
            lemma_spans();
        }
        if data.len() < 4 {
            return Err(DbError::UnexpectedEnd);
        }
        let count: u32 = take(data, 0, 4) as u32;
        if count == 0 {
            let b = Self::none(block_idx);
            return Ok(b);
        }
        let n: usize = count as usize;
        if (data.len() as u64) < 4 + 22 * (count as u64) {
            return Err(DbError::UnexpectedEnd);
        }
        let lens_pos: usize = 4 + 21 * n;
        let pieces_pos: usize = lens_pos + n;
        let piece_bytes: u64 = sum_bytes(data, lens_pos, n);
        if (data.len() as u64) < (pieces_pos as u64) + piece_bytes + (n as u64) {
            return Err(DbError::UnexpectedEnd);
        }
        let counts_pos: usize = pieces_pos + piece_bytes as usize;
        let moves_pos: usize = counts_pos + n;
        let move_count: u64 = sum_bytes(data, counts_pos, n);
        proof {
            lemma_doubled(column(data@, counts_pos as int, n as nat, 1));
        }
        if (data.len() as u64 - moves_pos as u64) < 2 * move_count {
            return Err(DbError::UnexpectedEnd);
        }
        let end_pos: usize = moves_pos + 2 * (move_count as usize);
        let appendix = match read_appendix(data, end_pos, n) {
            Some(a) => a,
            None => {
                return Err(DbError::UnexpectedEnd);
            },
        };
        let (fen_states, fen_halfmoves) = read_states(data, 4 + 10 * n, n);
        let b = DecompressedColumnarBlock {
            block_idx,
            puzzle_count: n,
            ids: read_column32(data, 4, n),
            overflow_ids: appendix.ids,
            ratings: read_ratings(data, 4 + 4 * n, n),
            theme_ids: read_column32(data, 4 + 6 * n, n),
            fen_states,
            fen_halfmoves,
            fen_fullmoves: appendix.fullmoves,
            board_occupancies: read_column64(data, 4 + 13 * n, n),
            piece_streams: read_runs(data, lens_pos, pieces_pos, n),
            move_streams: read_lines(data, counts_pos, moves_pos, n),
        };
        proof {
            assert(b@.pieces.len() == n);
            assert(b@.moves.len() == n);
            assert(b@ =~= decode_columns(data@)->0);
        }
        Ok(b)
    }

    /// The block without puzzles.
    fn none(block_idx: usize) -> (r: Self)
        ensures
            r.wf(),
            r.block_idx == block_idx,
            r@ == empty_block(),
    {
        let b = DecompressedColumnarBlock {
            block_idx,
            puzzle_count: 0,
            ids: Vec::new(),
            overflow_ids: Vec::new(),
            ratings: Vec::new(),
            theme_ids: Vec::new(),
            fen_states: Vec::new(),
            fen_halfmoves: Vec::new(),
            fen_fullmoves: Vec::new(),
            board_occupancies: Vec::new(),
            piece_streams: Vec::new(),
            move_streams: Vec::new(),
        };
        assert(b@ =~= empty_block());
        b
    }

    /// The identifier of a puzzle.
    fn id_of(&self, raw: u32) -> (r: String)
        ensures
            r@ == column_id(self@, raw),
    {
        if raw < 0x8000_0000 {
            decode_base62_id(raw)
        } else {
            let k: usize = (raw - 0x8000_0000) as usize;
            if k < self.overflow_ids.len() {
                self.overflow_ids[k].clone()
            } else {
                let none = String::new();
                assert(none@ =~= Seq::empty());
                none
            }
        }
    }

    /// A puzzle of the block.
    pub fn get_puzzle(&self, index_in_block: usize, theme_dict: &[ThemeMask]) -> (r: Option<Puzzle>)
        requires
            self.wf(),
        ensures
            match r {
                Some(p) => index_in_block < self.puzzle_count && p@ == column_puzzle(
                    self@,
                    index_in_block as int,
                    theme_dict@,
                ),
                None => index_in_block >= self.puzzle_count,
            },
    {
        if index_in_block >= self.puzzle_count {
            return None;
        }
        let i: usize = index_in_block;
        let bytes = &self.piece_streams[i];
        let cells = unpack_pieces(self.board_occupancies[i], bytes.as_slice());
        let p = Puzzle {
            id: self.id_of(self.ids[i]),
            fen: fen_string_of(
                &cells,
                self.fen_states[i],
                self.fen_halfmoves[i] as u64,
                self.fen_fullmoves[i] as u64,
            ),
            moves: uci_strings(self.move_streams[i].as_slice()),
            rating: self.ratings[i],
            themes: theme_strings(self.theme_ids[i], theme_dict),
        };
        proof {
            assert(self@.pieces[i as int] == bytes@);
            assert(self@.moves[i as int] == self.move_streams@[i as int]@);
            assert(p@ =~= column_puzzle(self@, i as int, theme_dict@));
        }
        Some(p)
    }
}

/// The sum of doubled numbers.
proof fn lemma_doubled(counts: Seq<nat>)
    ensures
        total(doubled(counts)) == 2 * total(counts),
    decreases counts.len(),
{
    if counts.len() > 0 {
        lemma_doubled(counts.drop_last());
        assert(doubled(counts).drop_last() =~= doubled(counts.drop_last()));
    }
}

// ---------------------------------------------------------------------------
// The cache
// ---------------------------------------------------------------------------

/// The blocks that were used last, the last used first.
pub struct BlockLruCache {
    pub entries: Vec<DecompressedColumnarBlock>,
    pub capacity: usize,
}

/// The place of the first block with a number, from a place on.
pub open spec fn place_of_block(
    entries: Seq<DecompressedColumnarBlock>,
    block_idx: usize,
    i: nat,
) -> Option<nat>
    decreases entries.len() - i,
{
    if i >= entries.len() {
        None
    } else if entries[i as int].block_idx == block_idx {
        Some(i)
    } else {
        place_of_block(entries, block_idx, i + 1)
    }
}

/// The blocks with one of them moved to the front.
pub open spec fn to_front(entries: Seq<DecompressedColumnarBlock>, i: int) -> Seq<
    DecompressedColumnarBlock,
> {
    seq![entries[i]] + entries.remove(i)
}

/// The blocks with a new one in front; the last leaves where there is no room.
pub open spec fn with_new(
    entries: Seq<DecompressedColumnarBlock>,
    capacity: usize,
    block: DecompressedColumnarBlock,
) -> Seq<DecompressedColumnarBlock> {
    if entries.len() >= capacity && entries.len() > 0 {
        seq![block] + entries.drop_last()
    } else {
        seq![block] + entries
    }
}

impl BlockLruCache {
    /// A cache without blocks.
    pub fn new(capacity: usize) -> (r: Self)
        ensures
            r.entries@.len() == 0,
            r.capacity == capacity,
    {
        BlockLruCache { entries: Vec::new(), capacity }
    }

    /// The block with a number, which moves to the front.
    pub fn get(&mut self, block_idx: usize) -> (r: Option<&DecompressedColumnarBlock>)
        ensures
            final(self).capacity == old(self).capacity,
            match place_of_block(old(self).entries@, block_idx, 0) {
                Some(i) => {
                    &&& final(self).entries@ == to_front(old(self).entries@, i as int)
                    &&& r matches Some(b) && *b == old(self).entries@[i as int]
                },
                None => r is None && final(self).entries@ == old(self).entries@,
            },
    {
        let ghost was = self.entries@;
        let mut i: usize = 0;
        while i < self.entries.len()
            invariant
                self.entries@ == was,
                self.capacity == old(self).capacity,
                was == old(self).entries@,
                i <= was.len(),
                place_of_block(was, block_idx, 0) == place_of_block(was, block_idx, i as nat),
            decreases was.len() - i,
        {
            if self.entries[i].block_idx == block_idx {
                let block = self.entries.remove(i);
                self.entries.insert(0, block);
                assert(self.entries@ =~= to_front(was, i as int));
                return Some(&self.entries[0]);
            }
            i = i + 1;
        }
        None
    }

    /// Puts a block in front; the last block leaves where there is no room.
    pub fn insert(&mut self, block: DecompressedColumnarBlock)
        ensures
            final(self).capacity == old(self).capacity,
            final(self).entries@ == with_new(old(self).entries@, old(self).capacity, block),
    {
        let ghost was = self.entries@;
        if self.entries.len() >= self.capacity {
            self.entries.pop();
        }
        self.entries.insert(0, block);
        assert(self.entries@ =~= with_new(was, self.capacity, block));
    }
}

/// What `place_of_block` finds.
pub proof fn lemma_place_of_block(
    entries: Seq<DecompressedColumnarBlock>,
    block_idx: usize,
    i: nat,
)
    requires
        i <= entries.len(),
    ensures
        match place_of_block(entries, block_idx, i) {
            Some(k) => i <= k < entries.len() && entries[k as int].block_idx == block_idx,
            None => forall|k: int|
                i <= k < entries.len() ==> (#[trigger] entries[k]).block_idx != block_idx,
        },
    decreases entries.len() - i,
{
    if i < entries.len() {
        lemma_place_of_block(entries, block_idx, i + 1);
    }
}

/// No more blocks than there is room for, and none twice.
pub open spec fn cache_fits(entries: Seq<DecompressedColumnarBlock>, capacity: usize) -> bool {
    &&& entries.len() <= capacity
    &&& forall|i: int, j: int|
        0 <= i < j < entries.len() ==> (#[trigger] entries[i]).block_idx != (
        #[trigger] entries[j]).block_idx
}

/// A look into the cache and the insertion of a block that was not found there
/// keep it within its capacity, without a block twice; what was used last is in
/// front.
pub proof fn law_cache_keeps_fitting(
    entries: Seq<DecompressedColumnarBlock>,
    capacity: usize,
    block: DecompressedColumnarBlock,
    i: int,
)
    requires
        cache_fits(entries, capacity),
        capacity > 0,
    ensures
        0 <= i < entries.len() ==> cache_fits(to_front(entries, i), capacity) && to_front(
            entries,
            i,
        )[0] == entries[i],
        place_of_block(entries, block.block_idx, 0) is None ==> cache_fits(
            with_new(entries, capacity, block),
            capacity,
        ),
        with_new(entries, capacity, block)[0] == block,
{
    if 0 <= i < entries.len() {
        let next = to_front(entries, i);
        assert forall|a: int, b: int| 0 <= a < b < next.len() implies (#[trigger] next[a]).block_idx
            != (#[trigger] next[b]).block_idx by {
            let x = if a == 0 {
                i
            } else if a - 1 < i {
                a - 1
            } else {
                a
            };
            let y = if b - 1 < i {
                b - 1
            } else {
                b
            };
            assert(next[a] == entries[x]);
            assert(next[b] == entries[y]);
        }
    }
    if place_of_block(entries, block.block_idx, 0) is None {
        lemma_place_of_block(entries, block.block_idx, 0);
        let next = with_new(entries, capacity, block);
        assert forall|a: int, b: int| 0 <= a < b < next.len() implies (#[trigger] next[a]).block_idx
            != (#[trigger] next[b]).block_idx by {
            assert(next[b] == entries[b - 1]);
            if a > 0 {
                assert(next[a] == entries[a - 1]);
            }
        }
    }
}

// ---------------------------------------------------------------------------
// The database
// ---------------------------------------------------------------------------

/// What a query looks at in a block.
pub open spec fn block_rows(b: ColumnBlock, dict: Seq<ThemeMask>) -> Seq<QueryRow> {
    Seq::new(
        b.ids.len(),
        |i: int|
            QueryRow {
                rating: b.ratings[i],
                theme_id: b.theme_ids[i],
                puzzle: column_puzzle(b, i, dict),
            },
    )
}

/// A block of a file.
pub open spec fn block_at(data: Seq<u8>, entries: Seq<BlockEntry>, i: nat) -> Result<
    ColumnBlock,
    DbError,
> {
    match payload_of(data, entries, i) {
        Ok(content) => match decode_columns(content) {
            Some(b) => Ok(b),
            None => Err(DbError::UnexpectedEnd),
        },
        Err(e) => Err(e),
    }
}

/// The blocks of a file as a query sees them.
pub open spec fn query_blocks(
    data: Seq<u8>,
    entries: Seq<BlockEntry>,
    dict: Seq<ThemeMask>,
) -> Seq<Option<Seq<QueryRow>>> {
    Seq::new(
        entries.len(),
        |i: int|
            match block_at(data, entries, i as nat) {
                Ok(b) => Some(block_rows(b, dict)),
                Err(_) => None,
            },
    )
}

/// The puzzle of an index.
pub open spec fn puzzle_at(
    data: Seq<u8>,
    size: usize,
    block_size: nat,
    entries: Seq<BlockEntry>,
    dict: Seq<ThemeMask>,
    index: nat,
) -> Option<PuzzleModel> {
    if index >= size || block_size == 0 {
        None
    } else {
        match block_at(data, entries, index / block_size) {
            Ok(b) => {
                let k = (index % block_size) as int;
                if k < b.ids.len() {
                    Some(column_puzzle(b, k, dict))
                } else {
                    None
                }
            },
            Err(_) => None,
        }
    }
}

/// The blocks that are kept once a block was asked for: one that was kept is in
/// front, and so is one that was read, for which the last leaves where there is no
/// room. A block that cannot be read changes nothing.
pub open spec fn is_cache_after(
    was: Seq<DecompressedColumnarBlock>,
    block_idx: usize,
    read: Result<ColumnBlock, DbError>,
    now: Seq<DecompressedColumnarBlock>,
) -> bool {
    match place_of_block(was, block_idx, 0) {
        Some(i) => now == to_front(was, i as int) && now[0].block_idx == block_idx,
        None => match read {
            Ok(b) => {
                &&& now.len() > 0
                &&& now[0].block_idx == block_idx
                &&& now[0]@ == b
                &&& now == with_new(was, 16, now[0])
            },
            Err(_) => now == was,
        },
    }
}

/// The first puzzle of some rows, from a place on, that has an identifier.
pub open spec fn row_with_id(rows: Seq<QueryRow>, id: Seq<char>, i: nat) -> Option<PuzzleModel>
    decreases rows.len() - i,
{
    if i >= rows.len() {
        None
    } else if rows[i as int].puzzle.id == id {
        Some(rows[i as int].puzzle)
    } else {
        row_with_id(rows, id, i + 1)
    }
}

/// The first puzzle of the blocks, from a block on, that has an identifier.
pub open spec fn block_with_id(
    blocks: Seq<Option<Seq<QueryRow>>>,
    id: Seq<char>,
    i: nat,
) -> Option<PuzzleModel>
    decreases blocks.len() - i,
{
    if i >= blocks.len() {
        None
    } else {
        let found = match blocks[i as int] {
            Some(rows) => row_with_id(rows, id, 0),
            None => None,
        };
        if found is Some {
            found
        } else {
            block_with_id(blocks, id, i + 1)
        }
    }
}

/// A database whose blocks hold columns. The last sixteen blocks that were used
/// are kept.
pub struct ColumnarDb<'a> {
    file: BlockFile<'a>,
    header: DbHeaderV4,
    block_index: Vec<BlockEntryV4>,
    cache: BlockLruCache,
}

impl<'a> ColumnarDb<'a> {
    /// The bytes of the file.
    pub closed spec fn data(&self) -> Seq<u8> {
        self.file.data@
    }

    /// The header.
    pub closed spec fn head(&self) -> DbHeaderV4 {
        self.header
    }

    /// The block index.
    pub closed spec fn index(&self) -> Seq<BlockEntry> {
        self.file.entries@
    }

    /// The theme dictionary.
    pub closed spec fn dict(&self) -> Seq<ThemeMask> {
        self.file.theme_dict@
    }

    /// The number of puzzles.
    pub closed spec fn size(&self) -> usize {
        self.file.size()
    }

    /// The blocks that are kept.
    pub closed spec fn kept(&self) -> Seq<DecompressedColumnarBlock> {
        self.cache.entries@
    }

    /// What is open is the file; the blocks that are kept, at most sixteen and none
    /// twice, are blocks of the file.
    pub closed spec fn wf(&self) -> bool {
        &&& self.file.reads(LPDB_VERSION_V4)
        &&& self.header.reads(self.file.data@)
        &&& self.block_index@ == self.index().map_values(|e: BlockEntry| entry_v4(e))
        &&& self.cache.capacity == 16
        &&& cache_fits(self.cache.entries@, 16)
        &&& blocks_true(self.cache.entries@, self.data(), self.index())
    }

    /// What an open database says of its file.
    pub open spec fn opened(&self) -> bool {
        &&& self.head().reads(self.data())
        &&& file_fault(self.data(), LPDB_VERSION_V4) is None
        &&& self.size() == number_at(self.data(), 8, 8) as usize
        &&& self.dict() == masks_at(
            self.data(),
            number_at(self.data(), 32, 8) as int,
            number_at(self.data(), 40, 4),
        )
        &&& self.index().len() == number_at(self.data(), 16, 4)
        &&& entries_at(self.index(), self.data(), number_at(self.data(), 24, 8) as int)
    }

    /// Two states of the same database: only the blocks that are kept differ.
    pub open spec fn same(&self, other: &Self) -> bool {
        &&& self.data() == other.data()
        &&& self.head() == other.head()
        &&& self.index() == other.index()
        &&& self.dict() == other.dict()
        &&& self.size() == other.size()
    }

    /// A query with the rating range of the header where none is asked for.
    pub open spec fn query(&self, c: QueryCriteria) -> Query {
        query_of(c, self.head().min_rating, self.head().max_rating, self.dict())
    }

    /// The blocks as a query sees them.
    pub open spec fn blocks(&self) -> Seq<Option<Seq<QueryRow>>> {
        query_blocks(self.data(), self.index(), self.dict())
    }

    /// Opens the bytes of a file.
    pub fn open(data: &'a [u8]) -> (r: Result<Self, DbError>)
        ensures
            match r {
                Ok(db) => db.wf() && db.opened() && db.data() == data@ && db.kept().len() == 0,
                Err(e) => file_fault(data@, LPDB_VERSION_V4) == Some(e),
            },
    {
        match BlockFile::open(data, LPDB_VERSION_V4) {
            Ok(file) => {
                let header = DbHeaderV4::read(data);
                let mut block_index: Vec<BlockEntryV4> = Vec::new();
                for i in 0..file.entries.len()
                    invariant
                        block_index@ == file.entries@.map_values(|e: BlockEntry| entry_v4(e)).take(
                            i as int,
                        ),
                {
                    let e = file.entries[i];
                    let v4 = BlockEntryV4 {
                        file_offset: e.file_offset,
                        compressed_size: e.compressed_size,
                        uncompressed_size: e.uncompressed_size,
                        puzzle_count: e.puzzle_count,
                        min_rating: e.min_rating,
                        max_rating: e.max_rating,
                        flags: e.reserved,
                    };
                    let ghost before = block_index@;
                    block_index.push(v4);
                    assert(file.entries@.map_values(|e: BlockEntry| entry_v4(e)).take(i + 1)
                        =~= before.push(v4));
                }
                let ghost all = file.entries@.map_values(|e: BlockEntry| entry_v4(e));
                assert(all.take(all.len() as int) =~= all);
                Ok(ColumnarDb { file, header, block_index, cache: BlockLruCache::new(16) })
            },
            Err(e) => Err(e),
        }
    }

    /// The header.
    pub fn header(&self) -> (r: &DbHeaderV4)
        ensures
            *r == self.head(),
    {
        &self.header
    }

    /// The number of puzzles.
    pub fn len(&self) -> (r: usize)
        ensures
            r == self.size(),
    {
        self.file.len()
    }

    /// Whether there are no puzzles.
    pub fn is_empty(&self) -> (r: bool)
        ensures
            r == (self.size() == 0),
    {
        self.file.len() == 0
    }

    /// The theme dictionary.
    pub fn theme_dict(&self) -> (r: &[ThemeMask])
        ensures
            r@ == self.dict(),
    {
        self.file.theme_dict.as_slice()
    }

    /// The block index.
    pub fn block_index(&self) -> (r: &[BlockEntryV4])
        requires
            self.wf(),
        ensures
            r@ == self.index().map_values(|e: BlockEntry| entry_v4(e)),
    {
        self.block_index.as_slice()
    }

    /// Decompresses a block.
    pub fn get_block(&self, block_idx: usize) -> (r: Result<DecompressedColumnarBlock, DbError>)
        ensures
            match r {
                Ok(b) => b.wf() && b.block_idx == block_idx && block_at(
                    self.data(),
                    self.index(),
                    block_idx as nat,
                ) == Ok::<ColumnBlock, DbError>(b@),
                Err(e) => block_at(self.data(), self.index(), block_idx as nat) == Err::<
                    ColumnBlock,
                    DbError,
                >(e),
            },
    {
        match self.file.payload(block_idx) {
            Ok(content) => DecompressedColumnarBlock::decode_from_bytes(
                block_idx,
                content.as_slice(),
            ),
            Err(e) => Err(e),
        }
    }

    /// The puzzle of an index.
    pub fn get(&mut self, puzzle_idx: usize) -> (r: Option<Puzzle>)
        requires
            old(self).wf(),
        ensures
            final(self).wf(),
            final(self).same(old(self)),
            match puzzle_at(
                old(self).data(),
                old(self).size(),
                old(self).head().block_size as nat,
                old(self).index(),
                old(self).dict(),
                puzzle_idx as nat,
            ) {
                Some(m) => r matches Some(p) && p@ == m,
                None => r is None,
            },
            final(self).kept().len() <= 16,
            ({
                let size = old(self).head().block_size as nat;
                if puzzle_idx < old(self).size() && size > 0 {
                    let b = puzzle_idx as nat / size;
                    is_cache_after(
                        old(self).kept(),
                        b as usize,
                        block_at(old(self).data(), old(self).index(), b),
                        final(self).kept(),
                    )
                } else {
                    final(self).kept() == old(self).kept()
                }
            }),
    {
        let (block_idx, place): (usize, usize) = match self.file.locate(puzzle_idx) {
            Some(x) => x,
            None => {
                return None;
            },
        };
        let ghost was = self.cache.entries@;
        proof {
            lemma_place_of_block(was, block_idx, 0);
        }
        if let Some(block) = self.cache.get(block_idx) {
            let p = block.get_puzzle(place, self.file.theme_dict.as_slice());
            proof {
                let i = place_of_block(was, block_idx, 0)->0 as int;
                law_cache_keeps_fitting(was, 16, was[i], i);
                lemma_front_true(was, i, self.data(), self.index());
            }
            return p;
        }
        let block = match self.get_block(block_idx) {
            Ok(b) => b,
            Err(_) => {
                return None;
            },
        };
        let p = block.get_puzzle(place, self.file.theme_dict.as_slice());
        proof {
            law_cache_keeps_fitting(was, 16, block, 0);
            lemma_new_true(was, 16, block, self.data(), self.index());
        }
        self.cache.insert(block);
        p
    }

    /// The first puzzle with an identifier, such as `00008`; spaces around it do
    /// not count.
    pub fn find_by_id(&self, id_str: &str) -> (r: Option<Puzzle>)
        ensures
            found_model(r) == block_with_id(self.blocks(), trimmed(id_str@), 0),
    {
        let chars = chars_of(id_str);
        let bare = trim(chars.as_slice());
        let ghost blocks = self.blocks();
        let mut i: usize = 0;
        while i < self.file.entries.len()
            invariant
                bare@ == trimmed(id_str@),
                blocks == self.blocks(),
                i <= self.index().len(),
                block_with_id(blocks, bare@, 0) == block_with_id(blocks, bare@, i as nat),
            decreases self.index().len() - i,
        {
            if let Ok(block) = self.get_block(i) {
                let ghost rows = block_rows(block@, self.dict());
                assert(blocks[i as int] == Some(rows));
                if let Some(p) = self.find_in_block(&block, &bare) {
                    return Some(p);
                }
            }
            i = i + 1;
        }
        None
    }

    /// The first puzzle with an identifier, as `find_by_id` finds it.
    pub fn get_by_id(&self, id_str: &str) -> (r: Option<Puzzle>)
        ensures
            found_model(r) == block_with_id(self.blocks(), trimmed(id_str@), 0),
    {
        self.find_by_id(id_str)
    }

    /// The first puzzle of a block with an identifier.
    fn find_in_block(&self, block: &DecompressedColumnarBlock, id: &Vec<char>) -> (r: Option<
        Puzzle,
    >)
        requires
            block.wf(),
        ensures
            found_model(r) == row_with_id(block_rows(block@, self.dict()), id@, 0),
    {
        let ghost rows = block_rows(block@, self.dict());
        let mut k: usize = 0;
        while k < block.puzzle_count
            invariant
                block.wf(),
                k <= block.puzzle_count,
                rows == block_rows(block@, self.dict()),
                row_with_id(rows, id@, 0) == row_with_id(rows, id@, k as nat),
            decreases block.puzzle_count - k,
        {
            if let Some(p) = block.get_puzzle(k, self.file.theme_dict.as_slice()) {
                let found = chars_of(p.id.as_str());
                assert(p@ == rows[k as int].puzzle);
                if same_chars(found.as_slice(), id.as_slice()) {
                    return Some(p);
                }
            }
            k = k + 1;
        }
        None
    }

    /// The rating range of a query.
    fn bounds(&self, criteria: &QueryCriteria) -> (r: (u16, u16))
        ensures
            r.0 == self.query(*criteria).min,
            r.1 == self.query(*criteria).max,
    {
        let min: u16 = match criteria.min_rating {
            Some(m) => m,
            None => self.header.min_rating,
        };
        let max: u16 = match criteria.max_rating {
            Some(m) => m,
            None => self.header.max_rating,
        };
        (min, max)
    }

    /// Whether a query takes a puzzle of a block.
    fn takes(
        &self,
        criteria: &QueryCriteria,
        block: &DecompressedColumnarBlock,
        i: usize,
    ) -> (r: bool)
        requires
            block.wf(),
            i < block.puzzle_count,
        ensures
            r == hit(self.query(*criteria), block_rows(block@, self.dict())[i as int]),
    {
        let (min, max): (u16, u16) = self.bounds(criteria);
        let rating: u16 = block.ratings[i];
        rating >= min && rating <= max && criteria.takes_themes(
            block.theme_ids[i],
            self.file.theme_dict.as_slice(),
        )
    }

    /// The places of the puzzles of a block that a query takes.
    pub fn matching_in_block(&self, block: &DecompressedColumnarBlock, criteria: &QueryCriteria) -> (r: Vec<
        usize,
    >)
        requires
            block.wf(),
        ensures
            r@.map_values(|k: usize| k as int) == hit_places(
                self.query(*criteria),
                block_rows(block@, self.dict()),
            ),
    {
        let ghost q = self.query(*criteria);
        let ghost rows = block_rows(block@, self.dict());
        let mut out: Vec<usize> = Vec::new();
        for i in 0..block.puzzle_count
            invariant
                block.wf(),
                q == self.query(*criteria),
                rows == block_rows(block@, self.dict()),
                out@.map_values(|k: usize| k as int) == hit_places(q, rows.take(i as int)),
        {
            let ghost before = out@.map_values(|k: usize| k as int);
            assert(rows.take(i + 1).drop_last() =~= rows.take(i as int));
            assert(rows.take(i + 1).last() == rows[i as int]);
            if self.takes(criteria, block, i) {
                assert(hit(q, rows[i as int]));
                out.push(i);
                assert(out@.map_values(|k: usize| k as int) =~= before.push(i as int));
            } else {
                assert(!hit(q, rows[i as int]));
            }
        }
        assert(rows.take(block.puzzle_count as int) =~= rows);
        out
    }

    /// The first of some drawn blocks that has a puzzle that a query takes, with the
    /// places of all such puzzles in it; none where none of the blocks has one.
    pub fn first_match(&self, criteria: &QueryCriteria, drawn: &Vec<usize>) -> (r: Option<
        (DecompressedColumnarBlock, Vec<usize>),
    >)
        ensures
            match first_drawn(self.query(*criteria), self.blocks(), drawn@, 0) {
                Some(d) => r matches Some((block, places)) && block.wf() && self.blocks()[drawn@[d as int] as int]
                    == Some(block_rows(block@, self.dict())) && places@.map_values(
                    |k: usize| k as int,
                ) == hit_places(self.query(*criteria), block_rows(block@, self.dict())),
                None => r is None,
            },
    {
        let ghost q = self.query(*criteria);
        let ghost blocks = self.blocks();
        let mut d: usize = 0;
        while d < drawn.len()
            invariant
                q == self.query(*criteria),
                blocks == self.blocks(),
                d <= drawn@.len(),
                first_drawn(q, blocks, drawn@, 0) == first_drawn(q, blocks, drawn@, d as nat),
            decreases drawn@.len() - d,
        {
            let i: usize = drawn[d];
            if i < self.file.entries.len() {
                if let Ok(block) = self.get_block(i) {
                    let places = self.matching_in_block(&block, criteria);
                    let ghost rows = block_rows(block@, self.dict());
                    assert(blocks[i as int] == Some(rows));
                    assert(places@.map_values(|k: usize| k as int).len() == places@.len());
                    if places.len() > 0 {
                        return Some((block, places));
                    }
                }
            }
            assert(!has_hit(q, blocks, i as int));
            d = d + 1;
        }
        None
    }

    /// A random puzzle that a query takes. Up to thirty blocks are drawn from the
    /// rating range.
    pub fn random_puzzle(
        &self,
        criteria: &QueryCriteria,
        rng: &mut rand::rngs::ThreadRng,
    ) -> (r: Option<Puzzle>)
        ensures
            is_random_answer(
                self.query(*criteria),
                self.index(),
                self.blocks(),
                30,
                found_model(r),
            ),
    {
        let ghost q = self.query(*criteria);
        let ghost blocks = self.blocks();
        let (min, max): (u16, u16) = self.bounds(criteria);
        if min > max {
            return None;
        }
        let (start, end): (usize, usize) = self.file.block_range(min, max);
        assert(is_block_range(self.index(), min, max, start as int, end as int));
        if start >= end {
            assert(is_range_answer(q, blocks, start as int, end as int, 30, None));
            return None;
        }
        let drawn = draw(rng, start, end, 30);
        let found: Option<Puzzle> = match self.first_match(criteria, &drawn) {
            Some((block, places)) => {
                proof {
                    lemma_first_drawn(q, blocks, drawn@, 0);
                }
                let ghost i = drawn@[first_drawn(q, blocks, drawn@, 0)->0 as int] as int;
                let ghost rows = block_rows(block@, self.dict());
                let ghost ks = places@.map_values(|k: usize| k as int);
                assert(ks.len() == places@.len());
                let j: usize = pick(rng, places.len());
                let k: usize = places[j];
                proof {
                    lemma_hit_places(q, rows);
                    assert(ks[j as int] == k);
                    assert(hit_places(q, rows)[j as int] == k);
                }
                let p = block.get_puzzle(k, self.file.theme_dict.as_slice());
                assert(is_hit(q, blocks, i, k as int, p->0@));
                p
            },
            None => None,
        };
        assert(are_drawn(drawn@, start as int, end as int, 30));
        assert(answers_draws(q, blocks, drawn@, found_model(found)));
        assert(is_range_answer(q, blocks, start as int, end as int, 30, found_model(found)));
        found
    }

    /// The first puzzles, at most `limit`, that a query takes.
    pub fn query_puzzles(&self, criteria: &QueryCriteria, limit: usize) -> (r: Vec<Puzzle>)
        ensures
            is_answer(
                self.query(*criteria),
                self.index(),
                self.blocks(),
                limit as nat,
                puzzle_models(r@),
            ),
    {
        let ghost q = self.query(*criteria);
        let ghost blocks = self.blocks();
        let mut out: Vec<Puzzle> = Vec::new();
        let (min, max): (u16, u16) = self.bounds(criteria);
        if min > max {
            return out;
        }
        let (start, end): (usize, usize) = self.file.block_range(min, max);
        assert(is_block_range(self.index(), q.min, q.max, start as int, end as int));
        let ghost all = block_hits(q, blocks, start as int, end as int);
        if limit == 0 {
            assert(puzzle_models(out@) =~= at_most(all, 0));
            return out;
        }
        if start >= end {
            assert(puzzle_models(out@) =~= at_most(all, limit as nat));
            return out;
        }
        assert(puzzle_models(out@) =~= Seq::empty());
        let mut i: usize = start;
        while i < end
            invariant
                q == self.query(*criteria),
                blocks == self.blocks(),
                all == block_hits(q, blocks, start as int, end as int),
                start <= i <= end <= self.index().len(),
                is_block_range(self.index(), q.min, q.max, start as int, end as int),
                q.min <= q.max,
                puzzle_models(out@) == block_hits(q, blocks, start as int, i as int),
                out@.len() < limit,
            decreases end - i,
        {
            if let Ok(block) = self.get_block(i) {
                let ghost rows = block_rows(block@, self.dict());
                assert(blocks[i as int] == Some(rows));
                let ghost had = puzzle_models(out@);
                assert(rows.take(0) =~= Seq::empty());
                assert(had + hits(q, rows.take(0)) =~= had);
                for k in 0..block.puzzle_count
                    invariant
                        block.wf(),
                        q == self.query(*criteria),
                        blocks == self.blocks(),
                        all == block_hits(q, blocks, start as int, end as int),
                        start <= i < end,
                        is_block_range(self.index(), q.min, q.max, start as int, end as int),
                        q.min <= q.max,
                        rows == block_rows(block@, self.dict()),
                        blocks[i as int] == Some(rows),
                        had == block_hits(q, blocks, start as int, i as int),
                        puzzle_models(out@) == had + hits(q, rows.take(k as int)),
                        out@.len() < limit,
                {
                    let ghost part = puzzle_models(out@);
                    assert(rows.take(k + 1).drop_last() =~= rows.take(k as int));
                    assert(rows.take(k + 1).last() == rows[k as int]);
                    if self.takes(criteria, &block, k) {
                        assert(hit(q, rows[k as int]));
                        if let Some(p) = block.get_puzzle(k, self.file.theme_dict.as_slice()) {
                            out.push(p);
                            assert(puzzle_models(out@) =~= part.push(p@));
                            assert(puzzle_models(out@) =~= had + hits(q, rows.take(k + 1)));
                            if out.len() >= limit {
                                proof {
                                    lemma_block_hits_prefix(
                                        q,
                                        blocks,
                                        start as int,
                                        i as int,
                                        end as int,
                                        k + 1,
                                    );
                                    assert(puzzle_models(out@) =~= at_most(all, limit as nat));
                                }
                                return out;
                            }
                        }
                    } else {
                        assert(!hit(q, rows[k as int]));
                    }
                }
                assert(rows.take(block.puzzle_count as int) =~= rows);
            } else {
                assert(blocks[i as int] is None);
                assert(puzzle_models(out@) =~= block_hits(q, blocks, start as int, i + 1));
            }
            i = i + 1;
        }
        assert(puzzle_models(out@) =~= at_most(all, limit as nat));
        out
    }
}

/// Whether kept blocks are blocks of a file.
pub open spec fn blocks_true(
    kept: Seq<DecompressedColumnarBlock>,
    data: Seq<u8>,
    index: Seq<BlockEntry>,
) -> bool {
    forall|i: int|
        0 <= i < kept.len() ==> {
            let b = #[trigger] kept[i];
            b.wf() && block_at(data, index, b.block_idx as nat) == Ok::<ColumnBlock, DbError>(b@)
        }
}

proof fn lemma_front_true(
    kept: Seq<DecompressedColumnarBlock>,
    i: int,
    data: Seq<u8>,
    index: Seq<BlockEntry>,
)
    requires
        blocks_true(kept, data, index),
        0 <= i < kept.len(),
    ensures
        blocks_true(to_front(kept, i), data, index),
{
    let next = to_front(kept, i);
    assert forall|j: int| 0 <= j < next.len() implies {
        let b = #[trigger] next[j];
        b.wf() && block_at(data, index, b.block_idx as nat) == Ok::<ColumnBlock, DbError>(b@)
    } by {
        let x = if j == 0 {
            i
        } else if j - 1 < i {
            j - 1
        } else {
            j
        };
        assert(next[j] == kept[x]);
    }
}

proof fn lemma_new_true(
    kept: Seq<DecompressedColumnarBlock>,
    capacity: usize,
    block: DecompressedColumnarBlock,
    data: Seq<u8>,
    index: Seq<BlockEntry>,
)
    requires
        blocks_true(kept, data, index),
        block.wf(),
        block_at(data, index, block.block_idx as nat) == Ok::<ColumnBlock, DbError>(block@),
    ensures
        blocks_true(with_new(kept, capacity, block), data, index),
{
    let next = with_new(kept, capacity, block);
    assert forall|j: int| 0 <= j < next.len() implies {
        let b = #[trigger] next[j];
        b.wf() && block_at(data, index, b.block_idx as nat) == Ok::<ColumnBlock, DbError>(b@)
    } by {
        if j > 0 {
            assert(next[j] == kept[j - 1]);
        }
    }
}

/// Whether a puzzle stands at a place of a block that can be read.
pub open spec fn stands_at(
    blocks: Seq<Option<Seq<QueryRow>>>,
    i: int,
    k: int,
    p: PuzzleModel,
) -> bool {
    &&& 0 <= i < blocks.len()
    &&& blocks[i] matches Some(rows)
    &&& 0 <= k < rows.len()
    &&& rows[k].puzzle == p
}

/// A lookup by identifier finds a puzzle with that identifier, and fails only where
/// no block that can be read has one.
pub proof fn law_found_by_id(blocks: Seq<Option<Seq<QueryRow>>>, id: Seq<char>)
    ensures
        match block_with_id(blocks, id, 0) {
            Some(p) => p.id == id && exists|i: int, k: int| #[trigger] stands_at(blocks, i, k, p),
            None => forall|i: int, k: int, p: PuzzleModel|
                #[trigger] stands_at(blocks, i, k, p) ==> p.id != id,
        },
{
    lemma_block_with_id(blocks, id, 0);
}

proof fn lemma_block_with_id(blocks: Seq<Option<Seq<QueryRow>>>, id: Seq<char>, i: nat)
    ensures
        match block_with_id(blocks, id, i) {
            Some(p) => p.id == id && exists|j: int, k: int| #[trigger] stands_at(blocks, j, k, p),
            None => forall|j: int, k: int, p: PuzzleModel|
                i <= j && #[trigger] stands_at(blocks, j, k, p) ==> p.id != id,
        },
    decreases blocks.len() - i,
{
    if i < blocks.len() {
        lemma_block_with_id(blocks, id, i + 1);
        if let Some(rows) = blocks[i as int] {
            lemma_row_with_id(rows, id, 0);
            if let Some(p) = row_with_id(rows, id, 0) {
                let k = choose|k: int| 0 <= k < rows.len() && (#[trigger] rows[k]).puzzle == p;
                assert(stands_at(blocks, i as int, k, p));
            }
        }
    }
}

proof fn lemma_row_with_id(rows: Seq<QueryRow>, id: Seq<char>, i: nat)
    ensures
        match row_with_id(rows, id, i) {
            Some(p) => p.id == id && exists|k: int|
                0 <= k < rows.len() && (#[trigger] rows[k]).puzzle == p,
            None => forall|k: int| i <= k < rows.len() ==> (#[trigger] rows[k]).puzzle.id != id,
        },
    decreases rows.len() - i,
{
    if i < rows.len() {
        lemma_row_with_id(rows, id, i + 1);
    }
}

} // verus!
