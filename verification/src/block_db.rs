//! The reader of databases whose blocks hold records (format 3).
//!
//! A block is the number of its records, the number of its moves, the records
//! and the moves; the moves of a record are found by an offset in the block.

use vstd::prelude::*;

use crate::appendix::{appendix_at, empty_appendix, no_appendix, read_appendix, AppendixModel};
use crate::block_file::{is_block_range, payload_of, BlockEntry, BlockFile};
use crate::board::{codes_of, spread, CompactBoard};
use crate::chance::{draw, pick};
use crate::db::number_at;
use crate::fen::{fen_string_of, fen_text, FenModel};
use crate::id::{decode_base62_id, id_text};
use crate::moves::{uci_strings, PackedMove};
use crate::puzzle::{
    found_model, puzzle_models, puzzle_of, theme_strings, Puzzle, PuzzleModel, QueryCriteria,
};
use crate::query::{
    answers_draws, are_drawn, at_most, block_hits, first_drawn, has_hit, hit, hit_places, hits,
    is_answer, is_hit, is_random_answer, is_range_answer, lemma_block_hits_prefix,
    lemma_first_drawn, lemma_hit_places, query_of, Query, QueryRow,
};
use crate::record::{pool_moves, push_array, take_array};
use crate::section::{moves_at, read_moves, DbError};
use crate::text::texts;
use crate::theme::ThemeMask;
use crate::wire::{le, le_value, lemma_le, lemma_spans, put, slot, take};

verus! {

/// The format version of these databases.
pub const LPDB_VERSION_V3: u32 = 3;

/// How many puzzles a block has.
pub const DEFAULT_BLOCK_SIZE: usize = 512;

/// The header of a database.
#[derive(Debug, Clone, Copy)]
pub struct DbHeaderV3 {
    pub magic: [u8; 4],
    pub version: u32,
    pub puzzle_count: u64,
    pub block_count: u32,
    pub block_size: u32,
    pub block_index_offset: u64,
    pub theme_dict_offset: u64,
    pub theme_dict_count: u32,
    pub min_rating: u16,
    pub max_rating: u16,
    pub reserved: [u8; 16],
}

impl DbHeaderV3 {
    /// What the header says of the bytes of a file.
    pub open spec fn reads(&self, data: Seq<u8>) -> bool {
        &&& self.magic@ == data.take(4)
        &&& self.version == number_at(data, 4, 4)
        &&& self.puzzle_count == number_at(data, 8, 8)
        &&& self.block_count == number_at(data, 16, 4)
        &&& self.block_size == number_at(data, 20, 4)
        &&& self.block_index_offset == number_at(data, 24, 8)
        &&& self.theme_dict_offset == number_at(data, 32, 8)
        &&& self.theme_dict_count == number_at(data, 40, 4)
        &&& self.min_rating == number_at(data, 44, 2)
        &&& self.max_rating == number_at(data, 46, 2)
        &&& self.reserved@ == data.subrange(48, 64)
    }

    /// The header of a file.
    pub fn read(data: &[u8]) -> (r: Self)
        requires
            data.len() >= 64,
        ensures
            r.reads(data@),
    {
        proof {
            lemma_spans();
            assert(data@.take(4) =~= data@.subrange(0, 4));
        }
        DbHeaderV3 {
            magic: crate::db::take_four(data, 0),
            version: take(data, 4, 4) as u32,
            puzzle_count: take(data, 8, 8) as u64,
            block_count: take(data, 16, 4) as u32,
            block_size: take(data, 20, 4) as u32,
            block_index_offset: take(data, 24, 8) as u64,
            theme_dict_offset: take(data, 32, 8) as u64,
            theme_dict_count: take(data, 40, 4) as u32,
            min_rating: take(data, 44, 2) as u16,
            max_rating: take(data, 46, 2) as u16,
            reserved: take_array(data, 48),
        }
    }
}

/// One puzzle of a block: 40 bytes.
#[derive(Debug, Clone, Copy, PartialEq, Eq)]
pub struct BlockPuzzleRecord {
    pub board_occupied: u64,
    pub board_pieces: [u8; 16],
    pub id_base62: u32,
    pub theme_id: u32,
    pub move_local_offset: u16,
    pub move_count: u8,
    pub fen_halfmove: u8,
    pub fen_state: u16,
    pub rating: u16,
}

/// What a record says.
#[verifier::ext_equal]
pub struct RowModel {
    pub occupied: u64,
    pub pieces: Seq<u8>,
    pub id: u32,
    pub theme_id: u32,
    pub offset: u16,
    pub count: u8,
    pub halfmove: u8,
    pub state: u16,
    pub rating: u16,
}

impl View for BlockPuzzleRecord {
    type V = RowModel;

    open spec fn view(&self) -> RowModel {
        RowModel {
            occupied: self.board_occupied,
            pieces: self.board_pieces@,
            id: self.id_base62,
            theme_id: self.theme_id,
            offset: self.move_local_offset,
            count: self.move_count,
            halfmove: self.fen_halfmove,
            state: self.fen_state,
            rating: self.rating,
        }
    }
}

/// The records of a list.
pub open spec fn row_models(v: Seq<BlockPuzzleRecord>) -> Seq<RowModel> {
    Seq::new(v.len(), |i: int| v[i]@)
}

/// The bytes of a record.
pub open spec fn row_bytes(m: RowModel) -> Seq<u8> {
    le(m.occupied as nat, 8) + m.pieces + le(m.id as nat, 4) + le(m.theme_id as nat, 4) + le(
        m.offset as nat,
        2,
    ) + le(m.count as nat, 1) + le(m.halfmove as nat, 1) + le(m.state as nat, 2) + le(
        m.rating as nat,
        2,
    )
}

/// The record of 40 bytes.
pub open spec fn row_of(b: Seq<u8>) -> RowModel {
    RowModel {
        occupied: le_value(b.subrange(0, 8)) as u64,
        pieces: b.subrange(8, 24),
        id: le_value(b.subrange(24, 28)) as u32,
        theme_id: le_value(b.subrange(28, 32)) as u32,
        offset: le_value(b.subrange(32, 34)) as u16,
        count: le_value(b.subrange(34, 35)) as u8,
        halfmove: le_value(b.subrange(35, 36)) as u8,
        state: le_value(b.subrange(36, 38)) as u16,
        rating: le_value(b.subrange(38, 40)) as u16,
    }
}

/// The bytes of a record give the record back.
pub proof fn lemma_row_back(m: RowModel)
    requires
        m.pieces.len() == 16,
    ensures
        row_bytes(m).len() == 40,
        row_of(row_bytes(m)) == m,
{
    lemma_spans();
    let b = row_bytes(m);
    lemma_le(m.occupied as nat, 8);
    lemma_le(m.id as nat, 4);
    lemma_le(m.theme_id as nat, 4);
    lemma_le(m.offset as nat, 2);
    lemma_le(m.count as nat, 1);
    lemma_le(m.halfmove as nat, 1);
    lemma_le(m.state as nat, 2);
    lemma_le(m.rating as nat, 2);
    assert(b.subrange(0, 8) =~= le(m.occupied as nat, 8));
    assert(b.subrange(8, 24) =~= m.pieces);
    assert(b.subrange(24, 28) =~= le(m.id as nat, 4));
    assert(b.subrange(28, 32) =~= le(m.theme_id as nat, 4));
    assert(b.subrange(32, 34) =~= le(m.offset as nat, 2));
    assert(b.subrange(34, 35) =~= le(m.count as nat, 1));
    assert(b.subrange(35, 36) =~= le(m.halfmove as nat, 1));
    assert(b.subrange(36, 38) =~= le(m.state as nat, 2));
    assert(b.subrange(38, 40) =~= le(m.rating as nat, 2));
}

/// The position of a record by itself, whose fullmove number is one.
pub open spec fn row_position(m: RowModel) -> FenModel {
    FenModel {
        cells: spread(m.occupied, codes_of(m.pieces)),
        state: m.state as nat,
        halfmove: m.halfmove as nat,
        fullmove: 1,
    }
}

/// The identifier of a number: where the highest bit is set, the text of the block
/// with the number of the other bits, if there is one, else five base-62 digits.
pub open spec fn row_id(b: RowBlock, raw: u32) -> Seq<char> {
    let k = raw - 0x8000_0000;
    if 0 <= k < b.overflow.len() {
        b.overflow[k]
    } else {
        id_text(raw as nat)
    }
}

/// The fullmove number of a record of a block.
pub open spec fn row_fullmove(b: RowBlock, i: int) -> nat {
    if i < b.fullmoves.len() {
        b.fullmoves[i] as nat
    } else {
        1
    }
}

/// The puzzle of a record of a block.
pub open spec fn row_puzzle(b: RowBlock, i: int, dict: Seq<ThemeMask>) -> PuzzleModel {
    let m = b.rows[i];
    puzzle_of(
        row_id(b, m.id),
        (FenModel { fullmove: row_fullmove(b, i), ..row_position(m) }),
        pool_moves(b.moves, m.offset as nat, m.count as nat),
        m.rating,
        m.theme_id as nat,
        dict,
    )
}

impl BlockPuzzleRecord {
    /// The five characters of the identifier, by its number alone. Where the highest
    /// bit of the number is set, the identifier is a text of the block.
    pub fn id_string(&self) -> (r: String)
        ensures
            r@ == id_text(self.id_base62 as nat),
    {
        decode_base62_id(self.id_base62)
    }

    /// The board.
    pub fn compact_board(&self) -> (r: CompactBoard)
        ensures
            r.occupied == self.board_occupied,
            r.pieces == self.board_pieces,
    {
        CompactBoard { occupied: self.board_occupied, pieces: self.board_pieces }
    }

    /// The FEN of the position, with fullmove number one.
    pub fn fen_string(&self) -> (r: String)
        ensures
            r@ == fen_text(row_position(self@)),
    {
        let cells = self.compact_board().unpack();
        fen_string_of(&cells, self.fen_state, self.fen_halfmove as u64, 1)
    }

    /// The moves of the puzzle among those of its block; none where they run past
    /// the end.
    pub fn get_moves<'a>(&self, block_move_pool: &'a [PackedMove]) -> (r: &'a [PackedMove])
        ensures
            r@ == pool_moves(
                block_move_pool@,
                self.move_local_offset as nat,
                self.move_count as nat,
            ),
    {
        let start: usize = self.move_local_offset as usize;
        let end: usize = start + self.move_count as usize;
        if end <= block_move_pool.len() {
            vstd::slice::slice_subrange(block_move_pool, start, end)
        } else {
            let none = vstd::slice::slice_subrange(block_move_pool, 0, 0);
            assert(none@ =~= Seq::empty());
            none
        }
    }

    /// Appends the bytes of the record.
    pub fn write(&self, out: &mut Vec<u8>)
        ensures
            final(out)@ == old(out)@ + row_bytes(self@),
    {
        put(out, self.board_occupied as u128, 8);
        push_array(out, &self.board_pieces);
        put(out, self.id_base62 as u128, 4);
        put(out, self.theme_id as u128, 4);
        put(out, self.move_local_offset as u128, 2);
        put(out, self.move_count as u128, 1);
        put(out, self.fen_halfmove as u128, 1);
        put(out, self.fen_state as u128, 2);
        put(out, self.rating as u128, 2);
        assert(out@ =~= old(out)@ + row_bytes(self@));
    }

    /// The record whose bytes stand at a position.
    pub fn read(data: &[u8], pos: usize) -> (r: Self)
        requires
            pos + 40 <= data.len(),
        ensures
            r@ == row_of(data@.subrange(pos as int, pos + 40)),
    {
        proof {
            lemma_spans();
            let b = data@.subrange(pos as int, pos + 40);
            assert(b.subrange(0, 8) =~= data@.subrange(pos as int, pos + 8));
            assert(b.subrange(8, 24) =~= data@.subrange(pos + 8, pos + 24));
            assert(b.subrange(24, 28) =~= data@.subrange(pos + 24, pos + 28));
            assert(b.subrange(28, 32) =~= data@.subrange(pos + 28, pos + 32));
            assert(b.subrange(32, 34) =~= data@.subrange(pos + 32, pos + 34));
            assert(b.subrange(34, 35) =~= data@.subrange(pos + 34, pos + 35));
            assert(b.subrange(35, 36) =~= data@.subrange(pos + 35, pos + 36));
            assert(b.subrange(36, 38) =~= data@.subrange(pos + 36, pos + 38));
            assert(b.subrange(38, 40) =~= data@.subrange(pos + 38, pos + 40));
        }
        let r = BlockPuzzleRecord {
            board_occupied: take(data, pos, 8) as u64,
            board_pieces: take_array(data, pos + 8),
            id_base62: take(data, pos + 24, 4) as u32,
            theme_id: take(data, pos + 28, 4) as u32,
            move_local_offset: take(data, pos + 32, 2) as u16,
            move_count: take(data, pos + 34, 1) as u8,
            fen_halfmove: take(data, pos + 35, 1) as u8,
            fen_state: take(data, pos + 36, 2) as u16,
            rating: take(data, pos + 38, 2) as u16,
        };
        assert(r@ =~= row_of(data@.subrange(pos as int, pos + 40)));
        r
    }
}

/// What a block holds.
#[verifier::ext_equal]
pub struct RowBlock {
    pub rows: Seq<RowModel>,
    pub moves: Seq<PackedMove>,
    pub overflow: Seq<Seq<char>>,
    pub fullmoves: Seq<u16>,
}

/// The `n` records from a position on.
pub open spec fn rows_at(data: Seq<u8>, pos: int, n: nat) -> Seq<RowModel> {
    Seq::new(n, |i: int| row_of(slot(data, pos, 40, i)))
}

/// What stands behind the moves of a block; nothing where it cannot be read.
pub open spec fn appendix_behind(data: Seq<u8>, pos: int, n: nat) -> AppendixModel {
    match appendix_at(data, pos, n) {
        Some(a) => a,
        None => no_appendix(n),
    }
}

/// What the content of a block says, or what is wrong with it.
#[verifier::opaque]
pub open spec fn decode_block(data: Seq<u8>) -> Result<RowBlock, DbError> {
    if data.len() < 8 {
        Err(DbError::UnexpectedEnd)
    } else {
        let n = number_at(data, 0, 4);
        let m = number_at(data, 4, 4);
        if 8 + n * 40 > data.len() {
            Err(DbError::RecordsOverflow)
        } else if 8 + n * 40 + m * 2 > data.len() {
            Err(DbError::MovesOverflow)
        } else {
            let a = appendix_behind(data, (8 + n * 40 + m * 2) as int, n);
            Ok(
                RowBlock {
                    rows: rows_at(data, 8, n),
                    moves: moves_at(data, (8 + n * 40) as int, m),
                    overflow: a.ids,
                    fullmoves: a.fullmoves,
                },
            )
        }
    }
}

/// A decompressed block.
pub struct DecompressedBlock {
    pub block_idx: usize,
    pub records: Vec<BlockPuzzleRecord>,
    pub moves: Vec<PackedMove>,
    pub overflow_ids: Vec<String>,
    pub fen_fullmoves: Vec<u16>,
}

impl View for DecompressedBlock {
    type V = RowBlock;

    open spec fn view(&self) -> RowBlock {
        RowBlock {
            rows: row_models(self.records@),
            moves: self.moves@,
            overflow: texts(self.overflow_ids@),
            fullmoves: self.fen_fullmoves@,
        }
    }
}

impl DecompressedBlock {
    /// The block of some content.
    pub fn decode_from_bytes(block_idx: usize, data: &[u8]) -> (r: Result<Self, DbError>)
        ensures
            match r {
                Ok(b) => b.block_idx == block_idx && decode_block(data@) == Ok::<RowBlock, DbError>(
                    b@,
                ),
                Err(e) => decode_block(data@) == Err::<RowBlock, DbError>(e),
            },
    {
        proof {
            reveal(decode_block);
            lemma_spans();
        }
        if data.len() < 8 {
            return Err(DbError::UnexpectedEnd);
        }
        let n: u32 = take(data, 0, 4) as u32;
        let m: u32 = take(data, 4, 4) as u32;
        let records_end: u64 = 8 + (n as u64) * 40;
        if records_end > data.len() as u64 {
            return Err(DbError::RecordsOverflow);
        }
        let moves_end: u64 = records_end + (m as u64) * 2;
        if moves_end > data.len() as u64 {
            return Err(DbError::MovesOverflow);
        }
        let count: usize = n as usize;
        let mut records: Vec<BlockPuzzleRecord> = Vec::new();
        for i in 0..count
            invariant
                8 + count * 40 <= data.len(),
                row_models(records@) == rows_at(data@, 8, i as nat),
        {
            let ghost before = row_models(records@);
            let rec = BlockPuzzleRecord::read(data, 8 + i * 40);
            records.push(rec);
            assert(slot(data@, 8, 40, i as int) =~= data@.subrange(8 + i * 40, 8 + i * 40 + 40));
            assert(row_models(records@) =~= before.push(rec@));
            assert(rows_at(data@, 8, (i + 1) as nat) =~= before.push(rec@));
        }
        let moves = read_moves(data, 8 + count * 40, m as usize);
        let appendix = match read_appendix(data, moves_end as usize, count) {
            Some(a) => a,
            None => empty_appendix(count),
        };
        let b = DecompressedBlock {
            block_idx,
            records,
            moves,
            overflow_ids: appendix.ids,
            fen_fullmoves: appendix.fullmoves,
        };
        assert(b@ =~= decode_block(data@)->Ok_0);
        Ok(b)
    }

    /// The identifier of a record of the block.
    fn id_of(&self, raw: u32) -> (r: String)
        ensures
            r@ == row_id(self@, raw),
    {
        if raw >= 0x8000_0000 {
            let k: usize = (raw - 0x8000_0000) as usize;
            if k < self.overflow_ids.len() {
                return self.overflow_ids[k].clone();
            }
        }
        decode_base62_id(raw)
    }

    /// The puzzle of a record of the block.
    pub fn puzzle(&self, index: usize, theme_dict: &[ThemeMask]) -> (r: Option<Puzzle>)
        ensures
            match r {
                Some(p) => index < self@.rows.len() && p@ == row_puzzle(
                    self@,
                    index as int,
                    theme_dict@,
                ),
                None => index >= self@.rows.len(),
            },
    {
        if index >= self.records.len() {
            return None;
        }
        let rec = &self.records[index];
        let fullmove: u16 = if index < self.fen_fullmoves.len() {
            self.fen_fullmoves[index]
        } else {
            1
        };
        let cells = rec.compact_board().unpack();
        let p = Puzzle {
            id: self.id_of(rec.id_base62),
            fen: fen_string_of(&cells, rec.fen_state, rec.fen_halfmove as u64, fullmove as u64),
            moves: uci_strings(rec.get_moves(self.moves.as_slice())),
            rating: rec.rating,
            themes: theme_strings(rec.theme_id, theme_dict),
        };
        assert(p@ =~= row_puzzle(self@, index as int, theme_dict@));
        Some(p)
    }
}

/// What a query looks at in a block.
pub open spec fn block_rows(b: RowBlock, dict: Seq<ThemeMask>) -> Seq<QueryRow> {
    Seq::new(
        b.rows.len(),
        |i: int|
            QueryRow {
                rating: b.rows[i].rating,
                theme_id: b.rows[i].theme_id,
                puzzle: row_puzzle(b, i, dict),
            },
    )
}

/// A block of a file.
pub open spec fn block_at(data: Seq<u8>, entries: Seq<BlockEntry>, i: nat) -> Result<
    RowBlock,
    DbError,
> {
    match payload_of(data, entries, i) {
        Ok(content) => decode_block(content),
        Err(e) => Err(e),
    }
}

/// The blocks of a file as a query sees them.
pub open spec fn query_blocks(
    data: Seq<u8>,
    entries: Seq<BlockEntry>,
    dict: Seq<ThemeMask>,
) -> Seq<Option<Seq<QueryRow>>> {
    Seq::new(
        entries.len(),
        |i: int|
            match block_at(data, entries, i as nat) {
                Ok(b) => Some(block_rows(b, dict)),
                Err(_) => None,
            },
    )
}

/// The puzzle of an index.
pub open spec fn puzzle_at(
    data: Seq<u8>,
    size: usize,
    block_size: nat,
    entries: Seq<BlockEntry>,
    dict: Seq<ThemeMask>,
    index: nat,
) -> Option<PuzzleModel> {
    if index >= size || block_size == 0 {
        None
    } else {
        match block_at(data, entries, index / block_size) {
            Ok(b) => {
                let k = (index % block_size) as int;
                if k < b.rows.len() {
                    Some(row_puzzle(b, k, dict))
                } else {
                    None
                }
            },
            Err(_) => None,
        }
    }
}

/// A database whose blocks hold records. The last block that was read is kept.
pub struct BlockCompressedDb<'a> {
    file: BlockFile<'a>,
    header: DbHeaderV3,
    cache: Option<DecompressedBlock>,
}

impl<'a> BlockCompressedDb<'a> {
    /// The bytes of the file.
    pub closed spec fn data(&self) -> Seq<u8> {
        self.file.data@
    }

    /// The header.
    pub closed spec fn head(&self) -> DbHeaderV3 {
        self.header
    }

    /// The block index.
    pub closed spec fn index(&self) -> Seq<BlockEntry> {
        self.file.entries@
    }

    /// The theme dictionary.
    pub closed spec fn dict(&self) -> Seq<ThemeMask> {
        self.file.theme_dict@
    }

    /// The number of puzzles.
    pub closed spec fn size(&self) -> usize {
        self.file.size()
    }

    /// The block that is kept: its number, and what it holds.
    pub closed spec fn kept(&self) -> Option<(nat, RowBlock)> {
        match self.cache {
            Some(b) => Some((b.block_idx as nat, b@)),
            None => None,
        }
    }

    /// What is open is the file, and the block that is kept is one of the file.
    pub closed spec fn wf(&self) -> bool {
        &&& self.file.reads(LPDB_VERSION_V3)
        &&& self.header.reads(self.file.data@)
        &&& match self.cache {
            Some(b) => block_at(self.data(), self.index(), b.block_idx as nat) == Ok::<
                RowBlock,
                DbError,
            >(b@),
            None => true,
        }
    }

    /// What an open database says of its file.
    pub open spec fn opened(&self) -> bool {
        &&& self.head().reads(self.data())
        &&& crate::block_file::file_fault(self.data(), LPDB_VERSION_V3) is None
        &&& self.size() == number_at(self.data(), 8, 8) as usize
        &&& self.dict() == crate::section::masks_at(
            self.data(),
            number_at(self.data(), 32, 8) as int,
            number_at(self.data(), 40, 4),
        )
        &&& self.index().len() == number_at(self.data(), 16, 4)
        &&& crate::block_file::entries_at(
            self.index(),
            self.data(),
            number_at(self.data(), 24, 8) as int,
        )
    }

    /// Two states of the same database: only the block that is kept differs.
    pub open spec fn same(&self, other: &Self) -> bool {
        &&& self.data() == other.data()
        &&& self.head() == other.head()
        &&& self.index() == other.index()
        &&& self.dict() == other.dict()
        &&& self.size() == other.size()
    }

    /// Opens the bytes of a file.
    pub fn open(data: &'a [u8]) -> (r: Result<Self, DbError>)
        ensures
            match r {
                Ok(db) => db.wf() && db.opened() && db.data() == data@,
                Err(e) => crate::block_file::file_fault(data@, LPDB_VERSION_V3) == Some(e),
            },
    {
        match BlockFile::open(data, LPDB_VERSION_V3) {
            Ok(file) => {
                let header = DbHeaderV3::read(data);
                Ok(BlockCompressedDb { file, header, cache: None })
            },
            Err(e) => Err(e),
        }
    }

    /// The header.
    pub fn header(&self) -> (r: &DbHeaderV3)
        ensures
            *r == self.head(),
    {
        &self.header
    }

    /// The number of puzzles.
    pub fn len(&self) -> (r: usize)
        ensures
            r == self.size(),
    {
        self.file.len()
    }

    /// Whether there are no puzzles.
    pub fn is_empty(&self) -> (r: bool)
        ensures
            r == (self.size() == 0),
    {
        self.file.len() == 0
    }

    /// The theme dictionary.
    pub fn theme_dict(&self) -> (r: &[ThemeMask])
        ensures
            r@ == self.dict(),
    {
        self.file.theme_dict.as_slice()
    }

    /// Decompresses a block.
    pub fn get_block(&self, block_idx: usize) -> (r: Result<DecompressedBlock, DbError>)
        ensures
            match r {
                Ok(b) => b.block_idx == block_idx && block_at(
                    self.data(),
                    self.index(),
                    block_idx as nat,
                ) == Ok::<RowBlock, DbError>(b@),
                Err(e) => block_at(self.data(), self.index(), block_idx as nat) == Err::<
                    RowBlock,
                    DbError,
                >(e),
            },
    {
        match self.file.payload(block_idx) {
            Ok(content) => DecompressedBlock::decode_from_bytes(block_idx, content.as_slice()),
            Err(e) => Err(e),
        }
    }

    /// The puzzle of an index.
    pub fn get(&mut self, puzzle_idx: usize) -> (r: Option<Puzzle>)
        requires
            old(self).wf(),
        ensures
            final(self).wf(),
            final(self).same(old(self)),
            match puzzle_at(
                old(self).data(),
                old(self).size(),
                old(self).head().block_size as nat,
                old(self).index(),
                old(self).dict(),
                puzzle_idx as nat,
            ) {
                Some(m) => r matches Some(p) && p@ == m,
                None => r is None,
            },
            ({
                let size = old(self).head().block_size as nat;
                let b = puzzle_idx as nat / size;
                match block_at(old(self).data(), old(self).index(), b) {
                    Ok(block) if puzzle_idx < old(self).size() && size > 0 => final(self).kept()
                        == Some((b, block)),
                    _ => final(self).kept() == old(self).kept(),
                }
            }),
    {
        let (block_idx, place): (usize, usize) = match self.file.locate(puzzle_idx) {
            Some(x) => x,
            None => {
                return None;
            },
        };
        let hit = match &self.cache {
            Some(b) => b.block_idx == block_idx,
            None => false,
        };
        if !hit {
            match self.get_block(block_idx) {
                Ok(b) => {
                    self.cache = Some(b);
                },
                Err(_) => {
                    return None;
                },
            }
        }
        match &self.cache {
            Some(b) => b.puzzle(place, self.file.theme_dict.as_slice()),
            None => None,
        }
    }

    /// A query with the rating range of the header where none is asked for.
    pub open spec fn query(&self, c: QueryCriteria) -> Query {
        query_of(c, self.head().min_rating, self.head().max_rating, self.dict())
    }

    /// The blocks as a query sees them.
    pub open spec fn blocks(&self) -> Seq<Option<Seq<QueryRow>>> {
        query_blocks(self.data(), self.index(), self.dict())
    }

    /// The rating range of a query.
    fn bounds(&self, criteria: &QueryCriteria) -> (r: (u16, u16))
        ensures
            r.0 == self.query(*criteria).min,
            r.1 == self.query(*criteria).max,
    {
        let min: u16 = match criteria.min_rating {
            Some(m) => m,
            None => self.header.min_rating,
        };
        let max: u16 = match criteria.max_rating {
            Some(m) => m,
            None => self.header.max_rating,
        };
        (min, max)
    }

    /// Whether a query takes a record.
    fn takes(&self, criteria: &QueryCriteria, rec: &BlockPuzzleRecord) -> (r: bool)
        ensures
            forall|p: PuzzleModel|
                r == #[trigger] hit(
                    self.query(*criteria),
                    (QueryRow { rating: rec.rating, theme_id: rec.theme_id, puzzle: p }),
                ),
    {
        let (min, max): (u16, u16) = self.bounds(criteria);
        rec.rating >= min && rec.rating <= max && criteria.takes_themes(
            rec.theme_id,
            self.file.theme_dict.as_slice(),
        )
    }

    /// The places of the records of a block that a query takes.
    pub fn matching_in_block(&self, block: &DecompressedBlock, criteria: &QueryCriteria) -> (r: Vec<
        usize,
    >)
        ensures
            r@.map_values(|k: usize| k as int) == hit_places(
                self.query(*criteria),
                block_rows(block@, self.dict()),
            ),
    {
        let ghost q = self.query(*criteria);
        let ghost rows = block_rows(block@, self.dict());
        let mut out: Vec<usize> = Vec::new();
        for i in 0..block.records.len()
            invariant
                q == self.query(*criteria),
                rows == block_rows(block@, self.dict()),
                out@.map_values(|k: usize| k as int) == hit_places(q, rows.take(i as int)),
        {
            let ghost before = out@.map_values(|k: usize| k as int);
            assert(rows.take(i + 1).drop_last() =~= rows.take(i as int));
            assert(rows.take(i + 1).last() == rows[i as int]);
            if self.takes(criteria, &block.records[i]) {
                assert(hit(q, rows[i as int]));
                out.push(i);
                assert(out@.map_values(|k: usize| k as int) =~= before.push(i as int));
            } else {
                assert(!hit(q, rows[i as int]));
            }
        }
        assert(rows.take(block.records@.len() as int) =~= rows);
        out
    }

    /// The first of some drawn blocks that has a puzzle that a query takes, with the
    /// places of all such puzzles in it; none where none of the blocks has one.
    pub fn first_match(&self, criteria: &QueryCriteria, drawn: &Vec<usize>) -> (r: Option<
        (DecompressedBlock, Vec<usize>),
    >)
        ensures
            match first_drawn(self.query(*criteria), self.blocks(), drawn@, 0) {
                Some(d) => r matches Some((block, places)) && self.blocks()[drawn@[d as int] as int]
                    == Some(block_rows(block@, self.dict())) && places@.map_values(
                    |k: usize| k as int,
                ) == hit_places(self.query(*criteria), block_rows(block@, self.dict())),
                None => r is None,
            },
    {
        let ghost q = self.query(*criteria);
        let ghost blocks = self.blocks();
        let mut d: usize = 0;
        while d < drawn.len()
            invariant
                q == self.query(*criteria),
                blocks == self.blocks(),
                d <= drawn@.len(),
                first_drawn(q, blocks, drawn@, 0) == first_drawn(q, blocks, drawn@, d as nat),
            decreases drawn@.len() - d,
        {
            let i: usize = drawn[d];
            if i < self.file.entries.len() {
                if let Ok(block) = self.get_block(i) {
                    let places = self.matching_in_block(&block, criteria);
                    let ghost rows = block_rows(block@, self.dict());
                    assert(blocks[i as int] == Some(rows));
                    assert(places@.map_values(|k: usize| k as int).len() == places@.len());
                    if places.len() > 0 {
                        return Some((block, places));
                    }
                }
            }
            assert(!has_hit(q, blocks, i as int));
            d = d + 1;
        }
        None
    }

    /// A random puzzle that a query takes. Up to twenty blocks are drawn from the
    /// rating range.
    pub fn random_puzzle(
        &self,
        criteria: &QueryCriteria,
        rng: &mut rand::rngs::ThreadRng,
    ) -> (r: Option<Puzzle>)
        ensures
            is_random_answer(
                self.query(*criteria),
                self.index(),
                self.blocks(),
                20,
                found_model(r),
            ),
    {
        let ghost q = self.query(*criteria);
        let ghost blocks = self.blocks();
        let (min, max): (u16, u16) = self.bounds(criteria);
        if min > max {
            return None;
        }
        let (start, end): (usize, usize) = self.file.block_range(min, max);
        assert(is_block_range(self.index(), min, max, start as int, end as int));
        if start >= end {
            assert(is_range_answer(q, blocks, start as int, end as int, 20, None));
            return None;
        }
        let drawn = draw(rng, start, end, 20);
        let found: Option<Puzzle> = match self.first_match(criteria, &drawn) {
            Some((block, places)) => {
                proof {
                    lemma_first_drawn(q, blocks, drawn@, 0);
                }
                let ghost i = drawn@[first_drawn(q, blocks, drawn@, 0)->0 as int] as int;
                let ghost rows = block_rows(block@, self.dict());
                let ghost ks = places@.map_values(|k: usize| k as int);
                assert(ks.len() == places@.len());
                let j: usize = pick(rng, places.len());
                let k: usize = places[j];
                proof {
                    lemma_hit_places(q, rows);
                    assert(ks[j as int] == k);
                    assert(hit_places(q, rows)[j as int] == k);
                }
                let p = block.puzzle(k, self.file.theme_dict.as_slice());
                assert(is_hit(q, blocks, i, k as int, p->0@));
                p
            },
            None => None,
        };
        assert(are_drawn(drawn@, start as int, end as int, 20));
        assert(answers_draws(q, blocks, drawn@, found_model(found)));
        assert(is_range_answer(q, blocks, start as int, end as int, 20, found_model(found)));
        found
    }

    /// The first puzzles, at most `limit`, that a query takes.
    pub fn query_puzzles(&self, criteria: &QueryCriteria, limit: usize) -> (r: Vec<Puzzle>)
        ensures
            is_answer(
                self.query(*criteria),
                self.index(),
                self.blocks(),
                limit as nat,
                puzzle_models(r@),
            ),
    {
        let ghost q = self.query(*criteria);
        let ghost blocks = self.blocks();
        let mut out: Vec<Puzzle> = Vec::new();
        let (min, max): (u16, u16) = self.bounds(criteria);
        if min > max {
            return out;
        }
        let (start, end): (usize, usize) = self.file.block_range(min, max);
        assert(is_block_range(self.index(), q.min, q.max, start as int, end as int));
        let ghost all = block_hits(q, blocks, start as int, end as int);
        if limit == 0 {
            assert(puzzle_models(out@) =~= at_most(all, 0));
            return out;
        }
        if start >= end {
            assert(puzzle_models(out@) =~= at_most(all, limit as nat));
            return out;
        }
        assert(puzzle_models(out@) =~= Seq::empty());
        let mut i: usize = start;
        while i < end
            invariant
                q == self.query(*criteria),
                blocks == self.blocks(),
                all == block_hits(q, blocks, start as int, end as int),
                start <= i <= end <= self.index().len(),
                is_block_range(self.index(), q.min, q.max, start as int, end as int),
                q.min <= q.max,
                puzzle_models(out@) == block_hits(q, blocks, start as int, i as int),
                out@.len() < limit,
            decreases end - i,
        {
            if let Ok(block) = self.get_block(i) {
                let ghost rows = block_rows(block@, self.dict());
                assert(blocks[i as int] == Some(rows));
                let ghost had = puzzle_models(out@);
                assert(rows.take(0) =~= Seq::empty());
                assert(had + hits(q, rows.take(0)) =~= had);
                for k in 0..block.records.len()
                    invariant
                        q == self.query(*criteria),
                        blocks == self.blocks(),
                        all == block_hits(q, blocks, start as int, end as int),
                        start <= i < end,
                        is_block_range(self.index(), q.min, q.max, start as int, end as int),
                        q.min <= q.max,
                        rows == block_rows(block@, self.dict()),
                        blocks[i as int] == Some(rows),
                        had == block_hits(q, blocks, start as int, i as int),
                        puzzle_models(out@) == had + hits(q, rows.take(k as int)),
                        out@.len() < limit,
                {
                    let ghost part = puzzle_models(out@);
                    assert(rows.take(k + 1).drop_last() =~= rows.take(k as int));
                    assert(rows.take(k + 1).last() == rows[k as int]);
                    if self.takes(criteria, &block.records[k]) {
                        assert(hit(q, rows[k as int]));
                        if let Some(p) = block.puzzle(k, self.file.theme_dict.as_slice()) {
                            out.push(p);
                            assert(puzzle_models(out@) =~= part.push(p@));
                            assert(puzzle_models(out@) =~= had + hits(q, rows.take(k + 1)));
                            if out.len() >= limit {
                                proof {
                                    lemma_block_hits_prefix(
                                        q,
                                        blocks,
                                        start as int,
                                        i as int,
                                        end as int,
                                        k + 1,
                                    );
                                    assert(puzzle_models(out@) =~= at_most(all, limit as nat));
                                }
                                return out;
                            }
                        }
                    } else {
                        assert(!hit(q, rows[k as int]));
                    }
                }
                assert(rows.take(block.records@.len() as int) =~= rows);
            } else {
                assert(blocks[i as int] is None);
                assert(puzzle_models(out@) =~= block_hits(q, blocks, start as int, i + 1));
            }
            i = i + 1;
        }
        assert(puzzle_models(out@) =~= at_most(all, limit as nat));
        out
    }
}

} // verus!
