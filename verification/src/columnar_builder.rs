//! The builder of databases whose blocks hold columns (format 4).

use vstd::prelude::*;

use crate::appendix::{
    appendix_at, appendix_of, are_odd, byte_texts, cut_parts, fullmove_column, id_cell, id_column,
    id_holds, law_appendix_back, law_odd_id_back, number_ids, odd_ids, write_appendix,
    AppendixModel,
};
use crate::block_builder::{rating_first, rating_last};
use crate::block_file::{
    assemble, block_file, block_models, blocks_from, entries_at, file_fault, file_holds, frames,
    law_entries_back, law_file_opens, law_payload_back, max_keys, min_keys, tail_bytes, BlockEntry,
    BlockModel, FileFacts, PackedBlock,
};
use crate::board::{before, codes_of, count_squares, holds, spread};
use crate::builder::{first_rating, last_rating, rating_of_first, rating_of_last, sorted_from};
use crate::chunks::{
    all_packed, chunk_at, chunk_count, chunk_end, content_size, count_chunks, lemma_chunk_bounds,
    lemma_chunk_ratings, lemma_chunks_rise, lemma_in_chunk, packed,
};
use crate::columnar_db::{
    block_at, column32, column64, column_id, column_position, column_puzzle, decode_columns,
    doubled, halfmoves_at, move_runs, puzzle_at, query_blocks, states_at, ColumnBlock,
    DEFAULT_V4_BLOCK_SIZE, LPDB_VERSION_V4,
};
use crate::columns::{
    deltas, flat, lemma_column_front, lemma_parts, lemma_runs_front, lemma_summed_back, lens_of,
    runs, total,
};
use crate::db::number_at;
use crate::dict::{dict_of, distinct, item_masks, lemma_distinct, lemma_place, place_of, ThemeDict};
use crate::fen::{fen_text, FenModel};
use crate::frame::{compress, zstd_content, zstd_frame};
use crate::id::{law_id_round_trip, lemma_id_number_bound, standard_id};
use crate::ingest::{
    item_position, item_puzzle, item_ratings, law_row_kept, models, row_item, sort_by_rating,
    BuildError, ItemModel, ParsedItem, RowFilter,
};
use crate::moves::small_uci;
use crate::puzzle::PuzzleModel;
use crate::query::index_is_true;
use crate::section::{lemma_moves_back, masks_at, move_values, rising, write_moves, DbError};

use crate::text::joined;
use crate::theme::{mask_names, ThemeMask};
use crate::wire::{column, le, le_all, lemma_le, lemma_spans, put, span};

verus! {

/// What a build is asked for; what is `None` is not asked.
#[derive(Debug, Clone, Copy)]
pub struct ColumnarBuilderOptions {
    pub min_rating: Option<u16>,
    pub max_rating: Option<u16>,
    pub min_popularity: Option<i8>,
    pub min_plays: Option<u32>,
    pub block_size: usize,
    pub compression_level: i32,
    pub limit: Option<usize>,
}

impl Default for ColumnarBuilderOptions {
    /// Everything, in blocks of 2048 puzzles, at level 19.
    fn default() -> (r: Self)
        ensures
            r.min_rating is None,
            r.max_rating is None,
            r.min_popularity is None,
            r.min_plays is None,
            r.block_size == 2048,
            r.compression_level == 19,
            r.limit is None,
    {
        ColumnarBuilderOptions {
            min_rating: None,
            max_rating: None,
            min_popularity: None,
            min_plays: None,
            block_size: DEFAULT_V4_BLOCK_SIZE,
            compression_level: 19,
            limit: None,
        }
    }
}

/// What options ask of a row.
pub open spec fn filter_of(o: ColumnarBuilderOptions) -> RowFilter {
    RowFilter {
        min_rating: o.min_rating,
        max_rating: o.max_rating,
        min_popularity: o.min_popularity,
        min_plays: o.min_plays,
    }
}

impl ColumnarBuilderOptions {
    /// What the options ask of a row.
    pub fn filter(&self) -> (r: RowFilter)
        ensures
            r.min_rating == self.min_rating,
            r.max_rating == self.max_rating,
            r.min_popularity == self.min_popularity,
            r.min_plays == self.min_plays,
            r == filter_of(*self),
    {
        RowFilter {
            min_rating: self.min_rating,
            max_rating: self.max_rating,
            min_popularity: self.min_popularity,
            min_plays: self.min_plays,
        }
    }
}

/// What a build did.
pub struct ColumnarBuilderStats {
    pub total_puzzles: usize,
    pub total_blocks: usize,
    pub uncompressed_size: u64,
    pub compressed_size: u64,
    pub min_rating: u16,
    pub max_rating: u16,
}

/// How many bytes the pieces of a puzzle take: two pieces to a byte, as far as the
/// puzzle has them.
pub open spec fn piece_len(m: ItemModel) -> int {
    let len = (before(m.occupied, 64) as int + 1) / 2;
    let most = m.pieces.len() + m.more.len();
    if len <= most {
        len
    } else {
        most as int
    }
}

/// The ratings of the puzzles.
pub open spec fn rating_column(items: Seq<ItemModel>) -> Seq<u16> {
    items.map_values(|m: ItemModel| m.rating)
}

/// The column of the places of the masks.
pub open spec fn place_column(items: Seq<ItemModel>, dict: Seq<ThemeMask>) -> Seq<nat> {
    items.map_values(|m: ItemModel| place_of(dict, m.mask))
}

/// The column of the states and halfmove clocks.
pub open spec fn state_column(items: Seq<ItemModel>) -> Seq<nat> {
    items.map_values(|m: ItemModel| m.state as nat + 65536 * m.halfmove as nat)
}

/// The column of the occupancy masks.
pub open spec fn occupied_column(items: Seq<ItemModel>) -> Seq<nat> {
    items.map_values(|m: ItemModel| m.occupied as nat)
}

/// The pieces of the puzzles.
pub open spec fn piece_parts(items: Seq<ItemModel>) -> Seq<Seq<u8>> {
    items.map_values(|m: ItemModel| (m.pieces + m.more).take(piece_len(m)))
}

/// The bytes of the moves of the puzzles.
pub open spec fn move_parts(items: Seq<ItemModel>) -> Seq<Seq<u8>> {
    items.map_values(|m: ItemModel| le_all(move_values(m.moves), 2))
}

/// The column of the numbers of moves; of each, eight bits are kept.
pub open spec fn count_column(items: Seq<ItemModel>) -> Seq<nat> {
    items.map_values(|m: ItemModel| m.moves.len())
}

/// The content of the block of puzzles.
#[verifier::opaque]
pub open spec fn chunk_payload(items: Seq<ItemModel>, dict: Seq<ThemeMask>) -> Seq<u8> {
    le(items.len(), 4) + (le_all(id_column(items), 4) + (le_all(deltas(rating_column(items)), 2) + (
    le_all(place_column(items, dict), 4) + (le_all(state_column(items), 3) + (le_all(
        occupied_column(items),
        8,
    ) + (le_all(lens_of(piece_parts(items)), 1) + (flat(piece_parts(items)) + (le_all(
        count_column(items),
        1,
    ) + (flat(move_parts(items)) + appendix_of(items))))))))))
}

/// The compressed block of puzzles; none where it cannot be compressed.
pub open spec fn chunk_block(
    items: Seq<ItemModel>,
    dict: Seq<ThemeMask>,
    level: i32,
) -> Option<BlockModel> {
    let content = chunk_payload(items, dict);
    match zstd_frame(content, level) {
        Some(frame) => Some(
            BlockModel {
                frame,
                uncompressed_size: (content.len() % 0x1_0000_0000) as u32,
                puzzle_count: (items.len() % 65536) as u16,
                min_rating: first_rating(items),
                max_rating: last_rating(items),
                flags: if odd_ids(items).len() == 0 {
                    0
                } else {
                    1
                },
            },
        ),
        None => None,
    }
}

/// Appends the column of the identifiers, and returns which stand as texts.
fn write_ids(out: &mut Vec<u8>, chunk: &[ParsedItem]) -> (r: Vec<usize>)
    ensures
        final(out)@ == old(out)@ + le_all(id_column(models(chunk@)), 4),
        are_odd(r@, chunk@),
{
    let ghost vals = id_column(models(chunk@));
    let (nums, odd) = number_ids(chunk);
    assert(vals.take(0) =~= Seq::empty());
    assert(out@ =~= old(out)@ + le_all(vals.take(0), 4));
    for i in 0..nums.len()
        invariant
            vals.len() == nums@.len(),
            forall|k: int| 0 <= k < nums@.len() ==> #[trigger] nums@[k] == vals[k],
            out@ == old(out)@ + le_all(vals.take(i as int), 4),
    {
        assert(vals.take(i + 1).drop_last() =~= vals.take(i as int));
        assert(vals.take(i + 1).last() == nums@[i as int]);
        put(out, nums[i] as u128, 4);
        assert(out@ =~= old(out)@ + le_all(vals.take(i + 1), 4));
    }
    assert(vals.take(nums@.len() as int) =~= vals);
    odd
}

/// Appends the column of the ratings, each as the difference from the one before.
fn write_ratings(out: &mut Vec<u8>, chunk: &[ParsedItem])
    ensures
        final(out)@ == old(out)@ + le_all(deltas(rating_column(models(chunk@))), 2),
{
    let ghost ratings = rating_column(models(chunk@));
    let ghost vals = deltas(ratings);
    let mut prev: u16 = 0;
    assert(vals.take(0) =~= Seq::empty());
    assert(out@ =~= old(out)@ + le_all(vals.take(0), 2));
    for i in 0..chunk.len()
        invariant
            ratings == rating_column(models(chunk@)),
            vals == deltas(ratings),
            out@ == old(out)@ + le_all(vals.take(i as int), 2),
            i > 0 ==> prev == ratings[i - 1],
            i == 0 ==> prev == 0,
    {
        let rating: u16 = chunk[i].rating;
        let delta: u16 = rating.wrapping_sub(prev);
        proof {
            assert(ratings[i as int] == rating);
            assert(delta == (rating - prev) % 65536);
            assert(vals[i as int] == delta);
            assert(vals.take(i + 1).drop_last() =~= vals.take(i as int));
        }
        put(out, delta as u128, 2);
        prev = rating;
        assert(out@ =~= old(out)@ + le_all(vals.take(i + 1), 2));
    }
    assert(vals.take(chunk@.len() as int) =~= vals);
}

/// Appends the column of the places of the masks.
fn write_places(out: &mut Vec<u8>, chunk: &[ParsedItem], dict: &ThemeDict)
    requires
        dict.wf(),
        forall|i: int|
            0 <= i < chunk@.len() ==> dict.masks@.contains((#[trigger] chunk@[i]).theme_mask),
    ensures
        final(out)@ == old(out)@ + le_all(place_column(models(chunk@), dict.masks@), 4),
{
    let ghost vals = place_column(models(chunk@), dict.masks@);
    assert(out@ =~= old(out)@ + le_all(vals.take(0), 4));
    for i in 0..chunk.len()
        invariant
            dict.wf(),
            forall|i: int|
                0 <= i < chunk@.len() ==> dict.masks@.contains((#[trigger] chunk@[i]).theme_mask),
            vals == place_column(models(chunk@), dict.masks@),
            out@ == old(out)@ + le_all(vals.take(i as int), 4),
    {
        let place: u32 = dict.place(chunk[i].theme_mask);
        put(out, place as u128, 4);
        assert(vals.take(i + 1).drop_last() =~= vals.take(i as int));
        assert(out@ =~= old(out)@ + le_all(vals.take(i + 1), 4));
    }
    assert(vals.take(chunk@.len() as int) =~= vals);
}

/// Appends the column of the states and halfmove clocks.
fn write_states(out: &mut Vec<u8>, chunk: &[ParsedItem])
    ensures
        final(out)@ == old(out)@ + le_all(state_column(models(chunk@)), 3),
{
    let ghost vals = state_column(models(chunk@));
    assert(out@ =~= old(out)@ + le_all(vals.take(0), 3));
    for i in 0..chunk.len()
        invariant
            vals == state_column(models(chunk@)),
            out@ == old(out)@ + le_all(vals.take(i as int), 3),
    {
        let v: u32 = chunk[i].fen_state as u32 + 65536 * (chunk[i].fen_halfmove as u32);
        put(out, v as u128, 3);
        assert(vals.take(i + 1).drop_last() =~= vals.take(i as int));
        assert(out@ =~= old(out)@ + le_all(vals.take(i + 1), 3));
    }
    assert(vals.take(chunk@.len() as int) =~= vals);
}

/// Appends the column of the occupancy masks.
fn write_occupied(out: &mut Vec<u8>, chunk: &[ParsedItem])
    ensures
        final(out)@ == old(out)@ + le_all(occupied_column(models(chunk@)), 8),
{
    let ghost vals = occupied_column(models(chunk@));
    assert(out@ =~= old(out)@ + le_all(vals.take(0), 8));
    for i in 0..chunk.len()
        invariant
            vals == occupied_column(models(chunk@)),
            out@ == old(out)@ + le_all(vals.take(i as int), 8),
    {
        put(out, chunk[i].compact_board.occupied as u128, 8);
        assert(vals.take(i + 1).drop_last() =~= vals.take(i as int));
        assert(out@ =~= old(out)@ + le_all(vals.take(i + 1), 8));
    }
    assert(vals.take(chunk@.len() as int) =~= vals);
}

/// How many bytes the pieces of a puzzle take.
fn piece_bytes(item: &ParsedItem) -> (r: usize)
    ensures
        r == piece_len(item@),
        r <= item.compact_board.pieces@.len() + item.more_pieces@.len(),
        r <= 32,
{
    let len: usize = (count_squares(item.compact_board.occupied) + 1) / 2;
    if len <= 16 || len - 16 <= item.more_pieces.len() {
        len
    } else {
        16 + item.more_pieces.len()
    }
}

/// Appends the column of the lengths of the pieces, then the pieces.
fn write_pieces(out: &mut Vec<u8>, chunk: &[ParsedItem])
    ensures
        final(out)@ == old(out)@ + le_all(lens_of(piece_parts(models(chunk@))), 1) + flat(
            piece_parts(models(chunk@)),
        ),
{
    let ghost its = models(chunk@);
    let ghost parts = piece_parts(its);
    let ghost vals = lens_of(parts);
    assert(out@ =~= old(out)@ + le_all(vals.take(0), 1));
    for i in 0..chunk.len()
        invariant
            its == models(chunk@),
            parts == piece_parts(its),
            vals == lens_of(parts),
            out@ == old(out)@ + le_all(vals.take(i as int), 1),
    {
        let len: usize = piece_bytes(&chunk[i]);
        assert(parts[i as int].len() == len);
        put(out, len as u128, 1);
        assert(vals[i as int] == len);
        assert(vals.take(i + 1).drop_last() =~= vals.take(i as int));
        assert(out@ =~= old(out)@ + le_all(vals.take(i + 1), 1));
    }
    assert(vals.take(chunk@.len() as int) =~= vals);
    let ghost head = out@;
    assert(out@ =~= head + flat(parts.take(0)));
    for i in 0..chunk.len()
        invariant
            its == models(chunk@),
            parts == piece_parts(its),
            out@ == head + flat(parts.take(i as int)),
    {
        let len: usize = piece_bytes(&chunk[i]);
        let ghost was = out@;
        let ghost bytes = chunk@[i as int].compact_board.pieces@ + chunk@[i as int].more_pieces@;
        for k in 0..len
            invariant
                len <= bytes.len(),
                bytes == chunk@[i as int].compact_board.pieces@
                    + chunk@[i as int].more_pieces@,
                i < chunk@.len(),
                out@ == was + bytes.take(k as int),
        {
            if k < 16 {
                out.push(chunk[i].compact_board.pieces[k]);
            } else {
                out.push(chunk[i].more_pieces[k - 16]);
            }
            assert(out@ =~= was + bytes.take(k + 1));
        }
        assert(parts[i as int] == bytes.take(len as int));
        assert(parts.take(i + 1).drop_last() =~= parts.take(i as int));
        assert(out@ =~= head + flat(parts.take(i + 1)));
    }
    assert(parts.take(chunk@.len() as int) =~= parts);
}

/// Appends the column of the numbers of moves, then the moves.
fn write_lines(out: &mut Vec<u8>, chunk: &[ParsedItem])
    ensures
        final(out)@ == old(out)@ + le_all(count_column(models(chunk@)), 1) + flat(
            move_parts(models(chunk@)),
        ),
{
    let ghost its = models(chunk@);
    let ghost vals = count_column(its);
    let ghost parts = move_parts(its);
    assert(out@ =~= old(out)@ + le_all(vals.take(0), 1));
    for i in 0..chunk.len()
        invariant
            its == models(chunk@),
            vals == count_column(its),
            out@ == old(out)@ + le_all(vals.take(i as int), 1),
    {
        put(out, chunk[i].moves.len() as u128, 1);
        assert(vals.take(i + 1).drop_last() =~= vals.take(i as int));
        assert(out@ =~= old(out)@ + le_all(vals.take(i + 1), 1));
    }
    assert(vals.take(chunk@.len() as int) =~= vals);
    let ghost head = out@;
    assert(out@ =~= head + flat(parts.take(0)));
    for i in 0..chunk.len()
        invariant
            its == models(chunk@),
            parts == move_parts(its),
            out@ == head + flat(parts.take(i as int)),
    {
        write_moves(out, chunk[i].moves.as_slice());
        assert(parts.take(i + 1).drop_last() =~= parts.take(i as int));
        assert(out@ =~= head + flat(parts.take(i + 1)));
    }
    assert(parts.take(chunk@.len() as int) =~= parts);
}

/// The content of the block of puzzles, and whether it has identifiers as texts.
#[verifier::rlimit(40)]
pub fn encode_block(chunk: &[ParsedItem], dict: &ThemeDict) -> (r: (Vec<u8>, bool))
    requires
        chunk@.len() > 0,
        dict.wf(),
        forall|i: int|
            0 <= i < chunk@.len() ==> dict.masks@.contains((#[trigger] chunk@[i]).theme_mask),
    ensures
        r.0@ == chunk_payload(models(chunk@), dict.masks@),
        r.1 == (odd_ids(models(chunk@)).len() > 0),
{
    let ghost its = models(chunk@);
    let ghost masks = dict.masks@;
    let mut out: Vec<u8> = Vec::new();
    put(&mut out, chunk.len() as u128, 4);
    assert(out@ =~= le(its.len(), 4));
    let odd = write_ids(&mut out, chunk);
    write_ratings(&mut out, chunk);
    write_places(&mut out, chunk, dict);
    write_states(&mut out, chunk);
    write_occupied(&mut out, chunk);
    write_pieces(&mut out, chunk);
    write_lines(&mut out, chunk);
    write_appendix(&mut out, chunk, &odd);
    proof {
        reveal(chunk_payload);
        let a0 = le(its.len(), 4);
        let a1 = le_all(id_column(its), 4);
        let a2 = le_all(deltas(rating_column(its)), 2);
        let a3 = le_all(place_column(its, masks), 4);
        let a4 = le_all(state_column(its), 3);
        let a5 = le_all(occupied_column(its), 8);
        let a6 = le_all(lens_of(piece_parts(its)), 1);
        let a7 = flat(piece_parts(its));
        let a8 = le_all(count_column(its), 1);
        let a9 = flat(move_parts(its));
        let b = appendix_of(its);
        assert(out@ == a0 + a1 + a2 + a3 + a4 + a5 + a6 + a7 + a8 + a9 + b);
        let left = a0 + a1 + a2 + a3 + a4;
        let right = a6 + (a7 + (a8 + (a9 + b)));
        assert(a6 + a7 + a8 + a9 + b =~= right);
        assert(out@ =~= left + (a5 + right));
        assert(left + (a5 + right) =~= a0 + (a1 + (a2 + (a3 + (a4 + (a5 + right))))));
    }
    (out, odd.len() > 0)
}

/// The compressed block of puzzles.
pub fn pack_block(chunk: &[ParsedItem], dict: &ThemeDict, level: i32) -> (r: Option<PackedBlock>)
    requires
        chunk@.len() > 0,
        dict.wf(),
        forall|i: int|
            0 <= i < chunk@.len() ==> dict.masks@.contains((#[trigger] chunk@[i]).theme_mask),
    ensures
        match r {
            Some(b) => chunk_block(models(chunk@), dict.masks@, level) == Some(b@) && zstd_content(
                b@.frame,
            ) == Some(chunk_payload(models(chunk@), dict.masks@)),
            None => chunk_block(models(chunk@), dict.masks@, level) is None,
        },
{
    let (content, odd) = encode_block(chunk, dict);
    match compress(content.as_slice(), level) {
        Some(frame) => {
            let b = PackedBlock {
                frame,
                uncompressed_size: (content.len() as u64 % 0x1_0000_0000) as u32,
                puzzle_count: (chunk.len() % 65536) as u16,
                min_rating: rating_first(chunk),
                max_rating: rating_last(chunk),
                flags: if odd {
                    1
                } else {
                    0
                },
            };
            assert(b@ =~= chunk_block(models(chunk@), dict.masks@, level)->0);
            Some(b)
        },
        None => None,
    }
}

/// The lowest eight bits of a level.
pub open spec fn level_byte(level: i32) -> u8 {
    (level as int % 256) as u8
}

fn byte_of_level(level: i32) -> (r: u8)
    ensures
        r == level_byte(level),
{
    let v: i64 = level as i64 + 2147483648;
    assert((level as int + 2147483648) % 256 == level as int % 256);
    (v % 256) as u8
}

/// The blocks of puzzles, so many to a block.
pub open spec fn chunk_blocks(
    items: Seq<ItemModel>,
    dict: Seq<ThemeMask>,
    size: nat,
    level: i32,
) -> Seq<Option<BlockModel>> {
    Seq::new(
        chunk_count(items.len(), size),
        |i: int| chunk_block(chunk_at(items, size, i), dict, level),
    )
}

/// What the header of the file of puzzles says.
pub open spec fn facts_of(items: Seq<ItemModel>, size: nat, level: i32) -> FileFacts {
    FileFacts {
        version: 4,
        puzzle_count: items.len() as u64,
        block_size: size as u64,
        min_rating: first_rating(items),
        max_rating: last_rating(items),
        tail: level_byte(level),
    }
}

/// The file of puzzles in this order.
#[verifier::opaque]
pub open spec fn column_file(items: Seq<ItemModel>, size: nat, level: i32) -> Seq<u8> {
    block_file(
        facts_of(items, size, level),
        dict_of(items),
        packed(chunk_blocks(items, dict_of(items), size, level)),
    )
}

/// What a build of these puzzles did.
pub open spec fn stats_of(
    items: Seq<ItemModel>,
    size: nat,
    level: i32,
    file_size: nat,
    s: ColumnarBuilderStats,
) -> bool {
    let blocks = packed(chunk_blocks(items, dict_of(items), size, level));
    &&& s.total_puzzles == items.len()
    &&& s.total_blocks == blocks.len()
    &&& s.uncompressed_size == content_size(blocks)
    &&& s.compressed_size == file_size
    &&& s.min_rating == first_rating(items)
    &&& s.max_rating == last_rating(items)
}

/// Every block decompresses to the content of its puzzles.
pub open spec fn frames_true(items: Seq<ItemModel>, size: nat, level: i32) -> bool {
    let blocks = chunk_blocks(items, dict_of(items), size, level);
    &&& all_packed(blocks)
    &&& forall|i: int|
        0 <= i < blocks.len() ==> zstd_content((#[trigger] blocks[i])->0.frame) == Some(
            chunk_payload(chunk_at(items, size, i), dict_of(items)),
        )
}

/// What a build of puzzles in this order gives.
pub open spec fn is_build(
    items: Seq<ItemModel>,
    size: nat,
    level: i32,
    r: Result<(Vec<u8>, ColumnarBuilderStats), BuildError>,
) -> bool {
    let blocks = chunk_blocks(items, dict_of(items), size, level);
    if dict_of(items).len() > 0xFFFF_FFFF {
        r matches Err(e) && e == BuildError::TooManyThemes
    } else if blocks.len() > 0xFFFF_FFFF {
        r matches Err(e) && e == BuildError::TooManyBlocks
    } else if !all_packed(blocks) {
        r matches Err(e) && e == BuildError::Compression
    } else if blocks_from(dict_of(items).len(), blocks.len()) + frames(packed(blocks)).len()
        > 0xFFFF_FFFF_FFFF_FFFF {
        r matches Err(e) && e == BuildError::TooLarge
    } else {
        r matches Ok((file, stats)) && file@ == column_file(items, size, level) && stats_of(
            items,
            size,
            level,
            file@.len(),
            stats,
        ) && frames_true(items, size, level)
    }
}

/// The builder of databases whose blocks hold columns.
pub struct ColumnarDbBuilder;

impl ColumnarDbBuilder {
    /// The file of puzzles, and what it holds; the puzzles are sorted by rating
    /// first.
    pub fn finalize_database(items: Vec<ParsedItem>, options: &ColumnarBuilderOptions) -> (r: Result<
        (Vec<u8>, ColumnarBuilderStats),
        BuildError,
    >)
        requires
            options.block_size > 0,
        ensures
            exists|its: Seq<ItemModel>| #[trigger]
                sorted_from(its, models(items@)) && is_build(
                    its,
                    options.block_size as nat,
                    options.compression_level,
                    r,
                ),
    {
        let mut sorted = items;
        sort_by_rating(&mut sorted);
        assert(sorted_from(models(sorted@), models(items@)));
        Self::write_database(&sorted, options.block_size, options.compression_level)
    }

    /// The file of puzzles in this order, so many to a block, compressed at a
    /// level, and what it holds.
    pub fn write_database(items: &Vec<ParsedItem>, block_size: usize, level: i32) -> (r: Result<
        (Vec<u8>, ColumnarBuilderStats),
        BuildError,
    >)
        requires
            block_size > 0,
        ensures
            is_build(models(items@), block_size as nat, level, r),
    {
        let ghost its = models(items@);
        let ghost size = block_size as nat;
        let dict = match ThemeDict::build(items) {
            Some(d) => d,
            None => {
                return Err(BuildError::TooManyThemes);
            },
        };
        let ghost blocks = chunk_blocks(its, dict.masks@, size, level);
        if count_chunks(items.len(), block_size) as u64 > 0xFFFF_FFFF {
            return Err(BuildError::TooManyBlocks);
        }
        proof {
            lemma_distinct(item_masks(its));
            lemma_chunk_bounds(its.len(), size, blocks.len() as int);
        }
        let mut out: Vec<PackedBlock> = Vec::new();
        let mut sum: u64 = 0;
        let mut start: usize = 0;
        assert(packed(blocks).take(0) =~= Seq::empty());
        assert(block_models(out@) =~= packed(blocks).take(0));
        proof {
            lemma_chunk_bounds(its.len(), size, 0);
            assert(0 * size == 0) by (nonlinear_arith);
        }
        while start < items.len()
            invariant
                its == models(items@),
                size == block_size,
                size > 0,
                dict.wf(),
                dict.masks@ == dict_of(its),
                blocks == chunk_blocks(its, dict.masks@, size, level),
                out@.len() <= blocks.len() <= 0xFFFF_FFFF,
                start <= items@.len(),
                start < items@.len() ==> start == out@.len() * size && out@.len() < blocks.len(),
                start == items@.len() ==> out@.len() == blocks.len(),
                block_models(out@) == packed(blocks).take(out@.len() as int),
                forall|i: int| 0 <= i < out@.len() ==> (#[trigger] blocks[i]) is Some,
                forall|i: int|
                    0 <= i < out@.len() ==> zstd_content((#[trigger] blocks[i])->0.frame) == Some(
                        chunk_payload(chunk_at(its, size, i), dict.masks@),
                    ),
                sum == content_size(block_models(out@)),
                sum <= out@.len() * 0xFFFF_FFFF,
            decreases items@.len() - start,
        {
            let ghost i = out@.len() as int;
            let end: usize = if items.len() - start < block_size {
                items.len()
            } else {
                start + block_size
            };
            proof {
                lemma_chunk_bounds(its.len(), size, i);
                lemma_chunk_bounds(its.len(), size, i + 1);
                lemma_distinct(item_masks(its));
            }
            let chunk = vstd::slice::slice_subrange(items.as_slice(), start, end);
            proof {
                assert(chunk_end(its.len(), size, i) == end);
                assert(models(chunk@) =~= chunk_at(its, size, i));
                assert forall|k: int| 0 <= k < chunk@.len() implies dict.masks@.contains(
                    (#[trigger] chunk@[k]).theme_mask,
                ) by {
                    assert(item_masks(its)[start + k] == chunk@[k].theme_mask.0);
                }
            }
            match pack_block(chunk, &dict, level) {
                Some(b) => {
                    let ghost before = block_models(out@);
                    sum = sum + b.uncompressed_size as u64;
                    out.push(b);
                    proof {
                        assert(blocks[i] == Some(b@));
                        assert(block_models(out@) =~= before.push(b@));
                        assert(block_models(out@).drop_last() =~= before);
                        assert(packed(blocks).take(i + 1) =~= before.push(b@));
                    }
                },
                None => {
                    assert(blocks[i] is None);
                    return Err(BuildError::Compression);
                },
            }
            start = end;
        }
        assert(packed(blocks).take(blocks.len() as int) =~= packed(blocks));
        let min_rating: u16 = rating_of_first(items);
        let max_rating: u16 = rating_of_last(items);
        let facts = FileFacts {
            version: LPDB_VERSION_V4,
            puzzle_count: items.len() as u64,
            block_size: block_size as u64,
            min_rating,
            max_rating,
            tail: byte_of_level(level),
        };
        assert(facts == facts_of(its, size, level));
        match assemble(&facts, dict.masks.as_slice(), &out) {
            Some(file) => {
                proof {
                    reveal(column_file);
                }
                let stats = ColumnarBuilderStats {
                    total_puzzles: items.len(),
                    total_blocks: out.len(),
                    uncompressed_size: sum,
                    compressed_size: file.len() as u64,
                    min_rating,
                    max_rating,
                };
                Ok((file, stats))
            },
            None => Err(BuildError::TooLarge),
        }
    }
}

// ---------------------------------------------------------------------------
// What is read of what was written
// ---------------------------------------------------------------------------

/// What the columns of a block can hold: at most 255 moves of a puzzle and fewer
/// than 2^16 identifiers as texts.
pub open spec fn columns_hold(items: Seq<ItemModel>) -> bool {
    &&& 0 < items.len() <= 0xFFFF_FFFF
    &&& odd_ids(items).len() <= 65535
    &&& forall|i: int| 0 <= i < items.len() ==> (#[trigger] items[i]).moves.len() <= 255
}

/// The block of puzzles.
pub open spec fn block_of(items: Seq<ItemModel>, dict: Seq<ThemeMask>) -> ColumnBlock {
    ColumnBlock {
        ids: id_column(items).map_values(|v: nat| v as u32),
        overflow: byte_texts(cut_parts(odd_ids(items))),
        ratings: rating_column(items),
        theme_ids: place_column(items, dict).map_values(|v: nat| v as u32),
        states: items.map_values(|m: ItemModel| m.state),
        halfmoves: items.map_values(|m: ItemModel| m.halfmove),
        fullmoves: fullmove_column(items),
        occupied: items.map_values(|m: ItemModel| m.occupied),
        pieces: piece_parts(items),
        moves: items.map_values(|m: ItemModel| m.moves),
    }
}

/// The numbers of the columns fit in their widths.
proof fn lemma_columns_fit(items: Seq<ItemModel>, dict: Seq<ThemeMask>)
    requires
        columns_hold(items),
    ensures
        forall|i: int| 0 <= i < items.len() ==> #[trigger] id_column(items)[i] < span(4),
        forall|i: int|
            0 <= i < items.len() ==> #[trigger] deltas(rating_column(items))[i] < span(2),
        forall|i: int| 0 <= i < items.len() ==> #[trigger] state_column(items)[i] < span(3),
        forall|i: int| 0 <= i < items.len() ==> #[trigger] occupied_column(items)[i] < span(8),
        forall|i: int|
            0 <= i < items.len() ==> #[trigger] lens_of(piece_parts(items))[i] < span(1),
        forall|i: int| 0 <= i < items.len() ==> #[trigger] count_column(items)[i] < span(1),
{
    lemma_spans();
    assert(span(3) == 16777216) by {
        reveal_with_fuel(span, 4);
    }
    lemma_summed_back(rating_column(items));
    assert forall|i: int| 0 <= i < items.len() implies #[trigger] id_column(items)[i] < span(4) by {
        lemma_id_number_bound(items[i].id);
    }
    assert forall|i: int| 0 <= i < items.len() implies #[trigger] lens_of(piece_parts(items))[i]
        < span(1) by {
        lemma_before_bound(items[i].occupied, 64);
        assert(lens_of(piece_parts(items))[i] == piece_len(items[i]));
    }
    assert forall|i: int| 0 <= i < items.len() implies #[trigger] count_column(items)[i] < span(
        1,
    ) by {
        assert(items[i].moves.len() <= 255);
    }
}

/// The bytes of moves are twice as many as the moves, and give them back.
proof fn lemma_move_parts(items: Seq<ItemModel>)
    ensures
        lens_of(move_parts(items)) == doubled(count_column(items)),
        move_runs(move_parts(items)) == items.map_values(|m: ItemModel| m.moves),
{
    let parts = move_parts(items);
    let lines = items.map_values(|m: ItemModel| m.moves);
    assert forall|i: int| 0 <= i < items.len() implies #[trigger] move_runs(parts)[i] == lines[i]
        && lens_of(parts)[i] == doubled(count_column(items))[i] by {
        let moves = items[i].moves;
        lemma_moves_back(Seq::empty(), moves, Seq::empty());
        let b = le_all(move_values(moves), 2);
        assert(Seq::<u8>::empty() + b + Seq::<u8>::empty() =~= b);
        assert(b.len() / 2 == moves.len());
    }
    assert forall|i: int| 0 <= i < items.len() implies #[trigger] lens_of(parts)[i] == doubled(
        count_column(items),
    )[i] by {
        assert(move_runs(parts)[i] == lines[i]);
    }
    assert(lens_of(parts) =~= doubled(count_column(items)));
    assert(move_runs(parts) =~= lines);
}

/// The content of a block is decoded to the columns that it was made of.
pub proof fn law_block_back(items: Seq<ItemModel>, dict: Seq<ThemeMask>)
    requires
        columns_hold(items),
        forall|i: int|
            0 <= i < items.len() ==> place_of(dict, (#[trigger] items[i]).mask) <= 0xFFFF_FFFF,
    ensures
        decode_columns(chunk_payload(items, dict)) == Some(block_of(items, dict)),
{
    lemma_spans();
    lemma_columns_fit(items, dict);
    lemma_move_parts(items);
    lemma_summed_back(rating_column(items));
    let data = chunk_payload(items, dict);
    let n = items.len();
    let places = place_column(items, dict);
    assert forall|i: int| 0 <= i < n implies #[trigger] places[i] < span(4) by {
        assert(place_of(dict, items[i].mask) <= 0xFFFF_FFFF);
    }
    lemma_head_columns(data, items, dict);
    lemma_tail_columns(data, items);
    lemma_block_parts(data, items, dict);
    reveal(decode_columns);
    assert(decode_columns(data)->0 =~= block_of(items, dict));
}

/// What follows the columns of fixed width.
spec fn tail_bytes_of(items: Seq<ItemModel>) -> Seq<u8> {
    flat(piece_parts(items)) + (le_all(count_column(items), 1) + (flat(move_parts(items))
        + appendix_of(items)))
}

/// The columns of fixed width are read back.
proof fn lemma_head_columns(data: Seq<u8>, items: Seq<ItemModel>, dict: Seq<ThemeMask>)
    requires
        data == chunk_payload(items, dict),
        columns_hold(items),
        forall|i: int|
            0 <= i < items.len() ==> #[trigger] place_column(items, dict)[i] < span(4),
    ensures
        number_at(data, 0, 4) == items.len(),
        column(data, 4, items.len(), 4) == id_column(items),
        column(data, (4 + 4 * items.len()) as int, items.len(), 2) == deltas(rating_column(items)),
        column(data, (4 + 6 * items.len()) as int, items.len(), 4) == place_column(items, dict),
        column(data, (4 + 10 * items.len()) as int, items.len(), 3) == state_column(items),
        column(data, (4 + 13 * items.len()) as int, items.len(), 8) == occupied_column(items),
        column(data, (4 + 21 * items.len()) as int, items.len(), 1) == lens_of(piece_parts(items)),
        4 + 22 * items.len() <= data.len(),
        data.skip((4 + 22 * items.len()) as int) == tail_bytes_of(items),
{
    reveal(chunk_payload);
    lemma_spans();
    lemma_columns_fit(items, dict);
    let n = items.len();
    let t7 = tail_bytes_of(items);
    let t6 = le_all(lens_of(piece_parts(items)), 1) + t7;
    let t5 = le_all(occupied_column(items), 8) + t6;
    let t4 = le_all(state_column(items), 3) + t5;
    let t3 = le_all(place_column(items, dict), 4) + t4;
    let t2 = le_all(deltas(rating_column(items)), 2) + t3;
    let t1 = le_all(id_column(items), 4) + t2;
    assert(data == le(n, 4) + t1);
    lemma_le(n, 4);
    lemma_parts(le(n, 4), t1);
    lemma_three_columns(
        data,
        4,
        id_column(items),
        4,
        deltas(rating_column(items)),
        2,
        place_column(items, dict),
        4,
        t4,
    );
    lemma_three_columns(
        data,
        (4 + 10 * n) as int,
        state_column(items),
        3,
        occupied_column(items),
        8,
        lens_of(piece_parts(items)),
        1,
        t7,
    );
}

/// Three columns of the same length at the front of what follows a position are read
/// there.
proof fn lemma_three_columns(
    data: Seq<u8>,
    pos: int,
    a: Seq<nat>,
    wa: nat,
    b: Seq<nat>,
    wb: nat,
    c: Seq<nat>,
    wc: nat,
    rest: Seq<u8>,
)
    requires
        0 <= pos <= data.len(),
        data.skip(pos) == le_all(a, wa) + (le_all(b, wb) + (le_all(c, wc) + rest)),
        a.len() == b.len() == c.len(),
        forall|i: int| 0 <= i < a.len() ==> #[trigger] a[i] < span(wa),
        forall|i: int| 0 <= i < b.len() ==> #[trigger] b[i] < span(wb),
        forall|i: int| 0 <= i < c.len() ==> #[trigger] c[i] < span(wc),
    ensures
        column(data, pos, a.len(), wa) == a,
        column(data, pos + a.len() * wa, a.len(), wb) == b,
        column(data, pos + a.len() * wa + a.len() * wb, a.len(), wc) == c,
        pos + a.len() * wa + a.len() * wb + a.len() * wc <= data.len(),
        data.skip(pos + a.len() * wa + a.len() * wb + a.len() * wc) == rest,
{
    let n = a.len();
    lemma_column_front(data, pos, a, wa, le_all(b, wb) + (le_all(c, wc) + rest));
    lemma_column_front(data, pos + n * wa, b, wb, le_all(c, wc) + rest);
    lemma_column_front(data, pos + n * wa + n * wb, c, wc, rest);
}

/// The pieces, the moves and the identifiers as texts are read back.
proof fn lemma_tail_columns(data: Seq<u8>, items: Seq<ItemModel>)
    requires
        columns_hold(items),
        4 + 22 * items.len() <= data.len(),
        data.skip((4 + 22 * items.len()) as int) == tail_bytes_of(items),
    ensures
        ({
            let n = items.len();
            let p = (4 + 22 * n) as int;
            let p_counts = p + total(lens_of(piece_parts(items)));
            let p_moves = p_counts + n;
            let p_over = p_moves + total(doubled(count_column(items)));
            &&& runs(data, p, lens_of(piece_parts(items))) == piece_parts(items)
            &&& column(data, p_counts, n, 1) == count_column(items)
            &&& runs(data, p_moves, doubled(count_column(items))) == move_parts(items)
            &&& p_over <= data.len()
            &&& appendix_at(data, p_over, n) == Some(
                AppendixModel {
                    ids: byte_texts(cut_parts(odd_ids(items))),
                    fullmoves: fullmove_column(items),
                },
            )
        }),
{
    lemma_spans();
    lemma_columns_fit(items, Seq::empty());
    lemma_move_parts(items);
    let n = items.len();
    let over = appendix_of(items);
    let t9 = flat(move_parts(items)) + over;
    let t8 = le_all(count_column(items), 1) + t9;
    let p = (4 + 22 * n) as int;
    lemma_runs_front(data, p, piece_parts(items), t8);
    let p_counts = p + total(lens_of(piece_parts(items)));
    lemma_column_front(data, p_counts, count_column(items), 1, t9);
    let p_moves = p_counts + n;
    lemma_runs_front(data, p_moves, move_parts(items), over);
    let p_over = p_moves + total(doubled(count_column(items)));
    law_appendix_back(data, p_over, items);
}

/// The columns of numbers, as the numbers of the block.
proof fn lemma_block_parts(data: Seq<u8>, items: Seq<ItemModel>, dict: Seq<ThemeMask>)
    requires
        column(data, 4, items.len(), 4) == id_column(items),
        column(data, (4 + 6 * items.len()) as int, items.len(), 4) == place_column(items, dict),
        column(data, (4 + 10 * items.len()) as int, items.len(), 3) == state_column(items),
        column(data, (4 + 13 * items.len()) as int, items.len(), 8) == occupied_column(items),
    ensures
        column32(data, 4, items.len()) == block_of(items, dict).ids,
        column32(data, (4 + 6 * items.len()) as int, items.len()) == block_of(
            items,
            dict,
        ).theme_ids,
        states_at(data, (4 + 10 * items.len()) as int, items.len()) == block_of(items, dict).states,
        halfmoves_at(data, (4 + 10 * items.len()) as int, items.len()) == block_of(
            items,
            dict,
        ).halfmoves,
        column64(data, (4 + 13 * items.len()) as int, items.len()) == block_of(
            items,
            dict,
        ).occupied,
{
    let n = items.len();
    let b = block_of(items, dict);
    assert forall|i: int| 0 <= i < n implies #[trigger] column32(data, 4, n)[i] == b.ids[i] by {
        assert(column(data, 4, n, 4)[i] == id_column(items)[i]);
    }
    assert(column32(data, 4, n) =~= b.ids);
    let p = (4 + 6 * n) as int;
    assert forall|i: int| 0 <= i < n implies #[trigger] column32(data, p, n)[i] == b.theme_ids[i] by {
        assert(column(data, p, n, 4)[i] == place_column(items, dict)[i]);
    }
    assert(column32(data, p, n) =~= b.theme_ids);
    let p = (4 + 10 * n) as int;
    assert forall|i: int| 0 <= i < n implies #[trigger] states_at(data, p, n)[i] == b.states[i] by {
        assert(column(data, p, n, 3)[i] == state_column(items)[i]);
    }
    assert(states_at(data, p, n) =~= b.states);
    assert forall|i: int| 0 <= i < n implies #[trigger] halfmoves_at(data, p, n)[i]
        == b.halfmoves[i] by {
        assert(column(data, p, n, 3)[i] == state_column(items)[i]);
    }
    assert(halfmoves_at(data, p, n) =~= b.halfmoves);
    let p = (4 + 13 * n) as int;
    assert forall|i: int| 0 <= i < n implies #[trigger] column64(data, p, n)[i] == b.occupied[i] by {
        assert(column(data, p, n, 8)[i] == occupied_column(items)[i]);
    }
    assert(column64(data, p, n) =~= b.occupied);
}

/// The bytes behind the last piece do not count.
proof fn lemma_short_pieces(m: ItemModel)
    ensures
        spread(m.occupied, codes_of((m.pieces + m.more).take(piece_len(m)))) == spread(
            m.occupied,
            codes_of(m.pieces + m.more),
        ),
{
    let all = m.pieces + m.more;
    let short = all.take(piece_len(m));
    let a = spread(m.occupied, codes_of(short));
    let b = spread(m.occupied, codes_of(all));
    assert forall|sq: int| 0 <= sq < 64 implies #[trigger] a[sq] == b[sq] by {
        if holds(m.occupied, sq) {
            lemma_before_less(m.occupied, sq, 64);
            let c = before(m.occupied, sq) as int;
            if c < 2 * all.len() {
                assert(c / 2 < piece_len(m));
                assert(short[c / 2] == all[c / 2]);
                assert(codes_of(short)[c] == codes_of(all)[c]);
            }
        }
    }
    assert(a =~= b);
}

/// There are no more squares of a mask before a square than squares.
proof fn lemma_before_bound(occupied: u64, sq: int)
    requires
        sq >= 0,
    ensures
        before(occupied, sq) <= sq,
    decreases sq,
{
    if sq > 0 {
        lemma_before_bound(occupied, sq - 1);
    }
}

/// A square of the mask comes before the end of the count.
proof fn lemma_before_less(occupied: u64, sq: int, end: int)
    requires
        0 <= sq < end,
        holds(occupied, sq),
    ensures
        before(occupied, sq) < before(occupied, end),
    decreases end,
{
    if sq < end - 1 {
        lemma_before_less(occupied, sq, end - 1);
    }
}

/// A puzzle of a block is the puzzle it was made of.
pub proof fn law_column_back(items: Seq<ItemModel>, masks: Seq<u128>, k: int)
    requires
        columns_hold(items),
        0 <= k < items.len(),
        id_holds(items[k].id),
        masks.contains(items[k].mask),
        distinct(masks).len() <= 0xFFFF_FFFF,
    ensures
        column_puzzle(block_of(items, distinct(masks)), k, distinct(masks)) == item_puzzle(items[k]),
{
    let dict = distinct(masks);
    let b = block_of(items, dict);
    let m = items[k];
    let j = choose|j: int| 0 <= j < masks.len() && masks[j] == m.mask;
    lemma_distinct(masks);
    lemma_place(masks, j);
    lemma_short_pieces(m);
    assert(column_position(b, k) =~= item_position(m));
    assert(b.theme_ids[k] == place_of(dict, m.mask));
    lemma_id_number_bound(m.id);
    if standard_id(m.id) {
        law_id_round_trip(m.id);
        assert(column_id(b, b.ids[k]) == m.id);
    } else {
        law_odd_id_back(items, k);
        assert(b.ids[k] == id_cell(items, k));
        assert(column_id(b, b.ids[k]) == m.id);
    }
    assert(column_puzzle(b, k, dict) =~= item_puzzle(m));
}

/// The masks of a run of puzzles are in the dictionary of all.
proof fn lemma_chunk_places(items: Seq<ItemModel>, size: nat, i: int)
    requires
        dict_of(items).len() <= 0xFFFF_FFFF,
        size > 0,
        0 <= i < chunk_count(items.len(), size),
    ensures
        forall|x: int|
            0 <= x < chunk_at(items, size, i).len() ==> {
                &&& place_of(dict_of(items), (#[trigger] chunk_at(items, size, i)[x]).mask)
                    <= 0xFFFF_FFFF
                &&& item_masks(items).contains(chunk_at(items, size, i)[x].mask)
            },
{
    let masks = item_masks(items);
    let chunk = chunk_at(items, size, i);
    lemma_chunk_bounds(items.len(), size, i);
    lemma_distinct(masks);
    let from = i * size;
    assert forall|x: int| 0 <= x < chunk.len() implies {
        &&& place_of(dict_of(items), (#[trigger] chunk[x]).mask) <= 0xFFFF_FFFF
        &&& masks.contains(chunk[x].mask)
    } by {
        assert(masks[from + x] == chunk[x].mask);
        lemma_place(masks, from + x);
    }
}

/// A database that was opened from the file of puzzles hands a puzzle of a block
/// that can hold its puzzles out as it was: its identifier, position, moves, rating
/// and themes.
pub proof fn law_puzzles_come_back(
    items: Seq<ItemModel>,
    size: nat,
    level: i32,
    entries: Seq<BlockEntry>,
    k: int,
)
    requires
        file_true(items, size, level),
        file_entries(items, size, level, entries),
        0 <= k < items.len(),
        chunk_holds(items, size, k / size as int),
        id_holds(items[k].id),
    ensures
        puzzle_at(
            column_file(items, size, level),
            items.len() as usize,
            size,
            entries,
            dict_of(items),
            k as nat,
        ) == Some(item_puzzle(items[k])),
{
    let masks = item_masks(items);
    lemma_in_chunk(items, size, k);
    let i = k / size as int;
    let j = k % size as int;
    let chunk = chunk_at(items, size, i);
    lemma_file_block(items, size, level, entries, i);
    lemma_chunk_places(items, size, i);
    lemma_distinct(masks);
    assert(masks.contains(chunk[j].mask));
    law_column_back(chunk, masks, j);
}

/// A row of a puzzle source comes out of the database that was built of it as it
/// was: with its identifier, its whole position, its moves letter by letter, its
/// rating and its themes.
pub proof fn law_rows_come_back(
    items: Seq<ItemModel>,
    size: nat,
    level: i32,
    entries: Seq<BlockEntry>,
    k: int,
    m: FenModel,
    line: Seq<Seq<char>>,
    mask: u128,
)
    requires
        file_true(items, size, level),
        file_entries(items, size, level, entries),
        0 <= k < items.len(),
        chunk_holds(items, size, k / size as int),
        id_holds(items[k].id),
        m.cells.len() == 64,
        forall|i: int| 0 <= i < line.len() ==> small_uci(#[trigger] line[i]),
        row_item(
            items[k].id,
            m,
            joined(line, seq![' ']),
            items[k].rating,
            joined(mask_names(mask), seq![' ']),
            items[k],
        ),
    ensures
        puzzle_at(
            column_file(items, size, level),
            items.len() as usize,
            size,
            entries,
            dict_of(items),
            k as nat,
        ) == Some(
            PuzzleModel {
                id: items[k].id,
                fen: fen_text(m),
                moves: line,
                rating: items[k].rating,
                themes: mask_names(mask),
            },
        ),
{
    law_puzzles_come_back(items, size, level, entries, k);
    law_row_kept(items[k].id, m, line, items[k].rating, mask, items[k]);
}

/// The block of a run of puzzles is read back from their file.
proof fn lemma_file_block(
    items: Seq<ItemModel>,
    size: nat,
    level: i32,
    entries: Seq<BlockEntry>,
    i: int,
)
    requires
        file_true(items, size, level),
        file_entries(items, size, level, entries),
        0 <= i < chunk_count(items.len(), size),
        chunk_holds(items, size, i),
    ensures
        block_at(column_file(items, size, level), entries, i as nat) == Ok::<ColumnBlock, DbError>(
            block_of(chunk_at(items, size, i), dict_of(items)),
        ),
        entries[i].min_rating == first_rating(chunk_at(items, size, i)),
        entries[i].max_rating == last_rating(chunk_at(items, size, i)),
{
    reveal(column_file);
    let dict = dict_of(items);
    let all = chunk_blocks(items, dict, size, level);
    let blocks = packed(all);
    let chunk = chunk_at(items, size, i);
    assert(columns_hold(chunk));
    let content = chunk_payload(chunk, dict);
    lemma_chunk_places(items, size, i);
    law_block_back(chunk, dict);
    assert(zstd_content(all[i]->0.frame) == Some(content));
    assert(blocks[i] == all[i]->0);
    let facts = facts_of(items, size, level);
    law_payload_back(facts, dict, blocks, entries, i, content);
    law_entries_back(facts, dict, blocks, entries);
    assert(entries[i].min_rating == blocks[i].min_rating);
}

/// Puzzles that the file can hold, and blocks that decompress to their contents.
pub open spec fn file_true(items: Seq<ItemModel>, size: nat, level: i32) -> bool {
    &&& items.len() <= usize::MAX
    &&& 0 < size <= 0xFFFF_FFFF
    &&& frames_true(items, size, level)
    &&& file_holds(
        facts_of(items, size, level),
        dict_of(items),
        packed(chunk_blocks(items, dict_of(items), size, level)),
    )
}

/// Whether the columns of a block can hold its puzzles, and the size of its content
/// fits in 32 bits.
pub open spec fn chunk_holds(items: Seq<ItemModel>, size: nat, i: int) -> bool {
    let chunk = chunk_at(items, size, i);
    columns_hold(chunk) && chunk_payload(chunk, dict_of(items)).len() <= 0xFFFF_FFFF
}

/// The entries of the file of puzzles.
pub open spec fn file_entries(
    items: Seq<ItemModel>,
    size: nat,
    level: i32,
    entries: Seq<BlockEntry>,
) -> bool {
    let file = column_file(items, size, level);
    &&& entries.len() == chunk_count(items.len(), size)
    &&& entries_at(entries, file, number_at(file, 24, 8) as int)
}

/// The file of puzzles opens without a fault: the header tells the numbers of
/// puzzles, of blocks and of puzzles in a block, the lowest and the highest rating
/// and the level, and the theme dictionary is that of the puzzles.
pub proof fn law_file_is_read(items: Seq<ItemModel>, size: nat, level: i32)
    requires
        file_true(items, size, level),
    ensures
        ({
            let data = column_file(items, size, level);
            &&& file_fault(data, LPDB_VERSION_V4) is None
            &&& number_at(data, 8, 8) == items.len()
            &&& number_at(data, 16, 4) == chunk_count(items.len(), size)
            &&& number_at(data, 20, 4) == size
            &&& number_at(data, 44, 2) == first_rating(items)
            &&& number_at(data, 46, 2) == last_rating(items)
            &&& data.subrange(48, 64) == tail_bytes(level_byte(level))
            &&& masks_at(data, number_at(data, 32, 8) as int, number_at(data, 40, 4)) == dict_of(
                items,
            )
        }),
{
    reveal(column_file);
    law_file_opens(
        facts_of(items, size, level),
        dict_of(items),
        packed(chunk_blocks(items, dict_of(items), size, level)),
    );
}

/// The block index of a file of puzzles that rise by rating tells the truth, so
/// that queries look into every block that has a puzzle for them.
pub proof fn law_index_is_true(
    items: Seq<ItemModel>,
    size: nat,
    level: i32,
    entries: Seq<BlockEntry>,
)
    requires
        file_true(items, size, level),
        file_entries(items, size, level, entries),
        rising(item_ratings(items)),
        forall|i: int|
            0 <= i < chunk_count(items.len(), size) ==> #[trigger] chunk_holds(items, size, i),
    ensures
        index_is_true(
            entries,
            query_blocks(column_file(items, size, level), entries, dict_of(items)),
        ),
{
    let dict = dict_of(items);
    let blocks = query_blocks(column_file(items, size, level), entries, dict);
    assert forall|i: int, k: int|
        #![trigger blocks[i]->0[k]]
        0 <= i < blocks.len() && blocks[i] is Some && 0 <= k
            < blocks[i]->0.len() implies entries[i].min_rating <= blocks[i]->0[k].rating
        <= entries[i].max_rating by {
        lemma_file_block(items, size, level, entries, i);
        lemma_chunk_ratings(items, size, i, k);
    }
    let highs = max_keys(entries);
    assert forall|i: int, j: int| 0 <= i <= j < highs.len() implies #[trigger] highs[i]
        <= #[trigger] highs[j] by {
        lemma_file_block(items, size, level, entries, i);
        lemma_file_block(items, size, level, entries, j);
        lemma_chunks_rise(items, size, i, j);
    }
    let lows = min_keys(entries);
    assert forall|i: int, j: int| 0 <= i <= j < lows.len() implies #[trigger] lows[i]
        <= #[trigger] lows[j] by {
        lemma_file_block(items, size, level, entries, i);
        lemma_file_block(items, size, level, entries, j);
        lemma_chunks_rise(items, size, i, j);
    }
}

} // verus!
