//! The builder of databases whose blocks hold records (format 3).

use vstd::prelude::*;

use crate::appendix::{
    appendix_of, byte_texts, cut_parts, fullmove_column, id_cell, id_holds, law_appendix_back,
    law_odd_id_back, number_ids, odd_ids, write_appendix,
};
use crate::block_db::{
    block_at, decode_block, lemma_row_back, puzzle_at, query_blocks, row_bytes, row_fullmove,
    row_position, row_puzzle, rows_at, BlockPuzzleRecord, RowBlock, RowModel, DEFAULT_BLOCK_SIZE,
    LPDB_VERSION_V3,
};
use crate::block_file::{
    assemble, block_file, block_models, blocks_from, entries_at, file_fault, file_holds, frames,
    law_entries_back, law_file_opens, law_payload_back, max_keys, min_keys, BlockEntry, BlockModel,
    FileFacts, PackedBlock,
};
use crate::builder::{
    first_rating, last_rating, lemma_pool, pool_of, rating_of_first, rating_of_last, sorted_from,
};
use crate::chunks::{
    all_packed, chunk_at, chunk_count, chunk_end, content_size, count_chunks, lemma_chunk_bounds,
    lemma_chunk_ratings, lemma_chunks_rise, lemma_in_chunk, packed,
};
use crate::db::number_at;
use crate::dict::{dict_of, item_masks, lemma_distinct, lemma_place, place_of, ThemeDict};
use crate::fen::FenModel;
use crate::frame::{compress, zstd_content, zstd_frame};
use crate::id::{law_id_round_trip, lemma_id_number_bound, standard_id};
use crate::ingest::{
    item_position, item_puzzle, item_ratings, models, sort_by_rating, BuildError, ItemModel,
    ParsedItem,
};
use crate::moves::PackedMove;
use crate::query::index_is_true;
use crate::record::pool_moves;
use crate::section::{lemma_moves_back, masks_at, move_values, rising, write_moves, DbError};
use crate::theme::ThemeMask;
use crate::wire::{le, le_all, lemma_le, lemma_spans, put, slot};

verus! {

/// What a build did.
pub struct BlockBuilderStats {
    pub total_puzzles: usize,
    pub total_blocks: usize,
    pub uncompressed_size: u64,
    pub compressed_size: u64,
    pub min_rating: u16,
    pub max_rating: u16,
}

/// The record of a puzzle for whose identifier a number stands, whose moves start at
/// an offset and whose mask has a place in the dictionary. Of the offset 16 bits are
/// kept, of the number of moves 8.
pub open spec fn item_record(m: ItemModel, id: nat, place: nat, offset: nat) -> RowModel {
    RowModel {
        occupied: m.occupied,
        pieces: m.pieces,
        id: id as u32,
        theme_id: place as u32,
        offset: (offset % 65536) as u16,
        count: (m.moves.len() % 256) as u8,
        halfmove: m.halfmove,
        state: m.state,
        rating: m.rating,
    }
}

/// The records of the puzzles of a block.
pub open spec fn chunk_rows(items: Seq<ItemModel>, dict: Seq<ThemeMask>) -> Seq<RowModel> {
    Seq::new(
        items.len(),
        |k: int|
            item_record(
                items[k],
                id_cell(items, k),
                place_of(dict, items[k].mask),
                pool_of(items.take(k)).len(),
            ),
    )
}

/// The bytes of records.
pub open spec fn all_row_bytes(rows: Seq<RowModel>) -> Seq<u8>
    decreases rows.len(),
{
    if rows.len() == 0 {
        Seq::empty()
    } else {
        all_row_bytes(rows.drop_last()) + row_bytes(rows.last())
    }
}

/// The content of the block of puzzles.
#[verifier::opaque]
pub open spec fn chunk_payload(items: Seq<ItemModel>, dict: Seq<ThemeMask>) -> Seq<u8> {
    le(items.len(), 4) + le(pool_of(items).len(), 4) + all_row_bytes(chunk_rows(items, dict))
        + le_all(move_values(pool_of(items)), 2) + appendix_of(items)
}

/// The compressed block of puzzles; none where it cannot be compressed.
pub open spec fn chunk_block(items: Seq<ItemModel>, dict: Seq<ThemeMask>) -> Option<BlockModel> {
    let content = chunk_payload(items, dict);
    match zstd_frame(content, 3) {
        Some(frame) => Some(
            BlockModel {
                frame,
                uncompressed_size: (content.len() % 0x1_0000_0000) as u32,
                puzzle_count: (items.len() % 65536) as u16,
                min_rating: first_rating(items),
                max_rating: last_rating(items),
                flags: 0,
            },
        ),
        None => None,
    }
}

/// The blocks of puzzles, 512 to a block.
pub open spec fn chunk_blocks(items: Seq<ItemModel>, dict: Seq<ThemeMask>) -> Seq<
    Option<BlockModel>,
> {
    Seq::new(chunk_count(items.len(), 512), |i: int| chunk_block(chunk_at(items, 512, i), dict))
}

/// What the header of the file of puzzles says.
pub open spec fn facts_of(items: Seq<ItemModel>) -> FileFacts {
    FileFacts {
        version: 3,
        puzzle_count: items.len() as u64,
        block_size: 512,
        min_rating: first_rating(items),
        max_rating: last_rating(items),
        tail: 0,
    }
}

/// The file of puzzles in this order.
#[verifier::opaque]
pub open spec fn row_file(items: Seq<ItemModel>) -> Seq<u8> {
    block_file(facts_of(items), dict_of(items), packed(chunk_blocks(items, dict_of(items))))
}

/// What a build of these puzzles did.
pub open spec fn stats_of(items: Seq<ItemModel>, size: nat, s: BlockBuilderStats) -> bool {
    let blocks = packed(chunk_blocks(items, dict_of(items)));
    &&& s.total_puzzles == items.len()
    &&& s.total_blocks == blocks.len()
    &&& s.uncompressed_size == content_size(blocks)
    &&& s.compressed_size == size
    &&& s.min_rating == first_rating(items)
    &&& s.max_rating == last_rating(items)
}

/// What a build of puzzles in this order gives.
pub open spec fn is_build(
    items: Seq<ItemModel>,
    r: Result<(Vec<u8>, BlockBuilderStats), BuildError>,
) -> bool {
    let blocks = chunk_blocks(items, dict_of(items));
    if dict_of(items).len() > 0xFFFF_FFFF {
        r matches Err(e) && e == BuildError::TooManyThemes
    } else if blocks.len() > 0xFFFF_FFFF {
        r matches Err(e) && e == BuildError::TooManyBlocks
    } else if !all_packed(blocks) {
        r matches Err(e) && e == BuildError::Compression
    } else if blocks_from(dict_of(items).len(), blocks.len()) + frames(packed(blocks)).len()
        > 0xFFFF_FFFF_FFFF_FFFF {
        r matches Err(e) && e == BuildError::TooLarge
    } else {
        r matches Ok((file, stats)) && file@ == row_file(items) && stats_of(
            items,
            file@.len(),
            stats,
        ) && frames_true(items)
    }
}

/// Every block decompresses to the content of its puzzles.
pub open spec fn frames_true(items: Seq<ItemModel>) -> bool {
    let blocks = chunk_blocks(items, dict_of(items));
    &&& all_packed(blocks)
    &&& forall|i: int|
        0 <= i < blocks.len() ==> zstd_content((#[trigger] blocks[i])->0.frame) == Some(
            chunk_payload(chunk_at(items, 512, i), dict_of(items)),
        )
}

/// The content of the block of puzzles.
pub fn encode_block(chunk: &[ParsedItem], dict: &ThemeDict) -> (r: Vec<u8>)
    requires
        dict.wf(),
        forall|i: int|
            0 <= i < chunk@.len() ==> dict.masks@.contains((#[trigger] chunk@[i]).theme_mask),
    ensures
        r@ == chunk_payload(models(chunk@), dict.masks@),
{
    let ghost its = models(chunk@);
    let ghost all_rows = chunk_rows(its, dict.masks@);
    let (ids, odd) = number_ids(chunk);
    let mut rows: Vec<u8> = Vec::new();
    let mut pool: Vec<PackedMove> = Vec::new();
    assert(its.take(0) =~= Seq::empty());
    assert(all_rows.take(0) =~= Seq::empty());
    for i in 0..chunk.len()
        invariant
            its == models(chunk@),
            all_rows == chunk_rows(its, dict.masks@),
            ids@.len() == chunk@.len(),
            forall|k: int| 0 <= k < ids@.len() ==> #[trigger] ids@[k] == id_cell(its, k),
            dict.wf(),
            forall|i: int|
                0 <= i < chunk@.len() ==> dict.masks@.contains((#[trigger] chunk@[i]).theme_mask),
            rows@ == all_row_bytes(all_rows.take(i as int)),
            pool@ == pool_of(its.take(i as int)),
    {
        let item = &chunk[i];
        let theme_id: u32 = dict.place(item.theme_mask);
        proof {
            assert(its.take(i + 1).drop_last() =~= its.take(i as int));
            assert(its.take(i + 1).last() == item@);
            assert(all_rows.take(i + 1).drop_last() =~= all_rows.take(i as int));
        }
        let rec = BlockPuzzleRecord {
            board_occupied: item.compact_board.occupied,
            board_pieces: item.compact_board.pieces,
            id_base62: ids[i],
            theme_id,
            move_local_offset: (pool.len() % 65536) as u16,
            move_count: (item.moves.len() % 256) as u8,
            fen_halfmove: item.fen_halfmove,
            fen_state: item.fen_state,
            rating: item.rating,
        };
        assert(rec@ =~= all_rows[i as int]);
        rec.write(&mut rows);
        assert(rows@ =~= all_row_bytes(all_rows.take(i + 1)));
        pool.extend_from_slice(item.moves.as_slice());
        assert(pool@ =~= pool_of(its.take(i + 1)));
    }
    assert(its.take(chunk@.len() as int) =~= its);
    assert(all_rows.take(chunk@.len() as int) =~= all_rows);
    let mut out: Vec<u8> = Vec::new();
    put(&mut out, chunk.len() as u128, 4);
    put(&mut out, pool.len() as u128, 4);
    out.extend_from_slice(rows.as_slice());
    write_moves(&mut out, pool.as_slice());
    write_appendix(&mut out, chunk, &odd);
    proof {
        reveal(chunk_payload);
    }
    assert(out@ =~= chunk_payload(its, dict.masks@));
    out
}

/// The rating of the first of some puzzles; 0 where there are none.
pub fn rating_first(chunk: &[ParsedItem]) -> (r: u16)
    ensures
        r == first_rating(models(chunk@)),
{
    if chunk.len() == 0 {
        0
    } else {
        chunk[0].rating
    }
}

/// The rating of the last of some puzzles; 0 where there are none.
pub fn rating_last(chunk: &[ParsedItem]) -> (r: u16)
    ensures
        r == last_rating(models(chunk@)),
{
    if chunk.len() == 0 {
        0
    } else {
        chunk[chunk.len() - 1].rating
    }
}

/// The compressed block of puzzles.
pub fn pack_block(chunk: &[ParsedItem], dict: &ThemeDict) -> (r: Option<PackedBlock>)
    requires
        dict.wf(),
        forall|i: int|
            0 <= i < chunk@.len() ==> dict.masks@.contains((#[trigger] chunk@[i]).theme_mask),
    ensures
        match r {
            Some(b) => chunk_block(models(chunk@), dict.masks@) == Some(b@) && zstd_content(
                b@.frame,
            ) == Some(chunk_payload(models(chunk@), dict.masks@)),
            None => chunk_block(models(chunk@), dict.masks@) is None,
        },
{
    let content = encode_block(chunk, dict);
    match compress(content.as_slice(), 3) {
        Some(frame) => {
            let b = PackedBlock {
                frame,
                uncompressed_size: (content.len() as u64 % 0x1_0000_0000) as u32,
                puzzle_count: (chunk.len() % 65536) as u16,
                min_rating: rating_first(chunk),
                max_rating: rating_last(chunk),
                flags: 0,
            };
            assert(b@ =~= chunk_block(models(chunk@), dict.masks@)->0);
            Some(b)
        },
        None => None,
    }
}

/// The builder of databases whose blocks hold records.
pub struct BlockDbBuilder;

impl BlockDbBuilder {
    /// The file of puzzles, and what it holds; the puzzles are sorted by rating
    /// first.
    pub fn finalize_database(items: Vec<ParsedItem>) -> (r: Result<
        (Vec<u8>, BlockBuilderStats),
        BuildError,
    >)
        ensures
            exists|its: Seq<ItemModel>| #[trigger]
                sorted_from(its, models(items@)) && is_build(its, r),
    {
        let mut sorted = items;
        sort_by_rating(&mut sorted);
        assert(sorted_from(models(sorted@), models(items@)));
        Self::write_database(&sorted)
    }

    /// The file of puzzles in this order, and what it holds.
    pub fn write_database(items: &Vec<ParsedItem>) -> (r: Result<
        (Vec<u8>, BlockBuilderStats),
        BuildError,
    >)
        ensures
            is_build(models(items@), r),
    {
        let ghost its = models(items@);
        let dict = match ThemeDict::build(items) {
            Some(d) => d,
            None => {
                return Err(BuildError::TooManyThemes);
            },
        };
        let ghost blocks = chunk_blocks(its, dict.masks@);
        if count_chunks(items.len(), DEFAULT_BLOCK_SIZE) as u64 > 0xFFFF_FFFF {
            return Err(BuildError::TooManyBlocks);
        }
        proof {
            lemma_distinct(item_masks(its));
            lemma_chunk_bounds(its.len(), 512, blocks.len() as int);
        }
        let mut out: Vec<PackedBlock> = Vec::new();
        let mut total: u64 = 0;
        let mut start: usize = 0;
        assert(packed(blocks).take(0) =~= Seq::empty());
        assert(block_models(out@) =~= packed(blocks).take(0));
        while start < items.len()
            invariant
                its == models(items@),
                dict.wf(),
                dict.masks@ == dict_of(its),
                blocks == chunk_blocks(its, dict.masks@),
                out@.len() <= blocks.len() <= 0xFFFF_FFFF,
                start <= items@.len(),
                start == out@.len() * 512 || (start == items@.len() && out@.len() == blocks.len()),
                start < items@.len() ==> out@.len() < blocks.len(),
                start == items@.len() ==> out@.len() == blocks.len(),
                block_models(out@) == packed(blocks).take(out@.len() as int),
                forall|i: int| 0 <= i < out@.len() ==> (#[trigger] blocks[i]) is Some,
                forall|i: int|
                    0 <= i < out@.len() ==> zstd_content((#[trigger] blocks[i])->0.frame) == Some(
                        chunk_payload(chunk_at(its, 512, i), dict.masks@),
                    ),
                total == content_size(block_models(out@)),
                total <= out@.len() * 0xFFFF_FFFF,
            decreases items@.len() - start,
        {
            let ghost i = out@.len() as int;
            let end: usize = if items.len() - start < DEFAULT_BLOCK_SIZE {
                items.len()
            } else {
                start + DEFAULT_BLOCK_SIZE
            };
            proof {
                lemma_chunk_bounds(its.len(), 512, i);
                lemma_chunk_bounds(its.len(), 512, i + 1);
                lemma_distinct(item_masks(its));
            }
            let chunk = vstd::slice::slice_subrange(items.as_slice(), start, end);
            proof {
                assert(chunk_end(its.len(), 512, i) == end);
                assert(models(chunk@) =~= chunk_at(its, 512, i));
                assert forall|k: int| 0 <= k < chunk@.len() implies dict.masks@.contains(
                    (#[trigger] chunk@[k]).theme_mask,
                ) by {
                    assert(item_masks(its)[start + k] == chunk@[k].theme_mask.0);
                }
            }
            match pack_block(chunk, &dict) {
                Some(b) => {
                    let ghost before = block_models(out@);
                    total = total + b.uncompressed_size as u64;
                    out.push(b);
                    proof {
                        assert(blocks[i] == Some(b@));
                        assert(block_models(out@) =~= before.push(b@));
                        assert(block_models(out@).drop_last() =~= before);
                        assert(packed(blocks).take(i + 1) =~= before.push(b@));
                    }
                },
                None => {
                    assert(blocks[i] is None);
                    return Err(BuildError::Compression);
                },
            }
            start = end;
        }
        assert(packed(blocks).take(blocks.len() as int) =~= packed(blocks));
        let min_rating: u16 = rating_of_first(items);
        let max_rating: u16 = rating_of_last(items);
        let facts = FileFacts {
            version: LPDB_VERSION_V3,
            puzzle_count: items.len() as u64,
            block_size: DEFAULT_BLOCK_SIZE as u64,
            min_rating,
            max_rating,
            tail: 0,
        };
        assert(facts == facts_of(its));
        match assemble(&facts, dict.masks.as_slice(), &out) {
            Some(file) => {
                proof {
                    reveal(row_file);
                }
                let stats = BlockBuilderStats {
                    total_puzzles: items.len(),
                    total_blocks: out.len(),
                    uncompressed_size: total,
                    compressed_size: file.len() as u64,
                    min_rating,
                    max_rating,
                };
                Ok((file, stats))
            },
            None => Err(BuildError::TooLarge),
        }
    }
}

// ---------------------------------------------------------------------------
// What is read of what was written
// ---------------------------------------------------------------------------

proof fn lemma_row_slots(rows: Seq<RowModel>)
    requires
        forall|i: int| 0 <= i < rows.len() ==> (#[trigger] rows[i]).pieces.len() == 16,
    ensures
        all_row_bytes(rows).len() == rows.len() * 40,
        forall|i: int|
            0 <= i < rows.len() ==> #[trigger] slot(all_row_bytes(rows), 0, 40, i) == row_bytes(
                rows[i],
            ),
    decreases rows.len(),
{
    if rows.len() > 0 {
        let init = rows.drop_last();
        assert forall|i: int| 0 <= i < init.len() implies (#[trigger] init[i]).pieces.len() == 16 by {
            assert(init[i] == rows[i]);
        }
        lemma_row_slots(init);
        lemma_row_back(rows.last());
        let all = all_row_bytes(rows);
        assert forall|i: int| 0 <= i < rows.len() implies #[trigger] slot(all, 0, 40, i)
            == row_bytes(rows[i]) by {
            if i < init.len() {
                assert(slot(all, 0, 40, i) =~= slot(all_row_bytes(init), 0, 40, i));
            } else {
                assert(slot(all, 0, 40, i) =~= row_bytes(rows[i]));
            }
        }
    }
}

/// Every puzzle has sixteen bytes of pieces.
pub open spec fn boards_whole(items: Seq<ItemModel>) -> bool {
    forall|i: int| 0 <= i < items.len() ==> (#[trigger] items[i]).pieces.len() == 16
}

/// What the block of puzzles holds.
pub open spec fn block_of(items: Seq<ItemModel>, dict: Seq<ThemeMask>) -> RowBlock {
    RowBlock {
        rows: chunk_rows(items, dict),
        moves: pool_of(items),
        overflow: byte_texts(cut_parts(odd_ids(items))),
        fullmoves: fullmove_column(items),
    }
}

/// The content of a block is decoded to the records and the moves that it was
/// made of, the identifiers that are not five letters and digits, and the fullmove
/// numbers.
pub proof fn law_block_back(items: Seq<ItemModel>, dict: Seq<ThemeMask>)
    requires
        items.len() <= 0xFFFF_FFFF,
        pool_of(items).len() <= 0xFFFF_FFFF,
        odd_ids(items).len() <= 65535,
        boards_whole(items),
    ensures
        decode_block(chunk_payload(items, dict)) == Ok::<RowBlock, DbError>(block_of(items, dict)),
        chunk_payload(items, dict).len() == 8 + items.len() * 40 + pool_of(items).len() * 2
            + appendix_of(items).len(),
{
    reveal(chunk_payload);
    reveal(decode_block);
    lemma_spans();
    let n = items.len();
    let pool = pool_of(items);
    let rows = chunk_rows(items, dict);
    let data = chunk_payload(items, dict);
    let b = all_row_bytes(rows);
    let p = le_all(move_values(pool), 2);
    lemma_le(n, 4);
    lemma_le(pool.len(), 4);
    assert forall|i: int| 0 <= i < rows.len() implies (#[trigger] rows[i]).pieces.len() == 16 by {
        assert(items[i].pieces.len() == 16);
    }
    lemma_row_slots(rows);
    let pre = le(n, 4) + le(pool.len(), 4) + b;
    let post = appendix_of(items);
    assert(data =~= pre + p + post);
    lemma_moves_back(pre, pool, post);
    let end = (8 + n * 40 + pool.len() * 2) as int;
    assert(data.skip(end) =~= post);
    law_appendix_back(data, end, items);
    assert(data.subrange(0, 4) =~= le(n, 4));
    assert(data.subrange(4, 8) =~= le(pool.len(), 4));
    let read = rows_at(data, 8, n);
    assert forall|i: int| 0 <= i < n implies #[trigger] read[i] == rows[i] by {
        assert(slot(data, 8, 40, i) =~= slot(b, 0, 40, i));
        lemma_row_back(rows[i]);
    }
    assert(read =~= rows);
}

/// Whether the record of a puzzle of a block can hold it: it has at most 32 pieces
/// and at most 255 moves, and these start below 2^16 among the moves of the block.
pub open spec fn row_holds(items: Seq<ItemModel>, k: int) -> bool {
    &&& items[k].more.len() == 0
    &&& items[k].moves.len() < 256
    &&& items[k].moves.len() > 0 ==> pool_of(items.take(k)).len() < 65536
}

/// A record of a block is the puzzle it was made of; its identifier where it can be
/// stored.
pub proof fn law_row_back(items: Seq<ItemModel>, masks: Seq<u128>, k: int)
    requires
        boards_whole(items),
        0 <= k < items.len(),
        row_holds(items, k),
        odd_ids(items).len() <= 65535,
        masks.contains(items[k].mask),
        crate::dict::distinct(masks).len() <= 0xFFFF_FFFF,
    ensures
        ({
            let dict = crate::dict::distinct(masks);
            let p = row_puzzle(block_of(items, dict), k, dict);
            let q = item_puzzle(items[k]);
            &&& p.fen == q.fen
            &&& p.moves == q.moves
            &&& p.rating == q.rating
            &&& p.themes == q.themes
            &&& id_holds(items[k].id) ==> p == q
        }),
{
    let dict = crate::dict::distinct(masks);
    let m = items[k];
    let row = chunk_rows(items, dict)[k];
    let j = choose|j: int| 0 <= j < masks.len() && masks[j] == m.mask;
    lemma_distinct(masks);
    lemma_place(masks, j);
    lemma_pool(items, k);
    lemma_id_number_bound(m.id);
    assert(row.theme_id == place_of(dict, m.mask));
    assert(row.count == m.moves.len());
    if m.moves.len() > 0 {
        assert(row.offset == pool_of(items.take(k)).len());
    } else {
        assert(pool_moves(pool_of(items), row.offset as nat, row.count as nat) =~= m.moves);
    }
    let b = block_of(items, dict);
    assert(m.pieces + m.more =~= m.pieces);
    assert((FenModel { fullmove: row_fullmove(b, k), ..row_position(row) }) =~= item_position(m));
    assert(row.id == id_cell(items, k));
    if standard_id(m.id) {
        law_id_round_trip(m.id);
    } else {
        law_odd_id_back(items, k);
    }
}

/// A database that was opened from the file of puzzles hands a puzzle that its
/// record can hold out as it was: its position, moves, rating and themes, and its
/// identifier where that has five letters and digits, or at most 255 bytes.
pub proof fn law_puzzles_come_back(items: Seq<ItemModel>, entries: Seq<BlockEntry>, k: int)
    requires
        file_true(items),
        file_entries(items, entries),
        0 <= k < items.len(),
        chunk_holds(items, k / 512),
        row_holds(chunk_at(items, 512, k / 512), k % 512),
    ensures
        ({
            let dict = dict_of(items);
            let p = puzzle_at(row_file(items), items.len() as usize, 512, entries, dict, k as nat);
            let q = item_puzzle(items[k]);
            &&& p is Some
            &&& p->0.fen == q.fen
            &&& p->0.moves == q.moves
            &&& p->0.rating == q.rating
            &&& p->0.themes == q.themes
            &&& id_holds(items[k].id) ==> p == Some(q)
        }),
{
    let masks = item_masks(items);
    lemma_in_chunk(items, 512, k);
    let i = k / 512;
    let j = k % 512;
    let chunk = chunk_at(items, 512, i);
    lemma_chunk_bounds(items.len(), 512, i);
    lemma_file_block(items, entries, i);
    lemma_distinct(masks);
    lemma_chunk_whole(items, i);
    assert(masks[k] == chunk[j].mask);
    lemma_few_odd(chunk);
    law_row_back(chunk, masks, j);
}

/// Puzzles that the file can hold, and blocks that decompress to their contents.
pub open spec fn file_true(items: Seq<ItemModel>) -> bool {
    &&& items.len() <= usize::MAX
    &&& frames_true(items)
    &&& file_holds(
        facts_of(items),
        dict_of(items),
        packed(chunk_blocks(items, dict_of(items))),
    )
    &&& boards_whole(items)
}

/// Whether the size of the content of a block fits in 32 bits.
pub open spec fn chunk_holds(items: Seq<ItemModel>, i: int) -> bool {
    let chunk = chunk_at(items, 512, i);
    8 + chunk.len() * 40 + pool_of(chunk).len() * 2 + appendix_of(chunk).len() <= 0xFFFF_FFFF
}

proof fn lemma_chunk_whole(items: Seq<ItemModel>, i: int)
    requires
        boards_whole(items),
        0 <= i < chunk_count(items.len(), 512),
    ensures
        boards_whole(chunk_at(items, 512, i)),
{
    lemma_chunk_bounds(items.len(), 512, i);
    let chunk = chunk_at(items, 512, i);
    assert forall|j: int| 0 <= j < chunk.len() implies (#[trigger] chunk[j]).pieces.len() == 16 by {
        assert(chunk[j] == items[i * 512 + j]);
    }
}

/// There are no more identifiers of a kind than puzzles.
proof fn lemma_few_odd(items: Seq<ItemModel>)
    ensures
        odd_ids(items).len() <= items.len(),
    decreases items.len(),
{
    if items.len() > 0 {
        lemma_few_odd(items.drop_last());
    }
}

/// The entries of the file of puzzles.
pub open spec fn file_entries(items: Seq<ItemModel>, entries: Seq<BlockEntry>) -> bool {
    &&& entries.len() == chunk_count(items.len(), 512)
    &&& entries_at(entries, row_file(items), number_at(row_file(items), 24, 8) as int)
}

/// The file of puzzles opens without a fault: the header tells the numbers of
/// puzzles and of blocks and the lowest and the highest rating, and the theme
/// dictionary is that of the puzzles.
pub proof fn law_file_is_read(items: Seq<ItemModel>)
    requires
        file_true(items),
    ensures
        ({
            let data = row_file(items);
            &&& file_fault(data, LPDB_VERSION_V3) is None
            &&& number_at(data, 8, 8) == items.len()
            &&& number_at(data, 16, 4) == chunk_count(items.len(), 512)
            &&& number_at(data, 20, 4) == 512
            &&& number_at(data, 44, 2) == first_rating(items)
            &&& number_at(data, 46, 2) == last_rating(items)
            &&& masks_at(data, number_at(data, 32, 8) as int, number_at(data, 40, 4)) == dict_of(
                items,
            )
        }),
{
    reveal(row_file);
    law_file_opens(
        facts_of(items),
        dict_of(items),
        packed(chunk_blocks(items, dict_of(items))),
    );
}

/// The block of a run of puzzles is read back from their file.
proof fn lemma_file_block(items: Seq<ItemModel>, entries: Seq<BlockEntry>, i: int)
    requires
        file_true(items),
        file_entries(items, entries),
        0 <= i < chunk_count(items.len(), 512),
        chunk_holds(items, i),
    ensures
        block_at(row_file(items), entries, i as nat) == Ok::<RowBlock, DbError>(
            block_of(chunk_at(items, 512, i), dict_of(items)),
        ),
        entries[i].min_rating == first_rating(chunk_at(items, 512, i)),
        entries[i].max_rating == last_rating(chunk_at(items, 512, i)),
{
    reveal(row_file);
    let dict = dict_of(items);
    let all = chunk_blocks(items, dict);
    let blocks = packed(all);
    let chunk = chunk_at(items, 512, i);
    lemma_chunk_bounds(items.len(), 512, i);
    lemma_chunk_whole(items, i);
    let content = chunk_payload(chunk, dict);
    lemma_few_odd(chunk);
    law_block_back(chunk, dict);
    assert(zstd_content(all[i]->0.frame) == Some(content));
    assert(blocks[i] == all[i]->0);
    law_payload_back(facts_of(items), dict, blocks, entries, i, content);
    law_entries_back(facts_of(items), dict, blocks, entries);
    assert(entries[i].min_rating == blocks[i].min_rating);
}

/// The block index of a file of puzzles that rise by rating tells the truth, so
/// that queries look into every block that has a puzzle for them.
pub proof fn law_index_is_true(items: Seq<ItemModel>, entries: Seq<BlockEntry>)
    requires
        file_true(items),
        file_entries(items, entries),
        rising(item_ratings(items)),
        forall|i: int|
            0 <= i < chunk_count(items.len(), 512) ==> #[trigger] chunk_holds(items, i),
    ensures
        index_is_true(entries, query_blocks(row_file(items), entries, dict_of(items))),
{
    let dict = dict_of(items);
    let blocks = query_blocks(row_file(items), entries, dict);
    assert forall|i: int, k: int|
        #![trigger blocks[i]->0[k]]
        0 <= i < blocks.len() && blocks[i] is Some && 0 <= k
            < blocks[i]->0.len() implies entries[i].min_rating <= blocks[i]->0[k].rating
        <= entries[i].max_rating by {
        lemma_file_block(items, entries, i);
        lemma_chunk_ratings(items, 512, i, k);
    }
    let highs = max_keys(entries);
    assert forall|i: int, j: int| 0 <= i <= j < highs.len() implies #[trigger] highs[i]
        <= #[trigger] highs[j] by {
        lemma_file_block(items, entries, i);
        lemma_file_block(items, entries, j);
        lemma_chunks_rise(items, 512, i, j);
    }
    let lows = min_keys(entries);
    assert forall|i: int, j: int| 0 <= i <= j < lows.len() implies #[trigger] lows[i]
        <= #[trigger] lows[j] by {
        lemma_file_block(items, entries, i);
        lemma_file_block(items, entries, j);
        lemma_chunks_rise(items, 512, i, j);
    }
}

} // verus!
