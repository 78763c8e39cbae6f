//! How puzzles are kept: what files open, what their blocks say, what builds count and
//! which blocks stay in memory.

use vstd::prelude::*;

use crate::appendix::odd_ids;
use crate::block_builder;
use crate::block_builder::BlockBuilderStats;
use crate::block_db::decode_block;
use crate::block_file::{file_fault, BlockModel};
use crate::builder;
use crate::builder::{first_rating, last_rating, pool_of, BuilderStats};
use crate::chunks::{chunk_at, chunk_count, content_size, lemma_chunk_bounds, lemma_in_chunk};
use crate::coding::{is_id_char, law_standard_ids};
use crate::columnar_builder;
use crate::columnar_builder::ColumnarBuilderStats;
use crate::columnar_db::{
    decode_columns, is_cache_after, lemma_place_of_block, place_of_block, to_front, with_new,
    ColumnBlock, DecompressedColumnarBlock,
};
use crate::columns::{lemma_total_part, summed, total};
use crate::db::{fault, magic, number_at};
use crate::dict::{dict_of, item_masks, lemma_distinct};
use crate::fen::{fen_text, FenModel};
use crate::ingest::{item_ratings, ItemModel};
use crate::moves::{uci_text, PackedMove};
use crate::puzzle::puzzle_of;
use crate::section::{rising, DbError};
use crate::theme::{mask_names, ThemeMask};

verus! {

// ---------------------------------------------------------------------------
// Files
// ---------------------------------------------------------------------------

/// The number that bytes from a position on write, the lowest first.
pub open spec fn written_at(data: Seq<u8>, pos: int, n: nat) -> int
    decreases n,
{
    if n == 0 {
        0
    } else {
        data[pos] + 256 * written_at(data, pos + 1, (n - 1) as nat)
    }
}

pub proof fn lemma_written(data: Seq<u8>, pos: int, n: nat)
    requires
        0 <= pos,
        pos + n <= data.len(),
    ensures
        written_at(data, pos, n) == number_at(data, pos, n as int),
    decreases n,
{
    let b = data.subrange(pos, pos + n);
    if n > 0 {
        lemma_written(data, pos + 1, (n - 1) as nat);
        assert(b.skip(1) =~= data.subrange(pos + 1, pos + n));
        assert(b[0] == data[pos]);
    }
}

/// Whether data starts with the letters LPDB.
pub open spec fn starts_lpdb(data: Seq<u8>) -> bool {
    data[0] == 76 && data[1] == 80 && data[2] == 68 && data[3] == 66
}

proof fn lemma_starts(data: Seq<u8>)
    requires
        data.len() >= 4,
    ensures
        data.take(4) == magic() <==> starts_lpdb(data),
{
    let first = data.take(4);
    let m = magic();
    if first == m {
        assert(first[0] == m[0] && first[1] == m[1] && first[2] == m[2] && first[3] == m[3]);
    }
    if starts_lpdb(data) {
        assert(first =~= m);
    }
}

/// Whether rows of so many bytes lie inside data: their number and their start are
/// written at these positions.
pub open spec fn rows_lie_inside(
    data: Seq<u8>,
    start_at: int,
    count_at: int,
    count_bytes: nat,
    row: int,
) -> bool {
    written_at(data, start_at, 8) + written_at(data, count_at, count_bytes) * row <= data.len()
}

/// A file with fixed records opens if and only if it has a header, starts with LPDB, is
/// of the second version and has its dictionary, its records and its moves inside; else
/// the first of these that is wrong is told.
pub proof fn law_files_that_open(data: Seq<u8>)
    ensures
        ({
            let size = data.len() >= 64;
            let version = written_at(data, 4, 4);
            let masks = rows_lie_inside(data, 40, 48, 4, 16);
            let records = rows_lie_inside(data, 16, 8, 8, 40);
            let moves = rows_lie_inside(data, 32, 24, 8, 2);
            let f = fault(data);
            &&& f is None <==> size && starts_lpdb(data) && version == 2 && masks && records
                && moves
            &&& !size ==> f == Some(DbError::TooSmall)
            &&& size && !starts_lpdb(data) ==> f == Some(DbError::BadMagic)
            &&& size && starts_lpdb(data) && version != 2 ==> f == Some(
                DbError::UnsupportedVersion(version as u32),
            )
            &&& size && starts_lpdb(data) && version == 2 ==> {
                &&& !masks ==> f == Some(DbError::ThemeDictionaryTooLong)
                &&& masks && !records ==> f == Some(DbError::RecordsTooLong)
                &&& masks && records && !moves ==> f == Some(DbError::MovePoolTooLong)
            }
        }),
{
    if data.len() >= 64 {
        lemma_starts(data);
        lemma_written(data, 4, 4);
        lemma_written(data, 40, 8);
        lemma_written(data, 48, 4);
        lemma_written(data, 16, 8);
        lemma_written(data, 8, 8);
        lemma_written(data, 32, 8);
        lemma_written(data, 24, 8);
    }
}

/// A file with blocks opens if and only if it has a header, starts with LPDB, is of the
/// expected version and has its dictionary and its index inside; else the first of these
/// that is wrong is told.
pub proof fn law_block_files_that_open(data: Seq<u8>, expected: u32)
    ensures
        ({
            let size = data.len() >= 64;
            let version = written_at(data, 4, 4);
            let masks = rows_lie_inside(data, 32, 40, 4, 16);
            let index = rows_lie_inside(data, 24, 16, 4, 24);
            let f = file_fault(data, expected);
            &&& f is None <==> size && starts_lpdb(data) && version == expected && masks && index
            &&& !size ==> f == Some(DbError::TooSmall)
            &&& size && !starts_lpdb(data) ==> f == Some(DbError::BadMagic)
            &&& size && starts_lpdb(data) && version != expected ==> f == Some(
                DbError::UnsupportedVersion(version as u32),
            )
            &&& size && starts_lpdb(data) && version == expected ==> {
                &&& !masks ==> f == Some(DbError::ThemeDictionaryTooLong)
                &&& masks && !index ==> f == Some(DbError::BlockIndexTooLong)
            }
        }),
{
    if data.len() >= 64 {
        lemma_starts(data);
        lemma_written(data, 4, 4);
        lemma_written(data, 32, 8);
        lemma_written(data, 40, 4);
        lemma_written(data, 24, 8);
        lemma_written(data, 16, 4);
    }
}

/// The content of a block of records is read if and only if it has all the records and
/// moves that its first eight bytes count; it then gives as many.
pub proof fn law_blocks_of_records(data: Seq<u8>)
    ensures
        ({
            let n = written_at(data, 0, 4);
            let m = written_at(data, 4, 4);
            let r = decode_block(data);
            &&& r is Ok <==> data.len() >= 8 && 8 + n * 40 + m * 2 <= data.len()
            &&& r is Ok ==> r->Ok_0.rows.len() == n && r->Ok_0.moves.len() == m
            &&& data.len() < 8 ==> r is Err && r->Err_0 == DbError::UnexpectedEnd
            &&& data.len() >= 8 && 8 + n * 40 > data.len() ==> r is Err && r->Err_0
                == DbError::RecordsOverflow
            &&& data.len() >= 8 && 8 + n * 40 <= data.len() && 8 + n * 40 + m * 2 > data.len()
                ==> r is Err && r->Err_0 == DbError::MovesOverflow
        }),
{
    reveal(decode_block);
    if data.len() >= 8 {
        lemma_written(data, 0, 4);
        lemma_written(data, 4, 4);
    }
}

/// A block of columns that is read has in every column as many cells as its first four
/// bytes count; it is not read where it lacks these, or a column of fixed width.
pub proof fn law_blocks_of_columns(data: Seq<u8>)
    ensures
        ({
            let n = written_at(data, 0, 4);
            let r = decode_columns(data);
            &&& data.len() < 4 ==> r is None
            &&& data.len() >= 4 && n == 0 ==> r is Some && r->0.ids.len() == 0
            &&& data.len() >= 4 && n > 0 && 4 + 23 * n > data.len() ==> r is None
            &&& r is Some ==> {
                let b = r->0;
                &&& b.ids.len() == n
                &&& b.ratings.len() == n
                &&& b.theme_ids.len() == n
                &&& b.states.len() == n
                &&& b.halfmoves.len() == n
                &&& b.fullmoves.len() == n
                &&& b.occupied.len() == n
                &&& b.pieces.len() == n
                &&& b.moves.len() == n
            }
        }),
{
    reveal(decode_columns);
    if data.len() >= 4 {
        lemma_written(data, 0, 4);
    }
}

/// Ratings in a column are written as what they exceed the one before by, within sixteen
/// bits; the first as it is.
pub proof fn law_ratings_in_a_column(deltas: Seq<nat>, i: int)
    requires
        0 <= i < deltas.len(),
    ensures
        summed(deltas).len() == deltas.len(),
        i == 0 ==> summed(deltas)[0] == deltas[0] % 65536,
        i > 0 ==> summed(deltas)[i] == (summed(deltas)[i - 1] + deltas[i]) % 65536,
{
    lemma_total_part(deltas, i);
    if i == 0 {
        assert(deltas.take(0) =~= Seq::empty());
    } else {
        let before = total(deltas.take(i)) as int;
        assert(summed(deltas)[i - 1] == before % 65536);
        assert((before + deltas[i]) % 65536 == (before % 65536 + deltas[i]) % 65536);
    }
}

// ---------------------------------------------------------------------------
// Builds
// ---------------------------------------------------------------------------

/// Whether a rating is the lowest of puzzles.
pub open spec fn is_lowest(items: Seq<ItemModel>, rating: int) -> bool {
    &&& forall|i: int| 0 <= i < items.len() ==> rating <= (#[trigger] items[i]).rating
    &&& exists|i: int| 0 <= i < items.len() && rating == (#[trigger] items[i]).rating
}

/// Whether a rating is the highest of puzzles.
pub open spec fn is_highest(items: Seq<ItemModel>, rating: int) -> bool {
    &&& forall|i: int| 0 <= i < items.len() ==> (#[trigger] items[i]).rating <= rating
    &&& exists|i: int| 0 <= i < items.len() && rating == (#[trigger] items[i]).rating
}

proof fn lemma_lowest_and_highest(items: Seq<ItemModel>)
    requires
        items.len() > 0,
        rising(item_ratings(items)),
    ensures
        is_lowest(items, first_rating(items) as int),
        is_highest(items, last_rating(items) as int),
{
    let all = item_ratings(items);
    let n = items.len() as int;
    assert forall|i: int| 0 <= i < n implies first_rating(items) <= (#[trigger] items[i]).rating
        && items[i].rating <= last_rating(items) by {
        assert(all[0] == items[0].rating);
        assert(all[i] == items[i].rating);
        assert(all[n - 1] == items[n - 1].rating);
    }
    assert(items[0].rating == first_rating(items));
    assert(items[n - 1].rating == last_rating(items));
}

/// How many moves puzzles have.
pub open spec fn moves_in(items: Seq<ItemModel>) -> nat
    decreases items.len(),
{
    if items.len() == 0 {
        0
    } else {
        items[0].moves.len() + moves_in(items.skip(1))
    }
}

pub proof fn lemma_moves_in(items: Seq<ItemModel>)
    ensures
        moves_in(items) == pool_of(items).len(),
    decreases items.len(),
{
    if items.len() == 1 {
        assert(items.drop_last() =~= Seq::empty());
        assert(items.skip(1) =~= Seq::empty());
        assert(pool_of(items.drop_last()) =~= Seq::empty());
        assert(moves_in(items.skip(1)) == 0);
        assert(items.last() == items[0]);
    } else if items.len() > 1 {
        let init = items.drop_last();
        lemma_moves_in(init);
        lemma_moves_in(items.skip(1));
        lemma_moves_in(init.skip(1));
        assert(items.skip(1).drop_last() =~= init.skip(1));
        assert(items.skip(1).last() == items.last());
        assert(init[0] == items[0]);
        assert(moves_in(items) == items[0].moves.len() + moves_in(items.skip(1)));
        assert(moves_in(init) == items[0].moves.len() + moves_in(init.skip(1)));
    }
}

/// The theme masks of puzzles, each once.
pub open spec fn masks_in(items: Seq<ItemModel>) -> Set<u128> {
    Set::new(|m: u128| exists|i: int| 0 <= i < items.len() && (#[trigger] items[i]).mask == m)
}

pub proof fn lemma_masks_in(items: Seq<ItemModel>)
    ensures
        masks_in(items).finite(),
        masks_in(items).len() == dict_of(items).len(),
{
    let masks = item_masks(items);
    let dict = dict_of(items);
    lemma_distinct(masks);
    let plain = dict.map_values(|m: ThemeMask| m.0);
    assert forall|i: int, j: int| 0 <= i < plain.len() && 0 <= j < plain.len() && i
        != j implies plain[i] != plain[j] by {
        assert(dict[i] != dict[j]);
        assert(plain[i] == dict[i].0 && plain[j] == dict[j].0);
    }
    assert(plain.no_duplicates());
    plain.unique_seq_to_set();
    assert forall|m: u128| plain.to_set().contains(m) == masks_in(items).contains(m) by {
        if plain.to_set().contains(m) {
            let k = choose|k: int| 0 <= k < plain.len() && plain[k] == m;
            assert(masks.contains(dict[k].0));
            let i = choose|i: int| 0 <= i < masks.len() && masks[i] == dict[k].0;
            assert(items[i].mask == m);
        }
        if masks_in(items).contains(m) {
            let i = choose|i: int| 0 <= i < items.len() && (#[trigger] items[i]).mask == m;
            assert(masks[i] == m);
            assert(dict.contains(ThemeMask(masks[i])));
            let k = choose|k: int| 0 <= k < dict.len() && dict[k] == ThemeMask(masks[i]);
            assert(plain[k] == m);
        }
    }
    assert(plain.to_set() =~= masks_in(items));
}

/// What a build of fixed records counts: all puzzles and moves, each theme mask once, the
/// bytes of the file, and the lowest and the highest rating.
pub proof fn law_build_counts(items: Seq<ItemModel>, size: nat, s: BuilderStats)
    requires
        builder::stats_of(items, size, s),
        rising(item_ratings(items)),
    ensures
        s.total_puzzles == items.len(),
        s.total_moves == moves_in(items),
        s.unique_themes == masks_in(items).len(),
        s.total_bytes_written == size,
        items.len() > 0 ==> is_lowest(items, s.min_rating as int) && is_highest(
            items,
            s.max_rating as int,
        ),
        items.len() == 0 ==> s.min_rating == 0 && s.max_rating == 0,
{
    lemma_moves_in(items);
    lemma_masks_in(items);
    if items.len() > 0 {
        lemma_lowest_and_highest(items);
    }
}

/// Whether so many blocks of a size are just enough for puzzles.
pub open spec fn just_enough(blocks: int, size: int, puzzles: int) -> bool {
    &&& puzzles <= blocks * size
    &&& puzzles > (blocks - 1) * size
}

proof fn lemma_just_enough(n: nat, size: nat)
    requires
        size > 0,
    ensures
        just_enough(chunk_count(n, size) as int, size as int, n as int),
{
    let c = chunk_count(n, size) as int;
    lemma_chunk_bounds(n, size, c);
    if c > 0 {
        lemma_chunk_bounds(n, size, c - 1);
    } else {
        assert((c - 1) * size == -size) by (nonlinear_arith)
            requires
                c == 0,
        ;
    }
}

/// What a build of blocks of records counts: all puzzles, just enough blocks of 512, the
/// bytes of the file, and the lowest and the highest rating.
pub proof fn law_block_build_counts(items: Seq<ItemModel>, size: nat, s: BlockBuilderStats)
    requires
        block_builder::stats_of(items, size, s),
        rising(item_ratings(items)),
    ensures
        s.total_puzzles == items.len(),
        just_enough(s.total_blocks as int, 512, items.len() as int),
        s.compressed_size == size,
        items.len() > 0 ==> is_lowest(items, s.min_rating as int) && is_highest(
            items,
            s.max_rating as int,
        ),
        items.len() == 0 ==> s.min_rating == 0 && s.max_rating == 0,
{
    lemma_just_enough(items.len(), 512);
    if items.len() > 0 {
        lemma_lowest_and_highest(items);
    }
}

/// What a build of blocks of columns counts: all puzzles, just enough blocks of the size
/// that was asked for, the bytes of the file, and the lowest and the highest rating.
pub proof fn law_column_build_counts(
    items: Seq<ItemModel>,
    block_size: nat,
    level: i32,
    size: nat,
    s: ColumnarBuilderStats,
)
    requires
        block_size > 0,
        columnar_builder::stats_of(items, block_size, level, size, s),
        rising(item_ratings(items)),
    ensures
        s.total_puzzles == items.len(),
        just_enough(s.total_blocks as int, block_size as int, items.len() as int),
        s.compressed_size == size,
        items.len() > 0 ==> is_lowest(items, s.min_rating as int) && is_highest(
            items,
            s.max_rating as int,
        ),
        items.len() == 0 ==> s.min_rating == 0 && s.max_rating == 0,
{
    lemma_just_enough(items.len(), block_size);
    if items.len() > 0 {
        lemma_lowest_and_highest(items);
    }
}

/// Every puzzle is in the block of its index divided by the size, at the remainder, and
/// no block has more than the size.
pub proof fn law_block_of_a_puzzle(items: Seq<ItemModel>, size: nat, k: int, i: int)
    requires
        size > 0,
        0 <= k < items.len(),
        0 <= i < chunk_count(items.len(), size),
    ensures
        (k % (size as int)) < chunk_at(items, size, k / size as int).len(),
        chunk_at(items, size, k / size as int)[k % size as int] == items[k],
        0 < chunk_at(items, size, i).len() <= size,
{
    lemma_in_chunk(items, size, k);
    lemma_chunk_bounds(items.len(), size, i);
}

/// The size of the contents of blocks grows by that of each.
pub proof fn law_content_sizes_add_up(blocks: Seq<BlockModel>, last: BlockModel)
    ensures
        content_size(Seq::empty()) == 0,
        content_size(blocks.push(last)) == content_size(blocks) + last.uncompressed_size,
{
    assert(blocks.push(last).drop_last() =~= blocks);
    assert(blocks.push(last).last() == last);
}

/// The identifiers that are kept as texts are those that are not five letters and digits,
/// in their order.
pub proof fn law_odd_ids(items: Seq<ItemModel>, last: ItemModel)
    ensures
        odd_ids(Seq::empty()) == Seq::<Seq<char>>::empty(),
        ({
            let plain = last.id.len() == 5 && forall|i: int|
                0 <= i < 5 ==> is_id_char(#[trigger] last.id[i]);
            odd_ids(items.push(last)) == (if plain {
                odd_ids(items)
            } else {
                odd_ids(items).push(last.id)
            })
        }),
{
    law_standard_ids(last.id);
    assert(items.push(last).drop_last() =~= items);
    assert(items.push(last).last() == last);
}

// ---------------------------------------------------------------------------
// Puzzles
// ---------------------------------------------------------------------------

/// A puzzle has the identifier, the position, the moves and the rating that it is made
/// of, and the themes of its dictionary entry; none without an entry.
pub proof fn law_parts_of_a_puzzle(
    id: Seq<char>,
    position: FenModel,
    moves: Seq<PackedMove>,
    rating: u16,
    theme_id: nat,
    dict: Seq<ThemeMask>,
    i: int,
)
    ensures
        ({
            let p = puzzle_of(id, position, moves, rating, theme_id, dict);
            &&& p.id == id
            &&& p.fen == fen_text(position)
            &&& p.rating == rating
            &&& p.moves.len() == moves.len()
            &&& 0 <= i < moves.len() ==> p.moves[i] == uci_text(moves[i].0 as nat)
            &&& theme_id < dict.len() ==> p.themes == mask_names(dict[theme_id as int].0)
            &&& theme_id >= dict.len() ==> p.themes.len() == 0
        }),
{
}

// ---------------------------------------------------------------------------
// Blocks in memory
// ---------------------------------------------------------------------------

/// A block that is moved to the front changes places with none: the others keep their
/// order, and none is lost.
pub proof fn law_used_block_goes_to_the_front(
    entries: Seq<DecompressedColumnarBlock>,
    i: int,
    k: int,
)
    requires
        0 <= i < entries.len(),
        0 <= k < entries.len(),
    ensures
        to_front(entries, i).len() == entries.len(),
        to_front(entries, i)[0] == entries[i],
        k < i ==> to_front(entries, i)[k + 1] == entries[k],
        k > i ==> to_front(entries, i)[k] == entries[k],
{
}

/// A new block comes in front of all others, which keep their order; only the last leaves,
/// and only where there is no room.
pub proof fn law_new_block_comes_in_front(
    entries: Seq<DecompressedColumnarBlock>,
    capacity: usize,
    block: DecompressedColumnarBlock,
    k: int,
)
    requires
        0 <= k < entries.len(),
    ensures
        with_new(entries, capacity, block)[0] == block,
        entries.len() < capacity ==> with_new(entries, capacity, block).len() == entries.len() + 1,
        entries.len() >= capacity ==> with_new(entries, capacity, block).len() == entries.len(),
        k + 1 < entries.len() || entries.len() < capacity ==> with_new(
            entries,
            capacity,
            block,
        )[k + 1] == entries[k],
{
}

/// A block that was asked for and can be read is in front afterwards; up to fifteen others
/// that were in memory stay there. One that cannot be read changes nothing.
pub proof fn law_blocks_in_memory(
    was: Seq<DecompressedColumnarBlock>,
    block_idx: usize,
    read: Result<ColumnBlock, DbError>,
    now: Seq<DecompressedColumnarBlock>,
    k: int,
)
    requires
        is_cache_after(was, block_idx, read, now),
        0 <= k < was.len(),
    ensures
        (exists|i: int| 0 <= i < was.len() && (#[trigger] was[i]).block_idx == block_idx) || read
            is Ok ==> now.len() > 0 && now[0].block_idx == block_idx,
        (forall|i: int| 0 <= i < was.len() ==> (#[trigger] was[i]).block_idx != block_idx) ==> {
            &&& read is Err ==> now == was
            &&& read is Ok ==> now[0]@ == read->Ok_0
        },
        was.len() <= 15 || k < 15 && k + 1 < was.len() ==> now.contains(was[k]),
{
    lemma_place_of_block(was, block_idx, 0);
    match place_of_block(was, block_idx, 0) {
        Some(i) => {
            assert(was[i as int].block_idx == block_idx);
            law_used_block_goes_to_the_front(was, i as int, k);
            if k == i {
                assert(now[0] == was[k]);
            } else if k < i {
                assert(now[k + 1] == was[k]);
            } else {
                assert(now[k] == was[k]);
            }
        },
        None => {
            if read is Ok {
                law_new_block_comes_in_front(was, 16, now[0], k);
                if was.len() <= 15 || k + 1 < was.len() {
                    assert(now[k + 1] == was[k]);
                }
            } else {
                assert(now[k] == was[k]);
            }
        },
    }
}

} // verus!
