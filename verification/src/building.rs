//! What a build gives, and what is found again when its file is opened.

use vstd::prelude::*;

use crate::appendix::{appendix_at, cut_bytes, fullmoves_at, id_holds};
use crate::block_builder;
use crate::block_builder::BlockBuilderStats;
use crate::block_db;
use crate::block_db::BlockCompressedDb;
use crate::block_file::{
    entries_at, entry_bytes, file_fault, lemma_entry_fields, payload_of, BlockEntry,
};
use crate::builder;
use crate::builder::{sorted_from, BuilderStats};
use crate::chunks::chunk_at;
use crate::columnar_builder;
use crate::columnar_builder::{
    filter_of, level_byte, ColumnarBuilderOptions, ColumnarBuilderStats,
};
use crate::columnar_db;
use crate::columnar_db::ColumnarDb;
use crate::db::{fault, header_bytes, number_at, record_puzzle, records_at, DbHeader};
use crate::frame::zstd_content;
use crate::id::standard_id;
use crate::ingest::{
    item_puzzle, item_ratings, law_every_bound_counts, models, row_taken, row_texts, BuildError,
    ItemModel, ParsedItem, RawPuzzleRow,
};
use crate::keeping::{lemma_masks_in, lemma_moves_in, lemma_written, masks_in, moves_in, written_at};
use crate::puzzle::{found_model, puzzle_models, Puzzle, QueryCriteria};
use crate::query::QueryRow;
use crate::record::PuzzleRecord;
use crate::section::{masks_at, moves_at, DbError};
use crate::text::{decimal, int_text, texts, utf8, words};
use crate::theme::{strs, ThemeMask};
use crate::wire::{le, lemma_le, lemma_spans, slot};

verus! {

// ---------------------------------------------------------------------------
// Builds
// ---------------------------------------------------------------------------

/// Sorting keeps all puzzles and adds none, and none comes before one with a lower rating.
pub proof fn law_sorting(sorted: Seq<ItemModel>, items: Seq<ItemModel>)
    requires
        sorted_from(sorted, items),
    ensures
        sorted.len() == items.len(),
        forall|m: ItemModel| #[trigger] sorted.contains(m) <==> items.contains(m),
        forall|m: ItemModel| #[trigger]
            sorted.to_multiset().count(m) == items.to_multiset().count(m),
        forall|i: int, j: int|
            0 <= i <= j < sorted.len() ==> (#[trigger] sorted[i]).rating <= (
            #[trigger] sorted[j]).rating,
{
    broadcast use vstd::seq_lib::group_to_multiset_ensures;

    assert(sorted.to_multiset().len() == items.to_multiset().len());
    assert forall|m: ItemModel| #[trigger] sorted.contains(m) <==> items.contains(m) by {
        assert(sorted.to_multiset().count(m) == items.to_multiset().count(m));
    }
    let keys = item_ratings(sorted);
    assert forall|i: int, j: int| 0 <= i <= j < sorted.len() implies (#[trigger] sorted[i]).rating
        <= (#[trigger] sorted[j]).rating by {
        assert(keys[i] == sorted[i].rating && keys[j] == sorted[j].rating);
    }
}

/// A build of fixed records succeeds if and only if there are fewer than 2^32 theme masks
/// and its moves start within 64 bits.
pub proof fn law_record_builds_that_succeed(
    items: Seq<ItemModel>,
    r: Result<(Vec<u8>, BuilderStats), BuildError>,
)
    requires
        builder::is_build(items, r),
    ensures
        r is Ok <==> masks_in(items).len() <= 0xFFFF_FFFF && 64 + 16 * masks_in(items).len() + 40
            * items.len() <= 0xFFFF_FFFF_FFFF_FFFF,
        masks_in(items).len() > 0xFFFF_FFFF ==> r->Err_0 == BuildError::TooManyThemes,
        r is Err && masks_in(items).len() <= 0xFFFF_FFFF ==> r->Err_0 == BuildError::TooLarge,
{
    lemma_masks_in(items);
}

/// The file of a build of fixed records opens, tells how many puzzles it has, and hands
/// each puzzle that a record can hold out as it was.
pub proof fn law_record_build_is_read_back(
    items: Seq<ItemModel>,
    r: Result<(Vec<u8>, BuilderStats), BuildError>,
    records: Seq<PuzzleRecord>,
    i: int,
)
    requires
        builder::is_build(items, r),
        r is Ok,
        moves_in(items) < 0x1_0000_0000_0000_0000,
        forall|k: int| 0 <= k < items.len() ==> (#[trigger] items[k]).pieces.len() == 16,
        records.len() == items.len(),
        records_at(records, r->Ok_0.0@, number_at(r->Ok_0.0@, 16, 8) as int),
        0 <= i < items.len(),
        builder::record_holds(items, i),
    ensures
        ({
            let file = r->Ok_0.0@;
            let pool = moves_at(file, number_at(file, 32, 8) as int, number_at(file, 24, 8));
            let dict = masks_at(file, number_at(file, 40, 8) as int, number_at(file, 48, 4));
            let p = record_puzzle(records[i], pool, dict);
            let q = item_puzzle(ItemModel { fullmove: 1, ..items[i] });
            &&& fault(file) is None
            &&& written_at(file, 8, 8) == items.len()
            &&& p.fen == q.fen
            &&& p.moves == q.moves
            &&& p.rating == q.rating
            &&& p.themes == q.themes
            &&& standard_id(items[i].id) ==> p == q
        }),
{
    lemma_moves_in(items);
    let file = r->Ok_0.0@;
    builder::law_file_opens(items);
    builder::law_puzzles_come_back(items, records, i);
    lemma_written(file, 8, 8);
}

/// A build of blocks of records that the file can hold succeeds; its file opens, tells how
/// many puzzles it has, and hands each that a record can hold out as it was.
pub proof fn law_block_build_is_read_back(
    items: Seq<ItemModel>,
    r: Result<(Vec<u8>, BlockBuilderStats), BuildError>,
    entries: Seq<BlockEntry>,
    k: int,
)
    requires
        block_builder::is_build(items, r),
        block_builder::file_true(items),
        block_builder::file_entries(items, entries),
        0 <= k < items.len(),
        block_builder::chunk_holds(items, k / 512),
        block_builder::row_holds(chunk_at(items, 512, k / 512), k % 512),
    ensures
        r is Ok,
        ({
            let file = r->Ok_0.0@;
            let p = block_db::puzzle_at(
                file,
                items.len() as usize,
                512,
                entries,
                masks_at(file, number_at(file, 32, 8) as int, number_at(file, 40, 4)),
                k as nat,
            );
            let q = item_puzzle(items[k]);
            &&& file_fault(file, 3) is None
            &&& written_at(file, 8, 8) == items.len()
            &&& written_at(file, 20, 4) == 512
            &&& p is Some
            &&& p->0.fen == q.fen
            &&& p->0.moves == q.moves
            &&& p->0.rating == q.rating
            &&& p->0.themes == q.themes
            &&& id_holds(items[k].id) ==> p == Some(q)
        }),
{
    let file = r->Ok_0.0@;
    block_builder::law_file_is_read(items);
    block_builder::law_puzzles_come_back(items, entries, k);
    lemma_written(file, 8, 8);
    lemma_written(file, 20, 4);
}

/// A build of blocks of columns that the file can hold succeeds; its file opens, tells how
/// many puzzles it has in all and in a block, and hands each out as it was.
pub proof fn law_column_build_is_read_back(
    items: Seq<ItemModel>,
    size: nat,
    level: i32,
    r: Result<(Vec<u8>, ColumnarBuilderStats), BuildError>,
    entries: Seq<BlockEntry>,
    k: int,
)
    requires
        columnar_builder::is_build(items, size, level, r),
        columnar_builder::file_true(items, size, level),
        columnar_builder::file_entries(items, size, level, entries),
        0 <= k < items.len(),
        columnar_builder::chunk_holds(items, size, k / size as int),
        id_holds(items[k].id),
    ensures
        r is Ok,
        ({
            let file = r->Ok_0.0@;
            let p = columnar_db::puzzle_at(
                file,
                items.len() as usize,
                size,
                entries,
                masks_at(file, number_at(file, 32, 8) as int, number_at(file, 40, 4)),
                k as nat,
            );
            &&& file_fault(file, 4) is None
            &&& written_at(file, 8, 8) == items.len()
            &&& written_at(file, 20, 4) == size
            &&& p == Some(item_puzzle(items[k]))
        }),
{
    let file = r->Ok_0.0@;
    columnar_builder::law_file_is_read(items, size, level);
    columnar_builder::law_puzzles_come_back(items, size, level, entries, k);
    lemma_written(file, 8, 8);
    lemma_written(file, 20, 4);
}

/// A build takes a row if and only if its rating, its popularity and its plays keep every
/// bound that the options give.
pub proof fn law_options_bound_rows(
    o: ColumnarBuilderOptions,
    record: Seq<Seq<char>>,
    rating: nat,
    popularity: int,
    plays: nat,
)
    requires
        record.len() >= 8,
        record[3] == decimal(rating),
        rating <= 65535,
        record[5] == int_text(popularity),
        -128 <= popularity <= 127,
        record[6] == decimal(plays),
        plays <= 0xFFFF_FFFF,
    ensures
        row_taken(filter_of(o), record) <==> {
            &&& o.min_rating matches Some(min) ==> rating >= min
            &&& o.max_rating matches Some(max) ==> rating <= max
            &&& o.min_popularity matches Some(min) ==> popularity >= min
            &&& o.min_plays matches Some(min) ==> plays >= min
        },
{
    law_every_bound_counts(filter_of(o), record, rating, popularity, plays);
}

// ---------------------------------------------------------------------------
// Headers, indices and dictionaries
// ---------------------------------------------------------------------------

/// The fields of the header of a file with fixed records stand at these places.
pub proof fn law_header_of_records(h: DbHeader)
    ensures
        ({
            let b = header_bytes(h);
            &&& b.len() == 64
            &&& b.take(4) == h.magic@
            &&& written_at(b, 4, 4) == h.version
            &&& written_at(b, 8, 8) == h.puzzle_count
            &&& written_at(b, 16, 8) == h.records_offset
            &&& written_at(b, 24, 8) == h.move_pool_count
            &&& written_at(b, 32, 8) == h.move_pool_offset
            &&& written_at(b, 40, 8) == h.theme_dict_offset
            &&& written_at(b, 48, 4) == h.theme_dict_count
            &&& written_at(b, 52, 2) == h.min_rating
            &&& written_at(b, 54, 2) == h.max_rating
        }),
{
    lemma_spans();
    let b = header_bytes(h);
    lemma_le(h.version as nat, 4);
    lemma_le(h.puzzle_count as nat, 8);
    lemma_le(h.records_offset as nat, 8);
    lemma_le(h.move_pool_count as nat, 8);
    lemma_le(h.move_pool_offset as nat, 8);
    lemma_le(h.theme_dict_offset as nat, 8);
    lemma_le(h.theme_dict_count as nat, 4);
    lemma_le(h.min_rating as nat, 2);
    lemma_le(h.max_rating as nat, 2);
    assert(b.take(4) =~= h.magic@);
    assert(b.subrange(4, 8) =~= le(h.version as nat, 4));
    lemma_written(b, 4, 4);
    assert(b.subrange(8, 16) =~= le(h.puzzle_count as nat, 8));
    lemma_written(b, 8, 8);
    assert(b.subrange(16, 24) =~= le(h.records_offset as nat, 8));
    lemma_written(b, 16, 8);
    assert(b.subrange(24, 32) =~= le(h.move_pool_count as nat, 8));
    lemma_written(b, 24, 8);
    assert(b.subrange(32, 40) =~= le(h.move_pool_offset as nat, 8));
    lemma_written(b, 32, 8);
    assert(b.subrange(40, 48) =~= le(h.theme_dict_offset as nat, 8));
    lemma_written(b, 40, 8);
    assert(b.subrange(48, 52) =~= le(h.theme_dict_count as nat, 4));
    lemma_written(b, 48, 4);
    assert(b.subrange(52, 54) =~= le(h.min_rating as nat, 2));
    lemma_written(b, 52, 2);
    assert(b.subrange(54, 56) =~= le(h.max_rating as nat, 2));
    lemma_written(b, 54, 2);
}

/// An open database with blocks of records tells what its header writes, and a query for
/// it has the bounds that are asked for; the lowest and the highest rating where none are.
pub proof fn law_open_blocks(db: &BlockCompressedDb, c: QueryCriteria)
    requires
        db.opened(),
    ensures
        db.head().puzzle_count == written_at(db.data(), 8, 8),
        db.head().block_count == written_at(db.data(), 16, 4),
        db.head().block_size == written_at(db.data(), 20, 4),
        db.head().min_rating == written_at(db.data(), 44, 2),
        db.head().max_rating == written_at(db.data(), 46, 2),
        db.index().len() == written_at(db.data(), 16, 4),
        db.dict().len() == written_at(db.data(), 40, 4),
        db.query(c).criteria == c,
        db.query(c).dict == db.dict(),
        c.min_rating matches Some(m) ==> db.query(c).min == m,
        c.max_rating matches Some(m) ==> db.query(c).max == m,
        c.min_rating is None ==> db.query(c).min == written_at(db.data(), 44, 2),
        c.max_rating is None ==> db.query(c).max == written_at(db.data(), 46, 2),
{
    let data = db.data();
    lemma_written(data, 8, 8);
    lemma_written(data, 16, 4);
    lemma_written(data, 20, 4);
    lemma_written(data, 40, 4);
    lemma_written(data, 44, 2);
    lemma_written(data, 46, 2);
}

/// An open database with blocks of columns tells what its header writes, and a query for
/// it has the bounds that are asked for; the lowest and the highest rating where none are.
pub proof fn law_open_columns(db: &ColumnarDb, c: QueryCriteria)
    requires
        db.opened(),
    ensures
        db.head().puzzle_count == written_at(db.data(), 8, 8),
        db.head().block_count == written_at(db.data(), 16, 4),
        db.head().block_size == written_at(db.data(), 20, 4),
        db.head().min_rating == written_at(db.data(), 44, 2),
        db.head().max_rating == written_at(db.data(), 46, 2),
        db.head().compression_level == db.data()[48],
        db.index().len() == written_at(db.data(), 16, 4),
        db.dict().len() == written_at(db.data(), 40, 4),
        db.query(c).criteria == c,
        db.query(c).dict == db.dict(),
        c.min_rating matches Some(m) ==> db.query(c).min == m,
        c.max_rating matches Some(m) ==> db.query(c).max == m,
        c.min_rating is None ==> db.query(c).min == written_at(db.data(), 44, 2),
        c.max_rating is None ==> db.query(c).max == written_at(db.data(), 46, 2),
{
    let data = db.data();
    lemma_written(data, 8, 8);
    lemma_written(data, 16, 4);
    lemma_written(data, 20, 4);
    lemma_written(data, 40, 4);
    lemma_written(data, 44, 2);
    lemma_written(data, 46, 2);
}

/// The entries of an index take 24 bytes each: the place of the block, its sizes
/// compressed and not, the number of its puzzles, and its lowest and highest rating.
pub proof fn law_entries_of_an_index(entries: Seq<BlockEntry>, data: Seq<u8>, pos: int, i: int)
    requires
        entries_at(entries, data, pos),
        0 <= i < entries.len(),
        0 <= pos,
        pos + 24 * entries.len() <= data.len(),
    ensures
        entries[i].file_offset == written_at(data, pos + 24 * i, 8),
        entries[i].compressed_size == written_at(data, pos + 24 * i + 8, 4),
        entries[i].uncompressed_size == written_at(data, pos + 24 * i + 12, 4),
        entries[i].puzzle_count == written_at(data, pos + 24 * i + 16, 2),
        entries[i].min_rating == written_at(data, pos + 24 * i + 18, 2),
        entries[i].max_rating == written_at(data, pos + 24 * i + 20, 2),
{
    let e = entries[i];
    let b = entry_bytes(e);
    let at = pos + 24 * i;
    lemma_entry_fields(e);
    assert(b == slot(data, pos, 24, i));
    assert(b.subrange(0, 8) =~= data.subrange(at, at + 8));
    assert(b.subrange(8, 12) =~= data.subrange(at + 8, at + 8 + 4));
    assert(b.subrange(12, 16) =~= data.subrange(at + 12, at + 12 + 4));
    assert(b.subrange(16, 18) =~= data.subrange(at + 16, at + 16 + 2));
    assert(b.subrange(18, 20) =~= data.subrange(at + 18, at + 18 + 2));
    assert(b.subrange(20, 22) =~= data.subrange(at + 20, at + 20 + 2));
    lemma_written(data, at, 8);
    lemma_written(data, at + 8, 4);
    lemma_written(data, at + 12, 4);
    lemma_written(data, at + 16, 2);
    lemma_written(data, at + 18, 2);
    lemma_written(data, at + 20, 2);
}

/// The masks of a dictionary take sixteen bytes each, the moves of a pool two.
pub proof fn law_masks_and_moves(data: Seq<u8>, pos: int, n: nat, i: int)
    requires
        0 <= pos,
        0 <= i < n,
    ensures
        masks_at(data, pos, n).len() == n,
        moves_at(data, pos, n).len() == n,
        pos + 16 * n <= data.len() ==> masks_at(data, pos, n)[i].0 == written_at(
            data,
            pos + 16 * i,
            16,
        ) as u128,
        pos + 2 * n <= data.len() ==> moves_at(data, pos, n)[i].0 == written_at(
            data,
            pos + 2 * i,
            2,
        ) as u16,
{
    if pos + 16 * n <= data.len() {
        lemma_written(data, pos + 16 * i, 16);
    }
    if pos + 2 * n <= data.len() {
        lemma_written(data, pos + 2 * i, 2);
    }
}

// ---------------------------------------------------------------------------
// Lookups by index
// ---------------------------------------------------------------------------

/// An index leads to the row that a query sees in the block of the index divided by the
/// block size, at the remainder; there is no puzzle where there is no such row, nor behind
/// the number of puzzles.
pub proof fn law_index_leads_to_a_row(
    data: Seq<u8>,
    size: usize,
    block_size: nat,
    entries: Seq<BlockEntry>,
    dict: Seq<ThemeMask>,
    index: nat,
)
    ensures
        ({
            let columns = columnar_db::query_blocks(data, entries, dict);
            let rows = block_db::query_blocks(data, entries, dict);
            let of_columns = columnar_db::puzzle_at(data, size, block_size, entries, dict, index);
            let of_rows = block_db::puzzle_at(data, size, block_size, entries, dict, index);
            let i = (index / block_size) as int;
            let k = (index % block_size) as int;
            &&& index >= size || block_size == 0 ==> of_columns is None && of_rows is None
            &&& index < size && block_size > 0 ==> {
                &&& of_columns is Some <==> has_row(columns, i, k)
                &&& of_rows is Some <==> has_row(rows, i, k)
                &&& of_columns is Some ==> of_columns->0 == columns[i]->0[k].puzzle
                &&& of_rows is Some ==> of_rows->0 == rows[i]->0[k].puzzle
            }
        }),
{
    if block_size > 0 {
        vstd::arithmetic::div_mod::lemma_div_pos_is_pos(index as int, block_size as int);
        vstd::arithmetic::div_mod::lemma_mod_bound(index as int, block_size as int);
    }
}

/// Whether a block that can be read has a row at a place.
pub open spec fn has_row(blocks: Seq<Option<Seq<QueryRow>>>, i: int, k: int) -> bool {
    0 <= i < blocks.len() && blocks[i] is Some && 0 <= k < blocks[i]->0.len()
}

/// The content of a block is what its bytes in the file decompress to, if and only if the
/// index has the block, the file has its bytes and the content is as long as its entry
/// says; else the first of these that is wrong is told.
pub proof fn law_contents_of_blocks(data: Seq<u8>, entries: Seq<BlockEntry>, i: nat)
    ensures
        ({
            let r = payload_of(data, entries, i);
            let e = entries[i as int];
            let end = e.file_offset + e.compressed_size;
            let content = zstd_content(data.subrange(e.file_offset as int, end));
            &&& i >= entries.len() ==> r is Err && r->Err_0 == DbError::BlockOutOfBounds
            &&& i < entries.len() && end > data.len() ==> r is Err && r->Err_0
                == DbError::BlockTooLong
            &&& i < entries.len() && end <= data.len() && content is None ==> r is Err && r->Err_0
                == DbError::BadFrame
            &&& i < entries.len() && end <= data.len() && content is Some ==> {
                &&& r is Ok <==> content->0.len() == e.uncompressed_size
                &&& r is Ok ==> r->Ok_0 == content->0
                &&& r is Err ==> r->Err_0 == DbError::SizeMismatch
            }
        }),
{
}

/// Where fewer than two bytes stand behind the puzzles of a block, no identifier is kept
/// as a text and every fullmove number is one; where the numbers are cut off, they are
/// one too.
pub proof fn law_nothing_behind_the_puzzles(data: Seq<u8>, pos: int, n: nat, k: int)
    requires
        0 <= k < n,
    ensures
        pos + 2 > data.len() ==> appendix_at(data, pos, n) is Some && appendix_at(
            data,
            pos,
            n,
        )->0.ids.len() == 0 && appendix_at(data, pos, n)->0.fullmoves.len() == n && appendix_at(
            data,
            pos,
            n,
        )->0.fullmoves[k] == 1,
        pos + 2 * n > data.len() ==> fullmoves_at(data, pos, n).len() == n && fullmoves_at(
            data,
            pos,
            n,
        )[k] == 1,
        0 <= pos && pos + 2 * n <= data.len() ==> fullmoves_at(data, pos, n)[k] == written_at(
            data,
            pos + 2 * k,
            2,
        ) as u16,
{
    if 0 <= pos && pos + 2 * n <= data.len() {
        lemma_written(data, pos + 2 * k, 2);
    }
}

/// Of an identifier that is kept as a text the first 255 bytes are kept, of a shorter one
/// all.
pub proof fn law_bytes_of_an_odd_id(id: Seq<char>, i: int)
    ensures
        utf8(id).len() <= 255 ==> cut_bytes(id) == utf8(id),
        utf8(id).len() > 255 ==> cut_bytes(id).len() == 255,
        0 <= i < cut_bytes(id).len() ==> cut_bytes(id)[i] == utf8(id)[i],
{
}

/// The header tells a compression level from 0 to 255 as it is; any other loses what is
/// above eight bits.
pub proof fn law_level_in_the_header(level: i32)
    ensures
        0 <= level <= 255 ==> level_byte(level) == level,
        -256 <= level < 0 ==> level_byte(level) == level + 256,
        exists|k: int| level == level_byte(level) + #[trigger] (256 * k),
{
    let k = level as int / 256;
    assert(level == level_byte(level) + 256 * k);
}

// ---------------------------------------------------------------------------
// Lists
// ---------------------------------------------------------------------------

/// The models of lists have one item for each of theirs, in their order.
pub proof fn law_lists(
    items: Seq<ParsedItem>,
    rows: Seq<RawPuzzleRow>,
    puzzles: Seq<Puzzle>,
    strings: Seq<String>,
    parts: Seq<Vec<char>>,
    names: Seq<&str>,
    found: Puzzle,
    i: int,
)
    ensures
        models(items).len() == items.len(),
        row_texts(rows).len() == rows.len(),
        puzzle_models(puzzles).len() == puzzles.len(),
        texts(strings).len() == strings.len(),
        words(parts).len() == parts.len(),
        strs(names).len() == names.len(),
        0 <= i < items.len() ==> models(items)[i] == items[i]@,
        0 <= i < rows.len() ==> row_texts(rows)[i] == rows[i]@,
        0 <= i < puzzles.len() ==> puzzle_models(puzzles)[i] == puzzles[i]@,
        0 <= i < strings.len() ==> texts(strings)[i] == strings[i]@,
        0 <= i < parts.len() ==> words(parts)[i] == parts[i]@,
        0 <= i < names.len() ==> strs(names)[i] == names[i]@,
        found_model(Some(found)) == Some(found@),
        found_model(None) is None,
{
}

} // verus!
