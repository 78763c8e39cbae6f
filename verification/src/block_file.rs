//! The container of block-compressed databases: a header, the theme dictionary,
//! the block index and the compressed blocks.

use vstd::prelude::*;

use crate::db::{is_magic, magic, number_at, take_four};
use crate::frame::{decompress, zstd_content};
use crate::section::{
    inside, is_cut, lemma_masks_back, mask_values, masks_at, parted, read_masks, start_of,
    write_masks, DbError,
};
use crate::theme::ThemeMask;
use crate::wire::{le, le_all, le_value, lemma_le, lemma_le_of_value, lemma_spans, put, slot, take};

verus! {

/// An entry of the block index.
#[derive(Debug, Clone, Copy)]
pub struct BlockEntry {
    pub file_offset: u64,
    pub compressed_size: u32,
    pub uncompressed_size: u32,
    pub puzzle_count: u16,
    pub min_rating: u16,
    pub max_rating: u16,
    pub reserved: u16,
}

/// The 24 bytes of an entry.
pub open spec fn entry_bytes(e: BlockEntry) -> Seq<u8> {
    le(e.file_offset as nat, 8) + le(e.compressed_size as nat, 4) + le(
        e.uncompressed_size as nat,
        4,
    ) + le(e.puzzle_count as nat, 2) + le(e.min_rating as nat, 2) + le(e.max_rating as nat, 2) + le(
        e.reserved as nat,
        2,
    )
}

/// The fields of an entry stand at their places among its bytes.
pub proof fn lemma_entry_fields(e: BlockEntry)
    ensures
        entry_bytes(e).len() == 24,
        e.file_offset == le_value(entry_bytes(e).subrange(0, 8)),
        e.compressed_size == le_value(entry_bytes(e).subrange(8, 12)),
        e.uncompressed_size == le_value(entry_bytes(e).subrange(12, 16)),
        e.puzzle_count == le_value(entry_bytes(e).subrange(16, 18)),
        e.min_rating == le_value(entry_bytes(e).subrange(18, 20)),
        e.max_rating == le_value(entry_bytes(e).subrange(20, 22)),
        e.reserved == le_value(entry_bytes(e).subrange(22, 24)),
{
    lemma_spans();
    let b = entry_bytes(e);
    lemma_le(e.file_offset as nat, 8);
    lemma_le(e.compressed_size as nat, 4);
    lemma_le(e.uncompressed_size as nat, 4);
    lemma_le(e.puzzle_count as nat, 2);
    lemma_le(e.min_rating as nat, 2);
    lemma_le(e.max_rating as nat, 2);
    lemma_le(e.reserved as nat, 2);
    assert(b.subrange(0, 8) =~= le(e.file_offset as nat, 8));
    assert(b.subrange(8, 12) =~= le(e.compressed_size as nat, 4));
    assert(b.subrange(12, 16) =~= le(e.uncompressed_size as nat, 4));
    assert(b.subrange(16, 18) =~= le(e.puzzle_count as nat, 2));
    assert(b.subrange(18, 20) =~= le(e.min_rating as nat, 2));
    assert(b.subrange(20, 22) =~= le(e.max_rating as nat, 2));
    assert(b.subrange(22, 24) =~= le(e.reserved as nat, 2));
}

impl BlockEntry {
    /// The entry whose bytes stand at a position.
    pub fn read(data: &[u8], pos: usize) -> (r: Self)
        requires
            pos + 24 <= data.len(),
        ensures
            entry_bytes(r) == data@.subrange(pos as int, pos + 24),
    {
        proof {
            lemma_spans();
        }
        let r = BlockEntry {
            file_offset: take(data, pos, 8) as u64,
            compressed_size: take(data, pos + 8, 4) as u32,
            uncompressed_size: take(data, pos + 12, 4) as u32,
            puzzle_count: take(data, pos + 16, 2) as u16,
            min_rating: take(data, pos + 18, 2) as u16,
            max_rating: take(data, pos + 20, 2) as u16,
            reserved: take(data, pos + 22, 2) as u16,
        };
        proof {
            lemma_le_of_value(data@.subrange(pos as int, pos + 8));
            lemma_le_of_value(data@.subrange(pos + 8, pos + 12));
            lemma_le_of_value(data@.subrange(pos + 12, pos + 16));
            lemma_le_of_value(data@.subrange(pos + 16, pos + 18));
            lemma_le_of_value(data@.subrange(pos + 18, pos + 20));
            lemma_le_of_value(data@.subrange(pos + 20, pos + 22));
            lemma_le_of_value(data@.subrange(pos + 22, pos + 24));
            assert(entry_bytes(r) =~= data@.subrange(pos as int, pos + 24));
        }
        r
    }

    /// Appends the bytes of the entry.
    pub fn write(&self, out: &mut Vec<u8>)
        ensures
            final(out)@ == old(out)@ + entry_bytes(*self),
    {
        put(out, self.file_offset as u128, 8);
        put(out, self.compressed_size as u128, 4);
        put(out, self.uncompressed_size as u128, 4);
        put(out, self.puzzle_count as u128, 2);
        put(out, self.min_rating as u128, 2);
        put(out, self.max_rating as u128, 2);
        put(out, self.reserved as u128, 2);
        assert(out@ =~= old(out)@ + entry_bytes(*self));
    }
}

/// Whether entries are those that stand from a position on.
pub open spec fn entries_at(entries: Seq<BlockEntry>, data: Seq<u8>, pos: int) -> bool {
    forall|i: int|
        0 <= i < entries.len() ==> #[trigger] entry_bytes(entries[i]) == slot(data, pos, 24, i)
}

/// The first thing that is wrong with the bytes of a database of a version, if
/// any: the checks are made in this order.
pub open spec fn file_fault(data: Seq<u8>, version: u32) -> Option<DbError> {
    let size = data.len();
    if size < 64 {
        Some(DbError::TooSmall)
    } else if data.take(4) != magic() {
        Some(DbError::BadMagic)
    } else if number_at(data, 4, 4) != version {
        Some(DbError::UnsupportedVersion(number_at(data, 4, 4) as u32))
    } else if !inside(size, number_at(data, 32, 8), number_at(data, 40, 4), 16) {
        Some(DbError::ThemeDictionaryTooLong)
    } else if !inside(size, number_at(data, 24, 8), number_at(data, 16, 4), 24) {
        Some(DbError::BlockIndexTooLong)
    } else {
        None
    }
}

/// An open file. The blocks stay compressed in its bytes.
pub struct BlockFile<'a> {
    pub data: &'a [u8],
    pub puzzle_count: u64,
    pub block_size: u32,
    pub min_rating: u16,
    pub max_rating: u16,
    pub theme_dict: Vec<ThemeMask>,
    pub entries: Vec<BlockEntry>,
}

/// The highest ratings of blocks.
pub open spec fn max_keys(entries: Seq<BlockEntry>) -> Seq<nat> {
    entries.map_values(|e: BlockEntry| e.max_rating as nat)
}

/// The lowest ratings of blocks.
pub open spec fn min_keys(entries: Seq<BlockEntry>) -> Seq<nat> {
    entries.map_values(|e: BlockEntry| e.min_rating as nat)
}

/// The content of a block: its bytes in the file, decompressed.
pub open spec fn payload_of(data: Seq<u8>, entries: Seq<BlockEntry>, i: nat) -> Result<
    Seq<u8>,
    DbError,
> {
    if i >= entries.len() {
        Err(DbError::BlockOutOfBounds)
    } else {
        let e = entries[i as int];
        let end = e.file_offset + e.compressed_size;
        if end > data.len() {
            Err(DbError::BlockTooLong)
        } else {
            match zstd_content(data.subrange(e.file_offset as int, end)) {
                None => Err(DbError::BadFrame),
                Some(content) => if content.len() != e.uncompressed_size {
                    Err(DbError::SizeMismatch)
                } else {
                    Ok(content)
                },
            }
        }
    }
}

/// The run of blocks that can hold puzzles of a rating range: from the first
/// whose highest rating reaches `min` to the last whose lowest is at most `max`.
pub open spec fn is_block_range(
    entries: Seq<BlockEntry>,
    min: u16,
    max: u16,
    start: int,
    end: int,
) -> bool {
    &&& is_cut(max_keys(entries), min as nat, start)
    &&& is_cut(min_keys(entries), (max + 1) as nat, end)
}

impl<'a> BlockFile<'a> {
    /// What the fields of an open file say of its bytes.
    pub open spec fn reads(&self, version: u32) -> bool {
        let data = self.data@;
        &&& file_fault(data, version) is None
        &&& self.puzzle_count == number_at(data, 8, 8)
        &&& self.block_size == number_at(data, 20, 4)
        &&& self.min_rating == number_at(data, 44, 2)
        &&& self.max_rating == number_at(data, 46, 2)
        &&& self.theme_dict@ == masks_at(
            data,
            number_at(data, 32, 8) as int,
            number_at(data, 40, 4),
        )
        &&& self.entries@.len() == number_at(data, 16, 4)
        &&& entries_at(self.entries@, data, number_at(data, 24, 8) as int)
    }

    /// Opens the bytes of a file of a version.
    pub fn open(data: &'a [u8], version: u32) -> (r: Result<Self, DbError>)
        ensures
            match r {
                Ok(f) => f.data@ == data@ && f.reads(version),
                Err(e) => file_fault(data@, version) == Some(e),
            },
    {
        if data.len() < 64 {
            return Err(DbError::TooSmall);
        }
        let start = take_four(data, 0);
        assert(data@.take(4) =~= data@.subrange(0, 4));
        if !is_magic(&start) {
            return Err(DbError::BadMagic);
        }
        proof {
            lemma_spans();
        }
        let found: u32 = take(data, 4, 4) as u32;
        if found != version {
            return Err(DbError::UnsupportedVersion(found));
        }
        let dict_offset: u64 = take(data, 32, 8) as u64;
        let dict_count: u32 = take(data, 40, 4) as u32;
        let dict_start: usize = match start_of(data.len(), dict_offset, dict_count as u64, 16) {
            Some(p) => p,
            None => {
                return Err(DbError::ThemeDictionaryTooLong);
            },
        };
        let index_offset: u64 = take(data, 24, 8) as u64;
        let block_count: u32 = take(data, 16, 4) as u32;
        let index_start: usize = match start_of(data.len(), index_offset, block_count as u64, 24) {
            Some(p) => p,
            None => {
                return Err(DbError::BlockIndexTooLong);
            },
        };
        let theme_dict = read_masks(data, dict_start, dict_count as usize);
        let count: usize = block_count as usize;
        let mut entries: Vec<BlockEntry> = Vec::new();
        for i in 0..count
            invariant
                index_start + count * 24 <= data.len(),
                entries@.len() == i,
                entries_at(entries@, data@, index_start as int),
        {
            let e = BlockEntry::read(data, index_start + i * 24);
            let ghost before = entries@;
            entries.push(e);
            assert forall|j: int| 0 <= j < entries@.len() implies #[trigger] entry_bytes(entries@[j])
                == slot(data@, index_start as int, 24, j) by {
                if j < i {
                    assert(entry_bytes(before[j]) == slot(data@, index_start as int, 24, j));
                }
            }
        }
        proof {
            lemma_spans();
        }
        Ok(
            BlockFile {
                data,
                puzzle_count: take(data, 8, 8) as u64,
                block_size: take(data, 20, 4) as u32,
                min_rating: take(data, 44, 2) as u16,
                max_rating: take(data, 46, 2) as u16,
                theme_dict,
                entries,
            },
        )
    }

    /// The content of a block.
    pub fn payload(&self, block_idx: usize) -> (r: Result<Vec<u8>, DbError>)
        ensures
            match r {
                Ok(v) => payload_of(self.data@, self.entries@, block_idx as nat) == Ok::<
                    Seq<u8>,
                    DbError,
                >(v@),
                Err(e) => payload_of(self.data@, self.entries@, block_idx as nat) == Err::<
                    Seq<u8>,
                    DbError,
                >(e),
            },
    {
        if block_idx >= self.entries.len() {
            return Err(DbError::BlockOutOfBounds);
        }
        let e = self.entries[block_idx];
        let end: u128 = (e.file_offset as u128) + (e.compressed_size as u128);
        if end > self.data.len() as u128 {
            return Err(DbError::BlockTooLong);
        }
        let frame = vstd::slice::slice_subrange(self.data, e.file_offset as usize, end as usize);
        match decompress(frame) {
            None => Err(DbError::BadFrame),
            Some(content) => {
                if content.len() as u64 != e.uncompressed_size as u64 {
                    Err(DbError::SizeMismatch)
                } else {
                    Ok(content)
                }
            },
        }
    }

    /// The number of puzzles.
    pub open spec fn size(&self) -> usize {
        self.puzzle_count as usize
    }

    /// The number of puzzles.
    pub fn len(&self) -> (r: usize)
        ensures
            r == self.size(),
    {
        self.puzzle_count as usize
    }

    /// The block of a puzzle and its place there; none where there is no such
    /// puzzle, or where blocks have no puzzles.
    pub fn locate(&self, puzzle_idx: usize) -> (r: Option<(usize, usize)>)
        ensures
            match r {
                Some((b, k)) => puzzle_idx < self.size() && self.block_size > 0 && b == puzzle_idx
                    / (self.block_size as usize) && k == puzzle_idx % (self.block_size as usize),
                None => puzzle_idx >= self.size() || self.block_size == 0,
            },
    {
        let size: usize = self.block_size as usize;
        if puzzle_idx >= self.len() || size == 0 {
            None
        } else {
            Some((puzzle_idx / size, puzzle_idx % size))
        }
    }

    /// The run of blocks that can hold puzzles of a rating range.
    pub fn block_range(&self, min: u16, max: u16) -> (r: (usize, usize))
        ensures
            is_block_range(self.entries@, min, max, r.0 as int, r.1 as int),
    {
        (self.cut_max(min as u32), self.cut_min(max as u32 + 1))
    }

    /// Where the blocks with a highest rating below a bound end.
    fn cut_max(&self, bound: u32) -> (r: usize)
        ensures
            is_cut(max_keys(self.entries@), bound as nat, r as int),
    {
        let ghost vals = max_keys(self.entries@);
        let mut lo: usize = 0;
        let mut hi: usize = self.entries.len();
        while lo < hi
            invariant
                vals == max_keys(self.entries@),
                lo <= hi <= self.entries@.len(),
                parted(vals, bound as nat) ==> forall|i: int|
                    0 <= i < lo ==> #[trigger] vals[i] < bound,
                parted(vals, bound as nat) ==> forall|i: int|
                    hi <= i < vals.len() ==> #[trigger] vals[i] >= bound,
            decreases hi - lo,
        {
            let mid: usize = lo + (hi - lo) / 2;
            assert(vals[mid as int] == self.entries@[mid as int].max_rating);
            if (self.entries[mid].max_rating as u32) < bound {
                lo = mid + 1;
            } else {
                hi = mid;
            }
        }
        lo
    }

    /// Where the blocks with a lowest rating below a bound end.
    fn cut_min(&self, bound: u32) -> (r: usize)
        ensures
            is_cut(min_keys(self.entries@), bound as nat, r as int),
    {
        let ghost vals = min_keys(self.entries@);
        let mut lo: usize = 0;
        let mut hi: usize = self.entries.len();
        while lo < hi
            invariant
                vals == min_keys(self.entries@),
                lo <= hi <= self.entries@.len(),
                parted(vals, bound as nat) ==> forall|i: int|
                    0 <= i < lo ==> #[trigger] vals[i] < bound,
                parted(vals, bound as nat) ==> forall|i: int|
                    hi <= i < vals.len() ==> #[trigger] vals[i] >= bound,
            decreases hi - lo,
        {
            let mid: usize = lo + (hi - lo) / 2;
            assert(vals[mid as int] == self.entries@[mid as int].min_rating);
            if (self.entries[mid].min_rating as u32) < bound {
                lo = mid + 1;
            } else {
                hi = mid;
            }
        }
        lo
    }
}

// ---------------------------------------------------------------------------
// Writing
// ---------------------------------------------------------------------------

/// A compressed block and what its entry says of it.
pub struct PackedBlock {
    pub frame: Vec<u8>,
    pub uncompressed_size: u32,
    pub puzzle_count: u16,
    pub min_rating: u16,
    pub max_rating: u16,
    pub flags: u16,
}

/// What a compressed block is.
#[verifier::ext_equal]
pub struct BlockModel {
    pub frame: Seq<u8>,
    pub uncompressed_size: u32,
    pub puzzle_count: u16,
    pub min_rating: u16,
    pub max_rating: u16,
    pub flags: u16,
}

impl View for PackedBlock {
    type V = BlockModel;

    open spec fn view(&self) -> BlockModel {
        BlockModel {
            frame: self.frame@,
            uncompressed_size: self.uncompressed_size,
            puzzle_count: self.puzzle_count,
            min_rating: self.min_rating,
            max_rating: self.max_rating,
            flags: self.flags,
        }
    }
}

/// The blocks of a list.
pub open spec fn block_models(v: Seq<PackedBlock>) -> Seq<BlockModel> {
    Seq::new(v.len(), |i: int| v[i]@)
}

/// The bytes of blocks one after the other.
pub open spec fn frames(blocks: Seq<BlockModel>) -> Seq<u8>
    decreases blocks.len(),
{
    if blocks.len() == 0 {
        Seq::empty()
    } else {
        frames(blocks.drop_last()) + blocks.last().frame
    }
}

/// The entry of a block that stands at an offset.
pub open spec fn entry_row(b: BlockModel, offset: nat) -> Seq<u8> {
    le(offset, 8) + le(b.frame.len(), 4) + le(b.uncompressed_size as nat, 4) + le(
        b.puzzle_count as nat,
        2,
    ) + le(b.min_rating as nat, 2) + le(b.max_rating as nat, 2) + le(b.flags as nat, 2)
}

/// The entries of blocks that stand one after the other from an offset on.
pub open spec fn entry_rows(blocks: Seq<BlockModel>, from: nat) -> Seq<u8>
    decreases blocks.len(),
{
    if blocks.len() == 0 {
        Seq::empty()
    } else {
        let init = blocks.drop_last();
        entry_rows(init, from) + entry_row(blocks.last(), from + frames(init).len())
    }
}

/// What the header of a file says besides its layout.
pub struct FileFacts {
    pub version: u32,
    pub puzzle_count: u64,
    pub block_size: u64,
    pub min_rating: u16,
    pub max_rating: u16,
    /// The first of the last sixteen bytes; the others are zero.
    pub tail: u8,
}

/// Sixteen bytes of which only the first may differ from zero.
pub open spec fn tail_bytes(first: u8) -> Seq<u8> {
    Seq::new(
        16,
        |i: int|
            if i == 0 {
                first
            } else {
                0
            },
    )
}

/// The header of a file with so many themes and blocks: the theme dictionary
/// stands behind it, the block index behind the dictionary.
pub open spec fn block_header(f: FileFacts, themes: nat, blocks: nat) -> Seq<u8> {
    magic() + le(f.version as nat, 4) + le(f.puzzle_count as nat, 8) + le(blocks, 4) + le(
        f.block_size as nat,
        4,
    ) + le(64 + themes * 16, 8) + le(64, 8) + le(themes, 4) + le(f.min_rating as nat, 2) + le(
        f.max_rating as nat,
        2,
    ) + tail_bytes(f.tail)
}

/// Where the first block of a file stands.
pub open spec fn blocks_from(themes: nat, blocks: nat) -> nat {
    64 + themes * 16 + blocks * 24
}

/// The bytes of a file.
#[verifier::opaque]
pub open spec fn block_file(f: FileFacts, dict: Seq<ThemeMask>, blocks: Seq<BlockModel>) -> Seq<u8> {
    block_header(f, dict.len(), blocks.len()) + le_all(mask_values(dict), 16) + entry_rows(
        blocks,
        blocks_from(dict.len(), blocks.len()),
    ) + frames(blocks)
}

fn write_header(out: &mut Vec<u8>, f: &FileFacts, themes: u64, blocks: u64)
    requires
        themes <= 0xFFFF_FFFF,
    ensures
        final(out)@ == old(out)@ + block_header(*f, themes as nat, blocks as nat),
{
    out.push(76);
    out.push(80);
    out.push(68);
    out.push(66);
    assert(out@ =~= old(out)@ + magic());
    put(out, f.version as u128, 4);
    put(out, f.puzzle_count as u128, 8);
    put(out, blocks as u128, 4);
    put(out, f.block_size as u128, 4);
    put(out, (64 + themes * 16) as u128, 8);
    put(out, 64, 8);
    put(out, themes as u128, 4);
    put(out, f.min_rating as u128, 2);
    put(out, f.max_rating as u128, 2);
    let ghost before = out@;
    out.push(f.tail);
    assert(out@ =~= before + tail_bytes(f.tail).take(1));
    for i in 1..16usize
        invariant
            out@ == before + tail_bytes(f.tail).take(i as int),
    {
        out.push(0);
        assert(out@ =~= before + tail_bytes(f.tail).take(i + 1));
    }
    assert(tail_bytes(f.tail).take(16) =~= tail_bytes(f.tail));
    assert(out@ =~= old(out)@ + block_header(*f, themes as nat, blocks as nat));
}

/// Appends the entry of a block.
fn write_entry(out: &mut Vec<u8>, b: &PackedBlock, offset: u64)
    ensures
        final(out)@ == old(out)@ + entry_row(b@, offset as nat),
{
    put(out, offset as u128, 8);
    put(out, b.frame.len() as u128, 4);
    put(out, b.uncompressed_size as u128, 4);
    put(out, b.puzzle_count as u128, 2);
    put(out, b.min_rating as u128, 2);
    put(out, b.max_rating as u128, 2);
    put(out, b.flags as u128, 2);
    assert(out@ =~= old(out)@ + entry_row(b@, offset as nat));
}

/// The bytes of a file of blocks; none where their offsets do not fit in 64 bits.
pub fn assemble(f: &FileFacts, dict: &[ThemeMask], blocks: &Vec<PackedBlock>) -> (r: Option<
    Vec<u8>,
>)
    requires
        dict@.len() <= 0xFFFF_FFFF,
        blocks@.len() <= 0xFFFF_FFFF,
    ensures
        match r {
            Some(v) => v@ == block_file(*f, dict@, block_models(blocks@)) && blocks_from(
                dict@.len(),
                blocks@.len(),
            ) + frames(block_models(blocks@)).len() <= 0xFFFF_FFFF_FFFF_FFFF,
            None => blocks_from(dict@.len(), blocks@.len()) + frames(block_models(blocks@)).len()
                > 0xFFFF_FFFF_FFFF_FFFF,
        },
{
    let ghost bs = block_models(blocks@);
    let mut out: Vec<u8> = Vec::new();
    let themes: u64 = dict.len() as u64;
    let count: u64 = blocks.len() as u64;
    write_header(&mut out, f, themes, count);
    assert(out@ =~= block_header(*f, dict@.len(), bs.len()));
    write_masks(&mut out, dict);
    let ghost head = out@;
    let from: u64 = 64 + themes * 16 + count * 24;
    let mut offset: u64 = from;
    assert(bs.take(0) =~= Seq::empty());
    for i in 0..blocks.len()
        invariant
            bs == block_models(blocks@),
            from == blocks_from(dict@.len(), blocks@.len()),
            out@ == head + entry_rows(bs.take(i as int), from as nat),
            offset == from + frames(bs.take(i as int)).len(),
    {
        proof {
            assert(bs.take(i + 1).drop_last() =~= bs.take(i as int));
            assert(bs.take(i + 1).last() == blocks@[i as int]@);
            lemma_frames_grow(bs, i + 1);
        }
        write_entry(&mut out, &blocks[i], offset);
        assert(out@ =~= head + entry_rows(bs.take(i + 1), from as nat));
        let size: u64 = blocks[i].frame.len() as u64;
        if size > 0xFFFF_FFFF_FFFF_FFFF - offset {
            return None;
        }
        offset = offset + size;
    }
    assert(bs.take(blocks@.len() as int) =~= bs);
    assert(blocks_from(dict@.len(), blocks@.len()) + frames(bs).len() <= 0xFFFF_FFFF_FFFF_FFFF);
    let ghost index = out@;
    for i in 0..blocks.len()
        invariant
            bs == block_models(blocks@),
            out@ == index + frames(bs.take(i as int)),
    {
        assert(bs.take(i + 1).drop_last() =~= bs.take(i as int));
        out.extend_from_slice(blocks[i].frame.as_slice());
        assert(out@ =~= index + frames(bs.take(i + 1)));
    }
    proof {
        reveal(block_file);
    }
    assert(out@ =~= block_file(*f, dict@, bs));
    Some(out)
}

proof fn lemma_frames_grow(blocks: Seq<BlockModel>, i: int)
    requires
        0 <= i <= blocks.len(),
    ensures
        frames(blocks.take(i)).len() <= frames(blocks).len(),
    decreases blocks.len(),
{
    if i < blocks.len() {
        lemma_frames_grow(blocks.drop_last(), i);
        assert(blocks.drop_last().take(i) =~= blocks.take(i));
    } else {
        assert(blocks.take(i) =~= blocks);
    }
}

// ---------------------------------------------------------------------------
// What is read of what was written
// ---------------------------------------------------------------------------

proof fn lemma_block_header(f: FileFacts, themes: nat, blocks: nat, rest: Seq<u8>)
    requires
        themes <= 0xFFFF_FFFF,
        blocks <= 0xFFFF_FFFF,
        f.block_size <= 0xFFFF_FFFF,
    ensures
        block_header(f, themes, blocks).len() == 64,
        ({
            let data = block_header(f, themes, blocks) + rest;
            &&& data.take(4) == magic()
            &&& number_at(data, 4, 4) == f.version
            &&& number_at(data, 8, 8) == f.puzzle_count
            &&& number_at(data, 16, 4) == blocks
            &&& number_at(data, 20, 4) == f.block_size
            &&& number_at(data, 24, 8) == 64 + themes * 16
            &&& number_at(data, 32, 8) == 64
            &&& number_at(data, 40, 4) == themes
            &&& number_at(data, 44, 2) == f.min_rating
            &&& number_at(data, 46, 2) == f.max_rating
            &&& data.subrange(48, 64) == tail_bytes(f.tail)
        }),
{
    lemma_spans();
    let h = block_header(f, themes, blocks);
    let data = h + rest;
    lemma_le(f.version as nat, 4);
    lemma_le(f.puzzle_count as nat, 8);
    lemma_le(blocks, 4);
    lemma_le(f.block_size as nat, 4);
    lemma_le(64 + themes * 16, 8);
    lemma_le(64, 8);
    lemma_le(themes, 4);
    lemma_le(f.min_rating as nat, 2);
    lemma_le(f.max_rating as nat, 2);
    assert(h.len() == 64);
    assert(data.take(4) =~= magic());
    assert(data.subrange(4, 8) =~= le(f.version as nat, 4));
    assert(data.subrange(8, 16) =~= le(f.puzzle_count as nat, 8));
    assert(data.subrange(16, 20) =~= le(blocks, 4));
    assert(data.subrange(20, 24) =~= le(f.block_size as nat, 4));
    assert(data.subrange(24, 32) =~= le(64 + themes * 16, 8));
    assert(data.subrange(32, 40) =~= le(64, 8));
    assert(data.subrange(40, 44) =~= le(themes, 4));
    assert(data.subrange(44, 46) =~= le(f.min_rating as nat, 2));
    assert(data.subrange(46, 48) =~= le(f.max_rating as nat, 2));
    assert(data.subrange(48, 64) =~= tail_bytes(f.tail));
}

proof fn lemma_entry_rows(blocks: Seq<BlockModel>, from: nat)
    ensures
        entry_rows(blocks, from).len() == blocks.len() * 24,
        forall|i: int|
            0 <= i < blocks.len() ==> #[trigger] slot(entry_rows(blocks, from), 0, 24, i)
                == entry_row(blocks[i], from + frames(blocks.take(i)).len()),
    decreases blocks.len(),
{
    if blocks.len() > 0 {
        let init = blocks.drop_last();
        let b = blocks.last();
        let at = from + frames(init).len();
        lemma_entry_rows(init, from);
        lemma_le(at, 8);
        lemma_le(b.frame.len(), 4);
        lemma_le(b.uncompressed_size as nat, 4);
        lemma_le(b.puzzle_count as nat, 2);
        lemma_le(b.min_rating as nat, 2);
        lemma_le(b.max_rating as nat, 2);
        lemma_le(b.flags as nat, 2);
        let row = entry_row(b, at);
        assert(row.len() == 24);
        let all = entry_rows(blocks, from);
        assert forall|i: int| 0 <= i < blocks.len() implies #[trigger] slot(all, 0, 24, i)
            == entry_row(blocks[i], from + frames(blocks.take(i)).len()) by {
            if i < init.len() {
                assert(slot(all, 0, 24, i) =~= slot(entry_rows(init, from), 0, 24, i));
                assert(blocks.take(i) =~= init.take(i));
            } else {
                assert(slot(all, 0, 24, i) =~= row);
                assert(blocks.take(i) =~= init);
            }
        }
    }
}

proof fn lemma_frame_at(blocks: Seq<BlockModel>, i: int)
    requires
        0 <= i < blocks.len(),
    ensures
        frames(blocks.take(i)).len() + blocks[i].frame.len() <= frames(blocks).len(),
        frames(blocks).subrange(
            frames(blocks.take(i)).len() as int,
            (frames(blocks.take(i)).len() + blocks[i].frame.len()) as int,
        ) == blocks[i].frame,
    decreases blocks.len(),
{
    let init = blocks.drop_last();
    if i < init.len() {
        lemma_frame_at(init, i);
        assert(init.take(i) =~= blocks.take(i));
        let a = frames(blocks.take(i)).len() as int;
        let b = a + blocks[i].frame.len();
        assert(frames(blocks).subrange(a, b) =~= frames(init).subrange(a, b));
    } else {
        assert(blocks.take(i) =~= init);
        let a = frames(init).len() as int;
        assert(frames(blocks).subrange(a, frames(blocks).len() as int) =~= blocks[i].frame);
    }
}

/// Sizes that the fields of a file can hold.
pub open spec fn file_holds(f: FileFacts, dict: Seq<ThemeMask>, blocks: Seq<BlockModel>) -> bool {
    &&& dict.len() <= 0xFFFF_FFFF
    &&& blocks.len() <= 0xFFFF_FFFF
    &&& f.block_size <= 0xFFFF_FFFF
    &&& blocks_from(dict.len(), blocks.len()) + frames(blocks).len() <= 0xFFFF_FFFF_FFFF_FFFF
    &&& forall|i: int| 0 <= i < blocks.len() ==> (#[trigger] blocks[i]).frame.len() <= 0xFFFF_FFFF
}

/// A file that was assembled opens without a fault: its header and its theme
/// dictionary are what was written.
pub proof fn law_file_opens(f: FileFacts, dict: Seq<ThemeMask>, blocks: Seq<BlockModel>)
    requires
        file_holds(f, dict, blocks),
    ensures
        ({
            let data = block_file(f, dict, blocks);
            &&& file_fault(data, f.version) is None
            &&& number_at(data, 8, 8) == f.puzzle_count
            &&& number_at(data, 16, 4) == blocks.len()
            &&& number_at(data, 20, 4) == f.block_size
            &&& number_at(data, 44, 2) == f.min_rating
            &&& number_at(data, 46, 2) == f.max_rating
            &&& data.subrange(48, 64) == tail_bytes(f.tail)
            &&& masks_at(data, number_at(data, 32, 8) as int, number_at(data, 40, 4)) == dict
        }),
{
    reveal(block_file);
    lemma_spans();
    let data = block_file(f, dict, blocks);
    let h = block_header(f, dict.len(), blocks.len());
    let d = le_all(mask_values(dict), 16);
    let from = blocks_from(dict.len(), blocks.len());
    let x = entry_rows(blocks, from);
    let p = frames(blocks);
    assert(data =~= h + (d + x + p));
    lemma_block_header(f, dict.len(), blocks.len(), d + x + p);
    assert(data =~= h + d + (x + p));
    lemma_masks_back(h, dict, x + p);
    lemma_entry_rows(blocks, from);
}

/// The entries of a file that was assembled say what its blocks are, and where
/// their bytes stand.
pub proof fn law_entries_back(
    f: FileFacts,
    dict: Seq<ThemeMask>,
    blocks: Seq<BlockModel>,
    entries: Seq<BlockEntry>,
)
    requires
        file_holds(f, dict, blocks),
        entries.len() == blocks.len(),
        entries_at(
            entries,
            block_file(f, dict, blocks),
            number_at(block_file(f, dict, blocks), 24, 8) as int,
        ),
    ensures
        ({
            let data = block_file(f, dict, blocks);
            forall|i: int|
                0 <= i < blocks.len() ==> {
                    let e = #[trigger] entries[i];
                    let b = blocks[i];
                    &&& e.uncompressed_size == b.uncompressed_size
                    &&& e.puzzle_count == b.puzzle_count
                    &&& e.min_rating == b.min_rating
                    &&& e.max_rating == b.max_rating
                    &&& e.reserved == b.flags
                    &&& e.compressed_size == b.frame.len()
                    &&& e.file_offset + e.compressed_size <= data.len()
                    &&& data.subrange(e.file_offset as int, e.file_offset + e.compressed_size)
                        == b.frame
                }
        }),
{
    reveal(block_file);
    lemma_spans();
    let data = block_file(f, dict, blocks);
    let h = block_header(f, dict.len(), blocks.len());
    let d = le_all(mask_values(dict), 16);
    let from = blocks_from(dict.len(), blocks.len());
    let x = entry_rows(blocks, from);
    let p = frames(blocks);
    assert(data =~= h + (d + x + p));
    lemma_block_header(f, dict.len(), blocks.len(), d + x + p);
    lemma_masks_back(h, dict, x + p);
    lemma_entry_rows(blocks, from);
    let at = (64 + dict.len() * 16) as int;
    assert forall|i: int| 0 <= i < blocks.len() implies {
        let e = #[trigger] entries[i];
        let b = blocks[i];
        &&& e.uncompressed_size == b.uncompressed_size
        &&& e.puzzle_count == b.puzzle_count
        &&& e.min_rating == b.min_rating
        &&& e.max_rating == b.max_rating
        &&& e.reserved == b.flags
        &&& e.compressed_size == b.frame.len()
        &&& e.file_offset + e.compressed_size <= data.len()
        &&& data.subrange(e.file_offset as int, e.file_offset + e.compressed_size) == b.frame
    } by {
        let e = entries[i];
        let b = blocks[i];
        let offset = from + frames(blocks.take(i)).len();
        assert(entry_bytes(e) == slot(data, at, 24, i));
        assert(slot(data, at, 24, i) =~= slot(x, 0, 24, i));
        lemma_frame_at(blocks, i);
        lemma_entry_of_row(e, b, offset);
        assert(data.subrange(offset as int, (offset + b.frame.len()) as int) =~= p.subrange(
            frames(blocks.take(i)).len() as int,
            (frames(blocks.take(i)).len() + b.frame.len()) as int,
        ));
    }
}

/// The entry of a row.
proof fn lemma_entry_of_row(e: BlockEntry, b: BlockModel, offset: nat)
    requires
        entry_bytes(e) == entry_row(b, offset),
        offset <= 0xFFFF_FFFF_FFFF_FFFF,
        b.frame.len() <= 0xFFFF_FFFF,
    ensures
        e.file_offset == offset,
        e.compressed_size == b.frame.len(),
        e.uncompressed_size == b.uncompressed_size,
        e.puzzle_count == b.puzzle_count,
        e.min_rating == b.min_rating,
        e.max_rating == b.max_rating,
        e.reserved == b.flags,
{
    lemma_spans();
    lemma_entry_fields(e);
    lemma_le(offset, 8);
    lemma_le(b.frame.len(), 4);
    lemma_le(b.uncompressed_size as nat, 4);
    lemma_le(b.puzzle_count as nat, 2);
    lemma_le(b.min_rating as nat, 2);
    lemma_le(b.max_rating as nat, 2);
    lemma_le(b.flags as nat, 2);
    let r = entry_row(b, offset);
    assert(r.subrange(0, 8) =~= le(offset, 8));
    assert(r.subrange(8, 12) =~= le(b.frame.len(), 4));
    assert(r.subrange(12, 16) =~= le(b.uncompressed_size as nat, 4));
    assert(r.subrange(16, 18) =~= le(b.puzzle_count as nat, 2));
    assert(r.subrange(18, 20) =~= le(b.min_rating as nat, 2));
    assert(r.subrange(20, 22) =~= le(b.max_rating as nat, 2));
    assert(r.subrange(22, 24) =~= le(b.flags as nat, 2));
}

/// The content of a block that was assembled is what its frame decompresses to.
pub proof fn law_payload_back(
    f: FileFacts,
    dict: Seq<ThemeMask>,
    blocks: Seq<BlockModel>,
    entries: Seq<BlockEntry>,
    i: int,
    content: Seq<u8>,
)
    requires
        file_holds(f, dict, blocks),
        entries.len() == blocks.len(),
        entries_at(
            entries,
            block_file(f, dict, blocks),
            number_at(block_file(f, dict, blocks), 24, 8) as int,
        ),
        0 <= i < blocks.len(),
        zstd_content(blocks[i].frame) == Some(content),
        content.len() == blocks[i].uncompressed_size,
    ensures
        payload_of(block_file(f, dict, blocks), entries, i as nat) == Ok::<Seq<u8>, DbError>(content),
{
    law_entries_back(f, dict, blocks, entries);
    assert(entries[i].compressed_size == blocks[i].frame.len());
}

} // verus!
