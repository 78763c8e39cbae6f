//! The parts of a database file: theme dictionaries and move pools as runs of
//! integers, and whether a part lies inside the file.

use vstd::prelude::*;

use crate::moves::PackedMove;
use crate::theme::ThemeMask;
use crate::wire::{cell, le_all, lemma_column, lemma_spans, put, slot, take};

verus! {

/// Why bytes are no database, or hold no block of one.
#[derive(Debug, Clone, Copy, PartialEq, Eq)]
pub enum DbError {
    /// The file is too small for a header.
    TooSmall,
    /// The file does not start with the magic bytes.
    BadMagic,
    /// The file has another format version.
    UnsupportedVersion(u32),
    /// The theme dictionary exceeds the file.
    ThemeDictionaryTooLong,
    /// The records exceed the file.
    RecordsTooLong,
    /// The move pool exceeds the file.
    MovePoolTooLong,
    /// The block index exceeds the file.
    BlockIndexTooLong,
    /// There is no block of this number.
    BlockOutOfBounds,
    /// The bytes of a block exceed the file.
    BlockTooLong,
    /// The bytes of a block cannot be decompressed.
    BadFrame,
    /// A block has another size than its entry says.
    SizeMismatch,
    /// The content of a block ends too early.
    UnexpectedEnd,
    /// The records of a block exceed its content.
    RecordsOverflow,
    /// The moves of a block exceed its content.
    MovesOverflow,
}

/// Whether `count` rows of `w` bytes from an offset on lie inside `size` bytes.
pub open spec fn inside(size: nat, offset: nat, count: nat, w: nat) -> bool {
    offset + count * w <= size
}

/// Where rows start, if they lie inside `size` bytes.
pub fn start_of(size: usize, offset: u64, count: u64, w: u64) -> (r: Option<usize>)
    requires
        0 < w <= 64,
    ensures
        match r {
            Some(p) => inside(size as nat, offset as nat, count as nat, w as nat) && p == offset,
            None => !inside(size as nat, offset as nat, count as nat, w as nat),
        },
{
    assert(count * w <= 0xFFFF_FFFF_FFFF_FFFF * 64) by (nonlinear_arith)
        requires
            0 <= count <= 0xFFFF_FFFF_FFFF_FFFF,
            0 < w <= 64,
    ;
    assert(0 <= count * w) by (nonlinear_arith)
        requires
            0 <= count,
            0 < w,
    ;
    let bytes: u128 = (count as u128) * (w as u128);
    let end: u128 = (offset as u128) + bytes;
    if end <= size as u128 {
        Some(offset as usize)
    } else {
        None
    }
}

/// The numbers of masks.
pub open spec fn mask_values(masks: Seq<ThemeMask>) -> Seq<nat> {
    masks.map_values(|m: ThemeMask| m.0 as nat)
}

/// The numbers of moves.
pub open spec fn move_values(moves: Seq<PackedMove>) -> Seq<nat> {
    moves.map_values(|m: PackedMove| m.0 as nat)
}

/// The `n` masks at a position.
pub open spec fn masks_at(data: Seq<u8>, pos: int, n: nat) -> Seq<ThemeMask> {
    Seq::new(n, |i: int| ThemeMask(cell(data, pos, 16, i) as u128))
}

/// The `n` moves at a position.
pub open spec fn moves_at(data: Seq<u8>, pos: int, n: nat) -> Seq<PackedMove> {
    Seq::new(n, |i: int| PackedMove(cell(data, pos, 2, i) as u16))
}

/// Reads the `n` masks at a position.
pub fn read_masks(data: &[u8], pos: usize, n: usize) -> (r: Vec<ThemeMask>)
    requires
        pos + n * 16 <= data.len(),
    ensures
        r@ == masks_at(data@, pos as int, n as nat),
{
    let mut out: Vec<ThemeMask> = Vec::new();
    for i in 0..n
        invariant
            pos + n * 16 <= data.len(),
            out@ == masks_at(data@, pos as int, i as nat),
    {
        out.push(ThemeMask(take(data, pos + i * 16, 16)));
        assert(slot(data@, pos as int, 16, i as int) =~= data@.subrange(
            pos + i * 16,
            pos + i * 16 + 16,
        ));
        assert(out@ =~= masks_at(data@, pos as int, (i + 1) as nat));
    }
    out
}

/// Reads the `n` moves at a position.
pub fn read_moves(data: &[u8], pos: usize, n: usize) -> (r: Vec<PackedMove>)
    requires
        pos + n * 2 <= data.len(),
    ensures
        r@ == moves_at(data@, pos as int, n as nat),
{
    let mut out: Vec<PackedMove> = Vec::new();
    proof {
        lemma_spans();
    }
    for i in 0..n
        invariant
            pos + n * 2 <= data.len(),
            out@ == moves_at(data@, pos as int, i as nat),
    {
        proof {
            lemma_spans();
        }
        out.push(PackedMove(take(data, pos + i * 2, 2) as u16));
        assert(slot(data@, pos as int, 2, i as int) =~= data@.subrange(
            pos + i * 2,
            pos + i * 2 + 2,
        ));
        assert(out@ =~= moves_at(data@, pos as int, (i + 1) as nat));
    }
    out
}

/// Appends masks.
pub fn write_masks(out: &mut Vec<u8>, masks: &[ThemeMask])
    ensures
        final(out)@ == old(out)@ + le_all(mask_values(masks@), 16),
{
    for i in 0..masks.len()
        invariant
            out@ == old(out)@ + le_all(mask_values(masks@).take(i as int), 16),
    {
        let ghost vals = mask_values(masks@);
        put(out, masks[i].0, 16);
        assert(vals.take(i + 1).drop_last() =~= vals.take(i as int));
        assert(out@ =~= old(out)@ + le_all(vals.take(i + 1), 16));
    }
    assert(mask_values(masks@).take(masks@.len() as int) =~= mask_values(masks@));
}

/// Appends moves.
pub fn write_moves(out: &mut Vec<u8>, moves: &[PackedMove])
    ensures
        final(out)@ == old(out)@ + le_all(move_values(moves@), 2),
{
    for i in 0..moves.len()
        invariant
            out@ == old(out)@ + le_all(move_values(moves@).take(i as int), 2),
    {
        let ghost vals = move_values(moves@);
        put(out, moves[i].0 as u128, 2);
        assert(vals.take(i + 1).drop_last() =~= vals.take(i as int));
        assert(out@ =~= old(out)@ + le_all(vals.take(i + 1), 2));
    }
    assert(move_values(moves@).take(moves@.len() as int) =~= move_values(moves@));
}

/// Masks that were written are read back, whatever stands around them.
pub proof fn lemma_masks_back(pre: Seq<u8>, masks: Seq<ThemeMask>, post: Seq<u8>)
    ensures
        masks_at(
            pre + le_all(mask_values(masks), 16) + post,
            pre.len() as int,
            masks.len(),
        ) == masks,
        le_all(mask_values(masks), 16).len() == masks.len() * 16,
{
    lemma_spans();
    let vals = mask_values(masks);
    lemma_column(pre, vals, 16, post);
    let data = pre + le_all(vals, 16) + post;
    let col = crate::wire::column(data, pre.len() as int, vals.len(), 16);
    assert forall|i: int| 0 <= i < masks.len() implies #[trigger] masks_at(
        data,
        pre.len() as int,
        masks.len(),
    )[i] == masks[i] by {
        assert(col[i] == vals[i]);
    }
    assert(masks_at(data, pre.len() as int, masks.len()) =~= masks);
}

/// Moves that were written are read back, whatever stands around them.
pub proof fn lemma_moves_back(pre: Seq<u8>, moves: Seq<PackedMove>, post: Seq<u8>)
    ensures
        moves_at(
            pre + le_all(move_values(moves), 2) + post,
            pre.len() as int,
            moves.len(),
        ) == moves,
        le_all(move_values(moves), 2).len() == moves.len() * 2,
{
    lemma_spans();
    let vals = move_values(moves);
    lemma_column(pre, vals, 2, post);
    let data = pre + le_all(vals, 2) + post;
    let col = crate::wire::column(data, pre.len() as int, vals.len(), 2);
    assert forall|i: int| 0 <= i < moves.len() implies #[trigger] moves_at(
        data,
        pre.len() as int,
        moves.len(),
    )[i] == moves[i] by {
        assert(col[i] == vals[i]);
    }
    assert(moves_at(data, pre.len() as int, moves.len()) =~= moves);
}

// ---------------------------------------------------------------------------
// Cuts
// ---------------------------------------------------------------------------

/// No key below a bound comes after one that is not.
pub open spec fn parted(keys: Seq<nat>, bound: nat) -> bool {
    forall|i: int, j: int|
        0 <= i <= j < keys.len() && #[trigger] keys[j] < bound ==> #[trigger] keys[i] < bound
}

/// Where the keys below a bound end; of keys that are not parted by the bound it
/// is only some position.
pub open spec fn is_cut(keys: Seq<nat>, bound: nat, k: int) -> bool {
    &&& 0 <= k <= keys.len()
    &&& parted(keys, bound) ==> forall|i: int|
        0 <= i < keys.len() ==> (#[trigger] keys[i] < bound <==> i < k)
}

/// Keys that do not fall are parted by every bound.
pub open spec fn rising(keys: Seq<nat>) -> bool {
    forall|i: int, j: int| 0 <= i <= j < keys.len() ==> #[trigger] keys[i] <= #[trigger] keys[j]
}

} // verus!
