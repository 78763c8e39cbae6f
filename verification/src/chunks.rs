//! Puzzles in runs of the same length, the last perhaps shorter.

use vstd::prelude::*;

use crate::block_file::BlockModel;
use crate::builder::{first_rating, last_rating};
use crate::ingest::{item_ratings, ItemModel};
use crate::section::rising;

verus! {

/// How many runs there are.
pub open spec fn chunk_count(n: nat, size: nat) -> nat
    recommends
        size > 0,
{
    (n + size - 1) as nat / size
}

/// Where a run ends.
pub open spec fn chunk_end(n: nat, size: nat, i: int) -> int {
    if (i + 1) * size <= n {
        (i + 1) * size
    } else {
        n as int
    }
}

/// A run of puzzles.
pub open spec fn chunk_at(items: Seq<ItemModel>, size: nat, i: int) -> Seq<ItemModel> {
    items.subrange(i * size, chunk_end(items.len(), size, i))
}

/// The run `i` starts before the end of the puzzles where it is one of the runs,
/// and the first position behind the last run is no earlier than their end.
pub proof fn lemma_chunk_bounds(n: nat, size: nat, i: int)
    requires
        size > 0,
        0 <= i,
    ensures
        0 <= i * size,
        (i + 1) * size == i * size + size,
        i * size < n <==> i < chunk_count(n, size),
{
    let c = chunk_count(n, size) as int;
    vstd::arithmetic::div_mod::lemma_fundamental_div_mod(n + size - 1, size as int);
    let r = (n + size - 1) % size as int;
    vstd::arithmetic::div_mod::lemma_mod_bound(n + size - 1, size as int);
    assert(n + size - 1 == size * c + r);
    assert(0 <= i * size) by (nonlinear_arith)
        requires
            0 <= i,
    ;
    assert((i + 1) * size == i * size + size) by (nonlinear_arith);
    assert(size * c == c * size) by (nonlinear_arith);
    if i < c {
        assert((i + 1) * size <= c * size) by (nonlinear_arith)
            requires
                i + 1 <= c,
        ;
    } else {
        assert(i * size >= c * size) by (nonlinear_arith)
            requires
                i >= c,
        ;
    }
}

/// How many runs of some puzzles there are.
pub fn count_chunks(n: usize, size: usize) -> (r: usize)
    requires
        size > 0,
    ensures
        r == chunk_count(n as nat, size as nat),
{
    proof {
        let q = n as int / size as int;
        vstd::arithmetic::div_mod::lemma_fundamental_div_mod(n as int, size as int);
        vstd::arithmetic::div_mod::lemma_mod_bound(n as int, size as int);
        assert(size * q == q * size) by (nonlinear_arith);
        assert(0 <= q <= n) by (nonlinear_arith)
            requires
                q == n as int / size as int,
                size > 0,
        ;
        assert((q + 1) * size == q * size + size) by (nonlinear_arith);
        assert((q - 1) * size == q * size - size) by (nonlinear_arith);
        lemma_chunk_bounds(n as nat, size as nat, q);
        lemma_chunk_bounds(n as nat, size as nat, q + 1);
        if q > 0 {
            lemma_chunk_bounds(n as nat, size as nat, q - 1);
        }
        if n % size != 0 {
            assert(size > 1 ==> q < n) by (nonlinear_arith)
                requires
                    size > 1 ==> q * size <= n,
                    q >= 0,
                    n > 0,
            ;
        }
    }
    let whole: usize = n / size;
    if n % size == 0 {
        whole
    } else {
        whole + 1
    }
}

/// Every puzzle stands in the run of its index divided by the length, at the
/// remainder.
pub proof fn lemma_in_chunk(items: Seq<ItemModel>, size: nat, k: int)
    requires
        size > 0,
        0 <= k < items.len(),
    ensures
        0 <= k / size as int,
        (k / size as int) < chunk_count(items.len(), size),
        0 <= k % size as int,
        (k % size as int) < chunk_at(items, size, k / size as int).len(),
        chunk_at(items, size, k / size as int)[k % size as int] == items[k],
{
    let i = k / size as int;
    let j = k % size as int;
    vstd::arithmetic::div_mod::lemma_fundamental_div_mod(k, size as int);
    vstd::arithmetic::div_mod::lemma_mod_bound(k, size as int);
    vstd::arithmetic::div_mod::lemma_div_pos_is_pos(k, size as int);
    assert(size * i == i * size) by (nonlinear_arith);
    assert(k == i * size + j);
    lemma_chunk_bounds(items.len(), size, i);
}

/// The ratings of a run of puzzles that rise by rating lie between those of its
/// first and its last.
pub proof fn lemma_chunk_ratings(items: Seq<ItemModel>, size: nat, i: int, k: int)
    requires
        size > 0,
        rising(item_ratings(items)),
        0 <= i < chunk_count(items.len(), size),
        0 <= k < chunk_at(items, size, i).len(),
    ensures
        first_rating(chunk_at(items, size, i)) <= chunk_at(items, size, i)[k].rating,
        chunk_at(items, size, i)[k].rating <= last_rating(chunk_at(items, size, i)),
{
    lemma_chunk_bounds(items.len(), size, i);
    let from = i * size;
    let end = chunk_end(items.len(), size, i);
    let chunk = chunk_at(items, size, i);
    let all = item_ratings(items);
    assert(all[from] == chunk[0].rating);
    assert(all[from + k] == chunk[k].rating);
    assert(all[end - 1] == chunk.last().rating);
}

/// The first and the last ratings of runs of puzzles that rise by rating rise.
pub proof fn lemma_chunks_rise(items: Seq<ItemModel>, size: nat, i: int, j: int)
    requires
        size > 0,
        rising(item_ratings(items)),
        0 <= i <= j < chunk_count(items.len(), size),
    ensures
        first_rating(chunk_at(items, size, i)) <= first_rating(chunk_at(items, size, j)),
        last_rating(chunk_at(items, size, i)) <= last_rating(chunk_at(items, size, j)),
{
    lemma_chunk_bounds(items.len(), size, i);
    lemma_chunk_bounds(items.len(), size, j);
    assert(i * size <= j * size) by (nonlinear_arith)
        requires
            i <= j,
    ;
    let all = item_ratings(items);
    let a = chunk_at(items, size, i);
    let b = chunk_at(items, size, j);
    let from_a = i * size;
    let from_b = j * size;
    let end_a = chunk_end(items.len(), size, i);
    let end_b = chunk_end(items.len(), size, j);
    assert(all[from_a] == a[0].rating);
    assert(all[from_b] == b[0].rating);
    assert(all[end_a - 1] == a.last().rating);
    assert(all[end_b - 1] == b.last().rating);
}

/// Whether there is a block for every run.
pub open spec fn all_packed(blocks: Seq<Option<BlockModel>>) -> bool {
    forall|i: int| 0 <= i < blocks.len() ==> (#[trigger] blocks[i]) is Some
}

/// The blocks of the runs.
pub open spec fn packed(blocks: Seq<Option<BlockModel>>) -> Seq<BlockModel> {
    Seq::new(blocks.len(), |i: int| blocks[i]->0)
}

/// The sizes of the contents of blocks, summed.
pub open spec fn content_size(blocks: Seq<BlockModel>) -> nat
    decreases blocks.len(),
{
    if blocks.len() == 0 {
        0
    } else {
        content_size(blocks.drop_last()) + blocks.last().uncompressed_size as nat
    }
}

} // verus!
