//! What follows the puzzles of a block: identifiers that are not five letters and
//! digits, as texts, and the fullmove numbers.
//!
//! The identifiers are a 16-bit number of them, then each behind a byte with its
//! length. The fullmove numbers follow, two bytes each. Fullmove numbers that are
//! all one are not written, and where there are no such identifiers either,
//! nothing is.

use vstd::prelude::*;

use crate::columns::{
    byte_text, labelled, labelled_bytes, law_text_bytes, lemma_column_front, lemma_labelled_back,
    lemma_labelled_push, text_of_bytes,
};
use crate::db::number_at;
use crate::id::{encode_base62_id, id_number, is_standard_base62_5char, standard_id};
use crate::ingest::{models, ItemModel, ParsedItem};
use crate::text::{texts, utf8};
use crate::wire::{cell, column, le, le_all, lemma_le, lemma_spans, put, slot, take};

verus! {

/// The identifiers that are not five letters and digits.
pub open spec fn odd_ids(items: Seq<ItemModel>) -> Seq<Seq<char>>
    decreases items.len(),
{
    if items.len() == 0 {
        Seq::empty()
    } else if standard_id(items.last().id) {
        odd_ids(items.drop_last())
    } else {
        odd_ids(items.drop_last()).push(items.last().id)
    }
}

/// The number that stands for the identifier of a puzzle: that of its five digits,
/// or, with the highest bit set, how many of the others come before it.
pub open spec fn id_cell(items: Seq<ItemModel>, k: int) -> nat {
    if standard_id(items[k].id) {
        id_number(items[k].id)
    } else {
        0x8000_0000 + odd_ids(items.take(k)).len() % 0x8000_0000
    }
}

/// The numbers that stand for the identifiers.
pub open spec fn id_column(items: Seq<ItemModel>) -> Seq<nat> {
    Seq::new(items.len(), |k: int| id_cell(items, k))
}

/// The fullmove numbers.
pub open spec fn fullmove_column(items: Seq<ItemModel>) -> Seq<u16> {
    items.map_values(|m: ItemModel| m.fullmove)
}

/// The first 255 bytes of a text.
pub open spec fn cut_bytes(s: Seq<char>) -> Seq<u8> {
    if utf8(s).len() <= 255 {
        utf8(s)
    } else {
        utf8(s).take(255)
    }
}

/// The bytes of texts, at most 255 of each.
pub open spec fn cut_parts(ids: Seq<Seq<char>>) -> Seq<Seq<u8>> {
    ids.map_values(|s: Seq<char>| cut_bytes(s))
}

/// The texts of runs of bytes.
pub open spec fn byte_texts(parts: Seq<Seq<u8>>) -> Seq<Seq<char>> {
    parts.map_values(|p: Seq<u8>| byte_text(p))
}

/// Whether all numbers are one.
pub open spec fn all_one(v: Seq<u16>) -> bool {
    forall|i: int| 0 <= i < v.len() ==> #[trigger] v[i] == 1
}

/// The number one, `n` times.
pub open spec fn ones(n: nat) -> Seq<u16> {
    Seq::new(n, |i: int| 1u16)
}

/// Numbers without a width.
pub open spec fn nats(v: Seq<u16>) -> Seq<nat> {
    v.map_values(|x: u16| x as nat)
}

/// The bytes behind the puzzles of a block.
pub open spec fn appendix_bytes(ids: Seq<Seq<char>>, fullmoves: Seq<u16>) -> Seq<u8> {
    if ids.len() == 0 && all_one(fullmoves) {
        Seq::empty()
    } else {
        le(ids.len(), 2) + (labelled_bytes(cut_parts(ids)) + if all_one(fullmoves) {
            Seq::empty()
        } else {
            le_all(nats(fullmoves), 2)
        })
    }
}

/// The bytes behind the puzzles of a block.
pub open spec fn appendix_of(items: Seq<ItemModel>) -> Seq<u8> {
    appendix_bytes(odd_ids(items), fullmove_column(items))
}

/// What the bytes behind the puzzles of a block say.
#[verifier::ext_equal]
pub struct AppendixModel {
    pub ids: Seq<Seq<char>>,
    pub fullmoves: Seq<u16>,
}

/// No identifiers as texts, and fullmove numbers that are all one.
pub open spec fn no_appendix(n: nat) -> AppendixModel {
    AppendixModel { ids: Seq::empty(), fullmoves: ones(n) }
}

/// The fullmove numbers of `n` puzzles from a position on; one each where they are
/// not there.
pub open spec fn fullmoves_at(data: Seq<u8>, pos: int, n: nat) -> Seq<u16> {
    if pos + 2 * n <= data.len() {
        Seq::new(n, |i: int| cell(data, pos, 2, i) as u16)
    } else {
        ones(n)
    }
}

/// What stands behind the `n` puzzles of a block. There is nothing where not even
/// two bytes are left; none where the identifiers run past the end.
pub open spec fn appendix_at(data: Seq<u8>, pos: int, n: nat) -> Option<AppendixModel> {
    if pos + 2 > data.len() {
        Some(no_appendix(n))
    } else {
        match labelled(data, pos + 2, number_at(data, pos, 2)) {
            Some(parts) => Some(
                AppendixModel {
                    ids: byte_texts(parts),
                    fullmoves: fullmoves_at(
                        data,
                        pos + 2 + labelled_bytes(parts).len(),
                        n,
                    ),
                },
            ),
            None => None,
        }
    }
}

/// What stands behind the puzzles of a block.
pub struct Appendix {
    pub ids: Vec<String>,
    pub fullmoves: Vec<u16>,
}

impl View for Appendix {
    type V = AppendixModel;

    open spec fn view(&self) -> AppendixModel {
        AppendixModel { ids: texts(self.ids@), fullmoves: self.fullmoves@ }
    }
}

/// The numbers that stand for the identifiers of puzzles, and which puzzles have
/// identifiers that stand as texts.
pub fn number_ids(chunk: &[ParsedItem]) -> (r: (Vec<u32>, Vec<usize>))
    ensures
        r.0@.len() == chunk@.len(),
        forall|k: int| 0 <= k < r.0@.len() ==> #[trigger] r.0@[k] == id_cell(models(chunk@), k),
        are_odd(r.1@, chunk@),
{
    let ghost its = models(chunk@);
    let mut nums: Vec<u32> = Vec::new();
    let mut odd: Vec<usize> = Vec::new();
    assert(its.take(0) =~= Seq::empty());
    for i in 0..chunk.len()
        invariant
            its == models(chunk@),
            nums@.len() == i,
            forall|k: int| 0 <= k < i ==> #[trigger] nums@[k] == id_cell(its, k),
            odd@.len() == odd_ids(its.take(i as int)).len(),
            odd@.len() <= i,
            forall|j: int|
                0 <= j < odd@.len() ==> (#[trigger] odd@[j]) < i && chunk@[odd@[j] as int].id@
                    == odd_ids(its.take(i as int))[j],
    {
        let item = &chunk[i];
        let ghost odd_was = odd@;
        proof {
            assert(its.take(i + 1).drop_last() =~= its.take(i as int));
            assert(its.take(i + 1).last() == item@);
        }
        if is_standard_base62_5char(item.id.as_str()) {
            nums.push(encode_base62_id(item.id.as_str()));
        } else {
            let rank: u64 = odd.len() as u64 % 0x8000_0000;
            nums.push((0x8000_0000 + rank) as u32);
            odd.push(i);
            assert forall|j: int| 0 <= j < odd@.len() implies (#[trigger] odd@[j]) < i + 1
                && chunk@[odd@[j] as int].id@ == odd_ids(its.take(i + 1))[j] by {
                if j < odd_was.len() {
                    assert(odd_was[j] < i);
                }
            }
        }
    }
    assert(its.take(chunk@.len() as int) =~= its);
    (nums, odd)
}

/// The indices of the puzzles whose identifiers stand as texts.
pub open spec fn are_odd(odd: Seq<usize>, chunk: Seq<ParsedItem>) -> bool {
    &&& odd.len() == odd_ids(models(chunk)).len()
    &&& forall|j: int|
        0 <= j < odd.len() ==> (#[trigger] odd[j]) < chunk.len() && chunk[odd[j] as int].id@
            == odd_ids(models(chunk))[j]
}

/// Whether the fullmove numbers of puzzles are all one.
fn all_first(chunk: &[ParsedItem]) -> (r: bool)
    ensures
        r == all_one(fullmove_column(models(chunk@))),
{
    let ghost full = fullmove_column(models(chunk@));
    for i in 0..chunk.len()
        invariant
            full == fullmove_column(models(chunk@)),
            forall|j: int| 0 <= j < i ==> #[trigger] full[j] == 1,
    {
        assert(full[i as int] == chunk@[i as int].fen_fullmove);
        if chunk[i].fen_fullmove != 1 {
            return false;
        }
    }
    true
}

/// Appends the identifiers that stand as texts.
fn write_odd(out: &mut Vec<u8>, chunk: &[ParsedItem], odd: &Vec<usize>)
    requires
        are_odd(odd@, chunk@),
    ensures
        final(out)@ == old(out)@ + labelled_bytes(cut_parts(odd_ids(models(chunk@)))),
{
    let ghost ids = odd_ids(models(chunk@));
    let ghost parts = cut_parts(ids);
    let ghost head = out@;
    assert(parts.take(0) =~= Seq::empty());
    assert(out@ =~= head + labelled_bytes(parts.take(0)));
    for j in 0..odd.len()
        invariant
            are_odd(odd@, chunk@),
            ids == odd_ids(models(chunk@)),
            parts == cut_parts(ids),
            out@ == head + labelled_bytes(parts.take(j as int)),
    {
        let k: usize = odd[j];
        assert(k < chunk@.len() && chunk@[k as int].id@ == ids[j as int]);
        let bytes = chunk[k].id.as_str().as_bytes();
        let len: usize = if bytes.len() <= 255 {
            bytes.len()
        } else {
            255
        };
        let cut = vstd::slice::slice_subrange(bytes, 0, len);
        proof {
            assert(cut@ =~= cut_bytes(ids[j as int]));
            assert(parts.take(j + 1) =~= parts.take(j as int).push(cut@));
            lemma_labelled_push(parts.take(j as int), cut@);
        }
        let ghost was = out@;
        out.push(len as u8);
        out.extend_from_slice(cut);
        assert(out@ =~= was + (seq![cut@.len() as u8] + cut@));
        assert(out@ =~= head + labelled_bytes(parts.take(j + 1)));
    }
    assert(parts.take(odd@.len() as int) =~= parts);
}

/// Appends the fullmove numbers.
fn write_fullmoves(out: &mut Vec<u8>, chunk: &[ParsedItem])
    ensures
        final(out)@ == old(out)@ + le_all(nats(fullmove_column(models(chunk@))), 2),
{
    let ghost vals = nats(fullmove_column(models(chunk@)));
    let ghost head = out@;
    assert(vals.take(0) =~= Seq::empty());
    assert(out@ =~= head + le_all(vals.take(0), 2));
    for i in 0..chunk.len()
        invariant
            vals == nats(fullmove_column(models(chunk@))),
            out@ == head + le_all(vals.take(i as int), 2),
    {
        assert(vals.take(i + 1).drop_last() =~= vals.take(i as int));
        assert(vals.take(i + 1).last() == chunk@[i as int].fen_fullmove);
        put(out, chunk[i].fen_fullmove as u128, 2);
        assert(out@ =~= head + le_all(vals.take(i + 1), 2));
    }
    assert(vals.take(chunk@.len() as int) =~= vals);
}

/// Appends what follows the puzzles of a block.
pub fn write_appendix(out: &mut Vec<u8>, chunk: &[ParsedItem], odd: &Vec<usize>)
    requires
        are_odd(odd@, chunk@),
    ensures
        final(out)@ == old(out)@ + appendix_of(models(chunk@)),
{
    let ghost its = models(chunk@);
    let plain = all_first(chunk);
    if odd.len() == 0 && plain {
        assert(out@ =~= old(out)@ + appendix_of(its));
        return;
    }
    put(out, odd.len() as u128, 2);
    write_odd(out, chunk, odd);
    if !plain {
        write_fullmoves(out, chunk);
    }
    assert(out@ =~= old(out)@ + appendix_of(its));
}

/// Reads the identifiers that stand as texts, and where they end.
fn read_odd(data: &[u8], pos: usize, n: u16) -> (r: Option<(Vec<String>, usize)>)
    requires
        pos <= data.len(),
    ensures
        match r {
            Some((v, end)) => {
                &&& labelled(data@, pos as int, n as nat) matches Some(parts)
                &&& texts(v@) == byte_texts(parts)
                &&& end == pos + labelled_bytes(parts).len()
                &&& end <= data.len()
            },
            None => labelled(data@, pos as int, n as nat) is None,
        },
{
    let mut out: Vec<String> = Vec::new();
    let ghost whole = labelled(data@, pos as int, n as nat);
    let ghost mut done: Seq<Seq<u8>> = Seq::empty();
    let mut at: usize = pos;
    let mut i: u16 = 0;
    proof {
        match whole {
            Some(parts) => {
                assert(done + parts =~= parts);
            },
            None => {},
        }
        assert(texts(out@) =~= byte_texts(done));
    }
    while i < n
        invariant
            i <= n,
            at <= data.len(),
            whole == labelled(data@, pos as int, n as nat),
            texts(out@) == byte_texts(done),
            at == pos + labelled_bytes(done).len(),
            whole == (match labelled(data@, at as int, (n - i) as nat) {
                Some(rest) => Some(done + rest),
                None => None,
            }),
        decreases n - i,
    {
        if at == data.len() {
            return None;
        }
        let len: usize = data[at] as usize;
        if data.len() - at - 1 < len {
            return None;
        }
        let bytes = vstd::slice::slice_subrange(data, at + 1, at + 1 + len);
        let s = text_of_bytes(bytes);
        let ghost before = texts(out@);
        out.push(s);
        proof {
            let next = at + 1 + len;
            match labelled(data@, next, (n - i - 1) as nat) {
                Some(rest) => {
                    assert(done + (seq![bytes@] + rest) =~= done.push(bytes@) + rest);
                },
                None => {},
            }
            assert(texts(out@) =~= before.push(s@));
            assert(byte_texts(done.push(bytes@)) =~= before.push(s@));
            lemma_labelled_push(done, bytes@);
            done = done.push(bytes@);
        }
        at = at + 1 + len;
        i = i + 1;
    }
    assert(done + Seq::<Seq<u8>>::empty() =~= done);
    Some((out, at))
}

/// Reads the fullmove numbers of `n` puzzles.
fn read_fullmoves(data: &[u8], pos: usize, n: usize) -> (r: Vec<u16>)
    requires
        pos <= data.len(),
    ensures
        r@ == fullmoves_at(data@, pos as int, n as nat),
{
    let there = n <= (data.len() - pos) / 2;
    let ghost all = fullmoves_at(data@, pos as int, n as nat);
    let mut out: Vec<u16> = Vec::new();
    for i in 0..n
        invariant
            pos <= data.len(),
            there == (pos + 2 * n <= data.len()),
            all == fullmoves_at(data@, pos as int, n as nat),
            out@ == all.take(i as int),
    {
        let v: u16 = if there {
            proof {
                lemma_spans();
                assert(slot(data@, pos as int, 2, i as int) =~= data@.subrange(
                    pos + i * 2,
                    pos + i * 2 + 2,
                ));
            }
            take(data, pos + i * 2, 2) as u16
        } else {
            1
        };
        assert(v == all[i as int]);
        out.push(v);
        assert(out@ =~= all.take(i + 1));
    }
    assert(all.take(n as int) =~= all);
    out
}

/// Reads what stands behind the `n` puzzles of a block.
pub fn read_appendix(data: &[u8], pos: usize, n: usize) -> (r: Option<Appendix>)
    requires
        pos <= data.len(),
    ensures
        match r {
            Some(a) => appendix_at(data@, pos as int, n as nat) == Some(a@),
            None => appendix_at(data@, pos as int, n as nat) is None,
        },
{
    if data.len() - pos < 2 {
        return Some(empty_appendix(n));
    }
    proof {
        lemma_spans();
    }
    let count: u16 = take(data, pos, 2) as u16;
    match read_odd(data, pos + 2, count) {
        Some((ids, end)) => {
            let a = Appendix { ids, fullmoves: read_fullmoves(data, end, n) };
            assert(a@ =~= appendix_at(data@, pos as int, n as nat)->0);
            Some(a)
        },
        None => None,
    }
}

/// No identifiers as texts, and fullmove numbers that are all one.
pub fn empty_appendix(n: usize) -> (r: Appendix)
    ensures
        r@ == no_appendix(n as nat),
{
    let mut fullmoves: Vec<u16> = Vec::new();
    for i in 0..n
        invariant
            fullmoves@ == ones(i as nat),
    {
        fullmoves.push(1);
        assert(fullmoves@ =~= ones((i + 1) as nat));
    }
    let a = Appendix { ids: Vec::new(), fullmoves };
    assert(a@ =~= no_appendix(n as nat));
    a
}

// ---------------------------------------------------------------------------
// Laws
// ---------------------------------------------------------------------------

/// What was written behind puzzles is read back: the identifiers, up to 255 bytes of
/// each, and the fullmove numbers.
pub proof fn law_appendix_back(data: Seq<u8>, pos: int, items: Seq<ItemModel>)
    requires
        0 <= pos <= data.len(),
        data.skip(pos) == appendix_of(items),
        odd_ids(items).len() <= 65535,
    ensures
        appendix_at(data, pos, items.len()) == Some(
            AppendixModel {
                ids: byte_texts(cut_parts(odd_ids(items))),
                fullmoves: fullmove_column(items),
            },
        ),
{
    lemma_spans();
    let n = items.len();
    let ids = odd_ids(items);
    let full = fullmove_column(items);
    let parts = cut_parts(ids);
    if ids.len() == 0 && all_one(full) {
        assert(data.skip(pos).len() == 0);
        assert(byte_texts(parts) =~= Seq::empty());
        assert(ones(n) =~= full);
    } else {
        let text = labelled_bytes(parts);
        let rest: Seq<u8> = if all_one(full) {
            Seq::empty()
        } else {
            le_all(nats(full), 2)
        };
        lemma_le(ids.len(), 2);
        assert(data.skip(pos).len() == 2 + text.len() + rest.len());
        assert(data.subrange(pos, pos + 2) =~= data.skip(pos).subrange(0, 2));
        assert(data.skip(pos).subrange(0, 2) =~= le(ids.len(), 2));
        assert forall|i: int| 0 <= i < parts.len() implies (#[trigger] parts[i]).len() <= 255 by {}
        let pre = data.take(pos + 2);
        lemma_labelled_back(pre, parts, rest);
        assert(data =~= data.take(pos) + data.skip(pos));
        assert(pre + text + rest =~= data);
        let end = pos + 2 + text.len();
        assert(data.skip(end as int) =~= rest);
        if all_one(full) {
            assert(fullmoves_at(data, end as int, n) =~= full);
        } else {
            let vals = nats(full);
            assert(rest + Seq::<u8>::empty() =~= rest);
            lemma_column_front(data, end as int, vals, 2, Seq::empty());
            assert forall|i: int| 0 <= i < n implies #[trigger] cell(data, end as int, 2, i)
                == full[i] by {
                assert(column(data, end as int, n, 2)[i] == vals[i]);
            }
            assert(fullmoves_at(data, end as int, n) =~= full);
        }
    }
}

/// The identifier of a puzzle stands among the texts at the number of those
/// before it.
proof fn lemma_odd_id(items: Seq<ItemModel>, k: int)
    requires
        0 <= k < items.len(),
        !standard_id(items[k].id),
    ensures
        odd_ids(items.take(k)).len() < odd_ids(items).len(),
        odd_ids(items)[odd_ids(items.take(k)).len() as int] == items[k].id,
    decreases items.len(),
{
    let init = items.drop_last();
    if k < init.len() {
        lemma_odd_id(init, k);
        assert(init.take(k) =~= items.take(k));
    } else {
        assert(items.take(k) =~= init);
    }
}

/// Whether an identifier can be stored: it has five letters and digits, or at most
/// 255 bytes.
pub open spec fn id_holds(id: Seq<char>) -> bool {
    standard_id(id) || utf8(id).len() <= 255
}

/// The number of an identifier that is not five letters and digits has the highest
/// bit set, and the others lead to its text.
pub proof fn law_odd_id_back(items: Seq<ItemModel>, k: int)
    requires
        0 <= k < items.len(),
        !standard_id(items[k].id),
        odd_ids(items).len() <= 65535,
    ensures
        ({
            let texts = byte_texts(cut_parts(odd_ids(items)));
            let rank = id_cell(items, k) - 0x8000_0000;
            &&& 0 <= rank < texts.len()
            &&& id_holds(items[k].id) ==> texts[rank] == items[k].id
        }),
{
    lemma_odd_id(items, k);
    law_text_bytes(items[k].id);
    let rank = odd_ids(items.take(k)).len() as int;
    assert(byte_texts(cut_parts(odd_ids(items)))[rank] == byte_text(cut_bytes(items[k].id)));
}

} // verus!
