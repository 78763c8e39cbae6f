//! How identifiers, moves, boards and numbers are coded, digit by digit and bit by bit.

use vstd::prelude::*;

use crate::board::{before, codes_of, holds, pieces_of, spread};
use crate::dict::{distinct, lemma_distinct, lemma_place, place_of};
use crate::id::{id_bytes, id_number, id_text, lemma_divisions, standard_id};
use crate::moves::{
    move_from, move_promo, move_to, move_word, moves_of, uci_text, uci_word, PackedMove,
};
use crate::record::{pool_moves, PuzzleRecord};
use crate::text::{lemma_ascii_utf8, lemma_utf8_ascii, utf8};
use crate::theme::ThemeMask;
use crate::wire::{le, le_value, lemma_le};

verus! {

// ---------------------------------------------------------------------------
// Identifiers
// ---------------------------------------------------------------------------

/// The value of a digit of an identifier: digits, then small letters, then capitals. Any
/// other character counts as zero.
pub open spec fn digit_of(c: char) -> nat {
    if '0' <= c <= '9' {
        (c as u32 - 48) as nat
    } else if 'a' <= c <= 'z' {
        (c as u32 - 87) as nat
    } else if 'A' <= c <= 'Z' {
        (c as u32 - 29) as nat
    } else {
        0
    }
}

/// Whether a character is an ASCII letter or digit.
pub open spec fn is_id_char(c: char) -> bool {
    '0' <= c <= '9' || 'a' <= c <= 'z' || 'A' <= c <= 'Z'
}

/// Whether all characters of a text are ASCII.
pub open spec fn is_ascii(s: Seq<char>) -> bool {
    forall|i: int| 0 <= i < s.len() ==> #[trigger] s[i] < '\u{80}'
}

/// The number of an identifier is written by its first five characters, each with 62
/// values and the first with the highest weight; those behind the fifth do not count.
pub proof fn law_number_of_an_id(id: Seq<char>, c: char)
    requires
        is_ascii(id),
        c < '\u{80}',
    ensures
        id_number(Seq::empty()) == 0,
        id.len() < 5 ==> id_number(id.push(c)) == id_number(id) * 62 + digit_of(c),
        id.len() >= 5 ==> id_number(id.push(c)) == id_number(id),
{
    let more = id.push(c);
    assert(is_ascii(more));
    lemma_utf8_ascii(id);
    lemma_utf8_ascii(more);
    lemma_utf8_ascii(Seq::empty());
    let a = utf8(id);
    let b = utf8(more);
    assert(id_bytes(Seq::empty()) =~= Seq::empty());
    assert forall|i: int| 0 <= i < a.len() implies #[trigger] a[i] == b[i] by {
        assert(a[i] == id[i] as u8);
        assert(b[i] == more[i] as u8);
    }
    assert(b[id.len() as int] == c as u8);
    if id.len() < 5 {
        assert(id_bytes(more) == b && id_bytes(id) == a);
        assert(b.drop_last() =~= a);
        assert(b.last() == c as u8);
    } else {
        assert(id_bytes(more) =~= id_bytes(id));
    }
}

/// An identifier is a standard one if and only if it has five characters, all of them
/// ASCII letters and digits.
pub proof fn law_standard_ids(id: Seq<char>)
    ensures
        standard_id(id) <==> id.len() == 5 && forall|i: int|
            0 <= i < 5 ==> is_id_char(#[trigger] id[i]),
{
    let b = utf8(id);
    if standard_id(id) {
        assert forall|i: int| 0 <= i < b.len() implies #[trigger] b[i] < 128 by {}
        lemma_ascii_utf8(id);
        assert forall|i: int| 0 <= i < 5 implies is_id_char(#[trigger] id[i]) by {
            assert(id[i] == b[i] as char);
        }
    }
    if id.len() == 5 && forall|i: int| 0 <= i < 5 ==> is_id_char(#[trigger] id[i]) {
        assert(is_ascii(id)) by {
            assert forall|i: int| 0 <= i < id.len() implies #[trigger] id[i] < '\u{80}' by {
                assert(is_id_char(id[i]));
            }
        }
        lemma_utf8_ascii(id);
        assert forall|i: int| 0 <= i < 5 implies crate::id::is_alphanumeric(#[trigger] b[i]) by {
            assert(b[i] == id[i] as u8);
            assert(is_id_char(id[i]));
        }
    }
}

/// The text of a number has five letters and digits, which write it.
pub proof fn law_text_of_a_number(v: nat)
    requires
        v < 916132832,
    ensures
        id_text(v).len() == 5,
        forall|i: int| 0 <= i < 5 ==> is_id_char(#[trigger] id_text(v)[i]),
        digit_of(id_text(v)[0]) * 14776336 + digit_of(id_text(v)[1]) * 238328 + digit_of(
            id_text(v)[2],
        ) * 3844 + digit_of(id_text(v)[3]) * 62 + digit_of(id_text(v)[4]) == v,
{
    lemma_divisions(v);
    let q1 = v / 62;
    let q2 = q1 / 62;
    let q3 = q2 / 62;
    let q4 = q3 / 62;
    assert(q4 < 62);
    lemma_digit(v % 62);
    lemma_digit(q1 % 62);
    lemma_digit(q2 % 62);
    lemma_digit(q3 % 62);
    lemma_digit(q4 % 62);
}

/// Numbers that are too large for five digits lose what is above them.
pub proof fn law_text_of_a_large_number(v: nat)
    ensures
        id_text(v) == id_text(v % 916132832),
{
    let m = v % 916132832;
    let q = v / 916132832;
    assert(v == m + 916132832 * q);
    assert(v / 62 == m / 62 + 14776336 * q);
    assert(v / 3844 == m / 3844 + 238328 * q);
    assert(v / 238328 == m / 238328 + 3844 * q);
    assert(v / 14776336 == m / 14776336 + 62 * q);
    assert(v % 62 == m % 62);
    assert((v / 62) % 62 == (m / 62) % 62);
    assert((v / 3844) % 62 == (m / 3844) % 62);
    assert((v / 238328) % 62 == (m / 238328) % 62);
    assert((v / 14776336) % 62 == (m / 14776336) % 62);
}

proof fn lemma_digit(v: nat)
    requires
        v < 62,
    ensures
        digit_of(crate::id::base62_digit(v) as char) == v,
        is_id_char(crate::id::base62_digit(v) as char),
{
}

// ---------------------------------------------------------------------------
// Moves
// ---------------------------------------------------------------------------

/// The code of a promotion letter, small or capital: queen, rook, bishop, knight, king.
pub open spec fn promotion_code(c: u8) -> nat {
    if c == 113 || c == 81 {
        1
    } else if c == 114 || c == 82 {
        2
    } else if c == 98 || c == 66 {
        3
    } else if c == 110 || c == 78 {
        4
    } else if c == 107 || c == 75 {
        5
    } else {
        0
    }
}

/// The square that a file and a rank name, counted from a1 along the ranks.
pub open spec fn square_of(file: u8, rank: u8) -> int {
    (rank - 49) * 8 + (file - 97)
}

/// Whether bytes write a move: two squares, then at most one promotion letter.
pub open spec fn writes_move(b: Seq<u8>) -> bool {
    &&& b.len() == 4 || (b.len() == 5 && promotion_code(b[4]) != 0)
    &&& 97 <= b[0] <= 104
    &&& 49 <= b[1] <= 56
    &&& 97 <= b[2] <= 104
    &&& 49 <= b[3] <= 56
}

/// A move is packed into its two squares of six bits each and its promotion above them;
/// a text that writes no move is none.
pub proof fn law_bits_of_a_move(b: Seq<u8>)
    ensures
        uci_word(b) is Some <==> writes_move(b),
        writes_move(b) ==> uci_word(b)->0 == square_of(b[0], b[1]) + 64 * square_of(b[2], b[3])
            + 4096 * (if b.len() == 5 {
            promotion_code(b[4]) as int
        } else {
            0
        }),
{
}

/// The squares and the promotion that are packed into a move are found there again.
pub proof fn law_packed_moves(from: nat, to: nat, promotion: nat)
    requires
        from < 64,
        to < 64,
        promotion < 8,
    ensures
        move_from(move_word(from, to, promotion)) == from,
        move_to(move_word(from, to, promotion)) == to,
        move_promo(move_word(from, to, promotion)) == promotion,
{
    let w = move_word(from, to, promotion);
    assert(w == from + 64 * to + 4096 * promotion);
    assert(w / 64 == to + 64 * promotion);
}

/// The moves of a line are those of its words in their order; a word that writes none is
/// left out, and nothing else is.
pub proof fn law_moves_of_words(ws: Seq<Seq<char>>, w: Seq<char>)
    ensures
        moves_of(Seq::empty()) == Seq::<PackedMove>::empty(),
        writes_move(utf8(w)) ==> moves_of(ws.push(w)) == moves_of(ws).push(
            PackedMove(uci_word(utf8(w))->0 as u16),
        ),
        !writes_move(utf8(w)) ==> moves_of(ws.push(w)) == moves_of(ws),
{
    assert(ws.push(w).drop_last() =~= ws);
    assert(ws.push(w).last() == w);
}

/// The text of a packed move names its squares, and its promotion in a small letter.
pub proof fn law_text_of_a_move(w: nat)
    requires
        w < 0x8000,
    ensures
        ({
            let t = uci_text(w);
            let from = w % 64;
            let to = (w / 64) % 64;
            let p = w / 4096;
            &&& t[0] as u32 == 97 + from % 8
            &&& t[1] as u32 == 49 + from / 8
            &&& t[2] as u32 == 97 + to % 8
            &&& t[3] as u32 == 49 + to / 8
            &&& p == 0 || p > 5 ==> t.len() == 4
            &&& 1 <= p <= 5 ==> t.len() == 5
            &&& p == 1 ==> t[4] == 'q'
            &&& p == 2 ==> t[4] == 'r'
            &&& p == 3 ==> t[4] == 'b'
            &&& p == 4 ==> t[4] == 'n'
            &&& p == 5 ==> t[4] == 'k'
        }),
{
}

/// The moves of a record are those of the pool from its offset on, as many as it says,
/// and none where the pool ends before.
pub proof fn law_moves_of_a_record(pool: Seq<PackedMove>, offset: nat, count: nat, i: int)
    ensures
        offset + count <= pool.len() ==> pool_moves(pool, offset, count).len() == count,
        offset + count <= pool.len() && 0 <= i < count ==> pool_moves(pool, offset, count)[i]
            == pool[offset + i],
        offset + count > pool.len() ==> pool_moves(pool, offset, count).len() == 0,
{
}

// ---------------------------------------------------------------------------
// Records and boards
// ---------------------------------------------------------------------------

/// The bits of the words of a record: twelve for the rating above twenty for the themes,
/// six for the number of moves above twenty-six for where they start, eight for the
/// halfmove clock above sixteen for the state.
pub proof fn law_bits_of_a_record(r: PuzzleRecord)
    ensures
        r.theme_rating_packed == r.rating_of() * 1048576 + r.theme_of(),
        r.theme_of() < 1048576,
        r.rating_of() < 4096,
        r.move_packed == r.count_of() * 67108864 + r.offset_of(),
        r.offset_of() < 67108864,
        r.count_of() < 64,
        r.fen_packed % 16777216 == r.halfmove_of() * 65536 + r.state_of(),
        r.state_of() < 65536,
        r.halfmove_of() < 256,
{
    let f = r.fen_packed as int;
    assert(f % 16777216 == (f / 65536) % 256 * 65536 + f % 65536);
}

/// The squares of a mask are its bits from the lowest on, and the pieces are given to
/// them in that order, two to a byte and the first in the high half. A square that is not
/// in the mask is empty.
pub proof fn law_pieces_of_a_mask(occupied: u64, pieces: Seq<u8>, sq: int)
    requires
        0 <= sq < 64,
    ensures
        ({
            let cells = spread(occupied, codes_of(pieces));
            let k = before(occupied, sq) as int;
            let there = (occupied >> (sq as u64)) & 1 == 1;
            &&& cells.len() == 64
            &&& !there ==> cells[sq] == 0
            &&& there && k < 2 * pieces.len() && k % 2 == 0 ==> cells[sq] == pieces[k / 2] / 16
            &&& there && k < 2 * pieces.len() && k % 2 == 1 ==> cells[sq] == pieces[k / 2] % 16
            &&& there && k >= 2 * pieces.len() ==> cells[sq] == 0
            &&& before(occupied, 0) == 0
            &&& before(occupied, sq + 1) == k + (if there {
                1int
            } else {
                0
            })
        }),
{
}

/// The pieces of a board are those of its cells that are not empty, in their order.
pub proof fn law_pieces_of_cells(cells: Seq<u8>, last: u8)
    ensures
        pieces_of(Seq::empty()) == Seq::<u8>::empty(),
        last == 0 ==> pieces_of(cells.push(last)) == pieces_of(cells),
        last != 0 ==> pieces_of(cells.push(last)) == pieces_of(cells).push(last),
{
    assert(cells.push(last).drop_last() =~= cells);
    assert(cells.push(last).last() == last);
}

/// A square is in a mask where its bit is set.
pub proof fn law_squares_of_a_mask(occupied: u64, sq: int)
    ensures
        holds(occupied, sq) <==> (occupied >> (sq as u64)) & 1 == 1,
{
}

// ---------------------------------------------------------------------------
// Numbers and dictionaries
// ---------------------------------------------------------------------------

/// Numbers are written with the lowest byte first, and read back.
pub proof fn law_bytes_of_a_number(v: nat, n: nat)
    ensures
        le(v, n).len() == n,
        n > 0 ==> le(v, n)[0] == v % 256,
        n > 0 ==> le(v, n).skip(1) == le(v / 256, (n - 1) as nat),
        v < crate::wire::span(n) ==> le_value(le(v, n)) == v,
{
    lemma_le(v, n);
    if n > 0 {
        assert(le(v, n).skip(1) =~= le(v / 256, (n - 1) as nat));
    }
}

/// A dictionary has every mask of a list once and no other, in the order in which they
/// come first; the place of a mask leads back to it.
pub proof fn law_dictionary(masks: Seq<u128>, next: u128, i: int)
    requires
        0 <= i < masks.len(),
    ensures
        ({
            let dict = distinct(masks);
            &&& dict.no_duplicates()
            &&& place_of(dict, masks[i]) < dict.len()
            &&& dict[place_of(dict, masks[i]) as int].0 == masks[i]
            &&& forall|k: int|
                0 <= k < dict.len() ==> exists|j: int|
                    0 <= j < masks.len() && #[trigger] masks[j] == (#[trigger] dict[k]).0
            &&& masks.contains(next) ==> distinct(masks.push(next)) == dict
            &&& !masks.contains(next) ==> distinct(masks.push(next)) == dict.push(ThemeMask(next))
        }),
{
    let dict = distinct(masks);
    lemma_distinct(masks);
    lemma_place(masks, i);
    lemma_from_masks(masks);
    assert(masks.push(next).drop_last() =~= masks);
    assert(masks.push(next).last() == next);
    if masks.contains(next) {
        let j = choose|j: int| 0 <= j < masks.len() && masks[j] == next;
        lemma_place(masks, j);
        assert(dict[place_of(dict, masks[j]) as int] == ThemeMask(next));
        assert(dict.contains(ThemeMask(next)));
    } else if dict.contains(ThemeMask(next)) {
        let k = choose|k: int| 0 <= k < dict.len() && dict[k] == ThemeMask(next);
        let j = choose|j: int| 0 <= j < masks.len() && #[trigger] masks[j] == dict[k].0;
        assert(masks[j] == next);
    }
}

proof fn lemma_from_masks(masks: Seq<u128>)
    ensures
        forall|k: int|
            0 <= k < distinct(masks).len() ==> exists|j: int|
                0 <= j < masks.len() && #[trigger] masks[j] == (#[trigger] distinct(masks)[k]).0,
    decreases masks.len(),
{
    if masks.len() > 0 {
        let init = masks.drop_last();
        lemma_from_masks(init);
        let dict = distinct(masks);
        let was = distinct(init);
        assert forall|k: int| 0 <= k < dict.len() implies exists|j: int|
            0 <= j < masks.len() && #[trigger] masks[j] == (#[trigger] dict[k]).0 by {
            if k < was.len() {
                let j = choose|j: int| 0 <= j < init.len() && #[trigger] init[j] == was[k].0;
                assert(masks[j] == dict[k].0);
            } else {
                assert(masks[masks.len() - 1] == dict[k].0);
            }
        }
    }
}

} // verus!
