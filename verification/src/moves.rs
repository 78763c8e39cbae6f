//! Moves packed into 16 bits, and their UCI text.

use vstd::prelude::*;

use crate::text::{
    chars_of, fields, joined, push_joined, split_fields, string_of, texts, utf8, words,
};

verus! {

/// A move: bits 0-5 the square it starts from, bits 6-11 the square it goes to,
/// bits 12-14 the piece a pawn becomes. Squares are counted from a1, along the
/// ranks.
#[derive(Debug, Clone, Copy, PartialEq, Eq, PartialOrd, Ord, Hash, Default)]
pub struct PackedMove(pub u16);

/// The word of a move: the lowest six bits of each square and the lowest three
/// of the promotion code.
pub open spec fn move_word(from_sq: nat, to_sq: nat, promo: nat) -> nat {
    from_sq % 64 + (to_sq % 64) * 64 + (promo % 8) * 4096
}

/// The letter of a promotion code.
pub open spec fn promo_letter(promo: nat) -> Option<char> {
    if promo == 1 {
        Some('q')
    } else if promo == 2 {
        Some('r')
    } else if promo == 3 {
        Some('b')
    } else if promo == 4 {
        Some('n')
    } else if promo == 5 {
        Some('k')
    } else {
        None
    }
}

/// The promotion code of a letter, small or capital.
pub open spec fn promo_code(c: u8) -> Option<nat> {
    if c == 'q' as u8 || c == 'Q' as u8 {
        Some(1)
    } else if c == 'r' as u8 || c == 'R' as u8 {
        Some(2)
    } else if c == 'b' as u8 || c == 'B' as u8 {
        Some(3)
    } else if c == 'n' as u8 || c == 'N' as u8 {
        Some(4)
    } else if c == 'k' as u8 || c == 'K' as u8 {
        Some(5)
    } else {
        None
    }
}

/// Two bytes that name a square: a letter `a`-`h`, then a digit `1`-`8`.
pub open spec fn names_square(file: u8, rank: u8) -> bool {
    'a' as u8 <= file <= 'h' as u8 && '1' as u8 <= rank <= '8' as u8
}

/// The square that two bytes name.
pub open spec fn named_square(file: u8, rank: u8) -> nat {
    ((rank - '1' as u8) * 8 + (file - 'a' as u8)) as nat
}

/// The word of the move that bytes write in UCI notation: two squares, then at
/// most one promotion letter.
pub open spec fn uci_word(b: Seq<u8>) -> Option<nat> {
    if (b.len() == 4 || b.len() == 5) && names_square(b[0], b[1]) && names_square(b[2], b[3]) && (
    b.len() == 5 ==> promo_code(b[4]) is Some) {
        let promo = if b.len() == 5 {
            promo_code(b[4])->0
        } else {
            0
        };
        Some(move_word(named_square(b[0], b[1]), named_square(b[2], b[3]), promo))
    } else {
        None
    }
}

/// The two characters that name a square.
pub open spec fn square_text(sq: nat) -> Seq<char> {
    seq![('a' as u32 + sq % 8) as char, ('1' as u32 + sq / 8) as char]
}

/// The UCI text of a word.
pub open spec fn uci_text(w: nat) -> Seq<char> {
    let squares = square_text(w % 64) + square_text((w / 64) % 64);
    match promo_letter((w / 4096) % 8) {
        Some(c) => squares.push(c),
        None => squares,
    }
}

/// The UCI texts of moves.
pub open spec fn uci_texts(moves: Seq<PackedMove>) -> Seq<Seq<char>> {
    moves.map_values(|m: PackedMove| uci_text(m.0 as nat))
}

/// The moves that words write; words that write none are left out.
pub open spec fn moves_of(ws: Seq<Seq<char>>) -> Seq<PackedMove>
    decreases ws.len(),
{
    if ws.len() == 0 {
        Seq::empty()
    } else {
        let init = moves_of(ws.drop_last());
        match uci_word(utf8(ws.last())) {
            Some(w) => init.push(PackedMove(w as u16)),
            None => init,
        }
    }
}

/// The square that a packed move starts from.
pub open spec fn move_from(w: nat) -> nat {
    w % 64
}

/// The square that a packed move goes to.
pub open spec fn move_to(w: nat) -> nat {
    (w / 64) % 64
}

/// The promotion code of a packed move.
pub open spec fn move_promo(w: nat) -> nat {
    (w / 4096) % 8
}

impl PackedMove {
    /// Packs two squares and a promotion code.
    pub fn new(from_sq: u8, to_sq: u8, promo: u8) -> (r: Self)
        ensures
            r.0 == move_word(from_sq as nat, to_sq as nat, promo as nat),
    {
        PackedMove(
            (from_sq % 64) as u16 + ((to_sq % 64) as u16) * 64 + ((promo % 8) as u16) * 4096,
        )
    }

    /// The square the move starts from.
    pub fn from_sq(&self) -> (r: u8)
        ensures
            r == self.0 % 64,
            r == move_from(self.0 as nat),
    {
        (self.0 % 64) as u8
    }

    /// The square the move goes to.
    pub fn to_sq(&self) -> (r: u8)
        ensures
            r == (self.0 / 64) % 64,
            r == move_to(self.0 as nat),
    {
        ((self.0 / 64) % 64) as u8
    }

    /// The promotion code.
    pub fn promo_raw(&self) -> (r: u8)
        ensures
            r == (self.0 / 4096) % 8,
            r == move_promo(self.0 as nat),
    {
        ((self.0 / 4096) % 8) as u8
    }

    /// The promotion letter.
    pub fn promo_char(&self) -> (r: Option<char>)
        ensures
            r == promo_letter(((self.0 / 4096) % 8) as nat),
    {
        match self.promo_raw() {
            1 => Some('q'),
            2 => Some('r'),
            3 => Some('b'),
            4 => Some('n'),
            5 => Some('k'),
            _ => None,
        }
    }

    /// Parses a UCI move such as `e2e4` or `e7e8q`.
    pub fn from_uci(s: &str) -> (r: Option<Self>)
        ensures
            match r {
                Some(m) => uci_word(utf8(s@)) == Some(m.0 as nat),
                None => uci_word(utf8(s@)) is None,
            },
    {
        let bytes = s.as_bytes();
        if bytes.len() < 4 || bytes.len() > 5 {
            return None;
        }
        let f_file: u8 = bytes[0];
        let f_rank: u8 = bytes[1];
        let t_file: u8 = bytes[2];
        let t_rank: u8 = bytes[3];
        if f_file < 'a' as u8 || f_file > 'h' as u8 || f_rank < '1' as u8 || f_rank > '8' as u8
            || t_file < 'a' as u8 || t_file > 'h' as u8 || t_rank < '1' as u8 || t_rank
            > '8' as u8 {
            return None;
        }
        let from_sq: u8 = (f_rank - '1' as u8) * 8 + (f_file - 'a' as u8);
        let to_sq: u8 = (t_rank - '1' as u8) * 8 + (t_file - 'a' as u8);
        let promo: u8 = if bytes.len() == 5 {
            let c: u8 = bytes[4];
            if c == 'q' as u8 || c == 'Q' as u8 {
                1
            } else if c == 'r' as u8 || c == 'R' as u8 {
                2
            } else if c == 'b' as u8 || c == 'B' as u8 {
                3
            } else if c == 'n' as u8 || c == 'N' as u8 {
                4
            } else if c == 'k' as u8 || c == 'K' as u8 {
                5
            } else {
                return None;
            }
        } else {
            0
        };
        Some(Self::new(from_sq, to_sq, promo))
    }

    /// The move in UCI notation.
    pub fn to_uci(&self) -> (r: String)
        ensures
            r@ == uci_text(self.0 as nat),
    {
        let f_sq: u8 = self.from_sq();
        let t_sq: u8 = self.to_sq();
        let mut out = String::new();
        out.push(('a' as u8 + f_sq % 8) as char);
        out.push(('1' as u8 + f_sq / 8) as char);
        out.push(('a' as u8 + t_sq % 8) as char);
        out.push(('1' as u8 + t_sq / 8) as char);
        if let Some(p) = self.promo_char() {
            out.push(p);
        }
        assert(out@ =~= uci_text(self.0 as nat));
        out
    }
}

/// The moves of a line of UCI moves that white space separates; fields that are
/// no moves are left out.
pub fn encode_moves(moves_str: &str) -> (r: Vec<PackedMove>)
    ensures
        r@ == moves_of(fields(moves_str@)),
{
    let chars = chars_of(moves_str);
    let parts = split_fields(chars.as_slice());
    let ghost ws = words(parts@);
    let mut out: Vec<PackedMove> = Vec::new();
    assert(ws.take(0) =~= Seq::empty());
    for i in 0..parts.len()
        invariant
            ws == words(parts@),
            out@ == moves_of(ws.take(i as int)),
    {
        let word = string_of(parts[i].as_slice());
        assert(ws.take(i + 1).drop_last() =~= ws.take(i as int));
        assert(ws.take(i + 1).last() == word@);
        if let Some(m) = PackedMove::from_uci(word.as_str()) {
            out.push(m);
        }
    }
    assert(ws.take(parts@.len() as int) =~= ws);
    out
}

/// The UCI texts of moves.
pub fn uci_strings(moves: &[PackedMove]) -> (r: Vec<String>)
    ensures
        texts(r@) == uci_texts(moves@),
{
    let mut out: Vec<String> = Vec::new();
    for i in 0..moves.len()
        invariant
            texts(out@) == uci_texts(moves@.take(i as int)),
    {
        let ghost before = texts(out@);
        let s = moves[i].to_uci();
        out.push(s);
        assert(texts(out@) =~= before.push(s@));
        assert(uci_texts(moves@.take(i + 1)) =~= before.push(s@));
    }
    assert(moves@.take(moves@.len() as int) =~= moves@);
    out
}

/// The line of moves in UCI notation, with a space between neighbours.
pub fn decode_moves(moves: &[PackedMove]) -> (r: String)
    ensures
        r@ == joined(uci_texts(moves@), seq![' ']),
{
    let parts = uci_strings(moves);
    let mut out = String::new();
    proof {
        reveal_strlit(" ");
        assert(" "@ =~= seq![' ']);
    }
    push_joined(&mut out, &parts, " ");
    assert(out@ =~= joined(uci_texts(moves@), seq![' ']));
    out
}

/// A word that UCI text can carry: the highest bit is free and the promotion
/// code names a piece or nothing.
pub open spec fn uci_move(w: nat) -> bool {
    w < 0x8000 && w / 4096 <= 5
}

/// A UCI text whose promotion letter, if any, is small.
pub open spec fn small_uci(s: Seq<char>) -> bool {
    uci_word(utf8(s)) is Some && (utf8(s).len() == 5 ==> utf8(s)[4] >= 'a' as u8)
}

/// The text of a word: its length, and that it is free of white space.
proof fn lemma_uci_text(w: nat)
    ensures
        4 <= uci_text(w).len() <= 5,
        crate::text::no_white(uci_text(w)),
        utf8(uci_text(w)).len() == uci_text(w).len(),
        forall|i: int|
            0 <= i < uci_text(w).len() ==> #[trigger] utf8(uci_text(w))[i] == uci_text(w)[i] as u8,
{
    let t = uci_text(w);
    assert(t[0] == ('a' as u32 + (w % 64) % 8) as char);
    assert(t[1] == ('1' as u32 + (w % 64) / 8) as char);
    assert(t[2] == ('a' as u32 + ((w / 64) % 64) % 8) as char);
    assert(t[3] == ('1' as u32 + ((w / 64) % 64) / 8) as char);
    assert forall|i: int| 0 <= i < t.len() implies #[trigger] t[i] < '\u{80}' by {}
    crate::text::lemma_utf8_ascii(t);
}

/// Writing a move in UCI notation and reading it again gives the move.
#[verifier::rlimit(40)]
pub proof fn law_move_round_trip(w: nat)
    requires
        uci_move(w),
    ensures
        uci_word(utf8(uci_text(w))) == Some(w),
{
    lemma_uci_text(w);
    let t = uci_text(w);
    let b = utf8(t);
    assert(b[0] == t[0] as u8 && b[1] == t[1] as u8 && b[2] == t[2] as u8 && b[3] == t[3] as u8);
    assert(t[0] == ('a' as u32 + (w % 64) % 8) as char);
    assert(t[1] == ('1' as u32 + (w % 64) / 8) as char);
    assert(t[2] == ('a' as u32 + ((w / 64) % 64) % 8) as char);
    assert(t[3] == ('1' as u32 + ((w / 64) % 64) / 8) as char);
    assert(named_square(b[0], b[1]) == w % 64);
    assert(named_square(b[2], b[3]) == (w / 64) % 64);
    if b.len() == 5 {
        assert(b[4] == t[4] as u8);
        assert(promo_code(b[4]) == Some((w / 4096) % 8));
    } else {
        assert((w / 4096) % 8 == 0);
    }
    assert(w / 64 / 64 == w / 4096);
}

/// The parts of a word.
pub proof fn lemma_move_word(f: nat, t: nat, p: nat)
    requires
        f < 64,
        t < 64,
        p < 8,
    ensures
        move_word(f, t, p) == f + t * 64 + p * 4096,
        move_word(f, t, p) < 0x8000,
        move_word(f, t, p) % 64 == f,
        (move_word(f, t, p) / 64) % 64 == t,
        move_word(f, t, p) / 4096 == p,
{
}

proof fn lemma_named_square(file: u8, rank: u8)
    requires
        names_square(file, rank),
    ensures
        named_square(file, rank) < 64,
        square_text(named_square(file, rank)) == seq![file as char, rank as char],
{
    let sq = named_square(file, rank);
    assert(sq % 8 == file - 'a' as u8);
    assert(sq / 8 == rank - '1' as u8);
    assert(square_text(sq) =~= seq![file as char, rank as char]);
}

/// Reading a move in UCI notation and writing it again gives the text, where the
/// promotion letter is small.
pub proof fn law_uci_round_trip(s: Seq<char>)
    requires
        small_uci(s),
    ensures
        uci_text(uci_word(utf8(s))->0) == s,
        uci_move(uci_word(utf8(s))->0),
{
    let b = utf8(s);
    let w = uci_word(b)->0;
    assert forall|i: int| 0 <= i < b.len() implies #[trigger] b[i] < 128 by {
        assert(i == 0 || i == 1 || i == 2 || i == 3 || i == 4);
    }
    crate::text::lemma_ascii_utf8(s);
    let p = if b.len() == 5 {
        promo_code(b[4])->0
    } else {
        0
    };
    lemma_named_square(b[0], b[1]);
    lemma_named_square(b[2], b[3]);
    lemma_move_word(named_square(b[0], b[1]), named_square(b[2], b[3]), p);
    if b.len() == 5 {
        assert(promo_letter(p) == Some(b[4] as char));
    }
    assert(uci_text(w) =~= s);
}

/// Every move of a line can be carried by UCI text.
pub open spec fn uci_moves(moves: Seq<PackedMove>) -> bool {
    forall|i: int| 0 <= i < moves.len() ==> uci_move((#[trigger] moves[i]).0 as nat)
}

proof fn lemma_moves_of_texts(moves: Seq<PackedMove>)
    requires
        uci_moves(moves),
    ensures
        moves_of(uci_texts(moves)) == moves,
    decreases moves.len(),
{
    if moves.len() > 0 {
        let init = moves.drop_last();
        assert(uci_moves(init)) by {
            assert forall|i: int| 0 <= i < init.len() implies uci_move((#[trigger] init[i]).0 as nat) by {
                assert(init[i] == moves[i]);
            }
        }
        lemma_moves_of_texts(init);
        assert(uci_texts(moves).drop_last() =~= uci_texts(init));
        law_move_round_trip(moves.last().0 as nat);
        assert(moves =~= init.push(moves.last()));
    } else {
        assert(moves_of(uci_texts(moves)) =~= moves);
    }
}

/// A line of moves that was written is read back move by move.
pub proof fn law_line_round_trip(moves: Seq<PackedMove>)
    requires
        uci_moves(moves),
    ensures
        moves_of(fields(joined(uci_texts(moves), seq![' ']))) == moves,
{
    let parts = uci_texts(moves);
    assert forall|i: int| 0 <= i < parts.len() implies (#[trigger] parts[i]).len() > 0
        && crate::text::no_white(parts[i]) by {
        lemma_uci_text(moves[i].0 as nat);
    }
    crate::text::lemma_fields_joined(parts);
    lemma_moves_of_texts(moves);
}

/// A line of UCI moves with single spaces between them, promotion letters small,
/// is written back letter by letter.
pub proof fn law_text_line_round_trip(ws: Seq<Seq<char>>)
    requires
        forall|i: int| 0 <= i < ws.len() ==> small_uci(#[trigger] ws[i]),
    ensures
        ({
            let line = joined(ws, seq![' ']);
            &&& uci_texts(moves_of(fields(line))) == ws
            &&& joined(uci_texts(moves_of(fields(line))), seq![' ']) == line
        }),
{
    assert forall|i: int| 0 <= i < ws.len() implies (#[trigger] ws[i]).len() > 0
        && crate::text::no_white(ws[i]) by {
        law_uci_round_trip(ws[i]);
        lemma_uci_text(uci_word(utf8(ws[i]))->0);
    }
    crate::text::lemma_fields_joined(ws);
    lemma_texts_of_moves(ws);
}

proof fn lemma_texts_of_moves(ws: Seq<Seq<char>>)
    requires
        forall|i: int| 0 <= i < ws.len() ==> small_uci(#[trigger] ws[i]),
    ensures
        uci_texts(moves_of(ws)) == ws,
    decreases ws.len(),
{
    if ws.len() > 0 {
        let init = ws.drop_last();
        assert forall|i: int| 0 <= i < init.len() implies small_uci(#[trigger] init[i]) by {
            assert(init[i] == ws[i]);
        }
        lemma_texts_of_moves(init);
        law_uci_round_trip(ws.last());
        let w = uci_word(utf8(ws.last()))->0;
        assert(uci_texts(moves_of(ws)) =~= uci_texts(moves_of(init)).push(uci_text(w)));
        assert(ws =~= init.push(ws.last()));
    } else {
        assert(uci_texts(moves_of(ws)) =~= ws);
    }
}

} // verus!
