//! What holds of texts that are split, joined and trimmed, and of the numbers in
//! them.

use vstd::prelude::*;

use crate::text::{
    decimal, fields, first_at, int_text, is_digit, is_white, joined, lemma_decimal,
    lemma_decimal_number, lemma_fields_word, lemma_first_at, lemma_word_len, lower, no_white,
    number, pieces, trim_back, trim_front, trimmed, whole, without_plus, word_len,
};

verus! {

/// Characters that can be seen: there is no white space among them.
pub open spec fn visible(w: Seq<char>) -> bool {
    forall|i: int| 0 <= i < w.len() ==> !is_gap(#[trigger] w[i])
}

/// Whether a character is white space: a space, a tab, the end of a line or a page, or
/// one of the spaces and line ends beyond ASCII.
pub open spec fn is_gap(c: char) -> bool {
    ||| c == ' '
    ||| c == '\t'
    ||| c == '\n'
    ||| c == '\u{b}'
    ||| c == '\u{c}'
    ||| c == '\r'
    ||| c == '\u{85}'
    ||| c == '\u{a0}'
    ||| c == '\u{1680}'
    ||| '\u{2000}' <= c <= '\u{200a}'
    ||| c == '\u{2028}'
    ||| c == '\u{2029}'
    ||| c == '\u{202f}'
    ||| c == '\u{205f}'
    ||| c == '\u{3000}'
}

proof fn lemma_gap(c: char)
    ensures
        is_gap(c) == is_white(c),
{
}

/// Visible characters are not white space.
pub proof fn lemma_visible(w: Seq<char>)
    requires
        visible(w),
    ensures
        no_white(w),
{
    assert forall|i: int| 0 <= i < w.len() implies !is_white(#[trigger] w[i]) by {
        lemma_gap(w[i]);
    }
}

/// White space parts the fields of a text: those before it and those behind it are the
/// fields of the whole.
pub proof fn law_gap_parts_fields(a: Seq<char>, c: char, b: Seq<char>)
    requires
        is_gap(c),
    ensures
        fields(a + seq![c] + b) == fields(a) + fields(b),
    decreases a.len(),
{
    let s = a + seq![c] + b;
    assert(is_white(c));
    if a.len() == 0 {
        assert(s.skip(1) =~= b);
        assert(fields(a) + fields(b) =~= fields(b));
    } else if is_white(a[0]) {
        law_gap_parts_fields(a.skip(1), c, b);
        assert(s.skip(1) =~= a.skip(1) + seq![c] + b);
        assert(s[0] == a[0]);
    } else {
        lemma_word_len(a);
        let n = word_len(a) as int;
        let w = a.take(n);
        let rest = a.skip(n);
        assert(a =~= w + rest);
        assert(n > 0);
        lemma_fields_word(w, rest);
        let tail = rest + seq![c] + b;
        assert(tail[0] == (if rest.len() > 0 {
            rest[0]
        } else {
            c
        }));
        assert(rest.len() > 0 ==> rest[0] == a[n]);
        lemma_fields_word(w, tail);
        assert(s =~= w + tail);
        law_gap_parts_fields(rest, c, b);
        assert(seq![w] + (fields(rest) + fields(b)) =~= seq![w] + fields(rest) + fields(b));
    }
}

/// A text without a gap in it is one field, and the empty text has none.
pub proof fn law_word_is_a_field(w: Seq<char>)
    requires
        visible(w),
    ensures
        w.len() > 0 ==> fields(w) == seq![w],
        w.len() == 0 ==> fields(w) == Seq::<Seq<char>>::empty(),
{
    if w.len() > 0 {
        lemma_visible(w);
        lemma_fields_word(w, Seq::empty());
        assert(w + Seq::<char>::empty() =~= w);
        assert(seq![w] + Seq::<Seq<char>>::empty() =~= seq![w]);
    }
}

/// Trimming takes nothing but white space away, at the front and at the end, and
/// leaves none there.
pub proof fn law_trimmed(s: Seq<char>)
    ensures
        exists|i: int, j: int|
            0 <= i <= j <= s.len() && trimmed(s) == #[trigger] s.subrange(i, j) && (forall|k: int|
                (0 <= k < i || j <= k < s.len()) ==> is_gap(#[trigger] s[k])),
        trimmed(s).len() > 0 ==> !is_gap(trimmed(s)[0]) && !is_gap(trimmed(s).last()),
{
    lemma_trim_front(s);
    let f = trim_front(s);
    let i = s.len() - f.len();
    lemma_trim_back(f);
    let t = trimmed(s);
    let j = i + t.len();
    assert(s.subrange(i, j) =~= t);
    assert forall|k: int| (0 <= k < i || j <= k < s.len()) implies is_gap(#[trigger] s[k]) by {
        lemma_gap(s[k]);
        if k >= j {
            assert(f[k - i] == s[k]);
        }
    }
    if t.len() > 0 {
        assert(t[0] == f[0]);
        lemma_gap(t[0]);
        lemma_gap(t.last());
    }
}

proof fn lemma_trim_front(s: Seq<char>)
    ensures
        trim_front(s).len() <= s.len(),
        trim_front(s) == s.skip(s.len() - trim_front(s).len()),
        forall|k: int| 0 <= k < s.len() - trim_front(s).len() ==> is_white(#[trigger] s[k]),
        trim_front(s).len() > 0 ==> !is_white(trim_front(s)[0]),
    decreases s.len(),
{
    if s.len() > 0 && is_white(s[0]) {
        lemma_trim_front(s.skip(1));
        let f = trim_front(s);
        assert(s.skip(s.len() - f.len()) =~= s.skip(1).skip(s.len() - 1 - f.len()));
        assert forall|k: int| 0 <= k < s.len() - f.len() implies is_white(#[trigger] s[k]) by {
            if k > 0 {
                assert(s.skip(1)[k - 1] == s[k]);
            }
        }
    } else {
        assert(s.skip(0) =~= s);
    }
}

proof fn lemma_trim_back(s: Seq<char>)
    ensures
        trim_back(s).len() <= s.len(),
        trim_back(s) == s.take(trim_back(s).len() as int),
        forall|k: int| trim_back(s).len() <= k < s.len() ==> is_white(#[trigger] s[k]),
        trim_back(s).len() > 0 ==> !is_white(trim_back(s).last()),
    decreases s.len(),
{
    if s.len() > 0 && is_white(s.last()) {
        lemma_trim_back(s.drop_last());
        let f = trim_back(s);
        assert(s.take(f.len() as int) =~= s.drop_last().take(f.len() as int));
        assert forall|k: int| f.len() <= k < s.len() implies is_white(#[trigger] s[k]) by {
            if k < s.len() - 1 {
                assert(s.drop_last()[k] == s[k]);
            }
        }
    } else {
        assert(s.take(s.len() as int) =~= s);
    }
}

/// The pieces between the occurrences of a character, with the character put back
/// between them, are the text, and none of them has the character.
pub proof fn law_pieces_make_the_text(s: Seq<char>, sep: char)
    ensures
        joined(pieces(s, sep), seq![sep]) == s,
        forall|i: int| 0 <= i < pieces(s, sep).len() ==> !(#[trigger] pieces(s, sep)[i]).contains(sep),
        pieces(s, sep).len() > 0,
    decreases s.len(),
{
    lemma_first_at(s, sep);
    let n = first_at(s, sep) as int;
    let all = pieces(s, sep);
    if n < s.len() {
        let w = s.take(n);
        let rest = s.skip(n + 1);
        law_pieces_make_the_text(rest, sep);
        assert(all =~= seq![w] + pieces(rest, sep));
        assert(all.skip(1) =~= pieces(rest, sep));
        assert(w + seq![sep] + rest =~= s);
        assert forall|i: int| 0 <= i < all.len() implies !(#[trigger] all[i]).contains(sep) by {
            if i > 0 {
                assert(all[i] == pieces(rest, sep)[i - 1]);
            } else if w.contains(sep) {
                let k = choose|k: int| 0 <= k < w.len() && w[k] == sep;
                assert(s[k] == sep);
            }
        }
    } else {
        assert(all[0] == s);
        if s.contains(sep) {
            let k = choose|k: int| 0 <= k < s.len() && s[k] == sep;
            assert(s[k] == sep);
        }
    }
}

/// One more text is joined by the separator and the text, however many there are.
pub proof fn law_joined_grows(parts: Seq<Seq<char>>, sep: Seq<char>, last: Seq<char>)
    ensures
        parts.len() == 0 ==> joined(parts.push(last), sep) == last,
        parts.len() > 0 ==> joined(parts.push(last), sep) == joined(parts, sep) + sep + last,
    decreases parts.len(),
{
    let all = parts.push(last);
    if parts.len() == 1 {
        assert(all.skip(1) =~= seq![last]);
        assert(joined(all.skip(1), sep) == last);
    } else if parts.len() > 1 {
        law_joined_grows(parts.skip(1), sep, last);
        assert(all.skip(1) =~= parts.skip(1).push(last));
        assert(parts[0] + sep + (joined(parts.skip(1), sep) + sep + last) =~= parts[0] + sep
            + joined(parts.skip(1), sep) + sep + last);
    }
}

/// A number is written in decimal digits without a zero in front and read back from
/// them, with or without a plus sign; its last digit is the rest by ten, and those
/// before it write the tenth.
pub proof fn law_decimal(n: nat, max: nat)
    ensures
        n <= max ==> number(decimal(n), max) == Some(n),
        n <= max ==> number(seq!['+'] + decimal(n), max) == Some(n),
        n > max ==> number(decimal(n), max) is None,
        forall|i: int| 0 <= i < decimal(n).len() ==> '0' <= #[trigger] decimal(n)[i] <= '9',
        n > 0 ==> decimal(n)[0] != '0',
        decimal(n).last() as u32 == 48 + n % 10,
        n >= 10 ==> decimal(n).drop_last() == decimal(n / 10),
        n < 10 ==> decimal(n).len() == 1,
    decreases n,
{
    lemma_decimal(n);
    lemma_decimal_number(n, max);
    assert(without_plus(seq!['+'] + decimal(n)) =~= decimal(n));
    assert forall|i: int| 0 <= i < decimal(n).len() implies '0' <= #[trigger] decimal(n)[i]
        <= '9' by {
        assert(is_digit(decimal(n)[i]));
    }
    if n >= 10 {
        law_decimal(n / 10, max);
        assert(decimal(n).drop_last() =~= decimal(n / 10));
        assert(decimal(n)[0] == decimal(n / 10)[0]);
    }
}

/// A text that holds anything but digits, a plus sign in front aside, is no number,
/// and neither is one without a digit.
pub proof fn law_no_number(s: Seq<char>, max: nat, i: int)
    requires
        0 <= i < s.len(),
        !('0' <= s[i] <= '9'),
        i > 0 || s[0] != '+',
    ensures
        number(s, max) is None,
        number(Seq::empty(), max) is None,
        number(seq!['+'], max) is None,
{
    let t = without_plus(s);
    if s.len() > 0 && s[0] == '+' {
        assert(t[i - 1] == s[i]);
        assert(!is_digit(t[i - 1]));
    } else {
        assert(!is_digit(t[i]));
    }
    assert(without_plus(seq!['+']) =~= Seq::empty());
}

/// A whole number is written with a minus sign where it is below zero, and read back.
pub proof fn law_whole(n: int, low: nat, max: nat)
    requires
        -low <= n <= max,
    ensures
        whole(int_text(n), low, max) == Some(n),
        n < 0 ==> int_text(n) == seq!['-'] + decimal((-n) as nat),
        n >= 0 ==> int_text(n) == decimal(n as nat),
{
    reveal_strlit("-");
    if n < 0 {
        let d = decimal((-n) as nat);
        lemma_decimal((-n) as nat);
        assert(int_text(n) =~= seq!['-'] + d);
        assert((seq!['-'] + d).skip(1) =~= d);
    } else {
        lemma_decimal(n as nat);
        lemma_decimal_number(n as nat, max);
        assert(is_digit(decimal(n as nat)[0]));
    }
}

/// The case of ASCII letters does not count once they are made small, and nothing else
/// changes.
pub proof fn law_lower(s: Seq<char>, i: int)
    requires
        0 <= i < s.len(),
    ensures
        lower(s).len() == s.len(),
        'A' <= s[i] <= 'Z' ==> lower(s)[i] as u32 == s[i] as u32 + 32,
        !('A' <= s[i] <= 'Z') ==> lower(s)[i] == s[i],
        lower(lower(s)) == lower(s),
{
    assert(lower(lower(s)) =~= lower(s));
}

} // verus!
