//! Text as sequences of characters: splitting into fields, trimming, decimal
//! numbers and joining.

use vstd::prelude::*;

verus! {

/// Appending one character to a `String`, as std documents `String::push`: the
/// old contents, then the character.
pub assume_specification[ String::push ](s: &mut String, c: char)
    ensures
        final(s)@ == old(s)@.push(c),
;

// ---------------------------------------------------------------------------
// Characters
// ---------------------------------------------------------------------------

/// The characters with the Unicode `White_Space` property.
pub open spec fn is_white(c: char) -> bool {
    let v = c as u32;
    ||| 0x9 <= v <= 0xd
    ||| v == 0x20
    ||| v == 0x85
    ||| v == 0xa0
    ||| v == 0x1680
    ||| 0x2000 <= v <= 0x200a
    ||| v == 0x2028
    ||| v == 0x2029
    ||| v == 0x202f
    ||| v == 0x205f
    ||| v == 0x3000
}

/// Whether a character is white space.
pub fn is_whitespace(c: char) -> (r: bool)
    ensures
        r == is_white(c),
{
    let v: u32 = c as u32;
    (0x9 <= v && v <= 0xd) || v == 0x20 || v == 0x85 || v == 0xa0 || v == 0x1680 || (0x2000 <= v
        && v <= 0x200a) || v == 0x2028 || v == 0x2029 || v == 0x202f || v == 0x205f || v == 0x3000
}

/// The decimal digits.
pub open spec fn is_digit(c: char) -> bool {
    '0' <= c <= '9'
}

/// The value of a decimal digit.
pub open spec fn digit_value(c: char) -> nat {
    (c as u32 - '0' as u32) as nat
}

/// The decimal digit with a value below ten.
pub open spec fn digit_char(d: nat) -> char {
    ('0' as u32 + d) as char
}

/// ASCII capitals become small letters, every other character stays.
pub open spec fn lower_char(c: char) -> char {
    if 'A' <= c <= 'Z' {
        (c as u32 + 32) as char
    } else {
        c
    }
}

/// A text with its ASCII capitals made small.
pub open spec fn lower(s: Seq<char>) -> Seq<char> {
    Seq::new(s.len(), |i: int| lower_char(s[i]))
}

/// Makes an ASCII capital small.
pub fn to_lower_char(c: char) -> (r: char)
    ensures
        r == lower_char(c),
{
    if 'A' <= c && c <= 'Z' {
        ((c as u8) + 32) as char
    } else {
        c
    }
}

/// Makes the ASCII capitals of a text small.
pub fn to_lower(s: &[char]) -> (r: Vec<char>)
    ensures
        r@ == lower(s@),
{
    let mut out: Vec<char> = Vec::new();
    for i in 0..s.len()
        invariant
            out@ == lower(s@.take(i as int)),
    {
        out.push(to_lower_char(s[i]));
        assert(out@ =~= lower(s@.take(i + 1)));
    }
    assert(s@.take(s@.len() as int) =~= s@);
    out
}

// ---------------------------------------------------------------------------
// Strings and character vectors
// ---------------------------------------------------------------------------

/// The texts held by a sequence of character vectors.
pub open spec fn words(v: Seq<Vec<char>>) -> Seq<Seq<char>> {
    v.map_values(|w: Vec<char>| w@)
}

/// The texts held by a sequence of strings.
pub open spec fn texts(v: Seq<String>) -> Seq<Seq<char>> {
    v.map_values(|w: String| w@)
}

/// The characters of a string slice.
pub fn chars_of(s: &str) -> (v: Vec<char>)
    ensures
        v@ == s@,
{
    let mut v: Vec<char> = Vec::new();
    for c in it: s.chars()
        invariant
            it.seq() == s@,
            v@ == it.seq().take(it.index() as int),
    {
        v.push(c);
    }
    assert(v@ =~= s@);
    v
}

/// Appends characters to a string.
pub fn push_chars(out: &mut String, s: &[char])
    ensures
        final(out)@ == old(out)@ + s@,
{
    for i in 0..s.len()
        invariant
            out@ == old(out)@ + s@.take(i as int),
    {
        out.push(s[i]);
        assert(out@ =~= old(out)@ + s@.take(i + 1));
    }
    assert(s@.take(s@.len() as int) =~= s@);
}

/// A string with the given characters.
pub fn string_of(s: &[char]) -> (r: String)
    ensures
        r@ == s@,
{
    let mut out = String::new();
    push_chars(&mut out, s);
    assert(out@ =~= s@);
    out
}

/// Whether two texts are equal.
pub fn same_chars(a: &[char], b: &[char]) -> (r: bool)
    ensures
        r == (a@ == b@),
{
    if a.len() != b.len() {
        return false;
    }
    for i in 0..a.len()
        invariant
            a@.len() == b@.len(),
            forall|j: int| 0 <= j < i ==> a@[j] == b@[j],
    {
        if a[i] != b[i] {
            return false;
        }
    }
    assert(a@ =~= b@);
    true
}

// ---------------------------------------------------------------------------
// White-space separated fields
// ---------------------------------------------------------------------------

/// The length of the longest prefix without white space.
pub open spec fn word_len(s: Seq<char>) -> nat
    decreases s.len(),
{
    if s.len() == 0 || is_white(s[0]) {
        0
    } else {
        1 + word_len(s.skip(1))
    }
}

/// A word is no longer than the text it starts.
pub proof fn lemma_word_len(s: Seq<char>)
    ensures
        word_len(s) <= s.len(),
        forall|i: int| 0 <= i < word_len(s) ==> !is_white(#[trigger] s[i]),
        word_len(s) < s.len() ==> is_white(s[word_len(s) as int]),
    decreases s.len(),
{
    if s.len() != 0 && !is_white(s[0]) {
        lemma_word_len(s.skip(1));
        assert forall|i: int| 0 <= i < word_len(s) implies !is_white(#[trigger] s[i]) by {
            if i > 0 {
                assert(s[i] == s.skip(1)[i - 1]);
            }
        }
        if word_len(s) < s.len() {
            assert(s[word_len(s) as int] == s.skip(1)[word_len(s.skip(1)) as int]);
        }
    }
}

/// The maximal runs of characters that are not white space, in order.
pub open spec fn fields(s: Seq<char>) -> Seq<Seq<char>>
    decreases s.len(),
{
    if s.len() == 0 {
        Seq::empty()
    } else if is_white(s[0]) {
        fields(s.skip(1))
    } else {
        proof {
            lemma_word_len(s);
        }
        seq![s.take(word_len(s) as int)] + fields(s.skip(word_len(s) as int))
    }
}

/// Splits a text into its white-space separated fields.
pub fn split_fields(s: &[char]) -> (r: Vec<Vec<char>>)
    ensures
        words(r@) == fields(s@),
{
    let mut out: Vec<Vec<char>> = Vec::new();
    let mut i: usize = 0;
    assert(s@.skip(0) =~= s@);
    assert(words(out@) =~= Seq::empty());
    assert(words(out@) + fields(s@.skip(0)) =~= fields(s@));
    while i < s.len()
        invariant
            i <= s@.len(),
            words(out@) + fields(s@.skip(i as int)) == fields(s@),
        decreases s@.len() - i,
    {
        let ghost rest = s@.skip(i as int);
        if is_whitespace(s[i]) {
            i = i + 1;
            assert(rest.skip(1) =~= s@.skip(i as int));
        } else {
            let start: usize = i;
            i = i + 1;
            assert(s@.skip(start as int) =~= rest);
            while i < s.len() && !is_whitespace(s[i])
                invariant
                    start < i <= s@.len(),
                    forall|j: int| start <= j < i ==> !is_white(#[trigger] s@[j]),
                decreases s@.len() - i,
            {
                i = i + 1;
            }
            proof {
                lemma_word_len(rest);
                let n = word_len(rest);
                if n < i - start {
                    assert(rest[n as int] == s@[start + n]);
                } else if n > i - start {
                    assert(rest[i - start] == s@[i as int]);
                }
            }
            let word = vstd::slice::slice_to_vec(vstd::slice::slice_subrange(s, start, i));
            assert(word@ =~= rest.take(word_len(rest) as int));
            assert(rest.skip(word_len(rest) as int) =~= s@.skip(i as int));
            let ghost before = words(out@);
            out.push(word);
            assert(words(out@) =~= before + seq![word@]);
            assert(words(out@) + fields(s@.skip(i as int)) =~= before + fields(rest));
        }
    }
    assert(words(out@) + Seq::<Seq<char>>::empty() =~= words(out@));
    out
}

/// No character of the text is white space.
pub open spec fn no_white(s: Seq<char>) -> bool {
    forall|i: int| 0 <= i < s.len() ==> !is_white(#[trigger] s[i])
}

/// A word followed by white space is the first field, and the fields of the
/// rest follow it.
pub proof fn lemma_fields_word(w: Seq<char>, rest: Seq<char>)
    requires
        w.len() > 0,
        no_white(w),
        rest.len() == 0 || is_white(rest[0]),
    ensures
        fields(w + rest) == seq![w] + fields(rest),
{
    let s = w + rest;
    lemma_word_len(s);
    let n = word_len(s);
    assert(s[0] == w[0]);
    if n < w.len() {
        assert(s[n as int] == w[n as int]);
    } else if n > w.len() {
        assert(s[w.len() as int] == rest[0]);
    }
    assert(s.take(n as int) =~= w);
    assert(s.skip(n as int) =~= rest);
}

/// Joining words with single spaces and splitting them again gives the words.
pub proof fn lemma_fields_joined(parts: Seq<Seq<char>>)
    requires
        forall|i: int| 0 <= i < parts.len() ==> (#[trigger] parts[i]).len() > 0 && no_white(parts[i]),
    ensures
        fields(joined(parts, seq![' '])) == parts,
    decreases parts.len(),
{
    if parts.len() == 0 {
    } else if parts.len() == 1 {
        lemma_fields_word(parts[0], Seq::empty());
        assert(parts[0] + Seq::<char>::empty() =~= parts[0]);
        assert(seq![parts[0]] + Seq::<Seq<char>>::empty() =~= parts);
    } else {
        let tail = parts.skip(1);
        assert forall|i: int| 0 <= i < tail.len() implies (#[trigger] tail[i]).len() > 0 && no_white(tail[i]) by {
            assert(tail[i] == parts[i + 1]);
        }
        lemma_fields_joined(tail);
        let rest = seq![' '] + joined(tail, seq![' ']);
        lemma_fields_word(parts[0], rest);
        assert(parts[0] + rest =~= joined(parts, seq![' ']));
        assert(rest.skip(1) =~= joined(tail, seq![' ']));
        assert(seq![parts[0]] + tail =~= parts);
    }
}

// ---------------------------------------------------------------------------
// Splitting on one character, trimming
// ---------------------------------------------------------------------------

/// The position of the first occurrence of a character, or the length of the
/// text where there is none.
pub open spec fn first_at(s: Seq<char>, sep: char) -> nat
    decreases s.len(),
{
    if s.len() == 0 || s[0] == sep {
        0
    } else {
        1 + first_at(s.skip(1), sep)
    }
}

/// What `first_at` finds.
pub proof fn lemma_first_at(s: Seq<char>, sep: char)
    ensures
        first_at(s, sep) <= s.len(),
        forall|i: int| 0 <= i < first_at(s, sep) ==> #[trigger] s[i] != sep,
        first_at(s, sep) < s.len() ==> s[first_at(s, sep) as int] == sep,
    decreases s.len(),
{
    if s.len() != 0 && s[0] != sep {
        lemma_first_at(s.skip(1), sep);
        assert forall|i: int| 0 <= i < first_at(s, sep) implies #[trigger] s[i] != sep by {
            if i > 0 {
                assert(s[i] == s.skip(1)[i - 1]);
            }
        }
    }
}

/// The pieces between the occurrences of a character: one more piece than
/// occurrences, empty pieces kept.
pub open spec fn pieces(s: Seq<char>, sep: char) -> Seq<Seq<char>>
    decreases s.len(),
{
    proof {
        lemma_first_at(s, sep);
    }
    let n = first_at(s, sep);
    if n >= s.len() {
        seq![s]
    } else {
        seq![s.take(n as int)] + pieces(s.skip(n as int + 1), sep)
    }
}

/// Splits a text on a character.
pub fn split_on(s: &[char], sep: char) -> (r: Vec<Vec<char>>)
    ensures
        words(r@) == pieces(s@, sep),
{
    let mut out: Vec<Vec<char>> = Vec::new();
    let mut start: usize = 0;
    let mut i: usize = 0;
    assert(s@.skip(0) =~= s@);
    assert(words(out@) =~= Seq::empty());
    assert(words(out@) + pieces(s@.skip(0), sep) =~= pieces(s@, sep));
    while i < s.len()
        invariant
            start <= i <= s@.len(),
            forall|j: int| start <= j < i ==> #[trigger] s@[j] != sep,
            words(out@) + pieces(s@.skip(start as int), sep) == pieces(s@, sep),
        decreases s@.len() - i,
    {
        if s[i] == sep {
            let ghost rest = s@.skip(start as int);
            proof {
                lemma_first_at(rest, sep);
                let n = first_at(rest, sep);
                assert(rest[i - start] == sep);
                if n < i - start {
                    assert(rest[n as int] == s@[start + n]);
                }
            }
            let piece = vstd::slice::slice_to_vec(vstd::slice::slice_subrange(s, start, i));
            assert(piece@ =~= rest.take(i - start));
            let ghost before = words(out@);
            out.push(piece);
            assert(words(out@) =~= before + seq![piece@]);
            start = i + 1;
            assert(rest.skip(first_at(rest, sep) as int + 1) =~= s@.skip(start as int));
            assert(words(out@) + pieces(s@.skip(start as int), sep) =~= before + pieces(rest, sep));
        }
        i = i + 1;
    }
    let ghost rest = s@.skip(start as int);
    proof {
        lemma_first_at(rest, sep);
        let n = first_at(rest, sep);
        if n < rest.len() {
            assert(rest[n as int] == s@[start + n]);
        }
    }
    let piece = vstd::slice::slice_to_vec(vstd::slice::slice_subrange(s, start, s.len()));
    assert(piece@ =~= rest);
    let ghost before = words(out@);
    out.push(piece);
    assert(words(out@) =~= before + seq![piece@]);
    out
}

/// A piece before the separator comes first, and the pieces of the rest follow.
pub proof fn lemma_pieces_first(w: Seq<char>, rest: Seq<char>, sep: char)
    requires
        !w.contains(sep),
    ensures
        pieces(w + seq![sep] + rest, sep) == seq![w] + pieces(rest, sep),
{
    let s = w + seq![sep] + rest;
    lemma_first_at(s, sep);
    let n = first_at(s, sep);
    assert(s[w.len() as int] == sep);
    if n < w.len() {
        assert(s[n as int] == w[n as int]);
    }
    assert(s.take(n as int) =~= w);
    assert(s.skip(n as int + 1) =~= rest);
}

/// A text without the separator is its own only piece.
pub proof fn lemma_pieces_whole(w: Seq<char>, sep: char)
    requires
        !w.contains(sep),
    ensures
        pieces(w, sep) == seq![w],
{
    lemma_first_at(w, sep);
    let n = first_at(w, sep);
    if n < w.len() {
        assert(w[n as int] == sep);
    }
}

/// Joining texts with a character that none of them holds and splitting on it
/// gives the texts.
pub proof fn lemma_pieces_joined(parts: Seq<Seq<char>>, sep: char)
    requires
        parts.len() > 0,
        forall|i: int| 0 <= i < parts.len() ==> !(#[trigger] parts[i]).contains(sep),
    ensures
        pieces(joined(parts, seq![sep]), sep) == parts,
    decreases parts.len(),
{
    if parts.len() == 1 {
        assert(!parts[0].contains(sep));
        lemma_pieces_whole(parts[0], sep);
        assert(seq![parts[0]] =~= parts);
    } else {
        let tail = parts.skip(1);
        assert forall|i: int| 0 <= i < tail.len() implies !(#[trigger] tail[i]).contains(sep) by {
            assert(tail[i] == parts[i + 1]);
        }
        lemma_pieces_joined(tail, sep);
        assert(!parts[0].contains(sep));
        lemma_pieces_first(parts[0], joined(tail, seq![sep]), sep);
        assert(seq![parts[0]] + tail =~= parts);
    }
}

/// A text without the white space in front.
pub open spec fn trim_front(s: Seq<char>) -> Seq<char>
    decreases s.len(),
{
    if s.len() > 0 && is_white(s[0]) {
        trim_front(s.skip(1))
    } else {
        s
    }
}

/// A text without the white space at the end.
pub open spec fn trim_back(s: Seq<char>) -> Seq<char>
    decreases s.len(),
{
    if s.len() > 0 && is_white(s.last()) {
        trim_back(s.drop_last())
    } else {
        s
    }
}

/// A text without the white space around it.
pub open spec fn trimmed(s: Seq<char>) -> Seq<char> {
    trim_back(trim_front(s))
}

/// Takes the white space around a text away.
pub fn trim(s: &[char]) -> (r: Vec<char>)
    ensures
        r@ == trimmed(s@),
{
    let mut a: usize = 0;
    assert(s@.skip(0) =~= s@);
    while a < s.len() && is_whitespace(s[a])
        invariant
            a <= s@.len(),
            trim_front(s@.skip(a as int)) == trim_front(s@),
        decreases s@.len() - a,
    {
        assert(s@.skip(a as int).skip(1) =~= s@.skip(a + 1));
        a = a + 1;
    }
    let ghost front = s@.skip(a as int);
    let mut b: usize = s.len();
    assert(s@.subrange(a as int, b as int) =~= front);
    while b > a && is_whitespace(s[b - 1])
        invariant
            a <= b <= s@.len(),
            trim_back(s@.subrange(a as int, b as int)) == trim_back(front),
        decreases b,
    {
        assert(s@.subrange(a as int, b as int).drop_last() =~= s@.subrange(a as int, b - 1));
        b = b - 1;
    }
    vstd::slice::slice_to_vec(vstd::slice::slice_subrange(s, a, b))
}

/// A text without white space is trimmed already.
pub proof fn lemma_trimmed_word(s: Seq<char>)
    requires
        no_white(s),
    ensures
        trimmed(s) == s,
{
}

// ---------------------------------------------------------------------------
// Decimal numbers
// ---------------------------------------------------------------------------

/// A number in decimal, without leading zeros.
pub open spec fn decimal(n: nat) -> Seq<char>
    decreases n,
{
    if n < 10 {
        seq![digit_char(n)]
    } else {
        decimal(n / 10).push(digit_char(n % 10))
    }
}

/// Appends a number in decimal to a string.
pub fn push_decimal(out: &mut String, n: u64)
    ensures
        final(out)@ == old(out)@ + decimal(n as nat),
    decreases n,
{
    if n >= 10 {
        push_decimal(out, n / 10);
    }
    let d: u8 = (n % 10) as u8;
    out.push(('0' as u8 + d) as char);
    assert(out@ =~= old(out)@ + decimal(n as nat));
}

/// A whole number.
pub open spec fn int_text(n: int) -> Seq<char> {
    if n < 0 {
        "-"@ + decimal((-n) as nat)
    } else {
        decimal(n as nat)
    }
}

/// Appends a whole number.
pub fn push_int(out: &mut String, n: i64)
    ensures
        final(out)@ == old(out)@ + int_text(n as int),
{
    if n < 0 {
        out.append("-");
        push_decimal(out, (-(n as i128)) as u64);
    } else {
        push_decimal(out, n as u64);
    }
    assert(out@ =~= old(out)@ + int_text(n as int));
}

/// Every character is a decimal digit.
pub open spec fn all_digits(s: Seq<char>) -> bool {
    forall|i: int| 0 <= i < s.len() ==> is_digit(#[trigger] s[i])
}

/// The number that a sequence of decimal digits writes.
pub open spec fn digits_value(s: Seq<char>) -> nat
    decreases s.len(),
{
    if s.len() == 0 {
        0
    } else {
        digits_value(s.drop_last()) * 10 + digit_value(s.last())
    }
}

/// A text without one plus sign in front.
pub open spec fn without_plus(s: Seq<char>) -> Seq<char> {
    if s.len() > 0 && s[0] == '+' {
        s.skip(1)
    } else {
        s
    }
}

/// The number that a text writes: decimal digits, at least one, after an
/// optional plus sign; none where it is over `max`.
pub open spec fn number(s: Seq<char>, max: nat) -> Option<nat> {
    let t = without_plus(s);
    if t.len() > 0 && all_digits(t) && digits_value(t) <= max {
        Some(digits_value(t))
    } else {
        None
    }
}

/// Whether a text holds a decimal digit.
pub open spec fn digit_in(s: Seq<char>) -> bool {
    exists|i: int| 0 <= i < s.len() && is_digit(#[trigger] s[i])
}

/// Whether a text holds a decimal digit.
pub fn has_digit(s: &[char]) -> (r: bool)
    ensures
        r == digit_in(s@),
{
    for i in 0..s.len()
        invariant
            forall|j: int| 0 <= j < i ==> !is_digit(#[trigger] s@[j]),
    {
        let c = s[i];
        if '0' <= c && c <= '9' {
            assert(is_digit(s@[i as int]));
            return true;
        }
    }
    false
}

/// A prefix of digits writes no larger number than the whole.
pub proof fn lemma_digits_prefix(s: Seq<char>, n: int)
    requires
        0 <= n <= s.len(),
    ensures
        digits_value(s.take(n)) <= digits_value(s),
    decreases s.len(),
{
    if n == s.len() {
        assert(s.take(n) =~= s);
    } else {
        lemma_digits_prefix(s.drop_last(), n);
        assert(s.drop_last().take(n) =~= s.take(n));
    }
}

/// Parses a number that is at most `max`.
pub fn parse_number(s: &[char], max: u64) -> (r: Option<u64>)
    ensures
        match r {
            Some(v) => number(s@, max as nat) == Some(v as nat),
            None => number(s@, max as nat) is None,
        },
{
    let mut start: usize = 0;
    if s.len() > 0 && s[0] == '+' {
        start = 1;
    }
    let ghost t = without_plus(s@);
    assert(t =~= s@.skip(start as int));
    if start == s.len() {
        return None;
    }
    let mut v: u64 = 0;
    let mut i: usize = start;
    assert(t.take(0) =~= Seq::empty());
    while i < s.len()
        invariant
            start <= i <= s@.len(),
            start <= 1,
            t == s@.skip(start as int),
            t == without_plus(s@),
            all_digits(t.take(i - start)),
            v == digits_value(t.take(i - start)),
            v <= max,
        decreases s@.len() - i,
    {
        let c = s[i];
        assert(c == t[i - start]);
        if !('0' <= c && c <= '9') {
            return None;
        }
        let d: u8 = (c as u8) - ('0' as u8);
        let wide: u128 = (v as u128) * 10 + (d as u128);
        proof {
            assert(t.take(i + 1 - start).drop_last() =~= t.take(i - start));
            assert(t.take(i + 1 - start).last() == c);
            lemma_digits_prefix(t, i + 1 - start);
            assert forall|j: int| 0 <= j < i + 1 - start implies is_digit(#[trigger] t.take(i + 1 - start)[j]) by {
                if j < i - start {
                    assert(t.take(i - start)[j] == t[j]);
                }
            }
        }
        if wide > max as u128 {
            return None;
        }
        v = wide as u64;
        i = i + 1;
    }
    assert(t.take(i - start) =~= t);
    Some(v)
}

/// The whole number that a text writes: as `number` does up to `max`, or, after a
/// minus sign, decimal digits, at least one, of at most `low`.
pub open spec fn whole(s: Seq<char>, low: nat, max: nat) -> Option<int> {
    if s.len() > 0 && s[0] == '-' {
        let t = s.skip(1);
        if t.len() > 0 && all_digits(t) && digits_value(t) <= low {
            Some(-(digits_value(t) as int))
        } else {
            None
        }
    } else {
        match number(s, max) {
            Some(n) => Some(n as int),
            None => None,
        }
    }
}

/// Parses a whole number between `-low` and `max`.
pub fn parse_whole(s: &[char], low: u32, max: u32) -> (r: Option<i64>)
    ensures
        match r {
            Some(v) => whole(s@, low as nat, max as nat) == Some(v as int),
            None => whole(s@, low as nat, max as nat) is None,
        },
{
    if s.len() > 0 && s[0] == '-' {
        let rest = vstd::slice::slice_subrange(s, 1, s.len());
        assert(rest@ =~= s@.skip(1));
        if rest.len() > 0 && rest[0] == '+' {
            assert(!is_digit(rest@[0]));
            return None;
        }
        match parse_number(rest, low as u64) {
            Some(v) => Some(0 - (v as i64)),
            None => None,
        }
    } else {
        match parse_number(s, max as u64) {
            Some(v) => Some(v as i64),
            None => None,
        }
    }
}

/// The decimal form of a number is made of digits and writes the number.
pub proof fn lemma_decimal(n: nat)
    ensures
        decimal(n).len() > 0,
        all_digits(decimal(n)),
        digits_value(decimal(n)) == n,
    decreases n,
{
    if n < 10 {
        assert(decimal(n).drop_last() =~= Seq::empty());
        assert(digits_value(Seq::empty()) == 0);
    } else {
        lemma_decimal(n / 10);
        assert(decimal(n).drop_last() =~= decimal(n / 10));
        assert forall|i: int| 0 <= i < decimal(n).len() implies is_digit(#[trigger] decimal(n)[i]) by {
            if i < decimal(n / 10).len() {
                assert(decimal(n)[i] == decimal(n / 10)[i]);
            }
        }
    }
}

/// A number written in decimal is read back.
pub proof fn lemma_decimal_number(n: nat, max: nat)
    ensures
        n <= max ==> number(decimal(n), max) == Some(n),
        n > max ==> number(decimal(n), max) is None,
        no_white(decimal(n)),
{
    lemma_decimal(n);
    assert(is_digit(decimal(n)[0]));
    assert forall|i: int| 0 <= i < decimal(n).len() implies !is_white(#[trigger] decimal(n)[i]) by {
        assert(is_digit(decimal(n)[i]));
    }
}

// ---------------------------------------------------------------------------
// Joining
// ---------------------------------------------------------------------------

/// Texts one after the other with a separator between neighbours.
pub open spec fn joined(parts: Seq<Seq<char>>, sep: Seq<char>) -> Seq<char>
    decreases parts.len(),
{
    if parts.len() == 0 {
        Seq::empty()
    } else if parts.len() == 1 {
        parts[0]
    } else {
        parts[0] + sep + joined(parts.skip(1), sep)
    }
}

/// What is left to write of joined texts once `i` of them are written.
pub open spec fn joined_from(parts: Seq<Seq<char>>, sep: Seq<char>, i: int) -> Seq<char> {
    if i == 0 {
        joined(parts, sep)
    } else if i < parts.len() {
        sep + joined(parts.skip(i), sep)
    } else {
        Seq::empty()
    }
}

/// Appends strings to a string, with a separator between neighbours.
pub fn push_joined(out: &mut String, parts: &Vec<String>, sep: &str)
    ensures
        final(out)@ == old(out)@ + joined(texts(parts@), sep@),
{
    let ghost all = texts(parts@);
    assert(out@ + joined_from(all, sep@, 0) == old(out)@ + joined(all, sep@));
    for i in 0..parts.len()
        invariant
            all == texts(parts@),
            out@ + joined_from(all, sep@, i as int) == old(out)@ + joined(all, sep@),
    {
        let ghost before = out@;
        let ghost tail = all.skip(i as int);
        if i > 0 {
            out.append(sep);
        }
        out.append(parts[i].as_str());
        proof {
            assert(tail[0] == parts@[i as int]@);
            assert(tail.skip(1) =~= all.skip(i + 1));
            if i == 0 {
                assert(tail =~= all);
            }
            assert(out@ + joined_from(all, sep@, i + 1) =~= before + joined_from(all, sep@, i as int));
        }
    }
    assert(joined_from(all, sep@, parts@.len() as int) =~= Seq::empty());
    assert(out@ =~= old(out)@ + joined(all, sep@));
}

// ---------------------------------------------------------------------------
// Bytes
// ---------------------------------------------------------------------------

/// The UTF-8 bytes of a text.
pub open spec fn utf8(s: Seq<char>) -> Seq<u8> {
    vstd::utf8::encode_utf8(s)
}

/// Two texts with the same bytes are the same.
pub proof fn lemma_utf8_injective(a: Seq<char>, b: Seq<char>)
    requires
        utf8(a) == utf8(b),
    ensures
        a == b,
{
    vstd::utf8::encode_utf8_decode_utf8(a);
    vstd::utf8::encode_utf8_decode_utf8(b);
}

proof fn lemma_small_char(c: char)
    requires
        c < '\u{80}',
    ensures
        '\0' <= c <= '\u{7f}',
{
}

/// The bytes of an ASCII text are its characters.
pub proof fn lemma_utf8_ascii(s: Seq<char>)
    requires
        forall|i: int| 0 <= i < s.len() ==> #[trigger] s[i] < '\u{80}',
    ensures
        utf8(s).len() == s.len(),
        forall|i: int| 0 <= i < s.len() ==> #[trigger] utf8(s)[i] == s[i] as u8,
{
    assert forall|i| 0 <= i < s.len() implies '\0' <= #[trigger] s[i] <= '\u{7f}' by {
        lemma_small_char(s[i]);
    }
    vstd::utf8::is_ascii_chars_encode_utf8(s);
}

/// A text whose bytes are all ASCII has those bytes as its characters.
pub proof fn lemma_ascii_utf8(s: Seq<char>)
    requires
        forall|i: int| 0 <= i < utf8(s).len() ==> #[trigger] utf8(s)[i] < 128,
    ensures
        s == Seq::new(utf8(s).len(), |i: int| utf8(s)[i] as char),
{
    let b = utf8(s);
    let t = Seq::new(b.len(), |i: int| b[i] as char);
    assert forall|i: int| 0 <= i < t.len() implies #[trigger] t[i] < '\u{80}' by {
        assert(b[i] < 128);
    }
    lemma_utf8_ascii(t);
    assert(utf8(t) =~= b);
    lemma_utf8_injective(s, t);
}

} // verus!
