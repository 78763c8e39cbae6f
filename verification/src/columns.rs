//! The columns of a block: runs of bytes of different lengths, sums, differences
//! and texts.

use vstd::prelude::*;

use crate::text::{lemma_utf8_injective, utf8};
use crate::wire::{column, le_all, lemma_column, span};

verus! {

/// The sum of numbers.
pub open spec fn total(v: Seq<nat>) -> nat
    decreases v.len(),
{
    if v.len() == 0 {
        0
    } else {
        total(v.drop_last()) + v.last()
    }
}

/// A part of the numbers has no larger sum.
pub proof fn lemma_total_part(v: Seq<nat>, i: int)
    requires
        0 <= i <= v.len(),
    ensures
        total(v.take(i)) <= total(v),
        i < v.len() ==> total(v.take(i + 1)) == total(v.take(i)) + v[i],
        i < v.len() ==> total(v.take(i)) + v[i] <= total(v),
    decreases v.len(),
{
    if i < v.len() {
        assert(v.take(i + 1).drop_last() =~= v.take(i));
        if i + 1 < v.len() {
            let init = v.drop_last();
            lemma_total_part(init, i);
            assert(init.take(i) =~= v.take(i));
            assert(init.take(i + 1) =~= v.take(i + 1));
        } else {
            assert(v.take(i + 1) =~= v);
        }
    } else {
        assert(v.take(i) =~= v);
    }
}

/// Runs of bytes one after the other, of given lengths.
pub open spec fn runs(data: Seq<u8>, pos: int, lens: Seq<nat>) -> Seq<Seq<u8>> {
    Seq::new(
        lens.len(),
        |i: int|
            data.subrange(
                pos + total(lens.take(i)),
                pos + total(lens.take(i)) + lens[i],
            ),
    )
}

/// Bytes one after the other.
pub open spec fn flat(parts: Seq<Seq<u8>>) -> Seq<u8>
    decreases parts.len(),
{
    if parts.len() == 0 {
        Seq::empty()
    } else {
        flat(parts.drop_last()) + parts.last()
    }
}

/// The lengths of runs.
pub open spec fn lens_of(parts: Seq<Seq<u8>>) -> Seq<nat> {
    parts.map_values(|p: Seq<u8>| p.len())
}

/// Where each run stands among the bytes of all.
pub proof fn lemma_flat(parts: Seq<Seq<u8>>)
    ensures
        flat(parts).len() == total(lens_of(parts)),
        runs(flat(parts), 0, lens_of(parts)) == parts,
    decreases parts.len(),
{
    let lens = lens_of(parts);
    if parts.len() > 0 {
        let init = parts.drop_last();
        lemma_flat(init);
        let less = lens_of(init);
        assert(lens.drop_last() =~= less);
        let all = flat(parts);
        let read = runs(all, 0, lens);
        assert forall|i: int| 0 <= i < parts.len() implies #[trigger] read[i] == parts[i] by {
            if i < init.len() {
                assert(lens.take(i) =~= less.take(i));
                lemma_total_part(less, i);
                assert(runs(flat(init), 0, less)[i] == init[i]);
                assert(read[i] =~= runs(flat(init), 0, less)[i]);
            } else {
                assert(lens.take(i) =~= less);
                assert(read[i] =~= parts[i]);
            }
        }
        assert(read =~= parts);
    } else {
        assert(runs(flat(parts), 0, lens) =~= parts);
    }
}

/// Runs that were written are read back, whatever stands around them.
pub proof fn lemma_runs_back(pre: Seq<u8>, parts: Seq<Seq<u8>>, post: Seq<u8>)
    ensures
        runs(pre + flat(parts) + post, pre.len() as int, lens_of(parts)) == parts,
        flat(parts).len() == total(lens_of(parts)),
{
    lemma_flat(parts);
    let data = pre + flat(parts) + post;
    let lens = lens_of(parts);
    let read = runs(data, pre.len() as int, lens);
    assert forall|i: int| 0 <= i < parts.len() implies #[trigger] read[i] == parts[i] by {
        lemma_total_part(lens, i);
        assert(runs(flat(parts), 0, lens)[i] == parts[i]);
        assert(read[i] =~= runs(flat(parts), 0, lens)[i]);
    }
    assert(read =~= parts);
}

/// The two parts of bytes.
pub proof fn lemma_parts(a: Seq<u8>, b: Seq<u8>)
    ensures
        (a + b).subrange(0, a.len() as int) == a,
        (a + b).skip(a.len() as int) == b,
{
    assert((a + b).subrange(0, a.len() as int) =~= a);
    assert((a + b).skip(a.len() as int) =~= b);
}

/// A column at the front of what follows a position is read there, and what
/// follows the column is what follows in the bytes.
pub proof fn lemma_column_front(data: Seq<u8>, pos: int, vals: Seq<nat>, w: nat, rest: Seq<u8>)
    requires
        0 <= pos <= data.len(),
        data.skip(pos) == le_all(vals, w) + rest,
        forall|i: int| 0 <= i < vals.len() ==> #[trigger] vals[i] < span(w),
    ensures
        column(data, pos, vals.len(), w) == vals,
        pos + vals.len() * w <= data.len(),
        data.skip((pos + vals.len() * w) as int) == rest,
{
    let pre = data.take(pos);
    lemma_column(pre, vals, w, rest);
    assert(pre + le_all(vals, w) + rest =~= data) by {
        assert(data =~= pre + data.skip(pos));
    }
    assert(data.skip(pos).len() == vals.len() * w + rest.len());
    assert(data.skip((pos + vals.len() * w) as int) =~= rest) by {
        let k = (vals.len() * w) as int;
        assert(data.skip(pos + k) =~= data.skip(pos).skip(k));
    }
}

/// Runs at the front of what follows a position are read there, and what follows
/// the runs is what follows in the bytes.
pub proof fn lemma_runs_front(data: Seq<u8>, pos: int, parts: Seq<Seq<u8>>, rest: Seq<u8>)
    requires
        0 <= pos <= data.len(),
        data.skip(pos) == flat(parts) + rest,
    ensures
        runs(data, pos, lens_of(parts)) == parts,
        pos + total(lens_of(parts)) <= data.len(),
        data.skip((pos + total(lens_of(parts))) as int) == rest,
{
    let pre = data.take(pos);
    lemma_runs_back(pre, parts, rest);
    assert(pre + flat(parts) + rest =~= data) by {
        assert(data =~= pre + data.skip(pos));
    }
    let k = total(lens_of(parts)) as int;
    assert(data.skip(pos).len() == k + rest.len());
    assert(data.skip(pos + k) =~= data.skip(pos).skip(k));
    assert(data.skip(pos).skip(k) =~= rest);
}

// ---------------------------------------------------------------------------
// Differences
// ---------------------------------------------------------------------------

/// The numbers that 16-bit differences give, each added to the one before.
pub open spec fn summed(deltas: Seq<nat>) -> Seq<u16> {
    Seq::new(deltas.len(), |i: int| (total(deltas.take(i + 1)) % 65536) as u16)
}

/// The 16-bit differences of numbers, each from the one before; the first from
/// zero.
pub open spec fn deltas(v: Seq<u16>) -> Seq<nat> {
    Seq::new(
        v.len(),
        |i: int|
            if i == 0 {
                v[0] as nat
            } else {
                ((v[i] - v[i - 1]) % 65536) as nat
            },
    )
}

proof fn lemma_summed_at(v: Seq<u16>, i: int)
    requires
        0 <= i < v.len(),
    ensures
        total(deltas(v).take(i + 1)) % 65536 == v[i],
    decreases i,
{
    let d = deltas(v);
    lemma_total_part(d, i);
    if i > 0 {
        lemma_summed_at(v, i - 1);
        let before = total(d.take(i)) as int;
        let step = (v[i] - v[i - 1]) % 65536;
        assert(d[i] == step);
        assert(before % 65536 == v[i - 1]);
        assert((before + step) % 65536 == v[i]);
    } else {
        assert(d.take(0) =~= Seq::empty());
    }
}

/// Adding the differences up gives the numbers.
pub proof fn lemma_summed_back(v: Seq<u16>)
    ensures
        summed(deltas(v)) == v,
        forall|i: int| 0 <= i < v.len() ==> #[trigger] deltas(v)[i] < 65536,
{
    let r = summed(deltas(v));
    assert forall|i: int| 0 <= i < v.len() implies #[trigger] r[i] == v[i] by {
        lemma_summed_at(v, i);
    }
    assert(r =~= v);
}

// ---------------------------------------------------------------------------
// Texts with a length in front
// ---------------------------------------------------------------------------

/// The `n` runs of bytes from a position on, each behind a byte with its length;
/// none where they run past the end.
pub open spec fn labelled(data: Seq<u8>, pos: int, n: nat) -> Option<Seq<Seq<u8>>>
    decreases n,
{
    if n == 0 {
        Some(Seq::empty())
    } else if pos + 1 > data.len() || pos + 1 + data[pos] > data.len() {
        None
    } else {
        let next = pos + 1 + data[pos];
        match labelled(data, next, (n - 1) as nat) {
            Some(rest) => Some(seq![data.subrange(pos + 1, next)] + rest),
            None => None,
        }
    }
}

/// Runs of at most 255 bytes, each behind a byte with its length.
pub open spec fn labelled_bytes(parts: Seq<Seq<u8>>) -> Seq<u8>
    decreases parts.len(),
{
    if parts.len() == 0 {
        Seq::empty()
    } else {
        seq![parts[0].len() as u8] + parts[0] + labelled_bytes(parts.skip(1))
    }
}

/// Labelled runs and one more.
pub proof fn lemma_labelled_push(parts: Seq<Seq<u8>>, last: Seq<u8>)
    ensures
        labelled_bytes(parts.push(last)) == labelled_bytes(parts) + (seq![last.len() as u8] + last),
    decreases parts.len(),
{
    let all = parts.push(last);
    if parts.len() == 0 {
        assert(all.skip(1) =~= Seq::empty());
        assert(labelled_bytes(all.skip(1)) =~= Seq::empty());
        assert(all[0] == last);
        assert(labelled_bytes(all) =~= labelled_bytes(parts) + (seq![last.len() as u8] + last));
    } else {
        assert(all.skip(1) =~= parts.skip(1).push(last));
        lemma_labelled_push(parts.skip(1), last);
        assert(labelled_bytes(all) =~= labelled_bytes(parts) + (seq![last.len() as u8] + last));
    }
}

/// Labelled runs that were written are read back, whatever stands around them.
pub proof fn lemma_labelled_back(pre: Seq<u8>, parts: Seq<Seq<u8>>, post: Seq<u8>)
    requires
        forall|i: int| 0 <= i < parts.len() ==> (#[trigger] parts[i]).len() <= 255,
    ensures
        labelled(pre + labelled_bytes(parts) + post, pre.len() as int, parts.len()) == Some(parts),
    decreases parts.len(),
{
    let data = pre + labelled_bytes(parts) + post;
    if parts.len() == 0 {
        assert(parts =~= Seq::empty());
    } else {
        let first = parts[0];
        let rest = parts.skip(1);
        let next = pre + (seq![first.len() as u8] + first);
        assert forall|i: int| 0 <= i < rest.len() implies (#[trigger] rest[i]).len() <= 255 by {
            assert(rest[i] == parts[i + 1]);
        }
        lemma_labelled_back(next, rest, post);
        assert(next + labelled_bytes(rest) + post =~= data);
        let pos = pre.len() as int;
        assert(data[pos] == first.len() as u8);
        assert(data.subrange(pos + 1, pos + 1 + first.len()) =~= first);
        assert(seq![first] + rest =~= parts);
    }
}

// ---------------------------------------------------------------------------
// Texts from bytes
// ---------------------------------------------------------------------------

/// Bytes that are the UTF-8 form of a text.
pub open spec fn is_utf8(b: Seq<u8>) -> bool {
    exists|s: Seq<char>| #[trigger] utf8(s) == b
}

/// The text that `String::from_utf8_lossy` makes of bytes that are no UTF-8.
pub uninterp spec fn lossy_text(b: Seq<u8>) -> Seq<char>;

/// Calls `String::from_utf8_lossy`: the UTF-8 form of a text gives that text, and
/// what other bytes give depends on the bytes alone. What stands for the parts that
/// are no UTF-8 is not described further.
#[verifier::external_body]
fn from_utf8_lossy(b: &[u8]) -> (r: String)
    ensures
        is_utf8(b@) ==> utf8(r@) == b@,
        !is_utf8(b@) ==> r@ == lossy_text(b@),
{
    String::from_utf8_lossy(b).into_owned()
}

/// The text of bytes.
pub open spec fn byte_text(b: Seq<u8>) -> Seq<char> {
    if is_utf8(b) {
        choose|s: Seq<char>| #[trigger] utf8(s) == b
    } else {
        lossy_text(b)
    }
}

/// The text of bytes.
pub fn text_of_bytes(b: &[u8]) -> (r: String)
    ensures
        r@ == byte_text(b@),
{
    let r = from_utf8_lossy(b);
    proof {
        if is_utf8(b@) {
            lemma_utf8_injective(r@, byte_text(b@));
        }
    }
    r
}

/// The bytes of a text give the text.
pub proof fn law_text_bytes(s: Seq<char>)
    ensures
        byte_text(utf8(s)) == s,
{
    assert(utf8(s) == utf8(s));
    lemma_utf8_injective(s, byte_text(utf8(s)));
}

} // verus!
