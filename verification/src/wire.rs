//! Little-endian integers in byte sequences, one at a time and in columns.

use vstd::prelude::*;

verus! {

/// The number of values that `n` bytes can take.
pub open spec fn span(n: nat) -> nat
    decreases n,
{
    if n == 0 {
        1
    } else {
        256 * span((n - 1) as nat)
    }
}

/// The spans of the integer types.
pub proof fn lemma_spans()
    ensures
        span(1) == 0x100,
        span(2) == 0x1_0000,
        span(4) == 0x1_0000_0000,
        span(8) == 0x1_0000_0000_0000_0000,
        span(16) == 0x1_0000_0000_0000_0000_0000_0000_0000_0000,
{
    reveal_with_fuel(span, 17);
}

/// More bytes take at least as many values.
pub proof fn lemma_span_grows(a: nat, b: nat)
    requires
        a <= b,
    ensures
        0 < span(a) <= span(b),
    decreases b,
{
    if a < b {
        lemma_span_grows(a, (b - 1) as nat);
    } else if a > 0 {
        lemma_span_grows((a - 1) as nat, (b - 1) as nat);
    }
}

/// The lowest `n` bytes of a number, the lowest first.
pub open spec fn le(v: nat, n: nat) -> Seq<u8>
    decreases n,
{
    if n == 0 {
        Seq::empty()
    } else {
        seq![(v % 256) as u8] + le(v / 256, (n - 1) as nat)
    }
}

/// The number that bytes write, the lowest byte first.
pub open spec fn le_value(b: Seq<u8>) -> nat
    decreases b.len(),
{
    if b.len() == 0 {
        0
    } else {
        b[0] as nat + 256 * le_value(b.skip(1))
    }
}

/// `n` bytes write a number below their span.
pub proof fn lemma_le_value_bound(b: Seq<u8>)
    ensures
        le_value(b) < span(b.len()),
    decreases b.len(),
{
    if b.len() > 0 {
        lemma_le_value_bound(b.skip(1));
    }
}

/// The bytes of a number in the span write the number, and there are `n` of them.
pub proof fn lemma_le(v: nat, n: nat)
    ensures
        le(v, n).len() == n,
        v < span(n) ==> le_value(le(v, n)) == v,
    decreases n,
{
    if n > 0 {
        lemma_le(v / 256, (n - 1) as nat);
        assert(le(v, n).skip(1) =~= le(v / 256, (n - 1) as nat));
    }
}

/// The bytes that write a number are the bytes of that number.
pub proof fn lemma_le_of_value(b: Seq<u8>)
    ensures
        le(le_value(b), b.len()) == b,
    decreases b.len(),
{
    if b.len() > 0 {
        lemma_le_of_value(b.skip(1));
        let v = le_value(b);
        assert(v % 256 == b[0] as nat);
        assert(v / 256 == le_value(b.skip(1)));
        assert(le(v, b.len()) =~= b);
    } else {
        assert(le(le_value(b), b.len()) =~= b);
    }
}

/// Appends the lowest `n` bytes of a number.
pub fn put(out: &mut Vec<u8>, v: u128, n: usize)
    ensures
        final(out)@ == old(out)@ + le(v as nat, n as nat),
{
    let mut rest: u128 = v;
    for i in 0..n
        invariant
            out@ + le(rest as nat, (n - i) as nat) == old(out)@ + le(v as nat, n as nat),
    {
        let ghost before = out@;
        let b: u8 = (rest % 256) as u8;
        out.push(b);
        assert(out@ + le(rest as nat / 256, (n - i - 1) as nat) =~= before + le(
            rest as nat,
            (n - i) as nat,
        ));
        rest = rest / 256;
    }
    assert(out@ =~= old(out)@ + le(v as nat, n as nat));
}

/// Reads the number in the `n` bytes at a position.
pub fn take(data: &[u8], pos: usize, n: usize) -> (r: u128)
    requires
        pos + n <= data.len(),
        n <= 16,
    ensures
        r as nat == le_value(data@.subrange(pos as int, pos + n)),
        r < span(n as nat),
{
    let mut v: u128 = 0;
    let mut i: usize = n;
    assert(data@.subrange(pos + n, pos + n) =~= Seq::empty());
    while i > 0
        invariant
            i <= n <= 16,
            pos + n <= data.len(),
            v as nat == le_value(data@.subrange(pos + i, pos + n)),
        decreases i,
    {
        let ghost tail = data@.subrange(pos + i, pos + n);
        let ghost more = data@.subrange(pos + i - 1, pos + n);
        proof {
            assert(more.skip(1) =~= tail);
            assert(more[0] == data@[pos + i - 1]);
            lemma_le_value_bound(more);
            lemma_span_grows(more.len(), 16);
            lemma_spans();
        }
        i = i - 1;
        v = (data[pos + i] as u128) + 256 * v;
    }
    proof {
        lemma_le_value_bound(data@.subrange(pos as int, pos + n));
    }
    v
}

// ---------------------------------------------------------------------------
// Columns
// ---------------------------------------------------------------------------

/// Numbers one after the other, `w` bytes each.
pub open spec fn le_all(vals: Seq<nat>, w: nat) -> Seq<u8>
    decreases vals.len(),
{
    if vals.len() == 0 {
        Seq::empty()
    } else {
        le_all(vals.drop_last(), w) + le(vals.last(), w)
    }
}

/// The `i`-th run of `w` bytes from a position on.
pub open spec fn slot(data: Seq<u8>, pos: int, w: nat, i: int) -> Seq<u8> {
    data.subrange(pos + i * w, pos + i * w + w)
}

/// The `i`-th of the `w`-byte numbers that start at a position.
pub open spec fn cell(data: Seq<u8>, pos: int, w: nat, i: int) -> nat {
    le_value(slot(data, pos, w, i))
}

/// The `n` numbers of `w` bytes that start at a position.
pub open spec fn column(data: Seq<u8>, pos: int, n: nat, w: nat) -> Seq<nat> {
    Seq::new(n, |i: int| cell(data, pos, w, i))
}

/// Runs of the same width: the positions inside them.
pub proof fn lemma_slots(n: nat, w: nat, i: int)
    requires
        0 <= i < n,
    ensures
        0 <= i * w,
        i * w + w <= n * w,
{
    assert(0 <= i * w) by (nonlinear_arith)
        requires
            0 <= i,
    ;
    assert(i * w + w <= n * w) by (nonlinear_arith)
        requires
            i + 1 <= n,
    ;
}

/// The length of numbers one after the other, and where each of them stands.
pub proof fn lemma_le_all(vals: Seq<nat>, w: nat)
    ensures
        le_all(vals, w).len() == vals.len() * w,
        forall|i: int|
            0 <= i < vals.len() ==> #[trigger] slot(le_all(vals, w), 0, w, i) == le(vals[i], w),
    decreases vals.len(),
{
    if vals.len() > 0 {
        let init = vals.drop_last();
        let n = vals.len();
        lemma_le_all(init, w);
        lemma_le(vals.last(), w);
        assert(n * w == (n - 1) * w + w) by (nonlinear_arith);
        assert forall|i: int| 0 <= i < n implies #[trigger] slot(le_all(vals, w), 0, w, i) == le(
            vals[i],
            w,
        ) by {
            lemma_slots(n, w, i);
            if i == n - 1 {
                assert(slot(le_all(vals, w), 0, w, i) =~= le(vals[i], w));
            } else {
                lemma_slots((n - 1) as nat, w, i);
                assert(slot(le_all(init, w), 0, w, i) == le(init[i], w));
                assert(slot(le_all(vals, w), 0, w, i) =~= slot(le_all(init, w), 0, w, i));
            }
        }
    } else {
        assert(0 * w == 0) by (nonlinear_arith);
    }
}

/// A column that was written is read back, whatever stands around it.
pub proof fn lemma_column(pre: Seq<u8>, vals: Seq<nat>, w: nat, post: Seq<u8>)
    requires
        forall|i: int| 0 <= i < vals.len() ==> #[trigger] vals[i] < span(w),
    ensures
        column(pre + le_all(vals, w) + post, pre.len() as int, vals.len(), w) == vals,
        le_all(vals, w).len() == vals.len() * w,
{
    lemma_le_all(vals, w);
    let data = pre + le_all(vals, w) + post;
    let at = pre.len() as int;
    let col = column(data, at, vals.len(), w);
    assert forall|i: int| 0 <= i < vals.len() implies #[trigger] col[i] == vals[i] by {
        lemma_slots(vals.len(), w, i);
        assert(slot(data, at, w, i) =~= slot(le_all(vals, w), 0, w, i));
        lemma_le(vals[i], w);
    }
    assert(col =~= vals);
}

} // verus!
