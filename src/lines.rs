//! The sequence as text: one line per positive integer, and the stream of
//! lines over a half-open range.

use crate::decimal::{
    decimal, digits_of, lemma_width_block_rendering, pow10, NEWLINE,
};
use vstd::arithmetic::div_mod::lemma_mod_multiples_vanish;
use vstd::prelude::*;

verus! {

/// The bytes of the word `Fizz`.
pub open spec fn fizz_word() -> Seq<u8> {
    seq![70u8, 105u8, 122u8, 122u8]
}

/// The bytes of the word `Buzz`.
pub open spec fn buzz_word() -> Seq<u8> {
    seq![66u8, 117u8, 122u8, 122u8]
}

/// The line emitted for `n`, terminator included.
pub open spec fn fizz_line(n: nat) -> Seq<u8> {
    if n % 3 == 0 && n % 5 == 0 {
        fizz_word() + buzz_word() + seq![NEWLINE]
    } else if n % 3 == 0 {
        fizz_word() + seq![NEWLINE]
    } else if n % 5 == 0 {
        buzz_word() + seq![NEWLINE]
    } else {
        decimal(n) + seq![NEWLINE]
    }
}

/// The lines of every integer in `[lo, hi)`, in order.
pub open spec fn fizz_stream(lo: nat, hi: nat) -> Seq<u8>
    decreases hi - lo,
{
    if hi <= lo {
        Seq::empty()
    } else {
        fizz_stream(lo, (hi - 1) as nat) + fizz_line((hi - 1) as nat)
    }
}

/// Streams of adjacent ranges concatenate to the stream of their union.
pub proof fn lemma_stream_concat(a: nat, b: nat, c: nat)
    requires
        a <= b <= c,
    ensures
        fizz_stream(a, b) + fizz_stream(b, c) == fizz_stream(a, c),
    decreases c - b,
{
    if b == c {
        assert(fizz_stream(a, b) + fizz_stream(b, c) =~= fizz_stream(a, c));
    } else {
        lemma_stream_concat(a, b, (c - 1) as nat);
        assert(fizz_stream(a, b) + fizz_stream(b, c) =~= fizz_stream(a, c));
    }
}

/// Output handed out in consecutive chunks, each the stream of the next range
/// of integers, concatenates to the line-by-line stream of the whole range.
pub proof fn lemma_chunks_concat(cuts: Seq<nat>)
    requires
        cuts.len() >= 1,
        forall|i: int| 0 <= i < cuts.len() - 1 ==> cuts[i] <= #[trigger] cuts[i + 1],
    ensures
        Seq::new(
            (cuts.len() - 1) as nat,
            |i: int| fizz_stream(cuts[i], cuts[i + 1]),
        ).flatten() == fizz_stream(cuts[0], cuts.last()),
    decreases cuts.len(),
{
    let chunks = Seq::new((cuts.len() - 1) as nat, |i: int| fizz_stream(cuts[i], cuts[i + 1]));
    if cuts.len() == 1 {
        assert(chunks =~= Seq::empty());
        assert(fizz_stream(cuts[0], cuts[0]) =~= Seq::empty());
    } else {
        let front = cuts.drop_last();
        assert forall|i: int| 0 <= i < front.len() - 1 implies front[i] <= #[trigger] front[i
            + 1] by {
            assert(front[i] == cuts[i] && front[i + 1] == cuts[i + 1]);
        }
        lemma_chunks_concat(front);
        let fchunks = Seq::new(
            (front.len() - 1) as nat,
            |i: int| fizz_stream(front[i], front[i + 1]),
        );
        assert(chunks.drop_last() =~= fchunks);
        assert(chunks =~= chunks.drop_last().push(chunks.last()));
        chunks.drop_last().lemma_flatten_push(chunks.last());
        assert forall|i: int, j: int| 0 <= i <= j < cuts.len() implies cuts[i] <= cuts[j] by {
            lemma_cuts_ordered(cuts, i, j);
        }
        lemma_stream_concat(cuts[0], cuts[cuts.len() - 2], cuts.last());
    }
}

proof fn lemma_cuts_ordered(cuts: Seq<nat>, i: int, j: int)
    requires
        0 <= i <= j < cuts.len(),
        forall|k: int| 0 <= k < cuts.len() - 1 ==> cuts[k] <= #[trigger] cuts[k + 1],
    ensures
        cuts[i] <= cuts[j],
    decreases j - i,
{
    if i < j {
        lemma_cuts_ordered(cuts, i, j - 1);
        assert(cuts[j - 1] <= cuts[(j - 1) + 1]);
    }
}

/// Whether the line for `n` is a number rather than a keyword.
pub open spec fn is_numeric(n: nat) -> bool {
    n % 3 != 0 && n % 5 != 0
}

/// Whether `n` lies in the digit-width block of width `d`.
pub open spec fn in_block(n: nat, d: nat) -> bool {
    d >= 1 && pow10((d - 1) as nat) <= n < pow10(d)
}

/// Length of the line at position `r` of a period that starts just after a
/// multiple of 15 plus 10 (`r` is that position plus 10, modulo 15).
pub open spec fn class_len(d: nat, r: nat) -> nat {
    if r == 0 {
        9
    } else if r % 3 == 0 || r % 5 == 0 {
        5
    } else {
        d + 1
    }
}

/// Bytes taken by the first `j` lines of a period that starts at a number
/// congruent to 10 modulo 15, with `d`-digit numbers.
pub open spec fn cycle_offset(d: nat, j: nat) -> nat
    decreases j,
{
    if j == 0 {
        0
    } else {
        cycle_offset(d, (j - 1) as nat) + class_len(d, ((10 + j - 1) % 15) as nat)
    }
}

/// The shape of one line within a digit-width block.
pub proof fn lemma_line_shape(n: nat, d: nat)
    requires
        in_block(n, d),
    ensures
        fizz_line(n).len() == class_len(d, n % 15),
        fizz_line(n).len() >= 1,
        fizz_line(n).last() == NEWLINE,
        is_numeric(n) ==> fizz_line(n) == digits_of(n, d) + seq![NEWLINE],
{
    lemma_width_block_rendering(n, d);
}

/// Advancing by a multiple of 15 keeps the kind of a line, and a keyword line
/// stays the same.
pub proof fn lemma_line_shift(n: nat, k: nat)
    ensures
        (n + 15 * k) % 15 == n % 15,
        is_numeric(n + 15 * k) == is_numeric(n),
        !is_numeric(n) ==> fizz_line(n + 15 * k) == fizz_line(n),
{
    lemma_mod_multiples_vanish(k as int, n as int, 15);
    lemma_mod_multiples_vanish((5 * k) as int, n as int, 3);
    lemma_mod_multiples_vanish((3 * k) as int, n as int, 5);
    assert(15 * k + n == 3 * (5 * k) + n);
    assert(15 * k + n == 5 * (3 * k) + n);
}

/// A nonempty stream within a block ends with a line feed.
pub proof fn lemma_stream_last(lo: nat, hi: nat, d: nat)
    requires
        lo < hi,
        in_block((hi - 1) as nat, d),
    ensures
        fizz_stream(lo, hi).len() >= 1,
        fizz_stream(lo, hi).last() == NEWLINE,
{
    lemma_line_shape((hi - 1) as nat, d);
}

/// Splitting off the first line of a stream.
pub proof fn lemma_stream_front(lo: nat, hi: nat)
    requires
        lo < hi,
    ensures
        fizz_stream(lo, hi) == fizz_line(lo) + fizz_stream(lo + 1, hi),
{
    lemma_stream_concat(lo, lo + 1, hi);
    assert(fizz_stream(lo, lo) == Seq::<u8>::empty());
    assert(fizz_stream(lo, lo + 1) == fizz_stream(lo, lo) + fizz_line(lo));
    assert(fizz_stream(lo, lo + 1) =~= fizz_line(lo));
}

/// Byte length of the first `j` lines of a period starting at `x`, where
/// `x` is 10 modulo 15, and of `c` whole periods.
pub proof fn lemma_cycle_len(x: nat, d: nat, c: nat, j: nat)
    requires
        x % 15 == 10,
        in_block(x, d),
        j <= 15,
        x + 15 * c + j <= pow10(d),
    ensures
        fizz_stream(x, x + 15 * c + j).len() == c * (47 + 8 * d) + cycle_offset(d, j),
    decreases c, j,
{
    if j > 0 {
        lemma_cycle_len(x, d, c, (j - 1) as nat);
        let n = (x + 15 * c + j - 1) as nat;
        lemma_line_shape(n, d);
        lemma_line_shift(x + (j - 1) as nat, c);
        assert(n == x + (j - 1) as nat + 15 * c);
        lemma_mod_multiples_vanish(0, (10 + j - 1) as int, 15);
        assert((x + (j - 1) as nat) % 15 == ((10 + j - 1) % 15) as nat) by {
            lemma_mod_multiples_vanish((x / 15) as int, (10 + j - 1) as int, 15);
            assert(x == 15 * (x / 15) + 10);
        }
        let hi = x + 15 * c + j;
        assert(fizz_stream(x, hi) == fizz_stream(x, (hi - 1) as nat) + fizz_line((hi - 1) as nat));
        assert((hi - 1) as nat == n);
        assert((x + 15 * c + (j - 1) as nat) as nat == (hi - 1) as nat);
        assert(n % 15 == ((10 + j - 1) % 15) as nat);
        assert(fizz_line(n).len() == class_len(d, ((10 + j - 1) % 15) as nat));
        assert(cycle_offset(d, j) == cycle_offset(d, (j - 1) as nat) + class_len(
            d,
            ((10 + j - 1) % 15) as nat,
        ));
        assert(fizz_stream(x, x + 15 * c + j).len() == c * (47 + 8 * d) + cycle_offset(d, j));
    } else if c > 0 {
        lemma_cycle_len(x, d, (c - 1) as nat, 15);
        reveal_with_fuel(cycle_offset, 16);
        assert(cycle_offset(d, 15) == 47 + 8 * d);
        let c1 = (c - 1) as nat;
        assert(x + 15 * c1 + 15 == x + 15 * c + j);
        assert(fizz_stream(x, x + 15 * c1 + 15).len() == c1 * (47 + 8 * d) + cycle_offset(d, 15));
        assert(cycle_offset(d, j) == 0);
        let hi: nat = x + 15 * c + j;
        let hi1: nat = x + 15 * c1 + 15;
        assert(hi == hi1);
        let b = 47 + 8 * d;
        assert(c1 * b + b == c * b) by (nonlinear_arith)
            requires
                c1 + 1 == c,
        ;
        assert(fizz_stream(x, hi1).len() == c1 * (47 + 8 * d) + (47 + 8 * d));
        assert(fizz_stream(x, hi).len() == c * (47 + 8 * d));
        assert((c - 1) as nat * (47 + 8 * d) + (47 + 8 * d) == c * (47 + 8 * d)) by (nonlinear_arith)
            requires
                c > 0,
        ;
        assert(fizz_stream(x, x + 15 * c + j).len() == c * (47 + 8 * d) + cycle_offset(d, j));
    } else {
        assert(x + 15 * c + j == x);
        assert(c == 0 && j == 0);
        assert(c * (47 + 8 * d) == 0);
        assert(cycle_offset(d, 0) == 0);
        assert(fizz_stream(x, x).len() == 0);
        assert(fizz_stream(x, x + 15 * c + j).len() == c * (47 + 8 * d) + cycle_offset(d, j));
    }
}

} // verus!
