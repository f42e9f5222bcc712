//! A fixed-capacity output buffer, and the in-place ripple-carry update of an
//! ASCII number that it already holds.

use crate::decimal::{
    all_digits, carried, is_digit, lemma_digits_of_value, lemma_pow10_mono, lemma_update_digits, lemma_value_update,
    pow10, value_of, DIGIT_NINE, DIGIT_ZERO,
};
use vstd::prelude::*;
use vstd::slice::slice_subrange;

verus! {

/// Capacity of the output buffer in bytes.
pub const BUF_SIZE: usize = 65536;

/// An append that does not fit in the space left in the buffer.
#[derive(Debug, PartialEq, Eq)]
pub struct Overrun;

/// Where the run of ASCII digits that ends just before index `i` begins.
pub open spec fn run_start(s: Seq<u8>, i: int) -> int
    decreases i,
{
    if 0 < i <= s.len() && is_digit(s[i - 1]) {
        run_start(s, i - 1)
    } else {
        i
    }
}

/// The maximal run of ASCII digits that ends at index `i` (inclusive).
pub open spec fn digit_run(s: Seq<u8>, i: int) -> Seq<u8> {
    s.subrange(run_start(s, i), i + 1)
}

/// A run that starts after a non-digit (or at the start) and holds digits up to
/// `i` is the maximal run ending at `i`.
pub proof fn lemma_run_start(s: Seq<u8>, j: int, i: int)
    requires
        0 <= j <= i < s.len(),
        all_digits(s.subrange(j, i + 1)),
        j == 0 || !is_digit(s[j - 1]),
    ensures
        run_start(s, i) == j,
    decreases i - j,
{
    if i > j {
        assert(s.subrange(j, i + 1)[i - 1 - j] == s[i - 1]);
        assert(all_digits(s.subrange(j, i))) by {
            assert forall|k: int| 0 <= k < i - j implies is_digit(#[trigger] s.subrange(j, i)[k]) by {
                assert(s.subrange(j, i)[k] == s.subrange(j, i + 1)[k]);
            }
        }
        lemma_run_start(s, j, i - 1);
    } else if j > 0 {
        assert(!is_digit(s[i - 1]));
    }
}

/// A byte buffer of capacity `BUF_SIZE` and the count of valid bytes in it.
pub struct Buffer {
    data: Vec<u8>,
    offset: usize,
}

impl Buffer {
    /// The storage has its full capacity and the cursor lies within it.
    pub closed spec fn wf(&self) -> bool {
        &&& self.data@.len() == BUF_SIZE
        &&& self.offset <= BUF_SIZE
    }

    /// The valid bytes, those written since the last flush.
    pub closed spec fn contents(&self) -> Seq<u8> {
        self.data@.subrange(0, self.offset as int)
    }

    /// An empty buffer.
    pub fn new() -> (r: Buffer)
        ensures
            r.wf(),
            r.contents() == Seq::<u8>::empty(),
    {
        let r = Buffer { data: vec![0u8; BUF_SIZE], offset: 0 };
        assert(r.contents() =~= Seq::<u8>::empty());
        r
    }

    /// How many more bytes fit.
    pub fn spare_capacity(&self) -> (r: usize)
        requires
            self.wf(),
        ensures
            r == BUF_SIZE - self.contents().len(),
    {
        BUF_SIZE - self.offset
    }

    /// The valid bytes.
    pub fn view(&self) -> (r: &[u8])
        requires
            self.wf(),
        ensures
            r@ == self.contents(),
    {
        slice_subrange(self.data.as_slice(), 0, self.offset)
    }

    /// Appends `bytes`, or leaves the buffer as it was when they do not fit.
    pub fn write(&mut self, bytes: &[u8]) -> (r: Result<(), Overrun>)
        requires
            old(self).wf(),
        ensures
            final(self).wf(),
            bytes@.len() <= BUF_SIZE - old(self).contents().len() ==> r is Ok
                && final(self).contents() == old(self).contents() + bytes@,
            bytes@.len() > BUF_SIZE - old(self).contents().len() ==> r is Err
                && final(self).contents() == old(self).contents(),
    {
        let n = bytes.len();
        if n > self.spare_capacity() {
            return Err(Overrun);
        }
        let ghost d0 = self.data@;
        let start = self.offset;
        let mut i: usize = 0;
        while i < n
            invariant
                0 <= i <= n,
                n == bytes@.len(),
                start + n <= BUF_SIZE,
                start == self.offset,
                self.data@.len() == BUF_SIZE,
                forall|j: int| 0 <= j < start ==> self.data@[j] == d0[j],
                forall|j: int| 0 <= j < i ==> self.data@[start + j] == bytes@[j],
            decreases n - i,
        {
            self.data.set(start + i, bytes[i]);
            i += 1;
        }
        self.offset = start + n;
        assert(self.contents() =~= old(self).contents() + bytes@);
        Ok(())
    }

    /// Hands out the valid bytes and empties the buffer; the next append
    /// writes over them.
    pub fn flush(&mut self) -> (r: &[u8])
        requires
            old(self).wf(),
        ensures
            final(self).wf(),
            r@ == old(self).contents(),
            final(self).contents() == Seq::<u8>::empty(),
    {
        let n = self.offset;
        self.offset = 0;
        assert(self.contents() =~= Seq::<u8>::empty());
        slice_subrange(self.data.as_slice(), 0, n)
    }

    /// Adds the digit `addend` to the number whose last ASCII digit is at
    /// `offset`, carrying leftward through the run of digits that ends there.
    pub fn ripple_carry_add_ascii(&mut self, offset: usize, addend: u8)
        requires
            old(self).wf(),
            offset < old(self).contents().len(),
            is_digit(old(self).contents()[offset as int]),
            addend <= 9,
            value_of(digit_run(old(self).contents(), offset as int)) + addend < pow10(
                digit_run(old(self).contents(), offset as int).len(),
            ),
        ensures
            final(self).wf(),
            final(self).contents() == old(self).contents().subrange(
                0,
                run_start(old(self).contents(), offset as int),
            ) + carried(digit_run(old(self).contents(), offset as int), addend as nat)
                + old(self).contents().subrange(offset + 1, old(self).contents().len() as int),
    {
        let ghost s0 = self.contents();
        let ghost d0 = self.data@;
        let ghost rs = run_start(s0, offset as int);
        let ghost t = digit_run(s0, offset as int);
        let ghost goal = value_of(t) + addend;
        proof {
            lemma_run_start_bounds(s0, offset as int);
            assert(all_digits(t)) by {
                lemma_run_digits(s0, offset as int + 1);
            }
        }
        let digit = self.data[offset] + addend;
        if digit > DIGIT_NINE {
            self.data.set(offset, digit - 10);
            proof {
                assert(t =~= d0.subrange(rs, offset + 1));
                assert(self.data@.subrange(rs, offset + 1) =~= t.update(
                    offset - rs,
                    (digit - 10) as u8,
                ));
                assert(t[offset - rs] == d0[offset as int]);
                assert((t.len() - 1 - (offset - rs)) as nat == 0);
                lemma_value_update(t, offset - rs, (digit - 10) as u8);
                lemma_update_digits(t, offset - rs, (digit - 10) as u8);
                assert(pow10(0) == 1);
                assert(pow10(1) == 10 * pow10(0));
            }
            let mut i = offset;
            loop
                invariant_except_break
                    value_of(self.data@.subrange(rs, offset + 1)) + pow10(
                        (offset + 1 - i) as nat,
                    ) == goal,
                invariant
                    0 <= rs <= i <= offset,
                    offset < self.offset,
                    self.offset <= BUF_SIZE,
                    self.offset == old(self).offset,
                    self.data@.len() == BUF_SIZE,
                    forall|j: int|
                        0 <= j < BUF_SIZE && (j < rs || j > offset) ==> self.data@[j] == d0[j],
                    all_digits(self.data@.subrange(rs, offset + 1)),
                    goal < pow10(t.len()),
                    t.len() == offset + 1 - rs,
                ensures
                    value_of(self.data@.subrange(rs, offset + 1)) == goal,
                decreases i,
            {
                assert(i > rs) by {
                    if i <= rs {
                        lemma_pow10_mono(t.len(), (offset + 1 - i) as nat);
                    }
                }
                i -= 1;
                let ghost cur = self.data@.subrange(rs, offset + 1);
                let ghost e = (offset - i) as nat;
                proof {
                    assert(cur[i - rs] == self.data@[i as int]);
                    assert((cur.len() - 1 - (i - rs)) as nat == e);
                    assert(pow10(e + 1) == 10 * pow10(e));
                    assert((offset + 1 - i) as nat == e + 1);
                }
                if self.data[i] == DIGIT_NINE {
                    self.data.set(i, DIGIT_ZERO);
                    proof {
                        assert(self.data@.subrange(rs, offset + 1) =~= cur.update(
                            i - rs,
                            DIGIT_ZERO,
                        ));
                        lemma_value_update(cur, i - rs, DIGIT_ZERO);
                        lemma_update_digits(cur, i - rs, DIGIT_ZERO);
                        assert(value_of(cur) + pow10(e) == goal);
                        assert(cur[i - rs] == DIGIT_NINE);
                        let p = pow10(e) as int;
                        let x = DIGIT_ZERO as int - cur[i - rs] as int;
                        assert(x * p == -9 * p) by (nonlinear_arith)
                            requires
                                x == -9,
                        ;
                        assert(value_of(cur.update(i - rs, DIGIT_ZERO)) as int == value_of(cur) as int - 9 * pow10(e));
                        assert(value_of(self.data@.subrange(rs, offset + 1)) as int == value_of(cur) as int - 9 * pow10(e));
                    }
                } else {
                    let next = self.data[i] + 1;
                    self.data.set(i, next);
                    proof {
                        assert(self.data@.subrange(rs, offset + 1) =~= cur.update(i - rs, next));
                        lemma_value_update(cur, i - rs, next);
                        lemma_update_digits(cur, i - rs, next);
                        assert(value_of(cur) + pow10(e) == goal);
                        assert(next == cur[i - rs] + 1);
                        let p = pow10(e) as int;
                        let x = next as int - cur[i - rs] as int;
                        assert(x * p == p) by (nonlinear_arith)
                            requires
                                x == 1,
                        ;
                        assert(value_of(cur.update(i - rs, next)) as int == value_of(cur) as int + pow10(e));
                    }
                    break ;
                }
            }
        } else {
            self.data.set(offset, digit);
            proof {
                assert(t =~= d0.subrange(rs, offset + 1));
                assert(self.data@.subrange(rs, offset + 1) =~= t.update(offset - rs, digit));
                assert(t[offset - rs] == d0[offset as int]);
                assert((t.len() - 1 - (offset - rs)) as nat == 0);
                lemma_value_update(t, offset - rs, digit);
                assert(pow10(0) == 1);
                lemma_update_digits(t, offset - rs, digit);
            }
        }
        proof {
            let run = self.data@.subrange(rs, offset + 1);
            lemma_digits_of_value(run);
            assert(self.contents() =~= s0.subrange(0, rs) + run + s0.subrange(
                offset + 1,
                s0.len() as int,
            ));
        }
    }
}

proof fn lemma_run_start_bounds(s: Seq<u8>, i: int)
    requires
        0 <= i <= s.len(),
    ensures
        0 <= run_start(s, i) <= i,
    decreases i,
{
    if 0 < i && is_digit(s[i - 1]) {
        lemma_run_start_bounds(s, i - 1);
    }
}

proof fn lemma_run_digits(s: Seq<u8>, i: int)
    requires
        0 < i <= s.len(),
        is_digit(s[i - 1]),
    ensures
        all_digits(s.subrange(run_start(s, i - 1), i)),
    decreases i,
{
    lemma_run_start_bounds(s, i - 1);
    let rs = run_start(s, i - 1);
    if i - 1 > 0 && is_digit(s[i - 2]) {
        lemma_run_digits(s, i - 1);
        assert forall|k: int| 0 <= k < i - rs implies is_digit(#[trigger] s.subrange(rs, i)[k]) by {
            if k < i - 1 - rs {
                assert(s.subrange(rs, i)[k] == s.subrange(rs, i - 1)[k]);
            }
        }
    } else {
        assert(rs == i - 1);
    }
}

} // verus!
