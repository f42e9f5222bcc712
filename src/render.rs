//! Rendering one line of the sequence into the output buffer.

use crate::buffer::{Buffer, Overrun, BUF_SIZE};
use crate::decimal::{
    decimal, digits_of, lemma_digits_of_extend, lemma_num_digits_by_division, lemma_pow10_pos,
    lemma_u64_below_pow10_20, num_digits, pow10, DIGIT_ZERO, NEWLINE,
};
use crate::lines::{buzz_word, fizz_line, fizz_word};
use vstd::arithmetic::div_mod::lemma_div_denominator;
use vstd::prelude::*;
use vstd::slice::slice_subrange;

verus! {

/// Appends the line for `i` to `out`: the combined keyword when 3 and 5 both
/// divide `i`, `Fizz` when only 3 does, `Buzz` when only 5 does, else the
/// decimal digits of `i`; then a line feed. Nothing is written when the line
/// does not fit.
pub fn write_fizz_buzz(i: u64, out: &mut Buffer) -> (r: Result<(), Overrun>)
    requires
        old(out).wf(),
    ensures
        final(out).wf(),
        fizz_line(i as nat).len() <= BUF_SIZE - old(out).contents().len() ==> r is Ok
            && final(out).contents() == old(out).contents() + fizz_line(i as nat),
        fizz_line(i as nat).len() > BUF_SIZE - old(out).contents().len() ==> r is Err
            && final(out).contents() == old(out).contents(),
{
    if i % 3 == 0 && i % 5 == 0 {
        let line: [u8; 9] = [70, 105, 122, 122, 66, 117, 122, 122, NEWLINE];
        assert(line@ =~= fizz_word() + buzz_word() + seq![NEWLINE]);
        out.write(line.as_slice())
    } else if i % 3 == 0 {
        let line: [u8; 5] = [70, 105, 122, 122, NEWLINE];
        assert(line@ =~= fizz_word() + seq![NEWLINE]);
        out.write(line.as_slice())
    } else if i % 5 == 0 {
        let line: [u8; 5] = [66, 117, 122, 122, NEWLINE];
        assert(line@ =~= buzz_word() + seq![NEWLINE]);
        out.write(line.as_slice())
    } else {
        let (line, start) = decimal_line(i);
        out.write(slice_subrange(line.as_slice(), start, line.len()))
    }
}

/// A scratch line holding, from the returned index on, the decimal digits of
/// `n` followed by a line feed.
fn decimal_line(n: u64) -> (r: (Vec<u8>, usize))
    ensures
        r.1 <= r.0@.len(),
        r.0@.subrange(r.1 as int, r.0@.len() as int) == decimal(n as nat) + seq![NEWLINE],
{
    let mut tmp: Vec<u8> = vec![0u8; 21];
    tmp.set(20, NEWLINE);
    let mut pos: usize = 20;
    let mut v: u64 = n;
    proof {
        assert(pow10(0) == 1);
        assert(n as nat / 1 == n as nat);
        assert(tmp@.subrange(20, 20) =~= digits_of(n as nat, 0));
        lemma_u64_below_pow10_20(n);
    }
    loop
        invariant_except_break
            v as nat == n as nat / pow10((20 - pos) as nat),
            pos == 20 || v != 0,
        invariant
            pos <= 20,
            tmp@.len() == 21,
            tmp@[20] == NEWLINE,
            tmp@.subrange(pos as int, 20) == digits_of(n as nat, (20 - pos) as nat),
            (n as nat) < pow10(20),
        ensures
            num_digits(n as nat) == 20 - pos,
        decreases pos,
    {
        let ghost k = (20 - pos) as nat;
        proof {
            lemma_pow10_pos(k);
            if pos == 0 {
                vstd::arithmetic::div_mod::lemma_basic_div_specific_divisor(pow10(20) as int);
                assert((n as int) / (pow10(20) as int) == 0);
            }
        }
        pos -= 1;
        tmp.set(pos, DIGIT_ZERO + (v % 10) as u8);
        proof {
            lemma_div_denominator(n as int, pow10(k) as int, 10);
            assert(pow10(k + 1) == 10 * pow10(k));
            assert(pow10(k) * 10 == pow10(k + 1));
            lemma_digits_of_extend(n as nat, k);
            assert(tmp@.subrange(pos as int, 20) =~= seq![(DIGIT_ZERO + (v % 10)) as u8]
                + digits_of(n as nat, k));
        }
        v = v / 10;
        if v == 0 {
            proof {
                lemma_num_digits_by_division(n as nat, k + 1);
            }
            break ;
        }
    }
    proof {
        assert(tmp@.subrange(pos as int, 21) =~= tmp@.subrange(pos as int, 20) + seq![NEWLINE]);
    }
    (tmp, pos)
}

} // verus!
