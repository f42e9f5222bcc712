//! Choosing how many lines go into one buffer load, and the single-digit
//! addend that advances every number by that many lines.

use crate::buffer::BUF_SIZE;
use crate::decimal::{lemma_pow10_mono, lemma_pow10_pos, lemma_pow10_add, lemma_quotient_range, pow10};
use vstd::arithmetic::div_mod::{lemma_fundamental_div_mod, lemma_hoist_over_denominator};
use vstd::prelude::*;

verus! {

/// Fixed bytes of one period of 15 lines: the keyword lines and the line
/// feeds of the eight numeric lines.
pub const CYCLE_FIXED_BYTES: usize = 47;

/// Bytes of one period of 15 lines whose numbers have `d` digits.
pub open spec fn bytes_per_cycle(d: nat) -> nat {
    (CYCLE_FIXED_BYTES + 8 * d) as nat
}

/// The most lines, in whole periods, that one buffer load can hold.
pub open spec fn max_lines(d: nat) -> nat {
    (BUF_SIZE as nat / bytes_per_cycle(d)) * 15
}

/// How many times `n` is divided by ten before it is at most 30.
pub open spec fn shift_count(n: nat) -> nat
    decreases n,
{
    if n > 30 {
        1 + shift_count(n / 10)
    } else {
        0
    }
}

/// What is left of `n` once it is at most 30.
pub open spec fn shifted(n: nat) -> nat
    decreases n,
{
    if n > 30 {
        shifted(n / 10)
    } else {
        n
    }
}

/// The addend (9, 6 or 3, the largest that the leading part allows) and the
/// count of suffix digits below it, for numbers of `d` digits; `None` when the
/// buffer cannot hold even three lines.
pub open spec fn batch_params(d: nat) -> Option<(u8, nat)> {
    let n = shifted(max_lines(d));
    let s = shift_count(max_lines(d));
    if n >= 9 {
        Some((9u8, s))
    } else if n >= 6 {
        Some((6u8, s))
    } else if n >= 3 {
        Some((3u8, s))
    } else {
        None
    }
}

/// Lines per buffer load for the parameters `(a, s)`.
pub open spec fn batch_lines(a: u8, s: nat) -> nat {
    a as nat * pow10(s)
}

/// Selects `(addend, suffix_digits)` for numbers of `digits` digits.
pub fn find_lines_per_buf2(digits: usize) -> (r: Option<(u8, usize)>)
    requires
        digits <= (usize::MAX - CYCLE_FIXED_BYTES) / 8,
    ensures
        r is Some <==> batch_params(digits as nat) is Some,
        r is Some ==> batch_params(digits as nat) == Some((r->Some_0.0, r->Some_0.1 as nat)),
{
    let bytes_per_cycle = CYCLE_FIXED_BYTES + 8 * digits;
    let max_cycles_per_buf = BUF_SIZE / bytes_per_cycle;
    let max_lines_per_buf = max_cycles_per_buf * 15;
    let mut n = max_lines_per_buf;
    let mut shift: usize = 0;
    while n > 30
        invariant
            shifted(n as nat) == shifted(max_lines(digits as nat)),
            shift + shift_count(n as nat) == shift_count(max_lines(digits as nat)),
            shift as nat + n as nat <= BUF_SIZE * 15,
        decreases n,
    {
        n = n / 10;
        shift = shift + 1;
    }
    if n >= 9 {
        Some((9, shift))
    } else if n >= 6 {
        Some((6, shift))
    } else if n >= 3 {
        Some((3, shift))
    } else {
        None
    }
}

proof fn lemma_shifted_bounds(n: nat)
    requires
        n >= 3,
    ensures
        3 <= shifted(n) <= 30,
        shifted(n) * pow10(shift_count(n)) <= n,
        n > 30 ==> shift_count(n) >= 1,
    decreases n,
{
    if n > 30 {
        lemma_shifted_bounds(n / 10);
        let x = shifted(n / 10);
        let p = pow10(shift_count(n / 10));
        assert(shifted(n) == x);
        assert(shift_count(n) == 1 + shift_count(n / 10));
        assert(pow10(1 + shift_count(n / 10)) == 10 * p);
        assert(pow10(shift_count(n)) == 10 * p);
        lemma_fundamental_div_mod(n as int, 10);
        let q = n / 10;
        assert(x * (10 * p) <= n) by (nonlinear_arith)
            requires
                x * p <= q,
                n == 10 * q + n % 10,
                n % 10 >= 0,
        ;
        assert(shifted(n) * pow10(shift_count(n)) == x * (10 * p));
    } else {
        assert(pow10(0) == 1);
        assert(shift_count(n) == 0);
        assert(shifted(n) == n);
        assert(shifted(n) * pow10(shift_count(n)) == n * 1);
    }
}

/// The parameters chosen for every digit width from 1 to 19 are sound: a
/// selection exists, a load is a whole number of periods, those periods fit
/// the buffer, and any number `v` whose advanced value stays within the width
/// keeps its leading part plus the addend within the digits left of the suffix.
pub proof fn lemma_batch_params_valid(d: nat, v: nat)
    requires
        1 <= d <= 19,
    ensures
        batch_params(d) is Some,
        ({
            let (a, s) = batch_params(d)->Some_0;
            &&& a == 3 || a == 6 || a == 9
            &&& s >= 1
            &&& batch_lines(a, s) % 15 == 0
            &&& batch_lines(a, s) <= max_lines(d)
            &&& (batch_lines(a, s) / 15) * bytes_per_cycle(d) <= BUF_SIZE
            &&& v + batch_lines(a, s) < pow10(d) ==> s < d && v / pow10(s) + a < pow10(
                (d - s) as nat,
            )
        }),
{
    let bpc = bytes_per_cycle(d);
    let m = max_lines(d);
    let cycles = BUF_SIZE as nat / bpc;
    assert(bpc <= 199);
    assert(cycles >= 329) by {
        lemma_quotient_range(BUF_SIZE as nat, bpc, 329, 65536);
    }
    lemma_shifted_bounds(m);
    let (a, s) = batch_params(d)->Some_0;
    let p = pow10(s);
    let l = batch_lines(a, s);
    lemma_pow10_pos(s);
    assert(p == 10 * pow10((s - 1) as nat));
    let p1 = pow10((s - 1) as nat);
    assert(l == 15 * ((a as nat / 3) * 2 * p1)) by (nonlinear_arith)
        requires
            l == a * p,
            p == 10 * p1,
            a == 3 || a == 6 || a == 9,
    ;
    vstd::arithmetic::div_mod::lemma_mod_multiples_vanish(((a as nat / 3) * 2 * p1) as int, 0, 15);
    vstd::arithmetic::div_mod::lemma_div_multiples_vanish(((a as nat / 3) * 2 * p1) as int, 15);
    assert(l <= m) by (nonlinear_arith)
        requires
            l == a * p,
            a <= shifted(m),
            shifted(m) * p <= m,
    ;
    assert(l / 15 <= cycles);
    assert((l / 15) * bpc <= cycles * bpc) by (nonlinear_arith)
        requires
            l / 15 <= cycles,
    ;
    lemma_fundamental_div_mod(BUF_SIZE as int, bpc as int);
    if v + batch_lines(a, s) < pow10(d) {
        if s >= d {
            lemma_pow10_mono(d, s);
            assert(a * p >= p) by (nonlinear_arith)
                requires
                    a >= 3,
                    p >= 1,
            ;
        }
        lemma_pow10_add((d - s) as nat, s);
        assert((d - s) as nat + s == d);
        lemma_hoist_over_denominator(v as int, a as int, p);
        assert(a * p == p * a) by (nonlinear_arith);
        lemma_quotient_range((v + a * p) as nat, p, 0, pow10((d - s) as nat));
    }
}

/// The `j`-th load size tried by the search: 300, 600, 900, 3000, 6000, 9000, ...
pub open spec fn candidate(j: nat) -> nat {
    (3 * (j % 3 + 1)) * pow10(2 + j / 3)
}

/// Whether the whole periods of `lines` take less than the buffer.
pub open spec fn fits_below(lines: nat, d: nat) -> bool {
    (lines / 15) * bytes_per_cycle(d) < BUF_SIZE
}

/// Tries the load sizes 300, 600, 900, 3000, ... in turn while their whole
/// periods take less than the buffer, and returns the last that did.
pub fn find_lines_per_buf(digits: usize) -> (r: usize)
    requires
        fits_below(300, digits as nat),
    ensures
        exists|j: nat|
            r == #[trigger] candidate(j) && !fits_below(candidate(j + 1), digits as nat) && forall|i: nat|
                i <= j ==> #[trigger] fits_below(candidate(i), digits as nat),
{
    proof {
        assert(300nat / 15 == 20);
        assert(digits < 500);
    }
    let cycle_bytes: u64 = CYCLE_FIXED_BYTES as u64 + 8 * digits as u64;
    let mut mult: u64 = 3;
    let mut base: u64 = 100;
    let mut last: u64 = 300;
    let ghost mut j: nat = 0;
    proof {
        reveal_with_fuel(pow10, 3);
        assert(candidate(0) == 300);
    }
    loop
        invariant
            cycle_bytes == bytes_per_cycle(digits as nat),
            cycle_bytes <= 5000,
            1 <= mult <= 9,
            mult == 3 * (j % 3 + 1),
            base == pow10(2 + j / 3),
            last == mult * base,
            last == candidate(j),
            last < 1000000,
            forall|i: nat| i <= j ==> #[trigger] fits_below(candidate(i), digits as nat),
        ensures
            last == candidate(j),
            !fits_below(candidate(j + 1), digits as nat),
            forall|i: nat| i <= j ==> #[trigger] fits_below(candidate(i), digits as nat),
            last < 1000000,
        decreases 1000000 - last,
    {
        proof {
            lemma_pow10_pos(2 + j / 3);
            assert(base <= last) by (nonlinear_arith)
                requires
                    last == mult * base,
                    mult >= 1,
            ;
            assert(pow10(2 + (j + 1) / 3) == if j % 3 == 2 {
                10 * base as nat
            } else {
                base as nat
            }) by {
                if j % 3 == 2 {
                    assert(2 + (j + 1) / 3 == 2 + j / 3 + 1);
                } else {
                    assert((j + 1) / 3 == j / 3);
                }
            }
        }
        let (next_mult, next_base) = if mult == 9 {
            (3, base * 10)
        } else {
            (mult + 3, base)
        };
        assert(next_mult * next_base <= 90000000) by (nonlinear_arith)
            requires
                next_base <= 10000000,
                next_mult <= 9,
        ;
        let next = next_mult * next_base;
        assert((next / 15) * cycle_bytes <= 90000000 * 5000) by (nonlinear_arith)
            requires
                next <= 90000000,
                cycle_bytes <= 5000,
        ;
        proof {
            assert(candidate(j + 1) == next);
        }
        if (next / 15) * cycle_bytes >= BUF_SIZE as u64 {
            break ;
        }
        proof {
            assert(next / 15 < 65536) by (nonlinear_arith)
                requires
                    (next / 15) * cycle_bytes < 65536,
                    cycle_bytes >= 1,
            ;
            assert(next < 1000000);
            assert(next > last) by (nonlinear_arith)
                requires
                    last == mult * base,
                    next == next_mult * next_base,
                    base >= 1,
                    (mult == 9 && next_mult == 3 && next_base == base * 10) || (mult < 9
                        && next_mult == mult + 3 && next_base == base),
            ;
            assert forall|i: nat| i <= j + 1 implies #[trigger] fits_below(
                candidate(i),
                digits as nat,
            ) by {
                if i == j + 1 {
                    assert(candidate(i) == next);
                }
            }
            j = j + 1;
        }
        mult = next_mult;
        base = next_base;
        last = next;
    }
    proof {
        assert(last as usize == candidate(j));
    }
    last as usize
}

} // verus!
