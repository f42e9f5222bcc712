//! A decimal counter kept as ASCII digits and advanced in place, so that its
//! rendering is always at hand.

use crate::decimal::{
    all_digits, decimal, digits_of, is_digit, lemma_digits_of_shape, lemma_digits_of_split,
    lemma_digits_of_value, lemma_num_digits_in_range, lemma_pow10_mono, lemma_pow10_pos,
    lemma_update_digits, lemma_value_bound, lemma_value_update, pow10, value_of, DIGIT_NINE, DIGIT_ZERO, NEWLINE,
};
use vstd::prelude::*;
use vstd::slice::slice_subrange;

verus! {

/// Digits the counter holds.
pub const COUNTER_DIGITS: usize = 15;

/// Leading `'0'`s do not change the value of a digit string.
proof fn lemma_value_leading_zeros(z: Seq<u8>, t: Seq<u8>)
    requires
        forall|k: int| 0 <= k < z.len() ==> z[k] == DIGIT_ZERO,
    ensures
        value_of(z + t) == value_of(t),
    decreases t.len(), z.len(),
{
    if t.len() > 0 {
        lemma_value_leading_zeros(z, t.drop_last());
        assert((z + t).drop_last() =~= z + t.drop_last());
        assert((z + t).last() == t.last());
    } else if z.len() > 0 {
        lemma_value_leading_zeros(z.drop_last(), t);
        assert(z + t =~= z);
        assert(z.drop_last() + t =~= z.drop_last());
        assert(z.last() == DIGIT_ZERO);
    } else {
        assert(z + t =~= t);
    }
}

/// A digit string whose first `h` digits are `'0'`, and whose digit at `h` is
/// not (unless it is the last), ends with the rendering of its value.
proof fn lemma_significant_part(s: Seq<u8>, h: int)
    requires
        all_digits(s),
        0 <= h < s.len(),
        forall|k: int| 0 <= k < h ==> s[k] == DIGIT_ZERO,
        h == s.len() - 1 || s[h] != DIGIT_ZERO,
    ensures
        s.subrange(h, s.len() as int) == decimal(value_of(s)),
{
    let t = s.subrange(h, s.len() as int);
    let m = t.len();
    lemma_value_leading_zeros(s.subrange(0, h), t);
    assert(s.subrange(0, h) + t =~= s);
    assert(all_digits(t)) by {
        assert forall|k: int| 0 <= k < m implies is_digit(#[trigger] t[k]) by {
            assert(t[k] == s[h + k]);
        }
    }
    let v = value_of(t);
    lemma_value_bound(t);
    lemma_digits_of_value(t);
    if m > 1 {
        let p = pow10((m - 1) as nat);
        lemma_pow10_pos((m - 1) as nat);
        lemma_digits_of_split(v, m, (m - 1) as nat);
        assert((m - (m - 1) as nat) as nat == 1);
        assert(digits_of(v / p, 1) == digits_of(v / p / 10, 0).push(
            (DIGIT_ZERO + (v / p) % 10) as u8,
        ));
        assert(t[0] == digits_of(v, m)[0]);
        assert(digits_of(v, m)[0] == digits_of(v / p, 1)[0]);
        assert(v / p != 0);
        vstd::arithmetic::div_mod::lemma_fundamental_div_mod(v as int, p as int);
        let q = v / p;
        assert(v >= p) by (nonlinear_arith)
            requires
                v == p * q + v % p,
                q >= 1,
                v % p >= 0,
        ;
        lemma_num_digits_in_range(v, m);
    } else {
        assert(pow10(1) == 10 * pow10(0));
        assert(crate::decimal::num_digits(v) == 1);
    }
}

/// A counter of up to 15 decimal digits followed by a line feed.
pub struct AsciiCounter {
    digits: Vec<u8>,
    head: usize,
}

impl AsciiCounter {
    /// The digit field, zero-padded to its full width.
    closed spec fn field(&self) -> Seq<u8> {
        self.digits@.subrange(0, COUNTER_DIGITS as int)
    }

    /// The number the counter holds.
    pub closed spec fn value(&self) -> nat {
        value_of(self.field())
    }

    /// A digit field then a line feed; `head` marks the first significant
    /// digit, all before it being `'0'`.
    pub closed spec fn wf(&self) -> bool {
        &&& self.digits@.len() == COUNTER_DIGITS + 1
        &&& self.digits@[COUNTER_DIGITS as int] == NEWLINE
        &&& all_digits(self.field())
        &&& self.head < COUNTER_DIGITS
        &&& forall|k: int| 0 <= k < self.head ==> self.digits@[k] == DIGIT_ZERO
        &&& (self.head == COUNTER_DIGITS - 1 || self.digits@[self.head as int] != DIGIT_ZERO)
    }

    /// A counter at zero.
    pub fn new() -> (r: AsciiCounter)
        ensures
            r.wf(),
            r.value() == 0,
    {
        let mut digits = vec![DIGIT_ZERO; COUNTER_DIGITS + 1];
        digits.set(COUNTER_DIGITS, NEWLINE);
        let r = AsciiCounter { digits, head: COUNTER_DIGITS - 1 };
        proof {
            assert(r.field() =~= digits_of(0, 15)) by {
                lemma_digits_of_shape(0, 15);
                assert forall|k: int| 0 <= k < 15 implies r.field()[k] == digits_of(0, 15)[k] by {
                    lemma_zeros(15, k);
                }
            }
            lemma_digits_of_shape(0, 15);
            crate::decimal::lemma_value_digits_of(0, 15);
            lemma_pow10_pos(15);
        }
        r
    }

    /// The decimal rendering of the value, then a line feed.
    pub fn view_ascii(&self) -> (r: &[u8])
        requires
            self.wf(),
        ensures
            r@ == decimal(self.value()) + seq![NEWLINE],
    {
        proof {
            lemma_significant_part(self.field(), self.head as int);
            assert(self.digits@.subrange(self.head as int, 16) =~= self.field().subrange(
                self.head as int,
                15,
            ) + seq![NEWLINE]);
        }
        slice_subrange(self.digits.as_slice(), self.head, COUNTER_DIGITS + 1)
    }

    /// Adds the digit `incr`, carrying leftward and widening the rendering
    /// when the number gains a digit.
    pub fn bump(&mut self, incr: u8)
        requires
            old(self).wf(),
            incr <= 9,
            old(self).value() + incr < pow10(COUNTER_DIGITS as nat),
        ensures
            final(self).wf(),
            final(self).value() == old(self).value() + incr,
    {
        let ghost d0 = self.digits@;
        let ghost h0 = self.head;
        let ghost goal = self.value() + incr;
        let ghost f0 = self.field();
        proof {
            assert(f0[14] == d0[14]);
            assert(is_digit(f0[14]));
        }
        let ones = self.digits[COUNTER_DIGITS - 1] + incr;
        if ones > DIGIT_NINE {
            self.digits.set(COUNTER_DIGITS - 1, ones - 10);
            proof {
                assert(self.field() =~= f0.update(14, (ones - 10) as u8));
                lemma_value_update(f0, 14, (ones - 10) as u8);
                lemma_update_digits(f0, 14, (ones - 10) as u8);
                assert(pow10(0) == 1);
                assert(pow10(1) == 10 * pow10(0));
                assert((f0.len() - 1 - 14) as nat == 0);
                let x = (ones - 10) as int - f0[14] as int;
                let p0 = pow10(0) as int;
                assert(x * p0 == x) by (nonlinear_arith)
                    requires
                        p0 == 1,
                ;
                assert(value_of(self.digits@.subrange(0, 15)) as int == value_of(f0) as int + x);
            }
            let mut i: usize = COUNTER_DIGITS - 1;
            loop
                invariant_except_break
                    value_of(self.digits@.subrange(0, 15)) + pow10((15 - i) as nat) == goal,
                    self.head == if h0 < i {
                        h0
                    } else {
                        i
                    },
                invariant
                    1 <= i + 1 <= 15,
                    self.digits@.len() == 16,
                    self.digits@[15] == NEWLINE,
                    all_digits(self.digits@.subrange(0, 15)),
                    forall|k: int| 0 <= k < i ==> self.digits@[k] == d0[k],
                    goal < pow10(15),
                    h0 < 15,
                    forall|k: int| 0 <= k < h0 ==> d0[k] == DIGIT_ZERO,
                    h0 == 14 || d0[h0 as int] != DIGIT_ZERO,
                ensures
                    value_of(self.digits@.subrange(0, 15)) == goal,
                    self.head == if h0 < i {
                        h0
                    } else {
                        i
                    },
                    self.digits@[i as int] != DIGIT_ZERO,
                decreases i,
            {
                assert(i > 0) by {
                    if i == 0 {
                        lemma_pow10_mono(15, (15 - i) as nat);
                    }
                }
                i -= 1;
                if i < self.head {
                    self.head = i;
                }
                let ghost cur = self.digits@.subrange(0, 15);
                let ghost e = (14 - i) as nat;
                proof {
                    assert(cur[i as int] == self.digits@[i as int]);
                    assert((cur.len() - 1 - i) as nat == e);
                    assert(pow10(e + 1) == 10 * pow10(e));
                    assert((15 - i) as nat == e + 1);
                }
                if self.digits[i] == DIGIT_NINE {
                    self.digits.set(i, DIGIT_ZERO);
                    proof {
                        assert(self.digits@.subrange(0, 15) =~= cur.update(i as int, DIGIT_ZERO));
                        lemma_value_update(cur, i as int, DIGIT_ZERO);
                        lemma_update_digits(cur, i as int, DIGIT_ZERO);
                        let p = pow10(e) as int;
                        let x = DIGIT_ZERO as int - cur[i as int] as int;
                        assert(x * p == -9 * p) by (nonlinear_arith)
                            requires
                                x == -9,
                        ;
                    }
                } else {
                    let next = self.digits[i] + 1;
                    self.digits.set(i, next);
                    proof {
                        assert(self.digits@.subrange(0, 15) =~= cur.update(i as int, next));
                        lemma_value_update(cur, i as int, next);
                        lemma_update_digits(cur, i as int, next);
                        let p = pow10(e) as int;
                        let x = next as int - cur[i as int] as int;
                        assert(x * p == p) by (nonlinear_arith)
                            requires
                                x == 1,
                        ;
                    }
                    break ;
                }
            }
            proof {
                assert(forall|k: int| 0 <= k < self.head ==> self.digits@[k] == d0[k]);
            }
        } else {
            self.digits.set(COUNTER_DIGITS - 1, ones);
            proof {
                assert(self.field() =~= f0.update(14, ones));
                lemma_value_update(f0, 14, ones);
                lemma_update_digits(f0, 14, ones);
                assert(pow10(0) == 1);
                assert((f0.len() - 1 - 14) as nat == 0);
                let x = ones as int - f0[14] as int;
                let p0 = pow10(0) as int;
                assert(x * p0 == x) by (nonlinear_arith)
                    requires
                        p0 == 1,
                ;
                assert(forall|k: int| 0 <= k < self.head ==> self.digits@[k] == d0[k]);
            }
        }
        proof {
            assert(self.digits@.len() == 16);
            assert(self.digits@[15] == NEWLINE);
            assert(all_digits(self.field()));
            assert(self.head < 15);
            assert(self.head <= h0);
            assert(forall|k: int| 0 <= k < h0 ==> d0[k] == DIGIT_ZERO);
            assert forall|k: int| 0 <= k < self.head implies self.digits@[k] == DIGIT_ZERO by {
                assert(self.digits@[k] == d0[k]);
                assert(d0[k] == DIGIT_ZERO);
            }
            assert(self.head == 14 || self.digits@[self.head as int] != DIGIT_ZERO);
        }
    }
}

proof fn lemma_zeros(w: nat, k: int)
    requires
        0 <= k < w,
    ensures
        digits_of(0, w)[k] == DIGIT_ZERO,
    decreases w,
{
    lemma_digits_of_shape(0, (w - 1) as nat);
    if k < w - 1 {
        lemma_zeros((w - 1) as nat, k);
    }
}

} // verus!
