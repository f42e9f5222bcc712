//! Decimal digit strings: powers of ten, fixed-width renderings and their values.

use vstd::arithmetic::div_mod::{
    lemma_div_denominator, lemma_div_multiples_vanish_fancy, lemma_fundamental_div_mod,
    lemma_mod_multiples_vanish,
};
use vstd::prelude::*;

verus! {

/// ASCII `'0'`.
pub const DIGIT_ZERO: u8 = 48;

/// ASCII `'9'`.
pub const DIGIT_NINE: u8 = 57;

/// ASCII line feed, the line terminator.
pub const NEWLINE: u8 = 10;

/// `10^e`.
pub open spec fn pow10(e: nat) -> nat
    decreases e,
{
    if e == 0 {
        1
    } else {
        10 * pow10((e - 1) as nat)
    }
}

/// Whether a byte is an ASCII decimal digit.
pub open spec fn is_digit(b: u8) -> bool {
    DIGIT_ZERO <= b <= DIGIT_NINE
}

/// Whether every byte of `s` is an ASCII decimal digit.
pub open spec fn all_digits(s: Seq<u8>) -> bool {
    forall|i: int| 0 <= i < s.len() ==> is_digit(#[trigger] s[i])
}

/// The last `w` decimal digits of `v`, most significant first, padded with `'0'`.
pub open spec fn digits_of(v: nat, w: nat) -> Seq<u8>
    decreases w,
{
    if w == 0 {
        Seq::empty()
    } else {
        digits_of(v / 10, (w - 1) as nat).push((DIGIT_ZERO + v % 10) as u8)
    }
}

/// The number that a string of ASCII digits spells, most significant first.
pub open spec fn value_of(s: Seq<u8>) -> nat
    decreases s.len(),
{
    if s.len() == 0 {
        0
    } else {
        value_of(s.drop_last()) * 10 + (s.last() - DIGIT_ZERO) as nat
    }
}

/// How many decimal digits `n` has without leading zeros (`0` has one).
pub open spec fn num_digits(n: nat) -> nat
    decreases n,
{
    if n < 10 {
        1
    } else {
        1 + num_digits(n / 10)
    }
}

/// The usual decimal rendering of `n`: no sign, no leading zero.
pub open spec fn decimal(n: nat) -> Seq<u8> {
    digits_of(n, num_digits(n))
}

/// The digit string of the same width as `t` that spells `value_of(t) + a`.
pub open spec fn carried(t: Seq<u8>, a: nat) -> Seq<u8> {
    digits_of(value_of(t) + a, t.len())
}

pub proof fn lemma_pow10_pos(e: nat)
    ensures
        pow10(e) >= 1,
    decreases e,
{
    if e > 0 {
        lemma_pow10_pos((e - 1) as nat);
    }
}

pub proof fn lemma_pow10_add(a: nat, b: nat)
    ensures
        pow10(a + b) == pow10(a) * pow10(b),
    decreases b,
{
    if b > 0 {
        let b1 = (b - 1) as nat;
        lemma_pow10_add(a, b1);
        assert((a + b - 1) as nat == a + b1);
        let x = pow10(a);
        let y = pow10(b1);
        assert(pow10(a + b) == 10 * (x * y));
        assert(pow10(b) == 10 * y);
        assert(10 * (x * y) == x * (10 * y)) by (nonlinear_arith);
        assert(pow10(a + b) == x * pow10(b));
    } else {
        assert(a + b == a);
        assert(pow10(b) == 1);
        assert(pow10(a + b) == pow10(a) * 1);
    }
}

pub proof fn lemma_pow10_mono(a: nat, b: nat)
    requires
        a <= b,
    ensures
        pow10(a) <= pow10(b),
    decreases b,
{
    if a < b {
        lemma_pow10_mono(a, (b - 1) as nat);
    }
}

/// A fixed-width rendering has that width and holds digits only.
pub proof fn lemma_digits_of_shape(v: nat, w: nat)
    ensures
        digits_of(v, w).len() == w,
        all_digits(digits_of(v, w)),
    decreases w,
{
    if w > 0 {
        lemma_digits_of_shape(v / 10, (w - 1) as nat);
        let s = digits_of(v, w);
        assert forall|i: int| 0 <= i < s.len() implies is_digit(#[trigger] s[i]) by {
            if i < w - 1 {
                assert(s[i] == digits_of(v / 10, (w - 1) as nat)[i]);
            }
        }
    }
}

/// A digit string spells a number below `10^len`.
pub proof fn lemma_value_bound(s: Seq<u8>)
    requires
        all_digits(s),
    ensures
        value_of(s) < pow10(s.len()),
    decreases s.len(),
{
    if s.len() > 0 {
        let t = s.drop_last();
        assert(all_digits(t)) by {
            assert forall|i: int| 0 <= i < t.len() implies is_digit(#[trigger] t[i]) by {
                assert(t[i] == s[i]);
            }
        }
        lemma_value_bound(t);
        assert(is_digit(s[s.len() - 1]));
    }
}

/// Reading a fixed-width rendering back gives the number modulo `10^w`.
pub proof fn lemma_value_digits_of(v: nat, w: nat)
    ensures
        value_of(digits_of(v, w)) == v % pow10(w),
    decreases w,
{
    if w > 0 {
        let s = digits_of(v, w);
        lemma_value_digits_of(v / 10, (w - 1) as nat);
        assert(s.drop_last() =~= digits_of(v / 10, (w - 1) as nat));
        lemma_pow10_pos((w - 1) as nat);
        lemma_mod_breakdown_nat(v, 10, pow10((w - 1) as nat));
    }
}

proof fn lemma_mod_breakdown_nat(x: nat, y: nat, z: nat)
    requires
        y > 0,
        z > 0,
    ensures
        x % (y * z) == y * ((x / y) % z) + x % y,
        x % (z * y) == ((x / y) % z) * y + x % y,
{
    vstd::arithmetic::div_mod::lemma_mod_breakdown(x as int, y as int, z as int);
    let m = (x / y) % z;
    assert(y * z == z * y) by (nonlinear_arith);
    assert(y * m == m * y) by (nonlinear_arith);
}

/// Rendering the value of a digit string at its own width gives the string back.
pub proof fn lemma_digits_of_value(s: Seq<u8>)
    requires
        all_digits(s),
    ensures
        digits_of(value_of(s), s.len()) == s,
    decreases s.len(),
{
    if s.len() > 0 {
        let t = s.drop_last();
        assert(all_digits(t)) by {
            assert forall|i: int| 0 <= i < t.len() implies is_digit(#[trigger] t[i]) by {
                assert(t[i] == s[i]);
            }
        }
        lemma_digits_of_value(t);
        let d = (s.last() - DIGIT_ZERO) as nat;
        assert(is_digit(s[s.len() - 1]));
        let v = value_of(s);
        assert(v == value_of(t) * 10 + d);
        lemma_div_multiples_vanish_fancy(value_of(t) as int, d as int, 10);
        lemma_mod_multiples_vanish(value_of(t) as int, d as int, 10);
        assert(v / 10 == value_of(t));
        assert(v % 10 == d);
        assert(digits_of(v, s.len()) =~= s);
    }
}

/// Two numbers with the same remainder modulo `10^w` have the same `w`-digit rendering.
pub proof fn lemma_digits_of_mod(v: nat, u: nat, w: nat)
    requires
        v % pow10(w) == u % pow10(w),
    ensures
        digits_of(v, w) == digits_of(u, w),
{
    lemma_digits_of_shape(v, w);
    lemma_digits_of_shape(u, w);
    lemma_value_digits_of(v, w);
    lemma_value_digits_of(u, w);
    lemma_digits_of_value(digits_of(v, w));
    lemma_digits_of_value(digits_of(u, w));
}

/// A `w`-digit rendering splits into the rendering of `v / 10^k` on the
/// leading `w - k` digits and the rendering of `v` on the last `k`.
pub proof fn lemma_digits_of_split(v: nat, w: nat, k: nat)
    requires
        k <= w,
    ensures
        digits_of(v, w) == digits_of(v / pow10(k), (w - k) as nat) + digits_of(v, k),
    decreases k,
{
    lemma_digits_of_shape(v, w);
    if k == 0 {
        assert(v / 1 == v);
        assert(digits_of(v, w) =~= digits_of(v, w) + Seq::<u8>::empty());
    } else {
        lemma_digits_of_split(v / 10, (w - 1) as nat, (k - 1) as nat);
        lemma_pow10_pos((k - 1) as nat);
        lemma_div_denominator(v as int, 10, pow10((k - 1) as nat) as int);
        assert(digits_of(v, w) =~= digits_of(v / pow10(k), (w - k) as nat) + digits_of(v, k));
    }
}

/// Adding `a` at `k` digits from the right of a `w`-digit rendering: the leading
/// `w - k` digits carry `a`, the last `k` stay, and together they render `v + a * 10^k`.
pub proof fn lemma_suffix_add(v: nat, w: nat, k: nat, a: nat)
    requires
        k <= w,
        v + a * pow10(k) < pow10(w),
    ensures
        digits_of(v, w).subrange(0, w - k) == digits_of(v / pow10(k), (w - k) as nat),
        value_of(digits_of(v / pow10(k), (w - k) as nat)) == v / pow10(k),
        v / pow10(k) + a < pow10((w - k) as nat),
        carried(digits_of(v / pow10(k), (w - k) as nat), a) + digits_of(v, w).subrange(
            w - k,
            w as int,
        ) == digits_of(v + a * pow10(k), w),
{
    let p = pow10(k);
    lemma_pow10_pos(k);
    lemma_pow10_add((w - k) as nat, k);
    lemma_digits_of_split(v, w, k);
    lemma_digits_of_split(v + a * p, w, k);
    lemma_digits_of_shape(v / p, (w - k) as nat);
    lemma_digits_of_shape(v, k);
    assert(digits_of(v, w).subrange(0, w - k) =~= digits_of(v / p, (w - k) as nat));
    assert(digits_of(v, w).subrange(w - k, w as int) =~= digits_of(v, k));
    // (v + a p) / p == v / p + a and (v + a p) % p == v % p
    lemma_fundamental_div_mod(v as int, p as int);
    let q = v / p;
    let r = v % p;
    assert(v + a * p == p * (q + a) + r) by (nonlinear_arith)
        requires
            v == p * q + r,
    ;
    lemma_div_multiples_vanish_fancy((q + a) as int, r as int, p as int);
    lemma_mod_multiples_vanish((q + a) as int, r as int, p as int);
    lemma_mod_multiples_vanish(q as int, r as int, p as int);
    assert((v + a * p) / p == q + a);
    lemma_digits_of_mod(v + a * p, v, k);
    // the leading part never reaches 10^(w-k)
    assert(v < pow10(w));
    assert(q < pow10((w - k) as nat)) by {
        vstd::arithmetic::div_mod::lemma_div_is_ordered(v as int, pow10(w) as int, p as int);
        lemma_div_multiples_vanish_fancy(pow10((w - k) as nat) as int, 0, p as int);
        assert(pow10(w) == p * pow10((w - k) as nat) + 0) by (nonlinear_arith)
            requires
                pow10(w) == pow10((w - k) as nat) * p,
        ;
        assert(q <= pow10((w - k) as nat));
        assert(q != pow10((w - k) as nat)) by {
            if q == pow10((w - k) as nat) {
                assert(v >= p * q) by (nonlinear_arith)
                    requires
                        v == p * q + r,
                        r >= 0,
                ;
                assert(p * q == pow10(w)) by (nonlinear_arith)
                    requires
                        pow10(w) == pow10((w - k) as nat) * p,
                        q == pow10((w - k) as nat),
                ;
            }
        }
    }
    lemma_value_digits_of(q, (w - k) as nat);
    vstd::arithmetic::div_mod::lemma_small_mod(q, pow10((w - k) as nat));
    assert(pow10(w) == pow10((w - k) as nat) * p);
    lemma_quotient_range((v + a * p) as nat, p, 0, pow10((w - k) as nat));
}

/// `q = n / p` and `r = n % p` bound `q` from both sides.
pub proof fn lemma_quotient_range(n: nat, p: nat, lo: nat, hi: nat)
    requires
        p > 0,
        lo * p <= n < hi * p,
    ensures
        lo <= n / p < hi,
{
    lemma_fundamental_div_mod(n as int, p as int);
    let q = n / p;
    let r = n % p;
    assert(lo <= q < hi) by (nonlinear_arith)
        requires
            n == p * q + r,
            0 <= r < p,
            lo * p <= n < hi * p,
            p > 0,
    ;
}

/// A number in `[10^(d-1), 10^d)` has `d` digits.
pub proof fn lemma_num_digits_in_range(n: nat, d: nat)
    requires
        d >= 1,
        pow10((d - 1) as nat) <= n < pow10(d),
    ensures
        num_digits(n) == d,
    decreases d,
{
    if d > 1 {
        let d1 = (d - 1) as nat;
        let d2 = (d - 2) as nat;
        assert(pow10(d1) == 10 * pow10(d2));
        lemma_pow10_pos(d2);
        lemma_quotient_range(n, 10, pow10(d2), pow10(d1));
        lemma_num_digits_in_range(n / 10, d1);
    }
}

/// Every number of the digit-width block `[10^(d-1), 10^d)` renders as exactly
/// `d` digits, the first of which is not `'0'`.
pub proof fn lemma_width_block_rendering(n: nat, d: nat)
    requires
        d >= 1,
        pow10((d - 1) as nat) <= n < pow10(d),
    ensures
        decimal(n) == digits_of(n, d),
        decimal(n).len() == d,
        all_digits(decimal(n)),
        decimal(n)[0] != DIGIT_ZERO,
{
    lemma_num_digits_in_range(n, d);
    lemma_digits_of_shape(n, d);
    let d1 = (d - 1) as nat;
    let p = pow10(d1);
    lemma_pow10_pos(d1);
    lemma_quotient_range(n, p, 1, 10);
    lemma_digits_of_split(n, d, d1);
    let q = n / p;
    assert((d - d1) as nat == 1);
    assert(digits_of(q, 1) == digits_of(q / 10, 0).push((DIGIT_ZERO + q % 10) as u8));
    assert(digits_of(n, d)[0] == digits_of(q, 1)[0]);
}

/// Dividing by powers of ten until nothing is left counts the digits.
pub proof fn lemma_num_digits_by_division(n: nat, k: nat)
    requires
        k >= 1,
        n / pow10(k) == 0,
        k == 1 || n / pow10((k - 1) as nat) != 0,
    ensures
        num_digits(n) == k,
{
    lemma_pow10_pos(k);
    lemma_fundamental_div_mod(n as int, pow10(k) as int);
    assert(n < pow10(k));
    if k > 1 {
        let p = pow10((k - 1) as nat);
        lemma_pow10_pos((k - 1) as nat);
        lemma_fundamental_div_mod(n as int, p as int);
        let q = n / p;
        let r = n % p;
        assert(n >= p) by (nonlinear_arith)
            requires
                n == p * q + r,
                q >= 1,
                r >= 0,
        ;
        lemma_num_digits_in_range(n, k);
    } else {
        assert(pow10(1) == 10 * pow10(0));
    }
}

/// Every `u64` has at most 20 decimal digits.
pub proof fn lemma_u64_below_pow10_20(n: u64)
    ensures
        (n as nat) < pow10(20),
{
    reveal_with_fuel(pow10, 21);
    assert(pow10(20) == 100000000000000000000nat);
}

/// Widening a rendering by one digit puts the next digit of `v` in front.
pub proof fn lemma_digits_of_extend(v: nat, k: nat)
    ensures
        digits_of(v, k + 1) == seq![(DIGIT_ZERO + (v / pow10(k)) % 10) as u8] + digits_of(v, k),
{
    lemma_digits_of_split(v, k + 1, k);
    assert((k + 1 - k) as nat == 1);
    let q = v / pow10(k);
    lemma_digits_of_one(q);
}

proof fn lemma_digits_of_one(q: nat)
    ensures
        digits_of(q, 1) == seq![(DIGIT_ZERO + q % 10) as u8],
{
    assert(digits_of(q / 10, 0) == Seq::<u8>::empty());
    assert(digits_of(q, 1) =~= seq![(DIGIT_ZERO + q % 10) as u8]);
}

/// The sum of a sequence of addends.
pub open spec fn sum_of(a: Seq<nat>) -> nat
    decreases a.len(),
{
    if a.len() == 0 {
        0
    } else {
        sum_of(a.drop_last()) + a.last()
    }
}

/// The digit string after carrying each addend of `a` into `t`, in order.
pub open spec fn carried_all(t: Seq<u8>, a: Seq<nat>) -> Seq<u8>
    decreases a.len(),
{
    if a.len() == 0 {
        t
    } else {
        carried(carried_all(t, a.drop_last()), a.last())
    }
}

/// Adding digits one after another into a digit string, each time with a
/// ripple carry, leaves the rendering of its value plus their sum at the same
/// width, as long as that total stays below `10^width`.
pub proof fn lemma_repeated_carry(t: Seq<u8>, a: Seq<nat>)
    requires
        all_digits(t),
        forall|i: int| 0 <= i < a.len() ==> #[trigger] a[i] < 10,
        value_of(t) + sum_of(a) < pow10(t.len()),
    ensures
        carried_all(t, a) == digits_of(value_of(t) + sum_of(a), t.len()),
    decreases a.len(),
{
    let w = t.len();
    if a.len() == 0 {
        lemma_digits_of_value(t);
    } else {
        let front = a.drop_last();
        assert forall|i: int| 0 <= i < front.len() implies #[trigger] front[i] < 10 by {
            assert(front[i] == a[i]);
        }
        lemma_repeated_carry(t, front);
        let v = value_of(t) + sum_of(front);
        lemma_digits_of_shape(v, w);
        lemma_value_digits_of(v, w);
        vstd::arithmetic::div_mod::lemma_small_mod(v, pow10(w));
        assert(carried_all(t, a) == carried(digits_of(v, w), a.last()));
    }
}

/// Writing a digit into a digit string keeps it a digit string.
pub proof fn lemma_update_digits(s: Seq<u8>, j: int, c: u8)
    requires
        0 <= j < s.len(),
        all_digits(s),
        is_digit(c),
    ensures
        all_digits(s.update(j, c)),
{
    assert forall|k: int| 0 <= k < s.len() implies is_digit(#[trigger] s.update(j, c)[k]) by {
        if k != j {
            assert(s.update(j, c)[k] == s[k]);
        }
    }
}

/// Changing one digit of a digit string changes its value by the difference
/// times the weight of that position.
pub proof fn lemma_value_update(s: Seq<u8>, j: int, c: u8)
    requires
        0 <= j < s.len(),
        all_digits(s),
        is_digit(c),
    ensures
        value_of(s.update(j, c)) as int == value_of(s) as int + (c as int - s[j] as int) * pow10(
            (s.len() - 1 - j) as nat,
        ),
    decreases s.len(),
{
    let u = s.update(j, c);
    assert(is_digit(s[j]));
    assert(is_digit(s.last()));
    assert(u.last() == if j == s.len() - 1 {
        c
    } else {
        s.last()
    });
    assert(value_of(u) == value_of(u.drop_last()) * 10 + (u.last() - DIGIT_ZERO) as nat);
    assert(value_of(s) == value_of(s.drop_last()) * 10 + (s.last() - DIGIT_ZERO) as nat);
    if j == s.len() - 1 {
        assert(u.drop_last() =~= s.drop_last());
        assert(pow10(0) == 1);
        assert((s.len() - 1 - j) as nat == 0);
        assert(value_of(u) as int == value_of(s) as int + (c as int - s[j] as int));
    } else {
        assert(u.drop_last() =~= s.drop_last().update(j, c));
        assert(u.last() == s.last());
        assert(all_digits(s.drop_last())) by {
            assert forall|k: int| 0 <= k < s.len() - 1 implies is_digit(
                #[trigger] s.drop_last()[k],
            ) by {
                assert(s.drop_last()[k] == s[k]);
            }
        }
        lemma_value_update(s.drop_last(), j, c);
        let e = (s.len() - 2 - j) as nat;
        assert((s.len() - 1 - j) as nat == e + 1);
        assert(pow10(e + 1) == 10 * pow10(e));
        let x = c as int - s[j] as int;
        let p = pow10(e) as int;
        assert((value_of(s.drop_last()) as int + x * p) * 10 == value_of(s.drop_last()) as int * 10
            + x * (10 * p)) by (nonlinear_arith);
        assert(value_of(u) as int == value_of(s) as int + x * (10 * p));
    }
}

} // verus!
