//! The batch emitter: renders the lines of one digit-width block in buffer
//! loads, reusing a rendered load by ripple-carry updates of its numbers.
//!
//! The emitter decides and computes; whoever drives it hands each load to the
//! output sink between two steps.

use crate::batch::{
    batch_lines, batch_params, bytes_per_cycle, find_lines_per_buf2, lemma_batch_params_valid,
    max_lines, CYCLE_FIXED_BYTES,
};
use crate::buffer::{
    Buffer, digit_run, lemma_run_start, BUF_SIZE,
};
use crate::decimal::{
    digits_of, is_digit, lemma_digits_of_shape, lemma_pow10_mono, lemma_pow10_pos,
    lemma_quotient_range, lemma_suffix_add, pow10, NEWLINE,
};
use crate::lines::{
    cycle_offset, fizz_line, fizz_stream, in_block, is_numeric, lemma_cycle_len, lemma_line_shape,
    lemma_line_shift, lemma_stream_concat, lemma_stream_front, lemma_stream_last,
};
use crate::render::write_fizz_buzz;
use vstd::arithmetic::div_mod::lemma_mod_multiples_vanish;
use vstd::prelude::*;

verus! {

/// The buffer while a load of `l` lines that rendered `[b, b + l)` is being
/// advanced to `[b + l, b + 2l)`, once its first `t` lines are done.
pub open spec fn replicating(b: nat, l: nat, t: nat) -> Seq<u8> {
    fizz_stream(b + l, b + l + t) + fizz_stream(b + t, b + l)
}

/// `10^e` as a machine integer.
fn pow10_u64(e: usize) -> (r: u64)
    requires
        e <= 19,
    ensures
        r as nat == pow10(e as nat),
{
    let mut r: u64 = 1;
    let mut k: usize = 0;
    while k < e
        invariant
            k <= e <= 19,
            r as nat == pow10(k as nat),
        decreases e - k,
    {
        proof {
            lemma_pow10_mono((k + 1) as nat, 19);
            reveal_with_fuel(pow10, 20);
            assert(pow10(19) == 10000000000000000000nat);
        }
        r = r * 10;
        k = k + 1;
    }
    r
}

/// Position `10 + j` modulo 15 of a period decides the kind of its line.
proof fn lemma_period_kind(b: nat, i: nat, j: nat)
    requires
        b % 15 == 10,
    ensures
        is_numeric(b + 15 * i + j) == is_numeric(10 + j),
        !is_numeric(10 + j) ==> fizz_line(b + 15 * i + j) == fizz_line(b + j),
{
    let q = b / 15;
    assert(b == 15 * q + 10);
    lemma_mod_multiples_vanish((5 * q) as int, (10 + j) as int, 3);
    lemma_mod_multiples_vanish((3 * q) as int, (10 + j) as int, 5);
    assert(b + j == 3 * (5 * q) + (10 + j));
    assert(b + j == 5 * (3 * q) + (10 + j));
    lemma_line_shift(b + j, i);
    assert(b + 15 * i + j == b + j + 15 * i);
}

/// Byte offsets of the lines of a period that starts at 10 modulo 15.
proof fn lemma_cycle_offsets(d: nat)
    ensures
        cycle_offset(d, 1) == 5,
        cycle_offset(d, 3) == 11 + d,
        cycle_offset(d, 4) == 12 + 2 * d,
        cycle_offset(d, 6) == 22 + 3 * d,
        cycle_offset(d, 7) == 23 + 4 * d,
        cycle_offset(d, 9) == 29 + 5 * d,
        cycle_offset(d, 12) == 40 + 6 * d,
        cycle_offset(d, 13) == 41 + 7 * d,
        cycle_offset(d, 15) == 47 + 8 * d,
{
    reveal_with_fuel(cycle_offset, 16);
}

/// A keyword line reads the same one load further on.
proof fn lemma_pass_keyword(b: nat, l: nat, t: nat)
    requires
        t < l,
        l % 15 == 0,
        !is_numeric(b + t),
    ensures
        replicating(b, l, t) == replicating(b, l, t + 1),
{
    lemma_stream_front(b + t, b + l);
    assert(l == 15 * (l / 15));
    lemma_line_shift(b + t, l / 15);
    assert(b + l + t == b + t + 15 * (l / 15));
    assert(fizz_stream(b + l, b + l + t + 1) == fizz_stream(b + l, b + l + t) + fizz_line(
        b + l + t,
    ));
    assert(replicating(b, l, t) =~= replicating(b, l, t + 1));
}

/// Advances the number on line `j` of period `i` of the load by `l`, where `l`
/// is the digit `addend` at `s` digits from the right; `pos` is the last digit
/// left of the suffix.
fn advance_field(
    buf: &mut Buffer,
    pos: usize,
    addend: u8,
    Ghost(b): Ghost<nat>,
    Ghost(l): Ghost<nat>,
    Ghost(d): Ghost<nat>,
    Ghost(s): Ghost<nat>,
    Ghost(i): Ghost<nat>,
    Ghost(j): Ghost<nat>,
)
    requires
        old(buf).wf(),
        old(buf).contents() == replicating(b, l, 15 * i + j),
        b % 15 == 10,
        j < 15,
        15 * i + 15 <= l,
        l % 15 == 0,
        is_numeric(10 + j),
        in_block(b, d),
        b + 2 * l <= pow10(d),
        l == addend * pow10(s),
        s < d,
        addend <= 9,
        pos + 1 + s == i * bytes_per_cycle(d) + cycle_offset(d, j) + d,
    ensures
        final(buf).wf(),
        final(buf).contents() == replicating(b, l, 15 * i + j + 1),
{
    let ghost t = 15 * i + j;
    proof {
        lemma_field_at(b, l, d, i, j);
    }
    let ghost v = buf.contents();
    let ghost n = b + t;
    let ghost a = fizz_stream(b + l, b + l + t);
    let ghost rest = fizz_stream(b + t + 1, b + l);
    let ghost p = a.len();
    let ghost w = (d - s) as nat;
    proof {
        lemma_stream_front(b + t, b + l);
        lemma_line_shape(n, d);
        assert(v =~= a + (digits_of(n, d) + seq![NEWLINE]) + rest);
        lemma_suffix_add(n, d, s, addend as nat);
        lemma_digits_of_shape(n, d);
        lemma_digits_of_shape(n / pow10(s), w);
        assert(v.subrange(p as int, pos + 1) =~= digits_of(n, d).subrange(0, d - s));
        if t > 0 {
            lemma_stream_last(b + l, b + l + t, d);
            assert(v[p - 1] == a.last());
        }
        lemma_run_start(v, p as int, pos as int);
        assert(digit_run(v, pos as int) == digits_of(n / pow10(s), w));
        assert(is_digit(v[pos as int])) by {
            assert(v[pos as int] == v.subrange(p as int, pos + 1)[pos - p]);
        }
    }
    buf.ripple_carry_add_ascii(pos, addend);
    proof {
        let m = n + l;
        assert(l == 15 * (l / 15));
        lemma_line_shift(n, l / 15);
        lemma_line_shape(m, d);
        assert(m == n + addend * pow10(s));
        assert(v.subrange(0, p as int) =~= a);
        assert(v.subrange(pos + 1, v.len() as int) =~= digits_of(n, d).subrange(d - s, d as int)
            + seq![NEWLINE] + rest);
        assert(fizz_stream(b + l, b + l + t + 1) == a + fizz_line(m));
        assert(buf.contents() =~= replicating(b, l, t + 1));
    }
}

/// The emitter of one digit-width block `[10^(d-1), 10^d)`.
pub struct FastBuzz {
    buf: Buffer,
    digits: usize,
    end: u64,
    next: u64,
    batching: bool,
    addend: u8,
    suffix_digits: usize,
    lines_per_buf: u64,
    cycles_per_buf: usize,
    template: bool,
}

impl FastBuzz {
    /// The digit width of the block.
    pub closed spec fn digit_width(&self) -> nat {
        self.digits as nat
    }

    /// The first number whose line has not been handed out yet.
    pub closed spec fn next_line(&self) -> nat {
        self.next as nat
    }

    /// The end of the block, `10^d`.
    pub closed spec fn end_line(&self) -> nat {
        self.end as nat
    }

    /// The load handed out by the last step.
    pub closed spec fn chunk(&self) -> Seq<u8> {
        self.buf.contents()
    }

    /// The block bounds, the batch parameters when batching, and, while a
    /// template is held, that the buffer renders the load that ends at `next`.
    pub closed spec fn wf(&self) -> bool {
        let d = self.digits as nat;
        let l = self.lines_per_buf as nat;
        &&& self.buf.wf()
        &&& 1 <= d <= 19
        &&& self.end as nat == pow10(d)
        &&& pow10((d - 1) as nat) <= self.next <= self.end
        &&& self.batching ==> {
            &&& batch_params(d) == Some((self.addend, self.suffix_digits as nat))
            &&& l == batch_lines(self.addend, self.suffix_digits as nat)
            &&& self.cycles_per_buf as nat * 15 == l
            &&& self.addend <= 9
            &&& self.cycles_per_buf as nat * bytes_per_cycle(d) <= BUF_SIZE
        }
        &&& self.template ==> {
            &&& self.batching
            &&& self.next >= pow10((d - 1) as nat) + l
            &&& (self.next - l) % 15 == 10
            &&& self.buf.contents() == fizz_stream((self.next - l) as nat, self.next as nat)
        }
    }

    /// An emitter for the numbers of `digits` digits, nothing handed out yet.
    pub fn new(digits: usize) -> (r: FastBuzz)
        requires
            1 <= digits <= 19,
        ensures
            r.wf(),
            r.digit_width() == digits,
            r.next_line() == pow10((digits - 1) as nat),
            r.end_line() == pow10(digits as nat),
            r.chunk() == Seq::<u8>::empty(),
    {
        let start = pow10_u64(digits - 1);
        let end = pow10_u64(digits);
        proof {
            lemma_pow10_pos((digits - 1) as nat);
            assert(pow10(digits as nat) == 10 * pow10((digits - 1) as nat));
            lemma_batch_params_valid(digits as nat, 0);
        }
        match find_lines_per_buf2(digits) {
            Some((addend, suffix_digits)) => {
                proof {
                    assert(batch_params(digits as nat) == Some((addend, suffix_digits as nat)));
                    let bpc = bytes_per_cycle(digits as nat);
                    assert(max_lines(digits as nat) <= 20910nat) by {
                        lemma_quotient_range(BUF_SIZE as nat, bpc, 0, 1395nat);
                    }
                    if suffix_digits >= 5 {
                        lemma_pow10_mono(5, suffix_digits as nat);
                        reveal_with_fuel(pow10, 6);
                        assert(addend as nat * pow10(suffix_digits as nat) >= pow10(
                            suffix_digits as nat,
                        )) by (nonlinear_arith)
                            requires
                                addend >= 3,
                        ;
                    }
                    let l = batch_lines(addend, suffix_digits as nat);
                    assert(l / 15 * bpc <= BUF_SIZE);
                    assert(bpc >= 47);
                    assert(l / 15 <= BUF_SIZE) by (nonlinear_arith)
                        requires
                            l / 15 * bpc <= BUF_SIZE,
                            bpc >= 47,
                    ;
                }
                let lines_per_buf = addend as u64 * pow10_u64(suffix_digits);
                FastBuzz {
                    buf: Buffer::new(),
                    digits,
                    end,
                    next: start,
                    batching: true,
                    addend,
                    suffix_digits,
                    lines_per_buf,
                    cycles_per_buf: (lines_per_buf / 15) as usize,
                    template: false,
                }
            },
            None => FastBuzz {
                buf: Buffer::new(),
                digits,
                end,
                next: start,
                batching: false,
                addend: 0,
                suffix_digits: 0,
                lines_per_buf: 0,
                cycles_per_buf: 0,
                template: false,
            },
        }
    }

    /// The load handed out by the last step.
    pub fn view(&self) -> (r: &[u8])
        requires
            self.wf(),
        ensures
            r@ == self.chunk(),
    {
        self.buf.view()
    }
}

/// Passing over keyword line `j` of period `i`.
proof fn lemma_keyword_at(b: nat, l: nat, d: nat, i: nat, j: nat)
    requires
        b % 15 == 10,
        l % 15 == 0,
        in_block(b, d),
        b + 2 * l <= pow10(d),
        15 * i + 15 <= l,
        j < 15,
        !is_numeric(10 + j),
    ensures
        replicating(b, l, 15 * i + j) == replicating(b, l, 15 * i + j + 1),
{
    lemma_field_at(b, l, d, i, j);
    lemma_pass_keyword(b, l, 15 * i + j);
}

/// Line `j` of period `i` of a load starting at `b`: its kind, and where it
/// starts once the load is advanced.
proof fn lemma_field_at(b: nat, l: nat, d: nat, i: nat, j: nat)
    requires
        b % 15 == 10,
        l % 15 == 0,
        in_block(b, d),
        b + 2 * l <= pow10(d),
        15 * i + 15 <= l,
        j < 15,
    ensures
        is_numeric(b + (15 * i + j)) == is_numeric(10 + j),
        fizz_stream(b + l, b + l + (15 * i + j)).len() == i * bytes_per_cycle(d) + cycle_offset(
            d,
            j,
        ),
{
    lemma_period_kind(b, i, j);
    assert(l == 15 * (l / 15));
    lemma_line_shift(b, l / 15);
    lemma_cycle_len(b + l, d, i, j);
    assert(b + l + (15 * i + j) == b + l + 15 * i + j);
}

/// Advances a load holding the lines of `[b, b + l)` to those of `[b + l, b + 2l)`,
/// touching only the digits left of the suffix of each number.
fn replicate_load(
    buf: &mut Buffer,
    cycles: usize,
    digits: usize,
    addend: u8,
    suffix: usize,
    Ghost(b): Ghost<nat>,
)
    requires
        old(buf).wf(),
        old(buf).contents() == fizz_stream(b, b + cycles as nat * 15),
        1 <= digits <= 19,
        in_block(b, digits as nat),
        b % 15 == 10,
        cycles * 15 == addend * pow10(suffix as nat),
        addend <= 9,
        suffix < digits,
        b + 2 * (cycles * 15) <= pow10(digits as nat),
        cycles * bytes_per_cycle(digits as nat) <= BUF_SIZE,
    ensures
        final(buf).wf(),
        final(buf).contents() == fizz_stream(
            b + cycles as nat * 15,
            b + 2 * (cycles as nat * 15),
        ),
{
    let ghost l = (cycles * 15) as nat;
    let ghost d = digits as nat;
    let ghost s = suffix as nat;
    let bpc = CYCLE_FIXED_BYTES + 8 * digits;
    proof {
        assert(replicating(b, l, 0) =~= fizz_stream(b, b + l)) by {
            assert(fizz_stream(b + l, b + l) == Seq::<u8>::empty());
        }
        assert(l % 15 == 0);
    }
    let mut i: usize = 0;
    while i < cycles
        invariant
            i <= cycles,
            buf.wf(),
            buf.contents() == replicating(b, l, 15 * i as nat),
            l == cycles * 15,
            bpc == bytes_per_cycle(d),
            l % 15 == 0,
            d == digits,
            s == suffix,
            1 <= digits <= 19,
            in_block(b, d),
            b % 15 == 10,
            l == addend * pow10(s),
            addend <= 9,
            s < d,
            b + 2 * l <= pow10(d),
            cycles * bytes_per_cycle(d) <= BUF_SIZE,
        decreases cycles - i,
    {
        proof {
            assert(i * bpc < cycles * bpc) by (nonlinear_arith)
                requires
                    i < cycles,
                    bpc > 0,
            ;
        }
        let base = i * bpc;
        advance_period(buf, base, digits, addend, suffix, Ghost(b), Ghost(l), Ghost(i as nat));
        i = i + 1;
    }
    proof {
        assert(replicating(b, l, l) =~= fizz_stream(b + l, b + 2 * l)) by {
            assert(fizz_stream(b + l, b + l) == Seq::<u8>::empty());
            assert(b + l + l == b + 2 * l);
        }
    }
}

/// Advances the eight numbers of period `i` of the load, which starts at byte `base`.
#[verifier::rlimit(50)]
fn advance_period(
    buf: &mut Buffer,
    base: usize,
    digits: usize,
    addend: u8,
    suffix: usize,
    Ghost(b): Ghost<nat>,
    Ghost(l): Ghost<nat>,
    Ghost(i): Ghost<nat>,
)
    requires
        old(buf).wf(),
        old(buf).contents() == replicating(b, l, 15 * i),
        base == i * bytes_per_cycle(digits as nat),
        base < BUF_SIZE,
        1 <= digits <= 19,
        b % 15 == 10,
        15 * i + 15 <= l,
        l % 15 == 0,
        in_block(b, digits as nat),
        b + 2 * l <= pow10(digits as nat),
        l == addend * pow10(suffix as nat),
        suffix < digits,
        addend <= 9,
    ensures
        final(buf).wf(),
        final(buf).contents() == replicating(b, l, 15 * i + 15),
{
    let ghost d = digits as nat;
    let ghost s = suffix as nat;
    proof {
        lemma_cycle_offsets(d);
        lemma_keyword_at(b, l, d, i, 0);
    }
    advance_field(buf, base + 4 + digits - suffix, addend, Ghost(b), Ghost(l), Ghost(d), Ghost(s), Ghost(i), Ghost(1));
    proof {
        lemma_keyword_at(b, l, d, i, 2);
    }
    advance_field(buf, base + 10 + 2 * digits - suffix, addend, Ghost(b), Ghost(l), Ghost(d), Ghost(s), Ghost(i), Ghost(3));
    advance_field(buf, base + 11 + 3 * digits - suffix, addend, Ghost(b), Ghost(l), Ghost(d), Ghost(s), Ghost(i), Ghost(4));
    proof {
        lemma_keyword_at(b, l, d, i, 5);
    }
    advance_field(buf, base + 21 + 4 * digits - suffix, addend, Ghost(b), Ghost(l), Ghost(d), Ghost(s), Ghost(i), Ghost(6));
    advance_field(buf, base + 22 + 5 * digits - suffix, addend, Ghost(b), Ghost(l), Ghost(d), Ghost(s), Ghost(i), Ghost(7));
    proof {
        lemma_keyword_at(b, l, d, i, 8);
    }
    advance_field(buf, base + 28 + 6 * digits - suffix, addend, Ghost(b), Ghost(l), Ghost(d), Ghost(s), Ghost(i), Ghost(9));
    proof {
        lemma_keyword_at(b, l, d, i, 10);
        lemma_keyword_at(b, l, d, i, 11);
    }
    advance_field(buf, base + 39 + 7 * digits - suffix, addend, Ghost(b), Ghost(l), Ghost(d), Ghost(s), Ghost(i), Ghost(12));
    advance_field(buf, base + 40 + 8 * digits - suffix, addend, Ghost(b), Ghost(l), Ghost(d), Ghost(s), Ghost(i), Ghost(13));
    proof {
        lemma_keyword_at(b, l, d, i, 14);
    }
}

/// Renders the lines of `[from, from + count)` after what `buf` holds; they fit.
fn prime_load(buf: &mut Buffer, from: u64, count: u64)
    requires
        old(buf).wf(),
        from + count <= u64::MAX,
        old(buf).contents().len() + fizz_stream(from as nat, (from + count) as nat).len()
            <= BUF_SIZE,
    ensures
        final(buf).wf(),
        final(buf).contents() == old(buf).contents() + fizz_stream(
            from as nat,
            (from + count) as nat,
        ),
{
    let ghost s0 = buf.contents();
    let mut k: u64 = 0;
    while k < count
        invariant
            k <= count,
            from + count <= u64::MAX,
            buf.wf(),
            buf.contents() == s0 + fizz_stream(from as nat, (from + k) as nat),
            s0.len() + fizz_stream(from as nat, (from + count) as nat).len() <= BUF_SIZE,
        decreases count - k,
    {
        proof {
            lemma_stream_concat(from as nat, (from + k + 1) as nat, (from + count) as nat);
        }
        let r = write_fizz_buzz(from + k, buf);
        proof {
            assert(r is Ok);
            assert(buf.contents() =~= s0 + fizz_stream(from as nat, (from + k + 1) as nat));
        }
        k = k + 1;
    }
}

/// Spare room, in bytes, above which any line of a block fits.
const TAIL_LINE_ROOM: usize = 21;

/// Renders lines one by one from `from` on, while they fit and stay below
/// `end`, into the empty buffer; returns the first number not rendered.
fn fill_tail(buf: &mut Buffer, from: u64, end: u64, Ghost(d): Ghost<nat>) -> (next: u64)
    requires
        old(buf).wf(),
        old(buf).contents() == Seq::<u8>::empty(),
        from < end,
        1 <= d <= 19,
        pow10((d - 1) as nat) <= from,
        end == pow10(d),
    ensures
        final(buf).wf(),
        from < next <= end,
        final(buf).contents() == fizz_stream(from as nat, next as nat),
{
    let mut next = from;
    proof {
        assert(fizz_stream(from as nat, from as nat) == Seq::<u8>::empty());
    }
    loop
        invariant
            buf.wf(),
            from < end,
            from <= next <= end,
            1 <= d <= 19,
            pow10((d - 1) as nat) <= from,
            end == pow10(d),
            buf.contents() == fizz_stream(from as nat, next as nat),
            next == from ==> buf.contents().len() == 0,
        ensures
            from < next <= end,
            buf.wf(),
            buf.contents() == fizz_stream(from as nat, next as nat),
        decreases end - next,
    {
        if next >= end || buf.spare_capacity() < TAIL_LINE_ROOM {
            break ;
        }
        proof {
            lemma_line_shape(next as nat, d);
        }
        let r = write_fizz_buzz(next, buf);
        proof {
            assert(r is Ok);
        }
        next = next + 1;
    }
    next
}

/// One step of the emitter: renders the next load of lines into its buffer
/// and returns `true`, or returns `false` once the block is exhausted. After
/// `true` the load, read with `view`, is the plain rendering of the lines from
/// where the previous load stopped to where this one stops.
pub fn fast_buzz(em: &mut FastBuzz) -> (more: bool)
    requires
        old(em).wf(),
    ensures
        final(em).wf(),
        final(em).digit_width() == old(em).digit_width(),
        final(em).end_line() == old(em).end_line(),
        more == (old(em).next_line() < old(em).end_line()),
        more ==> old(em).next_line() < final(em).next_line() <= final(em).end_line()
            && final(em).chunk() == fizz_stream(old(em).next_line(), final(em).next_line()),
        !more ==> final(em).next_line() == old(em).next_line(),
{
    if em.next >= em.end {
        return false;
    }
    let l = em.lines_per_buf;
    if em.template && l <= em.end - em.next {
        em.replicate_step();
    } else if em.batching && em.next % 15 == 10 && l <= em.end - em.next {
        em.prime_step();
    } else {
        em.tail_step();
    }
    true
}

impl FastBuzz {
    proof fn lemma_bounds(&self)
        requires
            self.wf(),
        ensures
            self.end <= 10000000000000000000u64,
    {
        lemma_pow10_mono(self.digits as nat, 19);
        reveal_with_fuel(pow10, 20);
        assert(pow10(19) == 10000000000000000000nat);
    }

    /// Advances the load already rendered, which ends at `next`, by one load.
    fn replicate_step(&mut self)
        requires
            old(self).wf(),
            old(self).template,
            old(self).lines_per_buf <= old(self).end - old(self).next,
        ensures
            final(self).wf(),
            final(self).digits == old(self).digits,
            final(self).end == old(self).end,
            final(self).next == old(self).next + old(self).lines_per_buf,
            old(self).next < final(self).next,
            final(self).chunk() == fizz_stream(old(self).next as nat, final(self).next as nat),
    {
        let ghost d = self.digits as nat;
        let l = self.lines_per_buf;
        let ghost b = (self.next - l) as nat;
        proof {
            self.lemma_bounds();
            lemma_batch_params_valid(d, b);
            lemma_pow10_pos(self.suffix_digits as nat);
        }
        replicate_load(
            &mut self.buf,
            self.cycles_per_buf,
            self.digits,
            self.addend,
            self.suffix_digits,
            Ghost(b),
        );
        self.next = self.next + l;
    }

    /// Renders one load from `next`, which is 10 modulo 15, to serve as the
    /// template of the loads after it.
    fn prime_step(&mut self)
        requires
            old(self).wf(),
            old(self).batching,
            old(self).next % 15 == 10,
            old(self).lines_per_buf <= old(self).end - old(self).next,
        ensures
            final(self).wf(),
            final(self).digits == old(self).digits,
            final(self).end == old(self).end,
            old(self).next < final(self).next,
            final(self).chunk() == fizz_stream(old(self).next as nat, final(self).next as nat),
    {
        let ghost d = self.digits as nat;
        let l = self.lines_per_buf;
        proof {
            self.lemma_bounds();
            lemma_batch_params_valid(d, self.next as nat);
            lemma_pow10_pos(self.suffix_digits as nat);
            lemma_cycle_len(self.next as nat, d, self.cycles_per_buf as nat, 0);
            assert(self.next + 15 * self.cycles_per_buf + 0 == self.next + l);
        }
        self.buf.flush();
        prime_load(&mut self.buf, self.next, l);
        proof {
            assert(self.buf.contents() =~= fizz_stream(self.next as nat, (self.next + l) as nat));
        }
        self.next = self.next + l;
        self.template = true;
    }

    /// Renders the lines from `next` on one by one, as many as fit.
    fn tail_step(&mut self)
        requires
            old(self).wf(),
            old(self).next < old(self).end,
        ensures
            final(self).wf(),
            final(self).digits == old(self).digits,
            final(self).end == old(self).end,
            old(self).next < final(self).next,
            final(self).chunk() == fizz_stream(old(self).next as nat, final(self).next as nat),
    {
        let ghost d = self.digits as nat;
        self.buf.flush();
        self.template = false;
        self.next = fill_tail(&mut self.buf, self.next, self.end, Ghost(d));
    }
}

} // verus!
