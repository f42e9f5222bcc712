use fizzbuzz::buffer::{Buffer, Overrun, BUF_SIZE};
use fizzbuzz::render::write_fizz_buzz;

fn buffer_with(bytes: &[u8]) -> Buffer {
    let mut buf = Buffer::new();
    buf.write(bytes).unwrap();
    buf
}

#[test]
fn new_buffer_is_empty() {
    let buf = Buffer::new();
    assert_eq!(buf.view().len(), 0);
    assert_eq!(buf.spare_capacity(), BUF_SIZE);
}

#[test]
fn write_appends_and_overrun_leaves_buffer_alone() {
    let mut buf = Buffer::new();
    assert_eq!(buf.write(b"abc"), Ok(()));
    assert_eq!(buf.write(b"de"), Ok(()));
    assert_eq!(buf.view(), b"abcde".as_slice());
    assert_eq!(buf.spare_capacity(), BUF_SIZE - 5);
    let big = vec![b'z'; BUF_SIZE - 5];
    assert_eq!(buf.write(&big), Ok(()));
    assert_eq!(buf.spare_capacity(), 0);
    assert_eq!(buf.write(b"q"), Err(Overrun));
    assert_eq!(buf.view().len(), BUF_SIZE);
    assert_eq!(buf.write(b""), Ok(()));
}

#[test]
fn flush_hands_out_contents_and_empties() {
    let mut buf = buffer_with(b"Fizz\n");
    assert_eq!(buf.flush(), b"Fizz\n".as_slice());
    assert_eq!(buf.view().len(), 0);
    assert_eq!(buf.spare_capacity(), BUF_SIZE);
    buf.write(b"7\n").unwrap();
    assert_eq!(buf.view(), b"7\n".as_slice());
}

#[test]
fn ripple_without_carry() {
    let mut buf = buffer_with(b"x\n123\n");
    buf.ripple_carry_add_ascii(4, 5);
    assert_eq!(buf.view(), b"x\n128\n".as_slice());
}

#[test]
fn ripple_carries_through_nines() {
    let mut buf = buffer_with(b"Buzz\n1999\n");
    buf.ripple_carry_add_ascii(8, 3);
    assert_eq!(buf.view(), b"Buzz\n2002\n".as_slice());
}

#[test]
fn ripple_at_suffix_position_leaves_low_digits() {
    // adding 7 at the hundreds digit of 2950 gives 3650
    let mut buf = buffer_with(b"\n2950\n");
    buf.ripple_carry_add_ascii(2, 7);
    assert_eq!(buf.view(), b"\n3650\n".as_slice());
}

#[test]
fn ripple_run_starting_at_buffer_start() {
    let mut buf = buffer_with(b"0999");
    buf.ripple_carry_add_ascii(3, 1);
    assert_eq!(buf.view(), b"1000".as_slice());
}

#[test]
fn repeated_ripples_match_direct_formatting() {
    let mut buf = buffer_with(b"\n000417\n");
    let addends: [u8; 8] = [9, 9, 3, 8, 0, 6, 9, 1];
    let mut value: u64 = 417;
    for a in addends {
        buf.ripple_carry_add_ascii(6, a);
        value += a as u64;
        assert_eq!(buf.view(), format!("\n{:06}\n", value).as_bytes());
    }
    assert_eq!(buf.view(), b"\n000462\n".as_slice());
}

/// Positions of the last digit of each number in a rendered period that starts
/// at 10 modulo 15, relative to the period's start.
fn field_positions(digits: usize) -> [usize; 8] {
    [
        4 + digits,
        10 + 2 * digits,
        11 + 3 * digits,
        21 + 4 * digits,
        22 + 5 * digits,
        28 + 6 * digits,
        39 + 7 * digits,
        40 + 8 * digits,
    ]
}

#[test]
fn ripple_update_of_periods_keeps_keyword_slots() {
    // two periods of two-digit numbers, 10..40, advanced by 30 = 3 at one suffix digit
    let mut buf = Buffer::new();
    for n in 10..40u64 {
        write_fizz_buzz(n, &mut buf).unwrap();
    }
    let first = String::from_utf8(buf.view().to_vec()).unwrap();
    assert!(first.contains("13\n14\nFizzBuzz\n16\n"));
    let bytes_per_cycle = 47 + 8 * 2;
    assert_eq!(buf.view().len(), 2 * bytes_per_cycle);
    for cycle in 0..2 {
        for pos in field_positions(2) {
            buf.ripple_carry_add_ascii(cycle * bytes_per_cycle + pos - 1, 3);
        }
    }
    let mut expected = Buffer::new();
    for n in 40..70u64 {
        write_fizz_buzz(n, &mut expected).unwrap();
    }
    assert_eq!(buf.view(), expected.view());
    let advanced = String::from_utf8(buf.view().to_vec()).unwrap();
    assert!(advanced.contains("43\n44\nFizzBuzz\n46\n"));
}
