use fizzbuzz::batch::{find_lines_per_buf, find_lines_per_buf2};
use fizzbuzz::buffer::BUF_SIZE;
use fizzbuzz::emitter::{fast_buzz, FastBuzz};

fn plain_lines(from: u64, to: u64) -> Vec<u8> {
    let mut out = Vec::new();
    for n in from..to {
        let line = if n % 15 == 0 {
            "FizzBuzz\n".to_string()
        } else if n % 3 == 0 {
            "Fizz\n".to_string()
        } else if n % 5 == 0 {
            "Buzz\n".to_string()
        } else {
            format!("{}\n", n)
        };
        out.extend_from_slice(line.as_bytes());
    }
    out
}

/// Runs the emitter of one digit width to the end; returns the output and the
/// number of loads it was handed out in.
fn run_block(digits: usize) -> (Vec<u8>, usize) {
    let mut em = FastBuzz::new(digits);
    let mut out = Vec::new();
    let mut loads = 0;
    while fast_buzz(&mut em) {
        assert!(em.view().len() <= BUF_SIZE);
        assert!(!em.view().is_empty());
        out.extend_from_slice(em.view());
        loads += 1;
    }
    assert!(!fast_buzz(&mut em));
    (out, loads)
}

#[test]
fn one_digit_block_is_the_first_nine_lines() {
    let (out, loads) = run_block(1);
    assert_eq!(out, b"1\n2\nFizz\n4\nBuzz\nFizz\n7\n8\nFizz\n".to_vec());
    assert_eq!(loads, 1);
}

#[test]
fn blocks_of_two_to_four_digits_match_plain_rendering() {
    for digits in 2..=4usize {
        let start = 10u64.pow(digits as u32 - 1);
        let (out, _) = run_block(digits);
        assert_eq!(out, plain_lines(start, start * 10), "width {}", digits);
    }
}

#[test]
fn five_digit_block_reuses_loads_and_matches() {
    let (out, loads) = run_block(5);
    assert_eq!(out, plain_lines(10000, 100000));
    // 90000 lines in loads of 9000
    assert_eq!(loads, 10);
}

#[test]
fn six_digit_block_matches_plain_rendering() {
    let (out, loads) = run_block(6);
    assert_eq!(out, plain_lines(100000, 1000000));
    assert_eq!(loads, 100);
}

#[test]
fn concatenated_blocks_render_every_line_from_one() {
    let mut all = Vec::new();
    for digits in 1..=5usize {
        all.extend_from_slice(&run_block(digits).0);
    }
    assert_eq!(all, plain_lines(1, 100000));
}

#[test]
fn last_block_of_sixteen_digits_starts_right() {
    let mut em = FastBuzz::new(16);
    assert!(fast_buzz(&mut em));
    let start = 1_000_000_000_000_000u64;
    assert_eq!(em.view(), plain_lines(start, start + 3000).as_slice());
    assert!(fast_buzz(&mut em));
    assert_eq!(em.view(), plain_lines(start + 3000, start + 6000).as_slice());
    assert!(fast_buzz(&mut em));
    assert_eq!(em.view(), plain_lines(start + 6000, start + 9000).as_slice());
}

#[test]
fn widest_block_first_loads() {
    let mut em = FastBuzz::new(19);
    let start = 1_000_000_000_000_000_000u64;
    assert!(fast_buzz(&mut em));
    assert_eq!(em.view(), plain_lines(start, start + 3000).as_slice());
    assert!(fast_buzz(&mut em));
    assert_eq!(em.view(), plain_lines(start + 3000, start + 6000).as_slice());
}

#[test]
fn batch_parameters_per_width() {
    let expected: [(u8, usize); 19] = [
        (9, 3),
        (9, 3),
        (9, 3),
        (9, 3),
        (9, 3),
        (9, 3),
        (9, 3),
        (6, 3),
        (6, 3),
        (6, 3),
        (6, 3),
        (6, 3),
        (6, 3),
        (6, 3),
        (3, 3),
        (3, 3),
        (3, 3),
        (3, 3),
        (3, 3),
    ];
    for digits in 1..=19usize {
        assert_eq!(find_lines_per_buf2(digits), Some(expected[digits - 1]), "width {}", digits);
    }
}

#[test]
fn batch_parameters_fit_the_buffer() {
    for digits in 1..=19usize {
        let (addend, suffix) = find_lines_per_buf2(digits).unwrap();
        let lines = addend as usize * 10usize.pow(suffix as u32);
        assert_eq!(lines % 15, 0);
        assert!((lines / 15) * (47 + 8 * digits) <= BUF_SIZE);
        assert!(addend == 3 || addend == 6 || addend == 9);
    }
}

#[test]
fn no_parameters_when_three_lines_do_not_fit() {
    // a period larger than the buffer leaves no whole period at all
    assert_eq!(find_lines_per_buf2(9000), None);
    assert_eq!(find_lines_per_buf2(3000), Some((9, 0)));
    assert_eq!(find_lines_per_buf2(1000), Some((9, 1)));
}

#[test]
fn searched_load_size_agrees_with_selected_parameters() {
    for digits in 1..=19usize {
        let (addend, suffix) = find_lines_per_buf2(digits).unwrap();
        assert_eq!(find_lines_per_buf(digits), addend as usize * 10usize.pow(suffix as u32));
    }
    assert_eq!(find_lines_per_buf(1), 9000);
    assert_eq!(find_lines_per_buf(8), 6000);
    assert_eq!(find_lines_per_buf(16), 3000);
}
