use fizzbuzz::buffer::{Buffer, Overrun, BUF_SIZE};
use fizzbuzz::render::write_fizz_buzz;

fn line_of(n: u64) -> Vec<u8> {
    let mut buf = Buffer::new();
    write_fizz_buzz(n, &mut buf).unwrap();
    buf.view().to_vec()
}

fn expected_line(n: u64) -> String {
    if n % 15 == 0 {
        "FizzBuzz\n".to_string()
    } else if n % 3 == 0 {
        "Fizz\n".to_string()
    } else if n % 5 == 0 {
        "Buzz\n".to_string()
    } else {
        format!("{}\n", n)
    }
}

#[test]
fn keyword_and_number_lines() {
    assert_eq!(line_of(1), b"1\n".to_vec());
    assert_eq!(line_of(3), b"Fizz\n".to_vec());
    assert_eq!(line_of(5), b"Buzz\n".to_vec());
    assert_eq!(line_of(15), b"FizzBuzz\n".to_vec());
    assert_eq!(line_of(14), b"14\n".to_vec());
    assert_eq!(line_of(98), b"98\n".to_vec());
    assert_eq!(line_of(100), b"Buzz\n".to_vec());
    assert_eq!(line_of(101), b"101\n".to_vec());
}

#[test]
fn every_line_follows_divisibility() {
    for n in 1..=3000u64 {
        assert_eq!(line_of(n), expected_line(n).into_bytes(), "line for {}", n);
    }
}

#[test]
fn widest_numbers_render_in_full() {
    assert_eq!(line_of(18446744073709551613), b"18446744073709551613\n".to_vec());
    assert_eq!(line_of(10000000000000000001), b"10000000000000000001\n".to_vec());
    assert_eq!(line_of(9999999999999999), b"Fizz\n".to_vec());
    assert_eq!(line_of(1000000000000000), b"Buzz\n".to_vec());
}

#[test]
fn lines_append_in_order() {
    let mut buf = Buffer::new();
    for n in 1..=15u64 {
        write_fizz_buzz(n, &mut buf).unwrap();
    }
    let text = String::from_utf8(buf.view().to_vec()).unwrap();
    assert_eq!(
        text,
        "1\n2\nFizz\n4\nBuzz\nFizz\n7\n8\nFizz\nBuzz\n11\nFizz\n13\n14\nFizzBuzz\n"
    );
}

#[test]
fn line_that_does_not_fit_is_refused() {
    let mut buf = Buffer::new();
    let filler = vec![b'x'; BUF_SIZE - 4];
    assert_eq!(buf.write(&filler), Ok(()));
    assert_eq!(buf.spare_capacity(), 4);
    assert_eq!(write_fizz_buzz(3, &mut buf), Err(Overrun));
    assert_eq!(buf.view().len(), BUF_SIZE - 4);
    assert_eq!(write_fizz_buzz(7, &mut buf), Ok(()));
    assert_eq!(buf.spare_capacity(), 2);
    let view = buf.view();
    assert_eq!(&view[view.len() - 6..], b"xxxx7\n".as_slice());
}
