use fizzbuzz::counter::AsciiCounter;

#[test]
fn counter_starts_at_zero() {
    let c = AsciiCounter::new();
    assert_eq!(c.view_ascii(), b"0\n".as_slice());
}

#[test]
fn counter_bumps_by_digits() {
    let mut c = AsciiCounter::new();
    c.bump(1);
    assert_eq!(c.view_ascii(), b"1\n".as_slice());
    c.bump(8);
    assert_eq!(c.view_ascii(), b"9\n".as_slice());
    c.bump(1);
    assert_eq!(c.view_ascii(), b"10\n".as_slice());
    c.bump(9);
    assert_eq!(c.view_ascii(), b"19\n".as_slice());
}

#[test]
fn counter_widens_on_carry() {
    let mut c = AsciiCounter::new();
    let mut value: u64 = 0;
    let steps: [u8; 6] = [1, 2, 3, 1, 3, 2];
    for round in 0..2000 {
        let incr = steps[round % steps.len()];
        c.bump(incr);
        value += incr as u64;
        assert_eq!(c.view_ascii(), format!("{}\n", value).as_bytes());
    }
}

#[test]
fn counter_period_pattern_renders_numbers() {
    // the numeric lines of a period: 1, 2, 4, 7, 8, 11, 13, 14
    let mut c = AsciiCounter::new();
    c.bump(1);
    let mut seen = Vec::new();
    let steps: [u8; 8] = [1, 2, 3, 1, 3, 2, 1, 2];
    seen.push(c.view_ascii().to_vec());
    for incr in steps.iter().take(7) {
        c.bump(*incr);
        seen.push(c.view_ascii().to_vec());
    }
    let text: Vec<u8> = seen.concat();
    assert_eq!(text, b"1\n2\n4\n7\n8\n11\n13\n14\n".to_vec());
    c.bump(steps[7]);
    assert_eq!(c.view_ascii(), b"16\n".as_slice());
}
