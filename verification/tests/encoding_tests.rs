use subset_sum_zk::encoding::{push_decimal, push_digits, push_hex};

fn decimal_of(v: i32) -> Vec<u8> {
    let mut out = Vec::new();
    push_decimal(v, &mut out);
    out
}

#[test]
fn decimal_of_zero_is_one_digit() {
    assert_eq!(decimal_of(0), b"0".to_vec());
}

#[test]
fn decimal_of_positive_numbers() {
    assert_eq!(decimal_of(7), b"7".to_vec());
    assert_eq!(decimal_of(10), b"10".to_vec());
    assert_eq!(decimal_of(12), b"12".to_vec());
    assert_eq!(decimal_of(1000), b"1000".to_vec());
    assert_eq!(decimal_of(i32::MAX), b"2147483647".to_vec());
}

#[test]
fn decimal_of_negative_numbers() {
    assert_eq!(decimal_of(-1), b"-1".to_vec());
    assert_eq!(decimal_of(-90), b"-90".to_vec());
    assert_eq!(decimal_of(i32::MIN), b"-2147483648".to_vec());
}

#[test]
fn decimal_agrees_with_the_standard_library() {
    let samples = [0, 1, -1, 9, 10, 99, 100, 101, -100, 65535, -65536, 123456789, i32::MAX, i32::MIN];
    for v in samples {
        assert_eq!(decimal_of(v), v.to_string().into_bytes());
    }
}

#[test]
fn decimal_appends_to_what_is_there() {
    let mut out = b"ab".to_vec();
    push_decimal(-35, &mut out);
    push_decimal(4, &mut out);
    assert_eq!(out, b"ab-354".to_vec());
}

#[test]
fn digits_of_large_numbers() {
    let mut out = Vec::new();
    push_digits(u64::MAX, &mut out);
    assert_eq!(out, b"18446744073709551615".to_vec());
    let mut out = Vec::new();
    push_digits(255, &mut out);
    assert_eq!(out, b"255".to_vec());
}

#[test]
fn hex_is_lower_case_high_half_first() {
    let mut out = Vec::new();
    push_hex(&vec![0x00, 0x0f, 0xa0, 0xff, 0x9b, 0x1c], &mut out);
    assert_eq!(out, b"000fa0ff9b1c".to_vec());
}

#[test]
fn hex_of_nothing_is_empty() {
    let mut out = b"x".to_vec();
    push_hex(&Vec::new(), &mut out);
    assert_eq!(out, b"x".to_vec());
}

#[test]
fn hex_covers_every_byte() {
    let table = b"0123456789abcdef";
    for b in 0..=255u8 {
        let mut out = Vec::new();
        push_hex(&vec![b], &mut out);
        assert_eq!(out, vec![table[(b >> 4) as usize], table[(b & 15) as usize]]);
    }
}
