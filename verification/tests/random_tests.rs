use subset_sum_zk::random::{draw_salts, draw_shift, draw_sign, salt_from, sign_from};

#[test]
fn sign_is_plus_or_minus_one() {
    let mut plus = 0;
    let mut minus = 0;
    for _ in 0..2000 {
        match draw_sign() {
            1 => plus += 1,
            -1 => minus += 1,
            other => panic!("not a sign: {}", other),
        }
    }
    assert!(plus > 0);
    assert!(minus > 0);
}

#[test]
fn shift_stays_in_its_range() {
    for _ in 0..2000 {
        let s = draw_shift(12);
        assert!(0 <= s && s <= 12);
    }
    for _ in 0..50 {
        assert_eq!(draw_shift(0), 0);
    }
}

#[test]
fn shift_reaches_both_ends() {
    let mut low = false;
    let mut high = false;
    for _ in 0..2000 {
        match draw_shift(3) {
            0 => low = true,
            3 => high = true,
            _ => {}
        }
    }
    assert!(low && high);
}

#[test]
fn salts_are_not_negative() {
    let salts = draw_salts(500);
    assert_eq!(salts.len(), 500);
    assert!(salts.iter().all(|s| *s >= 0));
    assert!(draw_salts(0).is_empty());
}

#[test]
fn salts_differ_from_draw_to_draw() {
    assert_ne!(draw_salts(16), draw_salts(16));
}

#[test]
fn salt_from_takes_the_magnitude() {
    assert_eq!(salt_from(0), 0);
    assert_eq!(salt_from(5), 5);
    assert_eq!(salt_from(-5), 5);
    assert_eq!(salt_from(i32::MAX), i32::MAX);
    assert_eq!(salt_from(-i32::MAX), i32::MAX);
    assert_eq!(salt_from(i32::MIN), i32::MAX);
}

#[test]
fn sign_from_maps_zero_up_and_one_down() {
    assert_eq!(sign_from(0), 1);
    assert_eq!(sign_from(1), -1);
}
