use speed_primes::bitfield::Bitfield;

#[test]
fn new_field_has_every_flag_raised() {
    let field = Bitfield::new(3);
    assert_eq!(field.block_count(), 3);
    for p in 0..24 {
        assert!(field.get(p));
    }
    assert_eq!(field.count_ones(), 24);
}

#[test]
fn empty_field_counts_nothing() {
    let field = Bitfield::new(0);
    assert_eq!(field.block_count(), 0);
    assert_eq!(field.count_ones(), 0);
}

#[test]
fn clear_lowers_one_flag_only() {
    let mut field = Bitfield::new(2);
    field.clear(9);
    for p in 0..16 {
        assert_eq!(field.get(p), p != 9);
    }
    assert_eq!(field.count_ones(), 15);
}

#[test]
fn clear_twice_is_clear_once() {
    let mut field = Bitfield::new(1);
    field.clear(0);
    field.clear(0);
    assert!(!field.get(0));
    assert_eq!(field.count_ones(), 7);
}

#[test]
fn clear_reaches_the_first_and_last_bit_of_each_block() {
    let mut field = Bitfield::new(4);
    for p in [0u64, 7, 8, 15, 16, 23, 24, 31] {
        field.clear(p);
    }
    for p in 0..32 {
        assert_eq!(field.get(p), p % 8 != 0 && p % 8 != 7);
    }
    assert_eq!(field.count_ones(), 24);
}

#[test]
fn count_follows_every_clear() {
    let mut field = Bitfield::new(5);
    let mut expected = 40;
    for p in (0..40).rev().step_by(3) {
        field.clear(p);
        expected -= 1;
        assert_eq!(field.count_ones(), expected);
    }
}

#[test]
fn all_flags_can_be_lowered() {
    let mut field = Bitfield::new(2);
    for p in 0..16 {
        field.clear(p);
    }
    assert_eq!(field.count_ones(), 0);
    for p in 0..16 {
        assert!(!field.get(p));
    }
}
