use sudoku::Possibilities;

#[test]
fn add_to_empty_contains_exactly_that_digit() {
    for d in 1..=9u8 {
        let mut set = Possibilities::default();
        set.set_marked(d);
        assert!(set.is_number_marked(d));
        for e in 1..=9u8 {
            if e != d {
                assert!(!set.is_number_marked(e));
            }
        }
    }
}

#[test]
fn empty_set_has_no_members() {
    let set = Possibilities::default();
    assert_eq!(set.data, 0);
    for d in 1..=9u8 {
        assert!(!set.is_number_marked(d));
    }
}

#[test]
fn create_full_contains_all_digits() {
    let full = Possibilities::create_full();
    assert_eq!(full.data, 0b01111111111);
    for d in 1..=9u8 {
        assert!(full.is_number_marked(d));
    }
}

#[test]
fn set_marked_is_idempotent() {
    let mut set = Possibilities::default();
    set.set_marked(4);
    let once = set.data;
    set.set_marked(4);
    assert_eq!(set.data, once);
}

#[test]
fn clear_marked_removes_digit_and_is_idempotent() {
    let mut set = Possibilities::create_full();
    set.clear_marked(7);
    assert!(!set.is_number_marked(7));
    assert!(set.is_number_marked(6));
    assert!(set.is_number_marked(8));
    let once = set.data;
    set.clear_marked(7);
    assert_eq!(set.data, once);
}

#[test]
fn single_member_none_for_empty_set() {
    let set = Possibilities::default();
    assert_eq!(set.find_only_marked_number(), None);
}

#[test]
fn single_member_some_for_singleton_set() {
    for d in 1..=9u8 {
        let mut set = Possibilities::default();
        set.set_marked(d);
        assert_eq!(set.find_only_marked_number(), Some(d));
    }
}

#[test]
fn single_member_none_for_two_or_more_digits() {
    let mut set = Possibilities::default();
    set.set_marked(2);
    set.set_marked(9);
    assert_eq!(set.find_only_marked_number(), None);
    let full = Possibilities::create_full();
    assert_eq!(full.find_only_marked_number(), None);
}

#[test]
fn single_member_ignores_bit_zero() {
    // Bit 0 is never meaningful: a mask with bits 0 and 7 set holds the
    // single digit 7.
    let set = Possibilities { data: 129 };
    for d in 1..=9u8 {
        assert_eq!(set.is_number_marked(d), d == 7);
    }
    assert_eq!(set.find_only_marked_number(), Some(7));
}

#[test]
fn intersection_is_commutative() {
    let a = Possibilities { data: 0b0110101010 };
    let b = Possibilities { data: 0b0011100110 };
    assert_eq!(a.common_numbers(b), b.common_numbers(a));
    assert_eq!(a.common_numbers(b).data, 0b0010100010);
}

#[test]
fn intersection_is_associative() {
    let a = Possibilities { data: 0b0110101010 };
    let b = Possibilities { data: 0b0011100110 };
    let c = Possibilities { data: 0b0111000011 };
    assert_eq!(
        a.common_numbers(b).common_numbers(c),
        a.common_numbers(b.common_numbers(c))
    );
}

#[test]
fn intersection_with_full_is_identity() {
    let full = Possibilities::create_full();
    let mut s = Possibilities::default();
    s.set_marked(1);
    s.set_marked(5);
    s.set_marked(9);
    assert_eq!(full.common_numbers(s), s);
    assert_eq!(s.common_numbers(full), s);
    assert_eq!(full.common_numbers(full), full);
    let empty = Possibilities::default();
    assert_eq!(full.common_numbers(empty), empty);
}
