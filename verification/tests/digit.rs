use sudoku::datastructures::digit::Digit::{Eight, Five, Four, Nine, One, Seven, Six, Three, Two};
use sudoku::datastructures::digit::{Digit, DigitHashSet, DigitSet, DigitValue};

#[test]
fn digit_test_if_digit_can_be_none() {
    let myvalue: DigitValue = Some(One);
    assert_eq!(myvalue, Some(One));
}

#[test]
fn lib_test_if_digit_can_be_none() {
    let myvalue: DigitValue = Some(One);
    assert_eq!(myvalue, Some(One));
}

#[test]
fn test_digit_set_contains_nothing() {
    let digitset = DigitSet::new();
    assert_eq!(digitset.contains(One), false);
}

#[test]
fn test_digit_set_contains_all() {
    let digitset = DigitSet::new_full();
    assert_eq!(digitset.contains(One), true);
    assert_eq!(digitset.contains(Two), true);
    assert_eq!(digitset.contains(Three), true);
    assert_eq!(digitset.contains(Four), true);
    assert_eq!(digitset.contains(Five), true);
    assert_eq!(digitset.contains(Six), true);
    assert_eq!(digitset.contains(Seven), true);
    assert_eq!(digitset.contains(Eight), true);
    assert_eq!(digitset.contains(Nine), true);
}

#[test]
fn test_digit_set_rotation() {
    let mut digitset = DigitSet::new_full();
    digitset.rotate_right(3);
    assert_eq!(*digitset.iter().next().unwrap(), Some(Seven));
    digitset.rotate_left(3);
    assert_eq!(*digitset.iter().next().unwrap(), Some(One));
}

#[test]
fn test_digit_into_hashset() {
    let hashset = DigitSet::new_full().new_hashset();
    assert_eq!(hashset.iter().count(), 9);
}

#[test]
fn test_digit_ordinals_round_trip() {
    let all = [One, Two, Three, Four, Five, Six, Seven, Eight, Nine];
    for (k, digit) in all.iter().enumerate() {
        assert_eq!(digit.to_ordinal(), k);
        assert_eq!(Digit::from_ordinal(k), *digit);
    }
}

#[test]
fn test_digit_set_full_order_and_copy() {
    let digitset = DigitSet::new_full();
    assert_eq!(
        digitset.get_data(),
        vec![
            Some(One),
            Some(Two),
            Some(Three),
            Some(Four),
            Some(Five),
            Some(Six),
            Some(Seven),
            Some(Eight),
            Some(Nine)
        ]
    );
}

#[test]
fn test_digit_set_new_full_and_rotate_left() {
    let digitset = DigitSet::new_full_and_rotate_left(2);
    assert_eq!(
        digitset.get_data(),
        vec![
            Some(Three),
            Some(Four),
            Some(Five),
            Some(Six),
            Some(Seven),
            Some(Eight),
            Some(Nine),
            Some(One),
            Some(Two)
        ]
    );
    let unturned = DigitSet::new_full_and_rotate_left(0);
    assert_eq!(unturned.get_data(), DigitSet::new_full().get_data());
    let whole = DigitSet::new_full_and_rotate_left(9);
    assert_eq!(whole.get_data(), DigitSet::new_full().get_data());
}

#[test]
fn test_digit_set_rotate_right_moves_tail_to_front() {
    let mut digitset = DigitSet::new_full();
    digitset.rotate_right(1);
    assert_eq!(digitset.get_data()[0], Some(Nine));
    assert_eq!(digitset.get_data()[1], Some(One));
    assert_eq!(digitset.get_data()[8], Some(Eight));
}

#[test]
fn test_digit_hash_set_insert_remove() {
    let mut set = DigitHashSet::new();
    assert!(set.is_empty());
    assert_eq!(set.len(), 0);
    assert_eq!(set.insert(Five), true);
    assert_eq!(set.insert(Five), false);
    assert_eq!(set.insert(Two), true);
    assert_eq!(set.len(), 2);
    assert!(set.contains(&Five));
    assert!(!set.contains(&One));
    assert_eq!(set.to_vec(), vec![Two, Five]);
    assert_eq!(set.remove(&Five), true);
    assert_eq!(set.remove(&Five), false);
    assert_eq!(set.to_vec(), vec![Two]);
    assert!(!set.is_empty());
}

#[test]
fn test_digit_hash_set_first_intersection_difference() {
    let four = DigitHashSet::first(4);
    assert_eq!(four.to_vec(), vec![One, Two, Three, Four]);
    assert_eq!(DigitHashSet::first(0).len(), 0);
    assert_eq!(DigitHashSet::first(9).len(), 9);
    assert_eq!(DigitHashSet::first(12).len(), 9);
    let mut other = DigitHashSet::new();
    other.insert(Three);
    other.insert(Four);
    other.insert(Seven);
    assert_eq!(four.intersection(&other).to_vec(), vec![Three, Four]);
    assert_eq!(four.difference(&other).to_vec(), vec![One, Two]);
    assert_eq!(other.clone(), other);
    let walked: Vec<Digit> = other.iter().collect();
    assert_eq!(walked, vec![Three, Four, Seven]);
}
