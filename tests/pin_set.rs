use monitor_gpio::pin_set::{PinSet, MAX_PINS};

#[test]
fn new_set_is_empty() {
    let s = PinSet::new();
    assert_eq!(s.len(), 0);
    assert!(s.is_empty());
    assert!(s.as_slice().is_empty());
    assert!(!s.contains(0));
}

#[test]
fn add_same_pin_twice() {
    let mut s = PinSet::new();
    assert!(s.add(5));
    assert!(!s.add(5));
    assert_eq!(s.len(), 1);
    assert!(s.contains(5));
    assert_eq!(s.as_slice(), &[5]);
}

#[test]
fn add_refused_when_full() {
    let mut s = PinSet::new();
    for p in 0..MAX_PINS as u32 {
        assert!(s.add(p));
    }
    assert_eq!(s.len(), MAX_PINS);
    assert!(!s.add(100));
    assert!(!s.contains(100));
    assert_eq!(s.len(), MAX_PINS);
}

#[test]
fn init_with_truncates_at_capacity() {
    let input: Vec<u32> = (0..40).collect();
    let s = PinSet::init_with(&input);
    assert_eq!(s.len(), 28);
    let expected: Vec<u32> = (0..28).collect();
    assert_eq!(s.as_slice(), &expected[..]);
    assert!(!s.contains(28));
    assert!(!s.contains(39));
}

#[test]
fn init_with_drops_duplicates_in_order() {
    let s = PinSet::init_with(&[7, 3, 7, 1, 3, 9]);
    assert_eq!(s.as_slice(), &[7, 3, 1, 9]);
    assert_eq!(s.len(), 4);
}

#[test]
fn init_with_empty_input() {
    let s = PinSet::init_with(&[]);
    assert!(s.is_empty());
}

#[test]
fn init_with_duplicates_past_capacity() {
    let mut input: Vec<u32> = vec![0, 0, 1, 1];
    input.extend(2..40);
    let s = PinSet::init_with(&input);
    let expected: Vec<u32> = (0..28).collect();
    assert_eq!(s.as_slice(), &expected[..]);
}

#[test]
fn remove_swaps_last_into_place() {
    let mut s = PinSet::new();
    assert!(s.add(2));
    assert!(s.add(4));
    assert!(s.add(17));
    assert!(s.remove(4));
    assert_eq!(s.len(), 2);
    assert!(s.contains(2));
    assert!(s.contains(17));
    assert!(!s.contains(4));
    assert_eq!(s.as_slice(), &[2, 17]);
}

#[test]
fn remove_first_moves_last() {
    let mut s = PinSet::init_with(&[2, 4, 17]);
    assert!(s.remove(2));
    assert_eq!(s.as_slice(), &[17, 4]);
}

#[test]
fn remove_absent_pin() {
    let mut s = PinSet::init_with(&[2, 4]);
    assert!(!s.remove(9));
    assert_eq!(s.as_slice(), &[2, 4]);
    assert!(s.remove(2));
    assert!(s.remove(4));
    assert!(s.is_empty());
    assert!(!s.remove(4));
}
