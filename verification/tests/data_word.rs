//! The metadata word: mark bit and root counter packed into one word.

use gc_rs::GcData;

#[test]
fn test_fresh_word() {
    let d = GcData::new();
    assert_eq!(d.get_roots(), 1);
    assert!(d.is_root());
    assert!(!d.is_marked());
}

#[test]
fn test_add_sub_roots() {
    let mut d = GcData::new();
    d.add_roots();
    d.add_roots();
    assert_eq!(d.get_roots(), 3);
    d.sub_roots();
    assert_eq!(d.get_roots(), 2);
    d.sub_roots();
    d.sub_roots();
    assert_eq!(d.get_roots(), 0);
    assert!(!d.is_root());
    // the counter saturates at zero
    d.sub_roots();
    assert_eq!(d.get_roots(), 0);
}

#[test]
fn test_mark_keeps_roots() {
    let mut d = GcData::new();
    d.add_roots();
    d.mark();
    assert!(d.is_marked());
    assert_eq!(d.get_roots(), 2);
    // marking twice is marking once
    d.mark();
    assert!(d.is_marked());
    assert_eq!(d.get_roots(), 2);
    d.unmark();
    assert!(!d.is_marked());
    assert_eq!(d.get_roots(), 2);
}

#[test]
fn test_roots_under_mark() {
    let mut d = GcData::new();
    d.mark();
    d.add_roots();
    assert_eq!(d.get_roots(), 2);
    assert!(d.is_marked());
    d.sub_roots();
    d.sub_roots();
    assert_eq!(d.get_roots(), 0);
    // an exhausted counter leaves the mark alone
    assert!(d.is_marked());
}
