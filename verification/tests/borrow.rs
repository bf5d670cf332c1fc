//! Exclusive borrows of cells and of the id-tagged slot.

use gc_rs::Gc;
use gc_rs::GcState;
use gc_rs::Record;
use gc_rs::gc_obj::Flags;
use gc_rs::gc_obj::GcObj;
use gc_rs::gc_obj::MarkerFlag;
use gc_rs::gc_obj::TakenFlag;
use gc_rs::gc_ref::GcRef;
use gc_rs::gc_ref::GcRefMut;

#[test]
fn test_busy_borrow_rejected() {
    let mut st: GcState<Record> = GcState::new();
    let c = Gc::new(Record { tag: 1, label: "cell".to_string(), next: None }, &mut st);
    let first = c.borrow_mut(&mut st).expect("the cell starts unborrowed");
    // a second exclusive borrow is refused while the first is out
    assert!(c.borrow_mut(&mut st).is_none());
    assert!(c.get_mut(&mut st).is_none());
    first.release(&mut st);
    // once the first borrow ends, a new one succeeds
    let third = c.borrow_mut(&mut st).expect("the cell is free again");
    assert_eq!(third.read(&st).tag, 1);
    third.release(&mut st);
    c.release(&mut st);
    st.collect_garbage();
    assert_eq!(st.get_ptrs_len(), 0);
}

#[test]
fn test_replace_returns_old_payload() {
    let mut st: GcState<Record> = GcState::new();
    let c = Gc::new(Record { tag: 1, label: "old".to_string(), next: None }, &mut st);
    let tok = c.borrow_mut(&mut st).unwrap();
    let old = tok.replace(&mut st, Record { tag: 2, label: "new".to_string(), next: None });
    assert_eq!(old.tag, 1);
    assert_eq!(old.label, "old");
    assert_eq!(tok.read(&st).tag, 2);
    tok.release(&mut st);
    assert_eq!(c.get(&st).label, "new");
    c.release(&mut st);
    st.collect_garbage();
    assert_eq!(st.get_ptrs_len(), 0);
}

#[test]
fn test_flags_shared_ledger() {
    let mut f = Flags { marker: MarkerFlag::Unseen, taken: TakenFlag::NotTaken, free: false };
    assert_eq!(f.add_shared(), Some(()));
    assert_eq!(f.taken, TakenFlag::Shared(1));
    assert_eq!(f.add_shared(), Some(()));
    assert_eq!(f.taken, TakenFlag::Shared(2));
    assert_eq!(f.remove_shared(), Some(()));
    assert_eq!(f.taken, TakenFlag::Shared(1));
    assert_eq!(f.remove_shared(), Some(()));
    assert_eq!(f.taken, TakenFlag::NotTaken);
    // returning a borrow nobody holds is refused
    assert_eq!(f.remove_shared(), None);
}

#[test]
fn test_flags_exclusive_ledger() {
    let mut f = Flags { marker: MarkerFlag::Unseen, taken: TakenFlag::NotTaken, free: false };
    assert_eq!(f.mark_taken(), Some(()));
    assert_eq!(f.taken, TakenFlag::Unique);
    // neither a second exclusive nor a shared borrow fits beside it
    assert_eq!(f.mark_taken(), None);
    assert_eq!(f.add_shared(), None);
    f.remove_taken();
    assert_eq!(f.taken, TakenFlag::NotTaken);
    f.mark_seen();
    assert_eq!(f.marker, MarkerFlag::Seen);
    f.mark_children_not_seen();
    assert_eq!(f.marker, MarkerFlag::ChildrenNotSeen);
}

#[test]
fn test_obj_borrow_receipts() {
    let flags = Flags { marker: MarkerFlag::Unseen, taken: TakenFlag::NotTaken, free: false };
    let mut obj = GcObj::new_data(9, flags, 1, 42i64);
    assert_eq!(obj.id(), 9);
    assert_eq!(obj.get_refs(), 1);
    assert_eq!(*obj.get_ptr(), 42);
    let shared = obj.borrow().expect("a free slot admits a shared borrow");
    assert_eq!(shared.id(), 9);
    assert_eq!(obj.get_flags().taken, TakenFlag::Shared(1));
    // the exclusive borrow is refused while a shared one is out
    assert!(obj.borrow_mut().is_none());
    assert_eq!(obj.remove_shared(), Some(()));
    let unique = obj.borrow_mut().expect("a free slot admits the exclusive borrow");
    assert_eq!(unique.id(), 9);
    assert_eq!(obj.get_flags().taken, TakenFlag::Unique);
    assert!(obj.borrow().is_none());
    obj.remove_taken();
    assert_eq!(obj.get_flags().taken, TakenFlag::NotTaken);
}

#[test]
fn test_obj_sweep_marks() {
    let flags = Flags { marker: MarkerFlag::Unseen, taken: TakenFlag::NotTaken, free: false };
    let mut obj = GcObj::new_data(0, flags, 1, String::from("slot"));
    obj.mark_children_not_seen();
    assert_eq!(obj.get_flags().marker, MarkerFlag::ChildrenNotSeen);
    obj.mark_seen();
    assert_eq!(obj.get_flags().marker, MarkerFlag::Seen);
    obj.mark_unseen();
    assert_eq!(obj.get_flags().marker, MarkerFlag::Unseen);
}

#[test]
fn test_receipts_name_their_slot() {
    let shared = GcRef::new(3);
    assert_eq!(shared.id(), 3);
    let unique = GcRefMut::new(4);
    assert_eq!(unique.id(), 4);
}

#[test]
fn test_try_get_checks_the_borrow() {
    let mut st: GcState<Record> = GcState::new();
    let c = Gc::new(Record { tag: 4, label: "x".to_string(), next: None }, &mut st);
    assert_eq!(c.try_get(&st).expect("the cell starts unborrowed").tag, 4);
    let tok = c.borrow_mut(&mut st).unwrap();
    // while the exclusive borrow is out the read path reports busy
    assert!(c.try_get(&st).is_none());
    tok.release(&mut st);
    assert_eq!(c.try_get(&st).expect("the borrow ended").label, "x");
    c.release(&mut st);
    st.collect_garbage();
    assert_eq!(st.get_ptrs_len(), 0);
}

#[test]
fn test_slot_upgrade_downgrade() {
    let flags = Flags { marker: MarkerFlag::Unseen, taken: TakenFlag::NotTaken, free: false };
    let mut obj = GcObj::new_data(5, flags, 1, 0i64);
    let _shared = obj.borrow().unwrap();
    // the only shared borrow can become the exclusive one
    let unique = obj.upgrade().expect("a single shared borrow upgrades");
    assert_eq!(unique.id(), 5);
    assert_eq!(obj.get_flags().taken, TakenFlag::Unique);
    // and back again
    let shared_again = obj.downgrade().expect("the exclusive borrow downgrades");
    assert_eq!(shared_again.id(), 5);
    assert_eq!(obj.get_flags().taken, TakenFlag::Shared(1));
    // with two shared borrows out, upgrading is refused
    assert_eq!(obj.add_shared(), Some(()));
    assert!(obj.upgrade().is_none());
    // downgrading without the exclusive borrow is refused
    assert!(obj.downgrade().is_none());
    let mut f = Flags { marker: MarkerFlag::Unseen, taken: TakenFlag::Shared(1), free: false };
    assert_eq!(f.upgrade(), Some(()));
    assert_eq!(f.taken, TakenFlag::Unique);
    assert_eq!(f.downgrade(), Some(()));
    assert_eq!(f.taken, TakenFlag::Shared(1));
}
