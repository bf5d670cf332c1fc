//! Whole lifecycles of collected cells: allocation, the rooting dance, and
//! the sweep.

use gc_rs::Gc;
use gc_rs::GcState;
use gc_rs::Record;

fn leaf(tag: i64, label: &str) -> Record {
    Record { tag, label: label.to_string(), next: None }
}

#[test]
fn test_vec() {
    let len = gc_rs::record::vec();
    assert_eq!(len, 0);
}

#[test]
fn test_single_object_lifecycle() {
    let mut st: GcState<Record> = GcState::new();
    let x = Gc::new(leaf(1, "hi"), &mut st);
    assert!(x.is_root());
    assert_eq!(st.get_ptrs_len(), 1);
    assert_eq!(st.get_roots_len(), 1);
    assert_eq!(x.get_roots(&st), 1);
    let id = x.id();
    x.release(&mut st);
    // roots drop to zero before the sweep; the cell is still listed
    assert_eq!(st.node_roots(id), Some(0));
    assert_eq!(st.get_ptrs_len(), 1);
    st.collect_garbage();
    assert_eq!(st.get_ptrs_len(), 0);
}

#[test]
fn test_parent_child_rooting() {
    let mut st: GcState<Record> = GcState::new();
    let x = Gc::new(leaf(1, "hi"), &mut st);
    assert_eq!(x.get_roots(&st), 1);
    let x_id = x.id();
    let p = Gc::new(Record { tag: 2, label: String::new(), next: Some(x) }, &mut st);
    // the child stopped being a root when it moved into the parent
    assert_eq!(st.node_roots(x_id), Some(0));
    assert_eq!(p.get_roots(&st), 1);
    assert_eq!(st.get_ptrs_len(), 2);
    assert_eq!(st.get_roots_len(), 1);
    let embedded_not_root = {
        let r = p.get(&st);
        !r.next.as_ref().unwrap().is_root()
    };
    assert!(embedded_not_root);
    p.release(&mut st);
    st.collect_garbage();
    assert_eq!(st.get_ptrs_len(), 0);
}

#[test]
fn test_clone_is_rooted() {
    let mut st: GcState<Record> = GcState::new();
    let x = Gc::new(leaf(7, "x"), &mut st);
    let y = x.duplicate(&mut st);
    assert!(y.is_root());
    assert!(x.ptr_eq(&y));
    assert_eq!(x.get_roots(&st), 2);
    x.release(&mut st);
    assert_eq!(y.get_roots(&st), 1);
    st.collect_garbage();
    // the clone still keeps the cell alive
    assert_eq!(st.get_ptrs_len(), 1);
    y.release(&mut st);
    st.collect_garbage();
    assert_eq!(st.get_ptrs_len(), 0);
}

#[test]
fn test_root_deroot_idempotent() {
    let mut st: GcState<Record> = GcState::new();
    let mut x = Gc::new(leaf(3, ""), &mut st);
    assert_eq!(x.get_roots(&st), 1);
    // rooting an already rooted handle changes nothing
    st.root(&mut x);
    assert_eq!(x.get_roots(&st), 1);
    assert!(x.is_root());
    st.deroot(&mut x);
    assert_eq!(x.get_roots(&st), 0);
    assert!(!x.is_root());
    // derooting an already non-rooted handle changes nothing
    st.deroot(&mut x);
    assert_eq!(x.get_roots(&st), 0);
    st.root(&mut x);
    assert_eq!(x.get_roots(&st), 1);
    x.release(&mut st);
    st.collect_garbage();
    assert_eq!(st.get_ptrs_len(), 0);
}

#[test]
fn test_spammy_allocation() {
    let mut st: GcState<Record> = GcState::new();
    for _ in 0..1000 {
        let h = Gc::new(leaf(1, "hi"), &mut st);
        h.release(&mut st);
    }
    st.collect_garbage();
    assert_eq!(st.get_ptrs_len(), 0);
}

#[test]
fn test_refresh_clears_everything() {
    let mut st: GcState<Record> = GcState::new();
    let a = Gc::new(leaf(1, "a"), &mut st);
    let _b = Gc::new(leaf(2, "b"), &mut st);
    assert_eq!(st.get_ptrs_len(), 2);
    st.refresh();
    assert_eq!(st.get_ptrs_len(), 0);
    assert_eq!(st.get_roots_len(), 0);
    // handles into a refreshed heap dangle; the library reports no cell
    assert_eq!(st.node_roots(a.id()), None);
}

#[test]
fn test_from_id_reroots_interior() {
    let mut st: GcState<Record> = GcState::new();
    let x = Gc::new(leaf(1, "x"), &mut st);
    let x_id = x.id();
    let p = Gc::new(Record { tag: 2, label: String::new(), next: Some(x) }, &mut st);
    let again = Gc::from_id(&mut st, x_id).expect("the child cell is listed");
    assert!(again.is_root());
    assert_eq!(st.node_roots(x_id), Some(1));
    // an id nobody allocated yields no handle
    assert!(Gc::<Record>::from_id(&mut st, 12345).is_none());
    p.release(&mut st);
    st.collect_garbage();
    // the re-rooted child survives alone
    assert_eq!(st.get_ptrs_len(), 1);
    again.release(&mut st);
    st.collect_garbage();
    assert_eq!(st.get_ptrs_len(), 0);
}

#[test]
fn test_set_gc_duration() {
    let mut st: GcState<Record> = GcState::new();
    st.set_gc_duration(0);
    gc_rs::gc_state::set_gc_duration(&mut st, u64::MAX);
    let h = Gc::new(leaf(1, ""), &mut st);
    // with the longest possible interval the allocation path never sweeps
    assert_eq!(st.get_ptrs_len(), 1);
    h.release(&mut st);
    st.try_collect_garbage();
    st.collect_garbage();
    assert_eq!(st.get_ptrs_len(), 0);
}

#[test]
fn test_collection_trigger_by_reading() {
    let mut st: GcState<Record> = GcState::new();
    st.set_gc_duration(u64::MAX);
    let h = Gc::new_at(leaf(1, ""), &mut st, 0);
    assert_eq!(st.get_ptrs_len(), 1);
    h.release(&mut st);
    // not due: a reading earlier than the last sweep changes nothing
    st.try_collect_at(0);
    assert_eq!(st.get_ptrs_len(), 1);
    // due: under a zero interval any non-regressing reading sweeps
    st.set_gc_duration(0);
    st.try_collect_at(u64::MAX);
    assert_eq!(st.get_ptrs_len(), 0);
}
