//! The rooting-dance protocol on payload values.

use gc_rs::Gc;
use gc_rs::GcState;
use gc_rs::Record;
use gc_rs::Trace;

#[test]
fn test_leaves_have_no_children() {
    assert!(1i64.trace().is_empty());
    assert!(true.trace().is_empty());
    assert!('x'.trace().is_empty());
    assert!("hi".to_string().trace().is_empty());
    let mut n = 5u64;
    assert!(n.root_children().is_empty());
    assert!(n.deroot_children().is_empty());
    assert!(n.root().is_none());
    assert!(n.deroot().is_none());
    assert_eq!(n, 5);
}

#[test]
fn test_record_reports_its_link() {
    let mut st: GcState<Record> = GcState::new();
    let x = Gc::new(Record { tag: 1, label: String::new(), next: None }, &mut st);
    let x_id = x.id();
    let rec = Record { tag: 2, label: "parent".to_string(), next: Some(x) };
    assert_eq!(rec.trace(), vec![x_id]);
    let lonely = Record { tag: 3, label: String::new(), next: None };
    assert!(lonely.trace().is_empty());
    // the handle inside rec was lost while still rooted, so its cell keeps
    // its root and survives the sweep
    drop(rec);
    drop(lonely);
    st.collect_garbage();
    assert_eq!(st.get_ptrs_len(), 1);
    assert_eq!(st.node_roots(x_id), Some(1));
    st.refresh();
    assert_eq!(st.get_ptrs_len(), 0);
}

#[test]
fn test_deroot_children_flips_once() {
    let mut st: GcState<Record> = GcState::new();
    let x = Gc::new(Record { tag: 1, label: String::new(), next: None }, &mut st);
    let x_id = x.id();
    // a freshly built value still holds the rooted handle
    let mut rec = Record { tag: 2, label: String::new(), next: Some(x) };
    assert_eq!(rec.deroot_children(), vec![x_id]);
    // derooting again finds nothing rooted: the flips do not double-count
    assert!(rec.deroot_children().is_empty());
    assert_eq!(rec.root_children(), vec![x_id]);
    assert!(rec.root_children().is_empty());
    // the flag flips alone do not touch the collector: the cell still
    // carries the root the allocation gave it
    assert_eq!(st.node_roots(x_id), Some(1));
    drop(rec);
    st.refresh();
    assert_eq!(st.get_ptrs_len(), 0);
}

#[test]
fn test_option_forwards() {
    let mut st: GcState<Record> = GcState::new();
    let x = Gc::new(Record { tag: 1, label: String::new(), next: None }, &mut st);
    let x_id = x.id();
    let mut wrapped: Option<Gc<Record>> = Some(x);
    assert_eq!(wrapped.trace(), vec![x_id]);
    assert_eq!(wrapped.deroot(), Some(x_id));
    assert_eq!(wrapped.deroot(), None);
    assert_eq!(wrapped.root(), Some(x_id));
    assert_eq!(wrapped.root(), None);
    let mut nothing: Option<Gc<Record>> = None;
    assert!(nothing.trace().is_empty());
    assert_eq!(nothing.root(), None);
    drop(wrapped);
    st.refresh();
    assert_eq!(st.get_ptrs_len(), 0);
}

#[test]
fn test_vec_forwards_to_elements() {
    let mut st: GcState<Record> = GcState::new();
    let a = Gc::new(Record { tag: 1, label: String::new(), next: None }, &mut st);
    let b = Gc::new(Record { tag: 2, label: String::new(), next: None }, &mut st);
    let a_id = a.id();
    let b_id = b.id();
    let mut items: Vec<Gc<Record>> = vec![a, b];
    assert_eq!(items.trace(), vec![a_id, b_id]);
    // a sequence deroots each element and reports every flip in order
    assert_eq!(items.deroot_children(), vec![a_id, b_id]);
    assert!(items.deroot_children().is_empty());
    assert_eq!(items.root_children(), vec![a_id, b_id]);
    // the container itself is no handle
    assert!(items.root().is_none());
    assert!(items.deroot().is_none());
    drop(items);
    st.refresh();
    assert_eq!(st.get_ptrs_len(), 0);
}

#[test]
fn test_result_delegates_to_success() {
    let mut st: GcState<Record> = GcState::new();
    let x = Gc::new(Record { tag: 1, label: String::new(), next: None }, &mut st);
    let x_id = x.id();
    let mut good: Result<Gc<Record>, String> = Ok(x);
    assert_eq!(good.trace(), vec![x_id]);
    assert_eq!(good.deroot(), Some(x_id));
    assert_eq!(good.root(), Some(x_id));
    let mut bad: Result<Gc<Record>, String> = Err("no cell".to_string());
    assert!(bad.trace().is_empty());
    assert!(bad.root().is_none());
    drop(good);
    st.refresh();
    assert_eq!(st.get_ptrs_len(), 0);
}

#[test]
fn test_keyed_mapping_traverses_values() {
    let mut st: GcState<Record> = GcState::new();
    let a = Gc::new(Record { tag: 1, label: String::new(), next: None }, &mut st);
    let b = Gc::new(Record { tag: 2, label: String::new(), next: None }, &mut st);
    let a_id = a.id();
    let b_id = b.id();
    // an integer-keyed mapping carried as its entry list
    let mut map: Vec<(u64, Gc<Record>)> = vec![(10, a), (20, b)];
    assert_eq!(map.trace(), vec![a_id, b_id]);
    assert_eq!(map.deroot_children(), vec![a_id, b_id]);
    assert!(map.root().is_none());
    // a single entry forwards to its value and leaves the key alone
    let mut entry = map.pop().unwrap();
    assert_eq!(entry.0, 20);
    assert_eq!(entry.root_children(), vec![b_id]);
    drop(map);
    drop(entry);
    st.refresh();
    assert_eq!(st.get_ptrs_len(), 0);
}
