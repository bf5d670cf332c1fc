//! Allocation pressure: many short-lived pairs.

use gc_rs::Gc;
use gc_rs::GcState;
use gc_rs::Record;

#[test]
fn test_heavy_allocation() {
    let mut st: GcState<Record> = GcState::new();
    // keep the allocation path from sweeping mid-build
    st.set_gc_duration(u64::MAX);
    let mut parents: Vec<Gc<Record>> = Vec::new();
    for i in 0..100_000i64 {
        let child = Gc::new(Record { tag: i, label: "hello".to_string(), next: None }, &mut st);
        let parent = Gc::new(Record { tag: -i, label: String::new(), next: Some(child) }, &mut st);
        parents.push(parent);
    }
    assert_eq!(st.get_ptrs_len(), 200_000);
    assert_eq!(st.get_roots_len(), 100_000);
    for parent in parents {
        parent.release(&mut st);
    }
    st.collect_garbage();
    assert_eq!(st.get_ptrs_len(), 0);
    assert_eq!(st.get_roots_len(), 0);
}
