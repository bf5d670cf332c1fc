//! Cycles and list surgery through exclusive borrows.

use gc_rs::Gc;
use gc_rs::GcState;
use gc_rs::Record;

fn set_next(st: &mut GcState<Record>, cell: &Gc<Record>, next: Option<Gc<Record>>) {
    let tok = cell.borrow_mut(st).expect("the cell is not borrowed");
    let (tag, label) = {
        let r = tok.read(st);
        (r.tag, r.label.clone())
    };
    let _old = tok.replace(st, Record { tag, label, next });
    tok.release(st);
}

fn next_id_of(st: &GcState<Record>, cell: &Gc<Record>) -> Option<u64> {
    let r = cell.get(st);
    match &r.next {
        Some(h) => Some(h.id()),
        None => None,
    }
}

#[test]
fn test_cycle_collected() {
    let mut st: GcState<Record> = GcState::new();
    let a = Gc::new(Record { tag: 1, label: String::new(), next: None }, &mut st);
    let b = Gc::new(Record { tag: 2, label: String::new(), next: None }, &mut st);
    let b_clone = b.duplicate(&mut st);
    set_next(&mut st, &a, Some(b_clone));
    let a_clone = a.duplicate(&mut st);
    set_next(&mut st, &b, Some(a_clone));
    // the cells reference each other; each still carries its stack root
    assert_eq!(a.get_roots(&st), 1);
    assert_eq!(b.get_roots(&st), 1);
    assert_eq!(st.get_ptrs_len(), 2);
    let a_id = a.id();
    let b_id = b.id();
    a.release(&mut st);
    b.release(&mut st);
    assert_eq!(st.node_roots(a_id), Some(0));
    assert_eq!(st.node_roots(b_id), Some(0));
    st.collect_garbage();
    // the whole cycle goes at once
    assert_eq!(st.get_ptrs_len(), 0);
}

#[test]
fn test_self_cycle_collected() {
    let mut st: GcState<Record> = GcState::new();
    let a = Gc::new(Record { tag: 1, label: String::new(), next: None }, &mut st);
    let a_clone = a.duplicate(&mut st);
    set_next(&mut st, &a, Some(a_clone));
    a.release(&mut st);
    st.collect_garbage();
    assert_eq!(st.get_ptrs_len(), 0);
}

fn reverse_list(st: &mut GcState<Record>, head: Gc<Record>) -> Gc<Record> {
    let mut prev: Option<Gc<Record>> = None;
    let mut cur = head;
    loop {
        let next_id = next_id_of(st, &cur);
        set_next(st, &cur, prev.take());
        prev = Some(cur);
        match next_id {
            Some(id) => cur = Gc::from_id(st, id).expect("the next cell is listed"),
            None => break,
        }
    }
    prev.expect("the list was not empty")
}

fn tags_of(st: &mut GcState<Record>, head: &Gc<Record>) -> Vec<i64> {
    let mut tags = Vec::new();
    let mut cur_id = Some(head.id());
    while let Some(id) = cur_id {
        let h = Gc::from_id(st, id).expect("the cell is listed");
        {
            let r = h.get(st);
            tags.push(r.tag);
        }
        cur_id = next_id_of(st, &h);
        h.release(st);
    }
    tags
}

#[test]
fn test_reverse_list_twice() {
    let mut st: GcState<Record> = GcState::new();
    let n3 = Gc::new(Record { tag: 3, label: String::new(), next: None }, &mut st);
    let n2 = Gc::new(Record { tag: 2, label: String::new(), next: Some(n3) }, &mut st);
    let n1 = Gc::new(Record { tag: 1, label: String::new(), next: Some(n2) }, &mut st);
    assert_eq!(tags_of(&mut st, &n1), vec![1, 2, 3]);
    let rev = reverse_list(&mut st, n1);
    assert_eq!(tags_of(&mut st, &rev), vec![3, 2, 1]);
    let back = reverse_list(&mut st, rev);
    // reversing twice restores the original structure
    assert_eq!(tags_of(&mut st, &back), vec![1, 2, 3]);
    assert_eq!(st.get_ptrs_len(), 3);
    back.release(&mut st);
    st.collect_garbage();
    // no handle leaked: the whole list is reclaimed
    assert_eq!(st.get_ptrs_len(), 0);
    assert_eq!(st.get_roots_len(), 0);
}
