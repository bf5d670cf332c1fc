//! A ready-made collectable payload.
//!
//! The collector is generic over any payload satisfying [`Trace`], but a
//! payload type must implement the rooting-dance protocol inside the library.
//! `Record` is the payload the library ships: a tagged, labelled cell with an
//! optional link to another cell, enough to build chains, trees over shared
//! tails, and cycles.  Its implementation follows the shape a structural
//! recursion over the fields emits: each operation visits the fields in
//! declaration order and forwards to them.

use vstd::prelude::*;

use crate::gc::Gc;
use crate::gc_state::GcState;
use crate::gc_state::dec_roots_at;
use crate::gc_state::has_id;
use crate::gc_state::idx_of;
use crate::gc_state::is_path;
use crate::gc_state::lemma_with_sub_root_facts;
use crate::gc_state::live_nodes;
use crate::gc_state::node_at;
use crate::gc_state::reachable;
use crate::gc_state::rooted;
use crate::traits::Trace;

verus! {

/// A collectable record: a numeric tag, a label, and an optional link to
/// another cell of the same heap.
pub struct Record {
    /// A number carried by the record.
    pub tag: i64,
    /// A label carried by the record.
    pub label: String,
    /// An optional handle to another cell.
    pub next: Option<Gc<Record>>,
}

impl Trace for Record {
    open spec fn children(&self) -> Seq<u64> {
        self.tag.children() + self.label.children() + self.next.children()
    }

    open spec fn rooted_children(&self) -> Seq<u64> {
        self.tag.rooted_children() + self.label.rooted_children() + self.next.rooted_children()
    }

    open spec fn unrooted_children(&self) -> Seq<u64> {
        self.tag.unrooted_children() + self.label.unrooted_children()
            + self.next.unrooted_children()
    }

    open spec fn like(&self, other: &Self) -> bool {
        self.tag.like(&other.tag) && self.label.like(&other.label) && self.next.like(&other.next)
    }

    proof fn like_children(a: &Self, b: &Self) {
        <i64 as Trace>::like_children(&a.tag, &b.tag);
        <String as Trace>::like_children(&a.label, &b.label);
        <Option<Gc<Record>> as Trace>::like_children(&a.next, &b.next);
    }

    proof fn like_reflexive(x: &Self) {
        <i64 as Trace>::like_reflexive(&x.tag);
        <String as Trace>::like_reflexive(&x.label);
        <Option<Gc<Record>> as Trace>::like_reflexive(&x.next);
    }

    fn trace(&self) -> (r: Vec<u64>) {
        let mut r = self.tag.trace();
        let mut r2 = self.label.trace();
        let mut r3 = self.next.trace();
        r.append(&mut r2);
        r.append(&mut r3);
        r
    }

    fn root_children(&mut self) -> (r: Vec<u64>) {
        self.collect_flips(true)
    }

    fn deroot_children(&mut self) -> (r: Vec<u64>) {
        self.collect_flips(false)
    }

    fn root(&mut self) -> (r: Option<u64>) {
        None
    }

    fn deroot(&mut self) -> (r: Option<u64>) {
        None
    }
}

impl Record {
    /// Visits the fields in declaration order, setting (or clearing) the
    /// local root flag of each directly contained handle, and returns the
    /// ids whose flags flipped.
    fn collect_flips(&mut self, to_root: bool) -> (r: Vec<u64>)
        ensures
            old(self).like(final(self)),
            final(self).children() == old(self).children(),
            to_root ==> final(self).rooted_children() == final(self).children() && r@ == old(self).unrooted_children(),
            !to_root ==> final(self).rooted_children() == Seq::<u64>::empty() && r@ == old(self).rooted_children(),
    {
        let mut r: Vec<u64>;
        let mut r2: Vec<u64>;
        let mut r3: Vec<u64>;
        if to_root {
            r = self.tag.root_children();
            r2 = self.label.root_children();
            r3 = self.next.root_children();
        } else {
            r = self.tag.deroot_children();
            r2 = self.label.deroot_children();
            r3 = self.next.deroot_children();
        }
        r.append(&mut r2);
        r.append(&mut r3);
        r
    }
}

/// A whole lifecycle, proved end to end: a fresh collector receives one
/// record held only by a vector of handles; once the vector gives the handle
/// up, a sweep leaves the heap empty.
pub fn vec() -> (len: usize)
    ensures
        len == 0,
{
    let mut st: GcState<Record> = GcState::new();
    let value = Record { tag: 1, label: String::new(), next: None };
    proof {
        assert(value.rooted_children() =~= Seq::<u64>::empty());
    }
    let mut v: Vec<Gc<Record>> = Vec::new();
    let ghost gpre = st.nodes_seq();
    let ghost nid = st.spec_next_id();
    let h = Gc::new(value, &mut st);
    proof {
        assert(gpre =~= Seq::<crate::gc_state::GcNode<Record>>::empty());
        let mid = choose|mid: Seq<crate::gc_state::GcNode<Record>>|
            {
                &&& (mid == gpre || mid == live_nodes(gpre, gpre))
                &&& #[trigger] crate::gc_state::alloc_result(mid, value, nid, st.nodes_seq())
            };
        assert(live_nodes(gpre, gpre) =~= Seq::<crate::gc_state::GcNode<Record>>::empty());
        assert(mid =~= Seq::<crate::gc_state::GcNode<Record>>::empty());
        assert(crate::gc_state::dec_roots_many(mid, value.rooted_children()) == mid);
        assert(st.nodes_seq().len() == 1);
        assert(st.nodes_seq()[0].data.roots() == 1);
    }
    v.push(h);
    let ghost g0 = st.nodes_seq();
    let h = v.pop().unwrap();
    h.release(&mut st);
    proof {
        let g1 = st.nodes_seq();
        assert(g1 == dec_roots_at(g0, h.spec_id()));
        if has_id(g0, h.spec_id()) {
            lemma_with_sub_root_facts(node_at(g0, h.spec_id()).data);
        }
        assert(g1.len() == 1);
        assert forall|x: u64| !rooted(g1, x) by {
            if rooted(g1, x) {
                let i = idx_of(g1, x);
                assert(0 <= i < g1.len() && g1[i].id == x);
                assert(g1[0].data.roots() == 0);
            }
        }
    }
    st.collect_garbage();
    proof {
        let g1 = dec_roots_at(g0, h.spec_id());
        assert forall|id: u64| !reachable(g1, id) by {
            if reachable(g1, id) {
                let p = choose|p: Seq<u64>| #[trigger] is_path(g1, p) && p.last() == id;
                assert(rooted(g1, p[0]));
            }
        }
        assert(live_nodes(g1, g1.drop_first()) =~= Seq::<crate::gc_state::GcNode<Record>>::empty());
        assert(live_nodes(g1, g1) =~= Seq::<crate::gc_state::GcNode<Record>>::empty());
    }
    st.get_ptrs_len()
}

} // verus!
