//! The root handle over a collected cell.
//!
//! A `Gc<T>` names a cell by its id and carries a local root flag: while the
//! flag is set, this handle contributes one root to the cell's metadata word.
//! Handles held on the stack are rooted; handles embedded in another payload
//! are not — the rooting dance keeps the cell's root counter equal to the
//! number of live handles whose flag is set.

use vstd::prelude::*;

use crate::gc_state::GcNode;
use crate::gc_state::GcState;
use crate::gc_state::MAX_ROOTS;
use crate::gc_state::alloc_result;
use crate::gc_state::dec_roots_at;
use crate::gc_state::has_id;
use crate::gc_state::idx_of;
use crate::gc_state::inc_roots_at;
use crate::gc_state::lemma_dec_at_wf;
use crate::gc_state::lemma_inc_at_wf;
use crate::gc_state::lemma_node_at_index;
use crate::gc_state::lemma_set_borrowed_wf;
use crate::gc_state::lemma_with_add_root_facts;
use crate::gc_state::lemma_with_sub_root_facts;
use crate::gc_state::live_nodes;
use crate::gc_state::node_at;
use crate::gc_state::now_millis;
use crate::gc_state::set_borrowed_at;
use crate::traits::Trace;
use core::marker::PhantomData;

verus! {

/// A handle to a collected cell holding a payload of type `T`.
pub struct Gc<T> {
    /// The id of the cell this handle points at.
    id: u64,
    /// The local root flag: whether this handle contributes one root.
    root: bool,
    marker: PhantomData<T>,
}

impl<T> Gc<T> {
    /// The id of the cell this handle points at.
    pub closed spec fn spec_id(self) -> u64 {
        self.id
    }

    /// The local root flag.
    pub closed spec fn spec_is_root(self) -> bool {
        self.root
    }

    /// The id of the cell this handle points at.
    pub fn id(&self) -> (r: u64)
        ensures
            r == self.spec_id(),
    {
        self.id
    }

    /// Whether this handle currently contributes one root to its cell.
    pub fn is_root(&self) -> (r: bool)
        ensures
            r == self.spec_is_root(),
    {
        self.root
    }

    /// Whether two handles point at the same cell.
    pub fn ptr_eq(&self, other: &Self) -> (r: bool)
        ensures
            r == (self.spec_id() == other.spec_id()),
    {
        self.id == other.id
    }
}

impl<T> Trace for Gc<T> {
    open spec fn children(&self) -> Seq<u64> {
        seq![self.spec_id()]
    }

    open spec fn rooted_children(&self) -> Seq<u64> {
        if self.spec_is_root() {
            seq![self.spec_id()]
        } else {
            Seq::empty()
        }
    }

    open spec fn unrooted_children(&self) -> Seq<u64> {
        if self.spec_is_root() {
            Seq::empty()
        } else {
            seq![self.spec_id()]
        }
    }

    open spec fn like(&self, other: &Self) -> bool {
        self.spec_id() == other.spec_id()
    }

    proof fn like_children(a: &Self, b: &Self) {
    }

    proof fn like_reflexive(x: &Self) {
    }

    fn trace(&self) -> (r: Vec<u64>) {
        let mut r: Vec<u64> = Vec::new();
        r.push(self.id);
        r
    }

    fn root_children(&mut self) -> (r: Vec<u64>) {
        let mut r: Vec<u64> = Vec::new();
        if !self.root {
            self.root = true;
            r.push(self.id);
        }
        r
    }

    fn deroot_children(&mut self) -> (r: Vec<u64>) {
        let mut r: Vec<u64> = Vec::new();
        if self.root {
            self.root = false;
            r.push(self.id);
        }
        r
    }

    fn root(&mut self) -> (r: Option<u64>) {
        proof {
            assert(old(self).children().contains(old(self).spec_id())) by {
                assert(old(self).children()[0] == old(self).spec_id());
            }
        }
        if !self.root {
            self.root = true;
            Some(self.id)
        } else {
            None
        }
    }

    fn deroot(&mut self) -> (r: Option<u64>) {
        proof {
            assert(old(self).children().contains(old(self).spec_id())) by {
                assert(old(self).children()[0] == old(self).spec_id());
            }
        }
        if self.root {
            self.root = false;
            Some(self.id)
        } else {
            None
        }
    }
}

/// The exclusive-mutation token over a cell.  While it exists the cell's
/// borrow flag is set: no second token can be obtained and the owning
/// handle's read path is barred.
pub struct GcRefMut<T> {
    id: u64,
    marker: PhantomData<T>,
}

impl<T> GcRefMut<T> {
    /// The id of the cell this token borrows.
    pub closed spec fn spec_id(self) -> u64 {
        self.id
    }

    /// The id of the cell this token borrows.
    pub fn id(&self) -> (r: u64)
        ensures
            r == self.spec_id(),
    {
        self.id
    }
}

impl<T: Trace> Gc<T> {
    /// Allocates a cell for `value` at a given clock reading and returns a
    /// rooted handle to it.  When a sweep is due at `now` the sweep runs
    /// first; either way the fresh cell is spliced at the end, and every
    /// handle embedded in `value` stops being a root, now that it is
    /// reachable through its parent.
    pub fn new_at(value: T, st: &mut GcState<T>, now: u64) -> (h: Gc<T>)
        requires
            old(st).wf(),
            old(st).spec_next_id() < u64::MAX,
        ensures
            final(st).wf(),
            h.spec_is_root(),
            h.spec_id() == old(st).spec_next_id(),
            !has_id(old(st).nodes_seq(), h.spec_id()),
            final(st).spec_next_id() == old(st).spec_next_id() + 1,
            final(st).spec_gc_duration() == old(st).spec_gc_duration(),
            ({
                let due = GcState::<T>::sweep_due(
                    old(st).spec_last_gc(),
                    old(st).spec_gc_duration(),
                    now,
                );
                let mid = if due {
                    live_nodes(old(st).nodes_seq(), old(st).nodes_seq())
                } else {
                    old(st).nodes_seq()
                };
                &&& alloc_result(mid, value, old(st).spec_next_id(), final(st).nodes_seq())
                &&& final(st).spec_last_gc() == if due {
                    now
                } else {
                    old(st).spec_last_gc()
                }
            }),
    {
        st.try_collect_at(now);
        let id = st.allocate_node(value);
        proof {
            if has_id(old(st).nodes_seq(), id) {
                let j = choose|j: int|
                    0 <= j < old(st).nodes_seq().len() && (#[trigger] old(st).nodes_seq()[j]).id
                        == id;
                assert(old(st).nodes_seq()[j].id < id);
            }
        }
        Gc { id, root: true, marker: PhantomData }
    }

    /// Allocates a cell for `value` and returns a rooted handle to it.  The
    /// collection trigger runs first at the current clock reading, so this
    /// call may cost a full sweep; what is done for each reading is pinned
    /// by [`Gc::new_at`], which this wrapper calls with the clock.
    pub fn new(value: T, st: &mut GcState<T>) -> (h: Gc<T>)
        requires
            old(st).wf(),
            old(st).spec_next_id() < u64::MAX,
        ensures
            final(st).wf(),
            h.spec_is_root(),
            h.spec_id() == old(st).spec_next_id(),
            !has_id(old(st).nodes_seq(), h.spec_id()),
            final(st).spec_next_id() == old(st).spec_next_id() + 1,
            final(st).spec_gc_duration() == old(st).spec_gc_duration(),
            exists|mid: Seq<GcNode<T>>|
                {
                    &&& (mid == old(st).nodes_seq() || mid == live_nodes(
                        old(st).nodes_seq(),
                        old(st).nodes_seq(),
                    ))
                    &&& #[trigger] alloc_result(
                        mid,
                        value,
                        old(st).spec_next_id(),
                        final(st).nodes_seq(),
                    )
                },
    {
        let now = now_millis();
        Gc::new_at(value, st, now)
    }

    /// Reads the root counter of this handle's cell.
    pub fn get_roots(&self, st: &GcState<T>) -> (r: u64)
        requires
            st.wf(),
            has_id(st.nodes_seq(), self.spec_id()),
        ensures
            r == node_at(st.nodes_seq(), self.spec_id()).data.roots(),
    {
        let roots = st.node_roots(self.id);
        match roots {
            Some(c) => c,
            None => {
                proof {
                    assert(false);
                }
                0
            },
        }
    }

    /// Clones this handle.  The clone is born rooted, even when this handle
    /// is embedded and therefore not a root itself, because the clone starts
    /// its life outside any payload.
    pub fn duplicate(&self, st: &mut GcState<T>) -> (h: Gc<T>)
        requires
            old(st).wf(),
            has_id(old(st).nodes_seq(), self.spec_id()),
            node_at(old(st).nodes_seq(), self.spec_id()).data.roots() < MAX_ROOTS,
        ensures
            final(st).wf(),
            h.spec_id() == self.spec_id(),
            h.spec_is_root(),
            final(st).nodes_seq() == inc_roots_at(old(st).nodes_seq(), self.spec_id()),
            final(st).spec_next_id() == old(st).spec_next_id(),
            final(st).spec_last_gc() == old(st).spec_last_gc(),
            final(st).spec_gc_duration() == old(st).spec_gc_duration(),
    {
        proof {
            lemma_inc_at_wf(old(st).nodes_seq(), self.spec_id(), old(st).spec_next_id());
        }
        st.add_root_at(self.id);
        Gc { id: self.id, root: true, marker: PhantomData }
    }

    /// Gives this handle up.  A rooted handle takes its root contribution
    /// with it; the cell itself stays listed until a sweep finds it
    /// unreachable.
    pub fn release(self, st: &mut GcState<T>)
        requires
            old(st).wf(),
        ensures
            final(st).wf(),
            final(st).nodes_seq() == if self.spec_is_root() {
                dec_roots_at(old(st).nodes_seq(), self.spec_id())
            } else {
                old(st).nodes_seq()
            },
            final(st).spec_next_id() == old(st).spec_next_id(),
            final(st).spec_last_gc() == old(st).spec_last_gc(),
            final(st).spec_gc_duration() == old(st).spec_gc_duration(),
    {
        proof {
            lemma_dec_at_wf(old(st).nodes_seq(), self.spec_id(), old(st).spec_next_id());
        }
        if self.root {
            st.sub_root_at(self.id);
        }
    }

    /// Reads the payload of this handle's cell.  The cell must not be
    /// exclusively borrowed: reading through a handle while a `GcRefMut` for
    /// the same cell exists is a program error.
    pub fn get<'a>(&self, st: &'a GcState<T>) -> (r: &'a T)
        requires
            st.wf(),
            has_id(st.nodes_seq(), self.spec_id()),
            !node_at(st.nodes_seq(), self.spec_id()).borrowed,
        ensures
            *r == node_at(st.nodes_seq(), self.spec_id()).val,
    {
        st.payload_ref(self.id)
    }

    /// Reads the payload of this handle's cell after checking the borrow
    /// flag: the busy sentinel comes back while a `GcRefMut` for the cell
    /// exists, so an exclusive borrow can never be read around silently.
    pub fn try_get<'a>(&self, st: &'a GcState<T>) -> (r: Option<&'a T>)
        requires
            st.wf(),
            has_id(st.nodes_seq(), self.spec_id()),
        ensures
            match r {
                Option::Some(v) => !node_at(st.nodes_seq(), self.spec_id()).borrowed && *v
                    == node_at(st.nodes_seq(), self.spec_id()).val,
                Option::None => node_at(st.nodes_seq(), self.spec_id()).borrowed,
            },
    {
        let b = st.node_borrowed(self.id);
        match b {
            Some(true) => None,
            Some(false) => Some(st.payload_ref(self.id)),
            None => {
                proof {
                    assert(false);
                }
                None
            },
        }
    }

    /// Requests the exclusive-mutation token for this handle's cell.
    /// Returns the busy sentinel when a token is already outstanding;
    /// otherwise sets the borrow flag and hands the token out.
    pub fn borrow_mut(&self, st: &mut GcState<T>) -> (r: Option<GcRefMut<T>>)
        requires
            old(st).wf(),
            has_id(old(st).nodes_seq(), self.spec_id()),
        ensures
            final(st).wf(),
            final(st).spec_next_id() == old(st).spec_next_id(),
            final(st).spec_last_gc() == old(st).spec_last_gc(),
            final(st).spec_gc_duration() == old(st).spec_gc_duration(),
            match r {
                Option::Some(t) => !node_at(old(st).nodes_seq(), self.spec_id()).borrowed
                    && t.spec_id() == self.spec_id() && final(st).nodes_seq() == set_borrowed_at(
                    old(st).nodes_seq(),
                    self.spec_id(),
                    true,
                ),
                Option::None => node_at(old(st).nodes_seq(), self.spec_id()).borrowed && final(st).nodes_seq() == old(st).nodes_seq(),
            },
    {
        let b = st.node_borrowed(self.id);
        match b {
            Some(true) => None,
            Some(false) => {
                proof {
                    lemma_set_borrowed_wf(
                        old(st).nodes_seq(),
                        self.spec_id(),
                        true,
                        old(st).spec_next_id(),
                    );
                }
                st.set_borrowed(self.id, true);
                Some(GcRefMut { id: self.id, marker: PhantomData })
            },
            None => {
                proof {
                    assert(false);
                }
                None
            },
        }
    }

    /// Requests the exclusive-mutation token, like [`Gc::borrow_mut`].
    pub fn get_mut(&self, st: &mut GcState<T>) -> (r: Option<GcRefMut<T>>)
        requires
            old(st).wf(),
            has_id(old(st).nodes_seq(), self.spec_id()),
        ensures
            final(st).wf(),
            final(st).spec_next_id() == old(st).spec_next_id(),
            final(st).spec_last_gc() == old(st).spec_last_gc(),
            final(st).spec_gc_duration() == old(st).spec_gc_duration(),
            match r {
                Option::Some(t) => !node_at(old(st).nodes_seq(), self.spec_id()).borrowed
                    && t.spec_id() == self.spec_id() && final(st).nodes_seq() == set_borrowed_at(
                    old(st).nodes_seq(),
                    self.spec_id(),
                    true,
                ),
                Option::None => node_at(old(st).nodes_seq(), self.spec_id()).borrowed && final(st).nodes_seq() == old(st).nodes_seq(),
            },
    {
        self.borrow_mut(st)
    }

    /// Turns a cell id read out of a payload back into a rooted handle, if a
    /// cell with that id is listed.
    pub fn from_id(st: &mut GcState<T>, id: u64) -> (r: Option<Gc<T>>)
        requires
            old(st).wf(),
            has_id(old(st).nodes_seq(), id) ==> node_at(old(st).nodes_seq(), id).data.roots()
                < MAX_ROOTS,
        ensures
            final(st).wf(),
            final(st).spec_next_id() == old(st).spec_next_id(),
            final(st).spec_last_gc() == old(st).spec_last_gc(),
            final(st).spec_gc_duration() == old(st).spec_gc_duration(),
            match r {
                Option::Some(h) => has_id(old(st).nodes_seq(), id) && h.spec_id() == id
                    && h.spec_is_root() && final(st).nodes_seq() == inc_roots_at(
                    old(st).nodes_seq(),
                    id,
                ),
                Option::None => !has_id(old(st).nodes_seq(), id) && final(st).nodes_seq() == old(st).nodes_seq(),
            },
    {
        let roots = st.node_roots(id);
        match roots {
            Some(_) => {
                proof {
                    lemma_inc_at_wf(old(st).nodes_seq(), id, old(st).spec_next_id());
                }
                st.add_root_at(id);
                Some(Gc { id, root: true, marker: PhantomData })
            },
            None => None,
        }
    }
}

impl<T: Trace> GcRefMut<T> {
    /// Reads the payload of the borrowed cell through the token.
    pub fn read<'a>(&self, st: &'a GcState<T>) -> (r: &'a T)
        requires
            st.wf(),
            has_id(st.nodes_seq(), self.spec_id()),
        ensures
            *r == node_at(st.nodes_seq(), self.spec_id()).val,
    {
        st.payload_ref(self.id)
    }

    /// Replaces the payload of the borrowed cell by `value` and returns the
    /// payload it held.  Every handle embedded in `value` stops being a
    /// root, now that it is reachable through its new parent.
    pub fn replace(&self, st: &mut GcState<T>, value: T) -> (r: T)
        requires
            old(st).wf(),
            has_id(old(st).nodes_seq(), self.spec_id()),
        ensures
            final(st).wf(),
            final(st).spec_next_id() == old(st).spec_next_id(),
            final(st).spec_last_gc() == old(st).spec_last_gc(),
            final(st).spec_gc_duration() == old(st).spec_gc_duration(),
            final(st).nodes_seq().len() == old(st).nodes_seq().len(),
            r == node_at(old(st).nodes_seq(), self.spec_id()).val,
            ({
                let mid = crate::gc_state::dec_roots_many(
                    old(st).nodes_seq(),
                    value.rooted_children(),
                );
                let k = crate::gc_state::idx_of(old(st).nodes_seq(), self.spec_id());
                &&& forall|j: int|
                    0 <= j < mid.len() && j != k ==> (#[trigger] final(st).nodes_seq()[j])
                        == mid[j]
                &&& final(st).nodes_seq()[k].id == self.spec_id()
                &&& final(st).nodes_seq()[k].data == mid[k].data
                &&& final(st).nodes_seq()[k].borrowed == mid[k].borrowed
                &&& value.like(&final(st).nodes_seq()[k].val)
                &&& final(st).nodes_seq()[k].val.children() == value.children()
                &&& final(st).nodes_seq()[k].val.rooted_children() == Seq::<u64>::empty()
            }),
    {
        st.write_payload(self.id, value)
    }

    /// Ends the exclusive borrow: clears the cell's borrow flag, after which
    /// reads through handles and new borrow tokens are possible again.
    pub fn release(self, st: &mut GcState<T>)
        requires
            old(st).wf(),
            has_id(old(st).nodes_seq(), self.spec_id()),
        ensures
            final(st).wf(),
            final(st).spec_next_id() == old(st).spec_next_id(),
            final(st).spec_last_gc() == old(st).spec_last_gc(),
            final(st).spec_gc_duration() == old(st).spec_gc_duration(),
            final(st).nodes_seq() == set_borrowed_at(old(st).nodes_seq(), self.spec_id(), false),
    {
        proof {
            lemma_set_borrowed_wf(
                old(st).nodes_seq(),
                self.spec_id(),
                false,
                old(st).spec_next_id(),
            );
        }
        st.set_borrowed(self.id, false);
    }
}

impl<T: Trace> GcState<T> {
    /// Makes `h` a root: a no-op when `h` is already rooted, otherwise it
    /// sets the handle's local root flag and adds one root to its cell.
    pub fn root(&mut self, h: &mut Gc<T>)
        requires
            old(self).wf(),
            has_id(old(self).nodes_seq(), old(h).spec_id()) ==> node_at(
                old(self).nodes_seq(),
                old(h).spec_id(),
            ).data.roots() < MAX_ROOTS,
        ensures
            final(self).wf(),
            final(h).spec_id() == old(h).spec_id(),
            final(h).spec_is_root(),
            final(self).spec_next_id() == old(self).spec_next_id(),
            final(self).spec_last_gc() == old(self).spec_last_gc(),
            final(self).spec_gc_duration() == old(self).spec_gc_duration(),
            old(h).spec_is_root() ==> *final(h) == *old(h) && final(self).nodes_seq() == old(self).nodes_seq(),
            !old(h).spec_is_root() ==> final(self).nodes_seq() == inc_roots_at(
                old(self).nodes_seq(),
                old(h).spec_id(),
            ),
            !old(h).spec_is_root() && !has_id(old(self).nodes_seq(), old(h).spec_id()) ==> final(self).nodes_seq() == old(self).nodes_seq(),
            !old(h).spec_is_root() && has_id(old(self).nodes_seq(), old(h).spec_id()) ==> ({
                let k = idx_of(old(self).nodes_seq(), old(h).spec_id());
                &&& final(self).nodes_seq().len() == old(self).nodes_seq().len()
                &&& forall|j: int|
                    0 <= j < old(self).nodes_seq().len() && j != k ==> (#[trigger] final(self).nodes_seq()[j]) == old(self).nodes_seq()[j]
                &&& final(self).nodes_seq()[k].id == old(h).spec_id()
                &&& final(self).nodes_seq()[k].val == old(self).nodes_seq()[k].val
                &&& final(self).nodes_seq()[k].borrowed == old(self).nodes_seq()[k].borrowed
                &&& final(self).nodes_seq()[k].data.marked() == old(self).nodes_seq()[k].data.marked()
                &&& final(self).nodes_seq()[k].data.roots() == old(self).nodes_seq()[k].data.roots() + 1
            }),
    {
        if !h.root {
            h.root = true;
            proof {
                lemma_inc_at_wf(old(self).nodes_seq(), old(h).spec_id(), old(self).spec_next_id());
                if has_id(old(self).nodes_seq(), old(h).spec_id()) {
                    let k = idx_of(old(self).nodes_seq(), old(h).spec_id());
                    lemma_node_at_index(old(self).nodes_seq(), k);
                    lemma_with_add_root_facts(old(self).nodes_seq()[k].data);
                }
            }
            self.add_root_at(h.id);
        }
    }

    /// Makes `h` a non-root: a no-op when `h` is already not rooted,
    /// otherwise it clears the handle's local root flag and subtracts the
    /// root it contributed.
    pub fn deroot(&mut self, h: &mut Gc<T>)
        requires
            old(self).wf(),
        ensures
            final(self).wf(),
            final(h).spec_id() == old(h).spec_id(),
            !final(h).spec_is_root(),
            final(self).spec_next_id() == old(self).spec_next_id(),
            final(self).spec_last_gc() == old(self).spec_last_gc(),
            final(self).spec_gc_duration() == old(self).spec_gc_duration(),
            !old(h).spec_is_root() ==> *final(h) == *old(h) && final(self).nodes_seq() == old(self).nodes_seq(),
            old(h).spec_is_root() ==> final(self).nodes_seq() == dec_roots_at(
                old(self).nodes_seq(),
                old(h).spec_id(),
            ),
            old(h).spec_is_root() && !has_id(old(self).nodes_seq(), old(h).spec_id()) ==> final(self).nodes_seq() == old(self).nodes_seq(),
            old(h).spec_is_root() && has_id(old(self).nodes_seq(), old(h).spec_id()) ==> ({
                let k = idx_of(old(self).nodes_seq(), old(h).spec_id());
                &&& final(self).nodes_seq().len() == old(self).nodes_seq().len()
                &&& forall|j: int|
                    0 <= j < old(self).nodes_seq().len() && j != k ==> (#[trigger] final(self).nodes_seq()[j]) == old(self).nodes_seq()[j]
                &&& final(self).nodes_seq()[k].id == old(h).spec_id()
                &&& final(self).nodes_seq()[k].val == old(self).nodes_seq()[k].val
                &&& final(self).nodes_seq()[k].borrowed == old(self).nodes_seq()[k].borrowed
                &&& final(self).nodes_seq()[k].data.marked() == old(self).nodes_seq()[k].data.marked()
                &&& final(self).nodes_seq()[k].data.roots() == if old(self).nodes_seq()[k].data.roots() > 0 {
                    (old(self).nodes_seq()[k].data.roots() - 1) as u64
                } else {
                    0u64
                }
            }),
    {
        if h.root {
            h.root = false;
            proof {
                lemma_dec_at_wf(old(self).nodes_seq(), old(h).spec_id(), old(self).spec_next_id());
                if has_id(old(self).nodes_seq(), old(h).spec_id()) {
                    let k = idx_of(old(self).nodes_seq(), old(h).spec_id());
                    lemma_node_at_index(old(self).nodes_seq(), k);
                    lemma_with_sub_root_facts(old(self).nodes_seq()[k].data);
                }
            }
            self.sub_root_at(h.id);
        }
    }
}

} // verus!
