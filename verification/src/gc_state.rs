//! The collector's per-cell metadata word and the collector state itself.
//!
//! One machine word per cell packs the mark bit (the high bit) together with
//! the root counter (the remaining bits).  The collector mutates the word
//! while tracing; handles mutate it during the rooting dance.

use vstd::prelude::*;

use crate::traits::Trace;

verus! {

/// The highest bit of the metadata word: the mark bit.
pub const MARK_BIT: u64 = 0x8000_0000_0000_0000;

/// The largest root count the metadata word can hold.
pub const MAX_ROOTS: u64 = 0x7fff_ffff_ffff_ffff;

/// The per-cell metadata word: a mark bit in the high bit and a root counter
/// in the low bits.
#[derive(Clone, Copy, Debug)]
pub struct GcData {
    data: u64,
}

impl GcData {
    /// The root counter held in the low bits of the word.
    pub closed spec fn roots(self) -> u64 {
        self.data & 0x7fff_ffff_ffff_ffff
    }

    /// Whether the mark bit is set.
    pub closed spec fn marked(self) -> bool {
        self.data & 0x8000_0000_0000_0000 != 0
    }

    /// The same word with the mark bit set.
    pub closed spec fn with_mark(self) -> GcData {
        GcData { data: self.data | 0x8000_0000_0000_0000 }
    }

    /// The same word with the mark bit cleared.
    pub closed spec fn with_unmark(self) -> GcData {
        GcData { data: self.data & 0x7fff_ffff_ffff_ffff }
    }

    /// The same word with one root more.
    pub closed spec fn with_add_root(self) -> GcData {
        GcData { data: (self.data + 1) as u64 }
    }

    /// The same word with one root fewer, saturating at zero.
    pub closed spec fn with_sub_root(self) -> GcData {
        if self.roots() > 0 {
            GcData { data: (self.data - 1) as u64 }
        } else {
            self
        }
    }

    /// The word of a fresh cell: one root, mark clear.
    pub closed spec fn fresh() -> GcData {
        GcData { data: 1 }
    }

    /// A fresh word: one root (the allocating handle), mark clear.
    pub fn new() -> (d: GcData)
        ensures
            d == GcData::fresh(),
            d.roots() == 1,
            !d.marked(),
    {
        proof {
            assert(1u64 & 0x7fff_ffff_ffff_ffff == 1 && 1u64 & 0x8000_0000_0000_0000 == 0)
                by (bit_vector);
        }
        GcData { data: 1 }
    }

    /// Whether at least one root keeps the cell alive.
    pub fn is_root(&self) -> (r: bool)
        ensures
            r == (self.roots() > 0),
    {
        self.get_roots() > 0
    }

    /// Reads the root counter.
    pub fn get_roots(&self) -> (r: u64)
        ensures
            r == self.roots(),
    {
        self.data & MAX_ROOTS
    }

    /// Adds one root.  The counter must have room; the mark bit is untouched.
    pub fn add_roots(&mut self)
        requires
            old(self).roots() < MAX_ROOTS,
        ensures
            *final(self) == old(self).with_add_root(),
            final(self).roots() == old(self).roots() + 1,
            final(self).marked() == old(self).marked(),
    {
        proof {
            let d = self.data;
            assert(d & 0x7fff_ffff_ffff_ffff < 0x7fff_ffff_ffff_ffff ==> {
                &&& d < 0xffff_ffff_ffff_ffff
                &&& (d + 1) as u64 & 0x7fff_ffff_ffff_ffff == (d & 0x7fff_ffff_ffff_ffff) + 1
                &&& ((d + 1) as u64 & 0x8000_0000_0000_0000 == 0) == (d & 0x8000_0000_0000_0000
                    == 0)
            }) by (bit_vector);
        }
        self.data = self.data + 1;
    }

    /// Subtracts one root, saturating at zero; the mark bit is untouched.
    pub fn sub_roots(&mut self)
        ensures
            *final(self) == old(self).with_sub_root(),
            final(self).roots() == if old(self).roots() > 0 {
                (old(self).roots() - 1) as u64
            } else {
                0u64
            },
            final(self).marked() == old(self).marked(),
    {
        proof {
            let d = self.data;
            assert(d & 0x7fff_ffff_ffff_ffff > 0 ==> {
                &&& d >= 1
                &&& (d - 1) as u64 & 0x7fff_ffff_ffff_ffff == (d & 0x7fff_ffff_ffff_ffff) - 1
                &&& ((d - 1) as u64 & 0x8000_0000_0000_0000 == 0) == (d & 0x8000_0000_0000_0000
                    == 0)
            }) by (bit_vector);
        }
        if self.data & MAX_ROOTS > 0 {
            self.data = self.data - 1;
        }
    }

    /// Sets the mark bit; the root counter is untouched.
    pub fn mark(&mut self)
        ensures
            *final(self) == old(self).with_mark(),
            final(self).marked(),
            final(self).roots() == old(self).roots(),
    {
        proof {
            let d = self.data;
            assert({
                &&& (d | 0x8000_0000_0000_0000) & 0x8000_0000_0000_0000 != 0
                &&& (d | 0x8000_0000_0000_0000) & 0x7fff_ffff_ffff_ffff == d
                    & 0x7fff_ffff_ffff_ffff
            }) by (bit_vector);
        }
        self.data = self.data | MARK_BIT;
    }

    /// Clears the mark bit; the root counter is untouched.
    pub fn unmark(&mut self)
        ensures
            *final(self) == old(self).with_unmark(),
            !final(self).marked(),
            final(self).roots() == old(self).roots(),
    {
        proof {
            let d = self.data;
            assert({
                &&& (d & 0x7fff_ffff_ffff_ffff) & 0x8000_0000_0000_0000 == 0
                &&& (d & 0x7fff_ffff_ffff_ffff) & 0x7fff_ffff_ffff_ffff == d
                    & 0x7fff_ffff_ffff_ffff
            }) by (bit_vector);
        }
        self.data = self.data & MAX_ROOTS;
    }

    /// Whether the mark bit is set.
    pub fn is_marked(&self) -> (r: bool)
        ensures
            r == self.marked(),
    {
        self.data & MARK_BIT != 0
    }
}

/// Marking is idempotent: setting the mark bit on an already marked word
/// leaves the word as it is.
pub proof fn lemma_mark_idempotent(d: GcData)
    ensures
        d.with_mark().with_mark() == d.with_mark(),
        d.marked() ==> d.with_mark() == d,
{
    let x = d.data;
    assert((x | 0x8000_0000_0000_0000) | 0x8000_0000_0000_0000 == (x | 0x8000_0000_0000_0000))
        by (bit_vector);
    assert(x & 0x8000_0000_0000_0000 != 0 ==> (x | 0x8000_0000_0000_0000) == x) by (bit_vector);
}

/// Clearing the mark bit of a word that was unmarked before it was marked
/// restores the original word.
pub proof fn lemma_unmark_of_mark(d: GcData)
    requires
        !d.marked(),
    ensures
        d.with_mark().with_unmark() == d,
{
    let x = d.data;
    assert(x & 0x8000_0000_0000_0000 == 0 ==> (x | 0x8000_0000_0000_0000)
        & 0x7fff_ffff_ffff_ffff == x) by (bit_vector);
}

/// A heap cell: the metadata word, the cell's id (the collector keeps its
/// list sorted by id), the cell's exclusive-borrow flag, and the payload.
pub struct GcNode<T> {
    /// The id under which the collector lists this cell.
    pub id: u64,
    /// The metadata word: mark bit and root counter.
    pub data: GcData,
    /// Whether an exclusive borrow of the payload is outstanding.
    pub borrowed: bool,
    /// The user payload.
    pub val: T,
}

/// Whether some cell of `s` has the id `id`.
pub open spec fn has_id<T>(s: Seq<GcNode<T>>, id: u64) -> bool {
    exists|i: int| 0 <= i < s.len() && (#[trigger] s[i]).id == id
}

/// The position of the cell with id `id` in `s`.
pub open spec fn idx_of<T>(s: Seq<GcNode<T>>, id: u64) -> int {
    choose|i: int| 0 <= i < s.len() && (#[trigger] s[i]).id == id
}

/// The cell of `s` with id `id`.
pub open spec fn node_at<T>(s: Seq<GcNode<T>>, id: u64) -> GcNode<T> {
    s[idx_of(s, id)]
}

/// Whether the cells of `s` are sorted by strictly increasing id.
pub open spec fn ids_sorted<T>(s: Seq<GcNode<T>>) -> bool {
    forall|i: int, j: int|
        0 <= i < j < s.len() ==> (#[trigger] s[i]).id < (#[trigger] s[j]).id
}

/// Whether every payload of `s` is settled: no handle embedded in a listed
/// payload carries a local root flag.
pub open spec fn settled<T: Trace>(s: Seq<GcNode<T>>) -> bool {
    forall|i: int|
        0 <= i < s.len() ==> (#[trigger] s[i]).val.rooted_children() == Seq::<u64>::empty()
}

/// Whether no cell of `s` carries a mark.
pub open spec fn all_unmarked<T>(s: Seq<GcNode<T>>) -> bool {
    forall|i: int| 0 <= i < s.len() ==> !(#[trigger] s[i]).data.marked()
}

/// Whether every id of `s` lies below `bound`.
pub open spec fn ids_below<T>(s: Seq<GcNode<T>>, bound: u64) -> bool {
    forall|i: int| 0 <= i < s.len() ==> (#[trigger] s[i]).id < bound
}

/// In a list sorted by id, position `i` holds the only cell with its id.
pub proof fn lemma_node_at_index<T>(s: Seq<GcNode<T>>, i: int)
    requires
        ids_sorted(s),
        0 <= i < s.len(),
    ensures
        has_id(s, s[i].id),
        idx_of(s, s[i].id) == i,
        node_at(s, s[i].id) == s[i],
{
    assert(has_id(s, s[i].id));
    let j = idx_of(s, s[i].id);
    if i < j {
        assert(s[i].id < s[j].id);
    }
    if j < i {
        assert(s[j].id < s[i].id);
    }
}

/// The collector state: the list of all live cells (sorted by id), the id the
/// next allocation will use, the clock reading of the last completed sweep,
/// and the minimum interval between sweeps on the allocation path.
pub struct GcState<T: Trace> {
    nodes: Vec<GcNode<T>>,
    next_id: u64,
    last_gc: u64,
    gc_duration: u64,
}

impl<T: Trace> GcState<T> {
    /// The cells the collector currently lists.
    pub closed spec fn nodes_seq(self) -> Seq<GcNode<T>> {
        self.nodes@
    }

    /// The id the next allocation will use.
    pub closed spec fn spec_next_id(self) -> u64 {
        self.next_id
    }

    /// The clock reading, in milliseconds, of the last completed sweep.
    pub closed spec fn spec_last_gc(self) -> u64 {
        self.last_gc
    }

    /// The minimum interval, in milliseconds, between two sweeps triggered on
    /// the allocation path.
    pub closed spec fn spec_gc_duration(self) -> u64 {
        self.gc_duration
    }

    /// The collector's well-formedness: cells sorted by id, every listed
    /// payload settled, no marks outside a running sweep, and all ids below
    /// the allocation counter.
    pub open spec fn wf(self) -> bool {
        &&& ids_sorted(self.nodes_seq())
        &&& settled(self.nodes_seq())
        &&& all_unmarked(self.nodes_seq())
        &&& ids_below(self.nodes_seq(), self.spec_next_id())
    }

    /// A fresh collector: no cells, the sweep clock read now, and the default
    /// two-second interval between sweeps.
    pub fn new() -> (st: GcState<T>)
        ensures
            st.wf(),
            st.nodes_seq().len() == 0,
            st.spec_gc_duration() == 2000,
            st.spec_next_id() == 0,
    {
        GcState { nodes: Vec::new(), next_id: 0, last_gc: now_millis(), gc_duration: 2000 }
    }

    /// How many cells the collector lists.
    pub fn get_ptrs_len(&self) -> (r: usize)
        ensures
            r == self.nodes_seq().len(),
    {
        self.nodes.len()
    }

    /// How many listed cells carry at least one root.
    pub fn get_roots_len(&self) -> (r: usize)
        ensures
            r == roots_len(self.nodes_seq()),
    {
        let n = self.nodes.len();
        let mut count: usize = 0;
        let mut i: usize = 0;
        while i < n
            invariant
                i <= n,
                n == self.nodes_seq().len(),
                count == roots_len(self.nodes_seq().take(i as int)),
                count <= i,
            decreases n - i,
        {
            proof {
                assert(self.nodes_seq().take(i + 1 as int).drop_last() =~= self.nodes_seq().take(
                    i as int,
                ));
                assert(self.nodes_seq().take(i + 1 as int).last() == self.nodes_seq()[i as int]);
            }
            if self.nodes[i].data.is_root() {
                count = count + 1;
            }
            i = i + 1;
        }
        proof {
            assert(self.nodes_seq().take(n as int) =~= self.nodes_seq());
        }
        count
    }

    /// Sets the minimum interval, in milliseconds, between two sweeps
    /// triggered on the allocation path.
    pub fn set_gc_duration(&mut self, millis: u64)
        ensures
            final(self).spec_gc_duration() == millis,
            final(self).nodes_seq() == old(self).nodes_seq(),
            final(self).spec_next_id() == old(self).spec_next_id(),
            final(self).spec_last_gc() == old(self).spec_last_gc(),
    {
        self.gc_duration = millis;
    }

    /// Tears the collector down: destroys every listed cell unconditionally.
    /// Reserved for shutdown or test isolation; the caller guarantees that no
    /// handle into the heap survives, and no cell may be borrowed.
    pub fn refresh(&mut self)
        requires
            forall|i: int|
                0 <= i < old(self).nodes_seq().len() ==> !(#[trigger] old(self).nodes_seq()[i]).borrowed,
        ensures
            final(self).wf(),
            final(self).nodes_seq().len() == 0,
            final(self).spec_next_id() == old(self).spec_next_id(),
            final(self).spec_last_gc() == old(self).spec_last_gc(),
            final(self).spec_gc_duration() == old(self).spec_gc_duration(),
    {
        self.nodes.clear();
    }

    /// Finds the position of the cell with id `id` by binary search.
    pub(crate) fn find(&self, id: u64) -> (r: Option<usize>)
        requires
            ids_sorted(self.nodes_seq()),
        ensures
            match r {
                Option::Some(k) => k < self.nodes_seq().len() && self.nodes_seq()[k as int].id
                    == id,
                Option::None => !has_id(self.nodes_seq(), id),
            },
    {
        let mut lo: usize = 0;
        let mut hi: usize = self.nodes.len();
        while lo < hi
            invariant
                lo <= hi <= self.nodes_seq().len(),
                ids_sorted(self.nodes_seq()),
                forall|i: int| 0 <= i < lo ==> (#[trigger] self.nodes_seq()[i]).id < id,
                forall|i: int|
                    hi <= i < self.nodes_seq().len() ==> id < (#[trigger] self.nodes_seq()[i]).id,
            decreases hi - lo,
        {
            let mid = lo + (hi - lo) / 2;
            let mid_id = self.nodes[mid].id;
            if mid_id == id {
                return Some(mid);
            } else if mid_id < id {
                lo = mid + 1;
            } else {
                hi = mid;
            }
        }
        None
    }
}

/// How many cells of `s` carry at least one root.
pub open spec fn roots_len<T>(s: Seq<GcNode<T>>) -> nat
    decreases s.len(),
{
    if s.len() == 0 {
        0
    } else {
        roots_len(s.drop_last()) + if s.last().data.roots() > 0 {
            1nat
        } else {
            0nat
        }
    }
}

/// Sets the minimum interval, in milliseconds, between two sweeps of the
/// given collector.
pub fn set_gc_duration<T: Trace>(st: &mut GcState<T>, millis: u64)
    ensures
        final(st).spec_gc_duration() == millis,
        final(st).nodes_seq() == old(st).nodes_seq(),
        final(st).spec_next_id() == old(st).spec_next_id(),
        final(st).spec_last_gc() == old(st).spec_last_gc(),
{
    st.set_gc_duration(millis);
}

/// The same cell with another metadata word.
pub open spec fn with_data<T>(n: GcNode<T>, d: GcData) -> GcNode<T> {
    GcNode { data: d, ..n }
}

/// The cells of `s`, with one root subtracted (saturating) from the cell with
/// id `id`; `s` itself when no cell has that id.
pub open spec fn dec_roots_at<T>(s: Seq<GcNode<T>>, id: u64) -> Seq<GcNode<T>> {
    if has_id(s, id) {
        s.update(idx_of(s, id), with_data(node_at(s, id), node_at(s, id).data.with_sub_root()))
    } else {
        s
    }
}

/// The cells of `s`, with one root added to the cell with id `id`; `s`
/// itself when no cell has that id.
pub open spec fn inc_roots_at<T>(s: Seq<GcNode<T>>, id: u64) -> Seq<GcNode<T>> {
    if has_id(s, id) {
        s.update(idx_of(s, id), with_data(node_at(s, id), node_at(s, id).data.with_add_root()))
    } else {
        s
    }
}

/// The cells of `s`, with one root subtracted (saturating) for every id of
/// `ids`, in order.
pub open spec fn dec_roots_many<T>(s: Seq<GcNode<T>>, ids: Seq<u64>) -> Seq<GcNode<T>>
    decreases ids.len(),
{
    if ids.len() == 0 {
        s
    } else {
        dec_roots_many(dec_roots_at(s, ids[0]), ids.drop_first())
    }
}

/// Subtracting roots one id at a time, the last id can be peeled off the end.
pub proof fn lemma_dec_roots_many_push<T>(s: Seq<GcNode<T>>, ids: Seq<u64>, id: u64)
    ensures
        dec_roots_many(s, ids.push(id)) == dec_roots_at(dec_roots_many(s, ids), id),
    decreases ids.len(),
{
    if ids.len() == 0 {
        assert(ids.push(id)[0] == id);
        assert(ids.push(id).drop_first() =~= Seq::<u64>::empty());
        assert(dec_roots_many(dec_roots_at(s, id), Seq::<u64>::empty()) == dec_roots_at(s, id));
    } else {
        assert(ids.push(id)[0] == ids[0]);
        assert(ids.push(id).drop_first() =~= ids.drop_first().push(id));
        lemma_dec_roots_many_push(dec_roots_at(s, ids[0]), ids.drop_first(), id);
    }
}

/// Subtracting a root keeps the mark bit and lowers the counter by one,
/// saturating at zero.
pub proof fn lemma_with_sub_root_facts(d: GcData)
    ensures
        d.with_sub_root().marked() == d.marked(),
        d.with_sub_root().roots() == if d.roots() > 0 {
            (d.roots() - 1) as u64
        } else {
            0u64
        },
{
    let x = d.data;
    assert(x & 0x7fff_ffff_ffff_ffff > 0 ==> {
        &&& x >= 1
        &&& (x - 1) as u64 & 0x7fff_ffff_ffff_ffff == (x & 0x7fff_ffff_ffff_ffff) - 1
        &&& ((x - 1) as u64 & 0x8000_0000_0000_0000 == 0) == (x & 0x8000_0000_0000_0000 == 0)
    }) by (bit_vector);
}

/// Adding a root keeps the mark bit and raises the counter by one, as long
/// as the counter has room.
pub proof fn lemma_with_add_root_facts(d: GcData)
    requires
        d.roots() < MAX_ROOTS,
    ensures
        d.with_add_root().marked() == d.marked(),
        d.with_add_root().roots() == d.roots() + 1,
{
    let x = d.data;
    assert(x & 0x7fff_ffff_ffff_ffff < 0x7fff_ffff_ffff_ffff ==> {
        &&& x < 0xffff_ffff_ffff_ffff
        &&& (x + 1) as u64 & 0x7fff_ffff_ffff_ffff == (x & 0x7fff_ffff_ffff_ffff) + 1
        &&& ((x + 1) as u64 & 0x8000_0000_0000_0000 == 0) == (x & 0x8000_0000_0000_0000 == 0)
    }) by (bit_vector);
}

/// Subtracting a root from one cell changes no id, payload, borrow flag or
/// mark, and lowers no other cell's counter.
pub proof fn lemma_dec_at_shape<T>(s: Seq<GcNode<T>>, id: u64)
    ensures
        dec_roots_at(s, id).len() == s.len(),
        forall|i: int|
            0 <= i < s.len() ==> {
                &&& (#[trigger] dec_roots_at(s, id)[i]).id == s[i].id
                &&& dec_roots_at(s, id)[i].val == s[i].val
                &&& dec_roots_at(s, id)[i].borrowed == s[i].borrowed
                &&& dec_roots_at(s, id)[i].data.marked() == s[i].data.marked()
                &&& dec_roots_at(s, id)[i].data.roots() <= s[i].data.roots()
            },
{
    if has_id(s, id) {
        lemma_with_sub_root_facts(node_at(s, id).data);
    }
}

/// Subtracting roots for a list of ids changes no id, payload, borrow flag
/// or mark, and raises no counter.
pub proof fn lemma_dec_many_shape<T>(s: Seq<GcNode<T>>, ids: Seq<u64>)
    ensures
        dec_roots_many(s, ids).len() == s.len(),
        forall|i: int|
            0 <= i < s.len() ==> {
                &&& (#[trigger] dec_roots_many(s, ids)[i]).id == s[i].id
                &&& dec_roots_many(s, ids)[i].val == s[i].val
                &&& dec_roots_many(s, ids)[i].borrowed == s[i].borrowed
                &&& dec_roots_many(s, ids)[i].data.marked() == s[i].data.marked()
                &&& dec_roots_many(s, ids)[i].data.roots() <= s[i].data.roots()
            },
    decreases ids.len(),
{
    if ids.len() > 0 {
        lemma_dec_at_shape(s, ids[0]);
        lemma_dec_many_shape(dec_roots_at(s, ids[0]), ids.drop_first());
    }
}

/// Whether the cell with id `a` directly references the cell with id `b`.
pub open spec fn edge<T: Trace>(s: Seq<GcNode<T>>, a: u64, b: u64) -> bool {
    has_id(s, a) && has_id(s, b) && node_at(s, a).val.children().contains(b)
}

/// Whether the cell with id `id` carries at least one root.
pub open spec fn rooted<T: Trace>(s: Seq<GcNode<T>>, id: u64) -> bool {
    has_id(s, id) && node_at(s, id).data.roots() > 0
}

/// Whether `p` is a chain of references that starts at a rooted cell.
pub open spec fn is_path<T: Trace>(s: Seq<GcNode<T>>, p: Seq<u64>) -> bool {
    &&& p.len() > 0
    &&& rooted(s, p[0])
    &&& forall|k: int| 0 <= k < p.len() - 1 ==> #[trigger] edge(s, p[k], p[k + 1])
}

/// Whether the cell with id `id` is reachable from some rooted cell by a
/// chain of references.
pub open spec fn reachable<T: Trace>(s: Seq<GcNode<T>>, id: u64) -> bool {
    exists|p: Seq<u64>| #[trigger] is_path(s, p) && p.last() == id
}

/// A rooted cell is reachable: the one-cell chain starts and ends at it.
pub proof fn lemma_rooted_reachable<T: Trace>(s: Seq<GcNode<T>>, id: u64)
    requires
        rooted(s, id),
    ensures
        reachable(s, id),
{
    let p: Seq<u64> = seq![id];
    assert(is_path(s, p));
    assert(p.last() == id);
}

/// Reachability follows references: a cell referenced by a reachable cell is
/// reachable.
pub proof fn lemma_reachable_step<T: Trace>(s: Seq<GcNode<T>>, a: u64, b: u64)
    requires
        reachable(s, a),
        edge(s, a, b),
    ensures
        reachable(s, b),
{
    let p = choose|p: Seq<u64>| #[trigger] is_path(s, p) && p.last() == a;
    let q = p.push(b);
    assert(q[0] == p[0]);
    assert forall|k: int| 0 <= k < q.len() - 1 implies #[trigger] edge(s, q[k], q[k + 1]) by {
        if k < p.len() - 1 {
            assert(q[k] == p[k] && q[k + 1] == p[k + 1]);
        } else {
            assert(q[k] == p.last() && q[k + 1] == b);
        }
    }
    assert(is_path(s, q));
    assert(q.last() == b);
}

impl<T: Trace> GcState<T> {
    /// Subtracts one root (saturating) from the cell with id `id`, if it is
    /// listed.
    pub(crate) fn sub_root_at(&mut self, id: u64)
        requires
            ids_sorted(old(self).nodes_seq()),
        ensures
            final(self).nodes_seq() == dec_roots_at(old(self).nodes_seq(), id),
            final(self).spec_next_id() == old(self).spec_next_id(),
            final(self).spec_last_gc() == old(self).spec_last_gc(),
            final(self).spec_gc_duration() == old(self).spec_gc_duration(),
    {
        let r = self.find(id);
        if let Some(k) = r {
            proof {
                lemma_node_at_index(self.nodes@, k as int);
            }
            self.nodes[k].data.sub_roots();
        }
    }

    /// Splices a fresh cell for `value` at the end of the list.  The new
    /// cell is born with one root and no mark; any handle embedded in
    /// `value` stops being a root, and the root counters of the cells those
    /// handles point at drop accordingly.
    pub(crate) fn allocate_node(&mut self, value: T) -> (id: u64)
        requires
            old(self).wf(),
            old(self).spec_next_id() < u64::MAX,
        ensures
            final(self).wf(),
            id == old(self).spec_next_id(),
            !has_id(old(self).nodes_seq(), id),
            final(self).spec_next_id() == old(self).spec_next_id() + 1,
            final(self).spec_last_gc() == old(self).spec_last_gc(),
            final(self).spec_gc_duration() == old(self).spec_gc_duration(),
            final(self).nodes_seq().len() == old(self).nodes_seq().len() + 1,
            final(self).nodes_seq().drop_last() == dec_roots_many(
                old(self).nodes_seq(),
                value.rooted_children(),
            ),
            final(self).nodes_seq().last().id == id,
            final(self).nodes_seq().last().data.roots() == 1,
            !final(self).nodes_seq().last().data.marked(),
            !final(self).nodes_seq().last().borrowed,
            value.like(&final(self).nodes_seq().last().val),
            final(self).nodes_seq().last().val.children() == value.children(),
            final(self).nodes_seq().last().val.rooted_children() == Seq::<u64>::empty(),
    {
        let ghost g = self.nodes@;
        let mut value = value;
        let flips = value.deroot_children();
        let n = flips.len();
        let mut i: usize = 0;
        while i < n
            invariant
                i <= n,
                n == flips@.len(),
                self.nodes@ == dec_roots_many(g, flips@.take(i as int)),
                ids_sorted(self.nodes@),
                self.next_id == old(self).spec_next_id(),
                self.last_gc == old(self).spec_last_gc(),
                self.gc_duration == old(self).spec_gc_duration(),
            decreases n - i,
        {
            proof {
                lemma_dec_many_shape(g, flips@.take(i as int));
            }
            self.sub_root_at(flips[i]);
            proof {
                lemma_dec_roots_many_push(g, flips@.take(i as int), flips@[i as int]);
                assert(flips@.take(i as int).push(flips@[i as int]) =~= flips@.take(i + 1 as int));
                lemma_dec_many_shape(g, flips@.take(i + 1 as int));
            }
            i = i + 1;
        }
        proof {
            assert(flips@.take(n as int) =~= flips@);
            lemma_dec_many_shape(g, flips@);
        }
        let id = self.next_id;
        let node = GcNode { id, data: GcData::new(), borrowed: false, val: value };
        self.nodes.push(node);
        self.next_id = self.next_id + 1;
        proof {
            assert(self.nodes@.drop_last() =~= dec_roots_many(g, flips@));
        }
        id
    }

    /// Adds one root to the cell with id `id`, if it is listed.  The cell's
    /// root counter must have room.
    pub(crate) fn add_root_at(&mut self, id: u64)
        requires
            ids_sorted(old(self).nodes_seq()),
            has_id(old(self).nodes_seq(), id) ==> node_at(old(self).nodes_seq(), id).data.roots()
                < MAX_ROOTS,
        ensures
            final(self).nodes_seq() == inc_roots_at(old(self).nodes_seq(), id),
            final(self).spec_next_id() == old(self).spec_next_id(),
            final(self).spec_last_gc() == old(self).spec_last_gc(),
            final(self).spec_gc_duration() == old(self).spec_gc_duration(),
    {
        let r = self.find(id);
        if let Some(k) = r {
            proof {
                lemma_node_at_index(self.nodes@, k as int);
            }
            self.nodes[k].data.add_roots();
        }
    }
}

/// The cells of `s`, with the borrow flag of the cell with id `id` set to
/// `b`; `s` itself when no cell has that id.
pub open spec fn set_borrowed_at<T>(s: Seq<GcNode<T>>, id: u64, b: bool) -> Seq<GcNode<T>> {
    if has_id(s, id) {
        s.update(idx_of(s, id), GcNode { borrowed: b, ..node_at(s, id) })
    } else {
        s
    }
}

/// What allocating `value` leaves behind: `res` is `mid` with every root
/// contribution of a handle embedded in `value` subtracted, and one fresh
/// settled cell for `value` under the id `id` spliced at the end.
pub open spec fn alloc_result<T: Trace>(
    mid: Seq<GcNode<T>>,
    value: T,
    id: u64,
    res: Seq<GcNode<T>>,
) -> bool {
    &&& res.len() == mid.len() + 1
    &&& res.drop_last() == dec_roots_many(mid, value.rooted_children())
    &&& !has_id(mid, id)
    &&& res.last().id == id
    &&& res.last().data.roots() == 1
    &&& !res.last().data.marked()
    &&& !res.last().borrowed
    &&& value.like(&res.last().val)
    &&& res.last().val.children() == value.children()
    &&& res.last().val.rooted_children() == Seq::<u64>::empty()
}

impl<T: Trace> GcState<T> {
    /// The root counter of the cell with id `id`, if it is listed.
    pub fn node_roots(&self, id: u64) -> (r: Option<u64>)
        requires
            ids_sorted(self.nodes_seq()),
        ensures
            match r {
                Option::Some(c) => has_id(self.nodes_seq(), id) && c == node_at(
                    self.nodes_seq(),
                    id,
                ).data.roots(),
                Option::None => !has_id(self.nodes_seq(), id),
            },
    {
        let found = self.find(id);
        match found {
            Some(k) => {
                proof {
                    lemma_node_at_index(self.nodes@, k as int);
                }
                Some(self.nodes[k].data.get_roots())
            },
            None => None,
        }
    }

    /// Whether the cell with id `id` is currently exclusively borrowed, if
    /// it is listed.
    pub fn node_borrowed(&self, id: u64) -> (r: Option<bool>)
        requires
            ids_sorted(self.nodes_seq()),
        ensures
            match r {
                Option::Some(b) => has_id(self.nodes_seq(), id) && b == node_at(
                    self.nodes_seq(),
                    id,
                ).borrowed,
                Option::None => !has_id(self.nodes_seq(), id),
            },
    {
        let found = self.find(id);
        match found {
            Some(k) => {
                proof {
                    lemma_node_at_index(self.nodes@, k as int);
                }
                Some(self.nodes[k].borrowed)
            },
            None => None,
        }
    }

    /// A shared reference to the payload of the cell with id `id`.
    pub(crate) fn payload_ref(&self, id: u64) -> (r: &T)
        requires
            ids_sorted(self.nodes_seq()),
            has_id(self.nodes_seq(), id),
        ensures
            *r == node_at(self.nodes_seq(), id).val,
    {
        let found = self.find(id);
        match found {
            Some(k) => {
                proof {
                    lemma_node_at_index(self.nodes@, k as int);
                }
                &self.nodes[k].val
            },
            None => {
                proof {
                    assert(false);
                }
                &self.nodes[0].val
            },
        }
    }

    /// Sets the borrow flag of the cell with id `id`.
    pub(crate) fn set_borrowed(&mut self, id: u64, b: bool)
        requires
            ids_sorted(old(self).nodes_seq()),
            has_id(old(self).nodes_seq(), id),
        ensures
            final(self).nodes_seq() == set_borrowed_at(old(self).nodes_seq(), id, b),
            final(self).spec_next_id() == old(self).spec_next_id(),
            final(self).spec_last_gc() == old(self).spec_last_gc(),
            final(self).spec_gc_duration() == old(self).spec_gc_duration(),
    {
        let found = self.find(id);
        match found {
            Some(k) => {
                proof {
                    lemma_node_at_index(self.nodes@, k as int);
                }
                self.nodes[k].borrowed = b;
                proof {
                    assert(self.nodes@ =~= set_borrowed_at(old(self).nodes_seq(), id, b));
                }
            },
            None => {
                proof {
                    assert(false);
                }
            },
        }
    }

    /// Replaces the payload of the cell with id `id` by `value`, first
    /// clearing the local root flag of every handle embedded in `value` and
    /// lowering the root counters those handles contributed to.  Returns the
    /// payload the cell held before.
    pub(crate) fn write_payload(&mut self, id: u64, value: T) -> (r: T)
        requires
            old(self).wf(),
            has_id(old(self).nodes_seq(), id),
        ensures
            final(self).wf(),
            final(self).spec_next_id() == old(self).spec_next_id(),
            final(self).spec_last_gc() == old(self).spec_last_gc(),
            final(self).spec_gc_duration() == old(self).spec_gc_duration(),
            final(self).nodes_seq().len() == old(self).nodes_seq().len(),
            r == node_at(old(self).nodes_seq(), id).val,
            ({
                let mid = dec_roots_many(old(self).nodes_seq(), value.rooted_children());
                let k = idx_of(old(self).nodes_seq(), id);
                &&& forall|j: int|
                    0 <= j < mid.len() && j != k ==> (#[trigger] final(self).nodes_seq()[j])
                        == mid[j]
                &&& final(self).nodes_seq()[k].id == id
                &&& final(self).nodes_seq()[k].data == mid[k].data
                &&& final(self).nodes_seq()[k].borrowed == mid[k].borrowed
                &&& value.like(&final(self).nodes_seq()[k].val)
                &&& final(self).nodes_seq()[k].val.children() == value.children()
                &&& final(self).nodes_seq()[k].val.rooted_children() == Seq::<u64>::empty()
            }),
    {
        let ghost g = self.nodes@;
        let mut value = value;
        let flips = value.deroot_children();
        let n = flips.len();
        let mut i: usize = 0;
        while i < n
            invariant
                i <= n,
                n == flips@.len(),
                self.nodes@ == dec_roots_many(g, flips@.take(i as int)),
                ids_sorted(self.nodes@),
                self.next_id == old(self).spec_next_id(),
                self.last_gc == old(self).spec_last_gc(),
                self.gc_duration == old(self).spec_gc_duration(),
            decreases n - i,
        {
            proof {
                lemma_dec_many_shape(g, flips@.take(i as int));
            }
            self.sub_root_at(flips[i]);
            proof {
                lemma_dec_roots_many_push(g, flips@.take(i as int), flips@[i as int]);
                assert(flips@.take(i as int).push(flips@[i as int]) =~= flips@.take(i + 1 as int));
                lemma_dec_many_shape(g, flips@.take(i + 1 as int));
            }
            i = i + 1;
        }
        proof {
            assert(flips@.take(n as int) =~= flips@);
            lemma_dec_many_shape(g, flips@);
        }
        let found = self.find(id);
        match found {
            Some(k) => {
                proof {
                    lemma_node_at_index(self.nodes@, k as int);
                    lemma_node_at_index(g, k as int);
                }
                let mut v = value;
                std::mem::swap(&mut self.nodes[k].val, &mut v);
                v
            },
            None => {
                proof {
                    let j = idx_of(g, id);
                    assert(0 <= j < g.len() && g[j].id == id);
                    assert(self.nodes@[j].id == id);
                    assert(has_id(self.nodes@, id));
                    assert(false);
                }
                value
            },
        }
    }
}

/// Subtracting a root from one cell keeps the collector well formed.
pub proof fn lemma_dec_at_wf<T: Trace>(s: Seq<GcNode<T>>, id: u64, bound: u64)
    requires
        ids_sorted(s),
        settled(s),
        all_unmarked(s),
        ids_below(s, bound),
    ensures
        ids_sorted(dec_roots_at(s, id)),
        settled(dec_roots_at(s, id)),
        all_unmarked(dec_roots_at(s, id)),
        ids_below(dec_roots_at(s, id), bound),
{
    lemma_dec_at_shape(s, id);
    let d = dec_roots_at(s, id);
    assert forall|i: int, j: int|
        0 <= i < j < d.len() implies (#[trigger] d[i]).id < (#[trigger] d[j]).id by {
        assert(d[i].id == s[i].id && d[j].id == s[j].id);
    }
    assert forall|i: int|
        0 <= i < d.len() implies (#[trigger] d[i]).val.rooted_children() == Seq::<u64>::empty()
        && !d[i].data.marked() && d[i].id < bound by {
        assert(d[i].val == s[i].val && d[i].data.marked() == s[i].data.marked() && d[i].id
            == s[i].id);
    }
}

/// Adding a root to one cell keeps the collector well formed, as long as
/// that cell's counter has room.
pub proof fn lemma_inc_at_wf<T: Trace>(s: Seq<GcNode<T>>, id: u64, bound: u64)
    requires
        ids_sorted(s),
        settled(s),
        all_unmarked(s),
        ids_below(s, bound),
        has_id(s, id) ==> node_at(s, id).data.roots() < MAX_ROOTS,
    ensures
        ids_sorted(inc_roots_at(s, id)),
        settled(inc_roots_at(s, id)),
        all_unmarked(inc_roots_at(s, id)),
        ids_below(inc_roots_at(s, id), bound),
        inc_roots_at(s, id).len() == s.len(),
        forall|i: int|
            0 <= i < s.len() ==> {
                &&& (#[trigger] inc_roots_at(s, id)[i]).id == s[i].id
                &&& inc_roots_at(s, id)[i].val == s[i].val
                &&& inc_roots_at(s, id)[i].borrowed == s[i].borrowed
            },
{
    if has_id(s, id) {
        lemma_with_add_root_facts(node_at(s, id).data);
    }
    let d = inc_roots_at(s, id);
    assert forall|i: int, j: int|
        0 <= i < j < d.len() implies (#[trigger] d[i]).id < (#[trigger] d[j]).id by {
        assert(d[i].id == s[i].id && d[j].id == s[j].id);
    }
    assert forall|i: int|
        0 <= i < d.len() implies (#[trigger] d[i]).val.rooted_children() == Seq::<u64>::empty()
        && !d[i].data.marked() && d[i].id < bound by {
        assert(d[i].val == s[i].val && d[i].data.marked() == s[i].data.marked() && d[i].id
            == s[i].id);
    }
}

/// Setting or clearing a borrow flag keeps the collector well formed.
pub proof fn lemma_set_borrowed_wf<T: Trace>(s: Seq<GcNode<T>>, id: u64, b: bool, bound: u64)
    requires
        ids_sorted(s),
        settled(s),
        all_unmarked(s),
        ids_below(s, bound),
    ensures
        ids_sorted(set_borrowed_at(s, id, b)),
        settled(set_borrowed_at(s, id, b)),
        all_unmarked(set_borrowed_at(s, id, b)),
        ids_below(set_borrowed_at(s, id, b), bound),
        set_borrowed_at(s, id, b).len() == s.len(),
        forall|i: int|
            0 <= i < s.len() ==> {
                &&& (#[trigger] set_borrowed_at(s, id, b)[i]).id == s[i].id
                &&& set_borrowed_at(s, id, b)[i].val == s[i].val
                &&& set_borrowed_at(s, id, b)[i].data == s[i].data
            },
{
    let d = set_borrowed_at(s, id, b);
    assert forall|i: int, j: int|
        0 <= i < j < d.len() implies (#[trigger] d[i]).id < (#[trigger] d[j]).id by {
        assert(d[i].id == s[i].id && d[j].id == s[j].id);
    }
    assert forall|i: int|
        0 <= i < d.len() implies (#[trigger] d[i]).val.rooted_children() == Seq::<u64>::empty()
        && !d[i].data.marked() && d[i].id < bound by {
        assert(d[i].val == s[i].val && d[i].data == s[i].data && d[i].id == s[i].id);
    }
}

/// The same cell with the mark bit set.
pub open spec fn mark_node<T>(n: GcNode<T>) -> GcNode<T> {
    with_data(n, n.data.with_mark())
}

/// The same cell with the mark bit cleared.
pub open spec fn unmark_node<T>(n: GcNode<T>) -> GcNode<T> {
    with_data(n, n.data.with_unmark())
}

/// Whether `s` lists a cell with id `id` and that cell carries a mark.
pub open spec fn marked_id<T>(s: Seq<GcNode<T>>, id: u64) -> bool {
    has_id(s, id) && node_at(s, id).data.marked()
}

/// How many cells of `s` carry no mark.
pub open spec fn unmarked_count<T>(s: Seq<GcNode<T>>) -> nat
    decreases s.len(),
{
    if s.len() == 0 {
        0
    } else {
        unmarked_count(s.drop_last()) + if s.last().data.marked() {
            0nat
        } else {
            1nat
        }
    }
}

/// Setting the mark bit keeps the root counter.
pub proof fn lemma_with_mark_facts(d: GcData)
    ensures
        d.with_mark().marked(),
        d.with_mark().roots() == d.roots(),
{
    let x = d.data;
    assert({
        &&& (x | 0x8000_0000_0000_0000) & 0x8000_0000_0000_0000 != 0
        &&& (x | 0x8000_0000_0000_0000) & 0x7fff_ffff_ffff_ffff == x & 0x7fff_ffff_ffff_ffff
    }) by (bit_vector);
}

/// Marking an unmarked cell lowers the number of unmarked cells by one.
proof fn lemma_unmarked_count_update<T>(s: Seq<GcNode<T>>, k: int, nd: GcNode<T>)
    requires
        0 <= k < s.len(),
        !s[k].data.marked(),
        nd.data.marked(),
    ensures
        unmarked_count(s.update(k, nd)) + 1 == unmarked_count(s),
    decreases s.len(),
{
    let s2 = s.update(k, nd);
    if k == s.len() - 1 {
        assert(s2.drop_last() =~= s.drop_last());
        assert(s2.last() == nd);
    } else {
        assert(s2.drop_last() =~= s.drop_last().update(k, nd));
        assert(s2.last() == s.last());
        lemma_unmarked_count_update(s.drop_last(), k, nd);
    }
}

/// An element of a sequence is still an element after a push.
proof fn lemma_push_contains<A>(s: Seq<A>, x: A, y: A)
    requires
        s.contains(y),
    ensures
        s.push(x).contains(y),
{
    let i = choose|i: int| 0 <= i < s.len() && s[i] == y;
    assert(s.push(x)[i] == y);
}

/// An element of a sequence sits before the last position or is the last.
proof fn lemma_contains_drop_last<A>(s: Seq<A>, y: A)
    requires
        s.len() > 0,
        s.contains(y),
    ensures
        s.drop_last().contains(y) || s.last() == y,
{
    let i = choose|i: int| 0 <= i < s.len() && s[i] == y;
    if i < s.len() - 1 {
        assert(s.drop_last()[i] == y);
    }
}

/// The cells of `s` that are reachable in `g`, in order.
pub open spec fn live_nodes<T: Trace>(g: Seq<GcNode<T>>, s: Seq<GcNode<T>>) -> Seq<GcNode<T>>
    decreases s.len(),
{
    if s.len() == 0 {
        Seq::empty()
    } else {
        let rest = live_nodes(g, s.drop_first());
        if reachable(g, s[0].id) {
            seq![s[0]] + rest
        } else {
            rest
        }
    }
}

/// The marked cells of `s`, their marks cleared, in order.
pub open spec fn swept<T>(s: Seq<GcNode<T>>) -> Seq<GcNode<T>>
    decreases s.len(),
{
    if s.len() == 0 {
        Seq::empty()
    } else {
        let rest = swept(s.drop_first());
        if s[0].data.marked() {
            seq![unmark_node(s[0])] + rest
        } else {
            rest
        }
    }
}

/// Every cell the sweep keeps is a reachable cell of the input.
pub proof fn lemma_live_elements<T: Trace>(g: Seq<GcNode<T>>, s: Seq<GcNode<T>>)
    ensures
        forall|x: GcNode<T>| #[trigger]
            live_nodes(g, s).contains(x) ==> s.contains(x) && reachable(g, x.id),
    decreases s.len(),
{
    if s.len() > 0 {
        lemma_live_elements(g, s.drop_first());
        assert forall|x: GcNode<T>| #[trigger]
            live_nodes(g, s).contains(x) implies s.contains(x) && reachable(g, x.id) by {
            let l = live_nodes(g, s);
            let rest = live_nodes(g, s.drop_first());
            let i = choose|i: int| 0 <= i < l.len() && l[i] == x;
            if reachable(g, s[0].id) && i == 0 {
                assert(x == s[0]);
                assert(s[0] == s[0]);
            } else {
                if reachable(g, s[0].id) {
                    assert(rest[i - 1] == x);
                } else {
                    assert(rest[i] == x);
                }
                assert(rest.contains(x));
                let j = choose|j: int| 0 <= j < s.drop_first().len() && s.drop_first()[j] == x;
                assert(s[j + 1] == x);
            }
        }
    }
}

/// A reachable cell of the input survives the sweep.
pub proof fn lemma_live_keeps<T: Trace>(g: Seq<GcNode<T>>, s: Seq<GcNode<T>>, i: int)
    requires
        0 <= i < s.len(),
        reachable(g, s[i].id),
    ensures
        live_nodes(g, s).contains(s[i]),
    decreases s.len(),
{
    let l = live_nodes(g, s);
    let rest = live_nodes(g, s.drop_first());
    if i == 0 {
        assert(l[0] == s[0]);
    } else {
        assert(s.drop_first()[i - 1] == s[i]);
        lemma_live_keeps(g, s.drop_first(), i - 1);
        let j = choose|j: int| 0 <= j < rest.len() && rest[j] == s[i];
        if reachable(g, s[0].id) {
            assert(l[j + 1] == s[i]);
        } else {
            assert(l[j] == s[i]);
        }
    }
}

/// No unreachable cell survives the sweep.
pub proof fn lemma_live_drops<T: Trace>(g: Seq<GcNode<T>>, s: Seq<GcNode<T>>, id: u64)
    requires
        !reachable(g, id),
    ensures
        !has_id(live_nodes(g, s), id),
{
    lemma_live_elements(g, s);
    let l = live_nodes(g, s);
    if has_id(l, id) {
        let i = choose|i: int| 0 <= i < l.len() && (#[trigger] l[i]).id == id;
        assert(l.contains(l[i]));
    }
}

/// A sweep keeps the cells sorted by id.
pub proof fn lemma_live_sorted<T: Trace>(g: Seq<GcNode<T>>, s: Seq<GcNode<T>>)
    requires
        ids_sorted(s),
    ensures
        ids_sorted(live_nodes(g, s)),
    decreases s.len(),
{
    if s.len() > 0 {
        assert forall|i: int, j: int|
            0 <= i < j < s.drop_first().len() implies (#[trigger] s.drop_first()[i]).id < (
        #[trigger] s.drop_first()[j]).id by {
            assert(s.drop_first()[i] == s[i + 1]);
            assert(s.drop_first()[j] == s[j + 1]);
        }
        lemma_live_sorted(g, s.drop_first());
        lemma_live_elements(g, s.drop_first());
        let l = live_nodes(g, s);
        let rest = live_nodes(g, s.drop_first());
        if reachable(g, s[0].id) {
            assert forall|i: int, j: int|
                0 <= i < j < l.len() implies (#[trigger] l[i]).id < (#[trigger] l[j]).id by {
                if i == 0 {
                    assert(l[j] == rest[j - 1]);
                    assert(rest.contains(rest[j - 1]));
                    let t = choose|t: int|
                        0 <= t < s.drop_first().len() && s.drop_first()[t] == rest[j - 1];
                    assert(s[t + 1] == rest[j - 1]);
                    assert(s[0].id < s[t + 1].id);
                } else {
                    assert(l[i] == rest[i - 1]);
                    assert(l[j] == rest[j - 1]);
                }
            }
        }
    }
}

/// Walking a reference chain from a rooted cell, every cell along the chain
/// is marked once the worklist is empty: the roots are marked and marking is
/// closed under listed references.
proof fn lemma_path_marked<T: Trace>(g: Seq<GcNode<T>>, m: Seq<GcNode<T>>, p: Seq<u64>)
    requires
        ids_sorted(g),
        m.len() == g.len(),
        forall|j: int| 0 <= j < g.len() ==> (#[trigger] m[j]).id == g[j].id,
        forall|j: int|
            0 <= j < g.len() ==> ((#[trigger] g[j]).data.roots() > 0 ==> m[j].data.marked()),
        forall|j: int, c: u64|
            #![trigger m[j].data.marked(), g[j].val.children().contains(c)]
            0 <= j < g.len() && m[j].data.marked() && g[j].val.children().contains(c) && has_id(
                g,
                c,
            ) ==> marked_id(m, c),
        is_path(g, p),
    ensures
        has_id(g, p.last()),
        marked_id(m, p.last()),
    decreases p.len(),
{
    assert forall|i: int, j: int|
        0 <= i < j < m.len() implies (#[trigger] m[i]).id < (#[trigger] m[j]).id by {
        assert(g[i].id < g[j].id);
    }
    if p.len() == 1 {
        let id = p[0];
        assert(rooted(g, id));
        let j = idx_of(g, id);
        assert(0 <= j < g.len() && g[j].id == id);
        lemma_node_at_index(g, j);
        assert(g[j].data.roots() > 0);
        assert(m[j].data.marked());
        lemma_node_at_index(m, j);
        assert(m[j].id == id);
        assert(marked_id(m, id));
    } else {
        let q = p.drop_last();
        assert(q[0] == p[0]);
        assert forall|k: int| 0 <= k < q.len() - 1 implies #[trigger] edge(g, q[k], q[k + 1]) by {
            assert(q[k] == p[k] && q[k + 1] == p[k + 1]);
            assert(edge(g, p[k], p[k + 1]));
        }
        assert(is_path(g, q));
        lemma_path_marked(g, m, q);
        let a = q.last();
        assert(a == p[p.len() - 2]);
        let k = p.len() - 2;
        assert(edge(g, p[k], p[k + 1]));
        assert(p[k + 1] == p.last());
        assert(edge(g, a, p.last()));
        let b = p.last();
        let j = idx_of(g, a);
        assert(0 <= j < g.len() && g[j].id == a);
        lemma_node_at_index(g, j);
        lemma_node_at_index(m, j);
        assert(node_at(m, a) == m[j]);
        assert(m[j].data.marked());
        assert(g[j].val.children().contains(b));
        assert(has_id(g, b));
        assert(marked_id(m, b));
    }
}

/// Appends every id of `cs` to the worklist.
fn push_all(pending: &mut Vec<u64>, cs: &Vec<u64>)
    ensures
        final(pending)@ == old(pending)@ + cs@,
{
    let m = cs.len();
    let mut j: usize = 0;
    while j < m
        invariant
            j <= m,
            m == cs@.len(),
            pending@ == old(pending)@ + cs@.take(j as int),
        decreases m - j,
    {
        pending.push(cs[j]);
        proof {
            assert(old(pending)@ + cs@.take(j + 1 as int) =~= (old(pending)@ + cs@.take(
                j as int,
            )).push(cs@[j as int]));
        }
        j = j + 1;
    }
    proof {
        assert(cs@.take(m as int) =~= cs@);
    }
}

/// One worklist step that marks a cell keeps every invariant of the mark
/// phase: the popped id's cell is newly marked, and its children join the
/// worklist.
proof fn lemma_mark_step<T: Trace>(
    g: Seq<GcNode<T>>,
    nodes0: Seq<GcNode<T>>,
    nodes1: Seq<GcNode<T>>,
    pend0: Seq<u64>,
    pend2: Seq<u64>,
    cs: Seq<u64>,
    k: int,
    id: u64,
)
    requires
        nodes0.len() == g.len(),
        ids_sorted(g),
        all_unmarked(g),
        forall|j: int|
            0 <= j < g.len() ==> (#[trigger] nodes0[j]) == g[j] || nodes0[j] == mark_node(g[j]),
        forall|j: int| 0 <= j < g.len() ==> (#[trigger] nodes0[j]).id == g[j].id,
        0 <= k < g.len(),
        g[k].id == id,
        !nodes0[k].data.marked(),
        nodes1 == nodes0.update(k, mark_node(g[k])),
        pend0.len() > 0,
        pend0.last() == id,
        cs == g[k].val.children(),
        pend2 == pend0.drop_last() + cs,
        reachable(g, id),
        forall|j: int|
            0 <= j < g.len() ==> ((#[trigger] nodes0[j]).data.marked() ==> reachable(g, g[j].id)),
        forall|t: int|
            0 <= t < pend0.len() ==> reachable(g, #[trigger] pend0[t]) || !has_id(g, pend0[t]),
        forall|j: int|
            0 <= j < g.len() ==> ((#[trigger] g[j]).data.roots() > 0 ==> nodes0[j].data.marked()
                || pend0.contains(g[j].id)),
        forall|j: int, c: u64|
            #![trigger g[j].val.children().contains(c), nodes0[j]]
            0 <= j < g.len() && nodes0[j].data.marked() && g[j].val.children().contains(c)
                ==> marked_id(nodes0, c) || pend0.contains(c) || !has_id(g, c),
    ensures
        forall|j: int|
            0 <= j < g.len() ==> (#[trigger] nodes1[j]) == g[j] || nodes1[j] == mark_node(g[j]),
        forall|j: int| 0 <= j < g.len() ==> (#[trigger] nodes1[j]).id == g[j].id,
        ids_sorted(nodes1),
        forall|j: int|
            0 <= j < g.len() ==> ((#[trigger] nodes1[j]).data.marked() ==> reachable(g, g[j].id)),
        forall|t: int|
            0 <= t < pend2.len() ==> reachable(g, #[trigger] pend2[t]) || !has_id(g, pend2[t]),
        forall|j: int|
            0 <= j < g.len() ==> ((#[trigger] g[j]).data.roots() > 0 ==> nodes1[j].data.marked()
                || pend2.contains(g[j].id)),
        forall|j: int, c: u64|
            #![trigger g[j].val.children().contains(c), nodes1[j]]
            0 <= j < g.len() && nodes1[j].data.marked() && g[j].val.children().contains(c)
                ==> marked_id(nodes1, c) || pend2.contains(c) || !has_id(g, c),
        unmarked_count(nodes1) + 1 == unmarked_count(nodes0),
{
    let pend1 = pend0.drop_last();
    lemma_node_at_index(g, k);
    lemma_with_mark_facts(g[k].data);
    lemma_unmarked_count_update(nodes0, k, mark_node(g[k]));
    assert forall|i: int, j: int|
        0 <= i < j < nodes1.len() implies (#[trigger] nodes1[i]).id < (#[trigger] nodes1[j]).id by {
        assert(nodes1[i].id == g[i].id && nodes1[j].id == g[j].id);
    }
    // every worklist entry is reachable or absent
    assert forall|t: int|
        0 <= t < pend2.len() implies reachable(g, #[trigger] pend2[t]) || !has_id(
        g,
        pend2[t],
    ) by {
        if t < pend1.len() {
            assert(pend2[t] == pend0[t]);
        } else {
            let c = cs[t - pend1.len()];
            assert(pend2[t] == c);
            if has_id(g, c) {
                assert(node_at(g, id) == g[k]);
                assert(edge(g, id, c));
                lemma_reachable_step(g, id, c);
            }
        }
    }
    // every rooted cell is marked or still queued
    assert forall|j: int|
        0 <= j < g.len() && (#[trigger] g[j]).data.roots() > 0 implies nodes1[j].data.marked()
        || pend2.contains(g[j].id) by {
        if nodes0[j].data.marked() {
        } else if pend0.contains(g[j].id) {
            lemma_contains_drop_last(pend0, g[j].id);
            if pend1.contains(g[j].id) {
                let t = choose|t: int| 0 <= t < pend1.len() && pend1[t] == g[j].id;
                assert(pend2[t] == g[j].id);
            } else {
                assert(g[j].id == id);
                assert(j == k);
            }
        }
    }
    // marking stays closed under listed references
    assert forall|j: int, c: u64|
        #![trigger g[j].val.children().contains(c), nodes1[j]]
        0 <= j < g.len() && nodes1[j].data.marked() && g[j].val.children().contains(
            c,
        ) implies marked_id(nodes1, c) || pend2.contains(c) || !has_id(g, c) by {
        if j == k {
            let t = choose|t: int| 0 <= t < cs.len() && cs[t] == c;
            assert(pend2[pend1.len() + t] == c);
        } else {
            assert(nodes0[j].data.marked());
            if marked_id(nodes0, c) {
                let u = idx_of(nodes0, c);
                lemma_node_at_index(nodes0, u);
                assert(nodes1[u].data.marked());
                lemma_node_at_index(nodes1, u);
                assert(marked_id(nodes1, c));
            } else if pend0.contains(c) {
                lemma_contains_drop_last(pend0, c);
                if pend1.contains(c) {
                    let t = choose|t: int| 0 <= t < pend1.len() && pend1[t] == c;
                    assert(pend2[t] == c);
                } else {
                    assert(c == id);
                    lemma_node_at_index(nodes1, k);
                    assert(marked_id(nodes1, c));
                }
            }
        }
    }
}

impl<T: Trace> GcState<T> {
    /// The mark phase: seeds a worklist with every rooted cell, then marks
    /// cells until the worklist is empty, following the references each
    /// marked cell's payload reports.  Afterwards a cell is marked exactly
    /// when it is reachable.
    #[verifier::rlimit(100)]
    #[verifier::spinoff_prover]
    fn mark_phase(&mut self)
        requires
            ids_sorted(old(self).nodes_seq()),
            all_unmarked(old(self).nodes_seq()),
        ensures
            final(self).nodes_seq().len() == old(self).nodes_seq().len(),
            forall|i: int|
                0 <= i < old(self).nodes_seq().len() ==> (#[trigger] final(self).nodes_seq()[i])
                    == (if reachable(old(self).nodes_seq(), old(self).nodes_seq()[i].id) {
                    mark_node(old(self).nodes_seq()[i])
                } else {
                    old(self).nodes_seq()[i]
                }),
            final(self).spec_next_id() == old(self).spec_next_id(),
            final(self).spec_last_gc() == old(self).spec_last_gc(),
            final(self).spec_gc_duration() == old(self).spec_gc_duration(),
    {
        let ghost g = self.nodes@;
        let n = self.nodes.len();
        let mut pending: Vec<u64> = Vec::new();
        let mut i: usize = 0;
        while i < n
            invariant
                i <= n,
                n == g.len(),
                self.nodes@ == g,
                ids_sorted(g),
                self.spec_next_id() == old(self).spec_next_id(),
                self.spec_last_gc() == old(self).spec_last_gc(),
                self.spec_gc_duration() == old(self).spec_gc_duration(),
                forall|k: int| 0 <= k < pending@.len() ==> reachable(g, #[trigger] pending@[k]),
                forall|j: int|
                    0 <= j < i ==> ((#[trigger] g[j]).data.roots() > 0 ==> pending@.contains(
                        g[j].id,
                    )),
            decreases n - i,
        {
            if self.nodes[i].data.is_root() {
                proof {
                    lemma_node_at_index(g, i as int);
                    lemma_rooted_reachable(g, g[i as int].id);
                }
                let ghost before = pending@;
                pending.push(self.nodes[i].id);
                proof {
                    assert(pending@[before.len() as int] == g[i as int].id);
                    assert forall|j: int|
                        0 <= j < i + 1 && (#[trigger] g[j]).data.roots() > 0 implies pending@.contains(
                        g[j].id,
                    ) by {
                        if j < i {
                            lemma_push_contains(before, g[i as int].id, g[j].id);
                        } else {
                            assert(pending@[before.len() as int] == g[j].id);
                        }
                    }
                }
            }
            i = i + 1;
        }
        while pending.len() > 0
            invariant
                n == g.len(),
                self.nodes@.len() == n,
                ids_sorted(g),
                all_unmarked(g),
                self.spec_next_id() == old(self).spec_next_id(),
                self.spec_last_gc() == old(self).spec_last_gc(),
                self.spec_gc_duration() == old(self).spec_gc_duration(),
                forall|j: int|
                    0 <= j < n ==> (#[trigger] self.nodes@[j]) == g[j] || self.nodes@[j]
                        == mark_node(g[j]),
                forall|j: int| 0 <= j < n ==> (#[trigger] self.nodes@[j]).id == g[j].id,
                ids_sorted(self.nodes@),
                forall|j: int|
                    0 <= j < n ==> ((#[trigger] self.nodes@[j]).data.marked() ==> reachable(
                        g,
                        g[j].id,
                    )),
                forall|k: int|
                    0 <= k < pending@.len() ==> reachable(g, #[trigger] pending@[k]) || !has_id(
                        g,
                        pending@[k],
                    ),
                forall|j: int|
                    0 <= j < n ==> ((#[trigger] g[j]).data.roots() > 0 ==> self.nodes@[j].data.marked()
                        || pending@.contains(g[j].id)),
                forall|j: int, c: u64|
                    #![trigger g[j].val.children().contains(c), self.nodes@[j]]
                    0 <= j < n && self.nodes@[j].data.marked() && g[j].val.children().contains(c)
                        ==> marked_id(self.nodes@, c) || pending@.contains(c) || !has_id(g, c),
            decreases unmarked_count(self.nodes@), pending@.len(),
        {
            let ghost pend0 = pending@;
            let ghost nodes0 = self.nodes@;
            let id_opt = pending.pop();
            let id = id_opt.unwrap();
            proof {
                assert(id == pend0.last());
                assert(pending@ =~= pend0.drop_last());
            }
            let found = self.find(id);
            match found {
                Some(k) => {
                    proof {
                        lemma_node_at_index(g, k as int);
                        lemma_node_at_index(nodes0, k as int);
                        assert(g[k as int].id == id);
                        assert(has_id(g, id));
                    }
                    if !self.nodes[k].data.is_marked() {
                        proof {
                            assert(nodes0[k as int] == g[k as int]) by {
                                lemma_with_mark_facts(g[k as int].data);
                            }
                        }
                        self.nodes[k].data.mark();
                        proof {
                            assert(self.nodes@ =~= nodes0.update(k as int, mark_node(g[k as int])));
                            lemma_unmarked_count_update(
                                nodes0,
                                k as int,
                                mark_node(g[k as int]),
                            );
                            lemma_with_mark_facts(g[k as int].data);
                            assert(reachable(g, id));
                        }
                        let cs = self.nodes[k].val.trace();
                        proof {
                            assert(cs@ == g[k as int].val.children());
                        }
                        let ghost pend1 = pending@;
                        push_all(&mut pending, &cs);
                        proof {
                            lemma_mark_step(g, nodes0, self.nodes@, pend0, pending@, cs@, k as int, id);
                        }
                    } else {
                        proof {
                            lemma_node_at_index(self.nodes@, k as int);
                            assert(marked_id(self.nodes@, id));
                            assert forall|j: int|
                                0 <= j < n && (#[trigger] g[j]).data.roots() > 0 implies self.nodes@[j].data.marked()
                                || pending@.contains(g[j].id) by {
                                if !self.nodes@[j].data.marked() && pend0.contains(g[j].id) {
                                    lemma_contains_drop_last(pend0, g[j].id);
                                    if !pend0.drop_last().contains(g[j].id) {
                                        assert(g[j].id == id);
                                        assert(j == k as int);
                                    }
                                }
                            }
                            assert forall|j: int, c: u64|
                                #![trigger g[j].val.children().contains(c), self.nodes@[j]]
                                0 <= j < n && self.nodes@[j].data.marked()
                                    && g[j].val.children().contains(c) implies marked_id(
                                self.nodes@,
                                c,
                            ) || pending@.contains(c) || !has_id(g, c) by {
                                if !marked_id(self.nodes@, c) && pend0.contains(c) {
                                    lemma_contains_drop_last(pend0, c);
                                    if !pend0.drop_last().contains(c) {
                                        assert(c == id);
                                    }
                                }
                            }
                        }
                    }
                },
                None => {
                    proof {
                        assert(!has_id(self.nodes@, id));
                        assert forall|j: int| 0 <= j < n implies (#[trigger] g[j]).id != id by {
                            if g[j].id == id {
                                assert(self.nodes@[j].id == id);
                                assert(has_id(self.nodes@, id));
                            }
                        }
                        assert(!has_id(g, id));
                        assert forall|j: int|
                            0 <= j < n && (#[trigger] g[j]).data.roots() > 0 implies self.nodes@[j].data.marked()
                            || pending@.contains(g[j].id) by {
                            if !self.nodes@[j].data.marked() && pend0.contains(g[j].id) {
                                lemma_contains_drop_last(pend0, g[j].id);
                                assert(g[j].id != id);
                            }
                        }
                        assert forall|j: int, c: u64|
                            #![trigger g[j].val.children().contains(c), self.nodes@[j]]
                            0 <= j < n && self.nodes@[j].data.marked() && g[j].val.children().contains(
                                c,
                            ) implies marked_id(self.nodes@, c) || pending@.contains(c) || !has_id(
                            g,
                            c,
                        ) by {
                            if !marked_id(self.nodes@, c) && pend0.contains(c) {
                                lemma_contains_drop_last(pend0, c);
                                if !pend0.drop_last().contains(c) {
                                    assert(c == id);
                                }
                            }
                        }
                    }
                },
            }
        }
        proof {
            let m = self.nodes@;
            assert forall|i: int|
                0 <= i < n implies (#[trigger] m[i]) == (if reachable(g, g[i].id) {
                mark_node(g[i])
            } else {
                g[i]
            }) by {
                lemma_with_mark_facts(g[i].data);
                if reachable(g, g[i].id) {
                    let p = choose|p: Seq<u64>| #[trigger] is_path(g, p) && p.last() == g[i].id;
                    lemma_path_marked(g, m, p);
                    lemma_node_at_index(m, i);
                    assert(node_at(m, g[i].id) == m[i]);
                    assert(m[i].data.marked());
                } else {
                    if m[i].data.marked() {
                        assert(reachable(g, g[i].id));
                    }
                }
            }
        }
    }
}

/// After a mark phase over an unmarked heap, sweeping the marked cells
/// keeps exactly the reachable cells, each restored to its unmarked word.
proof fn lemma_swept_is_live<T: Trace>(g: Seq<GcNode<T>>, m: Seq<GcNode<T>>, i: int)
    requires
        0 <= i <= g.len(),
        m.len() == g.len(),
        all_unmarked(g),
        forall|j: int|
            0 <= j < g.len() ==> (#[trigger] m[j]) == (if reachable(g, g[j].id) {
                mark_node(g[j])
            } else {
                g[j]
            }),
    ensures
        swept(m.skip(i)) == live_nodes(g, g.skip(i)),
    decreases g.len() - i,
{
    if i < g.len() {
        lemma_swept_is_live(g, m, i + 1);
        assert(m.skip(i).drop_first() =~= m.skip(i + 1));
        assert(g.skip(i).drop_first() =~= g.skip(i + 1));
        assert(m.skip(i)[0] == m[i]);
        assert(g.skip(i)[0] == g[i]);
        lemma_with_mark_facts(g[i].data);
        if reachable(g, g[i].id) {
            lemma_unmark_of_mark(g[i].data);
            assert(unmark_node(mark_node(g[i])) == g[i]);
        }
    } else {
        assert(m.skip(i) =~= Seq::<GcNode<T>>::empty());
        assert(g.skip(i) =~= Seq::<GcNode<T>>::empty());
    }
}

impl<T: Trace> GcState<T> {
    /// The sweep phase: unlinks and destroys every unmarked cell and clears
    /// the mark of every cell it keeps, preserving their order.
    fn sweep_phase(&mut self)
        ensures
            final(self).nodes_seq() == swept(old(self).nodes_seq()),
            final(self).spec_next_id() == old(self).spec_next_id(),
            final(self).spec_last_gc() == old(self).spec_last_gc(),
            final(self).spec_gc_duration() == old(self).spec_gc_duration(),
    {
        let ghost g = self.nodes@;
        let ghost n = g.len();
        let mut rev: Vec<GcNode<T>> = Vec::new();
        while self.nodes.len() > 0
            invariant
                self.nodes@.len() <= n,
                n == g.len(),
                self.nodes@ == g.take(self.nodes@.len() as int),
                rev@.reverse() == swept(g.skip(self.nodes@.len() as int)),
                self.spec_next_id() == old(self).spec_next_id(),
                self.spec_last_gc() == old(self).spec_last_gc(),
                self.spec_gc_duration() == old(self).spec_gc_duration(),
            decreases self.nodes@.len(),
        {
            let ghost r = self.nodes@.len() - 1;
            proof {
                assert(g.take(r + 1).drop_last() =~= g.take(r));
                assert(g.take(r + 1).last() == g[r]);
            }
            let nd_opt = self.nodes.pop();
            let mut nd = nd_opt.unwrap();
            let ghost rev0 = rev@;
            let marked = nd.data.is_marked();
            if marked {
                nd.data.unmark();
                rev.push(nd);
            }
            proof {
                let s = g.skip(r);
                assert(s[0] == g[r]);
                assert(s.drop_first() =~= g.skip(r + 1));
                if marked {
                    assert(nd == unmark_node(g[r]));
                    assert(rev@ == rev0.push(nd));
                    assert(rev@.reverse() =~= seq![nd] + rev0.reverse());
                    assert(swept(s) == seq![unmark_node(g[r])] + swept(g.skip(r + 1)));
                } else {
                    assert(swept(s) == swept(g.skip(r + 1)));
                }
            }
        }
        proof {
            assert(g.skip(0) =~= g);
            assert(rev@.reverse() == swept(g));
        }
        let ghost target = swept(g);
        while rev.len() > 0
            invariant
                self.nodes@ + rev@.reverse() =~= target,
                self.spec_next_id() == old(self).spec_next_id(),
                self.spec_last_gc() == old(self).spec_last_gc(),
                self.spec_gc_duration() == old(self).spec_gc_duration(),
            decreases rev@.len(),
        {
            let ghost rev0 = rev@;
            let ghost nodes0 = self.nodes@;
            let x_opt = rev.pop();
            let x = x_opt.unwrap();
            self.nodes.push(x);
            proof {
                assert(rev@ =~= rev0.drop_last());
                assert(rev@.reverse() =~= rev0.reverse().drop_first());
                assert(rev0.reverse()[0] == x);
                assert(self.nodes@ + rev@.reverse() =~= nodes0 + rev0.reverse());
            }
        }
        proof {
            assert(rev@.reverse() =~= Seq::<GcNode<T>>::empty());
            assert(self.nodes@ =~= target);
        }
    }

    /// Runs a full sweep: marks every cell reachable from a rooted cell,
    /// then unlinks and destroys all the others.  Exactly the reachable
    /// cells survive, unchanged and in order.
    pub fn collect_garbage(&mut self)
        requires
            old(self).wf(),
        ensures
            final(self).wf(),
            final(self).nodes_seq() == live_nodes(old(self).nodes_seq(), old(self).nodes_seq()),
            final(self).spec_next_id() == old(self).spec_next_id(),
            final(self).spec_last_gc() == old(self).spec_last_gc(),
            final(self).spec_gc_duration() == old(self).spec_gc_duration(),
    {
        let ghost g = self.nodes@;
        self.mark_phase();
        let ghost m = self.nodes@;
        self.sweep_phase();
        proof {
            lemma_swept_is_live(g, m, 0);
            assert(m.skip(0) =~= m);
            assert(g.skip(0) =~= g);
            assert(self.nodes@ == live_nodes(g, g));
            lemma_live_sorted(g, g);
            lemma_live_elements(g, g);
            let l = live_nodes(g, g);
            assert forall|i: int| 0 <= i < l.len() implies {
                &&& (#[trigger] l[i]).val.rooted_children() == Seq::<u64>::empty()
                &&& !l[i].data.marked()
                &&& l[i].id < old(self).spec_next_id()
            } by {
                assert(l.contains(l[i]));
                let j = choose|j: int| 0 <= j < g.len() && g[j] == l[i];
            }
        }
    }

    /// Whether a collector whose last sweep finished at `last` is due for a
    /// sweep at the clock reading `now`, under the interval `duration`: at
    /// least the interval has passed, and the clock has not run backwards.
    pub open spec fn sweep_due(last: u64, duration: u64, now: u64) -> bool {
        now >= last && now - last >= duration
    }

    /// The collection trigger at a given clock reading: when at least the
    /// configured interval has passed since the last sweep, runs a sweep and
    /// moves the sweep clock to `now`; otherwise does nothing at all.
    pub fn try_collect_at(&mut self, now: u64)
        requires
            old(self).wf(),
        ensures
            final(self).wf(),
            final(self).spec_next_id() == old(self).spec_next_id(),
            final(self).spec_gc_duration() == old(self).spec_gc_duration(),
            if GcState::<T>::sweep_due(
                old(self).spec_last_gc(),
                old(self).spec_gc_duration(),
                now,
            ) {
                final(self).nodes_seq() == live_nodes(
                    old(self).nodes_seq(),
                    old(self).nodes_seq(),
                ) && final(self).spec_last_gc() == now
            } else {
                *final(self) == *old(self)
            },
    {
        if now >= self.last_gc && now - self.last_gc >= self.gc_duration {
            self.last_gc = now;
            self.collect_garbage();
        }
    }

    /// The collection trigger on the allocation path: reads the clock and,
    /// when at least the configured interval has passed since the last
    /// sweep, runs a sweep and moves the clock forward.  Two sweeps
    /// triggered here always lie at least the configured interval apart on
    /// the collector's clock.  What is done for each clock reading is pinned
    /// by [`GcState::try_collect_at`]; this wrapper only supplies the
    /// reading.
    pub fn try_collect_garbage(&mut self)
        requires
            old(self).wf(),
        ensures
            final(self).wf(),
            final(self).spec_next_id() == old(self).spec_next_id(),
            final(self).spec_gc_duration() == old(self).spec_gc_duration(),
            (final(self).nodes_seq() == old(self).nodes_seq() && final(self).spec_last_gc() == old(self).spec_last_gc()) || (final(self).nodes_seq() == live_nodes(
                old(self).nodes_seq(),
                old(self).nodes_seq(),
            ) && final(self).spec_last_gc() >= old(self).spec_last_gc()
                + old(self).spec_gc_duration()),
    {
        let now = now_millis();
        self.try_collect_at(now);
    }
}

/// Relies on std::time::SystemTime::now and its distance from the epoch:
/// the wall clock as whole milliseconds.  Nothing is promised of the value.
#[verifier::external_body]
pub(crate) fn now_millis() -> u64 {
    match std::time::SystemTime::now().duration_since(std::time::UNIX_EPOCH) {
        Ok(d) => d.as_millis() as u64,
        Err(_) => 0,
    }
}

} // verus!
