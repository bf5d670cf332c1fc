//! Collector-wide guarantees, stated and proved over the collector's model.
//!
//! A sweep's contract says that exactly the cells reachable from a rooted
//! cell survive.  The proofs here spell out what that buys a user of the
//! library: a cell kept alive by a rooted handle is never freed, everything
//! such a cell references stays allocated, and a knot of cells that only
//! non-rooted handles still point at is freed in its entirety, however
//! cyclic it is.

use vstd::prelude::*;

use crate::accounting::lemma_count_at_least_one;
use crate::accounting::root_accounting;
use crate::gc_state::GcNode;
use crate::gc_state::edge;
use crate::gc_state::has_id;
use crate::gc_state::idx_of;
use crate::gc_state::is_path;
use crate::gc_state::ids_sorted;
use crate::gc_state::lemma_live_drops;
use crate::gc_state::lemma_live_keeps;
use crate::gc_state::lemma_node_at_index;
use crate::gc_state::lemma_rooted_reachable;
use crate::gc_state::live_nodes;
use crate::gc_state::node_at;
use crate::gc_state::reachable;
use crate::gc_state::rooted;
use crate::traits::Trace;

verus! {

/// Whether `p` is a chain of references through listed cells, regardless of
/// where it starts.
pub open spec fn linked<T: Trace>(s: Seq<GcNode<T>>, p: Seq<u64>) -> bool {
    &&& p.len() > 0
    &&& has_id(s, p[0])
    &&& forall|k: int| 0 <= k < p.len() - 1 ==> #[trigger] edge(s, p[k], p[k + 1])
}

/// Whether the cell with id `id` can be reached from the cell with id `a`
/// by following references.
pub open spec fn reach_from<T: Trace>(s: Seq<GcNode<T>>, a: u64, id: u64) -> bool {
    exists|p: Seq<u64>| #[trigger] linked(s, p) && p[0] == a && p.last() == id
}

/// No premature free: a cell that carries a root — as the cell of any handle
/// whose local root flag is set does, by root accounting — survives a sweep
/// unchanged.
pub proof fn lemma_rooted_survives_sweep<T: Trace>(g: Seq<GcNode<T>>, id: u64)
    requires
        rooted(g, id),
    ensures
        live_nodes(g, g).contains(node_at(g, id)),
{
    lemma_rooted_reachable(g, id);
    let i = idx_of(g, id);
    assert(0 <= i < g.len() && g[i].id == id);
    lemma_live_keeps(g, g, i);
}

/// Reachability preservation: after a sweep, every cell reachable — through
/// any chain of references — from the cell of a still-live rooted handle
/// remains allocated.
pub proof fn lemma_reachable_survives_sweep<T: Trace>(g: Seq<GcNode<T>>, a: u64, id: u64)
    requires
        rooted(g, a),
        reach_from(g, a, id),
    ensures
        reachable(g, id),
        has_id(live_nodes(g, g), id),
{
    let p = choose|p: Seq<u64>| #[trigger] linked(g, p) && p[0] == a && p.last() == id;
    assert(is_path(g, p));
    assert(reachable(g, id));
    if p.len() == 1 {
        assert(has_id(g, id));
    } else {
        let k = p.len() - 2;
        assert(edge(g, p[k], p[k + 1]));
        assert(p[k + 1] == id);
        assert(has_id(g, id));
    }
    let i = idx_of(g, id);
    assert(0 <= i < g.len() && g[i].id == id);
    lemma_live_keeps(g, g, i);
    let l = live_nodes(g, g);
    let j = choose|j: int| 0 <= j < l.len() && l[j] == g[i];
    assert(l[j].id == id);
}

/// Every chain of references that ends inside a predecessor-closed set of
/// cells starts inside it.
proof fn lemma_path_into_closed<T: Trace>(g: Seq<GcNode<T>>, c: Set<u64>, p: Seq<u64>)
    requires
        forall|a: u64, b: u64| #[trigger] edge(g, a, b) && c.contains(b) ==> c.contains(a),
        is_path(g, p),
        c.contains(p.last()),
    ensures
        c.contains(p[0]),
    decreases p.len(),
{
    if p.len() > 1 {
        let k = p.len() - 2;
        assert(edge(g, p[k], p[k + 1]));
        assert(p[k + 1] == p.last());
        assert(c.contains(p[k]));
        let q = p.drop_last();
        assert(q[0] == p[0]);
        assert forall|t: int| 0 <= t < q.len() - 1 implies #[trigger] edge(g, q[t], q[t + 1]) by {
            assert(q[t] == p[t] && q[t + 1] == p[t + 1]);
            assert(edge(g, p[t], p[t + 1]));
        }
        assert(is_path(g, q));
        assert(q.last() == p[k]);
        lemma_path_into_closed(g, c, q);
    }
}

/// Cycle collection: a set of cells none of which carries a root, and which
/// no cell outside the set references — a strongly connected component whose
/// only external references are non-rooted handles, for example — is freed
/// in its entirety by a sweep, cycles notwithstanding.
pub proof fn lemma_isolated_knot_freed<T: Trace>(g: Seq<GcNode<T>>, c: Set<u64>, id: u64)
    requires
        c.contains(id),
        forall|x: u64| #[trigger] c.contains(x) ==> !rooted(g, x),
        forall|a: u64, b: u64| #[trigger] edge(g, a, b) && c.contains(b) ==> c.contains(a),
    ensures
        !reachable(g, id),
        !has_id(live_nodes(g, g), id),
{
    if reachable(g, id) {
        let p = choose|p: Seq<u64>| #[trigger] is_path(g, p) && p.last() == id;
        lemma_path_into_closed(g, c, p);
        assert(rooted(g, p[0]));
        assert(!rooted(g, p[0]));
    }
    lemma_live_drops(g, g, id);
}

/// The plain form of cycle collection: a cell that no rooted cell reaches is
/// freed by a sweep.
pub proof fn lemma_unreachable_freed<T: Trace>(g: Seq<GcNode<T>>, id: u64)
    requires
        !reachable(g, id),
    ensures
        !has_id(live_nodes(g, g), id),
{
    lemma_live_drops(g, g, id);
}

/// The flag premise of no premature free: under root accounting, a handle
/// whose local root flag is set roots its cell, so the cell survives any
/// sweep.  `hs` lists every live handle as the pair of its cell id and its
/// local root flag; `i` is the handle in question.
pub proof fn lemma_flagged_handle_keeps_cell<T: Trace>(
    g: Seq<GcNode<T>>,
    hs: Seq<(u64, bool)>,
    i: int,
)
    requires
        ids_sorted(g),
        root_accounting(g, hs),
        0 <= i < hs.len(),
        hs[i].1,
        has_id(g, hs[i].0),
    ensures
        rooted(g, hs[i].0),
        live_nodes(g, g).contains(node_at(g, hs[i].0)),
{
    lemma_count_at_least_one(hs, i);
    let k = idx_of(g, hs[i].0);
    assert(0 <= k < g.len() && g[k].id == hs[i].0);
    lemma_node_at_index(g, k);
    lemma_rooted_survives_sweep(g, hs[i].0);
}

/// The flag premise of reachability preservation: under root accounting,
/// every cell reachable from the cell of a flag-set handle survives a sweep.
pub proof fn lemma_flagged_handle_keeps_reachable<T: Trace>(
    g: Seq<GcNode<T>>,
    hs: Seq<(u64, bool)>,
    i: int,
    id: u64,
)
    requires
        ids_sorted(g),
        root_accounting(g, hs),
        0 <= i < hs.len(),
        hs[i].1,
        has_id(g, hs[i].0),
        reach_from(g, hs[i].0, id),
    ensures
        has_id(live_nodes(g, g), id),
{
    lemma_count_at_least_one(hs, i);
    let k = idx_of(g, hs[i].0);
    assert(0 <= k < g.len() && g[k].id == hs[i].0);
    lemma_node_at_index(g, k);
    lemma_reachable_survives_sweep(g, hs[i].0, id);
}

} // verus!
