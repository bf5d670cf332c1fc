//! Root accounting: the invariant behind the rooting dance.
//!
//! Model every live handle by the pair of the cell id it points at and its
//! local root flag.  The invariant says that each listed cell's root counter
//! equals the number of handles whose flag is set and which point at it.
//! Every way the library touches a root counter pairs the change with
//! exactly one flag change, and each pairing is proved here to preserve the
//! invariant: allocation adds a fresh cell with one root together with its
//! rooted handle and flips each handle embedded in the payload through the
//! deroot step; cloning adds a rooted handle and one root; releasing a
//! handle removes its entry and, if it was rooted, one root; rooting and
//! derooting flip one flag and move one root the same way.

use vstd::prelude::*;

use crate::gc_state::GcNode;
use crate::gc_state::MAX_ROOTS;
use crate::gc_state::dec_roots_at;
use crate::gc_state::has_id;
use crate::gc_state::idx_of;
use crate::gc_state::ids_sorted;
use crate::gc_state::inc_roots_at;
use crate::gc_state::lemma_node_at_index;
use crate::gc_state::lemma_with_add_root_facts;
use crate::gc_state::lemma_with_sub_root_facts;
use crate::gc_state::node_at;
use crate::traits::Trace;

verus! {

/// How many entries of `hs` are rooted handles pointing at the cell `id`.
pub open spec fn count_rooted(hs: Seq<(u64, bool)>, id: u64) -> nat
    decreases hs.len(),
{
    if hs.len() == 0 {
        0
    } else {
        count_rooted(hs.drop_last(), id) + if hs.last().0 == id && hs.last().1 {
            1nat
        } else {
            0nat
        }
    }
}

/// The root-accounting invariant: every listed cell's root counter equals
/// the number of rooted handles pointing at it.
pub open spec fn root_accounting<T: Trace>(s: Seq<GcNode<T>>, hs: Seq<(u64, bool)>) -> bool {
    forall|i: int|
        0 <= i < s.len() ==> (#[trigger] s[i]).data.roots() == count_rooted(hs, s[i].id)
}

/// Appending a handle raises the count of its cell by one when it is rooted
/// and changes nothing otherwise.
pub proof fn lemma_count_push(hs: Seq<(u64, bool)>, e: (u64, bool), id: u64)
    ensures
        count_rooted(hs.push(e), id) == count_rooted(hs, id) + if e.0 == id && e.1 {
            1nat
        } else {
            0nat
        },
{
    assert(hs.push(e).drop_last() =~= hs);
    assert(hs.push(e).last() == e);
}

/// Replacing one handle entry adjusts each cell's count by what the old
/// entry contributed and what the new one contributes.
pub proof fn lemma_count_update(hs: Seq<(u64, bool)>, i: int, e: (u64, bool), id: u64)
    requires
        0 <= i < hs.len(),
    ensures
        count_rooted(hs.update(i, e), id) + (if hs[i].0 == id && hs[i].1 {
            1nat
        } else {
            0nat
        }) == count_rooted(hs, id) + (if e.0 == id && e.1 {
            1nat
        } else {
            0nat
        }),
    decreases hs.len(),
{
    let hs2 = hs.update(i, e);
    if i == hs.len() - 1 {
        assert(hs2.drop_last() =~= hs.drop_last());
        assert(hs2.last() == e);
    } else {
        assert(hs2.drop_last() =~= hs.drop_last().update(i, e));
        assert(hs2.last() == hs.last());
        lemma_count_update(hs.drop_last(), i, e, id);
    }
}

/// Removing one handle entry lowers the count of its cell by what it
/// contributed and leaves every other cell's count alone.
pub proof fn lemma_count_remove(hs: Seq<(u64, bool)>, i: int, id: u64)
    requires
        0 <= i < hs.len(),
    ensures
        count_rooted(hs.remove(i), id) + (if hs[i].0 == id && hs[i].1 {
            1nat
        } else {
            0nat
        }) == count_rooted(hs, id),
    decreases hs.len(),
{
    let hs2 = hs.remove(i);
    if i == hs.len() - 1 {
        assert(hs2 =~= hs.drop_last());
    } else {
        assert(hs2.drop_last() =~= hs.drop_last().remove(i));
        assert(hs2.last() == hs.last());
        lemma_count_remove(hs.drop_last(), i, id);
    }
}

/// A rooted entry makes its cell's count at least one.
pub proof fn lemma_count_at_least_one(hs: Seq<(u64, bool)>, i: int)
    requires
        0 <= i < hs.len(),
        hs[i].1,
    ensures
        count_rooted(hs, hs[i].0) >= 1,
    decreases hs.len(),
{
    if i == hs.len() - 1 {
    } else {
        lemma_count_at_least_one(hs.drop_last(), i);
    }
}

/// Allocation preserves root accounting: a fresh cell born with one root is
/// accounted for by its freshly rooted handle.
pub proof fn lemma_accounting_allocate<T: Trace>(
    s: Seq<GcNode<T>>,
    hs: Seq<(u64, bool)>,
    nd: GcNode<T>,
)
    requires
        root_accounting(s, hs),
        count_rooted(hs, nd.id) == 0,
        !has_id(s, nd.id),
        nd.data.roots() == 1,
    ensures
        root_accounting(s.push(nd), hs.push((nd.id, true))),
{
    let s2 = s.push(nd);
    let hs2 = hs.push((nd.id, true));
    assert forall|i: int|
        0 <= i < s2.len() implies (#[trigger] s2[i]).data.roots() == count_rooted(
        hs2,
        s2[i].id,
    ) by {
        lemma_count_push(hs, (nd.id, true), s2[i].id);
        if i < s.len() {
            assert(s2[i] == s[i]);
            if s[i].id == nd.id {
                assert(has_id(s, nd.id));
            }
        } else {
            assert(s2[i] == nd);
        }
    }
}

/// Cloning a handle preserves root accounting: the clone is rooted and its
/// cell gains one root.
pub proof fn lemma_accounting_duplicate<T: Trace>(
    s: Seq<GcNode<T>>,
    hs: Seq<(u64, bool)>,
    id: u64,
)
    requires
        root_accounting(s, hs),
        ids_sorted(s),
        has_id(s, id),
        node_at(s, id).data.roots() < MAX_ROOTS,
    ensures
        root_accounting(inc_roots_at(s, id), hs.push((id, true))),
{
    let s2 = inc_roots_at(s, id);
    let hs2 = hs.push((id, true));
    let k = idx_of(s, id);
    lemma_node_at_index(s, k);
    lemma_with_add_root_facts(s[k].data);
    assert forall|i: int|
        0 <= i < s2.len() implies (#[trigger] s2[i]).data.roots() == count_rooted(
        hs2,
        s2[i].id,
    ) by {
        lemma_count_push(hs, (id, true), s[i].id);
        if i != k {
            assert(s2[i] == s[i]);
            assert(s[i].id != id) by {
                lemma_node_at_index(s, i);
            }
        }
    }
}

/// Releasing a handle preserves root accounting: a rooted handle takes one
/// root of its cell with it; a non-rooted one changes nothing.
pub proof fn lemma_accounting_release<T: Trace>(s: Seq<GcNode<T>>, hs: Seq<(u64, bool)>, i: int)
    requires
        root_accounting(s, hs),
        ids_sorted(s),
        0 <= i < hs.len(),
    ensures
        hs[i].1 ==> root_accounting(dec_roots_at(s, hs[i].0), hs.remove(i)),
        !hs[i].1 ==> root_accounting(s, hs.remove(i)),
{
    let id = hs[i].0;
    let hs2 = hs.remove(i);
    if hs[i].1 {
        let s2 = dec_roots_at(s, id);
        assert forall|j: int|
            0 <= j < s2.len() implies (#[trigger] s2[j]).data.roots() == count_rooted(
            hs2,
            s2[j].id,
        ) by {
            lemma_count_remove(hs, i, s[j].id);
            if has_id(s, id) {
                let k = idx_of(s, id);
                lemma_node_at_index(s, k);
                lemma_with_sub_root_facts(s[k].data);
                if j == k {
                    lemma_count_at_least_one(hs, i);
                } else {
                    assert(s2[j] == s[j]);
                    assert(s[j].id != id) by {
                        lemma_node_at_index(s, j);
                    }
                }
            } else {
                assert(s2[j] == s[j]);
                assert(s[j].id != id) by {
                    if s[j].id == id {
                        assert(has_id(s, id));
                    }
                }
            }
        }
    } else {
        assert forall|j: int|
            0 <= j < s.len() implies (#[trigger] s[j]).data.roots() == count_rooted(
            hs2,
            s[j].id,
        ) by {
            lemma_count_remove(hs, i, s[j].id);
        }
    }
}

/// Rooting a handle preserves root accounting: the flag goes from clear to
/// set exactly as its cell gains one root.
pub proof fn lemma_accounting_root<T: Trace>(s: Seq<GcNode<T>>, hs: Seq<(u64, bool)>, i: int)
    requires
        root_accounting(s, hs),
        ids_sorted(s),
        0 <= i < hs.len(),
        !hs[i].1,
        has_id(s, hs[i].0),
        node_at(s, hs[i].0).data.roots() < MAX_ROOTS,
    ensures
        root_accounting(inc_roots_at(s, hs[i].0), hs.update(i, (hs[i].0, true))),
{
    let id = hs[i].0;
    let s2 = inc_roots_at(s, id);
    let hs2 = hs.update(i, (id, true));
    let k = idx_of(s, id);
    lemma_node_at_index(s, k);
    lemma_with_add_root_facts(s[k].data);
    assert forall|j: int|
        0 <= j < s2.len() implies (#[trigger] s2[j]).data.roots() == count_rooted(
        hs2,
        s2[j].id,
    ) by {
        lemma_count_update(hs, i, (id, true), s[j].id);
        if j != k {
            assert(s2[j] == s[j]);
            assert(s[j].id != id) by {
                lemma_node_at_index(s, j);
            }
        }
    }
}

/// Derooting a handle preserves root accounting: the flag goes from set to
/// clear exactly as its cell loses one root.
pub proof fn lemma_accounting_deroot<T: Trace>(s: Seq<GcNode<T>>, hs: Seq<(u64, bool)>, i: int)
    requires
        root_accounting(s, hs),
        ids_sorted(s),
        0 <= i < hs.len(),
        hs[i].1,
    ensures
        root_accounting(dec_roots_at(s, hs[i].0), hs.update(i, (hs[i].0, false))),
{
    let id = hs[i].0;
    let s2 = dec_roots_at(s, id);
    let hs2 = hs.update(i, (id, false));
    assert forall|j: int|
        0 <= j < s2.len() implies (#[trigger] s2[j]).data.roots() == count_rooted(
        hs2,
        s2[j].id,
    ) by {
        lemma_count_update(hs, i, (id, false), s[j].id);
        if has_id(s, id) {
            let k = idx_of(s, id);
            lemma_node_at_index(s, k);
            lemma_with_sub_root_facts(s[k].data);
            if j == k {
                lemma_count_at_least_one(hs, i);
            } else {
                assert(s2[j] == s[j]);
                assert(s[j].id != id) by {
                    lemma_node_at_index(s, j);
                }
            }
        } else {
            assert(s2[j] == s[j]);
            assert(s[j].id != id) by {
                if s[j].id == id {
                    assert(has_id(s, id));
                }
            }
        }
    }
}

} // verus!
