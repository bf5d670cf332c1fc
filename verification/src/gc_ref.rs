//! Borrow receipts for the id-tagged slot.
//!
//! [`GcObj::borrow`] and [`GcObj::borrow_mut`] record the borrow in the
//! slot's ledger and hand out one of these receipts naming the borrowed
//! slot.  Whoever returns the borrow — through `remove_shared` or
//! `remove_taken` — gives the receipt up with it.
//!
//! [`GcObj::borrow`]: crate::gc_obj::GcObj::borrow
//! [`GcObj::borrow_mut`]: crate::gc_obj::GcObj::borrow_mut

use vstd::prelude::*;

verus! {

/// The receipt of one shared borrow of a slot.
pub struct GcRef {
    id: usize,
}

/// The receipt of the exclusive borrow of a slot.
pub struct GcRefMut {
    id: usize,
}

impl GcRef {
    /// The id of the borrowed slot.
    pub closed spec fn spec_id(self) -> usize {
        self.id
    }

    /// A receipt naming the slot with id `id`.
    pub fn new(id: usize) -> (r: GcRef)
        ensures
            r.spec_id() == id,
    {
        GcRef { id }
    }

    /// The id of the borrowed slot.
    pub fn id(&self) -> (r: usize)
        ensures
            r == self.spec_id(),
    {
        self.id
    }
}

impl GcRefMut {
    /// The id of the borrowed slot.
    pub closed spec fn spec_id(self) -> usize {
        self.id
    }

    /// A receipt naming the slot with id `id`.
    pub fn new(id: usize) -> (r: GcRefMut)
        ensures
            r.spec_id() == id,
    {
        GcRefMut { id }
    }

    /// The id of the borrowed slot.
    pub fn id(&self) -> (r: usize)
        ensures
            r == self.spec_id(),
    {
        self.id
    }
}

} // verus!
