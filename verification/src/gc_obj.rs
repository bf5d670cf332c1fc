//! An id-tagged slot with an explicit borrow ledger.
//!
//! Where the collector's cells keep a single exclusive-borrow flag, this
//! slot records the full borrow state — free, shared `n` times, or taken
//! uniquely — together with a tri-state sweep mark and a reference count, so
//! a host that manages objects by id can drive the same discipline by hand.

use vstd::prelude::*;

verus! {

/// How far a sweep has processed a slot.
#[derive(Clone, Copy, Debug, PartialEq, Eq, Structural)]
pub enum MarkerFlag {
    /// Not reached yet: a sweep frees slots still carrying this mark.
    Unseen,
    /// Reached, while its children are still being visited.
    ChildrenNotSeen,
    /// Reached, children and all.
    Seen,
}

/// The borrow state of a slot.
#[derive(Clone, Copy, Debug, PartialEq, Eq, Structural)]
pub enum TakenFlag {
    /// No borrow is outstanding.
    NotTaken,
    /// The given number of shared borrows are outstanding.
    Shared(usize),
    /// One exclusive borrow is outstanding.
    Unique,
}

/// A slot's ledger: sweep mark, borrow state, and whether the storage must
/// be freed by whoever returns the last borrow.
#[derive(Clone, Copy, Debug, PartialEq, Eq, Structural)]
pub struct Flags {
    /// How far a sweep has processed the slot.
    pub marker: MarkerFlag,
    /// The borrow state.
    pub taken: TakenFlag,
    /// Whether the last returned borrow must free the storage.
    pub free: bool,
}

/// The ledger after taking one more shared borrow, if the slot admits one.
pub open spec fn after_add_shared(f: Flags) -> Option<Flags> {
    match f.taken {
        TakenFlag::NotTaken => Some(Flags { taken: TakenFlag::Shared(1), ..f }),
        TakenFlag::Shared(n) => Some(Flags { taken: TakenFlag::Shared((n + 1) as usize), ..f }),
        TakenFlag::Unique => None,
    }
}

/// The ledger after returning one shared borrow, if one is outstanding.
pub open spec fn after_remove_shared(f: Flags) -> Option<Flags> {
    match f.taken {
        TakenFlag::Shared(n) => if n == 1 {
            Some(Flags { taken: TakenFlag::NotTaken, ..f })
        } else {
            Some(Flags { taken: TakenFlag::Shared((n - 1) as usize), ..f })
        },
        _ => None,
    }
}

/// The ledger after taking the exclusive borrow, if the slot is free.
pub open spec fn after_mark_taken(f: Flags) -> Option<Flags> {
    match f.taken {
        TakenFlag::NotTaken => Some(Flags { taken: TakenFlag::Unique, ..f }),
        _ => None,
    }
}

/// The ledger after turning the only shared borrow into the exclusive one,
/// if exactly one shared borrow is outstanding.
pub open spec fn after_upgrade(f: Flags) -> Option<Flags> {
    match f.taken {
        TakenFlag::Shared(n) => if n == 1 {
            Some(Flags { taken: TakenFlag::Unique, ..f })
        } else {
            None
        },
        _ => None,
    }
}

/// The ledger after turning the exclusive borrow into one shared borrow, if
/// the exclusive borrow is outstanding.
pub open spec fn after_downgrade(f: Flags) -> Option<Flags> {
    match f.taken {
        TakenFlag::Unique => Some(Flags { taken: TakenFlag::Shared(1), ..f }),
        _ => None,
    }
}

impl Flags {
    /// Takes one more shared borrow.  Fails while the exclusive borrow is
    /// out; the count of shared borrows must have room.
    pub fn add_shared(&mut self) -> (r: Option<()>)
        requires
            old(self).taken matches TakenFlag::Shared(n) ==> n < usize::MAX,
        ensures
            match after_add_shared(*old(self)) {
                Option::Some(f) => r == Some(()) && *final(self) == f,
                Option::None => r == Option::<()>::None && *final(self) == *old(self),
            },
    {
        match self.taken {
            TakenFlag::NotTaken => {
                self.taken = TakenFlag::Shared(1);
                Some(())
            },
            TakenFlag::Shared(n) => {
                self.taken = TakenFlag::Shared(n + 1);
                Some(())
            },
            TakenFlag::Unique => None,
        }
    }

    /// Returns one shared borrow.  Fails unless a shared borrow is out.
    /// A shared count of zero is never constructed.
    pub fn remove_shared(&mut self) -> (r: Option<()>)
        requires
            old(self).taken matches TakenFlag::Shared(n) ==> n >= 1,
        ensures
            match after_remove_shared(*old(self)) {
                Option::Some(f) => r == Some(()) && *final(self) == f,
                Option::None => r == Option::<()>::None && *final(self) == *old(self),
            },
    {
        match self.taken {
            TakenFlag::Shared(n) => {
                if n == 1 {
                    self.taken = TakenFlag::NotTaken;
                } else {
                    self.taken = TakenFlag::Shared(n - 1);
                }
                Some(())
            },
            _ => None,
        }
    }

    /// Marks the slot fully processed by the sweep.
    pub fn mark_seen(&mut self)
        ensures
            *final(self) == (Flags { marker: MarkerFlag::Seen, ..*old(self) }),
    {
        self.marker = MarkerFlag::Seen;
    }

    /// Clears the borrow state unconditionally.
    pub fn remove_taken(&mut self)
        ensures
            *final(self) == (Flags { taken: TakenFlag::NotTaken, ..*old(self) }),
    {
        self.taken = TakenFlag::NotTaken;
    }

    /// Takes the exclusive borrow.  Fails unless the slot is free.
    pub fn mark_taken(&mut self) -> (r: Option<()>)
        ensures
            match after_mark_taken(*old(self)) {
                Option::Some(f) => r == Some(()) && *final(self) == f,
                Option::None => r == Option::<()>::None && *final(self) == *old(self),
            },
    {
        if self.taken == TakenFlag::NotTaken {
            self.taken = TakenFlag::Unique;
            Some(())
        } else {
            None
        }
    }

    /// Marks the slot reached while its children are still being visited.
    pub fn mark_children_not_seen(&mut self)
        ensures
            *final(self) == (Flags { marker: MarkerFlag::ChildrenNotSeen, ..*old(self) }),
    {
        self.marker = MarkerFlag::ChildrenNotSeen;
    }

    /// Turns the only shared borrow into the exclusive one.  Fails unless
    /// exactly one shared borrow is out.
    pub fn upgrade(&mut self) -> (r: Option<()>)
        ensures
            match after_upgrade(*old(self)) {
                Option::Some(f) => r == Some(()) && *final(self) == f,
                Option::None => r == Option::<()>::None && *final(self) == *old(self),
            },
    {
        match self.taken {
            TakenFlag::Shared(n) => {
                if n == 1 {
                    self.taken = TakenFlag::Unique;
                    Some(())
                } else {
                    None
                }
            },
            _ => None,
        }
    }

    /// Turns the exclusive borrow into one shared borrow.  Fails unless the
    /// exclusive borrow is out.
    pub fn downgrade(&mut self) -> (r: Option<()>)
        ensures
            match after_downgrade(*old(self)) {
                Option::Some(f) => r == Some(()) && *final(self) == f,
                Option::None => r == Option::<()>::None && *final(self) == *old(self),
            },
    {
        match self.taken {
            TakenFlag::Unique => {
                self.taken = TakenFlag::Shared(1);
                Some(())
            },
            _ => None,
        }
    }
}

/// An id-tagged slot: the ledger, a reference count, and the owned data.
pub struct GcObj<T> {
    id: usize,
    flags: Flags,
    refs: usize,
    data: T,
}

impl<T> GcObj<T> {
    /// The id under which a registry lists this slot.
    pub closed spec fn spec_id(self) -> usize {
        self.id
    }

    /// The id under which a registry lists this slot.
    pub fn id(&self) -> (r: usize)
        ensures
            r == self.spec_id(),
    {
        self.id
    }

    /// The slot's ledger.
    pub closed spec fn spec_flags(self) -> Flags {
        self.flags
    }

    /// The slot's reference count.
    pub closed spec fn spec_refs(self) -> usize {
        self.refs
    }

    /// The data the slot owns.
    pub closed spec fn spec_data(self) -> T {
        self.data
    }

    /// Assembles a slot from its parts.
    pub fn new_data(id: usize, flags: Flags, refs: usize, data: T) -> (obj: GcObj<T>)
        ensures
            obj.spec_id() == id,
            obj.spec_flags() == flags,
            obj.spec_refs() == refs,
            obj.spec_data() == data,
    {
        GcObj { id, flags, refs, data }
    }

    /// Reads the ledger.
    pub fn get_flags(&self) -> (r: Flags)
        ensures
            r == self.spec_flags(),
    {
        self.flags
    }

    /// Reads the reference count.
    pub fn get_refs(&self) -> (r: usize)
        ensures
            r == self.spec_refs(),
    {
        self.refs
    }

    /// A shared reference to the owned data.
    pub fn get_ptr(&self) -> (r: &T)
        ensures
            *r == self.spec_data(),
    {
        &self.data
    }

    /// Takes one more shared borrow of the slot.
    pub fn add_shared(&mut self) -> (r: Option<()>)
        requires
            old(self).spec_flags().taken matches TakenFlag::Shared(n) ==> n < usize::MAX,
        ensures
            final(self).spec_id() == old(self).spec_id(),
            final(self).spec_refs() == old(self).spec_refs(),
            final(self).spec_data() == old(self).spec_data(),
            match after_add_shared(old(self).spec_flags()) {
                Option::Some(f) => r == Some(()) && final(self).spec_flags() == f,
                Option::None => r == Option::<()>::None && final(self).spec_flags() == old(
                    self,
                ).spec_flags(),
            },
    {
        self.flags.add_shared()
    }

    /// Returns one shared borrow of the slot.  A shared count of zero is
    /// never constructed.
    pub fn remove_shared(&mut self) -> (r: Option<()>)
        requires
            old(self).spec_flags().taken matches TakenFlag::Shared(n) ==> n >= 1,
        ensures
            final(self).spec_id() == old(self).spec_id(),
            final(self).spec_refs() == old(self).spec_refs(),
            final(self).spec_data() == old(self).spec_data(),
            match after_remove_shared(old(self).spec_flags()) {
                Option::Some(f) => r == Some(()) && final(self).spec_flags() == f,
                Option::None => r == Option::<()>::None && final(self).spec_flags() == old(
                    self,
                ).spec_flags(),
            },
    {
        self.flags.remove_shared()
    }

    /// Marks the slot fully processed by the sweep.
    pub fn mark_seen(&mut self)
        ensures
            final(self).spec_id() == old(self).spec_id(),
            final(self).spec_refs() == old(self).spec_refs(),
            final(self).spec_data() == old(self).spec_data(),
            final(self).spec_flags() == (Flags {
                marker: MarkerFlag::Seen,
                ..old(self).spec_flags()
            }),
    {
        self.flags.mark_seen()
    }

    /// Clears the slot's borrow state unconditionally.
    pub fn remove_taken(&mut self)
        ensures
            final(self).spec_id() == old(self).spec_id(),
            final(self).spec_refs() == old(self).spec_refs(),
            final(self).spec_data() == old(self).spec_data(),
            final(self).spec_flags() == (Flags {
                taken: TakenFlag::NotTaken,
                ..old(self).spec_flags()
            }),
    {
        self.flags.remove_taken()
    }

    /// Takes the exclusive borrow of the slot.
    pub fn mark_taken(&mut self) -> (r: Option<()>)
        ensures
            final(self).spec_id() == old(self).spec_id(),
            final(self).spec_refs() == old(self).spec_refs(),
            final(self).spec_data() == old(self).spec_data(),
            match after_mark_taken(old(self).spec_flags()) {
                Option::Some(f) => r == Some(()) && final(self).spec_flags() == f,
                Option::None => r == Option::<()>::None && final(self).spec_flags() == old(
                    self,
                ).spec_flags(),
            },
    {
        self.flags.mark_taken()
    }

    /// Marks the slot not reached, the state a sweep frees.
    pub fn mark_unseen(&mut self)
        ensures
            final(self).spec_id() == old(self).spec_id(),
            final(self).spec_refs() == old(self).spec_refs(),
            final(self).spec_data() == old(self).spec_data(),
            final(self).spec_flags() == (Flags {
                marker: MarkerFlag::Unseen,
                ..old(self).spec_flags()
            }),
    {
        self.flags.marker = MarkerFlag::Unseen;
    }

    /// Marks the slot reached while its children are still being visited.
    pub fn mark_children_not_seen(&mut self)
        ensures
            final(self).spec_id() == old(self).spec_id(),
            final(self).spec_refs() == old(self).spec_refs(),
            final(self).spec_data() == old(self).spec_data(),
            final(self).spec_flags() == (Flags {
                marker: MarkerFlag::ChildrenNotSeen,
                ..old(self).spec_flags()
            }),
    {
        self.flags.mark_children_not_seen()
    }

    /// Takes a shared borrow and hands out its receipt.
    pub fn borrow(&mut self) -> (r: Option<crate::gc_ref::GcRef>)
        requires
            old(self).spec_flags().taken matches TakenFlag::Shared(n) ==> n < usize::MAX,
        ensures
            final(self).spec_id() == old(self).spec_id(),
            final(self).spec_refs() == old(self).spec_refs(),
            final(self).spec_data() == old(self).spec_data(),
            match after_add_shared(old(self).spec_flags()) {
                Option::Some(f) => final(self).spec_flags() == f && (r matches Option::Some(t)
                    && t.spec_id() == old(self).spec_id()),
                Option::None => r matches Option::None && final(self).spec_flags() == old(
                    self,
                ).spec_flags(),
            },
    {
        let taken = self.add_shared();
        match taken {
            Some(()) => Some(crate::gc_ref::GcRef::new(self.id)),
            None => None,
        }
    }

    /// Turns the only shared borrow of the slot into the exclusive one,
    /// trading the receipt.
    pub fn upgrade(&mut self) -> (r: Option<crate::gc_ref::GcRefMut>)
        ensures
            final(self).spec_id() == old(self).spec_id(),
            final(self).spec_refs() == old(self).spec_refs(),
            final(self).spec_data() == old(self).spec_data(),
            match after_upgrade(old(self).spec_flags()) {
                Option::Some(f) => final(self).spec_flags() == f && (r matches Option::Some(t)
                    && t.spec_id() == old(self).spec_id()),
                Option::None => r matches Option::None && final(self).spec_flags() == old(
                    self,
                ).spec_flags(),
            },
    {
        let traded = self.flags.upgrade();
        match traded {
            Some(()) => Some(crate::gc_ref::GcRefMut::new(self.id)),
            None => None,
        }
    }

    /// Turns the exclusive borrow of the slot into one shared borrow,
    /// trading the receipt.
    pub fn downgrade(&mut self) -> (r: Option<crate::gc_ref::GcRef>)
        ensures
            final(self).spec_id() == old(self).spec_id(),
            final(self).spec_refs() == old(self).spec_refs(),
            final(self).spec_data() == old(self).spec_data(),
            match after_downgrade(old(self).spec_flags()) {
                Option::Some(f) => final(self).spec_flags() == f && (r matches Option::Some(t)
                    && t.spec_id() == old(self).spec_id()),
                Option::None => r matches Option::None && final(self).spec_flags() == old(
                    self,
                ).spec_flags(),
            },
    {
        let traded = self.flags.downgrade();
        match traded {
            Some(()) => Some(crate::gc_ref::GcRef::new(self.id)),
            None => None,
        }
    }

    /// Takes the exclusive borrow and hands out its receipt.
    pub fn borrow_mut(&mut self) -> (r: Option<crate::gc_ref::GcRefMut>)
        ensures
            final(self).spec_id() == old(self).spec_id(),
            final(self).spec_refs() == old(self).spec_refs(),
            final(self).spec_data() == old(self).spec_data(),
            match after_mark_taken(old(self).spec_flags()) {
                Option::Some(f) => final(self).spec_flags() == f && (r matches Option::Some(t)
                    && t.spec_id() == old(self).spec_id()),
                Option::None => r matches Option::None && final(self).spec_flags() == old(
                    self,
                ).spec_flags(),
            },
    {
        let taken = self.mark_taken();
        match taken {
            Some(()) => Some(crate::gc_ref::GcRefMut::new(self.id)),
            None => None,
        }
    }
}

} // verus!
