//! The capability contract collectable payloads satisfy.
//!
//! Every type that can sit in a collected cell — directly or inside another
//! payload — exposes the rooting-dance protocol: it can enumerate the handles
//! it directly contains (`trace`), flip their local root flags in bulk
//! (`root_children` / `deroot_children`), and, when it is itself a handle,
//! flip its own flag (`root` / `deroot`).  The operations return the cell ids
//! whose root counters the caller must adjust, so that the collector state
//! stays in step with the flags.

use vstd::prelude::*;

verus! {

/// The rooting-dance protocol for collectable payloads.
///
/// The spec side describes a payload by the ids of the handles it directly
/// contains (`children`), split into those whose local root flag is set
/// (`rooted_children`) and the rest (`unrooted_children`), and by the
/// relation `like`, which holds of two payloads that agree on everything but
/// those flags.
pub trait Trace: Sized {
    /// The cell ids of the handles this payload directly contains, in
    /// declaration order.
    spec fn children(&self) -> Seq<u64>;

    /// The ids of the directly contained handles whose local root flag is
    /// set, in declaration order.
    spec fn rooted_children(&self) -> Seq<u64>;

    /// The ids of the directly contained handles whose local root flag is
    /// clear, in declaration order.
    spec fn unrooted_children(&self) -> Seq<u64>;

    /// Whether two payloads agree on everything except the local root flags
    /// of their directly contained handles.
    spec fn like(&self, other: &Self) -> bool;

    /// Payloads that agree up to root flags contain the same handles.
    proof fn like_children(a: &Self, b: &Self)
        requires
            a.like(b),
        ensures
            a.children() == b.children(),
    ;

    /// Every payload agrees with itself up to root flags.
    proof fn like_reflexive(x: &Self)
        ensures
            x.like(x),
    ;

    /// Enumerates the directly contained handles.
    fn trace(&self) -> (r: Vec<u64>)
        ensures
            r@ == self.children(),
    ;

    /// Sets the local root flag of every directly contained handle and
    /// returns the ids that were not rooted before, so the caller can add
    /// one root to each of those cells.
    fn root_children(&mut self) -> (r: Vec<u64>)
        ensures
            old(self).like(final(self)),
            final(self).children() == old(self).children(),
            final(self).rooted_children() == final(self).children(),
            r@ == old(self).unrooted_children(),
    ;

    /// Clears the local root flag of every directly contained handle and
    /// returns the ids that were rooted before, so the caller can subtract
    /// one root from each of those cells.
    fn deroot_children(&mut self) -> (r: Vec<u64>)
        ensures
            old(self).like(final(self)),
            final(self).children() == old(self).children(),
            final(self).rooted_children() == Seq::<u64>::empty(),
            r@ == old(self).rooted_children(),
    ;

    /// On a handle, sets its own local root flag and reports its cell id if
    /// the flag was clear; on every other payload, does nothing.
    fn root(&mut self) -> (r: Option<u64>)
        ensures
            old(self).like(final(self)),
            final(self).children() == old(self).children(),
            final(self).rooted_children() == old(self).rooted_children() + (match r {
                Option::Some(id) => seq![id],
                Option::None => Seq::<u64>::empty(),
            }),
            r matches Option::Some(id) ==> old(self).children().contains(id),
    ;

    /// On a handle, clears its own local root flag and reports its cell id
    /// if the flag was set; on every other payload, does nothing.
    fn deroot(&mut self) -> (r: Option<u64>)
        ensures
            old(self).like(final(self)),
            final(self).children() == old(self).children(),
            old(self).rooted_children() == final(self).rooted_children() + (match r {
                Option::Some(id) => seq![id],
                Option::None => Seq::<u64>::empty(),
            }),
            r matches Option::Some(id) ==> old(self).children().contains(id),
    ;
}

impl Trace for i64 {
    open spec fn children(&self) -> Seq<u64> {
        Seq::empty()
    }

    open spec fn rooted_children(&self) -> Seq<u64> {
        Seq::empty()
    }

    open spec fn unrooted_children(&self) -> Seq<u64> {
        Seq::empty()
    }

    open spec fn like(&self, other: &Self) -> bool {
        self == other
    }

    proof fn like_children(a: &Self, b: &Self) {
    }

    proof fn like_reflexive(x: &Self) {
    }

    fn trace(&self) -> (r: Vec<u64>) {
        Vec::new()
    }

    fn root_children(&mut self) -> (r: Vec<u64>) {
        Vec::new()
    }

    fn deroot_children(&mut self) -> (r: Vec<u64>) {
        Vec::new()
    }

    fn root(&mut self) -> (r: Option<u64>) {
        None
    }

    fn deroot(&mut self) -> (r: Option<u64>) {
        None
    }
}

impl Trace for String {
    open spec fn children(&self) -> Seq<u64> {
        Seq::empty()
    }

    open spec fn rooted_children(&self) -> Seq<u64> {
        Seq::empty()
    }

    open spec fn unrooted_children(&self) -> Seq<u64> {
        Seq::empty()
    }

    open spec fn like(&self, other: &Self) -> bool {
        self == other
    }

    proof fn like_children(a: &Self, b: &Self) {
    }

    proof fn like_reflexive(x: &Self) {
    }

    fn trace(&self) -> (r: Vec<u64>) {
        Vec::new()
    }

    fn root_children(&mut self) -> (r: Vec<u64>) {
        Vec::new()
    }

    fn deroot_children(&mut self) -> (r: Vec<u64>) {
        Vec::new()
    }

    fn root(&mut self) -> (r: Option<u64>) {
        None
    }

    fn deroot(&mut self) -> (r: Option<u64>) {
        None
    }
}

impl Trace for i8 {
    open spec fn children(&self) -> Seq<u64> {
        Seq::empty()
    }

    open spec fn rooted_children(&self) -> Seq<u64> {
        Seq::empty()
    }

    open spec fn unrooted_children(&self) -> Seq<u64> {
        Seq::empty()
    }

    open spec fn like(&self, other: &Self) -> bool {
        self == other
    }

    proof fn like_children(a: &Self, b: &Self) {
    }

    proof fn like_reflexive(x: &Self) {
    }

    fn trace(&self) -> (r: Vec<u64>) {
        Vec::new()
    }

    fn root_children(&mut self) -> (r: Vec<u64>) {
        Vec::new()
    }

    fn deroot_children(&mut self) -> (r: Vec<u64>) {
        Vec::new()
    }

    fn root(&mut self) -> (r: Option<u64>) {
        None
    }

    fn deroot(&mut self) -> (r: Option<u64>) {
        None
    }
}

impl Trace for i16 {
    open spec fn children(&self) -> Seq<u64> {
        Seq::empty()
    }

    open spec fn rooted_children(&self) -> Seq<u64> {
        Seq::empty()
    }

    open spec fn unrooted_children(&self) -> Seq<u64> {
        Seq::empty()
    }

    open spec fn like(&self, other: &Self) -> bool {
        self == other
    }

    proof fn like_children(a: &Self, b: &Self) {
    }

    proof fn like_reflexive(x: &Self) {
    }

    fn trace(&self) -> (r: Vec<u64>) {
        Vec::new()
    }

    fn root_children(&mut self) -> (r: Vec<u64>) {
        Vec::new()
    }

    fn deroot_children(&mut self) -> (r: Vec<u64>) {
        Vec::new()
    }

    fn root(&mut self) -> (r: Option<u64>) {
        None
    }

    fn deroot(&mut self) -> (r: Option<u64>) {
        None
    }
}

impl Trace for u8 {
    open spec fn children(&self) -> Seq<u64> {
        Seq::empty()
    }

    open spec fn rooted_children(&self) -> Seq<u64> {
        Seq::empty()
    }

    open spec fn unrooted_children(&self) -> Seq<u64> {
        Seq::empty()
    }

    open spec fn like(&self, other: &Self) -> bool {
        self == other
    }

    proof fn like_children(a: &Self, b: &Self) {
    }

    proof fn like_reflexive(x: &Self) {
    }

    fn trace(&self) -> (r: Vec<u64>) {
        Vec::new()
    }

    fn root_children(&mut self) -> (r: Vec<u64>) {
        Vec::new()
    }

    fn deroot_children(&mut self) -> (r: Vec<u64>) {
        Vec::new()
    }

    fn root(&mut self) -> (r: Option<u64>) {
        None
    }

    fn deroot(&mut self) -> (r: Option<u64>) {
        None
    }
}

impl Trace for u16 {
    open spec fn children(&self) -> Seq<u64> {
        Seq::empty()
    }

    open spec fn rooted_children(&self) -> Seq<u64> {
        Seq::empty()
    }

    open spec fn unrooted_children(&self) -> Seq<u64> {
        Seq::empty()
    }

    open spec fn like(&self, other: &Self) -> bool {
        self == other
    }

    proof fn like_children(a: &Self, b: &Self) {
    }

    proof fn like_reflexive(x: &Self) {
    }

    fn trace(&self) -> (r: Vec<u64>) {
        Vec::new()
    }

    fn root_children(&mut self) -> (r: Vec<u64>) {
        Vec::new()
    }

    fn deroot_children(&mut self) -> (r: Vec<u64>) {
        Vec::new()
    }

    fn root(&mut self) -> (r: Option<u64>) {
        None
    }

    fn deroot(&mut self) -> (r: Option<u64>) {
        None
    }
}

impl Trace for i128 {
    open spec fn children(&self) -> Seq<u64> {
        Seq::empty()
    }

    open spec fn rooted_children(&self) -> Seq<u64> {
        Seq::empty()
    }

    open spec fn unrooted_children(&self) -> Seq<u64> {
        Seq::empty()
    }

    open spec fn like(&self, other: &Self) -> bool {
        self == other
    }

    proof fn like_children(a: &Self, b: &Self) {
    }

    proof fn like_reflexive(x: &Self) {
    }

    fn trace(&self) -> (r: Vec<u64>) {
        Vec::new()
    }

    fn root_children(&mut self) -> (r: Vec<u64>) {
        Vec::new()
    }

    fn deroot_children(&mut self) -> (r: Vec<u64>) {
        Vec::new()
    }

    fn root(&mut self) -> (r: Option<u64>) {
        None
    }

    fn deroot(&mut self) -> (r: Option<u64>) {
        None
    }
}

impl Trace for u128 {
    open spec fn children(&self) -> Seq<u64> {
        Seq::empty()
    }

    open spec fn rooted_children(&self) -> Seq<u64> {
        Seq::empty()
    }

    open spec fn unrooted_children(&self) -> Seq<u64> {
        Seq::empty()
    }

    open spec fn like(&self, other: &Self) -> bool {
        self == other
    }

    proof fn like_children(a: &Self, b: &Self) {
    }

    proof fn like_reflexive(x: &Self) {
    }

    fn trace(&self) -> (r: Vec<u64>) {
        Vec::new()
    }

    fn root_children(&mut self) -> (r: Vec<u64>) {
        Vec::new()
    }

    fn deroot_children(&mut self) -> (r: Vec<u64>) {
        Vec::new()
    }

    fn root(&mut self) -> (r: Option<u64>) {
        None
    }

    fn deroot(&mut self) -> (r: Option<u64>) {
        None
    }
}

impl<T: Trace> Trace for Option<T> {
    open spec fn children(&self) -> Seq<u64> {
        match self {
            Option::Some(v) => v.children(),
            Option::None => Seq::empty(),
        }
    }

    open spec fn rooted_children(&self) -> Seq<u64> {
        match self {
            Option::Some(v) => v.rooted_children(),
            Option::None => Seq::empty(),
        }
    }

    open spec fn unrooted_children(&self) -> Seq<u64> {
        match self {
            Option::Some(v) => v.unrooted_children(),
            Option::None => Seq::empty(),
        }
    }

    open spec fn like(&self, other: &Self) -> bool {
        match (self, other) {
            (Option::Some(a), Option::Some(b)) => a.like(b),
            (Option::None, Option::None) => true,
            _ => false,
        }
    }

    proof fn like_children(a: &Self, b: &Self) {
        match (a, b) {
            (Option::Some(x), Option::Some(y)) => T::like_children(x, y),
            _ => (),
        }
    }

    proof fn like_reflexive(x: &Self) {
        match x {
            Option::Some(v) => T::like_reflexive(v),
            Option::None => (),
        }
    }

    fn trace(&self) -> (r: Vec<u64>) {
        match self {
            Option::Some(v) => v.trace(),
            Option::None => Vec::new(),
        }
    }

    fn root_children(&mut self) -> (r: Vec<u64>) {
        match self {
            Option::Some(v) => v.root_children(),
            Option::None => Vec::new(),
        }
    }

    fn deroot_children(&mut self) -> (r: Vec<u64>) {
        match self {
            Option::Some(v) => v.deroot_children(),
            Option::None => Vec::new(),
        }
    }

    fn root(&mut self) -> (r: Option<u64>) {
        match self {
            Option::Some(v) => v.root(),
            Option::None => None,
        }
    }

    fn deroot(&mut self) -> (r: Option<u64>) {
        match self {
            Option::Some(v) => v.deroot(),
            Option::None => None,
        }
    }
}


impl Trace for () {
    open spec fn children(&self) -> Seq<u64> {
        Seq::empty()
    }

    open spec fn rooted_children(&self) -> Seq<u64> {
        Seq::empty()
    }

    open spec fn unrooted_children(&self) -> Seq<u64> {
        Seq::empty()
    }

    open spec fn like(&self, other: &Self) -> bool {
        self == other
    }

    proof fn like_children(a: &Self, b: &Self) {
    }

    proof fn like_reflexive(x: &Self) {
    }

    fn trace(&self) -> (r: Vec<u64>) {
        Vec::new()
    }

    fn root_children(&mut self) -> (r: Vec<u64>) {
        Vec::new()
    }

    fn deroot_children(&mut self) -> (r: Vec<u64>) {
        Vec::new()
    }

    fn root(&mut self) -> (r: Option<u64>) {
        None
    }

    fn deroot(&mut self) -> (r: Option<u64>) {
        None
    }
}

impl Trace for bool {
    open spec fn children(&self) -> Seq<u64> {
        Seq::empty()
    }

    open spec fn rooted_children(&self) -> Seq<u64> {
        Seq::empty()
    }

    open spec fn unrooted_children(&self) -> Seq<u64> {
        Seq::empty()
    }

    open spec fn like(&self, other: &Self) -> bool {
        self == other
    }

    proof fn like_children(a: &Self, b: &Self) {
    }

    proof fn like_reflexive(x: &Self) {
    }

    fn trace(&self) -> (r: Vec<u64>) {
        Vec::new()
    }

    fn root_children(&mut self) -> (r: Vec<u64>) {
        Vec::new()
    }

    fn deroot_children(&mut self) -> (r: Vec<u64>) {
        Vec::new()
    }

    fn root(&mut self) -> (r: Option<u64>) {
        None
    }

    fn deroot(&mut self) -> (r: Option<u64>) {
        None
    }
}

impl Trace for char {
    open spec fn children(&self) -> Seq<u64> {
        Seq::empty()
    }

    open spec fn rooted_children(&self) -> Seq<u64> {
        Seq::empty()
    }

    open spec fn unrooted_children(&self) -> Seq<u64> {
        Seq::empty()
    }

    open spec fn like(&self, other: &Self) -> bool {
        self == other
    }

    proof fn like_children(a: &Self, b: &Self) {
    }

    proof fn like_reflexive(x: &Self) {
    }

    fn trace(&self) -> (r: Vec<u64>) {
        Vec::new()
    }

    fn root_children(&mut self) -> (r: Vec<u64>) {
        Vec::new()
    }

    fn deroot_children(&mut self) -> (r: Vec<u64>) {
        Vec::new()
    }

    fn root(&mut self) -> (r: Option<u64>) {
        None
    }

    fn deroot(&mut self) -> (r: Option<u64>) {
        None
    }
}

impl Trace for i32 {
    open spec fn children(&self) -> Seq<u64> {
        Seq::empty()
    }

    open spec fn rooted_children(&self) -> Seq<u64> {
        Seq::empty()
    }

    open spec fn unrooted_children(&self) -> Seq<u64> {
        Seq::empty()
    }

    open spec fn like(&self, other: &Self) -> bool {
        self == other
    }

    proof fn like_children(a: &Self, b: &Self) {
    }

    proof fn like_reflexive(x: &Self) {
    }

    fn trace(&self) -> (r: Vec<u64>) {
        Vec::new()
    }

    fn root_children(&mut self) -> (r: Vec<u64>) {
        Vec::new()
    }

    fn deroot_children(&mut self) -> (r: Vec<u64>) {
        Vec::new()
    }

    fn root(&mut self) -> (r: Option<u64>) {
        None
    }

    fn deroot(&mut self) -> (r: Option<u64>) {
        None
    }
}

impl Trace for u32 {
    open spec fn children(&self) -> Seq<u64> {
        Seq::empty()
    }

    open spec fn rooted_children(&self) -> Seq<u64> {
        Seq::empty()
    }

    open spec fn unrooted_children(&self) -> Seq<u64> {
        Seq::empty()
    }

    open spec fn like(&self, other: &Self) -> bool {
        self == other
    }

    proof fn like_children(a: &Self, b: &Self) {
    }

    proof fn like_reflexive(x: &Self) {
    }

    fn trace(&self) -> (r: Vec<u64>) {
        Vec::new()
    }

    fn root_children(&mut self) -> (r: Vec<u64>) {
        Vec::new()
    }

    fn deroot_children(&mut self) -> (r: Vec<u64>) {
        Vec::new()
    }

    fn root(&mut self) -> (r: Option<u64>) {
        None
    }

    fn deroot(&mut self) -> (r: Option<u64>) {
        None
    }
}

impl Trace for u64 {
    open spec fn children(&self) -> Seq<u64> {
        Seq::empty()
    }

    open spec fn rooted_children(&self) -> Seq<u64> {
        Seq::empty()
    }

    open spec fn unrooted_children(&self) -> Seq<u64> {
        Seq::empty()
    }

    open spec fn like(&self, other: &Self) -> bool {
        self == other
    }

    proof fn like_children(a: &Self, b: &Self) {
    }

    proof fn like_reflexive(x: &Self) {
    }

    fn trace(&self) -> (r: Vec<u64>) {
        Vec::new()
    }

    fn root_children(&mut self) -> (r: Vec<u64>) {
        Vec::new()
    }

    fn deroot_children(&mut self) -> (r: Vec<u64>) {
        Vec::new()
    }

    fn root(&mut self) -> (r: Option<u64>) {
        None
    }

    fn deroot(&mut self) -> (r: Option<u64>) {
        None
    }
}

impl Trace for usize {
    open spec fn children(&self) -> Seq<u64> {
        Seq::empty()
    }

    open spec fn rooted_children(&self) -> Seq<u64> {
        Seq::empty()
    }

    open spec fn unrooted_children(&self) -> Seq<u64> {
        Seq::empty()
    }

    open spec fn like(&self, other: &Self) -> bool {
        self == other
    }

    proof fn like_children(a: &Self, b: &Self) {
    }

    proof fn like_reflexive(x: &Self) {
    }

    fn trace(&self) -> (r: Vec<u64>) {
        Vec::new()
    }

    fn root_children(&mut self) -> (r: Vec<u64>) {
        Vec::new()
    }

    fn deroot_children(&mut self) -> (r: Vec<u64>) {
        Vec::new()
    }

    fn root(&mut self) -> (r: Option<u64>) {
        None
    }

    fn deroot(&mut self) -> (r: Option<u64>) {
        None
    }
}

impl Trace for isize {
    open spec fn children(&self) -> Seq<u64> {
        Seq::empty()
    }

    open spec fn rooted_children(&self) -> Seq<u64> {
        Seq::empty()
    }

    open spec fn unrooted_children(&self) -> Seq<u64> {
        Seq::empty()
    }

    open spec fn like(&self, other: &Self) -> bool {
        self == other
    }

    proof fn like_children(a: &Self, b: &Self) {
    }

    proof fn like_reflexive(x: &Self) {
    }

    fn trace(&self) -> (r: Vec<u64>) {
        Vec::new()
    }

    fn root_children(&mut self) -> (r: Vec<u64>) {
        Vec::new()
    }

    fn deroot_children(&mut self) -> (r: Vec<u64>) {
        Vec::new()
    }

    fn root(&mut self) -> (r: Option<u64>) {
        None
    }

    fn deroot(&mut self) -> (r: Option<u64>) {
        None
    }
}


impl<T: Trace, E> Trace for Result<T, E> {
    open spec fn children(&self) -> Seq<u64> {
        match self {
            Result::Ok(v) => v.children(),
            Result::Err(_) => Seq::empty(),
        }
    }

    open spec fn rooted_children(&self) -> Seq<u64> {
        match self {
            Result::Ok(v) => v.rooted_children(),
            Result::Err(_) => Seq::empty(),
        }
    }

    open spec fn unrooted_children(&self) -> Seq<u64> {
        match self {
            Result::Ok(v) => v.unrooted_children(),
            Result::Err(_) => Seq::empty(),
        }
    }

    open spec fn like(&self, other: &Self) -> bool {
        match (self, other) {
            (Result::Ok(a), Result::Ok(b)) => a.like(b),
            (Result::Err(a), Result::Err(b)) => a == b,
            _ => false,
        }
    }

    proof fn like_children(a: &Self, b: &Self) {
        match (a, b) {
            (Result::Ok(x), Result::Ok(y)) => T::like_children(x, y),
            _ => (),
        }
    }

    proof fn like_reflexive(x: &Self) {
        match x {
            Result::Ok(v) => T::like_reflexive(v),
            Result::Err(_) => (),
        }
    }

    fn trace(&self) -> (r: Vec<u64>) {
        match self {
            Result::Ok(v) => v.trace(),
            Result::Err(_) => Vec::new(),
        }
    }

    fn root_children(&mut self) -> (r: Vec<u64>) {
        match self {
            Result::Ok(v) => v.root_children(),
            Result::Err(_) => Vec::new(),
        }
    }

    fn deroot_children(&mut self) -> (r: Vec<u64>) {
        match self {
            Result::Ok(v) => v.deroot_children(),
            Result::Err(_) => Vec::new(),
        }
    }

    fn root(&mut self) -> (r: Option<u64>) {
        match self {
            Result::Ok(v) => v.root(),
            Result::Err(_) => None,
        }
    }

    fn deroot(&mut self) -> (r: Option<u64>) {
        match self {
            Result::Ok(v) => v.deroot(),
            Result::Err(_) => None,
        }
    }
}


/// The handles directly contained in the elements of `s`, in element order.
pub open spec fn seq_children<T: Trace>(s: Seq<T>) -> Seq<u64>
    decreases s.len(),
{
    if s.len() == 0 {
        Seq::empty()
    } else {
        s[0].children() + seq_children(s.drop_first())
    }
}

/// The rooted handles directly contained in the elements of `s`, in order.
pub open spec fn seq_rooted_children<T: Trace>(s: Seq<T>) -> Seq<u64>
    decreases s.len(),
{
    if s.len() == 0 {
        Seq::empty()
    } else {
        s[0].rooted_children() + seq_rooted_children(s.drop_first())
    }
}

/// The non-rooted handles directly contained in the elements of `s`, in
/// order.
pub open spec fn seq_unrooted_children<T: Trace>(s: Seq<T>) -> Seq<u64>
    decreases s.len(),
{
    if s.len() == 0 {
        Seq::empty()
    } else {
        s[0].unrooted_children() + seq_unrooted_children(s.drop_first())
    }
}

/// Whether two element sequences agree up to the root flags of their
/// directly contained handles.
pub open spec fn seq_like<T: Trace>(a: Seq<T>, b: Seq<T>) -> bool {
    a.len() == b.len() && forall|i: int| 0 <= i < a.len() ==> (#[trigger] a[i]).like(&b[i])
}

/// Appending an element extends each child listing by that element's share.
pub proof fn lemma_seq_children_push<T: Trace>(s: Seq<T>, x: T)
    ensures
        seq_children(s.push(x)) == seq_children(s) + x.children(),
        seq_rooted_children(s.push(x)) == seq_rooted_children(s) + x.rooted_children(),
        seq_unrooted_children(s.push(x)) == seq_unrooted_children(s) + x.unrooted_children(),
    decreases s.len(),
{
    if s.len() == 0 {
        assert(s.push(x)[0] == x);
        assert(s.push(x).drop_first() =~= Seq::<T>::empty());
        assert(seq_children(Seq::<T>::empty()) == Seq::<u64>::empty());
        assert(seq_rooted_children(Seq::<T>::empty()) == Seq::<u64>::empty());
        assert(seq_unrooted_children(Seq::<T>::empty()) == Seq::<u64>::empty());
        assert(seq_children(s.push(x)) =~= seq_children(s) + x.children());
        assert(seq_rooted_children(s.push(x)) =~= seq_rooted_children(s) + x.rooted_children());
        assert(seq_unrooted_children(s.push(x)) =~= seq_unrooted_children(s)
            + x.unrooted_children());
    } else {
        assert(s.push(x)[0] == s[0]);
        assert(s.push(x).drop_first() =~= s.drop_first().push(x));
        lemma_seq_children_push(s.drop_first(), x);
        assert(seq_children(s.push(x)) =~= seq_children(s) + x.children());
        assert(seq_rooted_children(s.push(x)) =~= seq_rooted_children(s) + x.rooted_children());
        assert(seq_unrooted_children(s.push(x)) =~= seq_unrooted_children(s)
            + x.unrooted_children());
    }
}

/// Element sequences that agree up to root flags list the same handles.
pub proof fn lemma_seq_like_children<T: Trace>(a: Seq<T>, b: Seq<T>)
    requires
        seq_like(a, b),
    ensures
        seq_children(a) == seq_children(b),
    decreases a.len(),
{
    if a.len() > 0 {
        T::like_children(&a[0], &b[0]);
        assert forall|i: int|
            0 <= i < a.drop_first().len() implies (#[trigger] a.drop_first()[i]).like(
            &b.drop_first()[i],
        ) by {
            assert(a.drop_first()[i] == a[i + 1]);
            assert(b.drop_first()[i] == b[i + 1]);
            assert(a[i + 1].like(&b[i + 1]));
        }
        lemma_seq_like_children(a.drop_first(), b.drop_first());
    }
}

/// Elements whose rooted listings are empty make the whole listing empty.
pub proof fn lemma_seq_rooted_empty<T: Trace>(s: Seq<T>)
    requires
        forall|i: int| 0 <= i < s.len() ==> (#[trigger] s[i]).rooted_children() == Seq::<
            u64,
        >::empty(),
    ensures
        seq_rooted_children(s) == Seq::<u64>::empty(),
    decreases s.len(),
{
    if s.len() > 0 {
        assert forall|i: int|
            0 <= i < s.drop_first().len() implies (#[trigger] s.drop_first()[i]).rooted_children()
            == Seq::<u64>::empty() by {
            assert(s.drop_first()[i] == s[i + 1]);
        }
        lemma_seq_rooted_empty(s.drop_first());
        assert(seq_rooted_children(s) =~= Seq::<u64>::empty());
    }
}

/// Elements all of whose handles are rooted list every handle as rooted.
pub proof fn lemma_seq_rooted_full<T: Trace>(s: Seq<T>)
    requires
        forall|i: int|
            0 <= i < s.len() ==> (#[trigger] s[i]).rooted_children() == s[i].children(),
    ensures
        seq_rooted_children(s) == seq_children(s),
    decreases s.len(),
{
    if s.len() > 0 {
        assert forall|i: int|
            0 <= i < s.drop_first().len() implies (#[trigger] s.drop_first()[i]).rooted_children()
            == s.drop_first()[i].children() by {
            assert(s.drop_first()[i] == s[i + 1]);
        }
        lemma_seq_rooted_full(s.drop_first());
    }
}

impl<T: Trace> Trace for Vec<T> {
    open spec fn children(&self) -> Seq<u64> {
        seq_children(self@)
    }

    open spec fn rooted_children(&self) -> Seq<u64> {
        seq_rooted_children(self@)
    }

    open spec fn unrooted_children(&self) -> Seq<u64> {
        seq_unrooted_children(self@)
    }

    open spec fn like(&self, other: &Self) -> bool {
        seq_like(self@, other@)
    }

    proof fn like_children(a: &Self, b: &Self) {
        lemma_seq_like_children(a@, b@);
    }

    proof fn like_reflexive(x: &Self) {
        assert forall|i: int| 0 <= i < x@.len() implies (#[trigger] x@[i]).like(&x@[i]) by {
            T::like_reflexive(&x@[i]);
        }
    }

    fn trace(&self) -> (r: Vec<u64>) {
        let n = self.len();
        let mut r: Vec<u64> = Vec::new();
        let mut i: usize = 0;
        while i < n
            invariant
                i <= n,
                n == self@.len(),
                r@ == seq_children(self@.take(i as int)),
            decreases n - i,
        {
            let mut part = self[i].trace();
            r.append(&mut part);
            proof {
                assert(self@.take(i + 1 as int) =~= self@.take(i as int).push(self@[i as int]));
                lemma_seq_children_push(self@.take(i as int), self@[i as int]);
            }
            i = i + 1;
        }
        proof {
            assert(self@.take(n as int) =~= self@);
        }
        r
    }

    fn root_children(&mut self) -> (r: Vec<u64>) {
        let n = self.len();
        let mut r: Vec<u64> = Vec::new();
        let mut i: usize = 0;
        while i < n
            invariant
                i <= n,
                n == self@.len(),
                n == old(self)@.len(),
                forall|j: int| i <= j < n ==> self@[j] == old(self)@[j],
                forall|j: int|
                    0 <= j < i ==> {
                        &&& (#[trigger] old(self)@[j]).like(&self@[j])
                        &&& self@[j].children() == old(self)@[j].children()
                        &&& self@[j].rooted_children() == self@[j].children()
                    },
                r@ == seq_unrooted_children(old(self)@.take(i as int)),
            decreases n - i,
        {
            let mut part = self[i].root_children();
            r.append(&mut part);
            proof {
                assert(old(self)@.take(i + 1 as int) =~= old(self)@.take(i as int).push(
                    old(self)@[i as int],
                ));
                lemma_seq_children_push(old(self)@.take(i as int), old(self)@[i as int]);
            }
            i = i + 1;
        }
        proof {
            assert(old(self)@.take(n as int) =~= old(self)@);
            assert forall|j: int|
                0 <= j < self@.len() implies (#[trigger] self@[j]).rooted_children()
                == self@[j].children() by {
                assert(old(self)@[j].like(&self@[j]));
            }
            assert(seq_like(old(self)@, self@));
            lemma_seq_like_children(old(self)@, self@);
            lemma_seq_rooted_full(self@);
        }
        r
    }

    fn deroot_children(&mut self) -> (r: Vec<u64>) {
        let n = self.len();
        let mut r: Vec<u64> = Vec::new();
        let mut i: usize = 0;
        while i < n
            invariant
                i <= n,
                n == self@.len(),
                n == old(self)@.len(),
                forall|j: int| i <= j < n ==> self@[j] == old(self)@[j],
                forall|j: int|
                    0 <= j < i ==> {
                        &&& (#[trigger] old(self)@[j]).like(&self@[j])
                        &&& self@[j].children() == old(self)@[j].children()
                        &&& self@[j].rooted_children() == Seq::<u64>::empty()
                    },
                r@ == seq_rooted_children(old(self)@.take(i as int)),
            decreases n - i,
        {
            let mut part = self[i].deroot_children();
            r.append(&mut part);
            proof {
                assert(old(self)@.take(i + 1 as int) =~= old(self)@.take(i as int).push(
                    old(self)@[i as int],
                ));
                lemma_seq_children_push(old(self)@.take(i as int), old(self)@[i as int]);
            }
            i = i + 1;
        }
        proof {
            assert(old(self)@.take(n as int) =~= old(self)@);
            assert forall|j: int|
                0 <= j < self@.len() implies (#[trigger] self@[j]).rooted_children() == Seq::<
                u64,
            >::empty() by {
                assert(old(self)@[j].like(&self@[j]));
            }
            assert(seq_like(old(self)@, self@));
            lemma_seq_like_children(old(self)@, self@);
            lemma_seq_rooted_empty(self@);
        }
        r
    }

    fn root(&mut self) -> (r: Option<u64>) {
        proof {
            Self::like_reflexive(self);
        }
        None
    }

    fn deroot(&mut self) -> (r: Option<u64>) {
        proof {
            Self::like_reflexive(self);
        }
        None
    }
}

/// The keyed-mapping adapter: an integer-keyed mapping is carried as its
/// entry list `Vec<(u64, T)>`.  An entry's key is untraced identity; every
/// operation forwards to the value, so the mapping traverses its values and
/// is itself no handle.
impl<T: Trace> Trace for (u64, T) {
    open spec fn children(&self) -> Seq<u64> {
        self.1.children()
    }

    open spec fn rooted_children(&self) -> Seq<u64> {
        self.1.rooted_children()
    }

    open spec fn unrooted_children(&self) -> Seq<u64> {
        self.1.unrooted_children()
    }

    open spec fn like(&self, other: &Self) -> bool {
        self.0 == other.0 && self.1.like(&other.1)
    }

    proof fn like_children(a: &Self, b: &Self) {
        T::like_children(&a.1, &b.1);
    }

    proof fn like_reflexive(x: &Self) {
        T::like_reflexive(&x.1);
    }

    fn trace(&self) -> (r: Vec<u64>) {
        self.1.trace()
    }

    fn root_children(&mut self) -> (r: Vec<u64>) {
        self.1.root_children()
    }

    fn deroot_children(&mut self) -> (r: Vec<u64>) {
        self.1.deroot_children()
    }

    fn root(&mut self) -> (r: Option<u64>) {
        proof {
            T::like_reflexive(&self.1);
        }
        None
    }

    fn deroot(&mut self) -> (r: Option<u64>) {
        proof {
            T::like_reflexive(&self.1);
        }
        None
    }
}

} // verus!
