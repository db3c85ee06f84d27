//! Aliasing-aware cells and the capability token that guards them.
//!
//! [`SemiUnsafeCell`] owns a single value together with a borrow counter: `0`
//! means unborrowed, `-n` means `n` outstanding shared views, `+1` means one
//! outstanding exclusive view.  The counter is the discipline that a
//! diagnostic build would enforce at run time, aborting on any overlap of
//! exclusive and shared views; here that discipline is stated as contracts,
//! so an illegal overlap is ruled out statically instead of detected
//! dynamically.
//!
//! [`RemoteCell`] pairs such a cell with the identity of the one
//! [`RemoteCellOwner`] token allowed to touch it: every counted borrow must
//! present that token.

use vstd::prelude::*;

use crate::number::GenOverflowError;
use crate::number::NumberGenExt;

verus! {

/// Receipt for one outstanding shared borrow of a [`SemiUnsafeCell`].
///
/// The receipt must be handed back through [`SemiUnsafeCell::release_ref`] to
/// restore the cell's counter; it cannot be forged outside this module.
#[derive(Debug)]
pub struct UnsafeCellRef {
    _priv: (),
}

/// Receipt for the single outstanding exclusive borrow of a
/// [`SemiUnsafeCell`]; handed back through [`SemiUnsafeCell::release_mut`].
#[derive(Debug)]
pub struct UnsafeCellMut {
    _priv: (),
}

/// A cell owning one value, with a counter recording outstanding borrows.
#[derive(Debug)]
pub struct SemiUnsafeCell<T> {
    value: T,
    borrows: i64,
}

/// Common shape of the cells in this module: a container that owns exactly
/// one value and can give it up.
pub trait BaseCell: Sized {
    type Value;

    /// The value the cell currently owns.
    spec fn cell_value(&self) -> Self::Value;

    fn into_inner(self) -> (v: Self::Value)
        ensures
            v == self.cell_value(),
    ;
}

impl<T> SemiUnsafeCell<T> {
    /// The borrow counter: `0` unborrowed, negative for shared views,
    /// `1` for one exclusive view.
    pub closed spec fn borrow_count(&self) -> int {
        self.borrows as int
    }

    /// A shared view may be opened only while no exclusive view is out.
    pub open spec fn can_borrow_ref_spec(&self) -> bool {
        self.borrow_count() <= 0
    }

    /// An exclusive view may be opened only while nothing is borrowed.
    pub open spec fn can_borrow_mut_spec(&self) -> bool {
        self.borrow_count() == 0
    }

    pub fn new(value: T) -> (c: Self)
        ensures
            c.cell_value() == value,
            c.borrow_count() == 0,
    {
        SemiUnsafeCell { value, borrows: 0 }
    }

    /// Shared access through a statically checked shared reference; always
    /// legal and independent of the borrow counter.
    pub fn get_ref(&self) -> (r: &T)
        ensures
            *r == self.cell_value(),
    {
        &self.value
    }

    /// Exclusive access through a statically checked exclusive reference;
    /// always legal and independent of the borrow counter.
    pub fn get_mut(&mut self) -> (r: &mut T)
        ensures
            *r == old(self).cell_value(),
            final(self).cell_value() == *final(r),
            final(self).borrow_count() == old(self).borrow_count(),
    {
        &mut self.value
    }

    /// Whether a shared borrow would be admitted right now.
    pub fn can_borrow_ref(&self) -> (r: bool)
        ensures
            r == self.can_borrow_ref_spec(),
    {
        self.borrows <= 0
    }

    /// Whether an exclusive borrow would be admitted right now.
    pub fn can_borrow_mut(&self) -> (r: bool)
        ensures
            r == self.can_borrow_mut_spec(),
    {
        self.borrows == 0
    }

    /// Open a counted shared view.  The caller must show that no exclusive
    /// view is outstanding — the obligation a run-time counter check would
    /// otherwise enforce by aborting on overlap.
    pub fn borrow_ref_unchecked(&mut self) -> (g: UnsafeCellRef)
        requires
            old(self).can_borrow_ref_spec(),
            old(self).borrow_count() > i64::MIN,
        ensures
            final(self).cell_value() == old(self).cell_value(),
            final(self).borrow_count() == old(self).borrow_count() - 1,
    {
        self.borrows = self.borrows - 1;
        UnsafeCellRef { _priv: () }
    }

    /// Open the counted exclusive view.  The caller must show that nothing is
    /// borrowed.
    pub fn borrow_mut_unchecked(&mut self) -> (g: UnsafeCellMut)
        requires
            old(self).can_borrow_mut_spec(),
        ensures
            final(self).cell_value() == old(self).cell_value(),
            final(self).borrow_count() == 1,
    {
        self.borrows = 1;
        UnsafeCellMut { _priv: () }
    }

    /// Close one shared view, restoring the counter.
    pub fn release_ref(&mut self, guard: UnsafeCellRef)
        requires
            old(self).borrow_count() < 0,
        ensures
            final(self).cell_value() == old(self).cell_value(),
            final(self).borrow_count() == old(self).borrow_count() + 1,
    {
        let UnsafeCellRef { _priv } = guard;
        self.borrows = self.borrows + 1;
    }

    /// Close the exclusive view, restoring the counter.
    pub fn release_mut(&mut self, guard: UnsafeCellMut)
        requires
            old(self).borrow_count() == 1,
        ensures
            final(self).cell_value() == old(self).cell_value(),
            final(self).borrow_count() == 0,
    {
        let UnsafeCellMut { _priv } = guard;
        self.borrows = 0;
    }
}

impl<T> BaseCell for SemiUnsafeCell<T> {
    type Value = T;

    closed spec fn cell_value(&self) -> T {
        self.value
    }

    fn into_inner(self) -> T {
        let SemiUnsafeCell { value, borrows: _ } = self;
        value
    }
}

/// While a shared view is out, no exclusive view can be opened, and while the
/// exclusive view is out, no view of either kind can be opened: the borrow
/// counter admits at most one of the two modes at a time.
pub proof fn lemma_borrow_exclusion<T>(c: SemiUnsafeCell<T>)
    ensures
        c.borrow_count() < 0 ==> !c.can_borrow_mut_spec(),
        c.borrow_count() > 0 ==> !c.can_borrow_ref_spec() && !c.can_borrow_mut_spec(),
{
}

/// A capability token: an opaque value wrapping a nonzero identifier, minted
/// from a monotonic counter.  Two tokens are the same owner exactly when they
/// were minted from the same counter value.
#[derive(Debug, PartialEq, Eq, Hash)]
pub struct RemoteCellOwner {
    id: u64,
}

impl RemoteCellOwner {
    #[verifier::type_invariant]
    spec fn type_inv(self) -> bool {
        self.id >= 1
    }

    /// The identity this token carries.
    pub closed spec fn id_spec(&self) -> u64 {
        self.id
    }

    /// The identity as an executable value.
    pub fn id(&self) -> (r: u64)
        ensures
            r == self.id_spec(),
            r >= 1,
    {
        proof {
            use_type_invariant(self);
        }
        self.id
    }

    /// Mint a fresh token from `generator`.  Fails with an overflow error,
    /// rather than wrapping, once the counter is exhausted.
    pub fn new(generator: &mut u64) -> (r: Result<RemoteCellOwner, GenOverflowError>)
        ensures
            *old(generator) < u64::MAX ==> {
                &&& *final(generator) == *old(generator) + 1
                &&& r is Ok
                &&& r->Ok_0.id_spec() == *old(generator) + 1
            },
            *old(generator) == u64::MAX ==> {
                &&& *final(generator) == *old(generator)
                &&& r == Err::<RemoteCellOwner, GenOverflowError>(GenOverflowError)
            },
    {
        match generator.try_generate() {
            Ok(id) => Ok(RemoteCellOwner { id }),
            Err(e) => Err(e),
        }
    }
}

/// A guarded cell: a [`SemiUnsafeCell`] that remembers which token may open
/// counted views on it.
#[derive(Debug)]
pub struct RemoteCell<T> {
    owner: u64,
    raw: SemiUnsafeCell<T>,
}

impl<T> RemoteCell<T> {
    /// The identity of the token allowed to access this cell.
    pub closed spec fn owner_id(&self) -> u64 {
        self.owner
    }

    /// The borrow counter of the underlying cell.
    pub closed spec fn borrow_count(&self) -> int {
        self.raw.borrow_count()
    }

    /// Whether `owner` is the token this cell was built with.
    pub open spec fn spec_is_owned_by(&self, owner: RemoteCellOwner) -> bool {
        self.owner_id() == owner.id_spec()
    }

    pub fn new(owner: &RemoteCellOwner, value: T) -> (c: Self)
        ensures
            c.owner_id() == owner.id_spec(),
            c.cell_value() == value,
            c.borrow_count() == 0,
    {
        RemoteCell { owner: owner.id(), raw: SemiUnsafeCell::new(value) }
    }

    pub fn is_owned_by(&self, owner: &RemoteCellOwner) -> (r: bool)
        ensures
            r == self.spec_is_owned_by(*owner),
    {
        self.owner == owner.id()
    }

    /// Shared access with the token presented; a mismatched token is a misuse
    /// the contract rules out.
    pub fn get_ref(&self, owner: &RemoteCellOwner) -> (r: &T)
        requires
            self.spec_is_owned_by(*owner),
        ensures
            *r == self.cell_value(),
    {
        self.raw.get_ref()
    }

    /// Exclusive access through a statically checked exclusive reference.
    pub fn get_mut(&mut self) -> (r: &mut T)
        ensures
            *r == old(self).cell_value(),
            final(self).cell_value() == *final(r),
            final(self).owner_id() == old(self).owner_id(),
            final(self).borrow_count() == old(self).borrow_count(),
    {
        self.raw.get_mut()
    }

    /// Open a counted shared view; the token must match the cell's owner.
    pub fn borrow_ref(&mut self, owner: &RemoteCellOwner) -> (g: UnsafeCellRef)
        requires
            old(self).spec_is_owned_by(*owner),
            old(self).borrow_count() <= 0,
            old(self).borrow_count() > i64::MIN,
        ensures
            final(self).cell_value() == old(self).cell_value(),
            final(self).owner_id() == old(self).owner_id(),
            final(self).borrow_count() == old(self).borrow_count() - 1,
    {
        self.raw.borrow_ref_unchecked()
    }

    /// Open the counted exclusive view.  Taking the token by exclusive
    /// reference lets a caller use the token itself as a proxy lock: only one
    /// exclusive borrow path can be live at a time.
    pub fn borrow_mut(&mut self, owner: &mut RemoteCellOwner) -> (g: UnsafeCellMut)
        requires
            old(self).spec_is_owned_by(*old(owner)),
            old(self).borrow_count() == 0,
        ensures
            *final(owner) == *old(owner),
            final(self).cell_value() == old(self).cell_value(),
            final(self).owner_id() == old(self).owner_id(),
            final(self).borrow_count() == 1,
    {
        self.raw.borrow_mut_unchecked()
    }

    /// Close one shared view.
    pub fn release_ref(&mut self, guard: UnsafeCellRef)
        requires
            old(self).borrow_count() < 0,
        ensures
            final(self).cell_value() == old(self).cell_value(),
            final(self).owner_id() == old(self).owner_id(),
            final(self).borrow_count() == old(self).borrow_count() + 1,
    {
        self.raw.release_ref(guard);
    }

    /// Close the exclusive view.
    pub fn release_mut(&mut self, guard: UnsafeCellMut)
        requires
            old(self).borrow_count() == 1,
        ensures
            final(self).cell_value() == old(self).cell_value(),
            final(self).owner_id() == old(self).owner_id(),
            final(self).borrow_count() == 0,
    {
        self.raw.release_mut(guard);
    }
}

impl<T> BaseCell for RemoteCell<T> {
    type Value = T;

    closed spec fn cell_value(&self) -> T {
        self.raw.cell_value()
    }

    fn into_inner(self) -> T {
        let RemoteCell { owner: _, raw } = self;
        raw.into_inner()
    }
}

} // verus!
