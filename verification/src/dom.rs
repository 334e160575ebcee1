//! Reference-counted ownership handles over an arena of heap-resident slots.
//!
//! The arena (`DomStore`) owns every allocation outright; a `Dom<T>` is a
//! shared-ownership handle naming one slot. Each slot carries a share count
//! that only grows: `new` starts it at 1, `clone` and `from` add 1. No
//! release path exists yet; whether handles should decrement and free on
//! drop is left open here, so the count is purely an increment-only record
//! of how many handles were ever minted for the slot.

use core::marker::PhantomData;
use vstd::prelude::*;
use vstd::pervasive::VecAdditionalExecFns;

verus! {

/// Arena owning every allocation that handles point into. Slot `i` holds a
/// value and the number of handles minted for it, kept in two parallel
/// columns.
pub struct DomStore<T> {
    data: Vec<T>,
    shares: Vec<u64>,
}

/// Shared-ownership handle to one slot of a `DomStore<T>`. The handle itself
/// is only a slot index; all access to the value goes through the store.
pub struct Dom<T> {
    idx: usize,
    marker: PhantomData<T>,
}

impl<T> DomStore<T> {
    /// The values held by the slots, in slot order.
    pub closed spec fn values(self) -> Seq<T> {
        self.data@
    }

    /// The share count of each slot, in slot order.
    pub closed spec fn counts(self) -> Seq<u64> {
        self.shares@
    }

    /// Number of slots.
    pub open spec fn len(self) -> nat {
        self.values().len()
    }

    /// Both columns of the arena cover the same slots.
    pub open spec fn wf(self) -> bool {
        self.counts().len() == self.values().len()
    }

    /// An empty arena.
    pub fn new() -> (s: DomStore<T>)
        ensures
            s.wf(),
            s.len() == 0,
    {
        DomStore { data: Vec::new(), shares: Vec::new() }
    }

    /// Number of slots.
    pub fn length(&self) -> (n: usize)
        ensures
            n == self.len(),
    {
        self.data.len()
    }

    /// Borrow the value of slot `index`.
    pub(crate) fn at(&self, index: usize) -> (r: &T)
        requires
            index < self.len(),
        ensures
            *r == self.values()[index as int],
    {
        &self.data[index]
    }

    /// Mutably borrow the value of slot `index`; the share count is untouched.
    pub(crate) fn at_mut(&mut self, index: usize) -> (r: &mut T)
        requires
            index < old(self).len(),
        ensures
            *r == old(self).values()[index as int],
            final(self).values() == old(self).values().update(index as int, *final(r)),
            final(self).counts() == old(self).counts(),
    {
        &mut self.data[index]
    }
}

impl<T> Dom<T> {
    /// The slot this handle names.
    pub closed spec fn spec_index(&self) -> usize {
        self.idx
    }

    /// The slot this handle names.
    #[verifier::when_used_as_spec(spec_index)]
    pub fn index(&self) -> (i: usize)
        ensures
            i == self.spec_index(),
    {
        self.idx
    }

    /// Mint a handle for a slot without touching its count; used where the
    /// tree hands out the links it already owns.
    pub(crate) fn from_index(index: usize) -> (d: Dom<T>)
        ensures
            d.index() == index,
    {
        Dom { idx: index, marker: PhantomData }
    }

    /// Rename the interface this handle claims for its slot; the slot itself
    /// is untouched. Only the cast operation, which checks the claim against
    /// the hierarchy, may use this.
    pub(crate) fn retag<U>(&self) -> (d: Dom<U>)
        ensures
            d.index() == self.index(),
    {
        Dom { idx: self.idx, marker: PhantomData }
    }

    /// Allocate a fresh slot holding `value` with a share count of 1 and hand
    /// back its first handle.
    pub fn new(store: &mut DomStore<T>, value: T) -> (d: Dom<T>)
        requires
            old(store).wf(),
        ensures
            final(store).wf(),
            d.index() == old(store).len(),
            final(store).values() == old(store).values().push(value),
            final(store).counts() == old(store).counts().push(1u64),
    {
        let idx = store.data.len();
        store.data.push(value);
        store.shares.push(1);
        Dom { idx, marker: PhantomData }
    }

    /// Alias the same slot: the pointed-to value is untouched and the shared
    /// count grows by exactly 1, observed identically through either handle.
    pub fn clone(&self, store: &mut DomStore<T>) -> (d: Dom<T>)
        requires
            old(store).wf(),
            self.index() < old(store).len(),
            old(store).counts()[self.index() as int] < u64::MAX,
        ensures
            final(store).wf(),
            d.index() == self.index(),
            final(store).values() == old(store).values(),
            final(store).counts() == old(store).counts().update(
                self.index() as int,
                (old(store).counts()[self.index() as int] + 1) as u64,
            ),
            final(store).counts()[self.index() as int] == old(store).counts()[self.index() as int]
                + 1,
    {
        let c = store.shares[self.idx];
        store.shares.set(self.idx, c + 1);
        Dom { idx: self.idx, marker: PhantomData }
    }

    /// Reconstruct an owning handle for an existing slot, adding a share. The
    /// unchecked address arithmetic of a by-reference reconstruction becomes a
    /// checked slot index here.
    pub fn from(store: &mut DomStore<T>, index: usize) -> (d: Dom<T>)
        requires
            old(store).wf(),
            index < old(store).len(),
            old(store).counts()[index as int] < u64::MAX,
        ensures
            final(store).wf(),
            d.index() == index,
            final(store).values() == old(store).values(),
            final(store).counts() == old(store).counts().update(
                index as int,
                (old(store).counts()[index as int] + 1) as u64,
            ),
            final(store).counts()[index as int] == old(store).counts()[index as int] + 1,
    {
        let c = store.shares[index];
        store.shares.set(index, c + 1);
        Dom { idx: index, marker: PhantomData }
    }

    /// How many handles were minted for this slot.
    pub fn count(&self, store: &DomStore<T>) -> (c: u64)
        requires
            store.wf(),
            self.index() < store.len(),
        ensures
            c == store.counts()[self.index() as int],
    {
        store.shares[self.idx]
    }

    /// Borrow the pointed-to value.
    pub fn deref<'a>(&self, store: &'a DomStore<T>) -> (r: &'a T)
        requires
            self.index() < store.len(),
        ensures
            *r == store.values()[self.index() as int],
    {
        store.at(self.idx)
    }

    /// Mutably borrow the pointed-to value. Two handles aliasing one slot can
    /// each reach it, but only through the one store borrow at a time.
    pub fn deref_mut<'a>(&self, store: &'a mut DomStore<T>) -> (r: &'a mut T)
        requires
            self.index() < old(store).len(),
        ensures
            *r == old(store).values()[self.index() as int],
            final(store).values() == old(store).values().update(self.index() as int, *final(r)),
            final(store).counts() == old(store).counts(),
    {
        store.at_mut(self.idx)
    }
}

impl<T> PartialEq for Dom<T> {
    /// Two handles are equal when they name the same slot.
    fn eq(&self, other: &Dom<T>) -> (r: bool) {
        self.idx == other.idx
    }
}

impl<T> vstd::std_specs::cmp::PartialEqSpecImpl for Dom<T> {
    open spec fn obeys_eq_spec() -> bool {
        true
    }

    open spec fn eq_spec(&self, other: &Dom<T>) -> bool {
        self.spec_index() == other.spec_index()
    }
}

} // verus!
