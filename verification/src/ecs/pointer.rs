//! Strong and weak handles to components.

use core::cmp::Ordering;
use core::marker::PhantomData;

use vstd::prelude::*;
use vstd::std_specs::cmp::{PartialEqSpecImpl, PartialOrdSpecImpl};

use super::pending::{Pending, PointerData};

verus! {

/// Error from upgrading a `WeakPointer` whose component was destroyed.
#[derive(Debug, PartialEq, Eq, Structural)]
pub struct DeadComponentError;

/// Strong reference to a component. The component outlives this pointer: a
/// handle is duplicated with `clone_ref` and given back with `release`, and
/// both are booked in the storage's `Pending` queue.
#[derive(Debug, Hash)]
pub struct Pointer<T> {
    pub data: PointerData,
    pub marker: PhantomData<T>,
}

/// Weak variant of `Pointer`. Breaks reference cycles. Upgrade to access.
#[derive(Debug)]
pub struct WeakPointer<T> {
    pub data: PointerData,
    pub marker: PhantomData<T>,
}

impl<T> Pointer<T> {
    /// Creates a new `WeakPointer` to this component.
    pub fn downgrade(&self) -> (r: WeakPointer<T>)
        ensures
            r.data == self.data,
    {
        WeakPointer { data: self.data, marker: PhantomData }
    }

    /// Second strong reference to the same component; queues one added
    /// reference.
    pub fn clone_ref(&self, pending: &mut Pending) -> (r: Self)
        ensures
            r.data == self.data,
            old(pending).adds(self.data.index, *final(pending)),
    {
        pending.add_ref.push(self.data.get_index());
        Pointer { data: self.data, marker: PhantomData }
    }

    /// Gives the reference back; queues one dropped reference.
    pub fn release(self, pending: &mut Pending)
        ensures
            old(pending).drops(self.data.index, *final(pending)),
    {
        pending.sub_ref.push(self.data.get_index());
    }
}

/// Order of two addresses: by slot inside one storage, none across storages.
pub open spec fn pointer_order(a: PointerData, b: PointerData) -> Option<Ordering> {
    if a.storage_id != b.storage_id {
        None
    } else if a.index < b.index {
        Some(Ordering::Less)
    } else if a.index == b.index {
        Some(Ordering::Equal)
    } else {
        Some(Ordering::Greater)
    }
}

impl<T> PartialEqSpecImpl for Pointer<T> {
    open spec fn obeys_eq_spec() -> bool {
        true
    }

    open spec fn eq_spec(&self, other: &Self) -> bool {
        self.data == other.data
    }
}

impl<T> PartialEq for Pointer<T> {
    fn eq(&self, other: &Self) -> (r: bool) {
        self.data == other.data
    }
}

impl<T> Eq for Pointer<T> {

}

impl<T> PartialOrdSpecImpl for Pointer<T> {
    open spec fn obeys_partial_cmp_spec() -> bool {
        true
    }

    open spec fn partial_cmp_spec(&self, other: &Self) -> Option<Ordering> {
        pointer_order(self.data, other.data)
    }
}

impl<T> PartialOrd for Pointer<T> {
    fn partial_cmp(&self, other: &Self) -> (r: Option<Ordering>) {
        if self.data.storage_id != other.data.storage_id {
            None
        } else if self.data.index < other.data.index {
            Some(Ordering::Less)
        } else if self.data.index == other.data.index {
            Some(Ordering::Equal)
        } else {
            Some(Ordering::Greater)
        }
    }
}

impl<T> WeakPointer<T> {
    /// Upgrades to a `Pointer`. Fails exactly when the slot was vacated since
    /// the weak pointer was made.
    pub fn upgrade(&self, pending: &mut Pending) -> (r: Result<Pointer<T>, DeadComponentError>)
        ensures
            r is Ok <==> old(pending).is_current(self.data),
            match r {
                Ok(p) => p.data == self.data && old(pending).adds(
                    self.data.index,
                    *final(pending),
                ),
                Err(_) => *final(pending) == *old(pending),
            },
    {
        if pending.get_epoch(self.data.get_index()) != self.data.get_epoch() {
            return Err(DeadComponentError);
        }
        pending.add_ref.push(self.data.get_index());
        Ok(Pointer { data: self.data, marker: PhantomData })
    }
}

impl<T> Clone for WeakPointer<T> {
    fn clone(&self) -> (r: Self)
        ensures
            r.data == self.data,
    {
        WeakPointer { data: self.data, marker: PhantomData }
    }
}

impl<T> PartialEqSpecImpl for WeakPointer<T> {
    open spec fn obeys_eq_spec() -> bool {
        true
    }

    open spec fn eq_spec(&self, other: &Self) -> bool {
        self.data == other.data
    }
}

impl<T> PartialEq for WeakPointer<T> {
    fn eq(&self, other: &Self) -> (r: bool) {
        self.data == other.data
    }
}

impl<T> Eq for WeakPointer<T> {

}

} // verus!
