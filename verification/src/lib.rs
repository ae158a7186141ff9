//! An ordered map, and a set on top of it, kept as a B-tree whose nodes are
//! shared between snapshots and copied only along the path that a write takes.
use vstd::prelude::*;
use std::sync::Arc;

pub mod order;
pub mod sorted;
pub mod leaf;
pub mod node;
pub mod btree;
pub mod join;

verus! {

/// A reference-counted pointer to a shared payload. It does not by itself
/// keep a writer apart from the other holders: [`CowArc`] does.
pub struct UnsafeArc<T> {
    pub(crate) data: Arc<T>,
}

impl<T> UnsafeArc<T> {
    /// What the pointer points to.
    pub open(crate) spec fn payload(self) -> T {
        *self.data
    }

    /// A pointer with one holder to `data`.
    pub fn new(data: T) -> (r: UnsafeArc<T>)
        ensures
            r.payload() == data,
    {
        UnsafeArc { data: Arc::new(data) }
    }

    /// As `new`, with a second handle to the same payload.
    pub fn new2(data: T) -> (r: (UnsafeArc<T>, UnsafeArc<T>))
        ensures
            r.0.payload() == data,
            r.1.payload() == data,
    {
        let first = UnsafeArc { data: Arc::new(data) };
        let second = first.clone();
        (first, second)
    }

    /// As `new`, with as many handles to the same payload as are asked for.
    /// Without a handle nothing holds the payload, and it is dropped.
    #[allow(non_snake_case)]
    pub fn newN(data: T, num_handles: usize) -> (r: Vec<UnsafeArc<T>>)
        ensures
            r@.len() == num_handles,
            forall|i: int| 0 <= i < r@.len() ==> (#[trigger] r@[i]).payload() == data,
    {
        let mut handles: Vec<UnsafeArc<T>> = Vec::new();
        if num_handles == 0 {
            return handles;
        }
        let first = UnsafeArc { data: Arc::new(data) };
        let mut i: usize = 1;
        while i < num_handles
            invariant
                1 <= i <= num_handles,
                handles@.len() == i - 1,
                first.payload() == data,
                forall|j: int|
                    0 <= j < handles@.len() ==> (#[trigger] handles@[j]).payload() == data,
            decreases num_handles - i,
        {
            handles.push(first.clone());
            i = i + 1;
        }
        handles.push(first);
        handles
    }

    /// Reads the payload.
    pub fn get_immut(&self) -> (r: &T)
        ensures
            *r == self.payload(),
    {
        &*self.data
    }

    /// Whether this handle was the only one when the count was read. The
    /// answer says nothing of the time after: another thread may hold a
    /// handle of its own and clone it.
    pub fn is_owned(&self) -> (r: bool) {
        only_holder(holders(&self.data))
    }
}

impl<T> Clone for UnsafeArc<T> {
    /// Another handle to the same payload.
    fn clone(&self) -> (r: UnsafeArc<T>)
        ensures
            r == *self,
    {
        UnsafeArc { data: share(&self.data) }
    }
}

/// A reference-counted cell that is copied when it is written to while shared.
///
/// Reading never copies. Writing goes through [`CowArc::get_mut`], which first
/// makes this handle the only owner of what it points to.
pub struct CowArc<T> {
    pub(crate) x: UnsafeArc<T>,
}

impl<T: Clone> CowArc<T> {
    /// What the cell holds.
    pub open(crate) spec fn payload(self) -> T {
        *self.x.data
    }

    /// A cell with one owner that holds `data`.
    pub fn new(data: T) -> (r: CowArc<T>)
        ensures
            r.payload() == data,
    {
        CowArc { x: UnsafeArc::new(data) }
    }

    /// Reads the cell.
    pub fn get(&self) -> (r: &T)
        ensures
            *r == self.payload(),
    {
        self.x.get_immut()
    }

    /// Gives write access to the cell. If another handle shares the payload,
    /// this handle is first pointed at a clone of it, so that no other handle
    /// sees what is written.
    pub fn get_mut(&mut self) -> (r: &mut T)
        ensures
            cloned(old(self).payload(), *r),
            final(self).payload() == *final(r),
    {
        make_unique(&mut self.x.data)
    }
}

impl<T> Clone for CowArc<T> {
    /// Another handle to the same payload.
    fn clone(&self) -> (r: CowArc<T>)
        ensures
            r == *self,
    {
        CowArc { x: self.x.clone() }
    }
}

/// `Arc::make_mut`: a mutable borrow of the payload, after the payload has
/// been replaced by a clone of itself if another handle shared it. The
/// contract says that what the borrow first reads is the old payload or a
/// clone of it, and that the cell ends up holding what the borrow ends up
/// holding.
#[verifier::external_body]
pub(crate) fn make_unique<T: Clone>(cell: &mut Arc<T>) -> (r: &mut T)
    ensures
        cloned(**old(cell), *r),
        **final(cell) == *final(r),
{
    Arc::make_mut(cell)
}

/// `Arc::clone`: one more handle to the same payload.
#[verifier::external_body]
pub(crate) fn share<T>(cell: &Arc<T>) -> (r: Arc<T>)
    ensures
        r == *cell,
{
    Arc::clone(cell)
}

/// Whether a count of handles says that there is one holder only.
pub fn only_holder(count: usize) -> (r: bool)
    ensures
        r == (count == 1),
{
    count == 1
}

/// `Arc::strong_count`: the number of handles to the payload at the moment
/// of the call. The contract claims only that the caller's own handle counts.
#[verifier::external_body]
pub(crate) fn holders<T>(cell: &Arc<T>) -> (r: usize)
    ensures
        r >= 1,
{
    Arc::strong_count(cell)
}

} // verus!
