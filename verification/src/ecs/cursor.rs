//! Streaming access to a storage with sight of the neighbouring components.

use core::marker::PhantomData;

use vstd::prelude::*;

use super::pending::{epoch_of, Epoch, Index, Pending, PointerData, StorageId};
use super::pointer::Pointer;
use super::storage::{lemma_first_kept, step_back, step_forward, StorageInner};

verus! {

/// Storage slice for cursor iteration.
#[derive(Debug)]
pub struct Slice<'a, T> {
    pub slice: &'a mut [T],
    pub offset: PointerData,
}

impl<'a, T> Slice<'a, T> {
    /// The components in view.
    pub open spec fn items(self) -> Seq<T> {
        self.slice@
    }

    /// Whether the slice covers a slot.
    pub open spec fn covers(self, index: Index) -> bool {
        self.offset.index <= index < self.offset.index + self.slice@.len()
    }

    /// Checks if the slice contains no elements.
    pub fn is_empty(&self) -> (r: bool)
        ensures
            r == (self.items().len() == 0),
    {
        self.slice.is_empty()
    }

    /// Gets a reference by pointer. Returns `None` if out of bounds.
    pub fn get(&self, pointer: &Pointer<T>) -> (r: Option<&T>)
        requires
            pointer.data.storage_id == self.offset.storage_id,
        ensures
            r is Some <==> self.covers(pointer.data.index),
            match r {
                Some(item) => *item == self.items()[pointer.data.index - self.offset.index],
                None => true,
            },
    {
        let index: usize = pointer.data.get_index();
        let start: usize = self.offset.get_index();
        if index < start || index - start >= self.slice.len() {
            None
        } else {
            Some(&self.slice[index - start])
        }
    }

    /// Gets a mutable reference by pointer. Returns `None` if out of bounds.
    pub fn get_mut(&mut self, pointer: &Pointer<T>) -> (r: Option<&mut T>)
        requires
            pointer.data.storage_id == old(self).offset.storage_id,
        ensures
            r is Some <==> old(self).covers(pointer.data.index),
            final(self).offset == old(self).offset,
            final(final(self).slice)@ == final(old(self).slice)@,
            match r {
                Some(item) => {
                    &&& *item == old(self).slice@[pointer.data.index - old(self).offset.index]
                    &&& final(self).slice@ == old(self).slice@.update(
                        pointer.data.index - old(self).offset.index,
                        *final(item),
                    )
                },
                None => final(self).slice@ == old(self).slice@,
            },
    {
        let index: usize = pointer.data.get_index();
        let start: usize = self.offset.get_index();
        if index < start || index - start >= self.slice.len() {
            None
        } else {
            Some(&mut self.slice[index - start])
        }
    }
}

/// Streaming iterator item. Allows accessing sibling components while iterating.
#[derive(Debug)]
pub struct CursorItem<'a, T> {
    pub item: &'a mut T,
    pub pending: &'a mut Pending,
    pub data: PointerData,
}

impl<'a, T> CursorItem<'a, T> {
    /// Pins the item with a strong pointer.
    pub fn pin(&mut self) -> (r: Pointer<T>)
        ensures
            r.data == (PointerData {
                index: old(self).data.index,
                epoch: epoch_of(old(self).pending.epoch@, old(self).data.index as int),
                storage_id: old(self).data.storage_id,
            }),
            *final(self).item == *old(self).item,
            *final(final(self).item) == *final(old(self).item),
            final(self).data == old(self).data,
            old(self).pending.adds(old(self).data.index, *final(self).pending),
            *final(final(self).pending) == *final(old(self).pending),
    {
        let index: Index = self.data.get_index();
        self.pending.add_ref.push(index);
        let epoch: Epoch = self.pending.get_epoch(index);
        Pointer { data: self.data.with_epoch(epoch), marker: PhantomData }
    }
}

/// Streaming mutable iterator with look-back/ahead.
#[derive(Debug)]
pub struct Cursor<'a, T> {
    pub storage: &'a mut StorageInner<T>,
    pub pending: &'a mut Pending,
    pub index: Index,
    pub storage_id: StorageId,
}

/// What a cursor hands out at slot `id`: the slots before it, the item, and
/// the slots after it.
pub open spec fn cursor_at<T>(
    before: Cursor<'_, T>,
    id: int,
    left: Slice<'_, T>,
    item: CursorItem<'_, T>,
    right: Slice<'_, T>,
) -> bool {
    &&& 0 <= id < before.storage.data@.len()
    &&& left.slice@ == before.storage.data@.take(id)
    &&& left.offset == (PointerData { index: 0, epoch: 0, storage_id: before.storage_id })
    &&& *item.item == before.storage.data@[id]
    &&& *item.pending == *before.pending
    &&& item.data == (PointerData {
        index: id as usize,
        epoch: 0,
        storage_id: before.storage_id,
    })
    &&& right.slice@ == before.storage.data@.skip(id + 1)
    &&& right.offset == (PointerData {
        index: (id + 1) as usize,
        epoch: 0,
        storage_id: before.storage_id,
    })
}

impl<'a, T> Cursor<'a, T> {
    fn split(&mut self, index: usize) -> (r: (Slice<'_, T>, CursorItem<'_, T>, Slice<'_, T>))
        requires
            index < old(self).storage.data@.len(),
        ensures
            cursor_at(*old(self), index as int, r.0, r.1, r.2),
            final(self).index == old(self).index,
            final(self).storage_id == old(self).storage_id,
            final(self).storage.data@ == final(r.0.slice)@ + seq![*final(r.1.item)]
                + final(r.2.slice)@,
            final(self).storage.meta == old(self).storage.meta,
            final(self).storage.free_list == old(self).storage.free_list,
            *final(self).pending == *final(r.1.pending),
            *final(final(self).storage) == *final(old(self).storage),
            *final(final(self).pending) == *final(old(self).pending),
    {
        let data: PointerData = PointerData::new(index, 0, self.storage_id);
        let (left, item, right) = self.storage.split(data);
        let item = CursorItem { item, pending: &mut *self.pending, data };
        (left, item, right)
    }

    /// Advances the stream to the next item.
    pub fn next(&mut self) -> (r: Option<(Slice<'_, T>, CursorItem<'_, T>, Slice<'_, T>)>)
        requires
            old(self).storage.data@.len() == old(self).storage.meta@.len(),
        ensures
            *final(final(self).storage) == *final(old(self).storage),
            *final(final(self).pending) == *final(old(self).pending),
            final(self).storage_id == old(self).storage_id,
            final(self).storage.meta == old(self).storage.meta,
            final(self).storage.free_list == old(self).storage.free_list,
            ({
                let (visited, index) = step_forward(
                    old(self).storage.meta@,
                    old(self).index as int,
                    old(self).storage.meta@.len() as int,
                );
                &&& final(self).index == index
                &&& match (r, visited) {
                    (Some((left, item, right)), Some(id)) => {
                        &&& cursor_at(*old(self), id, left, item, right)
                        &&& final(self).storage.data@ == final(left.slice)@ + seq![
                            *final(item.item),
                        ] + final(right.slice)@
                        &&& *final(self).pending == *final(item.pending)
                    },
                    (None, None) => {
                        &&& final(self).storage.data == old(self).storage.data
                        &&& *final(self).pending == *old(self).pending
                    },
                    _ => false,
                }
            }),
    {
        let total: usize = self.storage.meta.len();
        if self.index >= total {
            return None;
        }
        proof {
            lemma_first_kept(self.storage.meta@, true, self.index as int);
        }
        let id: usize = self.storage.find_kept(true, self.index);
        if id >= total {
            self.index = total;
            return None;
        }
        self.index = id + 1;
        Some(self.split(id))
    }

    /// Advances the stream to the previous item.
    pub fn prev(&mut self) -> (r: Option<(Slice<'_, T>, CursorItem<'_, T>, Slice<'_, T>)>)
        requires
            old(self).storage.data@.len() == old(self).storage.meta@.len(),
            old(self).index <= old(self).storage.meta@.len(),
        ensures
            *final(final(self).storage) == *final(old(self).storage),
            *final(final(self).pending) == *final(old(self).pending),
            final(self).storage_id == old(self).storage_id,
            final(self).storage.meta == old(self).storage.meta,
            final(self).storage.free_list == old(self).storage.free_list,
            ({
                let (visited, index) = step_back(
                    old(self).storage.meta@,
                    0,
                    old(self).index as int,
                );
                &&& final(self).index == index
                &&& match (r, visited) {
                    (Some((left, item, right)), Some(id)) => {
                        &&& cursor_at(*old(self), id, left, item, right)
                        &&& final(self).storage.data@ == final(left.slice)@ + seq![
                            *final(item.item),
                        ] + final(right.slice)@
                        &&& *final(self).pending == *final(item.pending)
                    },
                    (None, None) => {
                        &&& final(self).storage.data == old(self).storage.data
                        &&& *final(self).pending == *old(self).pending
                    },
                    _ => false,
                }
            }),
    {
        match self.storage.find_live_back(self.index) {
            None => {
                self.index = 0;
                None
            },
            Some(id) => {
                self.index = id;
                Some(self.split(id))
            },
        }
    }
}

} // verus!
