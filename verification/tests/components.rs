use segraph::ecs::pending::PointerData;
use segraph::ecs::pointer::{DeadComponentError, Pointer};
use segraph::ecs::storage::{Storage, StorageIds};

fn storage_of(values: &[u32]) -> (Storage<u32>, Vec<Pointer<u32>>) {
    let mut storage: Storage<u32> = Storage::new(1);
    let pointers = values.iter().map(|&v| storage.create(v)).collect();
    (storage, pointers)
}

#[test]
fn components_are_read_and_written_through_pointers() {
    let (mut storage, pointers) = storage_of(&[5, 6]);
    assert_eq!(*storage.index(&pointers[0]), 5);
    *storage.index_mut(&pointers[1]) = 60;
    assert_eq!(*storage.index(&pointers[1]), 60);
    assert!(pointers[0] < pointers[1]);
    assert!(pointers[0] != pointers[1]);
}

#[test]
fn a_released_slot_is_used_again_under_a_new_epoch() {
    let (mut storage, mut pointers) = storage_of(&[5, 6]);
    let first = pointers.remove(0);
    let weak = first.downgrade();
    assert!(weak.upgrade(&mut storage.pending).is_ok());
    let upgraded = weak.upgrade(&mut storage.pending).unwrap();
    upgraded.release(&mut storage.pending);
    storage.pending.sub_ref.push(0);
    first.release(&mut storage.pending);
    assert!(storage.sync_ready());
    storage.sync_pending();
    assert_eq!(weak.upgrade(&mut storage.pending).err(), Some(DeadComponentError));
    let again = storage.create(7);
    assert_eq!(again.data.get_index(), 0);
    assert_eq!(again.data.get_epoch(), 1);
    assert_eq!(*storage.index(&again), 7);
}

#[test]
fn a_second_reference_keeps_a_component() {
    let (mut storage, mut pointers) = storage_of(&[5]);
    let first = pointers.remove(0);
    let second = first.clone_ref(&mut storage.pending);
    let weak = first.downgrade();
    first.release(&mut storage.pending);
    storage.sync_pending();
    assert!(weak.upgrade(&mut storage.pending).is_ok());
    assert_eq!(*storage.index(&second), 5);
}

#[test]
fn iteration_skips_lost_components() {
    let (mut storage, mut pointers) = storage_of(&[1, 2, 3]);
    pointers.remove(1).release(&mut storage.pending);
    storage.sync_pending();
    let mut seen = Vec::new();
    let mut it = storage.iter();
    while let Some(item) = it.next() {
        seen.push((item.index, *item.data));
    }
    assert_eq!(seen, vec![(0, 1), (2, 3)]);
    let mut all = 0;
    let mut every = storage.iter_all();
    while every.next().is_some() {
        all += 1;
    }
    assert_eq!(all, 3);
    let mut back = storage.iter_mut();
    assert_eq!(back.next_back().copied(), Some(3));
    assert_eq!(back.next().copied(), Some(1));
    assert!(back.next().is_none());
    for v in storage.iter_all_mut() {
        *v += 10;
    }
    assert_eq!(*storage.index(&pointers[0]), 11);
}

#[test]
fn splitting_gives_both_sides_of_a_component() {
    let (mut storage, pointers) = storage_of(&[1, 2, 3]);
    let (left, middle, right) = storage.split(&pointers[1]);
    *middle = 20;
    assert_eq!(left.get(&pointers[0]), Some(&1));
    assert_eq!(left.get(&pointers[2]), None);
    assert_eq!(right.get(&pointers[2]), Some(&3));
    assert!(!left.is_empty());
    assert_eq!(*storage.index(&pointers[1]), 20);
}

#[test]
fn a_cursor_walks_both_ways() {
    let (mut storage, pointers) = storage_of(&[1, 2, 3]);
    let mut cursor = storage.cursor();
    if let Some((_, item, mut right)) = cursor.next() {
        assert_eq!(*item.item, 1);
        if let Some(v) = right.get_mut(&pointers[2]) {
            *v = 30;
        }
    }
    if let Some((left, mut item, _)) = cursor.next() {
        assert_eq!(left.get(&pointers[0]), Some(&1));
        let pinned = item.pin();
        assert_eq!(pinned.data.get_index(), 1);
    }
    assert_eq!(storage.pending.add_ref, vec![1]);
    let mut end = storage.cursor_end();
    if let Some((_, item, _)) = end.prev() {
        assert_eq!(*item.item, 30);
    }
    let held = storage.pin(2);
    assert_eq!(held.data.get_index(), 2);
    assert_eq!(storage.pending.add_ref, vec![1, 2]);
}

#[test]
fn storages_have_numbers_of_their_own() {
    let mut ids = StorageIds::new();
    let a = ids.allocate();
    let b = ids.allocate();
    assert_ne!(a, b);
    let from: Storage<u8> = Storage::from_vec(vec![1, 2], a);
    let other: Storage<u8> = Storage::with_capacity(4, b);
    assert_eq!(from.inner.data.len(), 2);
    assert_eq!(other.inner.data.len(), 0);
    let p: Pointer<u8> = Pointer {
        data: PointerData::new(0, 0, a),
        marker: core::marker::PhantomData,
    };
    let q: Pointer<u8> = Pointer {
        data: PointerData::new(0, 0, b),
        marker: core::marker::PhantomData,
    };
    assert_eq!(p.partial_cmp(&q), None);
    assert_eq!(p.data.with_epoch(4).get_epoch(), 4);
    assert_eq!(p.data.get_storage_id(), a);
}

/// Storage of five components of which the second and the last were lost.
fn with_gaps() -> (Storage<u32>, Vec<Pointer<u32>>) {
    let (mut storage, mut pointers) = storage_of(&[1, 2, 3, 4, 5]);
    pointers.remove(4).release(&mut storage.pending);
    pointers.remove(1).release(&mut storage.pending);
    storage.sync_pending();
    (storage, pointers)
}

#[test]
fn a_second_sync_changes_nothing() {
    let (mut storage, pointers) = with_gaps();
    let counts = storage.inner.meta.clone();
    let epochs = storage.pending.epoch.clone();
    let free = storage.inner.free_list.clone();
    assert_eq!(counts, vec![1, 0, 1, 1, 0]);
    assert_eq!(epochs, vec![0, 1, 0, 0, 1]);
    assert_eq!(free.len(), 2);
    storage.sync_pending();
    assert_eq!(storage.inner.meta, counts);
    assert_eq!(storage.pending.epoch, epochs);
    assert_eq!(storage.inner.free_list, free);
    assert_eq!(storage.inner.data, vec![1, 2, 3, 4, 5]);
    assert_eq!(pointers.len(), 3);
}

#[test]
fn a_mutable_walk_visits_the_kept_slots_in_order() {
    let (mut storage, _pointers) = with_gaps();
    let mut seen = Vec::new();
    let mut walk = storage.iter_mut();
    while let Some(v) = walk.next() {
        seen.push(*v);
        *v *= 10;
    }
    assert!(walk.next().is_none());
    assert_eq!(seen, vec![1, 3, 4]);
    assert_eq!(storage.inner.data, vec![10, 2, 30, 40, 5]);
    let mut reversed = Vec::new();
    let mut back = storage.iter_mut();
    while let Some(v) = back.next_back() {
        reversed.push(*v);
    }
    assert_eq!(reversed, vec![40, 30, 10]);
}

#[test]
fn cursors_visit_the_kept_slots_from_either_end() {
    let (mut storage, _pointers) = with_gaps();
    let mut seen = Vec::new();
    let mut cursor = storage.cursor();
    while let Some((left, item, right)) = cursor.next() {
        seen.push((left.slice.len(), *item.item, right.slice.len()));
    }
    assert!(cursor.next().is_none());
    assert_eq!(seen, vec![(0, 1, 4), (2, 3, 2), (3, 4, 1)]);
    let mut reversed = Vec::new();
    let mut end = storage.cursor_end();
    assert!(end.next().is_none());
    while let Some((_, item, _)) = end.prev() {
        reversed.push(*item.item);
    }
    assert_eq!(reversed, vec![4, 3, 1]);
}

#[test]
fn an_upgrade_fails_once_a_sync_found_no_reference() {
    let (mut storage, mut pointers) = storage_of(&[5]);
    let first = pointers.remove(0);
    let weak = first.downgrade();
    first.release(&mut storage.pending);
    let saved = weak.upgrade(&mut storage.pending).unwrap();
    storage.sync_pending();
    assert_eq!(storage.inner.meta, vec![1]);
    saved.release(&mut storage.pending);
    storage.sync_pending();
    assert!(weak.upgrade(&mut storage.pending).is_err());
    let again = storage.create(6);
    assert_eq!(again.data.get_index(), 0);
    assert!(weak.upgrade(&mut storage.pending).is_err());
    assert!(again.downgrade().upgrade(&mut storage.pending).is_ok());
}
