use std::collections::VecDeque;

use shifgrethor::{
    alloc_managed, alloc_unmanaged, collect, count_managed_objects, count_roots, Gc, GcPtr,
    GcState, GcStore, HeapRoot, Root,
};

#[test]
fn collect_does_not_affect_reachable_roots() {
    let mut st: GcState<u64> = GcState::new();

    // At this point there should be no roots
    assert_eq!(count_roots(&st), 0);

    let _root = Root::new(&mut st); // Create a root

    assert_eq!(count_roots(&st), 1);

    // Even if we try to call collect() the root must live
    //  because its scope has not ended yet.
    collect(&mut st);
    assert_eq!(count_roots(&st), 1);
}

#[test]
fn count_roots_create_incr_destroy_decr() {
    let mut st: GcState<u64> = GcState::new();

    assert_eq!(count_roots(&st), 0);

    let root = Root::new(&mut st); // Create a root

    // Once we created a root there should be exactly 1 root
    assert_eq!(count_roots(&st), 1);

    // The root goes out of scope and is destroyed
    st.pop_root(root.id());
    assert_eq!(count_roots(&st), 0);
}

#[test]
fn count_roots_multiple_in_one_scope() {
    let mut st: GcState<u64> = GcState::new();

    assert_eq!(count_roots(&st), 0);

    let root1 = Root::new(&mut st);
    assert_eq!(count_roots(&st), 1);

    let root2 = Root::new(&mut st);
    assert_eq!(count_roots(&st), 2);

    st.pop_root(root2.id());
    st.pop_root(root1.id());

    assert_eq!(count_roots(&st), 0);
}

#[test]
fn count_roots_multiple_in_inherit_scope() {
    let mut st: GcState<u64> = GcState::new();

    assert_eq!(count_roots(&st), 0);

    let root1 = Root::new(&mut st);
    assert_eq!(count_roots(&st), 1);

    let root2 = Root::new(&mut st);

    assert_eq!(count_roots(&st), 2);

    st.pop_root(root2.id());

    assert_eq!(count_roots(&st), 1);

    st.pop_root(root1.id());

    assert_eq!(count_roots(&st), 0);
}

#[test]
fn stack_rooted() {
    let mut st: GcState<u64> = GcState::new();

    let root = Root::new(&mut st);
    let rid = root.id();

    let ptr1: Gc = root.gc(&mut st, 0xBADCAFE).unwrap();
    assert_eq!(*Gc::raw(ptr1).data(&st).unwrap(), 0xBADCAFE);
    collect(&mut st);
    let ptr2 = ptr1;
    assert_eq!(*Gc::raw(ptr2).data(&st).unwrap(), 0xBADCAFE);

    st.pop_root(rid);

    // Ensure that it gets collected once all roots are gone
    collect(&mut st);
    assert_eq!(count_managed_objects(&st), 0);
}

#[test]
fn rerooting() {
    let mut st: GcState<u64> = GcState::new();

    let outer_root = Root::new(&mut st);
    let outer_id = outer_root.id();
    let inner_root = Root::new(&mut st);
    let inner_id = inner_root.id();

    // It is in fact a pointer to the value
    let ptr1: Gc = inner_root.gc(&mut st, 0xBEEFDAD).unwrap();
    let addr1 = Gc::raw(ptr1);
    assert_eq!(*addr1.data(&st).unwrap(), 0xBEEFDAD);

    // Running the collector does not collect it, because it is still alive
    collect(&mut st);
    println!("here");
    assert_eq!(*Gc::raw(ptr1).data(&st).unwrap(), 0xBEEFDAD);

    // Create a second copy of it under the outer root
    let ptr2: Gc = outer_root.reroot(&mut st, ptr1).unwrap();

    // Assert that they point to the same object
    assert_eq!(*Gc::raw(ptr2).data(&st).unwrap(), 0xBEEFDAD);
    let addr2 = Gc::raw(ptr2);
    assert_eq!(addr1, addr2);

    // The inner root goes away; the object is still rooted and not collected
    st.pop_root(inner_id);
    collect(&mut st);
    assert_eq!(*Gc::raw(ptr2).data(&st).unwrap(), 0xBEEFDAD);

    // Ensure that it gets collected once all roots are gone
    st.pop_root(outer_id);
    collect(&mut st);
    assert_eq!(count_managed_objects(&st), 0);
}

#[test]
fn managed_count_tracks_adoption() {
    let mut st: GcState<u64> = GcState::new();
    assert_eq!(count_managed_objects(&st), 0);

    let root = Root::new(&mut st);
    let rid = root.id();
    let _g = root.gc(&mut st, 0xBADCAFE).unwrap();
    assert_eq!(count_managed_objects(&st), 1);

    collect(&mut st);
    assert_eq!(count_managed_objects(&st), 1);

    st.pop_root(rid);
    collect(&mut st);
    assert_eq!(count_managed_objects(&st), 0);
}

#[test]
fn finalized_exactly_once() {
    let mut st: GcState<u64> = GcState::new();

    let root = Root::new(&mut st);
    let rid = root.id();
    let g = root.gc(&mut st, 7).unwrap();
    let addr = Gc::raw(g).addr;

    st.pop_root(rid);
    collect(&mut st);

    // Freed by the first collection, finalized exactly once.
    assert_eq!(st.finalized, vec![addr]);
    assert!(Gc::raw(g).data(&st).is_none());

    // A further collection finds nothing to free and never double-frees.
    collect(&mut st);
    assert_eq!(st.finalized, vec![addr]);
    assert_eq!(count_managed_objects(&st), 0);
}

#[test]
fn graph_survives_through_owned_children() {
    let mut st: GcState<(u64, Vec<GcStore>)> = GcState::new();

    let child = GcStore::new(&mut st, (1, Vec::new())).unwrap();
    let child_ptr = GcStore::raw(&child);

    let root = Root::new(&mut st);
    let rid = root.id();
    let parent = root.gc(&mut st, (2, vec![child])).unwrap();

    // Adopting the parent managed the child transitively.
    assert_eq!(count_managed_objects(&st), 2);

    collect(&mut st);
    assert_eq!(count_managed_objects(&st), 2);
    assert_eq!(Gc::raw(parent).data(&st).unwrap().0, 2);
    assert_eq!(child_ptr.data(&st).unwrap().0, 1);

    st.pop_root(rid);
    collect(&mut st);
    assert_eq!(count_managed_objects(&st), 0);
    assert!(child_ptr.data(&st).is_none());
}

#[test]
fn cycle_is_collected() {
    let mut st: GcState<(u64, Vec<GcPtr>)> = GcState::new();

    let ra = Root::new(&mut st);
    let ra_id = ra.id();
    let a = ra.gc(&mut st, (1, Vec::new())).unwrap();
    let rb = Root::new(&mut st);
    let rb_id = rb.id();
    let b = rb.gc(&mut st, (2, Vec::new())).unwrap();

    // Tie the two objects into a cycle.
    let pa = Gc::raw(a);
    let pb = Gc::raw(b);
    assert!(st.set_data(pa, (1, vec![pb])).is_ok());
    assert!(st.set_data(pb, (2, vec![pa])).is_ok());

    collect(&mut st);
    assert_eq!(count_managed_objects(&st), 2);

    // Once both roots are gone the cycle is unreachable and is freed whole.
    st.pop_root(ra_id);
    st.pop_root(rb_id);
    collect(&mut st);
    assert_eq!(count_managed_objects(&st), 0);
    assert!(pa.data(&st).is_none());
    assert!(pb.data(&st).is_none());
}

#[test]
fn heap_root_clone_keeps_target() {
    let mut st: GcState<u64> = GcState::new();

    let hr1 = HeapRoot::new(&mut st, 41).unwrap();
    let hr2 = hr1.clone_in(&mut st);
    assert_eq!(count_roots(&st), 2);

    // Dropping the original leaves the clone as an independent proof of
    // liveness.
    assert!(hr1.release(&mut st));
    collect(&mut st);
    let g = hr2.gc();
    assert_eq!(*Gc::raw(g).data(&st).unwrap(), 41);

    // Dropping the clone as well frees the target on the next collection.
    assert!(hr2.release(&mut st));
    collect(&mut st);
    assert_eq!(count_managed_objects(&st), 0);
}

#[test]
fn heap_reroot_preserves_address() {
    let mut st: GcState<u64> = GcState::new();

    let root = Root::new(&mut st);
    let rid = root.id();
    let g = root.gc(&mut st, 9).unwrap();
    let before = Gc::raw(g);

    let hr = HeapRoot::reroot(&mut st, g).unwrap();
    let after = Gc::raw(hr.gc());
    assert_eq!(before, after);

    // The persistent root alone keeps the value alive.
    st.pop_root(rid);
    collect(&mut st);
    assert_eq!(*after.data(&st).unwrap(), 9);

    hr.release(&mut st);
    collect(&mut st);
    assert_eq!(count_managed_objects(&st), 0);
}

#[test]
fn unmanaged_owner_pins_its_target() {
    let mut st: GcState<(u64, Vec<GcStore>)> = GcState::new();

    let root = Root::new(&mut st);
    let rid = root.id();
    let g = root.gc(&mut st, (5, Vec::new())).unwrap();
    let target = Gc::raw(g);

    // An unmanaged allocation now owns the rooted value.
    let owner = GcStore::new(&mut st, (0, vec![GcStore::from_gc(g)])).unwrap();

    // The root goes away, but the outside owner still pins the target.
    st.pop_root(rid);
    collect(&mut st);
    assert_eq!(target.data(&st).unwrap().0, 5);
    assert_eq!(count_managed_objects(&st), 1);

    // The owner is never swept: it stays readable and unmanaged.
    assert_eq!(owner.get_maybe(&st).unwrap().0, 0);
}

#[test]
fn adoption_rejects_dead_children() {
    let mut st: GcState<(u64, Vec<GcStore>)> = GcState::new();

    let root = Root::new(&mut st);
    let rid = root.id();
    let g = root.gc(&mut st, (3, Vec::new())).unwrap();
    let dead = Gc::raw(g);
    st.pop_root(rid);
    collect(&mut st);
    assert!(dead.data(&st).is_none());

    // A payload owning a dead handle is refused outright.
    assert!(alloc_unmanaged(&mut st, (4, vec![GcStore { ptr: dead }])).is_none());
    assert_eq!(count_managed_objects(&st), 0);
}

#[test]
fn manage_is_idempotent() {
    let mut st: GcState<u64> = GcState::new();

    let p = alloc_managed(&mut st, 11).unwrap();
    assert_eq!(count_managed_objects(&st), 1);

    // Managing an already managed allocation changes nothing.
    shifgrethor::manage(&mut st, p);
    assert_eq!(count_managed_objects(&st), 1);
    assert!(!p.is_unmanaged(&st));
}

#[test]
fn unmanaged_allocation_is_caller_owned() {
    let mut st: GcState<u64> = GcState::new();

    let p = alloc_unmanaged(&mut st, 13).unwrap();
    assert!(p.is_unmanaged(&st));
    assert_eq!(count_managed_objects(&st), 0);

    // The collector leaves unmanaged allocations alone.
    collect(&mut st);
    assert_eq!(*p.data(&st).unwrap(), 13);

    // Managing it hands it over.
    shifgrethor::manage(&mut st, p);
    assert!(!p.is_unmanaged(&st));
    assert_eq!(count_managed_objects(&st), 1);
}

#[test]
fn pop_root_unknown_identity_fails() {
    let mut st: GcState<u64> = GcState::new();
    assert!(!st.pop_root(999));

    let root = Root::new(&mut st);
    let rid = root.id();
    assert!(st.pop_root(rid));
    // A second removal of the same identity finds nothing.
    assert!(!st.pop_root(rid));
}

#[test]
fn set_data_rejects_bad_children() {
    let mut st: GcState<(u64, Vec<GcPtr>)> = GcState::new();

    let root = Root::new(&mut st);
    let g = root.gc(&mut st, (1, Vec::new())).unwrap();
    let p = Gc::raw(g);

    // A managed object may not own an address with nothing behind it.
    let bogus = GcPtr { addr: 100 };
    let r = st.set_data(p, (1, vec![bogus]));
    assert!(r.is_err());
    // The payload comes back unchanged and the object keeps its old value.
    assert_eq!(r.unwrap_err().0, 1);
    assert_eq!(Gc::raw(g).data(&st).unwrap().0, 1);
}

#[test]
fn store_reads_only_while_unmanaged() {
    let mut st: GcState<u64> = GcState::new();

    let s = GcStore::new(&mut st, 21).unwrap();
    assert_eq!(*s.get_maybe(&st).unwrap(), 21);

    // Once managed, the store no longer hands the value out.
    shifgrethor::manage(&mut st, GcStore::raw(&s));
    assert!(s.get_maybe(&st).is_none());
}

#[test]
fn deallocate_unmanaged_directly() {
    let mut st: GcState<u64> = GcState::new();

    let p = alloc_unmanaged(&mut st, 5).unwrap();
    assert!(p.is_unmanaged(&st));
    assert!(p.deallocate(&mut st));
    assert!(p.data(&st).is_none());
    // A direct free is ordinary destruction: no finalization is recorded.
    assert!(st.finalized.is_empty());

    // A managed allocation cannot be freed directly.
    let q = alloc_managed(&mut st, 6).unwrap();
    assert!(!q.deallocate(&mut st));
    assert_eq!(*q.data(&st).unwrap(), 6);
}

#[test]
fn deallocate_respects_owners() {
    let mut st: GcState<(u64, Vec<GcStore>)> = GcState::new();

    let child = GcStore::new(&mut st, (1, Vec::new())).unwrap();
    let child_ptr = GcStore::raw(&child);
    let parent = GcStore::new(&mut st, (2, vec![child])).unwrap();

    // The child is owned by the parent, so it cannot be freed on its own.
    assert!(!child_ptr.deallocate(&mut st));

    // The parent has no owner; freeing it releases its claim on the child.
    assert!(parent.deallocate(&mut st));
    assert!(child_ptr.deallocate(&mut st));
    assert_eq!(count_managed_objects(&st), 0);
}

#[test]
fn allocation_record_starts_unmanaged_and_unmarked() {
    let a = shifgrethor::Allocation::new(5u64);
    assert_eq!(*a.data(), 5);
    assert!(!a.marked());
    assert!(a.is_unmanaged());
}

#[test]
fn registries_expose_their_entries() {
    let mut st: GcState<u64> = GcState::new();
    let root = Root::new(&mut st);
    let g = root.gc(&mut st, 7).unwrap();

    assert_eq!(st.roots().len(), 1);
    assert_eq!(st.roots()[0].target, Some(Gc::raw(g).addr));
    assert!(st.objects()[Gc::raw(g).addr].is_some());
}

#[test]
fn optional_child_is_traced() {
    let mut st: GcState<(u64, Option<GcStore>)> = GcState::new();

    let child = GcStore::new(&mut st, (1, None)).unwrap();
    let child_ptr = GcStore::raw(&child);

    let root = Root::new(&mut st);
    let rid = root.id();
    let _parent = root.gc(&mut st, (2, Some(child))).unwrap();
    assert_eq!(count_managed_objects(&st), 2);

    collect(&mut st);
    assert_eq!(child_ptr.data(&st).unwrap().0, 1);

    st.pop_root(rid);
    collect(&mut st);
    assert_eq!(count_managed_objects(&st), 0);
}

#[test]
fn queued_children_are_traced() {
    let mut st: GcState<(u64, VecDeque<GcStore>)> = GcState::new();

    let first = GcStore::new(&mut st, (1, VecDeque::new())).unwrap();
    let second = GcStore::new(&mut st, (2, VecDeque::new())).unwrap();
    let first_ptr = GcStore::raw(&first);

    let mut queue = VecDeque::new();
    queue.push_back(first);
    queue.push_back(second);

    let root = Root::new(&mut st);
    let rid = root.id();
    let _parent = root.gc(&mut st, (3, queue)).unwrap();
    assert_eq!(count_managed_objects(&st), 3);

    collect(&mut st);
    assert_eq!(first_ptr.data(&st).unwrap().0, 1);

    st.pop_root(rid);
    collect(&mut st);
    assert_eq!(count_managed_objects(&st), 0);
}

#[test]
fn raw_reroot_and_set_root() {
    let mut st: GcState<u64> = GcState::new();

    let p = alloc_unmanaged(&mut st, 5).unwrap();

    // Rescoping manages the target and never changes the address.
    let q = shifgrethor::reroot(&mut st, p).unwrap();
    assert_eq!(p, q);
    assert!(!p.is_unmanaged(&st));

    // A root entry can be pointed at the managed allocation by hand.
    let id = st.new_root();
    assert!(st.has_root(id));
    assert!(st.set_root(id, p));
    collect(&mut st);
    assert_eq!(*p.data(&st).unwrap(), 5);

    st.pop_root(id);
    assert!(!st.has_root(id));
    collect(&mut st);
    assert!(p.data(&st).is_none());

    // A dead handle cannot be rescoped, and an unmanaged target cannot be
    // enrooted.
    assert!(shifgrethor::reroot(&mut st, p).is_none());
    let u = alloc_unmanaged(&mut st, 6).unwrap();
    let id2 = st.new_root();
    assert!(!st.set_root(id2, u));
    st.pop_root(id2);
}
