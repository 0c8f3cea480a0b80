//! The stack-scoped root guard: registered on creation, filled exactly
//! once, unregistered when its scope ends.

use vstd::prelude::*;

use crate::allocation::Allocation;
use crate::gc::Gc;
use crate::state::GcState;
use crate::state::RootEntry;
use crate::state::find_root;
use crate::state::live_at;
use crate::state::manage_spec;
use crate::trace::Trace;

verus! {

/// A root guard tied to one lexical scope.  Creating it registers an empty
/// entry in the root list; `gc` or `reroot` fills that entry exactly once —
/// each consumes the guard, so filling it twice is ruled out statically —
/// and `GcState::pop_root` with the guard's identity unregisters it when
/// the scope ends.  Guards nest freely: each one removes only its own
/// entry.
pub struct Root {
    pub id: usize,
}

impl Root {
    /// Register a fresh, not yet enrooted root.
    pub fn new<T: Trace>(st: &mut GcState<T>) -> (r: Root)
        requires
            old(st).wf(),
            old(st).next_root_id < usize::MAX,
        ensures
            final(st).wf(),
            r.id == old(st).next_root_id,
            final(st).roots@ == old(st).roots@.push(RootEntry { id: r.id, target: None }),
            final(st).next_root_id == old(st).next_root_id + 1,
            final(st).objects@ == old(st).objects@,
            final(st).finalized@ == old(st).finalized@,
    {
        Root { id: st.new_root() }
    }

    /// The identity of this guard's entry in the root list; `pop_root`
    /// takes it to unregister the guard.
    pub fn id(&self) -> (i: usize)
        ensures
            i == self.id,
    {
        self.id
    }

    /// Adopt a value: allocate it, hand it and everything it owns to the
    /// collector, and point this guard's entry at it, all in one step, so
    /// no collection can run between the allocation and its registration.
    /// Fails exactly when the guard's entry is gone or the value reports an
    /// owned address with no live allocation behind it; the state is then
    /// unchanged.
    pub fn gc<T: Trace>(self, st: &mut GcState<T>, data: T) -> (r: Option<Gc>)
        requires
            old(st).wf(),
        ensures
            final(st).wf(),
            r is Some <==> (find_root(old(st).roots@, self.id) >= 0 && forall|j: int|
                0 <= j < data.owned().len() ==> live_at(
                    old(st).objects@,
                    #[trigger] data.owned()[j] as int,
                )),
            r is Some ==> {
                let addr = old(st).objects@.len() as int;
                &&& (r->0).ptr.addr == old(st).objects@.len()
                &&& final(st).objects@ == manage_spec(
                    old(st).objects@.push(
                        Some(Allocation { data, marked: false, managed: false }),
                    ),
                    addr,
                )
                &&& final(st).live(addr)
                &&& final(st).managed(addr)
                &&& final(st).objects@[addr]->0.data == data
                &&& final(st).roots@ == old(st).roots@.update(
                    find_root(old(st).roots@, self.id),
                    RootEntry { id: self.id, target: Some(r->0.ptr.addr) },
                )
            },
            r is None ==> final(st).objects@ == old(st).objects@ && final(st).roots@ == old(
                st,
            ).roots@,
            final(st).finalized@ == old(st).finalized@,
            final(st).next_root_id == old(st).next_root_id,
    {
        if !st.has_root(self.id) {
            return None;
        }
        match st.alloc_unmanaged(data) {
            None => None,
            Some(p) => {
                let ghost mid = st.objects@;
                st.manage(p);
                proof {
                    crate::state::lemma_manage_spec_frame(mid, p.addr as int);
                }
                let ok = st.set_root(self.id, p);
                proof {
                    assert(ok);
                }
                Some(Gc::rooted(p))
            },
        }
    }

    /// Re-root an existing handle under this guard: the handle's target is
    /// managed (idempotently) and this guard's entry points at it.  The
    /// address never changes: the returned handle carries the same one.
    /// Fails exactly when the guard's entry is gone or the handle is dead;
    /// the state is then unchanged.
    pub fn reroot<T: Trace>(self, st: &mut GcState<T>, handle: Gc) -> (r: Option<Gc>)
        requires
            old(st).wf(),
        ensures
            final(st).wf(),
            r is Some <==> (find_root(old(st).roots@, self.id) >= 0 && old(st).live(
                handle.ptr.addr as int,
            )),
            r is Some ==> {
                &&& (r->0).ptr == handle.ptr
                &&& final(st).objects@ == manage_spec(old(st).objects@, handle.ptr.addr as int)
                &&& final(st).managed(handle.ptr.addr as int)
                &&& final(st).roots@ == old(st).roots@.update(
                    find_root(old(st).roots@, self.id),
                    RootEntry { id: self.id, target: Some(handle.ptr.addr) },
                )
            },
            r is None ==> final(st).objects@ == old(st).objects@ && final(st).roots@ == old(
                st,
            ).roots@,
            final(st).finalized@ == old(st).finalized@,
            final(st).next_root_id == old(st).next_root_id,
    {
        if !st.has_root(self.id) {
            return None;
        }
        if !st.is_live(handle.ptr) {
            return None;
        }
        st.manage(handle.ptr);
        let ok = st.set_root(self.id, handle.ptr);
        proof {
            assert(ok);
        }
        Some(Gc::rooted(handle.ptr))
    }
}

} // verus!
