//! The heap-persistent root guard: not tied to a lexical scope, dropped
//! explicitly, and clonable — each clone is an independent proof of
//! liveness for the same target.

use vstd::prelude::*;

use crate::allocation::Allocation;
use crate::gc::Gc;
use crate::gc_ptr::GcPtr;
use crate::state::GcState;
use crate::state::RootEntry;
use crate::state::find_root;
use crate::state::lemma_find_root;
use crate::state::lemma_rooted_reachable;
use crate::state::live_at;
use crate::state::manage_spec;
use crate::state::reachable;
use crate::state::rooted;
use crate::trace::Trace;

verus! {

/// A root guard with its own lifetime: it keeps its target reachable until
/// it is released, wherever it is stored meanwhile.
pub struct HeapRoot {
    pub id: usize,
    pub ptr: GcPtr,
}

impl HeapRoot {
    /// Whether this guard's entry stands in the state's root list, pointing
    /// at this guard's target.
    pub open spec fn registered<T: Trace>(&self, st: &GcState<T>) -> bool {
        exists|i: int|
            0 <= i < st.roots@.len() && #[trigger] st.roots@[i] == (RootEntry {
                id: self.id,
                target: Some(self.ptr.addr),
            })
    }

    /// Adopt a value under a fresh persistent root.  Fails exactly when the
    /// value reports an owned address with no live allocation behind it;
    /// the state is then unchanged.
    pub fn new<T: Trace>(st: &mut GcState<T>, data: T) -> (r: Option<HeapRoot>)
        requires
            old(st).wf(),
            old(st).next_root_id < usize::MAX,
        ensures
            final(st).wf(),
            r is Some <==> forall|j: int|
                0 <= j < data.owned().len() ==> live_at(
                    old(st).objects@,
                    #[trigger] data.owned()[j] as int,
                ),
            r is Some ==> {
                let addr = old(st).objects@.len() as int;
                &&& r->0.ptr.addr == old(st).objects@.len()
                &&& r->0.id == old(st).next_root_id
                &&& r->0.registered(final(st))
                &&& final(st).objects@ == manage_spec(
                    old(st).objects@.push(
                        Some(Allocation { data, marked: false, managed: false }),
                    ),
                    addr,
                )
                &&& final(st).live(addr)
                &&& final(st).managed(addr)
                &&& final(st).objects@[addr]->0.data == data
                &&& final(st).roots@ == old(st).roots@.push(
                    RootEntry { id: r->0.id, target: Some(r->0.ptr.addr) },
                )
                &&& final(st).next_root_id == old(st).next_root_id + 1
            },
            r is None ==> final(st).objects@ == old(st).objects@ && final(st).roots@ == old(
                st,
            ).roots@ && final(st).next_root_id == old(st).next_root_id,
            final(st).finalized@ == old(st).finalized@,
    {
        match st.alloc_unmanaged(data) {
            None => None,
            Some(p) => {
                let ghost mid = st.objects@;
                st.manage(p);
                proof {
                    crate::state::lemma_manage_spec_frame(mid, p.addr as int);
                }
                let id = st.new_root();
                let ghost roots1 = st.roots@;
                let ok = st.set_root(id, p);
                proof {
                    lemma_find_root(roots1, id);
                    let f = find_root(roots1, id);
                    assert(roots1[roots1.len() - 1].id == id);
                    assert(f >= 0);
                    if f < roots1.len() - 1 {
                        assert(old(st).roots@[f].id == id);
                        assert(false);
                    }
                    assert(ok);
                    assert(st.roots@ =~= old(st).roots@.push(
                        RootEntry { id, target: Some(p.addr) },
                    ));
                    assert(st.roots@[st.roots@.len() - 1] == (RootEntry {
                        id,
                        target: Some(p.addr),
                    }));
                }
                Some(HeapRoot { id, ptr: p })
            },
        }
    }

    /// Re-root an existing handle under a fresh persistent root.  The
    /// address never changes: the returned guard carries the same one.
    /// Fails exactly when the handle is dead; the state is then unchanged.
    pub fn reroot<T: Trace>(st: &mut GcState<T>, handle: Gc) -> (r: Option<HeapRoot>)
        requires
            old(st).wf(),
            old(st).next_root_id < usize::MAX,
        ensures
            final(st).wf(),
            r is Some <==> old(st).live(handle.ptr.addr as int),
            r is Some ==> {
                &&& (r->0).ptr == handle.ptr
                &&& r->0.id == old(st).next_root_id
                &&& r->0.registered(final(st))
                &&& final(st).objects@ == manage_spec(old(st).objects@, handle.ptr.addr as int)
                &&& final(st).managed(handle.ptr.addr as int)
                &&& final(st).roots@ == old(st).roots@.push(
                    RootEntry { id: r->0.id, target: Some(r->0.ptr.addr) },
                )
                &&& final(st).next_root_id == old(st).next_root_id + 1
            },
            r is None ==> final(st).objects@ == old(st).objects@ && final(st).roots@ == old(
                st,
            ).roots@ && final(st).next_root_id == old(st).next_root_id,
            final(st).finalized@ == old(st).finalized@,
    {
        if !st.is_live(handle.ptr) {
            return None;
        }
        st.manage(handle.ptr);
        let id = st.new_root();
        let ghost roots1 = st.roots@;
        let ok = st.set_root(id, handle.ptr);
        proof {
            lemma_find_root(roots1, id);
            let f = find_root(roots1, id);
            assert(roots1[roots1.len() - 1].id == id);
            assert(f >= 0);
            if f < roots1.len() - 1 {
                assert(old(st).roots@[f].id == id);
                assert(false);
            }
            assert(ok);
            assert(st.roots@ =~= old(st).roots@.push(
                RootEntry { id, target: Some(handle.ptr.addr) },
            ));
            assert(st.roots@[st.roots@.len() - 1] == (RootEntry {
                id,
                target: Some(handle.ptr.addr),
            }));
        }
        Some(HeapRoot { id, ptr: handle.ptr })
    }

    /// A rooted handle to this guard's target, valid as long as the guard
    /// is registered.
    pub fn gc(&self) -> (g: Gc)
        ensures
            g.ptr == self.ptr,
    {
        Gc::rooted(self.ptr)
    }

    /// Clone this guard: a new, independently released root entry pointing
    /// at the same target.  Either guard alone keeps the target reachable.
    pub fn clone_in<T: Trace>(&self, st: &mut GcState<T>) -> (r: HeapRoot)
        requires
            old(st).wf(),
            old(st).next_root_id < usize::MAX,
            self.registered(old(st)),
        ensures
            final(st).wf(),
            r.ptr == self.ptr,
            r.id == old(st).next_root_id,
            r.registered(final(st)),
            final(st).roots@ == old(st).roots@.push(
                RootEntry { id: r.id, target: Some(self.ptr.addr) },
            ),
            final(st).objects@ == old(st).objects@,
            final(st).finalized@ == old(st).finalized@,
            final(st).next_root_id == old(st).next_root_id + 1,
    {
        proof {
            let i = choose|i: int|
                0 <= i < st.roots@.len() && #[trigger] st.roots@[i] == (RootEntry {
                    id: self.id,
                    target: Some(self.ptr.addr),
                });
            assert(st.managed(self.ptr.addr as int));
        }
        let id = st.new_root();
        let ghost roots1 = st.roots@;
        let ok = st.set_root(id, self.ptr);
        proof {
            lemma_find_root(roots1, id);
            let f = find_root(roots1, id);
            assert(roots1[roots1.len() - 1].id == id);
            assert(f >= 0);
            if f < roots1.len() - 1 {
                assert(old(st).roots@[f].id == id);
                assert(false);
            }
            assert(ok);
            assert(st.roots@ =~= old(st).roots@.push(
                RootEntry { id, target: Some(self.ptr.addr) },
            ));
            assert(st.roots@[st.roots@.len() - 1] == (RootEntry {
                id,
                target: Some(self.ptr.addr),
            }));
        }
        HeapRoot { id, ptr: self.ptr }
    }

    /// Release this guard: its entry leaves the root list, while every
    /// other entry — a clone's included — stays.
    pub fn release<T: Trace>(self, st: &mut GcState<T>) -> (ok: bool)
        requires
            old(st).wf(),
        ensures
            final(st).wf(),
            ok <==> find_root(old(st).roots@, self.id) >= 0,
            ok ==> final(st).roots@ == old(st).roots@.remove(find_root(old(st).roots@, self.id)),
            !ok ==> final(st).roots@ == old(st).roots@,
            final(st).objects@ == old(st).objects@,
            final(st).finalized@ == old(st).finalized@,
            final(st).next_root_id == old(st).next_root_id,
    {
        st.pop_root(self.id)
    }
}

/// Cloning a persistent root, and dropping the original afterwards, keeps
/// the target reachable: the clone's entry survives the removal of any
/// entry with another identity, so it still proves the target's liveness.
pub proof fn lemma_clone_keeps_target<T: Trace>(
    objs: Seq<Option<Allocation<T>>>,
    roots: Seq<RootEntry>,
    removed: usize,
    keeper: usize,
    t: usize,
)
    requires
        removed != keeper,
        exists|i: int|
            0 <= i < roots.len() && #[trigger] roots[i] == (RootEntry {
                id: keeper,
                target: Some(t),
            }),
        0 <= find_root(roots, removed) < roots.len(),
        roots[find_root(roots, removed)].id == removed,
    ensures
        rooted(roots.remove(find_root(roots, removed)), t as int),
        reachable(objs, roots.remove(find_root(roots, removed)), t as int),
{
    let r = find_root(roots, removed);
    let i = choose|i: int|
        0 <= i < roots.len() && #[trigger] roots[i] == (RootEntry {
            id: keeper,
            target: Some(t),
        });
    assert(i != r);
    let after = roots.remove(r);
    if i < r {
        assert(after[i] == roots[i]);
        assert((#[trigger] after[i]).target is Some && after[i].target->0 as int == t as int);
    } else {
        assert(after[i - 1] == roots[i]);
        assert((#[trigger] after[i - 1]).target is Some && after[i - 1].target->0 as int
            == t as int);
    }
    lemma_rooted_reachable(objs, after, t as int);
}

} // verus!
