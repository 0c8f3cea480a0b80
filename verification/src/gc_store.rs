//! The owning handle: holds an allocation that the collector does not own
//! yet, so it can sit inside a payload and be adopted together with it.

use vstd::prelude::*;

use crate::gc::Gc;
use crate::gc_ptr::GcPtr;
use crate::state::GcState;
use crate::trace::Trace;

verus! {

/// A handle to an allocation that its creator still owns.  While the
/// allocation is unmanaged the store may read it; once a root adopts the
/// payload holding this store, the allocation is managed and the collector
/// alone decides its lifetime.
pub struct GcStore {
    pub ptr: GcPtr,
}

impl GcStore {
    /// Allocate a value the caller keeps ownership of.  Fails exactly when
    /// the value reports an owned address with no live allocation behind
    /// it.
    pub fn new<T: Trace>(st: &mut GcState<T>, data: T) -> (r: Option<GcStore>)
        requires
            old(st).wf(),
        ensures
            final(st).wf(),
            r is Some ==> r->0.ptr.addr == old(st).objects@.len() && final(st).alloc_unmanaged_post(
                *old(st),
                data,
                Some(r->0.ptr),
            ),
            r is None ==> final(st).alloc_unmanaged_post(*old(st), data, None::<GcPtr>),
    {
        match st.alloc_unmanaged(data) {
            Some(p) => Some(GcStore { ptr: p }),
            None => None,
        }
    }

    /// The raw, address-only handle underneath.
    pub fn raw(this: &GcStore) -> (p: GcPtr)
        ensures
            p == this.ptr,
    {
        this.ptr
    }

    /// Wrap a rooted handle so its target can be stored inside another
    /// payload.  The target is already managed, so its lifetime stays with
    /// the collector.
    pub fn from_gc(gc: Gc) -> (s: GcStore)
        ensures
            s.ptr == gc.ptr,
    {
        GcStore { ptr: gc.ptr }
    }

    /// Drop this store and the allocation with it, if the collector never
    /// took it over: the counterpart of `new` for a value that was never
    /// rooted.  Succeeds exactly when the allocation is live, unmanaged and
    /// owned by no other unmanaged allocation.
    pub fn deallocate<T: Trace>(self, st: &mut GcState<T>) -> (ok: bool)
        requires
            old(st).wf(),
        ensures
            final(st).wf(),
            ok <==> (old(st).live(self.ptr.addr as int) && !old(st).managed(self.ptr.addr as int)
                && !crate::state::pinned(old(st).objects@, self.ptr.addr as int)),
            ok ==> final(st).objects@ == old(st).objects@.update(self.ptr.addr as int, None),
            !ok ==> final(st).objects@ == old(st).objects@,
            final(st).roots@ == old(st).roots@,
            final(st).finalized@ == old(st).finalized@,
            final(st).next_root_id == old(st).next_root_id,
    {
        st.deallocate(self.ptr)
    }

    /// Read the stored value.  The caller must still own it: reading
    /// through a store whose allocation the collector has taken over is a
    /// contract violation, ruled out here by precondition.
    pub fn get<'a, T: Trace>(&self, st: &'a GcState<T>) -> (r: &'a T)
        requires
            st.live(self.ptr.addr as int),
            !st.managed(self.ptr.addr as int),
        ensures
            *r == st.objects@[self.ptr.addr as int]->0.data,
    {
        st.get(self.ptr).unwrap()
    }

    /// Read the stored value, while this store still owns it.  Once the
    /// allocation is managed — or gone — there is nothing to hand out.
    pub fn get_maybe<'a, T: Trace>(&self, st: &'a GcState<T>) -> (r: Option<&'a T>)
        ensures
            r is Some <==> (st.live(self.ptr.addr as int) && !st.managed(self.ptr.addr as int)),
            r is Some ==> *(r->0) == st.objects@[self.ptr.addr as int]->0.data,
    {
        if st.is_unmanaged(self.ptr) {
            st.get(self.ptr)
        } else {
            None
        }
    }
}

impl Trace for GcStore {
    /// A store owns its target: adopting a payload that holds this store
    /// adopts the target too.
    open spec fn owned(&self) -> Seq<usize> {
        seq![self.ptr.addr]
    }

    fn children(&self) -> (out: Vec<usize>) {
        let mut out: Vec<usize> = Vec::new();
        out.push(self.ptr.addr);
        proof {
            assert(out@ =~= seq![self.ptr.addr]);
        }
        out
    }
}

} // verus!
