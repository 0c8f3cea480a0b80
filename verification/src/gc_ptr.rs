//! The raw handle: a copyable, address-only reference to an allocation.
//!
//! A `GcPtr` carries no ownership and no validity guarantee by itself;
//! validity is a property of the state it is presented to, and every
//! operation that follows a handle checks it against that state.

use vstd::prelude::*;

use crate::state::GcState;
use crate::trace::Trace;

verus! {

/// A copyable address of one allocation inside a collector's arena.
#[derive(Clone, Copy, Debug, PartialEq, Eq, Structural)]
pub struct GcPtr {
    pub addr: usize,
}

impl GcPtr {
    /// Wrap an address; only the collector hands out addresses of real
    /// allocations.
    pub(crate) fn new(addr: usize) -> (p: GcPtr)
        ensures
            p.addr == addr,
    {
        GcPtr { addr }
    }

    /// Read the payload behind this handle, if it still holds a live
    /// allocation in the given state.
    pub fn data<'a, T: Trace>(self, st: &'a GcState<T>) -> (r: Option<&'a T>)
        ensures
            r is Some <==> st.live(self.addr as int),
            r is Some ==> *(r->0) == st.objects@[self.addr as int]->0.data,
    {
        st.get(self)
    }

    /// Whether the allocation behind this handle is still owned by its
    /// creator rather than by the collector.  A dead handle reports false.
    pub fn is_unmanaged<T: Trace>(self, st: &GcState<T>) -> (r: bool)
        ensures
            r <==> (st.live(self.addr as int) && !st.managed(self.addr as int)),
    {
        st.is_unmanaged(self)
    }

    /// Free the allocation behind this handle directly, bypassing the
    /// collector, for a value that was never rooted.  Succeeds exactly when
    /// the allocation is live, unmanaged and owned by no other unmanaged
    /// allocation.
    pub fn deallocate<T: Trace>(self, st: &mut GcState<T>) -> (ok: bool)
        requires
            old(st).wf(),
        ensures
            final(st).wf(),
            ok <==> (old(st).live(self.addr as int) && !old(st).managed(self.addr as int)
                && !crate::state::pinned(old(st).objects@, self.addr as int)),
            ok ==> final(st).objects@ == old(st).objects@.update(self.addr as int, None),
            !ok ==> final(st).objects@ == old(st).objects@,
            final(st).roots@ == old(st).roots@,
            final(st).finalized@ == old(st).finalized@,
            final(st).next_root_id == old(st).next_root_id,
    {
        st.deallocate(self)
    }
}

impl Trace for GcPtr {
    open spec fn owned(&self) -> Seq<usize> {
        seq![self.addr]
    }

    fn children(&self) -> (out: Vec<usize>) {
        let mut out: Vec<usize> = Vec::new();
        out.push(self.addr);
        proof {
            assert(out@ =~= seq![self.addr]);
        }
        out
    }
}

} // verus!
