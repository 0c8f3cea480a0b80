//! An embeddable, precise, tracing garbage collector with explicit state.
//!
//! A [`GcState`] owns a set of heap allocations whose lifetime is decided by
//! reachability from registered roots rather than by static ownership.  User
//! code adopts values under a stack-scoped [`Root`] guard or a persistent
//! [`HeapRoot`], reads them back through copyable [`GcPtr`] handles, and runs
//! [`collect`] to mark every allocation reachable from a live root and sweep
//! the rest, recording one finalization per freed allocation.
//!
//! Every participating payload type implements [`Trace`], reporting the
//! addresses of the nested allocations it owns; the collector recurses
//! through those reports when it marks, manages and sweeps.

use vstd::prelude::*;

mod allocation;
mod gc;
mod gc_ptr;
mod gc_store;
mod heap_root;
mod no_trace;
mod root;
mod state;
mod trace;

pub use crate::allocation::Allocation;
pub use crate::gc::Gc;
pub use crate::gc_ptr::GcPtr;
pub use crate::gc_store::GcStore;
pub use crate::heap_root::HeapRoot;
pub use crate::heap_root::lemma_clone_keeps_target;
pub use crate::no_trace::NoTrace;
pub use crate::root::Root;
pub use crate::state::GcState;
pub use crate::state::RootEntry;
pub use crate::state::contains_addr;
pub use crate::state::edge;
pub use crate::state::find_root;
pub use crate::state::is_path;
pub use crate::state::is_source;
pub use crate::state::lemma_collect_idempotent;
pub use crate::state::lemma_find_root;
pub use crate::state::lemma_manage_spec_frame;
pub use crate::state::lemma_reach_step;
pub use crate::state::lemma_reachable_live;
pub use crate::state::lemma_rooted_reachable;
pub use crate::state::lemma_source_reachable;
pub use crate::state::live_at;
pub use crate::state::manage_spec;
pub use crate::state::managed_at;
pub use crate::state::managed_count;
pub use crate::state::marked_at;
pub use crate::state::owned_of;
pub use crate::state::pinned;
pub use crate::state::reachable;
pub use crate::state::rooted;
pub use crate::trace::Trace;

verus! {

/// Allocate a value outside the collector's care: the caller owns it until it
/// is managed.  Fails exactly when the value reports an owned address that
/// does not hold a live allocation.
pub fn alloc_unmanaged<T: Trace>(st: &mut GcState<T>, data: T) -> (r: Option<GcPtr>)
    requires
        old(st).wf(),
    ensures
        final(st).wf(),
        final(st).alloc_unmanaged_post(*old(st), data, r),
{
    st.alloc_unmanaged(data)
}

/// Allocate a value and hand it to the collector at once.  Fails exactly when
/// the value reports an owned address that does not hold a live allocation.
pub fn alloc_managed<T: Trace>(st: &mut GcState<T>, data: T) -> (r: Option<GcPtr>)
    requires
        old(st).wf(),
    ensures
        final(st).wf(),
        r is Some <==> forall|j: int|
            0 <= j < data.owned().len() ==> crate::state::live_at(
                old(st).objects@,
                #[trigger] data.owned()[j] as int,
            ),
        r is Some ==> {
            let addr = old(st).objects@.len() as int;
            &&& r->0.addr == old(st).objects@.len()
            &&& final(st).objects@ == crate::state::manage_spec(
                old(st).objects@.push(Some(Allocation { data, marked: false, managed: false })),
                addr,
            )
            &&& final(st).live(addr)
            &&& final(st).managed(addr)
            &&& final(st).objects@[addr]->0.data == data
        },
        r is None ==> final(st).objects@ == old(st).objects@,
        final(st).roots@ == old(st).roots@,
        final(st).finalized@ == old(st).finalized@,
        final(st).next_root_id == old(st).next_root_id,
{
    let p = st.alloc_unmanaged(data);
    match p {
        Some(p) => {
            let ghost mid = st.objects@;
            st.manage(p);
            proof {
                crate::state::lemma_manage_spec_frame(mid, p.addr as int);
            }
            Some(p)
        },
        None => None,
    }
}

/// Hand an allocation, and everything it transitively owns, to the collector.
/// Managing a dead or already managed handle changes nothing, so managing is
/// idempotent.
pub fn manage<T: Trace>(st: &mut GcState<T>, p: GcPtr)
    requires
        old(st).wf(),
    ensures
        final(st).wf(),
        final(st).objects@ == crate::state::manage_spec(old(st).objects@, p.addr as int),
        old(st).live(p.addr as int) ==> final(st).managed(p.addr as int),
        !(old(st).live(p.addr as int) && !old(st).managed(p.addr as int)) ==> final(st).objects@
            == old(st).objects@,
        final(st).roots@ == old(st).roots@,
        final(st).finalized@ == old(st).finalized@,
        final(st).next_root_id == old(st).next_root_id,
{
    st.manage(p)
}

/// The number of allocations currently owned by the collector.
pub fn count_managed_objects<T: Trace>(st: &GcState<T>) -> (n: usize)
    ensures
        n == crate::state::managed_count(st.objects@, st.objects@.len() as int),
{
    st.count_managed_objects()
}

/// The number of live roots.
pub fn count_roots<T: Trace>(st: &GcState<T>) -> (n: usize)
    ensures
        n == st.roots@.len(),
{
    st.count_roots()
}

/// Run one full mark-sweep cycle: every allocation reachable from a live root
/// (or still owned outside the collector) survives unchanged at an unchanged
/// address; every other managed allocation is finalized exactly once and
/// freed.
pub fn collect<T: Trace>(st: &mut GcState<T>)
    requires
        old(st).wf(),
    ensures
        final(st).wf(),
        final(st).collect_post(*old(st)),
{
    st.collect()
}

/// Re-register an existing handle so it may cross into another root's
/// validity region: the address never changes, and the target ends up
/// managed.  Fails exactly when the handle no longer points at a live
/// allocation.
pub fn reroot<T: Trace>(st: &mut GcState<T>, p: GcPtr) -> (r: Option<GcPtr>)
    requires
        old(st).wf(),
    ensures
        final(st).wf(),
        r is Some <==> old(st).live(p.addr as int),
        r is Some ==> r->0 == p && final(st).managed(p.addr as int),
        final(st).objects@ == crate::state::manage_spec(old(st).objects@, p.addr as int),
        final(st).roots@ == old(st).roots@,
        final(st).finalized@ == old(st).finalized@,
        final(st).next_root_id == old(st).next_root_id,
{
    let is_live = st.is_live(p);
    st.manage(p);
    if is_live {
        Some(p)
    } else {
        None
    }
}

} // verus!
