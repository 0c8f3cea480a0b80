//! The rooted handle: a copyable reference handed out by a root guard.

use vstd::prelude::*;

use crate::gc_ptr::GcPtr;
use crate::trace::Trace;

verus! {

/// A copyable handle to an allocation that a root guard has registered.  A
/// `Gc` is only as valid as the guard it came from: while that guard is
/// live, its target survives every collection.
#[derive(Clone, Copy, Debug)]
pub struct Gc {
    pub ptr: GcPtr,
}

impl Gc {
    /// Wrap a raw handle as a rooted one.  The guards call this after
    /// enrooting a target; a caller reaching for it directly takes over the
    /// guards' obligation that some live root covers the address.
    pub fn rooted(ptr: GcPtr) -> (g: Gc)
        ensures
            g.ptr == ptr,
    {
        Gc { ptr }
    }

    /// The raw, address-only handle underneath.
    pub fn raw(this: Gc) -> (p: GcPtr)
        ensures
            p == this.ptr,
    {
        this.ptr
    }
}

impl Trace for Gc {
    /// A rooted handle owns nothing: its root keeps the target alive, so a
    /// value holding a `Gc` contributes no ownership of its own.
    open spec fn owned(&self) -> Seq<usize> {
        Seq::empty()
    }

    fn children(&self) -> (out: Vec<usize>) {
        Vec::new()
    }
}

} // verus!
