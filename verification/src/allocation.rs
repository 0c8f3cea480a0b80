//! The allocation record: one heap value plus the collector's metadata.

use vstd::prelude::*;

use crate::trace::Trace;

verus! {

/// One heap-resident value together with its mark bit and its ownership
/// mode.  A record is unmanaged while its creator still owns it exclusively,
/// and managed once the collector's object registry owns it; the transition
/// is one-directional.  Identity is the record's address (its slot in the
/// collector's arena), which never changes once assigned.
pub struct Allocation<T> {
    pub data: T,
    pub marked: bool,
    pub managed: bool,
}

impl<T: Trace> Allocation<T> {
    /// Wrap a value as a fresh, unmarked, unmanaged record.
    pub fn new(data: T) -> (a: Allocation<T>)
        ensures
            a.data == data,
            !a.marked,
            !a.managed,
    {
        Allocation { data, marked: false, managed: false }
    }

    /// The payload.
    pub fn data(&self) -> (d: &T)
        ensures
            *d == self.data,
    {
        &self.data
    }

    /// The mark bit.  Outside a collection cycle it is always clear.
    pub fn marked(&self) -> (m: bool)
        ensures
            m == self.marked,
    {
        self.marked
    }

    /// Whether the record is still owned by its creator rather than by the
    /// collector.
    pub fn is_unmanaged(&self) -> (u: bool)
        ensures
            u == !self.managed,
    {
        !self.managed
    }
}

} // verus!
