//! A wrapper asserting that a value never contains collector handles.

use vstd::prelude::*;

use crate::trace::Trace;

verus! {

/// A value the collector never looks inside.  Wrapping a type here asserts
/// it cannot own any allocation, so marking, managing and finalizing all
/// skip it.
#[derive(Clone, Copy, Debug, PartialEq, Eq, Hash)]
pub struct NoTrace<T> {
    pub data: T,
}

impl<T> NoTrace<T> {
    /// Wrap a value on the caller's own promise that it owns no handles.
    pub fn new_unchecked(data: T) -> (n: NoTrace<T>)
        ensures
            n.data == data,
    {
        NoTrace { data }
    }

    /// Get the wrapped value back out.
    pub fn get(&self) -> (d: &T)
        ensures
            *d == self.data,
    {
        &self.data
    }

    /// Get the wrapped value back out for writing.
    pub fn get_mut(&mut self) -> (d: &mut T)
        ensures
            *d == old(self).data,
            final(self).data == *final(d),
    {
        &mut self.data
    }
}

impl<T: 'static> NoTrace<T> {
    /// Wrap a value whose type owns no borrows at all; such a value cannot
    /// hold a handle scoped to any root.
    pub fn new_static(data: T) -> (n: NoTrace<T>)
        ensures
            n.data == data,
    {
        NoTrace { data }
    }
}

impl<T: Copy> NoTrace<T> {
    /// Wrap a trivially copyable value; such a value cannot own anything.
    pub fn new_copy(data: T) -> (n: NoTrace<T>)
        ensures
            n.data == data,
    {
        NoTrace { data }
    }
}

impl<T> Trace for NoTrace<T> {
    open spec fn owned(&self) -> Seq<usize> {
        Seq::empty()
    }

    fn children(&self) -> (out: Vec<usize>) {
        Vec::new()
    }
}

} // verus!
