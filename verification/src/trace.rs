//! The trace capability: the protocol every payload type implements so the
//! collector can walk through it.
//!
//! A payload reports the addresses of the allocations it owns.  Marking,
//! managing and sweeping all recurse through those reports, so a type that
//! forgets to report a nested handle would leave a reachable allocation
//! unregistered; the implementations here forward to every element.

use vstd::prelude::*;

verus! {

/// A type whose values may own garbage-collected allocations.
///
/// `owned` is the mathematical view of the handles nested anywhere inside a
/// value; `children` reports exactly that sequence to the collector at run
/// time.  Leaf types own nothing.
pub trait Trace {
    /// The addresses of the allocations this value owns, in order.
    spec fn owned(&self) -> Seq<usize>;

    /// Report the owned addresses to the collector.
    fn children(&self) -> (out: Vec<usize>)
        ensures
            out@ == self.owned(),
    ;
}

impl Trace for bool {
    open spec fn owned(&self) -> Seq<usize> {
        Seq::empty()
    }

    fn children(&self) -> (out: Vec<usize>) {
        Vec::new()
    }
}

impl Trace for char {
    open spec fn owned(&self) -> Seq<usize> {
        Seq::empty()
    }

    fn children(&self) -> (out: Vec<usize>) {
        Vec::new()
    }
}

impl Trace for u8 {
    open spec fn owned(&self) -> Seq<usize> {
        Seq::empty()
    }

    fn children(&self) -> (out: Vec<usize>) {
        Vec::new()
    }
}

impl Trace for u16 {
    open spec fn owned(&self) -> Seq<usize> {
        Seq::empty()
    }

    fn children(&self) -> (out: Vec<usize>) {
        Vec::new()
    }
}

impl Trace for u32 {
    open spec fn owned(&self) -> Seq<usize> {
        Seq::empty()
    }

    fn children(&self) -> (out: Vec<usize>) {
        Vec::new()
    }
}

impl Trace for u64 {
    open spec fn owned(&self) -> Seq<usize> {
        Seq::empty()
    }

    fn children(&self) -> (out: Vec<usize>) {
        Vec::new()
    }
}

impl Trace for usize {
    open spec fn owned(&self) -> Seq<usize> {
        Seq::empty()
    }

    fn children(&self) -> (out: Vec<usize>) {
        Vec::new()
    }
}

impl Trace for i8 {
    open spec fn owned(&self) -> Seq<usize> {
        Seq::empty()
    }

    fn children(&self) -> (out: Vec<usize>) {
        Vec::new()
    }
}

impl Trace for i16 {
    open spec fn owned(&self) -> Seq<usize> {
        Seq::empty()
    }

    fn children(&self) -> (out: Vec<usize>) {
        Vec::new()
    }
}

impl Trace for i32 {
    open spec fn owned(&self) -> Seq<usize> {
        Seq::empty()
    }

    fn children(&self) -> (out: Vec<usize>) {
        Vec::new()
    }
}

impl Trace for i64 {
    open spec fn owned(&self) -> Seq<usize> {
        Seq::empty()
    }

    fn children(&self) -> (out: Vec<usize>) {
        Vec::new()
    }
}

impl Trace for isize {
    open spec fn owned(&self) -> Seq<usize> {
        Seq::empty()
    }

    fn children(&self) -> (out: Vec<usize>) {
        Vec::new()
    }
}

impl Trace for String {
    open spec fn owned(&self) -> Seq<usize> {
        Seq::empty()
    }

    fn children(&self) -> (out: Vec<usize>) {
        Vec::new()
    }
}

impl Trace for () {
    open spec fn owned(&self) -> Seq<usize> {
        Seq::empty()
    }

    fn children(&self) -> (out: Vec<usize>) {
        Vec::new()
    }
}

impl<T: Trace> Trace for Option<T> {
    open spec fn owned(&self) -> Seq<usize> {
        match self {
            Some(inner) => inner.owned(),
            None => Seq::empty(),
        }
    }

    fn children(&self) -> (out: Vec<usize>) {
        match self {
            Some(inner) => inner.children(),
            None => Vec::new(),
        }
    }
}

impl<T: Trace, E: Trace> Trace for Result<T, E> {
    open spec fn owned(&self) -> Seq<usize> {
        match self {
            Ok(inner) => inner.owned(),
            Err(error) => error.owned(),
        }
    }

    fn children(&self) -> (out: Vec<usize>) {
        match self {
            Ok(inner) => inner.children(),
            Err(error) => error.children(),
        }
    }
}

impl<T: Trace> Trace for Box<T> {
    open spec fn owned(&self) -> Seq<usize> {
        (**self).owned()
    }

    fn children(&self) -> (out: Vec<usize>) {
        (**self).children()
    }
}

impl<A: Trace, B: Trace> Trace for (A, B) {
    open spec fn owned(&self) -> Seq<usize> {
        self.0.owned() + self.1.owned()
    }

    fn children(&self) -> (out: Vec<usize>) {
        let mut out = self.0.children();
        let mut rest = self.1.children();
        out.append(&mut rest);
        out
    }
}

impl<A: Trace, B: Trace, C: Trace> Trace for (A, B, C) {
    open spec fn owned(&self) -> Seq<usize> {
        self.0.owned() + self.1.owned() + self.2.owned()
    }

    fn children(&self) -> (out: Vec<usize>) {
        let mut out = self.0.children();
        let mut rest = self.1.children();
        out.append(&mut rest);
        let mut last = self.2.children();
        out.append(&mut last);
        out
    }
}

impl<T: Trace> Trace for Vec<T> {
    open spec fn owned(&self) -> Seq<usize> {
        self@.flat_map(|t: T| t.owned())
    }

    fn children(&self) -> (out: Vec<usize>) {
        let mut out: Vec<usize> = Vec::new();
        let mut i: usize = 0;
        while i < self.len()
            invariant
                i <= self@.len(),
                out@ == self@.take(i as int).flat_map(|t: T| t.owned()),
            decreases self@.len() - i,
        {
            let mut cs = self[i].children();
            proof {
                self@.lemma_flat_map_take_append(|t: T| t.owned(), i as int);
            }
            out.append(&mut cs);
            i = i + 1;
        }
        proof {
            assert(self@.take(self@.len() as int) =~= self@);
        }
        out
    }
}

impl<T: Trace> Trace for std::collections::VecDeque<T> {
    open spec fn owned(&self) -> Seq<usize> {
        self@.flat_map(|t: T| t.owned())
    }

    fn children(&self) -> (out: Vec<usize>) {
        let mut out: Vec<usize> = Vec::new();
        let mut i: usize = 0;
        while i < self.len()
            invariant
                i <= self@.len(),
                out@ == self@.take(i as int).flat_map(|t: T| t.owned()),
            decreases self@.len() - i,
        {
            let mut cs = self[i].children();
            proof {
                self@.lemma_flat_map_take_append(|t: T| t.owned(), i as int);
            }
            out.append(&mut cs);
            i = i + 1;
        }
        proof {
            assert(self@.take(self@.len() as int) =~= self@);
        }
        out
    }
}

impl<T: Trace, const N: usize> Trace for [T; N] {
    open spec fn owned(&self) -> Seq<usize> {
        self@.flat_map(|t: T| t.owned())
    }

    fn children(&self) -> (out: Vec<usize>) {
        let mut out: Vec<usize> = Vec::new();
        let mut i: usize = 0;
        while i < N
            invariant
                i <= self@.len(),
                out@ == self@.take(i as int).flat_map(|t: T| t.owned()),
            decreases self@.len() - i,
        {
            let mut cs = self[i].children();
            proof {
                self@.lemma_flat_map_take_append(|t: T| t.owned(), i as int);
            }
            out.append(&mut cs);
            i = i + 1;
        }
        proof {
            assert(self@.take(self@.len() as int) =~= self@);
        }
        out
    }
}

} // verus!
