use vstd::prelude::*;
use crate::lending_stream::{LendingStream, next_call};

verus! {

/// An item that lends a value: a shared reference.
pub trait Lent {
    type Target;

    /// The value lent.
    spec fn lent(&self) -> Self::Target;

    /// A reference to the value lent.
    fn target(&self) -> (r: &Self::Target)
        ensures
            *r == self.lent(),
    ;
}

impl<'a, T> Lent for &'a T {
    type Target = T;

    open spec fn lent(&self) -> T {
        **self
    }

    fn target(&self) -> (r: &T) {
        *self
    }
}

/// Hands out clones of the items that the stream it wraps lends.
#[derive(Clone, Debug)]
pub struct Cloned<S> {
    stream: S,
}

impl<S: LendingStream> Cloned<S> {
    /// The wrapped stream.
    pub closed spec fn inner(&self) -> S {
        self.stream
    }

    pub(crate) fn new(stream: S) -> (r: Self)
        ensures
            r.inner() == stream,
    {
        Cloned { stream }
    }
}

impl<S: LendingStream> LendingStream for Cloned<S> where S::Item: Lent, <S::Item as Lent>::Target: Clone {
    type Item = <S::Item as Lent>::Target;

    open spec fn wf(&self) -> bool {
        self.inner().wf()
    }

    open spec fn bound(&self) -> Option<nat> {
        self.inner().bound()
    }

    /// `None` passes through; an item comes out as a clone of the value it
    /// lends.
    open spec fn step(&self, after: Self, item: Option<Self::Item>) -> bool {
        match item {
            None => next_call(self.inner(), after.inner(), None),
            Some(y) => exists|x: S::Item|
                next_call(self.inner(), after.inner(), Some(x)) && cloned(x.lent(), y),
        }
    }

    fn next(&mut self) -> (item: Option<Self::Item>) {
        let next = self.stream.next();
        match next {
            None => None,
            Some(x) => {
                let y = x.target().clone();
                assert(next_call(old(self).inner(), self.inner(), Some(x)));
                Some(y)
            },
        }
    }
}

/// Hands out copies of the items that the stream it wraps lends.
#[derive(Clone, Debug)]
pub struct Copied<S> {
    stream: S,
}

impl<S: LendingStream> Copied<S> {
    /// The wrapped stream.
    pub closed spec fn inner(&self) -> S {
        self.stream
    }

    pub(crate) fn new(stream: S) -> (r: Self)
        ensures
            r.inner() == stream,
    {
        Copied { stream }
    }
}

impl<S: LendingStream> LendingStream for Copied<S> where S::Item: Lent, <S::Item as Lent>::Target: Copy {
    type Item = <S::Item as Lent>::Target;

    open spec fn wf(&self) -> bool {
        self.inner().wf()
    }

    open spec fn bound(&self) -> Option<nat> {
        self.inner().bound()
    }

    /// `None` passes through; an item comes out as a copy of the value it
    /// lends.
    open spec fn step(&self, after: Self, item: Option<Self::Item>) -> bool {
        match item {
            None => next_call(self.inner(), after.inner(), None),
            Some(y) => exists|x: S::Item| next_call(self.inner(), after.inner(), Some(x)) && x.lent() == y,
        }
    }

    fn next(&mut self) -> (item: Option<Self::Item>) {
        let next = self.stream.next();
        match next {
            None => None,
            Some(x) => {
                let y = *x.target();
                assert(next_call(old(self).inner(), self.inner(), Some(x)));
                Some(y)
            },
        }
    }
}

} // verus!
