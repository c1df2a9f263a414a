use vstd::prelude::*;
use crate::lending_stream::{LendingStream, next_call};

verus! {

/// Ends for good at the first `None` of the stream it wraps.
#[derive(Clone, Debug)]
pub struct Fuse<S> {
    stream: S,
    done: bool,
}

impl<S: LendingStream> Fuse<S> {
    /// The wrapped stream.
    pub closed spec fn inner(&self) -> S {
        self.stream
    }

    /// Whether the wrapped stream has returned `None`.
    pub closed spec fn is_done(&self) -> bool {
        self.done
    }

    pub(crate) fn new(stream: S) -> (r: Self)
        ensures
            r.inner() == stream,
            !r.is_done(),
    {
        Fuse { stream, done: false }
    }
}

impl<S: LendingStream> LendingStream for Fuse<S> {
    type Item = S::Item;

    open spec fn wf(&self) -> bool {
        self.inner().wf()
    }

    open spec fn bound(&self) -> Option<nat> {
        if self.is_done() {
            Some(0)
        } else {
            self.inner().bound()
        }
    }

    /// Once done, the call returns `None` and changes nothing; before, it
    /// returns what the wrapped stream returns, and a `None` makes it done.
    open spec fn step(&self, after: Self, item: Option<S::Item>) -> bool {
        if self.is_done() {
            item is None && after == *self
        } else {
            next_call(self.inner(), after.inner(), item) && after.is_done() == (item is None)
        }
    }

    fn next(&mut self) -> (item: Option<S::Item>) {
        if self.done {
            None
        } else {
            match self.stream.next() {
                None => {
                    self.done = true;
                    None
                },
                Some(x) => Some(x),
            }
        }
    }
}

/// All items of a first stream, then those of a second.
#[derive(Clone, Debug)]
pub struct Chain<S, U> {
    first: Fuse<S>,
    second: Fuse<U>,
}

impl<S: LendingStream, U: LendingStream<Item = S::Item>> Chain<S, U> {
    /// The first stream, fused.
    pub closed spec fn front(&self) -> Fuse<S> {
        self.first
    }

    /// The second stream, fused.
    pub closed spec fn back(&self) -> Fuse<U> {
        self.second
    }

    pub(crate) fn new(first: S, second: U) -> (r: Self)
        ensures
            r.front().inner() == first,
            !r.front().is_done(),
            r.back().inner() == second,
            !r.back().is_done(),
    {
        Chain { first: Fuse::new(first), second: Fuse::new(second) }
    }
}

/// A call that asks `s1` and, when it has nothing, `s2` in turn: an item of
/// `s1` comes out with `s2` untouched; otherwise what `s2` returns comes out.
pub open spec fn first_then_second<S1: LendingStream, S2: LendingStream<Item = S1::Item>>(
    s1: S1,
    s2: S2,
    after1: S1,
    after2: S2,
    item: Option<S1::Item>,
) -> bool {
    ||| item is Some && next_call(s1, after1, item) && after2 == s2
    ||| next_call(s1, after1, None) && next_call(s2, after2, item)
}

impl<S: LendingStream, U: LendingStream<Item = S::Item>> LendingStream for Chain<S, U> {
    type Item = S::Item;

    open spec fn wf(&self) -> bool {
        self.front().wf() && self.back().wf()
    }

    open spec fn bound(&self) -> Option<nat> {
        match (self.front().bound(), self.back().bound()) {
            (Some(a), Some(b)) => Some(a + b),
            _ => None,
        }
    }

    /// The first stream is asked, and when it has nothing, the second.
    open spec fn step(&self, after: Self, item: Option<S::Item>) -> bool {
        first_then_second(self.front(), self.back(), after.front(), after.back(), item)
    }

    fn next(&mut self) -> (item: Option<S::Item>) {
        match self.first.next() {
            None => self.second.next(),
            Some(x) => Some(x),
        }
    }
}

/// Starts the stream over from a clone of its first state whenever it
/// runs out.
#[derive(Clone, Debug)]
pub struct Cycle<S> {
    orig: S,
    stream: S,
}

impl<S: LendingStream + Clone> Cycle<S> {
    /// The state the stream starts over from.
    pub closed spec fn start(&self) -> S {
        self.orig
    }

    /// The current run of the stream.
    pub closed spec fn current(&self) -> S {
        self.stream
    }

    pub(crate) fn new(stream: S) -> (r: Self)
        ensures
            cloned(stream, r.start()),
            r.current() == stream,
    {
        Cycle { orig: stream.clone(), stream }
    }
}

impl<S: LendingStream + Clone> LendingStream for Cycle<S> {
    type Item = S::Item;

    /// Every clone of the start is well formed.
    open spec fn wf(&self) -> bool {
        &&& self.current().wf()
        &&& forall|c: S| #[trigger] cloned(self.start(), c) ==> c.wf()
    }

    open spec fn bound(&self) -> Option<nat> {
        None
    }

    /// An item of the current run comes out; when the current run has
    /// nothing, a fresh clone of the start replaces it and what that clone
    /// returns comes out, even `None`.
    open spec fn step(&self, after: Self, item: Option<S::Item>) -> bool {
        &&& after.start() == self.start()
        &&& {
            ||| item is Some && next_call(self.current(), after.current(), item)
            ||| exists|spent: S, c: S|
                next_call(self.current(), spent, None) && cloned(self.start(), c) && next_call(
                    c,
                    after.current(),
                    item,
                )
        }
    }

    fn next(&mut self) -> (item: Option<S::Item>) {
        let ghost st = self.start();
        match self.stream.next() {
            None => {
                let ghost spent = self.stream;
                assert(next_call(old(self).current(), spent, None));
                assert(self.start() == st);
                let fresh = self.orig.clone();
                assert(cloned(st, fresh));
                assert(fresh.wf());
                self.stream = fresh;
                let item = self.stream.next();
                assert(next_call(fresh, self.current(), item));
                assert(self.start() == st);
                assert(next_call(old(self).current(), spent, None) && cloned(old(self).start(), fresh)
                    && next_call(fresh, self.current(), item));
                item
            },
            Some(x) => Some(x),
        }
    }
}

} // verus!
