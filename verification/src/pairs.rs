use vstd::prelude::*;
use crate::lending_stream::{LendingStream, next_call};
use crate::fuse::first_then_second;

verus! {

/// Pairs the items of two streams, one from each per call.
#[derive(Clone, Debug)]
pub struct Zip<A, B> {
    first: A,
    second: B,
}

impl<A: LendingStream, B: LendingStream> Zip<A, B> {
    /// The stream of the left items.
    pub closed spec fn left(&self) -> A {
        self.first
    }

    /// The stream of the right items.
    pub closed spec fn right(&self) -> B {
        self.second
    }

    pub(crate) fn new(first: A, second: B) -> (r: Self)
        ensures
            r.left() == first,
            r.right() == second,
    {
        Zip { first, second }
    }
}

impl<A: LendingStream, B: LendingStream<Item = A::Item>> LendingStream for Zip<A, B> {
    type Item = (A::Item, A::Item);

    open spec fn wf(&self) -> bool {
        self.left().wf() && self.right().wf()
    }

    open spec fn bound(&self) -> Option<nat> {
        match (self.left().bound(), self.right().bound()) {
            (Some(a), Some(b)) => Some(if a < b { a } else { b }),
            (Some(a), None) => Some(a),
            (None, Some(b)) => Some(b),
            (None, None) => None,
        }
    }

    /// The left stream is asked first; when it has nothing the right one is
    /// not asked. When it has an item, the right stream is asked, and its
    /// `None` drops the left item.
    open spec fn step(&self, after: Self, item: Option<(A::Item, A::Item)>) -> bool {
        match item {
            Some((x, y)) => {
                next_call(self.left(), after.left(), Some(x)) && next_call(
                    self.right(),
                    after.right(),
                    Some(y),
                )
            },
            None => {
                ||| next_call(self.left(), after.left(), None) && after.right() == self.right()
                ||| exists|x: A::Item|
                    next_call(self.left(), after.left(), Some(x)) && next_call(
                        self.right(),
                        after.right(),
                        None,
                    )
            },
        }
    }

    fn next(&mut self) -> (item: Option<(A::Item, A::Item)>) {
        let a = self.first.next();
        match a {
            None => {
                None
            },
            Some(x) => {
                let b = self.second.next();
                match b {
                    None => {
                        assert(next_call(old(self).left(), self.left(), Some(x)));
                        None
                    },
                    Some(y) => Some((x, y)),
                }
            },
        }
    }
}

/// Asks a first stream, and when it has nothing, a second, on every call.
#[derive(Clone, Debug)]
pub struct Or<S1, S2> {
    stream1: S1,
    stream2: S2,
}

impl<S1: LendingStream, S2: LendingStream<Item = S1::Item>> Or<S1, S2> {
    /// The stream asked first.
    pub closed spec fn primary(&self) -> S1 {
        self.stream1
    }

    /// The stream asked when the first has nothing.
    pub closed spec fn fallback(&self) -> S2 {
        self.stream2
    }

    pub(crate) fn new(stream1: S1, stream2: S2) -> (r: Self)
        ensures
            r.primary() == stream1,
            r.fallback() == stream2,
    {
        Or { stream1, stream2 }
    }
}

impl<S1: LendingStream, S2: LendingStream<Item = S1::Item>> LendingStream for Or<S1, S2> {
    type Item = S1::Item;

    open spec fn wf(&self) -> bool {
        self.primary().wf() && self.fallback().wf()
    }

    open spec fn bound(&self) -> Option<nat> {
        match (self.primary().bound(), self.fallback().bound()) {
            (Some(a), Some(b)) => Some(a + b),
            _ => None,
        }
    }

    /// The first stream is asked, and when it has nothing, the second.
    open spec fn step(&self, after: Self, item: Option<S1::Item>) -> bool {
        first_then_second(self.primary(), self.fallback(), after.primary(), after.fallback(), item)
    }

    fn next(&mut self) -> (item: Option<S1::Item>) {
        let next = self.stream1.next();
        match next {
            Some(next) => Some(next),
            None => self.stream2.next(),
        }
    }
}

/// Asks two streams in an order drawn at random on every call.
#[derive(Clone, Debug)]
pub struct Race<S1, S2> {
    stream1: S1,
    stream2: S2,
}

/// Calls `fastrand::bool`, which draws a `bool` from the generator of the
/// calling thread. Nothing is stated of the result: it is chance.
#[verifier::external_body]
fn random_bool() -> bool {
    fastrand::bool()
}

impl<S1: LendingStream, S2: LendingStream<Item = S1::Item>> Race<S1, S2> {
    /// One of the two streams.
    pub closed spec fn one(&self) -> S1 {
        self.stream1
    }

    /// The other of the two streams.
    pub closed spec fn other(&self) -> S2 {
        self.stream2
    }

    pub(crate) fn new(stream1: S1, stream2: S2) -> (r: Self)
        ensures
            r.one() == stream1,
            r.other() == stream2,
    {
        Race { stream1, stream2 }
    }

    /// A call of `next` whose order has been drawn: `one_first` says whether
    /// `one` is asked before `other`.
    pub fn next_in_order(&mut self, one_first: bool) -> (item: Option<S1::Item>)
        requires
            old(self).wf(),
        ensures
            final(self).wf(),
            one_first ==> first_then_second(
                old(self).one(),
                old(self).other(),
                final(self).one(),
                final(self).other(),
                item,
            ),
            !one_first ==> first_then_second(
                old(self).other(),
                old(self).one(),
                final(self).other(),
                final(self).one(),
                item,
            ),
    {
        if one_first {
            let next = self.stream1.next();
            match next {
                Some(next) => Some(next),
                None => self.stream2.next(),
            }
        } else {
            let next = self.stream2.next();
            match next {
                Some(next) => Some(next),
                None => self.stream1.next(),
            }
        }
    }
}

impl<S1: LendingStream, S2: LendingStream<Item = S1::Item>> LendingStream for Race<S1, S2> {
    type Item = S1::Item;

    open spec fn wf(&self) -> bool {
        self.one().wf() && self.other().wf()
    }

    open spec fn bound(&self) -> Option<nat> {
        match (self.one().bound(), self.other().bound()) {
            (Some(a), Some(b)) => Some(a + b),
            _ => None,
        }
    }

    /// One of the two streams is asked, and when it has nothing, the other;
    /// which goes first is left to chance.
    open spec fn step(&self, after: Self, item: Option<S1::Item>) -> bool {
        ||| first_then_second(self.one(), self.other(), after.one(), after.other(), item)
        ||| first_then_second(self.other(), self.one(), after.other(), after.one(), item)
    }

    fn next(&mut self) -> (item: Option<S1::Item>) {
        let one_first = random_bool();
        self.next_in_order(one_first)
    }
}

} // verus!
