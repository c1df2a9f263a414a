use vstd::prelude::*;
use crate::lending_stream::{LendingStream, next_call};
use crate::closures::Mapped;

verus! {

broadcast use vstd::function::group_function_axioms;

/// One call of a flattening stream over `outer`, whose items are streams,
/// with `current` the item stream being drained: with an item stream at
/// hand, the call returns what it returns and keeps it, even when that is
/// `None`; without one, the outer stream is asked for one, and its first
/// answer is returned.
pub open spec fn flat_step<O: LendingStream<Item = U>, U: LendingStream>(
    outer: O,
    current: Option<U>,
    outer_after: O,
    current_after: Option<U>,
    item: Option<U::Item>,
) -> bool {
    match current {
        Some(u) => outer_after == outer && (current_after matches Some(u2) && next_call(u, u2, item)),
        None => {
            ||| next_call(outer, outer_after, None) && current_after is None && item is None
            ||| exists|u: U|
                next_call(outer, outer_after, Some(u)) && (current_after matches Some(u2)
                    && next_call(u, u2, item))
        },
    }
}

/// The shared body of the flattening streams.
fn flat_next<O: LendingStream<Item = U>, U: LendingStream>(
    outer: &mut O,
    current: &mut Option<U>,
) -> (item: Option<U::Item>)
    requires
        old(outer).wf(),
        *old(current) matches Some(u) ==> u.wf(),
        forall|a: O, u: U| #[trigger] next_call(*old(outer), a, Some(u)) ==> u.wf(),
    ensures
        final(outer).wf(),
        *final(current) matches Some(u) ==> u.wf(),
        flat_step(*old(outer), *old(current), *final(outer), *final(current), item),
{
    let ghost outer0 = *outer;
    let mut u = match current.take() {
        Some(u) => u,
        None => {
            let fresh = outer.next();
            match fresh {
                None => {
                    return None;
                },
                Some(u) => {
                    assert(next_call(outer0, *outer, Some(u)));
                    u
                },
            }
        },
    };
    let item = u.next();
    *current = Some(u);
    item
}

/// Maps every item of a stream to a stream with `f`, and hands out the items
/// of those streams.
#[derive(Clone, Debug)]
pub struct FlatMap<S, U, F> {
    stream: Mapped<S, F>,
    inner_stream: Option<U>,
}

impl<S: LendingStream, U: LendingStream, F: FnMut(S::Item) -> U> FlatMap<S, U, F> {
    /// The stream of item streams.
    pub closed spec fn outer(&self) -> Mapped<S, F> {
        self.stream
    }

    /// The item stream being drained, if one was taken.
    pub closed spec fn current(&self) -> Option<U> {
        self.inner_stream
    }

    pub(crate) fn new(stream: Mapped<S, F>) -> (r: Self)
        ensures
            r.outer() == stream,
            r.current() is None,
    {
        FlatMap { stream, inner_stream: None }
    }
}

impl<S: LendingStream, U: LendingStream, F: FnMut(S::Item) -> U> LendingStream for FlatMap<
    S,
    U,
    F,
> {
    type Item = U::Item;

    /// Every stream that `f` can return is well formed.
    open spec fn wf(&self) -> bool {
        &&& self.outer().wf()
        &&& self.current() matches Some(u) ==> u.wf()
        &&& forall|x: S::Item, u: U| #[trigger] call_ensures(self.outer().func(), (x,), u) ==> u.wf()
    }

    open spec fn bound(&self) -> Option<nat> {
        None
    }

    open spec fn step(&self, after: Self, item: Option<U::Item>) -> bool {
        flat_step(self.outer(), self.current(), after.outer(), after.current(), item)
    }

    fn next(&mut self) -> (item: Option<U::Item>) {
        proof {
            assert forall|a: Mapped<S, F>, u: U| #[trigger] next_call(self.stream, a, Some(u)) implies u.wf() by {
                let x = choose|x: S::Item|
                    next_call(self.stream.inner(), a.inner(), Some(x)) && call_ensures(self.stream.func(), (x,), u);
                assert(call_ensures(self.outer().func(), (x,), u));
            }
        }
        flat_next(&mut self.stream, &mut self.inner_stream)
    }
}

/// Hands out the items of the streams that a stream yields.
#[derive(Clone, Debug)]
pub struct Flatten<S, U> {
    stream: S,
    inner_stream: Option<U>,
}

impl<S: LendingStream<Item = U>, U: LendingStream> Flatten<S, U> {
    /// The stream of item streams.
    pub closed spec fn outer(&self) -> S {
        self.stream
    }

    /// The item stream being drained, if one was taken.
    pub closed spec fn current(&self) -> Option<U> {
        self.inner_stream
    }

    pub(crate) fn new(stream: S) -> (r: Self)
        ensures
            r.outer() == stream,
            r.current() is None,
    {
        Flatten { stream, inner_stream: None }
    }
}

impl<S: LendingStream<Item = U>, U: LendingStream> LendingStream for Flatten<S, U> {
    type Item = U::Item;

    /// Every stream that a stream of this type can yield is well formed.
    open spec fn wf(&self) -> bool {
        &&& self.outer().wf()
        &&& self.current() matches Some(u) ==> u.wf()
        &&& forall|s: S, a: S, u: U| #[trigger] next_call(s, a, Some(u)) ==> u.wf()
    }

    open spec fn bound(&self) -> Option<nat> {
        None
    }

    open spec fn step(&self, after: Self, item: Option<U::Item>) -> bool {
        flat_step(self.outer(), self.current(), after.outer(), after.current(), item)
    }

    fn next(&mut self) -> (item: Option<U::Item>) {
        flat_next(&mut self.stream, &mut self.inner_stream)
    }
}

} // verus!
