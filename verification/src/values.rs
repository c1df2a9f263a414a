use vstd::prelude::*;
use crate::lending_stream::{LendingStream, next_call};

verus! {

broadcast use vstd::function::group_function_axioms;

/// Runs `f` over the items of the stream it wraps with a state that `f`
/// may change, and hands out what `f` returns.
#[derive(Clone, Debug)]
pub struct Scan<S, St, F> {
    stream: S,
    state: St,
    f: F,
}

impl<S: LendingStream, St, B, F: FnMut(&mut St, S::Item) -> Option<B>> Scan<S, St, F> {
    /// The wrapped stream.
    pub closed spec fn inner(&self) -> S {
        self.stream
    }

    /// The state handed to `f`.
    pub closed spec fn state(&self) -> St {
        self.state
    }

    /// The function run over the items.
    pub closed spec fn func(&self) -> F {
        self.f
    }

    pub(crate) fn new(stream: S, initial_state: St, f: F) -> (r: Self)
        ensures
            r.inner() == stream,
            r.state() == initial_state,
            r.func() == f,
    {
        Scan { stream, state: initial_state, f }
    }
}

/// `f`, called with a reference to the state `before` and the item `x`, may
/// return `out`. What the call leaves in the state is not part of this: it
/// is the far end of a mutable reference, which only a prophetic
/// specification can name.
pub open spec fn scan_call<St, T, B, F: FnMut(&mut St, T) -> Option<B>>(
    f: F,
    before: St,
    x: T,
    out: Option<B>,
) -> bool {
    exists|m: &mut St| *m == before && call_ensures(f, (m, x), out)
}

impl<S: LendingStream, St, B, F: FnMut(&mut St, S::Item) -> Option<B>> LendingStream for Scan<S, St, F> {
    type Item = B;

    /// `f` can be called on any state and item.
    open spec fn wf(&self) -> bool {
        &&& self.inner().wf()
        &&& forall|m: &mut St, x: S::Item| call_requires(self.func(), (m, x))
    }

    open spec fn bound(&self) -> Option<nat> {
        self.inner().bound()
    }

    /// `None` from the wrapped stream comes out and leaves the state; an item
    /// goes to `f` with the state, and what `f` returns comes out, the state
    /// being left as `f` left it.
    open spec fn step(&self, after: Self, item: Option<B>) -> bool {
        &&& after.func() == self.func()
        &&& {
            ||| next_call(self.inner(), after.inner(), None) && item is None && after.state() == self.state()
            ||| exists|x: S::Item|
                next_call(self.inner(), after.inner(), Some(x)) && scan_call(
                    self.func(),
                    self.state(),
                    x,
                    item,
                )
        }
    }

    fn next(&mut self) -> (item: Option<B>) {
        let ghost f0 = self.func();
        let ghost st0 = self.state();
        let next = self.stream.next();
        assert(self.func() == f0);
        assert(self.state() == st0);
        match next {
            None => {
                assert(next_call(old(self).inner(), self.inner(), None));
                None
            },
            Some(x) => {
                let ghost inner1 = self.stream;
                let out = (self.f)(&mut self.state, x);
                assert(next_call(old(self).inner(), self.inner(), Some(x)));
                assert(scan_call(f0, st0, x, out));
                out
            },
        }
    }
}

} // verus!
