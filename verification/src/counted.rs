use vstd::prelude::*;
use crate::lending_stream::{LendingStream, next_call, bound_kept, lemma_bound_kept_trans};
use crate::runs::{is_run_between, all_some, ends_at_first_none, lemma_extend, lemma_run_empty};

verus! {

/// Yields at most `n` items of the stream it wraps.
#[derive(Clone, Debug)]
pub struct Take<S> {
    stream: S,
    n: usize,
}

impl<S: LendingStream> Take<S> {
    /// The wrapped stream.
    pub closed spec fn inner(&self) -> S {
        self.stream
    }

    /// How many more items may pass.
    pub closed spec fn remaining(&self) -> nat {
        self.n as nat
    }

    pub(crate) fn new(stream: S, n: usize) -> (r: Self)
        ensures
            r.inner() == stream,
            r.remaining() == n,
    {
        Take { stream, n }
    }
}

impl<S: LendingStream> LendingStream for Take<S> {
    type Item = S::Item;

    open spec fn wf(&self) -> bool {
        self.inner().wf()
    }

    open spec fn bound(&self) -> Option<nat> {
        match self.inner().bound() {
            Some(b) => Some(if b < self.remaining() { b } else { self.remaining() }),
            None => Some(self.remaining()),
        }
    }

    /// With nothing left to let through, the call returns `None` and touches
    /// nothing; otherwise it returns what the wrapped stream returns, and the
    /// count goes down by one on an item and to zero on `None`.
    open spec fn step(&self, after: Self, item: Option<S::Item>) -> bool {
        if self.remaining() == 0 {
            item is None && after == *self
        } else {
            &&& next_call(self.inner(), after.inner(), item)
            &&& after.remaining() == (if item is Some { (self.remaining() - 1) as nat } else { 0 })
        }
    }

    fn next(&mut self) -> (item: Option<S::Item>) {
        if self.n == 0 {
            None
        } else {
            let next = self.stream.next();
            match next {
                Some(_) => self.n = self.n - 1,
                None => self.n = 0,
            }
            next
        }
    }
}

/// Passes over the first `n` items of the stream it wraps.
#[derive(Clone, Debug)]
pub struct Skip<S> {
    stream: S,
    n: usize,
}

impl<S: LendingStream> Skip<S> {
    /// The wrapped stream.
    pub closed spec fn inner(&self) -> S {
        self.stream
    }

    /// How many items are still to be passed over.
    pub closed spec fn remaining(&self) -> nat {
        self.n as nat
    }

    pub(crate) fn new(stream: S, n: usize) -> (r: Self)
        ensures
            r.inner() == stream,
            r.remaining() == n,
    {
        Skip { stream, n }
    }
}

/// The calls that a stream which drops `n` items before handing one out
/// makes on the stream `s` it wraps: `n + 1` calls that return items but
/// possibly the last, whose answer is the result, or fewer calls that end on
/// the first `None`, which is then the result; `left` is how many items are
/// still to be dropped afterwards.
pub open spec fn drop_then_take<S: LendingStream>(
    s: S,
    n: nat,
    after: S,
    item: Option<S::Item>,
    left: nat,
) -> bool {
    exists|states: Seq<S>, items: Seq<Option<S::Item>>| #![trigger is_run_between(states, items, s, after)] {
        &&& is_run_between(states, items, s, after)
        &&& {
            ||| items.len() == n + 1 && all_some(items.drop_last()) && item == items.last() && left == 0
            ||| 1 <= items.len() <= n && ends_at_first_none(items) && item is None && left == n - (
            items.len() - 1)
        }
    }
}

impl<S: LendingStream> LendingStream for Skip<S> {
    type Item = S::Item;

    open spec fn wf(&self) -> bool {
        self.inner().wf()
    }

    open spec fn bound(&self) -> Option<nat> {
        self.inner().bound()
    }

    /// The call drops the items still to be dropped and hands out the one
    /// after them; a `None` met while dropping ends the call, and the items
    /// dropped so far stay dropped.
    open spec fn step(&self, after: Self, item: Option<S::Item>) -> bool {
        drop_then_take(self.inner(), self.remaining(), after.inner(), item, after.remaining())
    }

    fn next(&mut self) -> (item: Option<S::Item>) {
        let ghost n0 = self.n as nat;
        let ghost s0 = self.stream;
        let ghost mut states: Seq<S> = seq![self.stream];
        let ghost mut items: Seq<Option<S::Item>> = Seq::empty();
        proof {
            lemma_run_empty(self.stream);
        }
        while self.n > 0
            invariant
                self.stream.wf(),
                is_run_between(states, items, s0, self.stream),
                s0 == old(self).stream,
                n0 == old(self).n,
                all_some(items),
                items.len() + self.n == n0,
                bound_kept(s0.bound(), self.stream.bound(), false),
            decreases self.n,
        {
            let ghost mid = self.stream;
            let next = self.stream.next();
            proof {
                lemma_bound_kept_trans(s0.bound(), mid.bound(), self.stream.bound(), false, next is Some);
                lemma_extend(states, items, self.stream, next);
                states = states.push(self.stream);
                items = items.push(next);
            }
            if next.is_none() {
                assert(ends_at_first_none(items));
                assert(is_run_between(states, items, s0, self.stream));
                assert(drop_then_take(s0, n0, self.stream, None, (self.n as nat)));
                return None;
            }
            self.n = self.n - 1;
        }
        let ghost mid = self.stream;
        let next = self.stream.next();
        proof {
            lemma_bound_kept_trans(s0.bound(), mid.bound(), self.stream.bound(), false, next is Some);
            lemma_extend(states, items, self.stream, next);
            states = states.push(self.stream);
            items = items.push(next);
            assert(is_run_between(states, items, s0, self.stream));
            assert(drop_then_take(s0, n0, self.stream, next, 0));
        }
        next
    }
}

/// Hands out the first item of the stream it wraps and then every
/// `step`-th one.
#[derive(Clone, Debug)]
pub struct StepBy<S> {
    stream: S,
    step: usize,
    n: usize,
}

impl<S: LendingStream> StepBy<S> {
    /// The wrapped stream.
    pub closed spec fn inner(&self) -> S {
        self.stream
    }

    /// The distance between two items handed out.
    pub closed spec fn stride(&self) -> nat {
        self.step as nat
    }

    /// How many items are to be dropped before the next one handed out.
    pub closed spec fn skipping(&self) -> nat {
        self.n as nat
    }

    pub(crate) fn new(stream: S, step: usize) -> (r: Self)
        requires
            step > 0,
        ensures
            r.inner() == stream,
            r.stride() == step,
            r.skipping() == 0,
    {
        StepBy { stream, step, n: 0 }
    }
}

impl<S: LendingStream> LendingStream for StepBy<S> {
    type Item = S::Item;

    open spec fn wf(&self) -> bool {
        self.inner().wf() && self.stride() > 0
    }

    open spec fn bound(&self) -> Option<nat> {
        self.inner().bound()
    }

    /// The call drops `skipping` items and hands out the next one, after
    /// which `stride - 1` items are to be dropped; a `None` met while
    /// dropping ends the call, with the count lowered by the calls made.
    open spec fn step(&self, after: Self, item: Option<S::Item>) -> bool {
        &&& after.stride() == self.stride()
        &&& exists|states: Seq<S>, items: Seq<Option<S::Item>>| #![trigger is_run_between(states, items, self.inner(), after.inner())] {
            &&& is_run_between(states, items, self.inner(), after.inner())
            &&& {
                ||| items.len() == self.skipping() + 1 && all_some(items.drop_last()) && item
                    == items.last() && after.skipping() == self.stride() - 1
                ||| 1 <= items.len() <= self.skipping() && ends_at_first_none(items) && item is None
                    && after.skipping() == self.skipping() - items.len()
            }
        }
    }

    fn next(&mut self) -> (item: Option<S::Item>) {
        let ghost n0 = self.n as nat;
        let ghost s0 = self.stream;
        let ghost mut states: Seq<S> = seq![self.stream];
        let ghost mut items: Seq<Option<S::Item>> = Seq::empty();
        proof {
            lemma_run_empty(self.stream);
        }
        loop
            invariant
                self.stream.wf(),
                self.step > 0,
                self.step == old(self).step,
                is_run_between(states, items, s0, self.stream),
                s0 == old(self).stream,
                n0 == old(self).n,
                all_some(items),
                items.len() + self.n == n0,
                bound_kept(s0.bound(), self.stream.bound(), false),
            decreases self.n,
        {
            if self.n == 0 {
                self.n = self.step - 1;
                let ghost mid = self.stream;
                let next = self.stream.next();
                proof {
                    lemma_bound_kept_trans(s0.bound(), mid.bound(), self.stream.bound(), false, next is Some);
                    lemma_extend(states, items, self.stream, next);
                    states = states.push(self.stream);
                    items = items.push(next);
                    assert(is_run_between(states, items, old(self).inner(), self.inner()));
                }
                return next;
            } else {
                self.n = self.n - 1;
                let ghost mid = self.stream;
                let next = self.stream.next();
                proof {
                    lemma_bound_kept_trans(s0.bound(), mid.bound(), self.stream.bound(), false, next is Some);
                    lemma_extend(states, items, self.stream, next);
                    states = states.push(self.stream);
                    items = items.push(next);
                }
                if next.is_none() {
                    assert(is_run_between(states, items, old(self).inner(), self.inner()));
                    return None;
                }
            }
        }
    }
}

/// Pairs every item of the stream it wraps with its position.
#[derive(Clone, Debug)]
pub struct Enumerate<S> {
    stream: S,
    i: usize,
}

impl<S: LendingStream> Enumerate<S> {
    /// The wrapped stream.
    pub closed spec fn inner(&self) -> S {
        self.stream
    }

    /// The position of the next item.
    pub closed spec fn index(&self) -> nat {
        self.i as nat
    }

    pub(crate) fn new(stream: S) -> (r: Self)
        ensures
            r.inner() == stream,
            r.index() == 0,
    {
        Enumerate { stream, i: 0 }
    }
}

impl<S: LendingStream> LendingStream for Enumerate<S> {
    type Item = (usize, S::Item);

    /// The positions to come fit in a `usize`: the wrapped stream is bounded
    /// and the last position it can reach is representable.
    open spec fn wf(&self) -> bool {
        &&& self.inner().wf()
        &&& self.inner().bound() matches Some(b) && self.index() + b <= usize::MAX
    }

    open spec fn bound(&self) -> Option<nat> {
        self.inner().bound()
    }

    /// An item of the wrapped stream comes out paired with the current
    /// position, which then goes up by one; `None` leaves the position.
    open spec fn step(&self, after: Self, item: Option<(usize, S::Item)>) -> bool {
        match item {
            None => next_call(self.inner(), after.inner(), None) && after.index() == self.index(),
            Some((j, x)) => {
                &&& j == self.index()
                &&& next_call(self.inner(), after.inner(), Some(x))
                &&& after.index() == self.index() + 1
            },
        }
    }

    fn next(&mut self) -> (item: Option<(usize, S::Item)>) {
        let next = self.stream.next();
        match next {
            None => None,
            Some(x) => {
                let i = self.i;
                self.i = self.i + 1;
                Some((i, x))
            },
        }
    }
}

} // verus!
