use vstd::prelude::*;
use crate::lending_stream::{LendingStream, next_call, bound_kept, lemma_bound_kept_trans};
use crate::runs::{every, lemma_every_push, is_run_between, lemma_extend, lemma_run_empty};

verus! {

broadcast use vstd::function::group_function_axioms;

/// Hands out `f` of every item of the stream it wraps.
#[derive(Clone, Debug)]
pub struct Mapped<S, F> {
    stream: S,
    f: F,
}

impl<S: LendingStream, T, F: FnMut(S::Item) -> T> Mapped<S, F> {
    /// The wrapped stream.
    pub closed spec fn inner(&self) -> S {
        self.stream
    }

    /// The function applied to the items.
    pub closed spec fn func(&self) -> F {
        self.f
    }

    pub(crate) fn new(stream: S, f: F) -> (r: Self)
        ensures
            r.inner() == stream,
            r.func() == f,
    {
        Mapped { stream, f }
    }
}

impl<S: LendingStream, T, F: FnMut(S::Item) -> T> LendingStream for Mapped<S, F> {
    type Item = T;

    /// `f` can be called on any item.
    open spec fn wf(&self) -> bool {
        &&& self.inner().wf()
        &&& forall|x: S::Item| call_requires(self.func(), (x,))
    }

    open spec fn bound(&self) -> Option<nat> {
        self.inner().bound()
    }

    /// `None` passes through; an item `x` comes out as a result of `f(x)`.
    open spec fn step(&self, after: Self, item: Option<T>) -> bool {
        &&& after.func() == self.func()
        &&& match item {
            None => next_call(self.inner(), after.inner(), None),
            Some(y) => exists|x: S::Item|
                next_call(self.inner(), after.inner(), Some(x)) && call_ensures(self.func(), (x,), y),
        }
    }

    fn next(&mut self) -> (item: Option<T>) {
        let ghost f0 = self.func();
        let next = self.stream.next();
        assert(self.func() == f0);
        match next {
            None => None,
            Some(x) => {
                assert(call_requires(self.func(), (x,)));
                let y = (self.f)(x);
                assert(next_call(old(self).inner(), self.inner(), Some(x)));
                Some(y)
            },
        }
    }
}

/// Hands every item of the stream it wraps to `f` before handing it out.
#[derive(Clone, Debug)]
pub struct Inspect<S, F> {
    stream: S,
    f: F,
}

impl<S: LendingStream, F: FnMut(&S::Item)> Inspect<S, F> {
    /// The wrapped stream.
    pub closed spec fn inner(&self) -> S {
        self.stream
    }

    /// The function shown each item.
    pub closed spec fn func(&self) -> F {
        self.f
    }

    pub(crate) fn new(stream: S, f: F) -> (r: Self)
        ensures
            r.inner() == stream,
            r.func() == f,
    {
        Inspect { stream, f }
    }
}

impl<S: LendingStream, F: FnMut(&S::Item)> LendingStream for Inspect<S, F> {
    type Item = S::Item;

    /// `f` can be shown any item.
    open spec fn wf(&self) -> bool {
        &&& self.inner().wf()
        &&& forall|x: S::Item| call_requires(self.func(), (&x,))
    }

    open spec fn bound(&self) -> Option<nat> {
        self.inner().bound()
    }

    /// The wrapped stream's answer comes out unchanged; an item was shown to `f`.
    open spec fn step(&self, after: Self, item: Option<S::Item>) -> bool {
        &&& after.func() == self.func()
        &&& next_call(self.inner(), after.inner(), item)
        &&& item matches Some(x) ==> call_ensures(self.func(), (&x,), ())
    }

    fn next(&mut self) -> (item: Option<S::Item>) {
        let ghost f0 = self.func();
        let next = self.stream.next();
        assert(self.func() == f0);
        match next {
            None => None,
            Some(x) => {
                assert(call_requires(self.func(), (&x,)));
                (self.f)(&x);
                Some(x)
            },
        }
    }
}

/// Hands out items of the stream it wraps while `predicate` holds of them.
#[derive(Clone, Debug)]
pub struct TakeWhile<S, P> {
    stream: S,
    predicate: P,
}

impl<S: LendingStream, P: FnMut(&S::Item) -> bool> TakeWhile<S, P> {
    /// The wrapped stream.
    pub closed spec fn inner(&self) -> S {
        self.stream
    }

    /// The test an item must pass to come out.
    pub closed spec fn pred(&self) -> P {
        self.predicate
    }

    pub(crate) fn new(stream: S, predicate: P) -> (r: Self)
        ensures
            r.inner() == stream,
            r.pred() == predicate,
    {
        TakeWhile { stream, predicate }
    }
}

impl<S: LendingStream, P: FnMut(&S::Item) -> bool> LendingStream for TakeWhile<S, P> {
    type Item = S::Item;

    /// The test can be applied to any item.
    open spec fn wf(&self) -> bool {
        &&& self.inner().wf()
        &&& forall|x: S::Item| call_requires(self.pred(), (&x,))
    }

    open spec fn bound(&self) -> Option<nat> {
        self.inner().bound()
    }

    /// One item is taken from the wrapped stream: it comes out when it passes
    /// the test, and the call returns `None` when it fails it or when the
    /// wrapped stream had nothing. Nothing is remembered: the next call asks
    /// the wrapped stream again.
    open spec fn step(&self, after: Self, item: Option<S::Item>) -> bool {
        &&& after.pred() == self.pred()
        &&& match item {
            Some(x) => next_call(self.inner(), after.inner(), Some(x)) && call_ensures(
                self.pred(),
                (&x,),
                true,
            ),
            None => {
                ||| next_call(self.inner(), after.inner(), None)
                ||| exists|x: S::Item|
                    next_call(self.inner(), after.inner(), Some(x)) && call_ensures(
                        self.pred(),
                        (&x,),
                        false,
                    )
            },
        }
    }

    fn next(&mut self) -> (item: Option<S::Item>) {
        let ghost p0 = self.pred();
        let next = self.stream.next();
        assert(self.pred() == p0);
        match next {
            None => None,
            Some(x) => {
                assert(call_requires(self.pred(), (&x,)));
                if (self.predicate)(&x) {
                    Some(x)
                } else {
                    assert(next_call(old(self).inner(), self.inner(), Some(x)));
                    None
                }
            },
        }
    }
}

/// The calls that a search for an item whose test gives `wanted` makes on
/// the stream `s`: items that give the other answer are passed over, and
/// the call ends on the first item that gives `wanted`, which is the result,
/// or on the first `None`.
pub open spec fn searched<S: LendingStream, P: FnMut(&S::Item) -> bool>(
    s: S,
    after: S,
    pred: P,
    wanted: bool,
    item: Option<S::Item>,
) -> bool {
    exists|states: Seq<S>, items: Seq<Option<S::Item>>|
        #![trigger is_run_between(states, items, s, after)]
        {
            &&& is_run_between(states, items, s, after)
            &&& items.len() >= 1
            &&& passed_over(items.drop_last(), pred, wanted)
            &&& match items.last() {
                None => item is None,
                Some(x) => item == Some(x) && call_ensures(pred, (&x,), wanted),
            }
        }
}

/// Every call in `items` returned an item whose test did not give `wanted`.
pub open spec fn passed_over<T, P: FnMut(&T) -> bool>(items: Seq<Option<T>>, pred: P, wanted: bool) -> bool {
    every(items, judged(pred, !wanted))
}

/// Answers that are items for which `pred` returns `answer`.
pub open spec fn judged<T, P: FnMut(&T) -> bool>(pred: P, answer: bool) -> spec_fn(Option<T>) -> bool {
    |o: Option<T>| o matches Some(x) && call_ensures(pred, (&x,), answer)
}

/// Calls `next` on `stream` until an item gives `wanted` under `pred`, or
/// until `None`.
pub(crate) fn search<S: LendingStream, P: FnMut(&S::Item) -> bool>(
    stream: &mut S,
    pred: &mut P,
    wanted: bool,
) -> (item: Option<S::Item>)
    requires
        old(stream).wf(),
        old(stream).bound() is Some,
        forall|x: S::Item| call_requires(*old(pred), (&x,)),
    ensures
        final(stream).wf(),
        *final(pred) == *old(pred),
        searched(*old(stream), *final(stream), *old(pred), wanted, item),
        bound_kept(old(stream).bound(), final(stream).bound(), item is Some),
{
    let ghost s0 = *stream;
    let ghost p0 = *pred;
    let ghost mut states: Seq<S> = seq![*stream];
    let ghost mut items: Seq<Option<S::Item>> = Seq::empty();
    proof {
        lemma_run_empty(*stream);
    }
    loop
        invariant
            stream.wf(),
            stream.bound() is Some,
            *pred == p0,
            s0 == *old(stream),
            p0 == *old(pred),
            forall|x: S::Item| call_requires(p0, (&x,)),
            is_run_between(states, items, s0, *stream),
            passed_over(items, p0, wanted),
            bound_kept(s0.bound(), stream.bound(), false),
        decreases stream.bound()->0,
    {
        let ghost mid = *stream;
        let next = stream.next();
        proof {
            lemma_bound_kept_trans(s0.bound(), mid.bound(), stream.bound(), false, next is Some);
            lemma_extend(states, items, *stream, next);
            states = states.push(*stream);
            items = items.push(next);
        }
        match next {
            None => {
                assert(is_run_between(states, items, s0, *stream));
                return None;
            },
            Some(x) => {
                assert(call_requires(p0, (&x,)));
                let passes = pred(&x);
                if passes == wanted {
                    assert(is_run_between(states, items, s0, *stream));
                    return Some(x);
                }
                proof {
                    lemma_every_push(items.drop_last(), next, judged(p0, !wanted));
                }
            },
        }
    }
}

/// Hands out the items of the stream it wraps that pass `predicate`.
#[derive(Clone, Debug)]
pub struct Filter<S, P> {
    stream: S,
    predicate: P,
}

impl<S: LendingStream, P: FnMut(&S::Item) -> bool> Filter<S, P> {
    /// The wrapped stream.
    pub closed spec fn inner(&self) -> S {
        self.stream
    }

    /// The test an item must pass to come out.
    pub closed spec fn pred(&self) -> P {
        self.predicate
    }

    pub(crate) fn new(stream: S, predicate: P) -> (r: Self)
        ensures
            r.inner() == stream,
            r.pred() == predicate,
    {
        Filter { stream, predicate }
    }
}

impl<S: LendingStream, P: FnMut(&S::Item) -> bool> LendingStream for Filter<S, P> {
    type Item = S::Item;

    /// The wrapped stream is bounded, so that every search ends, and the
    /// test can be applied to any item.
    open spec fn wf(&self) -> bool {
        &&& self.inner().wf()
        &&& self.inner().bound() is Some
        &&& forall|x: S::Item| call_requires(self.pred(), (&x,))
    }

    open spec fn bound(&self) -> Option<nat> {
        self.inner().bound()
    }

    /// Items that fail the test are passed over; the first that passes
    /// comes out, or `None` when the wrapped stream has nothing.
    open spec fn step(&self, after: Self, item: Option<S::Item>) -> bool {
        after.pred() == self.pred() && searched(self.inner(), after.inner(), self.pred(), true, item)
    }

    fn next(&mut self) -> (item: Option<S::Item>) {
        proof {
            assert forall|x: S::Item| call_requires(self.predicate, (&x,)) by {
                assert(call_requires(self.pred(), (&x,)));
            }
        }
        let item = search(&mut self.stream, &mut self.predicate, true);
        proof {
            assert forall|x: S::Item| call_requires(self.pred(), (&x,)) by {
                assert(call_requires(old(self).pred(), (&x,)));
            }
        }
        item
    }
}

/// Passes over the items of the stream it wraps that pass `predicate`.
#[derive(Clone, Debug)]
pub struct SkipWhile<S, P> {
    stream: S,
    predicate: P,
}

impl<S: LendingStream, P: FnMut(&S::Item) -> bool> SkipWhile<S, P> {
    /// The wrapped stream.
    pub closed spec fn inner(&self) -> S {
        self.stream
    }

    /// The test that makes an item be passed over.
    pub closed spec fn pred(&self) -> P {
        self.predicate
    }

    pub(crate) fn new(stream: S, predicate: P) -> (r: Self)
        ensures
            r.inner() == stream,
            r.pred() == predicate,
    {
        SkipWhile { stream, predicate }
    }
}

impl<S: LendingStream, P: FnMut(&S::Item) -> bool> LendingStream for SkipWhile<S, P> {
    type Item = S::Item;

    /// The wrapped stream is bounded, so that every search ends, and the
    /// test can be applied to any item.
    open spec fn wf(&self) -> bool {
        &&& self.inner().wf()
        &&& self.inner().bound() is Some
        &&& forall|x: S::Item| call_requires(self.pred(), (&x,))
    }

    open spec fn bound(&self) -> Option<nat> {
        self.inner().bound()
    }

    /// Items that pass the test are passed over on every call, not only at
    /// the start; the first that fails it comes out, or `None` when the
    /// wrapped stream has nothing.
    open spec fn step(&self, after: Self, item: Option<S::Item>) -> bool {
        after.pred() == self.pred() && searched(self.inner(), after.inner(), self.pred(), false, item)
    }

    fn next(&mut self) -> (item: Option<S::Item>) {
        proof {
            assert forall|x: S::Item| call_requires(self.predicate, (&x,)) by {
                assert(call_requires(self.pred(), (&x,)));
            }
        }
        let item = search(&mut self.stream, &mut self.predicate, false);
        proof {
            assert forall|x: S::Item| call_requires(self.pred(), (&x,)) by {
                assert(call_requires(old(self).pred(), (&x,)));
            }
        }
        item
    }
}

} // verus!
