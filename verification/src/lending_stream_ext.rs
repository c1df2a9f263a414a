use vstd::prelude::*;
use crate::lending_stream::{LendingStream, next_call};
use crate::runs::{every, lemma_every_push, is_run_between, all_some, ends_at_first_none, somes, lemma_extend, lemma_run_empty, lemma_somes_all_some};
use crate::counted::{Take, Skip, StepBy, Enumerate};
use crate::fuse::{Fuse, Chain, Cycle};
use crate::pairs::{Zip, Or, Race};
use crate::closures::{Mapped, Inspect, TakeWhile, Filter, SkipWhile, searched, search};
use crate::values::Scan;
use crate::borrowed::{Cloned, Copied, Lent};
use crate::flatten::{FlatMap, Flatten};

verus! {

broadcast use vstd::function::group_function_axioms;

/// A run of `s` that ends at its first `None`: every item the stream had
/// to give, in `items`, before it said it had no more.
pub open spec fn drained<S: LendingStream>(s: S, states: Seq<S>, items: Seq<Option<S::Item>>) -> bool {
    &&& is_run_between(states, items, s, states.last())
    &&& ends_at_first_none(items)
}

/// The `Option<Result<..>>` that a `Result<Option<..>>` was turned from.
pub open spec fn untransposed<T, E>(r: Result<Option<T>, E>) -> Option<Result<T, E>> {
    match r {
        Ok(None) => None,
        Ok(Some(v)) => Some(Ok(v)),
        Err(e) => Some(Err(e)),
    }
}

/// The `calls` calls that asking `s` for an item that makes `pred` return
/// `wanted` makes: items that make it return the other answer are passed
/// over, and the search ends on the first that makes it return `wanted`,
/// with `found` true, or on the first `None`, with `found` false.
pub open spec fn decided_in<S: LendingStream, P: FnMut(S::Item) -> bool>(
    s: S,
    after: S,
    pred: P,
    wanted: bool,
    found: bool,
    calls: nat,
) -> bool {
    exists|states: Seq<S>, items: Seq<Option<S::Item>>|
        #![trigger is_run_between(states, items, s, after)]
        {
            &&& is_run_between(states, items, s, after)
            &&& items.len() == calls
            &&& calls >= 1
            &&& passed_over_by_value(items.drop_last(), pred, !wanted)
            &&& match items.last() {
                None => !found,
                Some(x) => found && call_ensures(pred, (x,), wanted),
            }
        }
}

/// Every call in `items` returned an item for which `pred` returned `answer`.
pub open spec fn passed_over_by_value<T, P: FnMut(T) -> bool>(items: Seq<Option<T>>, pred: P, answer: bool) -> bool {
    every(items, mapped_to(pred, answer))
}

/// A search of `s` for an item that makes `pred` return `wanted`, over some
/// number of calls.
pub open spec fn decided<S: LendingStream, P: FnMut(S::Item) -> bool>(
    s: S,
    after: S,
    pred: P,
    wanted: bool,
    found: bool,
) -> bool {
    exists|calls: nat| #[trigger] decided_in(s, after, pred, wanted, found, calls)
}

/// Asks `stream` for items until one makes `pred` return `wanted`, which
/// returns `true`, or until `None`, which returns `false`.
fn decide<S: LendingStream, P: FnMut(S::Item) -> bool>(stream: &mut S, pred: &mut P, wanted: bool) -> (found: bool)
    requires
        old(stream).wf(),
        old(stream).bound() is Some,
        forall|x: S::Item| call_requires(*old(pred), (x,)),
    ensures
        final(stream).wf(),
        *final(pred) == *old(pred),
        decided(*old(stream), *final(stream), *old(pred), wanted, found),
{
    let ghost p0 = *pred;
    let ghost mut states: Seq<S> = seq![*stream];
    let ghost mut items: Seq<Option<S::Item>> = Seq::empty();
    proof {
        lemma_run_empty(*stream);
    }
    loop
        invariant
            stream.wf(),
            stream.bound() is Some,
            *pred == p0,
            p0 == *old(pred),
            forall|x: S::Item| call_requires(p0, (x,)),
            is_run_between(states, items, *old(stream), *stream),
            passed_over_by_value(items, p0, !wanted),
        decreases stream.bound()->0,
    {
        let next = stream.next();
        proof {
            lemma_extend(states, items, *stream, next);
            states = states.push(*stream);
            items = items.push(next);
        }
        match next {
            None => {
                assert(is_run_between(states, items, *old(stream), *stream));
                assert(decided_in(*old(stream), *stream, p0, wanted, false, items.len()));
                return false;
            },
            Some(x) => {
                if pred(x) == wanted {
                    assert(is_run_between(states, items, *old(stream), *stream));
                    assert(decided_in(*old(stream), *stream, p0, wanted, true, items.len()));
                    return true;
                }
                proof {
                    lemma_every_push(items.drop_last(), next, mapped_to(p0, !wanted));
                }
            },
        }
    }
}

/// The values inside the `Ok` items of `items`.
pub open spec fn ok_values<T, E>(items: Seq<Option<Result<T, E>>>) -> Seq<T>
    decreases items.len(),
{
    if items.len() == 0 {
        Seq::empty()
    } else {
        let rest = ok_values(items.drop_last());
        match items.last() {
            Some(Ok(v)) => rest.push(v),
            _ => rest,
        }
    }
}

/// The elements of `xs` whose verdict is `side`, in order.
pub open spec fn picked<T>(xs: Seq<T>, verdicts: Seq<bool>, side: bool) -> Seq<T>
    decreases xs.len(),
{
    if xs.len() == 0 || verdicts.len() != xs.len() {
        Seq::empty()
    } else {
        let rest = picked(xs.drop_last(), verdicts.drop_last(), side);
        if verdicts.last() == side {
            rest.push(xs.last())
        } else {
            rest
        }
    }
}

/// One more element with its verdict.
pub proof fn lemma_picked_push<T>(xs: Seq<T>, verdicts: Seq<bool>, x: T, verdict: bool, side: bool)
    requires
        xs.len() == verdicts.len(),
    ensures
        picked(xs.push(x), verdicts.push(verdict), side) == if verdict == side {
            picked(xs, verdicts, side).push(x)
        } else {
            picked(xs, verdicts, side)
        },
{
    assert(xs.push(x).drop_last() == xs);
    assert(verdicts.push(verdict).drop_last() == verdicts);
}

/// Answers that are items which `f` maps to `out`.
pub open spec fn mapped_to<T, B, F: FnMut(T) -> B>(f: F, out: B) -> spec_fn(Option<T>) -> bool {
    |o: Option<T>| o matches Some(x) && call_ensures(f, (x,), out)
}

/// Answers that are `Ok` items.
pub open spec fn is_ok_item<T, E>() -> spec_fn(Option<Result<T, E>>) -> bool {
    |o: Option<Result<T, E>>| o matches Some(Ok(_))
}

/// The combinators and consumers that every lending stream has.
pub trait LendingStreamExt: LendingStream {
    /// Hands out `f` of every item.
    fn map<T, F: FnMut(Self::Item) -> T>(self, f: F) -> (r: Mapped<Self, F>)
        ensures
            r.inner() == self,
            r.func() == f,
    {
        Mapped::new(self, f)
    }

    /// Maps every item to a stream with `f` and hands out the items of those
    /// streams.
    fn flat_map<U: LendingStream, F: FnMut(Self::Item) -> U>(self, f: F) -> (r: FlatMap<Self, U, F>)
        ensures
            r.outer().inner() == self,
            r.outer().func() == f,
            r.current() is None,
    {
        FlatMap::new(Mapped::new(self, f))
    }

    /// Hands out the items of the streams that this stream yields.
    fn flatten(self) -> (r: Flatten<Self, Self::Item>)
        where
            Self::Item: LendingStream,
        ensures
            r.outer() == self,
            r.current() is None,
    {
        Flatten::new(self)
    }

    /// Hands out the items that pass `predicate`.
    fn filter<P: FnMut(&Self::Item) -> bool>(self, predicate: P) -> (r: Filter<Self, P>)
        ensures
            r.inner() == self,
            r.pred() == predicate,
    {
        Filter::new(self, predicate)
    }

    /// Hands out at most `n` items.
    fn take(self, n: usize) -> (r: Take<Self>)
        ensures
            r.inner() == self,
            r.remaining() == n,
    {
        Take::new(self, n)
    }

    /// Hands out items while `predicate` holds of them.
    fn take_while<P: FnMut(&Self::Item) -> bool>(self, predicate: P) -> (r: TakeWhile<Self, P>)
        ensures
            r.inner() == self,
            r.pred() == predicate,
    {
        TakeWhile::new(self, predicate)
    }

    /// Passes over the first `n` items.
    fn skip(self, n: usize) -> (r: Skip<Self>)
        ensures
            r.inner() == self,
            r.remaining() == n,
    {
        Skip::new(self, n)
    }

    /// Passes over the items that pass `predicate`.
    fn skip_while<P: FnMut(&Self::Item) -> bool>(self, predicate: P) -> (r: SkipWhile<Self, P>)
        ensures
            r.inner() == self,
            r.pred() == predicate,
    {
        SkipWhile::new(self, predicate)
    }

    /// Hands out the first item and then every `step`-th one; `step` must
    /// not be zero.
    fn step_by(self, step: usize) -> (r: StepBy<Self>)
        requires
            step > 0,
        ensures
            r.inner() == self,
            r.stride() == step,
            r.skipping() == 0,
    {
        StepBy::new(self, step)
    }

    /// All items of this stream, then those of `other`.
    fn chain<U: LendingStream<Item = Self::Item>>(self, other: U) -> (r: Chain<Self, U>)
        ensures
            r.front().inner() == self,
            !r.front().is_done(),
            r.back().inner() == other,
            !r.back().is_done(),
    {
        Chain::new(self, other)
    }

    /// Clones of the values that the items of this stream lend.
    fn cloned(self) -> (r: Cloned<Self>)
        where
            Self::Item: Lent,
            <Self::Item as Lent>::Target: Clone,
        ensures
            r.inner() == self,
    {
        Cloned::new(self)
    }

    /// Copies of the values that the items of this stream lend.
    fn copied(self) -> (r: Copied<Self>)
        where
            Self::Item: Lent,
            <Self::Item as Lent>::Target: Copy,
        ensures
            r.inner() == self,
    {
        Copied::new(self)
    }

    /// Runs `f` over the items with a state that `f` may change.
    fn scan<St, B, F: FnMut(&mut St, Self::Item) -> Option<B>>(self, initial_state: St, f: F) -> (r:
        Scan<Self, St, F>)
        ensures
            r.inner() == self,
            r.state() == initial_state,
            r.func() == f,
    {
        Scan::new(self, initial_state, f)
    }

    /// Ends for good at the first `None`.
    fn fuse(self) -> (r: Fuse<Self>)
        ensures
            r.inner() == self,
            !r.is_done(),
    {
        Fuse::new(self)
    }

    /// Starts over from a clone of this stream whenever it runs out.
    fn cycle(self) -> (r: Cycle<Self>)
        where
            Self: Clone,
        ensures
            cloned(self, r.start()),
            r.current() == self,
    {
        Cycle::new(self)
    }

    /// Pairs every item with its position, counted from zero.
    fn enumerate(self) -> (r: Enumerate<Self>)
        ensures
            r.inner() == self,
            r.index() == 0,
    {
        Enumerate::new(self)
    }

    /// Shows every item to `f` before handing it out.
    fn inspect<F: FnMut(&Self::Item)>(self, f: F) -> (r: Inspect<Self, F>)
        ensures
            r.inner() == self,
            r.func() == f,
    {
        Inspect::new(self, f)
    }

    /// Pairs the items of this stream with those of `other`.
    fn zip<U: LendingStream>(self, other: U) -> (r: Zip<Self, U>)
        ensures
            r.left() == self,
            r.right() == other,
    {
        Zip::new(self, other)
    }

    /// Asks this stream, and when it has nothing, `other`, on every call.
    fn or<S: LendingStream<Item = Self::Item>>(self, other: S) -> (r: Or<Self, S>)
        ensures
            r.primary() == self,
            r.fallback() == other,
    {
        Or::new(self, other)
    }

    /// Asks this stream and `other` in an order drawn at random on every call.
    fn race<S: LendingStream<Item = Self::Item>>(self, other: S) -> (r: Race<Self, S>)
        ensures
            r.one() == self,
            r.other() == other,
    {
        Race::new(self, other)
    }

    /// The next item of a stream of results, with the result outside:
    /// `None` becomes `Ok(None)`, `Some(Ok(v))` becomes `Ok(Some(v))` and
    /// `Some(Err(e))` becomes `Err(e)`.
    fn try_next<T, E>(&mut self) -> (r: Result<Option<T>, E>)
        where
            Self: LendingStream<Item = Result<T, E>>,
        requires
            old(self).wf(),
        ensures
            next_call(*old(self), *final(self), untransposed(r)),
    {
        match self.next() {
            None => Ok(None),
            Some(Ok(v)) => Ok(Some(v)),
            Some(Err(e)) => Err(e),
        }
    }

    /// The number of items before the first `None`.
    fn count(self) -> (r: usize)
        requires
            self.wf(),
            self.bound() matches Some(b) && b <= usize::MAX,
        ensures
            exists|states: Seq<Self>, items: Seq<Option<Self::Item>>|
                #![trigger drained(self, states, items)]
                drained(self, states, items) && r == items.len() - 1,
    {
        let mut s = self;
        let mut count: usize = 0;
        let ghost mut states: Seq<Self> = seq![s];
        let ghost mut items: Seq<Option<Self::Item>> = Seq::empty();
        proof {
            lemma_run_empty(s);
        }
        loop
            invariant
                s.wf(),
                is_run_between(states, items, self, s),
                all_some(items),
                items.len() == count,
                self.bound() matches Some(b0) && s.bound() matches Some(b) && count + b <= b0
                    && b0 <= usize::MAX,
            decreases s.bound()->0,
        {
            let next = s.next();
            proof {
                lemma_extend(states, items, s, next);
                states = states.push(s);
                items = items.push(next);
            }
            match next {
                Some(_) => {
                    count = count + 1;
                },
                None => {
                    assert(drained(self, states, items));
                    return count;
                },
            }
        }
    }

    /// The `n`-th item from here, counted from zero: `n` items are passed
    /// over and the next one is returned; a `None` on the way ends the call.
    fn nth(&mut self, n: usize) -> (r: Option<Self::Item>)
        requires
            old(self).wf(),
        ensures
            final(self).wf(),
            exists|states: Seq<Self>, items: Seq<Option<Self::Item>>|
                #![trigger is_run_between(states, items, *old(self), *final(self))]
                {
                    &&& is_run_between(states, items, *old(self), *final(self))
                    &&& {
                        ||| items.len() == n + 1 && all_some(items) && r == items.last()
                        ||| items.len() <= n + 1 && ends_at_first_none(items) && r is None
                    }
                },
    {
        let ghost s0 = *self;
        let mut left = n;
        let ghost mut states: Seq<Self> = seq![*self];
        let ghost mut items: Seq<Option<Self::Item>> = Seq::empty();
        proof {
            lemma_run_empty(*self);
        }
        loop
            invariant
                self.wf(),
                s0 == *old(self),
                is_run_between(states, items, s0, *self),
                all_some(items),
                items.len() + left == n,
            decreases left,
        {
            let next = self.next();
            proof {
                lemma_extend(states, items, *self, next);
                states = states.push(*self);
                items = items.push(next);
            }
            match next {
                Some(x) => {
                    if left == 0 {
                        assert(is_run_between(states, items, *old(self), *self));
                        assert(items.len() == n + 1 && all_some(items) && Some(x) == items.last());
                        return Some(x);
                    }
                    left = left - 1;
                },
                None => {
                    assert(is_run_between(states, items, *old(self), *self));
                    assert(items.len() <= n + 1 && ends_at_first_none(items));
                    return None;
                },
            }
        }
    }

    /// The last item before the first `None`, if there is one.
    fn last(self) -> (r: Option<Self::Item>)
        requires
            self.wf(),
            self.bound() is Some,
        ensures
            exists|states: Seq<Self>, items: Seq<Option<Self::Item>>|
                #![trigger drained(self, states, items)]
                {
                    &&& drained(self, states, items)
                    &&& r == if items.len() == 1 { None } else { items[items.len() - 2] }
                },
    {
        let mut s = self;
        let mut last: Option<Self::Item> = None;
        let ghost mut states: Seq<Self> = seq![s];
        let ghost mut items: Seq<Option<Self::Item>> = Seq::empty();
        proof {
            lemma_run_empty(s);
        }
        loop
            invariant
                s.wf(),
                s.bound() is Some,
                is_run_between(states, items, self, s),
                all_some(items),
                last == if items.len() == 0 { None } else { items.last() },
            decreases s.bound()->0,
        {
            let next = s.next();
            proof {
                lemma_extend(states, items, s, next);
                states = states.push(s);
                items = items.push(next);
            }
            match next {
                Some(x) => {
                    last = Some(x);
                },
                None => {
                    assert(drained(self, states, items));
                    return last;
                },
            }
        }
    }

    /// Every item before the first `None`, in order.
    fn collect(self) -> (r: Vec<Self::Item>)
        requires
            self.wf(),
            self.bound() is Some,
        ensures
            exists|states: Seq<Self>, items: Seq<Option<Self::Item>>|
                #![trigger drained(self, states, items)]
                {
                    &&& drained(self, states, items)
                    &&& r@ == somes(items)
                    &&& r@.len() == items.len() - 1
                    &&& forall|i: int| 0 <= i < r@.len() ==> #[trigger] items[i] == Some(r@[i])
                },
    {
        let mut s = self;
        let mut out: Vec<Self::Item> = Vec::new();
        let ghost mut states: Seq<Self> = seq![s];
        let ghost mut items: Seq<Option<Self::Item>> = Seq::empty();
        proof {
            lemma_run_empty(s);
        }
        loop
            invariant
                s.wf(),
                s.bound() is Some,
                is_run_between(states, items, self, s),
                all_some(items),
                out@ == somes(items),
            decreases s.bound()->0,
        {
            let next = s.next();
            proof {
                lemma_extend(states, items, s, next);
                states = states.push(s);
                items = items.push(next);
            }
            match next {
                Some(x) => {
                    out.push(x);
                },
                None => {
                    assert(drained(self, states, items));
                    proof {
                        lemma_somes_all_some(items.drop_last());
                        assert forall|i: int| 0 <= i < out@.len() implies #[trigger] items[i] == Some(out@[i]) by {
                            assert(items[i] == items.drop_last()[i]);
                        }
                    }
                    return out;
                },
            }
        }
    }

    /// The first item from here that passes `predicate`, or `None` when the
    /// stream runs out first.
    fn find<P: FnMut(&Self::Item) -> bool>(&mut self, predicate: P) -> (r: Option<Self::Item>)
        requires
            old(self).wf(),
            old(self).bound() is Some,
            forall|x: Self::Item| call_requires(predicate, (&x,)),
        ensures
            final(self).wf(),
            searched(*old(self), *final(self), predicate, true, r),
    {
        let mut predicate = predicate;
        search(self, &mut predicate, true)
    }

    /// The first `Some` that `f` returns for an item from here, or `None`
    /// when the stream runs out first.
    fn find_map<B, F: FnMut(Self::Item) -> Option<B>>(&mut self, f: F) -> (r: Option<B>)
        requires
            old(self).wf(),
            old(self).bound() is Some,
            forall|x: Self::Item| call_requires(f, (x,)),
        ensures
            final(self).wf(),
            exists|states: Seq<Self>, items: Seq<Option<Self::Item>>|
                #![trigger is_run_between(states, items, *old(self), *final(self))]
                {
                    &&& is_run_between(states, items, *old(self), *final(self))
                    &&& items.len() >= 1
                    &&& every(items.drop_last(), mapped_to(f, None))
                    &&& match items.last() {
                        None => r is None,
                        Some(x) => r is Some && call_ensures(f, (x,), r),
                    }
                },
    {
        let mut func = f;
        let ghost mut states: Seq<Self> = seq![*self];
        let ghost mut items: Seq<Option<Self::Item>> = Seq::empty();
        proof {
            lemma_run_empty(*self);
        }
        loop
            invariant
                self.wf(),
                self.bound() is Some,
                func == f,
                forall|x: Self::Item| call_requires(f, (x,)),
                is_run_between(states, items, *old(self), *self),
                every(items, mapped_to(f, None)),
            decreases self.bound()->0,
        {
            let next = self.next();
            proof {
                lemma_extend(states, items, *self, next);
                states = states.push(*self);
                items = items.push(next);
            }
            match next {
                None => {
                    assert(is_run_between(states, items, *old(self), *self));
                    return None;
                },
                Some(x) => {
                    let y = func(x);
                    if y.is_some() {
                        assert(is_run_between(states, items, *old(self), *self));
                        return y;
                    }
                    proof {
                        lemma_every_push(items.drop_last(), next, mapped_to(f, None));
                    }
                },
            }
        }
    }

    /// The position, counted from here and from zero, of the first item for
    /// which `predicate` returns `true`, or `None` when the stream runs out
    /// first.
    fn position<P: FnMut(Self::Item) -> bool>(&mut self, predicate: P) -> (r: Option<usize>)
        requires
            old(self).wf(),
            old(self).bound() matches Some(b) && b <= usize::MAX,
            forall|x: Self::Item| call_requires(predicate, (x,)),
        ensures
            final(self).wf(),
            exists|states: Seq<Self>, items: Seq<Option<Self::Item>>|
                #![trigger is_run_between(states, items, *old(self), *final(self))]
                {
                    &&& is_run_between(states, items, *old(self), *final(self))
                    &&& items.len() >= 1
                    &&& every(items.drop_last(), mapped_to(predicate, false))
                    &&& match items.last() {
                        None => r is None,
                        Some(x) => r == Some((items.len() - 1) as usize) && call_ensures(predicate, (x,), true),
                    }
                },
    {
        let mut pred = predicate;
        let ghost p0 = predicate;
        let mut i: usize = 0;
        let ghost mut states: Seq<Self> = seq![*self];
        let ghost mut items: Seq<Option<Self::Item>> = Seq::empty();
        proof {
            lemma_run_empty(*self);
        }
        loop
            invariant
                self.wf(),
                pred == p0,
                p0 == predicate,
                forall|x: Self::Item| call_requires(p0, (x,)),
                is_run_between(states, items, *old(self), *self),
                all_some(items),
                items.len() == i,
                old(self).bound() matches Some(b0) && self.bound() matches Some(b) && i + b <= b0
                    && b0 <= usize::MAX,
                every(items, mapped_to(p0, false)),
            decreases self.bound()->0,
        {
            let next = self.next();
            proof {
                lemma_extend(states, items, *self, next);
                states = states.push(*self);
                items = items.push(next);
            }
            match next {
                None => {
                    assert(is_run_between(states, items, *old(self), *self));
                    return None;
                },
                Some(x) => {
                    if pred(x) {
                        assert(is_run_between(states, items, *old(self), *self));
                        return Some(i);
                    }
                    proof {
                        lemma_every_push(items.drop_last(), next, mapped_to(p0, false));
                    }
                    i = i + 1;
                },
            }
        }
    }

    /// Whether `predicate` returns `true` for every item from here to the
    /// first `None`; the first item for which it returns `false` ends the
    /// call.
    fn all<P: FnMut(Self::Item) -> bool>(&mut self, predicate: P) -> (r: bool)
        requires
            old(self).wf(),
            old(self).bound() is Some,
            forall|x: Self::Item| call_requires(predicate, (x,)),
        ensures
            final(self).wf(),
            decided(*old(self), *final(self), predicate, false, !r),
    {
        let mut predicate = predicate;
        !decide(self, &mut predicate, false)
    }

    /// Whether `predicate` returns `true` for some item from here to the
    /// first `None`; the first such item ends the call.
    fn any<P: FnMut(Self::Item) -> bool>(&mut self, predicate: P) -> (r: bool)
        requires
            old(self).wf(),
            old(self).bound() is Some,
            forall|x: Self::Item| call_requires(predicate, (x,)),
        ensures
            final(self).wf(),
            decided(*old(self), *final(self), predicate, true, r),
    {
        let mut predicate = predicate;
        decide(self, &mut predicate, true)
    }

    /// Hands every item before the first `None` to `f`.
    fn for_each<F: FnMut(Self::Item)>(self, f: F)
        requires
            self.wf(),
            self.bound() is Some,
            forall|x: Self::Item| call_requires(f, (x,)),
        ensures
            exists|states: Seq<Self>, items: Seq<Option<Self::Item>>|
                #![trigger drained(self, states, items)]
                {
                    &&& drained(self, states, items)
                    &&& every(items.drop_last(), mapped_to(f, ()))
                },
    {
        let mut s = self;
        let mut func = f;
        let ghost mut states: Seq<Self> = seq![s];
        let ghost mut items: Seq<Option<Self::Item>> = Seq::empty();
        proof {
            lemma_run_empty(s);
        }
        loop
            invariant
                s.wf(),
                s.bound() is Some,
                func == f,
                forall|x: Self::Item| call_requires(f, (x,)),
                is_run_between(states, items, self, s),
                all_some(items),
                every(items, mapped_to(f, ())),
            decreases s.bound()->0,
        {
            let next = s.next();
            proof {
                lemma_extend(states, items, s, next);
                states = states.push(s);
                items = items.push(next);
            }
            match next {
                Some(x) => {
                    func(x);
                    proof {
                        lemma_every_push(items.drop_last(), next, mapped_to(f, ()));
                    }
                },
                None => {
                    assert(drained(self, states, items));
                    return;
                },
            }
        }
    }

    /// Hands items to `f` until it returns an error, which is returned, or
    /// until `None`, when `Ok(())` is returned.
    fn try_for_each<E, F: FnMut(Self::Item) -> Result<(), E>>(&mut self, f: F) -> (r: Result<(), E>)
        requires
            old(self).wf(),
            old(self).bound() is Some,
            forall|x: Self::Item| call_requires(f, (x,)),
        ensures
            final(self).wf(),
            exists|states: Seq<Self>, items: Seq<Option<Self::Item>>|
                #![trigger is_run_between(states, items, *old(self), *final(self))]
                {
                    &&& is_run_between(states, items, *old(self), *final(self))
                    &&& items.len() >= 1
                    &&& every(items.drop_last(), mapped_to(f, Ok::<(), E>(())))
                    &&& match items.last() {
                        None => r is Ok,
                        Some(x) => r is Err && call_ensures(f, (x,), r),
                    }
                },
    {
        let mut func = f;
        let ghost mut states: Seq<Self> = seq![*self];
        let ghost mut items: Seq<Option<Self::Item>> = Seq::empty();
        proof {
            lemma_run_empty(*self);
        }
        loop
            invariant
                self.wf(),
                self.bound() is Some,
                func == f,
                forall|x: Self::Item| call_requires(f, (x,)),
                is_run_between(states, items, *old(self), *self),
                every(items, mapped_to(f, Ok::<(), E>(()))),
            decreases self.bound()->0,
        {
            let next = self.next();
            proof {
                lemma_extend(states, items, *self, next);
                states = states.push(*self);
                items = items.push(next);
            }
            match next {
                None => {
                    assert(is_run_between(states, items, *old(self), *self));
                    return Ok(());
                },
                Some(x) => {
                    let res = func(x);
                    match res {
                        Err(e) => {
                            assert(is_run_between(states, items, *old(self), *self));
                            return Err(e);
                        },
                        Ok(u) => {
                            proof {
                                assert(res == Ok::<(), E>(()));
                                lemma_every_push(items.drop_last(), next, mapped_to(f, Ok::<(), E>(())));
                            }
                        },
                    }
                },
            }
        }
    }

    /// Folds the items before the first `None` into `init` with `f`.
    fn fold<T, F: FnMut(T, Self::Item) -> T>(self, init: T, f: F) -> (r: T)
        requires
            self.wf(),
            self.bound() is Some,
            forall|acc: T, x: Self::Item| call_requires(f, (acc, x)),
        ensures
            exists|states: Seq<Self>, items: Seq<Option<Self::Item>>, accs: Seq<T>|
                #![trigger drained(self, states, items), accs.len()]
                {
                    &&& drained(self, states, items)
                    &&& accs.len() == items.len()
                    &&& accs[0] == init
                    &&& forall|i: int|
                        0 <= i < items.len() - 1 ==> (#[trigger] items[i] matches Some(x) && call_ensures(
                            f,
                            (accs[i], x),
                            accs[i + 1],
                        ))
                    &&& r == accs.last()
                },
    {
        let mut s = self;
        let mut func = f;
        let mut accum = init;
        let ghost mut states: Seq<Self> = seq![s];
        let ghost mut items: Seq<Option<Self::Item>> = Seq::empty();
        let ghost mut accs: Seq<T> = seq![init];
        proof {
            lemma_run_empty(s);
        }
        loop
            invariant
                s.wf(),
                s.bound() is Some,
                func == f,
                forall|acc: T, x: Self::Item| call_requires(f, (acc, x)),
                is_run_between(states, items, self, s),
                all_some(items),
                accs.len() == items.len() + 1,
                accs[0] == init,
                accs.last() == accum,
                forall|i: int|
                    0 <= i < items.len() ==> (#[trigger] items[i] matches Some(x) && call_ensures(
                        f,
                        (accs[i], x),
                        accs[i + 1],
                    )),
            decreases s.bound()->0,
        {
            let next = s.next();
            proof {
                lemma_extend(states, items, s, next);
                states = states.push(s);
                items = items.push(next);
            }
            match next {
                Some(x) => {
                    let ghost prev_accs = accs;
                    accum = func(accum, x);
                    proof {
                        accs = accs.push(accum);
                        let prev = items.drop_last();
                        assert forall|i: int| 0 <= i < items.len() implies (#[trigger] items[i] matches Some(z)
                            && call_ensures(f, (accs[i], z), accs[i + 1])) by {
                            if i < items.len() - 1 {
                                assert(items[i] == prev[i]);
                                assert(accs[i] == prev_accs[i]);
                                assert(accs[i + 1] == prev_accs[i + 1]);
                            }
                        }
                    }
                },
                None => {
                    proof {
                        let prev = items.drop_last();
                        assert forall|i: int| 0 <= i < items.len() - 1 implies (#[trigger] items[i] matches Some(z)
                            && call_ensures(f, (accs[i], z), accs[i + 1])) by {
                            assert(items[i] == prev[i]);
                        }
                    }
                    assert(drained(self, states, items));
                    return accum;
                },
            }
        }
    }

    /// Folds the items of a stream of results into `init` with `f`, from
    /// here until `None`; an error item, or an error from `f`, ends the call
    /// and is returned.
    fn try_fold<T, E, B, F: FnMut(B, T) -> Result<B, E>>(&mut self, init: B, f: F) -> (r: Result<B, E>)
        where
            Self: LendingStream<Item = Result<T, E>>,
        requires
            old(self).wf(),
            old(self).bound() is Some,
            forall|acc: B, x: T| call_requires(f, (acc, x)),
        ensures
            final(self).wf(),
            exists|states: Seq<Self>, items: Seq<Option<Result<T, E>>>, accs: Seq<B>|
                #![trigger is_run_between(states, items, *old(self), *final(self)), accs.len()]
                {
                    &&& is_run_between(states, items, *old(self), *final(self))
                    &&& items.len() >= 1
                    &&& accs.len() == items.len()
                    &&& accs[0] == init
                    &&& forall|i: int|
                        0 <= i < items.len() - 1 ==> (#[trigger] items[i] matches Some(Ok(x))
                            && call_ensures(f, (accs[i], x), Ok::<B, E>(accs[i + 1])))
                    &&& match items.last() {
                        None => r == Ok::<B, E>(accs.last()),
                        Some(Err(e)) => r == Err::<B, E>(e),
                        Some(Ok(x)) => r is Err && call_ensures(f, (accs.last(), x), r),
                    }
                },
    {
        let mut func = f;
        let mut accum = init;
        let ghost mut states: Seq<Self> = seq![*self];
        let ghost mut items: Seq<Option<Result<T, E>>> = Seq::empty();
        let ghost mut accs: Seq<B> = seq![init];
        proof {
            lemma_run_empty(*self);
        }
        loop
            invariant
                self.wf(),
                self.bound() is Some,
                func == f,
                forall|acc: B, x: T| call_requires(f, (acc, x)),
                is_run_between(states, items, *old(self), *self),
                accs.len() == items.len() + 1,
                accs[0] == init,
                accs.last() == accum,
                forall|i: int|
                    0 <= i < items.len() ==> (#[trigger] items[i] matches Some(Ok(x)) && call_ensures(
                        f,
                        (accs[i], x),
                        Ok::<B, E>(accs[i + 1]),
                    )),
            decreases self.bound()->0,
        {
            let next = self.next();
            proof {
                lemma_extend(states, items, *self, next);
                states = states.push(*self);
                items = items.push(next);
                let prev = items.drop_last();
                assert forall|i: int| 0 <= i < items.len() - 1 implies (#[trigger] items[i] matches Some(Ok(z))
                    && call_ensures(f, (accs[i], z), Ok::<B, E>(accs[i + 1]))) by {
                    assert(items[i] == prev[i]);
                }
            }
            match next {
                None => {
                    assert(is_run_between(states, items, *old(self), *self));
                    return Ok(accum);
                },
                Some(Err(e)) => {
                    assert(is_run_between(states, items, *old(self), *self));
                    return Err(e);
                },
                Some(Ok(x)) => {
                    let ghost before = accum;
                    let res = func(accum, x);
                    match res {
                        Err(e) => {
                            assert(is_run_between(states, items, *old(self), *self));
                            return Err(e);
                        },
                        Ok(b) => {
                            accum = b;
                            proof {
                                let prev_accs = accs;
                                accs = accs.push(accum);
                                assert forall|i: int| 0 <= i < items.len() implies (#[trigger] items[i] matches Some(Ok(z))
                                    && call_ensures(f, (accs[i], z), Ok::<B, E>(accs[i + 1]))) by {
                                    if i < items.len() - 1 {
                                        assert(accs[i] == prev_accs[i]);
                                        assert(accs[i + 1] == prev_accs[i + 1]);
                                    }
                                }
                            }
                        },
                    }
                },
            }
        }
    }

    /// The items of a stream of results before the first `None`, or the
    /// first error among them.
    fn try_collect<T, E>(self) -> (r: Result<Vec<T>, E>)
        where
            Self: LendingStream<Item = Result<T, E>>,
        requires
            self.wf(),
            self.bound() is Some,
        ensures
            exists|states: Seq<Self>, items: Seq<Option<Result<T, E>>>|
                #![trigger is_run_between(states, items, self, states.last())]
                {
                    &&& is_run_between(states, items, self, states.last())
                    &&& items.len() >= 1
                    &&& every(items.drop_last(), is_ok_item())
                    &&& match items.last() {
                        None => (r matches Ok(v) && v@ == ok_values(items.drop_last()) && v@.len()
                            == items.len() - 1 && forall|i: int|
                            0 <= i < v@.len() ==> #[trigger] items[i] == Some(Ok::<T, E>(v@[i]))),
                        Some(Err(e)) => r == Err::<Vec<T>, E>(e),
                        Some(Ok(_)) => false,
                    }
                },
    {
        let mut s = self;
        let mut out: Vec<T> = Vec::new();
        let ghost mut states: Seq<Self> = seq![s];
        let ghost mut items: Seq<Option<Result<T, E>>> = Seq::empty();
        proof {
            lemma_run_empty(s);
        }
        loop
            invariant
                s.wf(),
                s.bound() is Some,
                is_run_between(states, items, self, s),
                every(items, is_ok_item()),
                out@ == ok_values(items),
                out@.len() == items.len(),
                forall|i: int| 0 <= i < out@.len() ==> #[trigger] items[i] == Some(Ok::<T, E>(out@[i])),
            decreases s.bound()->0,
        {
            let next = s.next();
            proof {
                lemma_extend(states, items, s, next);
                states = states.push(s);
                items = items.push(next);
            }
            match next {
                None => {
                    assert(is_run_between(states, items, self, states.last()));
                    assert forall|i: int| 0 <= i < out@.len() implies #[trigger] items[i] == Some(Ok::<T, E>(out@[i])) by {
                        assert(items[i] == items.drop_last()[i]);
                    }
                    return Ok(out);
                },
                Some(Err(e)) => {
                    assert(is_run_between(states, items, self, states.last()));
                    return Err(e);
                },
                Some(Ok(x)) => {
                    let ghost prev_out = out@;
                    out.push(x);
                    proof {
                        assert forall|i: int| 0 <= i < out@.len() implies #[trigger] items[i] == Some(Ok::<T, E>(out@[i])) by {
                            if i < prev_out.len() {
                                assert(items[i] == items.drop_last()[i]);
                                assert(out@[i] == prev_out[i]);
                            }
                        }
                        assert(ok_values(items) == ok_values(items.drop_last()).push(x));
                        lemma_every_push(items.drop_last(), next, is_ok_item());
                    }
                },
            }
        }
    }

    /// Splits the items before the first `None` by `predicate`: those it
    /// accepts, in order, and those it rejects, in order.
    fn partition<P: FnMut(&Self::Item) -> bool>(self, predicate: P) -> (r: (Vec<Self::Item>, Vec<Self::Item>))
        requires
            self.wf(),
            self.bound() is Some,
            forall|x: Self::Item| call_requires(predicate, (&x,)),
        ensures
            exists|states: Seq<Self>, items: Seq<Option<Self::Item>>, verdicts: Seq<bool>|
                #![trigger drained(self, states, items), verdicts.len()]
                {
                    &&& drained(self, states, items)
                    &&& verdicts.len() == items.len() - 1
                    &&& forall|i: int|
                        0 <= i < verdicts.len() ==> (#[trigger] items[i] matches Some(x) && call_ensures(
                            predicate,
                            (&x,),
                            verdicts[i],
                        ))
                    &&& r.0@ == picked(somes(items), verdicts, true)
                    &&& r.1@ == picked(somes(items), verdicts, false)
                },
    {
        let mut s = self;
        let mut pred = predicate;
        let mut left: Vec<Self::Item> = Vec::new();
        let mut right: Vec<Self::Item> = Vec::new();
        let ghost mut states: Seq<Self> = seq![s];
        let ghost mut items: Seq<Option<Self::Item>> = Seq::empty();
        let ghost mut verdicts: Seq<bool> = Seq::empty();
        proof {
            lemma_run_empty(s);
        }
        loop
            invariant
                s.wf(),
                s.bound() is Some,
                pred == predicate,
                forall|x: Self::Item| call_requires(predicate, (&x,)),
                is_run_between(states, items, self, s),
                all_some(items),
                verdicts.len() == items.len(),
                forall|i: int|
                    0 <= i < verdicts.len() ==> (#[trigger] items[i] matches Some(x) && call_ensures(
                        predicate,
                        (&x,),
                        verdicts[i],
                    )),
                left@ == picked(somes(items), verdicts, true),
                right@ == picked(somes(items), verdicts, false),
            decreases s.bound()->0,
        {
            let next = s.next();
            proof {
                lemma_extend(states, items, s, next);
                states = states.push(s);
                items = items.push(next);
            }
            match next {
                None => {
                    proof {
                        let prev = items.drop_last();
                        assert forall|i: int| 0 <= i < verdicts.len() implies (#[trigger] items[i] matches Some(z)
                            && call_ensures(predicate, (&z,), verdicts[i])) by {
                            assert(items[i] == prev[i]);
                        }
                    }
                    assert(drained(self, states, items));
                    return (left, right);
                },
                Some(x) => {
                    let verdict = pred(&x);
                    proof {
                        let prev = items.drop_last();
                        let prev_verdicts = verdicts;
                        verdicts = verdicts.push(verdict);
                        assert(somes(items) == somes(prev).push(x));
                        lemma_somes_all_some(prev);
                        lemma_picked_push(somes(prev), prev_verdicts, x, verdict, true);
                        lemma_picked_push(somes(prev), prev_verdicts, x, verdict, false);
                        assert forall|i: int| 0 <= i < verdicts.len() implies (#[trigger] items[i] matches Some(z)
                            && call_ensures(predicate, (&z,), verdicts[i])) by {
                            if i < verdicts.len() - 1 {
                                assert(items[i] == prev[i]);
                            }
                        }
                    }
                    if verdict {
                        left.push(x);
                    } else {
                        right.push(x);
                    }
                },
            }
        }
    }

    /// Splits the pairs before the first `None` into their first and their
    /// second halves.
    fn unzip<A, B>(self) -> (r: (Vec<A>, Vec<B>))
        where
            Self: LendingStream<Item = (A, B)>,
        requires
            self.wf(),
            self.bound() is Some,
        ensures
            exists|states: Seq<Self>, items: Seq<Option<(A, B)>>|
                #![trigger drained(self, states, items)]
                {
                    &&& drained(self, states, items)
                    &&& r.0@ == somes(items).map_values(|p: (A, B)| p.0)
                    &&& r.1@ == somes(items).map_values(|p: (A, B)| p.1)
                    &&& r.0@.len() == items.len() - 1
                    &&& r.1@.len() == items.len() - 1
                    &&& forall|i: int| 0 <= i < r.0@.len() ==> #[trigger] items[i] == Some((r.0@[i], r.1@[i]))
                },
    {
        let mut s = self;
        let mut firsts: Vec<A> = Vec::new();
        let mut seconds: Vec<B> = Vec::new();
        let ghost mut states: Seq<Self> = seq![s];
        let ghost mut items: Seq<Option<(A, B)>> = Seq::empty();
        proof {
            lemma_run_empty(s);
        }
        loop
            invariant
                s.wf(),
                s.bound() is Some,
                is_run_between(states, items, self, s),
                all_some(items),
                firsts@ == somes(items).map_values(|p: (A, B)| p.0),
                seconds@ == somes(items).map_values(|p: (A, B)| p.1),
            decreases s.bound()->0,
        {
            let next = s.next();
            proof {
                lemma_extend(states, items, s, next);
                states = states.push(s);
                items = items.push(next);
            }
            match next {
                None => {
                    assert(drained(self, states, items));
                    proof {
                        let prev = items.drop_last();
                        lemma_somes_all_some(prev);
                        assert forall|i: int| 0 <= i < firsts@.len() implies #[trigger] items[i] == Some((firsts@[i], seconds@[i])) by {
                            assert(items[i] == prev[i]);
                            assert(Some(somes(prev)[i]) == prev[i]);
                        }
                    }
                    return (firsts, seconds);
                },
                Some((a, b)) => {
                    proof {
                        let prev = somes(items.drop_last());
                        assert(somes(items) == prev.push((a, b)));
                        assert(prev.push((a, b)).map_values(|p: (A, B)| p.0) == prev.map_values(|p: (A, B)| p.0).push(a));
                        assert(prev.push((a, b)).map_values(|p: (A, B)| p.1) == prev.map_values(|p: (A, B)| p.1).push(b));
                    }
                    firsts.push(a);
                    seconds.push(b);
                },
            }
        }
    }
}

impl<S: LendingStream> LendingStreamExt for S {}

} // verus!
