use vstd::prelude::*;

verus! {

/// A stream that hands out its items one call of `next` at a time.
///
/// An implementation says in `step` what one call may do: from the state
/// before the call to the state after it, returning an item or nothing.
/// `wf` is the invariant that every call keeps, and `bound`, where it is
/// `Some(b)`, promises that the stream yields at most `b` more items over all
/// of its future calls.
pub trait LendingStream: Sized {
    /// The type of the items handed out. It takes no lifetime, so an item
    /// cannot borrow from the stream: every combinator over such streams
    /// would need an associated type with a `where` clause in its impl,
    /// which Verus does not support ("unsupported generics on associated
    /// type").
    type Item;

    /// The invariant of the stream's state; none unless the stream says so.
    open spec fn wf(&self) -> bool {
        true
    }

    /// At most how many more items the stream can yield, where that is
    /// bounded; unbounded unless the stream says so.
    open spec fn bound(&self) -> Option<nat> {
        None
    }

    /// One call of `next`: from `self` to `after`, returning `item`; any
    /// call at all unless the stream says what its calls do.
    open spec fn step(&self, after: Self, item: Option<Self::Item>) -> bool {
        true
    }

    /// Yields the next item, or `None`.
    fn next(&mut self) -> (item: Option<Self::Item>)
        requires
            old(self).wf(),
        ensures
            final(self).wf(),
            old(self).step(*final(self), item),
            bound_kept(old(self).bound(), final(self).bound(), item is Some),
    ;
}

/// What a call of `next` guarantees: the invariant holds afterwards, the call
/// is one `step` of the stream, and the bound never grows, and shrinks with
/// every item handed out.
pub open spec fn next_call<S: LendingStream>(before: S, after: S, item: Option<S::Item>) -> bool {
    &&& after.wf()
    &&& before.step(after, item)
    &&& bound_kept(before.bound(), after.bound(), item is Some)
}

/// A bound `after`, following `before`, is no larger, and is smaller when an
/// item was handed out; an unbounded stream may stay unbounded.
pub open spec fn bound_kept(before: Option<nat>, after: Option<nat>, yielded: bool) -> bool {
    before matches Some(b) ==> after matches Some(b2) && b2 <= b && (yielded ==> b2 < b)
}

/// Two bounds kept one after the other are kept over both.
pub proof fn lemma_bound_kept_trans(a: Option<nat>, b: Option<nat>, c: Option<nat>, y1: bool, y2: bool)
    requires
        bound_kept(a, b, y1),
        bound_kept(b, c, y2),
    ensures
        bound_kept(a, c, y1 || y2),
{
}

/// A stream that yields one item and then nothing.
#[derive(Copy, Debug)]
pub struct Once<T> {
    item: Option<T>,
}

/// Makes a stream that yields `value` once.
pub fn once<T>(value: T) -> (s: Once<T>)
    ensures
        s.pending() == Some(value),
{
    Once { item: Some(value) }
}

impl<T> Once<T> {
    /// The item still to come, if any.
    pub closed spec fn pending(&self) -> Option<T> {
        self.item
    }
}

impl<T: Clone> Clone for Once<T> {
    /// A clone still to yield a clone of the item still to come, if any.
    fn clone(&self) -> (r: Self)
        ensures
            r.pending() is None <==> self.pending() is None,
            self.pending() matches Some(a) ==> (r.pending() matches Some(b) && cloned(a, b)),
    {
        Once { item: self.item.clone() }
    }
}

/// Two `Once` streams with the same item still to come are the same.
pub proof fn lemma_once_ext<T>(a: Once<T>, b: Once<T>)
    requires
        a.pending() == b.pending(),
    ensures
        a == b,
{
}

impl<T> LendingStream for Once<T> {
    type Item = T;

    open spec fn wf(&self) -> bool {
        true
    }

    open spec fn bound(&self) -> Option<nat> {
        Some(if self.pending() is Some { 1nat } else { 0nat })
    }

    open spec fn step(&self, after: Self, item: Option<T>) -> bool {
        item == self.pending() && after.pending() is None
    }

    fn next(&mut self) -> (item: Option<T>) {
        self.item.take()
    }
}

/// A function called for each item is a stream: every call of `next`
/// calls it once and returns what it returns.
impl<T, F: FnMut() -> Option<T>> LendingStream for F {
    type Item = T;

    /// The function can be called.
    open spec fn wf(&self) -> bool {
        call_requires(*self, ())
    }

    open spec fn bound(&self) -> Option<nat> {
        None
    }

    /// The call returns a result of the function. What the call leaves in
    /// the function's captured state is not stated: a closure may change it.
    open spec fn step(&self, after: Self, item: Option<T>) -> bool {
        call_ensures(*self, (), item)
    }

    fn next(&mut self) -> (item: Option<T>) {
        (self)()
    }
}

} // verus!
