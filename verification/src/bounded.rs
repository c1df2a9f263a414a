use vstd::prelude::*;
use crate::lending_stream::{LendingStream, next_call};
use crate::runs::{is_run, count_some, lemma_run_concat};

verus! {

/// Every run from `s` hands out at most `b` items.
pub open spec fn yields_at_most<S: LendingStream>(s: S, b: nat) -> bool {
    forall|st: Seq<S>, it: Seq<Option<S::Item>>|
        #![trigger is_run(st, it)]
        is_run(st, it) && st[0] == s ==> count_some(it) <= b
}

/// The items handed out over two runs one after the other.
pub proof fn lemma_count_some_concat<T>(a: Seq<Option<T>>, b: Seq<Option<T>>)
    ensures
        count_some(a + b) == count_some(a) + count_some(b),
    decreases b.len(),
{
    if b.len() == 0 {
        assert(a + b == a);
    } else {
        lemma_count_some_concat(a, b.drop_last());
        assert((a + b).drop_last() == a + b.drop_last());
        assert((a + b).last() == b.last());
    }
}

/// A stream together with a proved limit on the items it can still yield,
/// so that it can be drained, searched and counted: any stream, a function
/// among them, whose every run is known to end within `limit` items.
#[derive(Clone)]
pub struct Bounded<S> {
    stream: S,
    limit: Ghost<nat>,
}

impl<S: LendingStream> Bounded<S> {
    /// The wrapped stream.
    pub closed spec fn inner(&self) -> S {
        self.stream
    }

    /// How many more items the wrapped stream can yield at most.
    pub closed spec fn limit(&self) -> nat {
        self.limit@
    }

    /// Declares that `stream` yields at most `limit` more items.
    pub fn new(stream: S, limit: Ghost<nat>) -> (r: Self)
        requires
            yields_at_most(stream, limit@),
        ensures
            r.inner() == stream,
            r.limit() == limit@,
    {
        Bounded { stream, limit }
    }
}

impl<S: LendingStream> LendingStream for Bounded<S> {
    type Item = S::Item;

    open spec fn wf(&self) -> bool {
        self.inner().wf() && yields_at_most(self.inner(), self.limit())
    }

    open spec fn bound(&self) -> Option<nat> {
        Some(self.limit())
    }

    /// A call of the wrapped stream, whose answer comes out; an item lowers
    /// the limit by one.
    open spec fn step(&self, after: Self, item: Option<S::Item>) -> bool {
        &&& next_call(self.inner(), after.inner(), item)
        &&& after.limit() == if item is Some { (self.limit() - 1) as nat } else { self.limit() }
    }

    fn next(&mut self) -> (item: Option<S::Item>) {
        let ghost s0 = self.stream;
        let ghost b0 = self.limit@;
        let item = self.stream.next();
        proof {
            let first_s = seq![s0, self.stream];
            let first_i = seq![item];
            assert(is_run(first_s, first_i)) by {
                assert forall|i: int| #![trigger first_i[i]] 0 <= i < first_i.len() implies next_call(first_s[i], first_s[i + 1], first_i[i]) by {
                    assert(i == 0);
                }
            }
            assert(first_i.drop_last() =~= Seq::<Option<S::Item>>::empty());
            assert(count_some(first_i.drop_last()) == 0);
            assert(first_i.last() == item);
            assert(count_some(first_i) == if item is Some { 1nat } else { 0nat });
            let b1: nat = if item is Some { (b0 - 1) as nat } else { b0 };
            assert forall|st: Seq<S>, it: Seq<Option<S::Item>>|
                #![trigger is_run(st, it)]
                is_run(st, it) && st[0] == self.stream implies count_some(it) <= b1 by {
                lemma_run_concat(first_s, first_i, st, it);
                lemma_count_some_concat(first_i, it);
            }
            self.limit = Ghost(b1);
        }
        item
    }
}

} // verus!
