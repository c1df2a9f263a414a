use vstd::prelude::*;
use crate::lending_stream::{LendingStream, next_call};

verus! {

/// `states` and `items` record consecutive calls of `next`: the call made in
/// `states[i]` left the stream in `states[i + 1]` and returned `items[i]`.
pub open spec fn is_run<S: LendingStream>(states: Seq<S>, items: Seq<Option<S::Item>>) -> bool {
    &&& states.len() == items.len() + 1
    &&& forall|i: int| #![trigger items[i]] 0 <= i < items.len() ==> next_call(states[i], states[i + 1], items[i])
}

/// A run from `first` to `last`.
pub open spec fn is_run_between<S: LendingStream>(
    states: Seq<S>,
    items: Seq<Option<S::Item>>,
    first: S,
    last: S,
) -> bool {
    &&& is_run(states, items)
    &&& states[0] == first
    &&& states.last() == last
}

/// The number of calls in `items` that returned an item.
pub open spec fn count_some<T>(items: Seq<Option<T>>) -> nat
    decreases items.len(),
{
    if items.len() == 0 {
        0
    } else {
        count_some(items.drop_last()) + if items.last() is Some { 1nat } else { 0nat }
    }
}

/// Every call returned an item.
pub open spec fn all_some<T>(items: Seq<Option<T>>) -> bool {
    forall|i: int| 0 <= i < items.len() ==> #[trigger] items[i] is Some
}

/// Every call but the last returned an item, and the last returned nothing.
pub open spec fn ends_at_first_none<T>(items: Seq<Option<T>>) -> bool {
    &&& items.len() > 0
    &&& items.last() is None
    &&& all_some(items.drop_last())
}

/// The items of the calls that returned one, in order.
pub open spec fn somes<T>(items: Seq<Option<T>>) -> Seq<T>
    decreases items.len(),
{
    if items.len() == 0 {
        Seq::empty()
    } else {
        let rest = somes(items.drop_last());
        match items.last() {
            Some(x) => rest.push(x),
            None => rest,
        }
    }
}

/// A run extended by one more call is a run.
pub proof fn lemma_run_push<S: LendingStream>(
    states: Seq<S>,
    items: Seq<Option<S::Item>>,
    after: S,
    item: Option<S::Item>,
)
    requires
        is_run(states, items),
        next_call(states.last(), after, item),
    ensures
        is_run(states.push(after), items.push(item)),
        states.push(after)[0] == states[0],
        states.push(after).last() == after,
{
    let s2 = states.push(after);
    let i2 = items.push(item);
    assert forall|i: int| #![trigger i2[i]] 0 <= i < i2.len() implies next_call(s2[i], s2[i + 1], i2[i]) by {
        if i < items.len() {
            assert(i2[i] == items[i]);
            assert(s2[i] == states[i]);
            assert(s2[i + 1] == states[i + 1]);
        }
    }
}

/// What one more call adds to a run: the longer run, and how the answers
/// so far read with the new one.
pub proof fn lemma_extend<S: LendingStream>(
    states: Seq<S>,
    items: Seq<Option<S::Item>>,
    after: S,
    item: Option<S::Item>,
)
    requires
        is_run(states, items),
        next_call(states.last(), after, item),
    ensures
        is_run(states.push(after), items.push(item)),
        states.push(after)[0] == states[0],
        states.push(after).last() == after,
        items.push(item).drop_last() == items,
        items.push(item).last() == item,
        all_some(items) && item is Some ==> all_some(items.push(item)),
        all_some(items) && item is None ==> ends_at_first_none(items.push(item)),
        somes(items.push(item)) == match item {
            Some(v) => somes(items).push(v),
            None => somes(items),
        },
        count_some(items.push(item)) == count_some(items) + if item is Some { 1nat } else { 0nat },
{
    lemma_run_push(states, items, after, item);
    assert(items.push(item).drop_last() == items);
    if all_some(items) {
        lemma_push_all_some(items, item);
    }
    lemma_somes_push(items, item);
}

/// A run followed by a run from where the first ended is a run.
pub proof fn lemma_run_concat<S: LendingStream>(
    s1: Seq<S>,
    i1: Seq<Option<S::Item>>,
    s2: Seq<S>,
    i2: Seq<Option<S::Item>>,
)
    requires
        is_run(s1, i1),
        is_run(s2, i2),
        s1.last() == s2[0],
    ensures
        is_run(s1 + s2.drop_first(), i1 + i2),
        (s1 + s2.drop_first())[0] == s1[0],
        (s1 + s2.drop_first()).last() == s2.last(),
{
    let st = s1 + s2.drop_first();
    let it = i1 + i2;
    assert forall|i: int| #![trigger it[i]] 0 <= i < it.len() implies next_call(st[i], st[i + 1], it[i]) by {
        if i < i1.len() {
            assert(it[i] == i1[i]);
            assert(st[i] == s1[i]);
            assert(st[i + 1] == s1[i + 1]);
        } else {
            let j = i - i1.len();
            assert(it[i] == i2[j]);
            assert(st[i] == s2[j]);
            assert(st[i + 1] == s2[j + 1]);
            assert(i2[j] == i2[j]);
        }
    }
}

/// Every run from `s` returns nothing after its first `None`.
pub open spec fn fused<S: LendingStream>(s: S) -> bool {
    forall|states: Seq<S>, items: Seq<Option<S::Item>>, i: int, j: int|
        #![trigger is_run(states, items), items[i], items[j]]
        is_run(states, items) && states[0] == s && 0 <= i <= j < items.len() && items[i] is None
            ==> items[j] is None
}

/// Every run from `s` returns nothing on every call.
pub open spec fn spent<S: LendingStream>(s: S) -> bool {
    forall|states: Seq<S>, items: Seq<Option<S::Item>>, i: int|
        #![trigger is_run(states, items), items[i]]
        is_run(states, items) && states[0] == s && 0 <= i < items.len() ==> items[i] is None
}

/// A fused stream is still fused after a run, and spent once the run's
/// last call returned `None`.
pub proof fn lemma_fused_after<S: LendingStream>(states: Seq<S>, items: Seq<Option<S::Item>>)
    requires
        is_run(states, items),
        fused(states[0]),
    ensures
        fused(states.last()),
        items.len() > 0 && items.last() is None ==> spent(states.last()),
{
    assert forall|st: Seq<S>, it: Seq<Option<S::Item>>, i: int, j: int|
        #![trigger is_run(st, it), it[i], it[j]]
        is_run(st, it) && st[0] == states.last() && 0 <= i <= j < it.len() && it[i] is None
        implies it[j] is None by {
        lemma_run_concat(states, items, st, it);
        let all = items + it;
        assert(all[items.len() + i] == it[i]);
        assert(all[items.len() + j] == it[j]);
    }
    if items.len() > 0 && items.last() is None {
        assert forall|st: Seq<S>, it: Seq<Option<S::Item>>, i: int|
            #![trigger is_run(st, it), it[i]]
            is_run(st, it) && st[0] == states.last() && 0 <= i < it.len() implies it[i] is None by {
            lemma_run_concat(states, items, st, it);
            let all = items + it;
            assert(all[items.len() - 1] == items.last());
            assert(all[items.len() + i] == it[i]);
        }
    }
}

/// A spent stream stays spent over any run, which returns nothing.
pub proof fn lemma_spent_after<S: LendingStream>(states: Seq<S>, items: Seq<Option<S::Item>>)
    requires
        is_run(states, items),
        spent(states[0]),
    ensures
        spent(states.last()),
        forall|i: int| 0 <= i < items.len() ==> #[trigger] items[i] is None,
{
    assert forall|st: Seq<S>, it: Seq<Option<S::Item>>, i: int|
        #![trigger is_run(st, it), it[i]]
        is_run(st, it) && st[0] == states.last() && 0 <= i < it.len() implies it[i] is None by {
        lemma_run_concat(states, items, st, it);
        let all = items + it;
        assert(all[items.len() + i] == it[i]);
    }
    assert forall|i: int| 0 <= i < items.len() implies #[trigger] items[i] is None by {
        assert(is_run(states, items));
    }
}

/// Every answer in `items` satisfies `ok`.
pub open spec fn every<T>(items: Seq<Option<T>>, ok: spec_fn(Option<T>) -> bool) -> bool {
    forall|i: int| 0 <= i < items.len() ==> #[trigger] ok(items[i])
}

/// One more answer that satisfies `ok`.
pub proof fn lemma_every_push<T>(items: Seq<Option<T>>, x: Option<T>, ok: spec_fn(Option<T>) -> bool)
    requires
        every(items, ok),
        ok(x),
    ensures
        every(items.push(x), ok),
{
    assert forall|i: int| 0 <= i < items.push(x).len() implies #[trigger] ok(items.push(x)[i]) by {
        if i < items.len() {
            assert(items.push(x)[i] == items[i]);
        }
    }
}

/// The run of no calls.
pub proof fn lemma_run_empty<S: LendingStream>(s: S)
    ensures
        is_run(seq![s], Seq::<Option<S::Item>>::empty()),
        seq![s][0] == s,
        seq![s].last() == s,
{
}

/// Extending a run by an item keeps all earlier items.
pub proof fn lemma_push_all_some<T>(items: Seq<Option<T>>, x: Option<T>)
    requires
        all_some(items),
    ensures
        items.push(x).drop_last() == items,
        x is Some ==> all_some(items.push(x)),
{
    assert(items.push(x).drop_last() == items);
    if x is Some {
        assert forall|i: int| 0 <= i < items.push(x).len() implies #[trigger] items.push(x)[i] is Some by {
            if i < items.len() {
                assert(items.push(x)[i] == items[i]);
            }
        }
    }
}

/// The items that were handed out, after one more call.
pub proof fn lemma_somes_push<T>(items: Seq<Option<T>>, x: Option<T>)
    ensures
        somes(items.push(x)) == match x {
            Some(v) => somes(items).push(v),
            None => somes(items),
        },
        count_some(items.push(x)) == count_some(items) + if x is Some { 1nat } else { 0nat },
{
    assert(items.push(x).drop_last() == items);
}

/// When every call returned an item, the items handed out are exactly the
/// calls' answers.
pub proof fn lemma_somes_all_some<T>(items: Seq<Option<T>>)
    requires
        all_some(items),
    ensures
        somes(items).len() == items.len(),
        forall|i: int| 0 <= i < items.len() ==> Some(#[trigger] somes(items)[i]) == items[i],
    decreases items.len(),
{
    if items.len() > 0 {
        let prev = items.drop_last();
        assert forall|i: int| 0 <= i < prev.len() implies #[trigger] prev[i] is Some by {
            assert(prev[i] == items[i]);
        }
        lemma_somes_all_some(prev);
        assert(items[items.len() - 1] is Some);
        assert forall|i: int| 0 <= i < items.len() implies Some(#[trigger] somes(items)[i]) == items[i] by {
            if i < items.len() - 1 {
                assert(somes(items)[i] == somes(prev)[i]);
                assert(items[i] == prev[i]);
            }
        }
    }
}

/// A stream never yields more items than its bound promised: over any run
/// from a state whose bound is `b`, at most `b` calls return an item, and the
/// bound left at the end is at most `b` less the items handed out.
pub proof fn law_bound_limits_items<S: LendingStream>(
    states: Seq<S>,
    items: Seq<Option<S::Item>>,
    b: nat,
)
    requires
        is_run(states, items),
        states[0].bound() == Some(b),
    ensures
        count_some(items) <= b,
        states.last().bound() matches Some(b2) && b2 + count_some(items) <= b,
    decreases items.len(),
{
    if items.len() > 0 {
        let n = items.len() - 1;
        let s0 = states.drop_last();
        let i0 = items.drop_last();
        assert forall|i: int| #![trigger i0[i]] 0 <= i < i0.len() implies next_call(s0[i], s0[i + 1], i0[i]) by {
            assert(i0[i] == items[i]);
        }
        law_bound_limits_items(s0, i0, b);
        assert(next_call(states[n], states[n + 1], items[n]));
        assert(s0.last() == states[n]);
    }
}

} // verus!
