use vstd::prelude::*;
use crate::lending_stream::{LendingStream, Once, next_call, lemma_once_ext};
use crate::runs::{is_run, is_run_between, count_some, all_some, somes, fused, spent, law_bound_limits_items, lemma_somes_all_some, lemma_run_concat, lemma_run_push, lemma_fused_after, lemma_spent_after};
use crate::lending_stream_ext::{drained, decided, decided_in};
use crate::closures::{Filter, SkipWhile, searched};
use crate::lending_stream_ext::{ok_values, picked};
use crate::counted::{Take, Skip, StepBy, Enumerate};
use crate::fuse::{Fuse, Chain, Cycle};
use crate::flatten::Flatten;

verus! {

/// Once a fused stream has returned `None`, every later call returns `None`.
pub proof fn law_fuse_stays_done<S: LendingStream>(states: Seq<Fuse<S>>, items: Seq<Option<S::Item>>, i: int, j: int)
    requires
        is_run(states, items),
        0 <= i <= j < items.len(),
        items[i] is None,
    ensures
        items[j] is None,
        states[j + 1].is_done(),
    decreases j - i,
{
    assert(next_call(states[i], states[i + 1], items[i]));
    if j > i {
        law_fuse_stays_done(states, items, i, j - 1);
        assert(next_call(states[j], states[j + 1], items[j]));
    }
}

/// `take(n)` hands out at most `n` items, over any number of calls.
pub proof fn law_take_at_most<S: LendingStream>(states: Seq<Take<S>>, items: Seq<Option<S::Item>>)
    requires
        is_run(states, items),
    ensures
        count_some(items) <= states[0].remaining(),
{
    let b = states[0].bound()->0;
    law_bound_limits_items(states, items, b);
}

/// While its count has not run out, `take` passes the wrapped stream's
/// answers through: a run of `take(n)` of at most `n` calls that all
/// returned items is a run of the wrapped stream with the same answers.
pub proof fn law_take_passes_through<S: LendingStream>(states: Seq<Take<S>>, items: Seq<Option<S::Item>>)
    requires
        is_run(states, items),
        items.len() <= states[0].remaining(),
        all_some(items),
    ensures
        is_run(states.map_values(|t: Take<S>| t.inner()), items),
        forall|k: int| 0 <= k < states.len() ==> #[trigger] states[k].remaining() == states[0].remaining() - k,
    decreases items.len(),
{
    let inner = states.map_values(|t: Take<S>| t.inner());
    if items.len() > 0 {
        let n = items.len() - 1;
        let s0 = states.drop_last();
        let i0 = items.drop_last();
        assert forall|i: int| #![trigger i0[i]] 0 <= i < i0.len() implies next_call(s0[i], s0[i + 1], i0[i]) by {
            assert(i0[i] == items[i]);
        }
        assert forall|i: int| 0 <= i < i0.len() implies #[trigger] i0[i] is Some by {
            assert(i0[i] == items[i]);
        }
        law_take_passes_through(s0, i0);
        assert(s0.map_values(|t: Take<S>| t.inner()) == inner.drop_last());
        assert(next_call(states[n], states[n + 1], items[n]));
        assert(s0[n] == states[n]);
        assert(states[n].remaining() == states[0].remaining() - n);
        assert forall|i: int| #![trigger items[i]] 0 <= i < items.len() implies next_call(inner[i], inner[i + 1], items[i]) by {
            if i < n {
                assert(i0[i] == items[i]);
                assert(next_call(inner.drop_last()[i], inner.drop_last()[i + 1], i0[i]));
            }
        }
        assert forall|k: int| 0 <= k < states.len() implies #[trigger] states[k].remaining() == states[0].remaining() - k by {
            if k < states.len() - 1 {
                assert(s0[k] == states[k]);
            }
        }
    }
}

/// Once `skip(n)` has handed out an item, everything has been dropped that
/// was to be dropped, and every later call is a plain call of the wrapped
/// stream.
pub proof fn law_skip_then_passes_through<S: LendingStream>(
    states: Seq<Skip<S>>,
    items: Seq<Option<S::Item>>,
    i: int,
    j: int,
)
    requires
        is_run(states, items),
        0 <= i < j < items.len(),
        items[i] is Some,
    ensures
        states[j].remaining() == 0,
        next_call(states[j].inner(), states[j + 1].inner(), items[j]),
    decreases j - i,
{
    assert(next_call(states[i], states[i + 1], items[i]));
    if j > i + 1 {
        law_skip_then_passes_through(states, items, i, j - 1);
        assert(next_call(states[j - 1], states[j], items[j - 1]));
    }
    assert(next_call(states[j], states[j + 1], items[j]));
    let s = states[j];
    let a = states[j + 1];
    let (st, its) = choose|st: Seq<S>, its: Seq<Option<S::Item>>|
        #![trigger crate::runs::is_run_between(st, its, s.inner(), a.inner())]
        {
            &&& crate::runs::is_run_between(st, its, s.inner(), a.inner())
            &&& {
                ||| its.len() == s.remaining() + 1 && all_some(its.drop_last()) && items[j] == its.last()
                    && a.remaining() == 0
                ||| 1 <= its.len() <= s.remaining() && crate::runs::ends_at_first_none(its) && items[j] is None
                    && a.remaining() == s.remaining() - (its.len() - 1)
            }
        };
    assert(its.len() == 1);
    assert(its[0] == its.last());
    assert(next_call(st[0], st[1], its[0]));
}

/// `enumerate` numbers the items it hands out consecutively: the item of
/// every call that returns one carries the starting position plus the
/// number of items handed out before it.
pub proof fn law_enumerate_counts<S: LendingStream>(
    states: Seq<Enumerate<S>>,
    items: Seq<Option<(usize, S::Item)>>,
    k: int,
)
    requires
        is_run(states, items),
        0 <= k < items.len(),
        items[k] is Some,
    ensures
        (items[k]->0).0 == states[0].index() + count_some(items.take(k)),
    decreases k,
{
    law_enumerate_index(states, items, k);
    assert(next_call(states[k], states[k + 1], items[k]));
}

/// The position of an `enumerate` after some calls is its start plus the
/// number of items handed out.
pub proof fn law_enumerate_index<S: LendingStream>(
    states: Seq<Enumerate<S>>,
    items: Seq<Option<(usize, S::Item)>>,
    k: int,
)
    requires
        is_run(states, items),
        0 <= k <= items.len(),
    ensures
        states[k].index() == states[0].index() + count_some(items.take(k)),
    decreases k,
{
    if k > 0 {
        law_enumerate_index(states, items, k - 1);
        assert(next_call(states[k - 1], states[k], items[k - 1]));
        assert(items.take(k).drop_last() == items.take(k - 1));
    }
}

/// Once the first stream of a chain has returned `None`, it is never asked
/// again, and every later call is a call of the second stream.
pub proof fn law_chain_second_after_first<S: LendingStream, U: LendingStream<Item = S::Item>>(
    states: Seq<Chain<S, U>>,
    items: Seq<Option<S::Item>>,
    i: int,
    j: int,
)
    requires
        is_run(states, items),
        0 <= i <= j < items.len(),
        states[i].front().is_done(),
    ensures
        states[j + 1].front() == states[i].front(),
        next_call(states[j].back(), states[j + 1].back(), items[j]),
    decreases j - i,
{
    if j > i {
        law_chain_second_after_first(states, items, i, j - 1);
    }
    assert(next_call(states[j], states[j + 1], items[j]));
}

/// A stream made by `once` hands out its value on the first call and
/// nothing on every call after.
pub proof fn law_once_yields_once<T>(states: Seq<Once<T>>, items: Seq<Option<T>>, v: T, j: int)
    requires
        is_run(states, items),
        states[0].pending() == Some(v),
        0 <= j < items.len(),
    ensures
        items[j] == if j == 0 { Some(v) } else { None::<T> },
    decreases j,
{
    if j > 0 {
        law_once_yields_once(states, items, v, j - 1);
    }
    assert(next_call(states[j], states[j + 1], items[j]));
    if j > 0 {
        assert(next_call(states[j - 1], states[j], items[j - 1]));
    }
}

/// Once `flatten` has taken an item stream, it keeps draining that stream
/// and never asks the outer stream again, whatever the item stream answers.
pub proof fn law_flatten_keeps_first_stream<S: LendingStream<Item = U>, U: LendingStream>(
    states: Seq<Flatten<S, U>>,
    items: Seq<Option<U::Item>>,
    i: int,
    j: int,
)
    requires
        is_run(states, items),
        0 <= i <= j < states.len(),
        states[i].current() is Some,
    ensures
        states[j].outer() == states[i].outer(),
        states[j].current() is Some,
    decreases j - i,
{
    if j > i {
        law_flatten_keeps_first_stream(states, items, i, j - 1);
        assert(next_call(states[j - 1], states[j], items[j - 1]));
    }
}

/// Draining a stream to its first `None` hands out as many items as the
/// calls before that `None`, which is what `count` returns and how long the
/// vector of `collect` is, and never more than the stream's bound.
pub proof fn law_drained_counts<S: LendingStream>(s: S, states: Seq<S>, items: Seq<Option<S::Item>>)
    requires
        drained(s, states, items),
    ensures
        count_some(items) == items.len() - 1,
        somes(items).len() == items.len() - 1,
        s.bound() matches Some(b) ==> items.len() - 1 <= b,
{
    let prev = items.drop_last();
    lemma_somes_all_some(prev);
    lemma_count_all_some(prev);
    assert(items.len() > 0);
    assert(prev.push(items.last()) == items);
    crate::runs::lemma_somes_push(prev, items.last());
    if s.bound() is Some {
        law_bound_limits_items(states, items, s.bound()->0);
    }
}

/// When every call returned an item, every call counts.
proof fn lemma_count_all_some<T>(items: Seq<Option<T>>)
    requires
        all_some(items),
    ensures
        count_some(items) == items.len(),
    decreases items.len(),
{
    if items.len() > 0 {
        let prev = items.drop_last();
        assert forall|i: int| 0 <= i < prev.len() implies #[trigger] prev[i] is Some by {
            assert(prev[i] == items[i]);
        }
        lemma_count_all_some(prev);
        assert(items[items.len() - 1] is Some);
    }
}

/// `take(n)` over its whole life: the first `k` calls, with `k` at most
/// `n`, are calls of the wrapped stream whose answers come out unchanged;
/// after them the count is zero, so every later call returns `None` without
/// asking the wrapped stream. The count reaches zero after `n` items or at
/// the wrapped stream's first `None`, whichever comes first.
pub proof fn law_take_sequence<S: LendingStream>(states: Seq<Take<S>>, items: Seq<Option<S::Item>>) -> (k: int)
    requires
        is_run(states, items),
    ensures
        0 <= k <= items.len(),
        k <= states[0].remaining(),
        is_run(states.take(k + 1).map_values(|t: Take<S>| t.inner()), items.take(k)),
        forall|j: int| 0 <= j < k - 1 ==> #[trigger] items[j] is Some,
        forall|j: int| 0 <= j < k ==> #[trigger] states[j].remaining() > 0,
        k < items.len() ==> states[k].remaining() == 0,
        states[k].remaining() == 0 ==> (k == states[0].remaining() && all_some(items.take(k))) || (k
            > 0 && items[k - 1] is None),
        forall|j: int| k <= j < items.len() ==> #[trigger] items[j] is None && states[j + 1] == states[k],
    decreases items.len(),
{
    let n = states[0].remaining();
    if items.len() == 0 {
        assert(states.take(1).map_values(|t: Take<S>| t.inner()) =~= seq![states[0].inner()]);
        assert(items.take(0) =~= Seq::<Option<S::Item>>::empty());
        if states[0].remaining() == 0 {
            assert(all_some(items.take(0)));
        }
        return 0;
    }
    let m = items.len() - 1;
    let s0 = states.drop_last();
    let i0 = items.drop_last();
    assert forall|i: int| #![trigger i0[i]] 0 <= i < i0.len() implies next_call(s0[i], s0[i + 1], i0[i]) by {
        assert(i0[i] == items[i]);
    }
    let k0 = law_take_sequence(s0, i0);
    assert(s0[0] == states[0]);
    assert(s0[k0] == states[k0]);
    assert(s0.take(k0 + 1) == states.take(k0 + 1));
    assert(i0.take(k0) == items.take(k0));
    assert forall|j: int| 0 <= j < k0 - 1 implies #[trigger] items[j] is Some by {
        assert(i0[j] == items[j]);
    }
    assert forall|j: int| 0 <= j < k0 implies #[trigger] states[j].remaining() > 0 by {
        assert(s0[j] == states[j]);
    }
    assert(next_call(states[m], states[m + 1], items[m]));
    if k0 < m || states[m].remaining() == 0 {
        // The count was already zero: this call is idle too.
        if k0 < m {
            assert(i0[m - 1] == items[m - 1]);
            assert(states[m] == s0[m]);
            assert(s0[m] == s0[k0]);
        }
        let k = if k0 < m { k0 } else { m };
        if k0 == m {
            assert(states.take(m + 1) == s0.take(m + 1));
        }
        assert forall|j: int| k <= j < items.len() implies #[trigger] items[j] is None && states[j + 1] == states[k] by {
            if j < m {
                assert(i0[j] == items[j]);
                assert(s0[j + 1] == states[j + 1]);
            }
        }
        if states[k].remaining() == 0 && k0 == m {
            assert(items.take(k) == i0.take(k0));
        }
        k
    } else {
        // Every call so far was a call of the wrapped stream.
        let inner = states.map_values(|t: Take<S>| t.inner());
        let inner0 = s0.take(k0 + 1).map_values(|t: Take<S>| t.inner());
        assert(k0 == m);
        assert(states.take(m + 2) == states);
        assert(items.take(m + 1) == items);
        assert(inner0 == inner.drop_last());
        assert(i0.take(k0) == items.drop_last());
        assert forall|i: int| #![trigger items[i]] 0 <= i < items.len() implies next_call(inner[i], inner[i + 1], items[i]) by {
            if i < m {
                assert(next_call(inner0[i], inner0[i + 1], i0.take(k0)[i]));
                assert(inner0[i] == inner[i]);
                assert(inner0[i + 1] == inner[i + 1]);
                assert(i0.take(k0)[i] == items[i]);
            }
        }
        assert(states[m].remaining() == n - m) by {
            lemma_take_counts_down(s0, i0, m);
        }
        assert forall|j: int| 0 <= j < m implies #[trigger] items[j] is Some by {
            if j == m - 1 {
                assert(next_call(states[j], states[j + 1], items[j]));
            }
        }
        if states[m + 1].remaining() == 0 && items[m] is Some {
            assert forall|j: int| 0 <= j < items.len() implies #[trigger] items.take(m + 1)[j] is Some by {
                assert(items.take(m + 1)[j] == items[j]);
            }
        }
        m + 1
    }
}

/// While a `take` has handed out only items, its count went down by one
/// per call.
proof fn lemma_take_counts_down<S: LendingStream>(states: Seq<Take<S>>, items: Seq<Option<S::Item>>, j: int)
    requires
        is_run(states, items),
        0 <= j <= items.len(),
        forall|i: int| 0 <= i < j ==> #[trigger] states[i].remaining() > 0,
        forall|i: int| 0 <= i < j - 1 ==> #[trigger] items[i] is Some,
    ensures
        j > 0 ==> states[j - 1].remaining() == states[0].remaining() - (j - 1),
    decreases j,
{
    if j > 1 {
        lemma_take_counts_down(states, items, j - 1);
        assert(next_call(states[j - 2], states[j - 1], items[j - 2]));
        assert(states[j - 2].remaining() > 0);
    }
}

/// `skip(n)` over its whole life, once its first call has handed out an
/// item: the calls it made on the wrapped stream form one run whose first
/// `n` answers were items, all dropped, and whose answers after them are
/// exactly the answers of `skip`. When the wrapped stream is fused, `skip`
/// returns nothing after its first `None`.
pub proof fn law_skip_sequence<S: LendingStream>(states: Seq<Skip<S>>, items: Seq<Option<S::Item>>) -> (r: (
    Seq<S>,
    Seq<Option<S::Item>>,
))
    requires
        is_run(states, items),
        items.len() >= 1,
        items[0] is Some,
    ensures
        is_run_between(r.0, r.1, states[0].inner(), states.last().inner()),
        r.1.len() == states[0].remaining() + items.len(),
        all_some(r.1.take(states[0].remaining() as int)),
        r.1.skip(states[0].remaining() as int) == items,
        fused(states[0].inner()) ==> forall|i: int, j: int|
            0 <= i <= j < items.len() && #[trigger] items[i] is None ==> #[trigger] items[j] is None,
    decreases items.len(),
{
    let n = states[0].remaining() as int;
    let res = if items.len() == 1 {
        assert(next_call(states[0], states[1], items[0]));
        let s = states[0];
        let a = states[1];
        let (st, its) = choose|st: Seq<S>, its: Seq<Option<S::Item>>|
            #![trigger is_run_between(st, its, s.inner(), a.inner())]
            {
                &&& is_run_between(st, its, s.inner(), a.inner())
                &&& {
                    ||| its.len() == s.remaining() + 1 && all_some(its.drop_last()) && items[0] == its.last()
                        && a.remaining() == 0
                    ||| 1 <= its.len() <= s.remaining() && crate::runs::ends_at_first_none(its)
                        && items[0] is None && a.remaining() == s.remaining() - (its.len() - 1)
                }
            };
        assert(its.take(n) == its.drop_last());
        assert(its.skip(n) =~= items);
        (st, its)
    } else {
        let m = items.len() - 1;
        let s0 = states.drop_last();
        let i0 = items.drop_last();
        assert forall|i: int| #![trigger i0[i]] 0 <= i < i0.len() implies next_call(s0[i], s0[i + 1], i0[i]) by {
            assert(i0[i] == items[i]);
        }
        let (st, its) = law_skip_sequence(s0, i0);
        law_skip_then_passes_through(states, items, 0, m);
        assert(s0.last() == states[m]);
        lemma_run_push(st, its, states[m + 1].inner(), items[m]);
        let st2 = st.push(states[m + 1].inner());
        let its2 = its.push(items[m]);
        assert(its2.take(n) == its.take(n));
        assert(its2.skip(n) =~= i0.push(items[m]));
        assert(i0.push(items[m]) == items);
        (st2, its2)
    };
    if fused(states[0].inner()) {
        assert forall|i: int, j: int| 0 <= i <= j < items.len() && #[trigger] items[i] is None implies #[trigger] items[j] is None by {
            let all = res.1;
            assert(all[n + i] == res.1.skip(n)[i]);
            assert(all[n + j] == res.1.skip(n)[j]);
            assert(is_run(res.0, all) && res.0[0] == states[0].inner());
        }
    }
    res
}

/// The calls one call of a `step_by` from `s` to `a` made on the wrapped
/// stream, with their answers `its`, as its `step` describes them.
pub open spec fn step_by_calls<S: LendingStream>(s: StepBy<S>, a: StepBy<S>, item: Option<S::Item>, its: Seq<Option<S::Item>>) -> bool {
    ||| its.len() == s.skipping() + 1 && all_some(its.drop_last()) && item == its.last() && a.skipping()
        == s.stride() - 1
    ||| 1 <= its.len() <= s.skipping() && crate::runs::ends_at_first_none(its) && item is None
        && a.skipping() == s.skipping() - its.len()
}

/// One call of a `step_by`, read as the run of calls it made on the
/// wrapped stream.
proof fn step_by_segment<S: LendingStream>(s: StepBy<S>, a: StepBy<S>, item: Option<S::Item>) -> (r: (Seq<S>, Seq<Option<S::Item>>))
    requires
        next_call(s, a, item),
    ensures
        is_run_between(r.0, r.1, s.inner(), a.inner()),
        a.stride() == s.stride(),
        step_by_calls(s, a, item, r.1),
{
    let (st, its) = choose|st: Seq<S>, its: Seq<Option<S::Item>>|
        #![trigger is_run_between(st, its, s.inner(), a.inner())]
        is_run_between(st, its, s.inner(), a.inner()) && step_by_calls(s, a, item, its);
    (st, its)
}

/// `step_by(k)` over its whole life, while it hands out items: the calls
/// it made on the wrapped stream form one run that returned only items, of
/// which it handed out those at positions `0, k, 2k, ...` and dropped the
/// rest; the first call drops nothing.
pub proof fn law_step_by_sequence<S: LendingStream>(states: Seq<StepBy<S>>, items: Seq<Option<S::Item>>) -> (r: (Seq<S>, Seq<Option<S::Item>>))
    requires
        is_run(states, items),
        states[0].skipping() == 0,
        all_some(items),
    ensures
        is_run_between(r.0, r.1, states[0].inner(), states.last().inner()),
        all_some(r.1),
        states.last().stride() == states[0].stride(),
        items.len() == 0 ==> r.1.len() == 0,
        items.len() > 0 ==> r.1.len() == (items.len() - 1) * states[0].stride() + 1
            && states.last().skipping() == states[0].stride() - 1,
        forall|j: int| 0 <= j < items.len() ==> #[trigger] items[j] == r.1[j * states[0].stride()],
    decreases items.len(),
{
    let k = states[0].stride() as int;
    if items.len() == 0 {
        return (seq![states[0].inner()], Seq::empty());
    }
    let m = items.len() - 1;
    let s0 = states.drop_last();
    let i0 = items.drop_last();
    assert forall|i: int| #![trigger i0[i]] 0 <= i < i0.len() implies next_call(s0[i], s0[i + 1], i0[i]) by {
        assert(i0[i] == items[i]);
    }
    assert forall|i: int| 0 <= i < i0.len() implies #[trigger] i0[i] is Some by {
        assert(i0[i] == items[i]);
    }
    let (rs0, ras0) = law_step_by_sequence(s0, i0);
    assert(s0.last() == states[m]);
    assert(next_call(states[m], states[m + 1], items[m]));
    assert(items[m] is Some);
    let (seg_s, seg_i) = step_by_segment(states[m], states[m + 1], items[m]);
    lemma_run_concat(rs0, ras0, seg_s, seg_i);
    let rs = rs0 + seg_s.drop_first();
    let ras = ras0 + seg_i;
    let l0 = ras0.len() as int;
    assert(seg_i.len() == if m == 0 { 1 } else { k });
    assert(l0 == if m == 0 { 0 } else { (m - 1) * k + 1 });
    assert(ras.len() == m * k + 1) by (nonlinear_arith)
        requires
            ras.len() == l0 + seg_i.len(),
            seg_i.len() == if m == 0 { 1 } else { k },
            l0 == if m == 0 { 0 } else { (m - 1) * k + 1 },
    ;
    assert forall|i: int| 0 <= i < ras.len() implies #[trigger] ras[i] is Some by {
        if i < l0 {
            assert(ras[i] == ras0[i]);
        } else if i < ras.len() - 1 {
            assert(ras[i] == seg_i[i - l0]);
            assert(seg_i.drop_last()[i - l0] == seg_i[i - l0]);
        } else {
            assert(ras[i] == seg_i.last());
        }
    }
    assert forall|j: int| 0 <= j < items.len() implies #[trigger] items[j] == ras[j * k] by {
        if j < m {
            assert(j * k <= (m - 1) * k) by (nonlinear_arith)
                requires
                    0 <= j < m,
                    k > 0,
            ;
            assert(0 <= j * k) by (nonlinear_arith)
                requires
                    0 <= j,
                    k > 0,
            ;
            assert(ras[j * k] == ras0[j * k]);
            assert(i0[j] == items[j]);
        } else {
            assert(ras[m * k] == seg_i.last());
        }
    }
    (rs, ras)
}

/// Over a fused wrapped stream, `step_by` returns nothing after its first
/// `None`.
pub proof fn law_step_by_ends<S: LendingStream>(states: Seq<StepBy<S>>, items: Seq<Option<S::Item>>, i: int, j: int)
    requires
        is_run(states, items),
        fused(states[0].inner()),
        0 <= i <= j < items.len(),
        items[i] is None,
    ensures
        items[j] is None,
{
    if j > i {
        lemma_step_by_wrapped(states, items, j);
        assert(spent(states[j].inner()));
        assert(next_call(states[j], states[j + 1], items[j]));
        let (seg_s, seg_i) = step_by_segment(states[j], states[j + 1], items[j]);
        lemma_spent_after(seg_s, seg_i);
        assert(seg_i[seg_i.len() - 1] is None);
    }
}

/// Along a run of `step_by` over a fused stream, the wrapped stream stays
/// fused, and is spent once a call has returned `None`.
proof fn lemma_step_by_wrapped<S: LendingStream>(states: Seq<StepBy<S>>, items: Seq<Option<S::Item>>, q: int)
    requires
        is_run(states, items),
        fused(states[0].inner()),
        0 <= q <= items.len(),
    ensures
        fused(states[q].inner()),
        forall|i: int| 0 <= i < q && #[trigger] items[i] is None ==> spent(states[q].inner()),
    decreases q,
{
    if q > 0 {
        lemma_step_by_wrapped(states, items, q - 1);
        let p = q - 1;
        assert(next_call(states[p], states[q], items[p]));
        let (seg_s, seg_i) = step_by_segment(states[p], states[q], items[p]);
        lemma_fused_after(seg_s, seg_i);
        if exists|i: int| 0 <= i < p && #[trigger] items[i] is None {
            lemma_spent_after(seg_s, seg_i);
        }
        if items[p] is None {
            assert(seg_i.last() is None);
        }
    }
}

/// `chain` over its whole life: its first `m` calls are calls of the first
/// stream that returned items, while the second stream is left untouched;
/// the next call, if any, finds the first stream empty, which leaves it done
/// and never asked again, and from that call on every call is a call of the
/// (fused) second stream, whose answer comes out.
pub proof fn law_chain_sequence<S: LendingStream, U: LendingStream<Item = S::Item>>(
    states: Seq<Chain<S, U>>,
    items: Seq<Option<S::Item>>,
) -> (m: int)
    requires
        is_run(states, items),
    ensures
        0 <= m <= items.len(),
        is_run(states.take(m + 1).map_values(|c: Chain<S, U>| c.front()), items.take(m)),
        all_some(items.take(m)),
        forall|j: int| 0 <= j <= m ==> #[trigger] states[j].back() == states[0].back(),
        m < items.len() ==> next_call(states[m].front(), states[m + 1].front(), None)
            && states[m + 1].front().is_done(),
        forall|j: int| m < j < states.len() ==> #[trigger] states[j].front() == states[m + 1].front(),
        m < items.len() ==> is_run(states.skip(m).map_values(|c: Chain<S, U>| c.back()), items.skip(m)),
    decreases items.len(),
{
    if items.len() == 0 {
        assert(states.take(1).map_values(|c: Chain<S, U>| c.front()) =~= seq![states[0].front()]);
        assert(all_some(items.take(0)));
        return 0;
    }
    let l = items.len() - 1;
    let s0 = states.drop_last();
    let i0 = items.drop_last();
    assert forall|i: int| #![trigger i0[i]] 0 <= i < i0.len() implies next_call(s0[i], s0[i + 1], i0[i]) by {
        assert(i0[i] == items[i]);
    }
    let m0 = law_chain_sequence(s0, i0);
    assert(s0.last() == states[l]);
    assert(next_call(states[l], states[l + 1], items[l]));
    let fronts = states.map_values(|c: Chain<S, U>| c.front());
    let backs = states.map_values(|c: Chain<S, U>| c.back());
    assert forall|j: int| 0 <= j <= m0 implies #[trigger] states[j].back() == states[0].back() by {
        assert(s0[j] == states[j]);
    }
    if m0 < l {
        // The first stream is done: this call goes to the second.
        assert(s0[m0 + 1] == states[m0 + 1]);
        assert(s0[l] == states[l]);
        assert(states[l].front() == states[m0 + 1].front());
        assert(states[l + 1].front() == states[l].front());
        assert forall|j: int| m0 < j < states.len() implies #[trigger] states[j].front() == states[m0 + 1].front() by {
            if j < states.len() - 1 {
                assert(s0[j] == states[j]);
            }
        }
        assert(s0.take(m0 + 1) == states.take(m0 + 1));
        assert(i0.take(m0) == items.take(m0));
        assert(s0[m0] == states[m0]);
        let b0 = s0.skip(m0).map_values(|c: Chain<S, U>| c.back());
        let b = states.skip(m0).map_values(|c: Chain<S, U>| c.back());
        assert(b0 == b.drop_last());
        assert(i0.skip(m0) == items.skip(m0).drop_last());
        assert forall|i: int| #![trigger items.skip(m0)[i]] 0 <= i < items.skip(m0).len() implies next_call(b[i], b[i + 1], items.skip(m0)[i]) by {
            if i < items.skip(m0).len() - 1 {
                assert(next_call(b0[i], b0[i + 1], i0.skip(m0)[i]));
                assert(b0[i] == b[i]);
                assert(b0[i + 1] == b[i + 1]);
                assert(i0.skip(m0)[i] == items.skip(m0)[i]);
            }
        }
        m0
    } else if items[l] is Some && next_call(states[l].front(), states[l + 1].front(), items[l])
        && states[l + 1].back() == states[l].back() {
        // Still the first stream.
        assert(m0 == l);
        let f0 = s0.take(m0 + 1).map_values(|c: Chain<S, U>| c.front());
        let f = states.take(l + 2).map_values(|c: Chain<S, U>| c.front());
        assert(states.take(l + 2) == states);
        assert(items.take(l + 1) == items);
        assert(f0 == f.drop_last());
        assert(i0.take(m0) == i0);
        assert forall|i: int| #![trigger items[i]] 0 <= i < items.len() implies next_call(f[i], f[i + 1], items[i]) by {
            if i < l {
                assert(next_call(f0[i], f0[i + 1], i0.take(m0)[i]));
                assert(f0[i] == f[i]);
                assert(f0[i + 1] == f[i + 1]);
                assert(i0[i] == items[i]);
            }
        }
        assert forall|i: int| 0 <= i < items.len() implies #[trigger] items.take(l + 1)[i] is Some by {
            if i < l {
                assert(i0.take(m0)[i] == items[i]);
            }
        }
        assert forall|j: int| 0 <= j <= l + 1 implies #[trigger] states[j].back() == states[0].back() by {
            if j <= l {
                assert(s0[j] == states[j]);
            }
        }
        l + 1
    } else {
        // The first stream has nothing: it is done, and the second answers.
        assert(m0 == l);
        assert(next_call(states[l].front(), states[l + 1].front(), None));
        assert(s0.take(m0 + 1) == states.take(l + 1));
        assert(i0.take(m0) == items.take(l));
        let b = states.skip(l).map_values(|c: Chain<S, U>| c.back());
        assert(b.len() == 2);
        assert(b[0] == states[l].back());
        assert(b[1] == states[l + 1].back());
        assert(items.skip(l)[0] == items[l]);
        assert forall|j: int| l < j < states.len() implies #[trigger] states[j].front() == states[l + 1].front() by {
        }
        l
    }
}

/// Every run from `s` answers the items of `xs` in order and then `None`
/// on every later call.
pub open spec fn answers_then_none<S: LendingStream>(s: S, xs: Seq<S::Item>) -> bool {
    forall|st: Seq<S>, it: Seq<Option<S::Item>>, i: int|
        #![trigger is_run(st, it), it[i]]
        is_run(st, it) && st[0] == s && 0 <= i < it.len() ==> it[i] == if i < xs.len() {
            Some(xs[i])
        } else {
            None
        }
}

/// `cycle` over its whole life, for a start whose every run answers `xs`
/// and then `None`, and whose clones are the start itself: the call
/// numbered `k` (from zero) returns `xs[k % xs.len()]`, and `None` when
/// `xs` is empty.
pub proof fn law_cycle_sequence<S: LendingStream + Clone>(
    states: Seq<Cycle<S>>,
    items: Seq<Option<S::Item>>,
    xs: Seq<S::Item>,
    k: int,
)
    requires
        is_run(states, items),
        states[0].current() == states[0].start(),
        forall|c: S| #[trigger] cloned(states[0].start(), c) ==> c == states[0].start(),
        answers_then_none(states[0].start(), xs),
        0 <= k < items.len(),
    ensures
        items[k] == if xs.len() == 0 {
            None
        } else {
            Some(xs[k % (xs.len() as int)])
        },
{
    let l = xs.len() as int;
    let (rs, ras, a) = lemma_cycle_state(states, items, xs, k);
    let start = states[0].start();
    let r = ras.len() as int;
    assert(next_call(states[k], states[k + 1], items[k]));
    if items[k] is Some && next_call(states[k].current(), states[k + 1].current(), items[k]) {
        lemma_run_push(rs, ras, states[k + 1].current(), items[k]);
        assert(ras.push(items[k])[r] == items[k]);
        assert(r < l);
        vstd::arithmetic::div_mod::lemma_fundamental_div_mod_converse(k, l, a, r);
    } else {
        let (spent_s, c) = choose|spent_s: S, c: S|
            next_call(states[k].current(), spent_s, None) && cloned(states[k].start(), c) && next_call(
                c,
                states[k + 1].current(),
                items[k],
            );
        lemma_run_push(rs, ras, spent_s, None::<S::Item>);
        assert(ras.push(None::<S::Item>)[r] is None);
        assert(c == start);
        crate::runs::lemma_run_empty(start);
        lemma_run_push(seq![start], Seq::<Option<S::Item>>::empty(), states[k + 1].current(), items[k]);
        assert(Seq::<Option<S::Item>>::empty().push(items[k])[0] == items[k]);
        if l > 0 {
            assert(r == l);
            assert(k == (a + 1) * l) by (nonlinear_arith)
                requires
                    k == a * l + l,
            ;
            vstd::arithmetic::div_mod::lemma_fundamental_div_mod_converse(k, l, a + 1, 0);
        }
    }
}

/// Where a `cycle` stands after `q` calls: its current run is a run of the
/// start whose length `r` is what is left of `q` after whole rounds of
/// `xs.len()` items, or a whole round just finished.
proof fn lemma_cycle_state<S: LendingStream + Clone>(
    states: Seq<Cycle<S>>,
    items: Seq<Option<S::Item>>,
    xs: Seq<S::Item>,
    q: int,
) -> (r: (Seq<S>, Seq<Option<S::Item>>, int))
    requires
        is_run(states, items),
        states[0].current() == states[0].start(),
        forall|c: S| #[trigger] cloned(states[0].start(), c) ==> c == states[0].start(),
        answers_then_none(states[0].start(), xs),
        0 <= q <= items.len(),
    ensures
        is_run_between(r.0, r.1, states[0].start(), states[q].current()),
        states[q].start() == states[0].start(),
        r.1.len() <= xs.len() || xs.len() == 0,
        xs.len() > 0 ==> q == r.2 * xs.len() + r.1.len() && r.2 >= 0,
        xs.len() > 0 && r.1.len() == xs.len() ==> q > 0,
    decreases q,
{
    let start = states[0].start();
    let l = xs.len() as int;
    if q == 0 {
        crate::runs::lemma_run_empty(start);
        assert(0 * xs.len() == 0) by (nonlinear_arith);
        return (seq![start], Seq::empty(), 0);
    }
    let p = q - 1;
    let (rs, ras, a) = lemma_cycle_state(states, items, xs, p);
    let rp = ras.len() as int;
    assert(next_call(states[p], states[q], items[p]));
    if items[p] is Some && next_call(states[p].current(), states[q].current(), items[p]) {
        lemma_run_push(rs, ras, states[q].current(), items[p]);
        assert(ras.push(items[p])[rp] == items[p]);
        (rs.push(states[q].current()), ras.push(items[p]), a)
    } else {
        let (spent_s, c) = choose|spent_s: S, c: S|
            next_call(states[p].current(), spent_s, None) && cloned(states[p].start(), c) && next_call(
                c,
                states[q].current(),
                items[p],
            );
        assert(c == start);
        crate::runs::lemma_run_empty(start);
        lemma_run_push(seq![start], Seq::<Option<S::Item>>::empty(), states[q].current(), items[p]);
        if l > 0 {
            lemma_run_push(rs, ras, spent_s, None::<S::Item>);
            assert(ras.push(None::<S::Item>)[rp] is None);
            assert(rp == l);
            assert(q == (a + 1) * l + 1) by (nonlinear_arith)
                requires
                    p == a * l + l,
                    q == p + 1,
            ;
        }
        (seq![start].push(states[q].current()), Seq::<Option<S::Item>>::empty().push(items[p]), a + 1)
    }
}

/// Every run from `s1` and every run from `s2` give the same answers, call
/// for call, as far as both go.
pub open spec fn same_answers<S: LendingStream>(s1: S, s2: S) -> bool {
    forall|st1: Seq<S>, it1: Seq<Option<S::Item>>, st2: Seq<S>, it2: Seq<Option<S::Item>>, i: int|
        #![trigger is_run(st1, it1), is_run(st2, it2), it1[i], it2[i]]
        is_run(st1, it1) && st1[0] == s1 && is_run(st2, it2) && st2[0] == s2 && 0 <= i < it1.len() && i
            < it2.len() ==> it1[i] == it2[i]
}

/// `any` and `all` are dual: over two streams that give the same answers,
/// with a predicate `q` that always answers the opposite of a predicate `p`
/// that always gives one answer per item, `any(p)` finds an item exactly
/// when `all(q)` finds a counterexample (so `any(p) == !all(q)`), and both
/// make the same number of calls.
pub proof fn law_any_all_duality<S: LendingStream, P: FnMut(S::Item) -> bool, Q: FnMut(S::Item) -> bool>(
    s1: S,
    after1: S,
    s2: S,
    after2: S,
    p: P,
    q: Q,
    found1: bool,
    found2: bool,
    calls1: nat,
    calls2: nat,
)
    requires
        decided_in(s1, after1, p, true, found1, calls1),
        decided_in(s2, after2, q, false, found2, calls2),
        forall|x: S::Item, b: bool| #[trigger] call_ensures(q, (x,), b) == call_ensures(p, (x,), !b),
        forall|x: S::Item, b1: bool, b2: bool|
            #[trigger] call_ensures(p, (x,), b1) && #[trigger] call_ensures(p, (x,), b2) ==> b1 == b2,
        same_answers(s1, s2),
    ensures
        found1 == found2,
        calls1 == calls2,
{
    let (st1, it1) = choose|st: Seq<S>, it: Seq<Option<S::Item>>|
        #![trigger crate::runs::is_run_between(st, it, s1, after1)]
        {
            &&& crate::runs::is_run_between(st, it, s1, after1)
            &&& it.len() == calls1
            &&& calls1 >= 1
            &&& crate::lending_stream_ext::passed_over_by_value(it.drop_last(), p, false)
            &&& match it.last() {
                None => !found1,
                Some(x) => found1 && call_ensures(p, (x,), true),
            }
        };
    let (st2, it2) = choose|st: Seq<S>, it: Seq<Option<S::Item>>|
        #![trigger crate::runs::is_run_between(st, it, s2, after2)]
        {
            &&& crate::runs::is_run_between(st, it, s2, after2)
            &&& it.len() == calls2
            &&& calls2 >= 1
            &&& crate::lending_stream_ext::passed_over_by_value(it.drop_last(), q, true)
            &&& match it.last() {
                None => !found2,
                Some(x) => found2 && call_ensures(q, (x,), false),
            }
        };
    if calls1 < calls2 {
        let t = calls1 - 1;
        assert(it1[t] == it2[t]);
        assert(it2.drop_last()[t] == it2[t]);
        assert(crate::lending_stream_ext::mapped_to(q, true)(it2.drop_last()[t]));
        assert(it1.last() == it1[t]);
        if let Some(x) = it1[t] {
            assert(call_ensures(q, (x,), true));
            assert(call_ensures(p, (x,), false));
            assert(call_ensures(p, (x,), true));
        }
    } else if calls2 < calls1 {
        let t = calls2 - 1;
        assert(it1[t] == it2[t]);
        assert(it1.drop_last()[t] == it1[t]);
        assert(crate::lending_stream_ext::mapped_to(p, false)(it1.drop_last()[t]));
        assert(it2.last() == it2[t]);
        if let Some(x) = it1[t] {
            assert(call_ensures(p, (x,), false));
            assert(call_ensures(q, (x,), false));
            assert(call_ensures(p, (x,), true));
        }
    } else {
        let t = calls1 - 1;
        assert(it1[t] == it2[t]);
        assert(it1.last() == it1[t]);
        assert(it2.last() == it2[t]);
    }
}

/// A clone of a `once` stream, for an item type whose clones are the item
/// itself, is the stream itself.
proof fn lemma_once_clone_exact<T: Clone>(o: Once<T>, c: Once<T>)
    requires
        cloned(o, c),
        forall|a: T, b: T| #[trigger] cloned(a, b) ==> a == b,
    ensures
        c == o,
{
    if o != c {
        assert(call_ensures(Once::<T>::clone, (&o,), c));
        if let Some(a) = o.pending() {
            let b = c.pending()->0;
            assert(cloned(a, b));
        }
        lemma_once_ext(o, c);
    }
}

/// `once(v).cycle()` yields `v` on every call, for an item type whose
/// clones are the item itself (the integers, among others): the stream
/// runs out after `v`, and every restart from a clone of it yields `v`
/// again in the same call.
pub proof fn law_cycle_of_once<T: Clone>(states: Seq<Cycle<Once<T>>>, items: Seq<Option<T>>, v: T, k: int)
    requires
        is_run(states, items),
        states[0].current().pending() == Some(v),
        cloned(states[0].current(), states[0].start()),
        forall|a: T, b: T| #[trigger] cloned(a, b) ==> a == b,
        0 <= k < items.len(),
    ensures
        items[k] == Some(v),
{
    let start = states[0].start();
    lemma_once_clone_exact(states[0].current(), start);
    assert forall|c: Once<T>| #[trigger] cloned(start, c) implies c == start by {
        lemma_once_clone_exact(start, c);
    }
    let xs = seq![v];
    assert forall|st: Seq<Once<T>>, it: Seq<Option<T>>, i: int|
        #![trigger is_run(st, it), it[i]]
        is_run(st, it) && st[0] == start && 0 <= i < it.len() implies it[i] == if i < xs.len() {
            Some(xs[i])
        } else {
            None
        } by {
        law_once_yields_once(st, it, v, i);
    }
    law_cycle_sequence(states, items, xs, k);
    assert(k % 1 == 0);
}

/// A search for an item that makes `pred` return `wanted` (what `find`,
/// `filter` and `skip_while` do) makes a run of calls whose last answer is
/// its result: it returns `None` only when the stream ran out, and an item
/// only when that item makes `pred` return `wanted`; every item before it
/// made `pred` return the other answer.
pub proof fn law_search_result<S: LendingStream, P: FnMut(&S::Item) -> bool>(
    s: S,
    after: S,
    pred: P,
    wanted: bool,
    item: Option<S::Item>,
)
    requires
        searched(s, after, pred, wanted, item),
    ensures
        exists|st: Seq<S>, it: Seq<Option<S::Item>>|
            #![trigger is_run_between(st, it, s, after)]
            {
                &&& is_run_between(st, it, s, after)
                &&& it.len() >= 1
                &&& it.last() == item
                &&& item matches Some(x) ==> call_ensures(pred, (&x,), wanted)
                &&& forall|i: int|
                    0 <= i < it.len() - 1 ==> (#[trigger] it[i] matches Some(x) && call_ensures(
                        pred,
                        (&x,),
                        !wanted,
                    ))
            },
{
    let (st, it) = choose|st: Seq<S>, it: Seq<Option<S::Item>>|
        #![trigger is_run_between(st, it, s, after)]
        {
            &&& is_run_between(st, it, s, after)
            &&& it.len() >= 1
            &&& crate::closures::passed_over(it.drop_last(), pred, wanted)
            &&& match it.last() {
                None => item is None,
                Some(x) => item == Some(x) && call_ensures(pred, (&x,), wanted),
            }
        };
    assert forall|i: int| 0 <= i < it.len() - 1 implies (#[trigger] it[i] matches Some(x) && call_ensures(
        pred,
        (&x,),
        !wanted,
    )) by {
        assert(it.drop_last()[i] == it[i]);
        assert(crate::closures::judged(pred, !wanted)(it.drop_last()[i]));
    }
    assert(is_run_between(st, it, s, after));
}

/// A call of `filter` runs the wrapped stream up to the first item that
/// passes the test and no further: that item is what it hands out, every
/// item before it failed the test, and it returns `None` only when the
/// wrapped stream ran out.
pub proof fn law_filter_call<S: LendingStream, P: FnMut(&S::Item) -> bool>(
    f: Filter<S, P>,
    after: Filter<S, P>,
    item: Option<S::Item>,
)
    requires
        next_call(f, after, item),
    ensures
        exists|st: Seq<S>, it: Seq<Option<S::Item>>|
            #![trigger is_run_between(st, it, f.inner(), after.inner())]
            {
                &&& is_run_between(st, it, f.inner(), after.inner())
                &&& it.len() >= 1
                &&& it.last() == item
                &&& item matches Some(x) ==> call_ensures(f.pred(), (&x,), true)
                &&& forall|i: int|
                    0 <= i < it.len() - 1 ==> (#[trigger] it[i] matches Some(x) && call_ensures(
                        f.pred(),
                        (&x,),
                        false,
                    ))
            },
{
    law_search_result(f.inner(), after.inner(), f.pred(), true, item);
}

/// A call of `skip_while` runs the wrapped stream up to the first item that
/// fails the test and no further: that item is what it hands out, every item
/// before it passed the test, and it returns `None` only when the wrapped
/// stream ran out.
pub proof fn law_skip_while_call<S: LendingStream, P: FnMut(&S::Item) -> bool>(
    f: SkipWhile<S, P>,
    after: SkipWhile<S, P>,
    item: Option<S::Item>,
)
    requires
        next_call(f, after, item),
    ensures
        exists|st: Seq<S>, it: Seq<Option<S::Item>>|
            #![trigger is_run_between(st, it, f.inner(), after.inner())]
            {
                &&& is_run_between(st, it, f.inner(), after.inner())
                &&& it.len() >= 1
                &&& it.last() == item
                &&& item matches Some(x) ==> call_ensures(f.pred(), (&x,), false)
                &&& forall|i: int|
                    0 <= i < it.len() - 1 ==> (#[trigger] it[i] matches Some(x) && call_ensures(
                        f.pred(),
                        (&x,),
                        true,
                    ))
            },
{
    law_search_result(f.inner(), after.inner(), f.pred(), false, item);
}

/// What `any` and `all` decide: the search for an item that makes `pred`
/// return `wanted` finds one exactly when its last call returned an item,
/// that item makes `pred` return `wanted`, and every item before it made
/// `pred` return the other answer. So `any(p)` is `false` only when the
/// stream ran out with every item failing `p`, and `all(p)` is `true` only
/// when the stream ran out with every item passing `p`.
pub proof fn law_decided_result<S: LendingStream, P: FnMut(S::Item) -> bool>(
    s: S,
    after: S,
    pred: P,
    wanted: bool,
    found: bool,
)
    requires
        decided(s, after, pred, wanted, found),
    ensures
        exists|st: Seq<S>, it: Seq<Option<S::Item>>|
            #![trigger is_run_between(st, it, s, after)]
            {
                &&& is_run_between(st, it, s, after)
                &&& it.len() >= 1
                &&& found == (it.last() is Some)
                &&& it.last() matches Some(x) ==> call_ensures(pred, (x,), wanted)
                &&& forall|i: int|
                    0 <= i < it.len() - 1 ==> (#[trigger] it[i] matches Some(x) && call_ensures(
                        pred,
                        (x,),
                        !wanted,
                    ))
            },
{
    let calls = choose|calls: nat| #[trigger] decided_in(s, after, pred, wanted, found, calls);
    let (st, it) = choose|st: Seq<S>, it: Seq<Option<S::Item>>|
        #![trigger is_run_between(st, it, s, after)]
        {
            &&& is_run_between(st, it, s, after)
            &&& it.len() == calls
            &&& calls >= 1
            &&& crate::lending_stream_ext::passed_over_by_value(it.drop_last(), pred, !wanted)
            &&& match it.last() {
                None => !found,
                Some(x) => found && call_ensures(pred, (x,), wanted),
            }
        };
    assert forall|i: int| 0 <= i < it.len() - 1 implies (#[trigger] it[i] matches Some(x) && call_ensures(
        pred,
        (x,),
        !wanted,
    )) by {
        assert(it.drop_last()[i] == it[i]);
        assert(crate::lending_stream_ext::mapped_to(pred, !wanted)(it.drop_last()[i]));
    }
    assert(is_run_between(st, it, s, after));
}

/// The values that `try_collect` gathers are every `Ok` value, in order:
/// when every answer is an `Ok` item, there is one value per answer, and
/// each is the value of its answer.
pub proof fn law_ok_values_keep_all<T, E>(items: Seq<Option<Result<T, E>>>)
    requires
        forall|i: int| 0 <= i < items.len() ==> #[trigger] items[i] matches Some(Ok(_)),
    ensures
        ok_values(items).len() == items.len(),
        forall|i: int| 0 <= i < items.len() ==> #[trigger] items[i] == Some(Ok::<T, E>(ok_values(items)[i])),
    decreases items.len(),
{
    if items.len() > 0 {
        let prev = items.drop_last();
        assert forall|i: int| 0 <= i < prev.len() implies #[trigger] prev[i] matches Some(Ok(_)) by {
            assert(prev[i] == items[i]);
        }
        law_ok_values_keep_all(prev);
        assert(items[items.len() - 1] matches Some(Ok(_)));
        assert forall|i: int| 0 <= i < items.len() implies #[trigger] items[i] == Some(Ok::<T, E>(ok_values(items)[i])) by {
            if i < items.len() - 1 {
                assert(prev[i] == items[i]);
                assert(ok_values(items)[i] == ok_values(prev)[i]);
            }
        }
    }
}

/// `partition` loses and invents nothing: the two sides together are as
/// long as the items, and every element of a side is an item whose verdict
/// was that side.
pub proof fn law_picked_splits<T>(xs: Seq<T>, verdicts: Seq<bool>, side: bool)
    requires
        xs.len() == verdicts.len(),
    ensures
        picked(xs, verdicts, true).len() + picked(xs, verdicts, false).len() == xs.len(),
        forall|j: int|
            0 <= j < picked(xs, verdicts, side).len() ==> exists|i: int|
                0 <= i < xs.len() && xs[i] == #[trigger] picked(xs, verdicts, side)[j] && verdicts[i] == side,
    decreases xs.len(),
{
    if xs.len() > 0 {
        let px = xs.drop_last();
        let pv = verdicts.drop_last();
        law_picked_splits(px, pv, side);
        let rest = picked(px, pv, side);
        assert forall|j: int| 0 <= j < picked(xs, verdicts, side).len() implies exists|i: int|
            0 <= i < xs.len() && xs[i] == #[trigger] picked(xs, verdicts, side)[j] && verdicts[i] == side by {
            if j < rest.len() {
                let i = choose|i: int| 0 <= i < px.len() && px[i] == #[trigger] rest[j] && pv[i] == side;
                assert(picked(xs, verdicts, side)[j] == rest[j]);
                assert(xs[i] == px[i] && verdicts[i] == pv[i]);
            } else {
                assert(xs[xs.len() - 1] == picked(xs, verdicts, side)[j]);
            }
        }
    }
}

} // verus!
