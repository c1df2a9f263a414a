use lending_stream::lending_stream::once;
use lending_stream::{LendingStream, LendingStreamExt};

/// Yields the elements of a vector in order, then `None` forever.
#[derive(Clone)]
struct VecStream<T> {
    items: Vec<T>,
    pos: usize,
}

fn vs<T>(items: Vec<T>) -> VecStream<T> {
    VecStream { items, pos: 0 }
}

impl<T: Clone> LendingStream for VecStream<T> {
    type Item = T;
    fn next(&mut self) -> Option<T> {
        if self.pos < self.items.len() {
            self.pos += 1;
            Some(self.items[self.pos - 1].clone())
        } else {
            None
        }
    }
}

/// Lends the elements of a slice.
struct SliceStream<'a, T> {
    items: &'a [T],
    pos: usize,
}

impl<'a, T> LendingStream for SliceStream<'a, T> {
    type Item = &'a T;
    fn next(&mut self) -> Option<&'a T> {
        let r = self.items.get(self.pos);
        if r.is_some() {
            self.pos += 1;
        }
        r
    }
}

/// Yields `Some` and `None` in the given pattern: it does not stay ended.
struct Flicker {
    answers: Vec<Option<u32>>,
    pos: usize,
}

impl LendingStream for Flicker {
    type Item = u32;
    fn next(&mut self) -> Option<u32> {
        let r = self.answers.get(self.pos).copied().flatten();
        self.pos += 1;
        r
    }
}

fn drain<S: LendingStream>(mut s: S) -> Vec<S::Item> {
    let mut out = Vec::new();
    while let Some(x) = s.next() {
        out.push(x);
    }
    out
}

#[test]
fn once_yields_its_value_once() {
    let mut s = once(7u8);
    assert_eq!(s.next(), Some(7));
    assert_eq!(s.next(), None);
    assert_eq!(s.next(), None);
}

#[test]
fn closure_is_a_stream() {
    let mut n = 0u32;
    let mut s = move || {
        n += 1;
        if n <= 3 {
            Some(n)
        } else {
            None
        }
    };
    assert_eq!(LendingStream::next(&mut s), Some(1));
    assert_eq!(LendingStream::next(&mut s), Some(2));
    assert_eq!(LendingStream::next(&mut s), Some(3));
    assert_eq!(LendingStream::next(&mut s), None);
}

#[test]
fn map_applies_the_function() {
    assert_eq!(drain(vs(vec![1, 2, 3]).map(|x: i32| x * 10)), vec![10, 20, 30]);
    assert_eq!(drain(vs(Vec::<i32>::new()).map(|x: i32| x + 1)), Vec::<i32>::new());
}

#[test]
fn take_yields_at_most_n() {
    assert_eq!(drain(vs(vec![1, 2, 3, 4]).take(2)), vec![1, 2]);
    assert_eq!(drain(vs(vec![1, 2]).take(5)), vec![1, 2]);
    assert_eq!(drain(vs(vec![1, 2]).take(0)), Vec::<i32>::new());
}

#[test]
fn take_stops_for_good_at_a_none() {
    // The count drops to zero at the wrapped stream's None.
    let mut t = Flicker { answers: vec![Some(1), None, Some(2)], pos: 0 }.take(3);
    assert_eq!(t.next(), Some(1));
    assert_eq!(t.next(), None);
    assert_eq!(t.next(), None);
}

#[test]
fn skip_drops_the_first_n() {
    assert_eq!(drain(vs(vec![1, 2, 3, 4]).skip(2)), vec![3, 4]);
    assert_eq!(drain(vs(vec![1, 2]).skip(5)), Vec::<i32>::new());
    assert_eq!(drain(vs(vec![1, 2]).skip(0)), vec![1, 2]);
}

#[test]
fn skip_keeps_what_it_dropped_across_a_none() {
    // One item dropped, then a None ends the call; the next call drops one more.
    let mut s = Flicker { answers: vec![Some(1), None, Some(2), Some(3), Some(4)], pos: 0 }.skip(2);
    assert_eq!(s.next(), None);
    assert_eq!(s.next(), Some(3));
    assert_eq!(s.next(), Some(4));
}

#[test]
fn step_by_takes_every_step_th() {
    assert_eq!(drain(vs(vec![0, 1, 2, 3, 4, 5, 6]).step_by(3)), vec![0, 3, 6]);
    assert_eq!(drain(vs(vec![0, 1, 2]).step_by(1)), vec![0, 1, 2]);
    assert_eq!(drain(vs(vec![0, 1, 2, 3]).step_by(2)), vec![0, 2]);
}

#[test]
fn enumerate_counts_from_zero() {
    assert_eq!(drain(vs(vec!['a', 'b', 'c']).enumerate()), vec![(0, 'a'), (1, 'b'), (2, 'c')]);
}

#[test]
fn enumerate_leaves_the_position_at_a_none() {
    let mut e = Flicker { answers: vec![Some(5), None, Some(6)], pos: 0 }.enumerate();
    assert_eq!(e.next(), Some((0, 5)));
    assert_eq!(e.next(), None);
    assert_eq!(e.next(), Some((1, 6)));
}

#[test]
fn fuse_ends_for_good() {
    let mut f = Flicker { answers: vec![Some(1), None, Some(2)], pos: 0 }.fuse();
    assert_eq!(f.next(), Some(1));
    assert_eq!(f.next(), None);
    assert_eq!(f.next(), None);
}

#[test]
fn chain_concatenates() {
    assert_eq!(drain(vs(vec![1, 2]).chain(vs(vec![3]))), vec![1, 2, 3]);
    assert_eq!(drain(vs(Vec::<i32>::new()).chain(vs(vec![3]))), vec![3]);
}

#[test]
fn chain_does_not_go_back_to_the_first() {
    let mut c = Flicker { answers: vec![None, Some(9)], pos: 0 }.chain(vs(vec![1, 2]));
    assert_eq!(c.next(), Some(1));
    assert_eq!(c.next(), Some(2));
    assert_eq!(c.next(), None);
}

#[test]
fn zip_pairs_and_stops_at_the_shorter() {
    assert_eq!(drain(vs(vec![1, 2, 3]).zip(vs(vec![10, 20]))), vec![(1, 10), (2, 20)]);
}

#[test]
fn zip_drops_the_left_item_when_the_right_has_none() {
    let mut z = vs(vec![1u32, 2, 3]).zip(Flicker { answers: vec![Some(10), None, Some(30)], pos: 0 });
    assert_eq!(z.next(), Some((1, 10)));
    assert_eq!(z.next(), None);
    // The left item 2 was taken and dropped.
    assert_eq!(z.next(), Some((3, 30)));
}

#[test]
fn or_falls_back_on_every_call() {
    let mut o = Flicker { answers: vec![Some(1), None, Some(3)], pos: 0 }.or(vs(vec![20, 21]));
    assert_eq!(o.next(), Some(1));
    assert_eq!(o.next(), Some(20));
    assert_eq!(o.next(), Some(3));
    assert_eq!(o.next(), Some(21));
    assert_eq!(o.next(), None);
}

#[test]
fn race_yields_every_item_of_both() {
    let mut got = drain(vs(vec![1, 2, 3]).race(vs(vec![4, 5])));
    got.sort();
    assert_eq!(got, vec![1, 2, 3, 4, 5]);
}

#[test]
fn race_in_a_fixed_order() {
    let mut r = vs(vec![1]).race(vs(vec![2]));
    assert_eq!(r.next_in_order(false), Some(2));
    assert_eq!(r.next_in_order(false), Some(1));
    assert_eq!(r.next_in_order(true), None);
}

#[test]
fn take_while_ends_at_the_first_failure() {
    let mut t = vs(vec![1, 2, 5, 1]).take_while(|x: &i32| *x < 3);
    assert_eq!(t.next(), Some(1));
    assert_eq!(t.next(), Some(2));
    assert_eq!(t.next(), None);
    // Not fused: the next call asks the wrapped stream again.
    assert_eq!(t.next(), Some(1));
}

#[test]
fn filter_keeps_what_passes() {
    assert_eq!(drain(vs(vec![1, 2, 3, 4, 5, 6]).filter(|x: &i32| x % 2 == 0)), vec![2, 4, 6]);
    assert_eq!(drain(vs(vec![1, 3]).filter(|x: &i32| x % 2 == 0)), Vec::<i32>::new());
}

#[test]
fn skip_while_skips_on_every_call() {
    // Items that pass are passed over on every call, not only at the start.
    assert_eq!(drain(vs(vec![1, 2, 5, 1, 7]).skip_while(|x: &i32| *x < 3)), vec![5, 7]);
}

#[test]
fn inspect_shows_every_item() {
    let mut seen = Vec::new();
    {
        let out = drain(vs(vec![1, 2, 3]).inspect(|x: &i32| seen.push(*x)));
        assert_eq!(out, vec![1, 2, 3]);
    }
    assert_eq!(seen, vec![1, 2, 3]);
}

#[test]
fn scan_threads_its_state() {
    let out = drain(vs(vec![1, 2, 3, 4]).scan(0, |acc: &mut i32, x: i32| {
        *acc += x;
        if *acc > 6 {
            None
        } else {
            Some(*acc)
        }
    }));
    assert_eq!(out, vec![1, 3, 6]);
}

#[test]
fn cloned_and_copied_take_the_values_out() {
    let data = vec![String::from("a"), String::from("b")];
    assert_eq!(drain(SliceStream { items: &data, pos: 0 }.cloned()), data);
    let nums = [3u8, 4];
    assert_eq!(drain(SliceStream { items: &nums, pos: 0 }.copied()), vec![3, 4]);
}

#[test]
fn flat_map_drains_only_the_first_stream() {
    // An item stream is kept once taken, even after it runs out.
    let mut f = vs(vec![1, 10]).flat_map(|x: i32| vs(vec![x, x + 1]));
    assert_eq!(f.next(), Some(1));
    assert_eq!(f.next(), Some(2));
    assert_eq!(f.next(), None);
    assert_eq!(f.next(), None);
}

#[test]
fn flatten_drains_only_the_first_stream() {
    let mut f = vs(vec![vs(vec![1]), vs(vec![2])]).flatten();
    assert_eq!(f.next(), Some(1));
    assert_eq!(f.next(), None);
    assert_eq!(f.next(), None);
}

#[test]
fn flatten_of_an_empty_outer_stream() {
    let mut f = vs(Vec::<VecStream<i32>>::new()).flatten();
    assert_eq!(f.next(), None);
}

#[test]
fn cycle_starts_over() {
    let mut c = vs(vec![1, 2]).cycle();
    assert_eq!(c.next(), Some(1));
    assert_eq!(c.next(), Some(2));
    assert_eq!(c.next(), Some(1));
    assert_eq!(c.next(), Some(2));
    assert_eq!(c.next(), Some(1));
}

#[test]
fn cycle_of_an_empty_stream_returns_none() {
    let mut c = vs(Vec::<i32>::new()).cycle();
    assert_eq!(c.next(), None);
}

#[test]
fn cycle_of_once_repeats_forever() {
    let mut c = once(1u8).cycle();
    assert_eq!(c.next(), Some(1));
    assert_eq!(c.next(), Some(1));
    assert_eq!(c.next(), Some(1));
}

#[test]
fn cycle_round_robin_positions() {
    let mut c = vs(vec![1, 2, 3]).cycle();
    let got: Vec<i32> = (0..7).map(|_| c.next().unwrap()).collect();
    assert_eq!(got, vec![1, 2, 3, 1, 2, 3, 1]);
}

#[test]
fn adapters_clone_and_debug() {
    let t = once(5u8).take(1);
    let mut t2 = t.clone();
    assert_eq!(t2.next(), Some(5));
    assert!(format!("{:?}", once(2u8)).contains('2'));
}

#[test]
fn chain_polls_second_only_after_first_is_done() {
    assert_eq!(drain(vs(vec![1]).chain(vs(vec![2, 3])).take(2)), vec![1, 2]);
}
