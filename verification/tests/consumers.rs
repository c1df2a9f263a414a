use lending_stream::{LendingStream, LendingStreamExt};

#[derive(Clone)]
struct VecStream<T> {
    items: Vec<T>,
    pos: usize,
}

fn vs<T>(items: Vec<T>) -> VecStream<T> {
    VecStream { items, pos: 0 }
}

impl<T: Clone> LendingStream for VecStream<T> {
    type Item = T;
    fn next(&mut self) -> Option<T> {
        if self.pos < self.items.len() {
            self.pos += 1;
            Some(self.items[self.pos - 1].clone())
        } else {
            None
        }
    }
}

#[test]
fn count_counts_to_the_first_none() {
    assert_eq!(vs(vec![1, 2, 3]).count(), 3);
    assert_eq!(vs(Vec::<i32>::new()).count(), 0);
}

#[test]
fn nth_counts_from_zero() {
    let mut s = vs(vec![10, 11, 12, 13]);
    assert_eq!(s.nth(1), Some(11));
    assert_eq!(s.nth(0), Some(12));
    assert_eq!(s.nth(5), None);
}

#[test]
fn last_is_the_last_item() {
    assert_eq!(vs(vec![1, 2, 3]).last(), Some(3));
    assert_eq!(vs(Vec::<i32>::new()).last(), None);
}

#[test]
fn collect_gathers_in_order() {
    assert_eq!(vs(vec![3, 1, 2]).collect(), vec![3, 1, 2]);
}

#[test]
fn try_next_moves_the_result_outside() {
    let mut s = vs(vec![Ok::<i32, &str>(1), Err("bad")]);
    assert_eq!(s.try_next(), Ok(Some(1)));
    assert_eq!(s.try_next(), Err("bad"));
    assert_eq!(s.try_next(), Ok(None));
}

#[test]
fn try_collect_stops_at_the_first_error() {
    assert_eq!(vs(vec![Ok::<i32, &str>(1), Ok(2)]).try_collect(), Ok(vec![1, 2]));
    assert_eq!(vs(vec![Ok::<i32, &str>(1), Err("x"), Err("y")]).try_collect(), Err("x"));
}

#[test]
fn partition_splits_by_the_predicate() {
    let (even, odd) = vs(vec![1, 2, 3, 4, 5]).partition(|x: &i32| x % 2 == 0);
    assert_eq!(even, vec![2, 4]);
    assert_eq!(odd, vec![1, 3, 5]);
}

#[test]
fn fold_folds_from_the_left() {
    assert_eq!(vs(vec![1, 2, 3]).fold(String::new(), |acc: String, x: i32| format!("{acc}{x}")), "123");
    assert_eq!(vs(Vec::<i32>::new()).fold(7, |acc: i32, x: i32| acc + x), 7);
}

#[test]
fn try_fold_stops_at_an_error() {
    let add = |acc: i32, x: i32| if x < 0 { Err("negative") } else { Ok(acc + x) };
    assert_eq!(vs(vec![Ok::<i32, &str>(1), Ok(2)]).try_fold(0, add), Ok(3));
    assert_eq!(vs(vec![Ok::<i32, &str>(1), Ok(-2), Ok(5)]).try_fold(0, add), Err("negative"));
    assert_eq!(vs(vec![Ok::<i32, &str>(1), Err("item"), Ok(5)]).try_fold(0, add), Err("item"));
}

#[test]
fn find_stops_at_the_first_match() {
    let mut s = vs(vec![1, 4, 6, 7]);
    assert_eq!(s.find(|x: &i32| x % 2 == 0), Some(4));
    assert_eq!(s.next(), Some(6));
    assert_eq!(s.find(|x: &i32| *x > 100), None);
}

#[test]
fn find_map_returns_the_first_some() {
    let mut s = vs(vec!["a", "12", "b", "7"]);
    assert_eq!(s.find_map(|x: &str| x.parse::<i32>().ok()), Some(12));
    assert_eq!(s.find_map(|x: &str| x.parse::<i32>().ok()), Some(7));
    assert_eq!(s.find_map(|x: &str| x.parse::<i32>().ok()), None);
}

#[test]
fn position_counts_from_here() {
    let mut s = vs(vec![5, 6, 7, 8]);
    assert_eq!(s.position(|x: i32| x == 6), Some(1));
    assert_eq!(s.position(|x: i32| x == 8), Some(1));
    assert_eq!(s.position(|x: i32| x == 8), None);
}

#[test]
fn all_and_any() {
    assert!(vs(vec![2, 4]).all(|x: i32| x % 2 == 0));
    assert!(!vs(vec![2, 3]).all(|x: i32| x % 2 == 0));
    assert!(vs(Vec::<i32>::new()).all(|_x: i32| false));
    assert!(vs(vec![1, 4]).any(|x: i32| x % 2 == 0));
    assert!(!vs(vec![1, 3]).any(|x: i32| x % 2 == 0));
    assert!(!vs(Vec::<i32>::new()).any(|_x: i32| true));
}

#[test]
fn all_stops_at_the_first_failure() {
    let mut s = vs(vec![2, 3, 4]);
    assert!(!s.all(|x: i32| x % 2 == 0));
    assert_eq!(s.next(), Some(4));
}

#[test]
fn for_each_sees_every_item() {
    let mut seen = Vec::new();
    vs(vec![1, 2, 3]).for_each(|x: i32| seen.push(x));
    assert_eq!(seen, vec![1, 2, 3]);
}

#[test]
fn try_for_each_stops_at_an_error() {
    let mut seen = Vec::new();
    let mut s = vs(vec![1, 2, 3]);
    let r = s.try_for_each(|x: i32| {
        seen.push(x);
        if x == 2 {
            Err(x)
        } else {
            Ok(())
        }
    });
    assert_eq!(r, Err(2));
    assert_eq!(seen, vec![1, 2]);
    assert_eq!(s.next(), Some(3));
    assert_eq!(vs(vec![1]).try_for_each(|_x: i32| Ok::<(), ()>(())), Ok(()));
}

#[test]
fn unzip_splits_pairs() {
    let (a, b) = vs(vec![(1, 'x'), (2, 'y')]).unzip();
    assert_eq!(a, vec![1, 2]);
    assert_eq!(b, vec!['x', 'y']);
}

#[test]
fn count_matches_collect_len() {
    let a = vs(vec![4, 5, 6, 7]);
    let b = a.clone();
    assert_eq!(a.count(), b.collect().len());
}

#[test]
fn take_never_exceeds_its_count() {
    assert_eq!(vs(vec![1, 2, 3, 4, 5]).take(3).count(), 3);
    assert_eq!(vs(vec![1]).take(3).count(), 1);
}

#[test]
fn any_and_all_are_dual() {
    let p = |x: i32| x > 2;
    for data in [vec![1, 2, 3, 4], vec![1, 2], vec![]] {
        let mut a = vs(data.clone());
        let mut b = vs(data.clone());
        let any = a.any(p);
        let all = b.all(|x: i32| !p(x));
        assert_eq!(any, !all);
        // Both consumed the same number of items.
        assert_eq!(a.next(), b.next());
    }
}

#[test]
fn all_on_an_empty_closure_stream_is_true() {
    let mut e = || None::<i32>;
    assert!(e.all(|x: i32| x > 100));
}
