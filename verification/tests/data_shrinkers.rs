use std::collections::{BTreeMap, BTreeSet};
use suppositions::data::shrinkers::{
    DeltaDebugSegmentIterator, InfoPoolIntervalsIter, RemovalShrinker, ScalarShrinker, SpanSource,
};
use suppositions::data::{minimize, InfoPool, InfoSource, Span};

// The replay pads the pool with zeros, so trailing zeros make no
// difference to what is drawn; we can ignore those.
fn without_trailing_zeroes(mut buf: &[u8]) -> &[u8] {
    while buf.last() == Some(&0) {
        let l = buf.len();
        buf = &buf[..l - 1]
    }

    buf
}

fn take_n<I: InfoSource>(src: &mut I, n: usize) -> Vec<u8> {
    let mut res = Vec::new();
    for _ in 0..n {
        res.push(src.draw_u8())
    }
    res
}

fn all_spans<S: SpanSource>(mut src: S) -> Vec<Span> {
    let mut res = Vec::new();
    while let Some(span) = src.next_span() {
        res.push(span);
    }
    res
}

#[test]
fn shrinkers_minimiser_should_minimise_to_empty() {
    let p = InfoPool::of_vec(vec![1]);
    let min = minimize(&p, &|_| true);

    assert_eq!(min.buffer(), &[0u8; 0])
}

#[test]
fn shrinkers_minimiser_should_minimise_to_minimum_given_size() {
    let p = InfoPool::of_vec(vec![1; 4]);
    let min = minimize(&p, &|t| take_n(t, 16).into_iter().filter(|&v| v > 0).count() > 1);

    assert_eq!(without_trailing_zeroes(min.buffer()), &[1, 1])
}

#[test]
fn shrinkers_minimiser_should_minimise_scalar_values() {
    let p = InfoPool::of_vec(vec![255; 3]);
    let min = minimize(&p, &|t| take_n(t, 16).into_iter().any(|v| v >= 3));

    assert_eq!(without_trailing_zeroes(min.buffer()), &[3])
}

#[test]
fn shrinkers_minimiser_should_minimise_scalar_values_to_empty() {
    let p = InfoPool::of_vec(vec![255; 3]);
    let min = minimize(&p, &|t| take_n(t, 16).into_iter().any(|_| true));

    assert_eq!(without_trailing_zeroes(min.buffer()), &[] as &[u8])
}

#[test]
fn shrinkers_minimiser_should_minimise_scalar_values_by_search() {
    let p = InfoPool::of_vec(vec![255; 3]);
    let min = minimize(&p, &|t| take_n(t, 16).into_iter().any(|v| v >= 13));

    assert_eq!(without_trailing_zeroes(min.buffer()), &[13])
}

#[test]
fn shrinkers_minimiser_should_minimise_scalar_values_accounting_for_overflow() {
    let p = InfoPool::of_vec(vec![255; 3]);
    let min = minimize(&p, &|t| take_n(t, 16).into_iter().any(|v| v >= 251));

    assert_eq!(without_trailing_zeroes(min.buffer()), &[251])
}

#[test]
fn shrink_by_delta_debug_removal_should_produce_somewhat_unique_outputs() {
    let p = InfoPool::of_vec((0..256usize).map(|v| v as u8).collect::<Vec<_>>());
    let mut counts = BTreeMap::new();
    let mut shrinker = RemovalShrinker::delta_debug_of_pool(p);
    while let Some(val) = shrinker.next() {
        *counts.entry(val).or_insert(0) += 1;
    }

    assert!(
        counts.values().all(|&val| val == 1),
        "Expect all items to be unique; non-unique entries {:?}",
        counts.iter().filter(|&(_, &v)| v != 1).collect::<BTreeMap<_, _>>()
    )
}

#[test]
fn shrink_by_scalar_should_produce_somewhat_unique_outputs() {
    let p = InfoPool::of_vec((0..256usize).map(|v| v as u8).collect::<Vec<_>>());
    let mut counts = BTreeMap::new();
    let mut shrinker = ScalarShrinker::new(p);
    while let Some(val) = shrinker.next() {
        *counts.entry(val).or_insert(0) += 1;
    }

    assert!(
        counts.values().all(|&val| val == 1),
        "Expect all items to be unique; non-unique entries {:?}",
        counts.iter().filter(|&(_, &v)| v != 1).collect::<BTreeMap<_, _>>()
    )
}

#[test]
fn delta_debug_segments_should_generate_segments_on_power_of_two_boundary() {
    let items = all_spans(DeltaDebugSegmentIterator::new(7)).into_iter().collect::<BTreeSet<_>>();
    assert_eq!(
        items,
        vec![
            (0, 7),
            (0, 4),
            (4, 7),
            (0, 2),
            (2, 4),
            (4, 6),
            (6, 7),
            (0, 1),
            (2, 3),
            (4, 5),
            (6, 7),
            (1, 2),
            (3, 4),
            (5, 6),
        ]
        .into_iter()
        .map(Span::of_pair)
        .collect()
    );
}

#[test]
fn delta_debug_segments_should_generate_segments_of_non_increasing_size() {
    let lengths = all_spans(DeltaDebugSegmentIterator::new(7))
        .into_iter()
        .map(|span| {
            let (start, end) = span.as_pair();
            end - start
        })
        .collect::<Vec<_>>();

    assert!(
        lengths.iter().zip(lengths.iter().skip(1)).all(|(a, b)| a >= b),
        "Generated lengths {:?} are monotonically decreasing",
        lengths
    );
}

#[test]
fn shrink_by_removal_should_remove_stated_slices() {
    let p = InfoPool::of_vec(vec![0, 1, 2, 3, 4]);
    let mut shrinker =
        RemovalShrinker::new(p, InfoPoolIntervalsIter::new(vec![Span::of_pair((2, 3))]));
    let mut vals = Vec::new();
    while let Some(val) = shrinker.next() {
        vals.push(val);
    }

    assert_eq!(vals, vec![InfoPool::of_vec(vec![0, 1, 3, 4])]);
}

#[test]
fn delta_debug_segments_of_eight_are_the_halvings() {
    let spans = all_spans(DeltaDebugSegmentIterator::new(8));
    let pairs = spans.iter().map(|s| s.as_pair()).collect::<Vec<_>>();
    assert_eq!(
        pairs,
        vec![
            (0, 8),
            (0, 4),
            (4, 8),
            (0, 2),
            (2, 4),
            (4, 6),
            (6, 8),
            (0, 1),
            (1, 2),
            (2, 3),
            (3, 4),
            (4, 5),
            (5, 6),
            (6, 7),
            (7, 8),
        ]
    );
}

#[test]
fn delta_debug_segments_of_nothing_are_none() {
    assert!(all_spans(DeltaDebugSegmentIterator::new(0)).is_empty());
}

#[test]
fn scalar_shrinker_halves_each_byte_in_turn() {
    let p = InfoPool::of_vec(vec![200]);
    let mut shrinker = ScalarShrinker::new(p);
    let mut vals = Vec::new();
    while let Some(val) = shrinker.next() {
        vals.push(val.buffer()[0]);
    }
    assert_eq!(vals.first(), Some(&0));
    assert!(vals.iter().all(|&v| v < 200));
}

#[test]
fn removal_by_recorded_intervals_cuts_the_last_closed_first() {
    let p = InfoPool::of_vec(vec![0, 1, 2, 3, 4]);
    let mut shrinker = RemovalShrinker::new(
        p,
        InfoPoolIntervalsIter::new(vec![Span::of_pair((0, 1)), Span::of_pair((3, 5))]),
    );
    let first = shrinker.next().expect("a candidate");
    assert_eq!(first.buffer(), &[0, 1, 2]);
    let second = shrinker.next().expect("a candidate");
    assert_eq!(second.buffer(), &[1, 2, 3, 4]);
    assert!(shrinker.next().is_none());
}

#[test]
fn minimiser_that_accepts_nothing_keeps_the_original_pool() {
    let p = InfoPool::of_vec(vec![7, 3, 9]);
    let min = minimize(&p, &|_| false);

    assert_eq!(min.buffer(), &[7, 3, 9]);
}
