use orst::{BubbleOrst, Exit, InsertionOrst, Orster, QuickOrst};
use rand::seq::SliceRandom;

#[test]
fn bubble_orst_works() {
    let mut things = vec![4, 2, 3, 1];
    let mut other_things = things.clone();
    BubbleOrst.orst(&mut things, |i, j| {
        other_things.swap(i, j);
        Exit::No
    });
    assert_eq!(things, vec![1, 2, 3, 4]);
    assert_eq!(things, other_things);
}

#[test]
fn insertion_orst_works() {
    let mut things = vec![4, 2, 3, 1];
    let mut other_things = things.clone();
    InsertionOrst.orst(&mut things, |i, j| {
        other_things.swap(i, j);
        Exit::No
    });
    assert_eq!(things, vec![1, 2, 3, 4])
}

#[test]
fn quick_orst_works() {
    let mut rng = rand::thread_rng();
    let mut things: Vec<u64> = (1..=42).collect();
    things.shuffle(&mut rng);

    let mut expected = things.clone();
    expected.sort();

    let mut other_things = things.clone();
    QuickOrst.orst(&mut things, |i, j| {
        other_things.swap(i, j);
        Exit::No
    });

    assert_eq!(things, expected);
    assert_eq!(things, other_things);
}

fn record<S: Orster, T: Ord + Clone>(strategy: &S, input: &[T]) -> (Vec<T>, Vec<(usize, usize)>) {
    let mut things = input.to_vec();
    let mut events = Vec::new();
    strategy.orst(&mut things, |i, j| {
        events.push((i, j));
        Exit::No
    });
    (things, events)
}

fn replayed<T: Clone>(input: &[T], events: &[(usize, usize)]) -> Vec<T> {
    let mut mirror = input.to_vec();
    for &(i, j) in events {
        mirror.swap(i, j);
    }
    mirror
}

fn stopped_after<S: Orster>(strategy: &S, input: &[u64], k: usize) -> (Vec<u64>, Vec<(usize, usize)>) {
    let mut things = input.to_vec();
    let mut events = Vec::new();
    strategy.orst(&mut things, |i, j| {
        events.push((i, j));
        if events.len() == k {
            Exit::Yes
        } else {
            Exit::No
        }
    });
    (things, events)
}

fn sorted_copy(input: &[u64]) -> Vec<u64> {
    let mut v = input.to_vec();
    v.sort();
    v
}

#[test]
fn bubble_reports_adjacent_swaps_in_order() {
    let (things, events) = record(&BubbleOrst, &[4, 2, 3, 1]);
    assert_eq!(things, vec![1, 2, 3, 4]);
    assert_eq!(events, vec![(0, 1), (1, 2), (2, 3), (1, 2), (0, 1)]);
}

#[test]
fn insertion_reports_adjacent_swaps_in_order() {
    let (things, events) = record(&InsertionOrst, &[4, 2, 3, 1]);
    assert_eq!(things, vec![1, 2, 3, 4]);
    assert_eq!(events, vec![(0, 1), (1, 2), (2, 3), (1, 2), (0, 1)]);
}

#[test]
fn quick_places_pivot_at_its_position() {
    let (things, events) = record(&QuickOrst, &[4, 2, 3, 1]);
    assert_eq!(things, vec![1, 2, 3, 4]);
    assert_eq!(events, vec![(0, 3)]);
}

#[test]
fn quick_reports_absolute_positions_in_sub_ranges() {
    let input = [3u64, 1, 2, 5, 4];
    let (things, events) = record(&QuickOrst, &input);
    assert_eq!(things, vec![1, 2, 3, 4, 5]);
    assert_eq!(events, vec![(0, 2), (0, 1), (3, 4)]);
    assert_eq!(replayed(&input, &events), things);

    let input = [3u64, 5, 1, 4, 2];
    let (things, events) = record(&QuickOrst, &input);
    assert_eq!(things, vec![1, 2, 3, 4, 5]);
    assert_eq!(events, vec![(1, 4), (0, 2)]);
}

#[test]
fn all_strategies_sort_with_duplicates() {
    let input = [5u64, 1, 5, 0, 3, 3, 9, 1, 5, 2, 0];
    let expected = sorted_copy(&input);
    for (things, events) in [
        record(&BubbleOrst, &input),
        record(&InsertionOrst, &input),
        record(&QuickOrst, &input),
    ] {
        assert_eq!(things, expected);
        assert_eq!(replayed(&input, &events), expected);
        assert!(events.iter().all(|&(i, j)| i != j));
    }
}

#[test]
fn all_strategies_sort_reversed_input() {
    let input: Vec<u64> = (0..64).rev().collect();
    let expected: Vec<u64> = (0..64).collect();
    for (things, events) in [
        record(&BubbleOrst, &input),
        record(&InsertionOrst, &input),
        record(&QuickOrst, &input),
    ] {
        assert_eq!(things, expected);
        assert_eq!(replayed(&input, &events), expected);
    }
}

#[test]
fn strategies_sort_strings() {
    let input: Vec<String> = ["pear", "apple", "fig", "apple", "kiwi"].iter().map(|s| s.to_string()).collect();
    let expected: Vec<String> = ["apple", "apple", "fig", "kiwi", "pear"].iter().map(|s| s.to_string()).collect();
    assert_eq!(record(&BubbleOrst, &input).0, expected);
    assert_eq!(record(&InsertionOrst, &input).0, expected);
    assert_eq!(record(&QuickOrst, &input).0, expected);
}

#[test]
fn sorted_input_is_left_alone() {
    let input = [1u64, 2, 2, 3, 7, 8];
    let (things, events) = record(&BubbleOrst, &input);
    assert_eq!(things, input.to_vec());
    assert!(events.is_empty());
    let (things, events) = record(&InsertionOrst, &input);
    assert_eq!(things, input.to_vec());
    assert!(events.is_empty());
    let (things, events) = record(&QuickOrst, &input);
    assert_eq!(things, input.to_vec());
    assert_eq!(replayed(&input, &events), input.to_vec());
}

#[test]
fn short_inputs_make_no_swaps() {
    let empty: [u64; 0] = [];
    for (things, events) in [record(&BubbleOrst, &empty), record(&InsertionOrst, &empty), record(&QuickOrst, &empty)] {
        assert!(things.is_empty());
        assert!(events.is_empty());
    }
    for (things, events) in [record(&BubbleOrst, &[7u64]), record(&InsertionOrst, &[7u64]), record(&QuickOrst, &[7u64])] {
        assert_eq!(things, vec![7]);
        assert!(events.is_empty());
    }
}

#[test]
fn quick_swaps_a_pair_that_is_not_strictly_less() {
    assert_eq!(record(&QuickOrst, &[2u64, 1]), (vec![1, 2], vec![(0, 1)]));
    assert_eq!(record(&QuickOrst, &[1u64, 2]), (vec![1, 2], vec![]));
    assert_eq!(record(&QuickOrst, &[3u64, 3]), (vec![3, 3], vec![(0, 1)]));
}

#[test]
fn stop_leaves_exactly_k_swaps_applied() {
    let input = [9u64, 4, 7, 1, 8, 2, 6, 3, 5, 0];
    for k in 1..=4 {
        let runs = [
            stopped_after(&BubbleOrst, &input, k),
            stopped_after(&InsertionOrst, &input, k),
            stopped_after(&QuickOrst, &input, k),
        ];
        for (things, events) in runs {
            assert_eq!(events.len(), k);
            assert_eq!(replayed(&input, &events), things);
            assert_eq!(sorted_copy(&things), sorted_copy(&input));
        }
    }
}

#[test]
fn bubble_stopped_after_two_swaps() {
    let (things, events) = stopped_after(&BubbleOrst, &[4, 2, 3, 1], 2);
    assert_eq!(events, vec![(0, 1), (1, 2)]);
    assert_eq!(things, vec![2, 3, 4, 1]);
}

#[test]
fn quick_stop_inside_a_sub_range_ends_the_whole_sort() {
    let input = [5u64, 9, 1, 8, 2, 7, 3, 6, 4, 0];
    let (_, all) = record(&QuickOrst, &input);
    assert!(all.len() > 3);
    let (things, events) = stopped_after(&QuickOrst, &input, all.len() - 1);
    assert_eq!(events, all[..all.len() - 1].to_vec());
    assert_eq!(replayed(&input, &events), things);
}

#[test]
fn insertion_stopped_after_four_swaps() {
    let (things, events) = stopped_after(&InsertionOrst, &[4, 2, 3, 1], 4);
    assert_eq!(events, vec![(0, 1), (1, 2), (2, 3), (1, 2)]);
    assert_eq!(things, vec![2, 1, 3, 4]);
}

#[test]
fn quick_on_equal_elements_swaps_only_equals() {
    let (things, events) = record(&QuickOrst, &[2u64, 2, 2]);
    assert_eq!(things, vec![2, 2, 2]);
    assert_eq!(events, vec![(0, 2), (0, 1)]);
}

#[test]
fn quick_on_sorted_input_stopped_early_is_unchanged() {
    let input = [1u64, 1, 2, 2, 2, 5];
    let (_, all) = record(&QuickOrst, &input);
    assert!(all.iter().all(|&(i, j)| i < j && input[i] == input[j]));
    for k in 1..=all.len() {
        let (things, events) = stopped_after(&QuickOrst, &input, k);
        assert_eq!(events.len(), k);
        assert_eq!(things, input.to_vec());
    }
}

#[test]
fn adjacent_strategies_swap_once_per_inversion() {
    let input = [9u64, 4, 7, 1, 8, 2, 6, 3, 5, 0];
    let mut inversions = 0;
    for a in 0..input.len() {
        for b in a + 1..input.len() {
            if input[a] > input[b] {
                inversions += 1;
            }
        }
    }
    for (_, events) in [record(&BubbleOrst, &input), record(&InsertionOrst, &input)] {
        assert_eq!(events.len(), inversions);
        assert!(events.iter().all(|&(i, j)| j == i + 1));
    }
}
