use peg_solitaire::buckets::{find_best_limit_for_n_buckets, get_map, level_sizes, step};
use std::collections::HashMap;

fn map_of(entries: &[(i32, usize)]) -> HashMap<i32, usize> {
    entries.iter().copied().collect()
}

#[test]
fn the_levels_hold_all_solvable_positions() {
    let data = level_sizes();
    assert_eq!(data.len(), 33);
    assert_eq!(data[0], 0);
    assert_eq!(data[1], 1);
    assert_eq!(data[18], 28994876);
    assert_eq!(data[32], 5);
    assert_eq!(data.iter().sum::<u64>(), 187636299);
    assert_eq!(*data.iter().max().unwrap(), 28994876);
}

#[test]
fn two_buckets_for_four_levels() {
    // 3 and 3 cannot share a bucket of 5, but each takes a 2
    let map = get_map(&[3, 3, 2, 2], 5).unwrap();
    assert_eq!(map, map_of(&[(2, 0), (3, 1)]));
}

#[test]
fn a_level_that_opens_a_bucket_is_not_noted() {
    let map = get_map(&[1, 1, 1], 2).unwrap();
    // [2, 1] is found before [1, 2], and the third level opens its bucket
    assert_eq!(map, map_of(&[(1, 0)]));
}

#[test]
fn one_bucket_for_all() {
    let map = get_map(&[1, 2, 3, 4], 10).unwrap();
    assert_eq!(map, map_of(&[(1, 0), (2, 0), (3, 0)]));
}

#[test]
fn no_map_where_every_level_needs_its_own_bucket() {
    assert_eq!(get_map(&[4, 4, 4], 5), None);
    assert_eq!(get_map(&[7], 7), None);
    assert_eq!(get_map(&[], 7), None);
}

#[test]
fn a_later_packing_with_fewer_buckets_wins() {
    // with the first 3 beside the 2 three buckets are needed; with the two
    // 3s together two are enough
    let data = [2, 3, 3, 2, 2];
    let mut buckets = vec![];
    let mut notes = HashMap::new();
    let found = step(&data, &mut buckets, 0, data.len(), 6, &mut notes).unwrap();
    assert_eq!(found.0, vec![6, 6]);
    assert_eq!(found.1, map_of(&[(2, 1), (3, 0), (4, 0)]));
    assert!(buckets.is_empty());
    assert!(notes.is_empty());
}

#[test]
fn of_equal_packings_the_first_is_kept() {
    let data = [4, 4, 2, 3, 3];
    let mut buckets = vec![];
    let mut notes = HashMap::new();
    let found = step(&data, &mut buckets, 0, data.len(), 7, &mut notes).unwrap();
    assert_eq!(found.0, vec![6, 7, 3]);
    assert_eq!(found.1, map_of(&[(2, 0), (3, 1)]));
}

#[test]
fn step_goes_on_from_buckets_that_are_there() {
    let data = [1, 2, 2];
    let mut buckets = vec![1];
    let mut notes = HashMap::new();
    let found = step(&data, &mut buckets, 1, 3, 3, &mut notes).unwrap();
    assert_eq!(found.0, vec![3, 2]);
    assert_eq!(found.1, map_of(&[(1, 0)]));
    // what was handed in is as it was
    assert_eq!(buckets, vec![1]);
    assert!(notes.is_empty());

    // nothing is found that does not beat what is known
    assert!(step(&data, &mut buckets, 1, 2, 3, &mut notes).is_none());
    assert_eq!(buckets, vec![1]);
}

#[test]
fn step_keeps_the_notes_of_the_levels_before() {
    let data = [1, 1, 5];
    let mut buckets = vec![2];
    let mut notes = map_of(&[(1, 0)]);
    let found = step(&data, &mut buckets, 2, 3, 7, &mut notes).unwrap();
    assert_eq!(found.0, vec![7]);
    assert_eq!(found.1, map_of(&[(1, 0), (2, 0)]));
    assert_eq!(notes, map_of(&[(1, 0)]));
}

#[test]
fn at_the_end_the_buckets_are_the_packing() {
    let data = [1, 2];
    let mut buckets = vec![3];
    let mut notes = map_of(&[(1, 0)]);
    let found = step(&data, &mut buckets, 2, 2, 3, &mut notes).unwrap();
    assert_eq!(found.0, vec![3]);
    assert_eq!(found.1, map_of(&[(1, 0)]));
    assert!(step(&data, &mut buckets, 2, 1, 3, &mut notes).is_none());
}

#[test]
fn halving_finds_the_limit_to_within_ten() {
    // the first three levels are left out; 10, 20, 30 and 40 fit into two
    // buckets of 50 and not into two smaller ones
    let data = [0, 0, 0, 10, 20, 30, 40];
    assert_eq!(find_best_limit_for_n_buckets(&data, 2), 55);
    // one bucket has to hold them all
    assert_eq!(find_best_limit_for_n_buckets(&data, 1), 100);
    // with four buckets each level has its own
    assert_eq!(find_best_limit_for_n_buckets(&data, 4), 47);
    // without buckets the upper bound stays where it was
    assert_eq!(find_best_limit_for_n_buckets(&data, 0), 100);
}

#[test]
fn halving_leaves_close_bounds_alone() {
    assert_eq!(find_best_limit_for_n_buckets(&[5, 5, 5], 1), 15);
    assert_eq!(find_best_limit_for_n_buckets(&[1, 1, 1, 7, 2], 1), 12);
}

#[test]
fn the_levels_in_two_buckets() {
    let map = get_map(&level_sizes(), 93818156).unwrap();
    let expected = map_of(&[
        (1, 0),
        (2, 0),
        (3, 0),
        (4, 0),
        (5, 0),
        (6, 0),
        (7, 0),
        (8, 0),
        (9, 0),
        (11, 1),
        (12, 0),
        (13, 1),
        (14, 1),
        (15, 0),
        (16, 1),
        (17, 0),
        (18, 0),
        (19, 1),
        (20, 0),
        (21, 1),
        (22, 1),
        (23, 1),
        (24, 1),
        (25, 1),
        (26, 0),
        (27, 1),
        (28, 0),
        (29, 0),
        (30, 1),
        (31, 1),
        (32, 1),
    ]);
    assert_eq!(map, expected);
}

#[test]
fn the_levels_in_four_buckets() {
    let map = get_map(&level_sizes(), 46945815).unwrap();
    let expected = map_of(&[
        (1, 0),
        (2, 0),
        (3, 0),
        (4, 0),
        (5, 0),
        (6, 0),
        (7, 0),
        (8, 0),
        (9, 0),
        (11, 0),
        (13, 0),
        (14, 1),
        (16, 2),
        (17, 0),
        (18, 1),
        (19, 3),
        (20, 2),
        (21, 0),
        (22, 1),
        (23, 3),
        (24, 2),
        (25, 3),
        (26, 1),
        (27, 0),
        (28, 2),
        (29, 0),
        (30, 0),
        (31, 0),
        (32, 0),
    ]);
    assert_eq!(map, expected);
}
