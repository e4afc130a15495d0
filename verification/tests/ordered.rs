use registrar::ids::{search_id, swap_ids};
use registrar::ordered::{binary_search, swap_ordered_existence};
use registrar::hashing::same_hash;
use registrar::queues::{retry_later, take_next_retry, take_next_up};
use registrar::schedule::{retry_missed, schedule};
use registrar::types::{CollatorId, Retriable};

fn col(n: u8) -> CollatorId {
    CollatorId([n; 32])
}

#[test]
fn existence_is_swapped_if_one_exists() {
    let mut ids = [1u32, 3, 5, 7];
    swap_ordered_existence(&mut ids, 3, 9);
    assert_eq!(ids, [1, 5, 7, 9]);
    swap_ordered_existence(&mut ids, 0, 9);
    assert_eq!(ids, [0, 1, 5, 7]);
    swap_ordered_existence(&mut ids, 6, 5);
    assert_eq!(ids, [0, 1, 6, 7]);
}

#[test]
fn existence_is_kept_if_both_or_none_exist() {
    let mut ids = [1u32, 3, 5];
    swap_ordered_existence(&mut ids, 1, 5);
    assert_eq!(ids, [1, 3, 5]);
    swap_ordered_existence(&mut ids, 2, 4);
    assert_eq!(ids, [1, 3, 5]);
    swap_ordered_existence(&mut ids, 3, 3);
    assert_eq!(ids, [1, 3, 5]);
    let mut none: [u32; 0] = [];
    swap_ordered_existence(&mut none, 3, 4);
    assert_eq!(none, []);
}

#[test]
fn a_list_in_disorder_is_left_alone_or_put_into_order() {
    let mut ids = [3u32, 1, 2];
    swap_ordered_existence(&mut ids, 7, 8);
    assert_eq!(ids, [3, 1, 2]);
    swap_ordered_existence(&mut ids, 1, 9);
    assert_eq!(ids, [2, 3, 9]);
    let mut ids = [9u32, 1, 5, 4, 5];
    swap_ordered_existence(&mut ids, 0, 5);
    assert_eq!(ids, [0, 1, 4, 5, 9]);
    assert_eq!(binary_search(&[9u32, 1, 2], &1), Ok(1));
}

#[test]
fn existence_swaps_back() {
    let mut ids = vec![2u32, 4, 8];
    swap_ids(&mut ids, 4, 9);
    assert_eq!(ids, vec![2, 8, 9]);
    swap_ids(&mut ids, 4, 9);
    assert_eq!(ids, vec![2, 4, 8]);
}

#[test]
fn swapping_existence_twice_restores_in_either_order() {
    for (one, other) in [(4u32, 9), (9, 4), (1, 8), (2, 8), (5, 7), (4, 4)] {
        let start = [2u32, 4, 8];
        let mut ids = start;
        swap_ordered_existence(&mut ids, one, other);
        let mut other_way = start;
        swap_ordered_existence(&mut other_way, other, one);
        assert_eq!(ids, other_way);
        swap_ordered_existence(&mut ids, one, other);
        assert_eq!(ids, start);
    }
}

#[test]
fn only_those_below_the_limit_are_retried() {
    let entry = |id, n| (id, Some((col(1), Retriable::WithRetries(n))));
    let active = vec![entry(1, 2), entry(2, 0), entry(3, 5), entry(4, 1), entry(5, 0)];
    let mut qs = vec![vec![(9, col(9))]];
    retry_missed(&mut qs, &active, &vec![], 2);
    assert_eq!(
        qs,
        vec![vec![(9, col(9)), (2, col(1)), (5, col(1))], vec![(4, col(1))]]
    );
    let mut below = vec![vec![(9, col(9))]];
    retry_missed(&mut below, &vec![active[1], active[3], active[4]], &vec![], 2);
    assert_eq!(below, qs);
    // nothing changes where all were retried too often.
    retry_missed(&mut qs, &vec![active[0], active[2]], &vec![], 2);
    assert_eq!(below, qs);
}

#[test]
fn searching_finds_the_place() {
    assert_eq!(binary_search(&[2u32, 4, 8], &4), Ok(1));
    assert_eq!(binary_search(&[2u32, 4, 8], &5), Err(2));
    assert_eq!(search_id(&vec![2, 4, 8], 1), Err(0));
    assert_eq!(search_id(&vec![2, 4, 8], 9), Err(3));
    assert_eq!(search_id(&vec![], 9), Err(0));
}

#[test]
fn retries_are_queued_by_number() {
    let mut qs = vec![];
    retry_later(&mut qs, (1, col(1)), 2, 2);
    assert_eq!(qs, Vec::<Vec<(u32, CollatorId)>>::new());
    retry_later(&mut qs, (1, col(1)), 1, 2);
    retry_later(&mut qs, (2, col(2)), 0, 2);
    retry_later(&mut qs, (3, col(3)), 0, 2);
    assert_eq!(qs, vec![vec![(2, col(2)), (3, col(3))], vec![(1, col(1))]]);
    assert_eq!(take_next_retry(&mut qs), Some(((2, col(2)), 0)));
    assert_eq!(take_next_retry(&mut qs), Some(((3, col(3)), 0)));
    assert_eq!(take_next_retry(&mut qs), Some(((1, col(1)), 1)));
    assert_eq!(take_next_retry(&mut qs), None);
    assert_eq!(qs.len(), 2);
}

#[test]
fn selected_threads_move_up() {
    let mut qs = vec![vec![(1, col(1))]];
    assert_eq!(take_next_up(&mut qs, 2), vec![]);
    assert_eq!(qs, vec![vec![(1, col(1))], vec![]]);
    assert_eq!(take_next_up(&mut qs, 2), vec![(1, col(1))]);
    assert_eq!(qs, vec![vec![], vec![]]);
}

#[test]
fn the_schedule_is_stably_sorted() {
    let r = schedule(
        &vec![3, 9],
        &vec![(1, col(1)), (9, col(2))],
        Some(((4, col(3)), 1)),
    );
    assert_eq!(
        r,
        vec![
            (1, Some((col(1), Retriable::WithRetries(0)))),
            (3, None),
            (4, Some((col(3), Retriable::WithRetries(2)))),
            (9, None),
            (9, Some((col(2), Retriable::WithRetries(0)))),
        ]
    );
}

#[test]
fn only_those_that_missed_are_retried() {
    let active = vec![
        (1, Some((col(1), Retriable::WithRetries(0)))),
        (2, None),
        (3, Some((col(3), Retriable::WithRetries(1)))),
        (4, Some((col(4), Retriable::Never))),
        (5, Some((col(5), Retriable::WithRetries(2)))),
    ];
    let mut qs = vec![];
    retry_missed(&mut qs, &active, &vec![1, 2], 2);
    assert_eq!(qs, vec![vec![], vec![(3, col(3))]]);
}

#[test]
fn hashes_are_compared_whole() {
    let mut b = [7u8; 32];
    assert!(same_hash(&[7; 32], &b));
    b[31] = 8;
    assert!(!same_hash(&[7; 32], &b));
}
