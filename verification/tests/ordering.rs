use reddit_place_2022::order::{
    count_inversions, find_overlaps, is_order_table, resolve_order, stable_order, OrderingWarning,
    ShardSpan,
};
use reddit_place_2022::timestamp::Timestamp;

fn at(seconds: i64) -> Timestamp {
    Timestamp { seconds, nanos: 0 }
}

fn span(first: i64, last: i64) -> ShardSpan {
    ShardSpan { first: at(first), last: at(last) }
}

#[test]
fn stable_order_sorts_by_time() {
    let keys = vec![at(5), at(3), at(9), at(1)];
    assert_eq!(stable_order(&keys), vec![3, 1, 0, 2]);
}

#[test]
fn stable_order_keeps_equal_instants_in_their_order() {
    let keys = vec![at(5), at(3), at(5), at(3), at(5)];
    assert_eq!(stable_order(&keys), vec![1, 3, 0, 2, 4]);
}

#[test]
fn stable_order_looks_at_nanoseconds() {
    let keys = vec![
        Timestamp { seconds: 1, nanos: 2 },
        Timestamp { seconds: 1, nanos: 1 },
        Timestamp { seconds: 0, nanos: 999_999_999 },
    ];
    assert_eq!(stable_order(&keys), vec![2, 1, 0]);
}

#[test]
fn stable_order_of_little_is_itself() {
    assert_eq!(stable_order(&vec![]), Vec::<usize>::new());
    assert_eq!(stable_order(&vec![at(1)]), vec![0]);
    assert_eq!(stable_order(&vec![at(1), at(2), at(3)]), vec![0, 1, 2]);
}

#[test]
fn stable_order_agrees_with_the_standard_stable_sort() {
    let mut seed: u64 = 12345;
    let mut keys = Vec::new();
    for _ in 0..500 {
        seed = seed.wrapping_mul(6364136223846793005).wrapping_add(1442695040888963407);
        keys.push(Timestamp { seconds: ((seed >> 33) % 40) as i64 - 20, nanos: ((seed >> 20) % 3) as u32 });
    }
    let mut expected: Vec<usize> = (0..keys.len()).collect();
    expected.sort_by_key(|&i| (keys[i].seconds, keys[i].nanos));
    assert_eq!(stable_order(&keys), expected);
}

#[test]
fn shards_apart_in_time_resolve_without_warning() {
    let spans = vec![span(30, 39), span(10, 19), span(40, 40), span(20, 30)];
    let order = resolve_order(&spans);
    assert_eq!(order, vec![1, 3, 0, 2]);
    assert_eq!(find_overlaps(&spans, &order), Some(vec![]));
}

#[test]
fn one_overlapping_shard_gives_one_warning() {
    let spans = vec![span(30, 39), span(10, 19), span(40, 49), span(15, 29)];
    let order = resolve_order(&spans);
    assert_eq!(order, vec![1, 3, 0, 2]);
    assert_eq!(
        find_overlaps(&spans, &order),
        Some(vec![OrderingWarning {
            previous: 1,
            current: 3,
            previous_last: at(19),
            current_first: at(15),
        }])
    );
}

#[test]
fn every_overlapping_pair_of_neighbours_is_reported_in_order() {
    let spans = vec![span(0, 100), span(50, 60), span(55, 70), span(70, 80)];
    let order = resolve_order(&spans);
    assert_eq!(order, vec![0, 1, 2, 3]);
    let warnings = find_overlaps(&spans, &order).unwrap();
    assert_eq!(warnings.len(), 2);
    assert_eq!((warnings[0].previous, warnings[0].current), (0, 1));
    assert_eq!((warnings[1].previous, warnings[1].current), (1, 2));
}

#[test]
fn an_order_is_checked_as_it_is_given() {
    let spans = vec![span(10, 19), span(20, 29)];
    assert_eq!(find_overlaps(&spans, &vec![0, 1]), Some(vec![]));
    assert_eq!(find_overlaps(&spans, &vec![1, 0]).unwrap().len(), 1);
    assert_eq!(find_overlaps(&spans, &vec![]), Some(vec![]));
    assert_eq!(find_overlaps(&spans, &vec![1]), Some(vec![]));
    assert_eq!(find_overlaps(&spans, &vec![0, 2]), None);
}

#[test]
fn shards_that_begin_together_keep_the_order_of_their_indices() {
    let spans = vec![span(5, 10), span(5, 5), span(1, 5)];
    assert_eq!(resolve_order(&spans), vec![2, 0, 1]);
}

#[test]
fn order_tables_name_every_shard_once() {
    assert!(is_order_table(&vec![], 0));
    assert!(is_order_table(&vec![0], 1));
    assert!(is_order_table(&vec![2, 0, 1], 3));
    assert!(!is_order_table(&vec![2, 0, 1], 4));
    assert!(!is_order_table(&vec![2, 0, 2], 3));
    assert!(!is_order_table(&vec![3, 0, 1], 3));
    assert!(!is_order_table(&vec![0, 1], 3));
}

#[test]
fn inversions_are_counted_between_neighbours() {
    assert_eq!(count_inversions(&vec![]), 0);
    assert_eq!(count_inversions(&vec![at(3)]), 0);
    assert_eq!(count_inversions(&vec![at(1), at(1), at(2)]), 0);
    assert_eq!(count_inversions(&vec![at(2), at(1), at(3), at(0)]), 2);
    assert_eq!(count_inversions(&vec![at(3), at(2), at(1)]), 2);
}
