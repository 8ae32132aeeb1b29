use par_bench::sort::{partition, quicksort_parallel, quicksort_serial};

fn pseudo_random(len: usize, seed: u64) -> Vec<i32> {
    let mut state = seed;
    (0..len)
        .map(|_| {
            state = state.wrapping_mul(6364136223846793005).wrapping_add(1442695040888963407);
            ((state >> 33) % 1_000_000) as i32 + 1
        })
        .collect()
}

fn check_both(input: Vec<i32>) {
    let mut expected = input.clone();
    expected.sort();
    let mut serial = input.clone();
    quicksort_serial(&mut serial);
    let mut parallel = input;
    quicksort_parallel(&mut parallel);
    assert_eq!(serial, expected);
    assert_eq!(parallel, expected);
}

#[test]
fn partition_around_last_element() {
    let mut arr = vec![5, 3, 8, 1, 9, 2];
    let p = partition(&mut arr, 5);
    assert_eq!(p, 1);
    assert_eq!(arr[1], 2);
    assert_eq!(arr[0], 1);
    assert!(arr[2..].iter().all(|&x| x > 2));
    let mut sorted_copy = arr.clone();
    sorted_copy.sort();
    assert_eq!(sorted_copy, vec![1, 2, 3, 5, 8, 9]);
}

#[test]
fn partition_around_inner_pivot() {
    let mut arr = vec![4, 7, 1, 7, 3];
    let p = partition(&mut arr, 1);
    assert_eq!(p, 4);
    assert_eq!(arr[4], 7);
    assert!(arr[..4].iter().all(|&x| x <= 7));
}

#[test]
fn sorts_empty_and_single() {
    check_both(vec![]);
    check_both(vec![42]);
}

#[test]
fn sorts_small_arrays() {
    check_both(vec![5, 3, 8, 1, 9, 2]);
    check_both(vec![2, 1]);
    check_both(vec![3, 3, 3, 1, 1, 2]);
    check_both(vec![i32::MAX, i32::MIN, 0, -1, 1]);
}

#[test]
fn sorts_random_arrays() {
    for (len, seed) in [(10usize, 1u64), (100, 2), (1000, 3), (100_000, 4)] {
        check_both(pseudo_random(len, seed));
    }
}

#[test]
fn serial_and_parallel_agree() {
    let input = pseudo_random(5000, 9);
    let mut serial = input.clone();
    let mut parallel = input;
    quicksort_serial(&mut serial);
    quicksort_parallel(&mut parallel);
    assert_eq!(serial, parallel);
}

#[test]
fn sorting_sorted_input_keeps_it() {
    let sorted: Vec<i32> = (0..1000).collect();
    let mut serial = sorted.clone();
    quicksort_serial(&mut serial);
    assert_eq!(serial, sorted);
    let mut parallel = sorted.clone();
    quicksort_parallel(&mut parallel);
    assert_eq!(parallel, sorted);
    let reversed: Vec<i32> = (0..1000).rev().collect();
    check_both(reversed);
}
