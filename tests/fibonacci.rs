use par_bench::chunks::{assemble_chunks, chunk_ranges};
use par_bench::fib::{
    fibonacci_chunk, fibonacci_dynamic, fibonacci_parallel, fibonacci_serial, MAX_FIB_INDEX,
};

fn reference_fib(n: u64) -> u64 {
    let (mut a, mut b) = (0u64, 1u64);
    for _ in 0..n {
        let c = a + b;
        a = b;
        b = c;
    }
    a
}

#[test]
fn chunk_five_to_eight() {
    assert_eq!(fibonacci_chunk(5, 8), vec![5, 8, 13, 21]);
}

#[test]
fn chunk_single_index() {
    assert_eq!(fibonacci_chunk(0, 0), vec![0]);
    assert_eq!(fibonacci_chunk(1, 1), vec![1]);
    assert_eq!(fibonacci_chunk(2, 2), vec![1]);
    assert_eq!(fibonacci_chunk(93, 93), vec![12200160415121876738]);
}

#[test]
fn full_chunk_matches_dynamic() {
    for n in 0..=MAX_FIB_INDEX {
        let chunk = fibonacci_chunk(0, n);
        assert_eq!(chunk.len() as u64, n + 1);
        for i in 0..=n {
            assert_eq!(chunk[i as usize], fibonacci_dynamic(i));
        }
    }
}

#[test]
fn serial_and_dynamic_values() {
    assert_eq!(fibonacci_serial(0), 0);
    assert_eq!(fibonacci_serial(1), 1);
    assert_eq!(fibonacci_serial(10), 55);
    assert_eq!(fibonacci_serial(25), 75025);
    assert_eq!(fibonacci_dynamic(35), 9227465);
    assert_eq!(fibonacci_dynamic(93), 12200160415121876738);
    for n in 0..=MAX_FIB_INDEX {
        assert_eq!(fibonacci_dynamic(n), reference_fib(n));
    }
}

#[test]
fn parallel_matches_dynamic_for_many_worker_counts() {
    for n in 0..=MAX_FIB_INDEX {
        for workers in [1usize, 2, 3, 4, 7, 8, 16, 100] {
            let seq = fibonacci_parallel(n, workers);
            assert_eq!(seq.len() as u64, n + 1, "n={} workers={}", n, workers);
            for i in 0..=n {
                assert_eq!(seq[i as usize], fibonacci_dynamic(i));
            }
        }
    }
}

#[test]
fn parallel_index_35_with_four_workers() {
    let seq = fibonacci_parallel(35, 4);
    assert_eq!(seq.len(), 36);
    assert_eq!(seq[35], 9227465);
    assert_eq!(seq[32], 2178309);
}

#[test]
fn parallel_below_threshold() {
    assert_eq!(fibonacci_parallel(0, 4), vec![0]);
    assert_eq!(fibonacci_parallel(9, 4), vec![0, 1, 1, 2, 3, 5, 8, 13, 21, 34]);
}

#[test]
fn ranges_last_chunk_reaches_end() {
    assert_eq!(chunk_ranges(35, 4), vec![(0, 7), (8, 15), (16, 23), (24, 35)]);
    assert_eq!(chunk_ranges(40, 4), vec![(0, 9), (10, 19), (20, 29), (30, 40)]);
}

#[test]
fn ranges_fewer_indices_than_workers() {
    assert_eq!(chunk_ranges(3, 8), vec![(0, 0), (1, 1), (2, 2), (3, 3)]);
    assert_eq!(chunk_ranges(0, 1), vec![(0, 0)]);
    assert_eq!(chunk_ranges(0, 5), vec![(0, 0)]);
    assert_eq!(chunk_ranges(7, 8), (0..8).map(|i| (i, i)).collect::<Vec<_>>());
}

#[test]
fn ranges_single_worker() {
    assert_eq!(chunk_ranges(93, 1), vec![(0, 93)]);
    assert_eq!(chunk_ranges(u64::MAX, 1), vec![(0, u64::MAX)]);
}

#[test]
fn ranges_tile_the_domain() {
    for n in 0..200u64 {
        for workers in 1..20usize {
            let ranges = chunk_ranges(n, workers);
            assert!(!ranges.is_empty());
            assert_eq!(ranges[0].0, 0);
            assert_eq!(ranges[ranges.len() - 1].1, n);
            for w in ranges.windows(2) {
                assert!(w[0].0 <= w[0].1);
                assert_eq!(w[1].0, w[0].1 + 1);
            }
            assert!(ranges.len() <= workers);
        }
    }
}

#[test]
fn assemble_keeps_order_and_truncates() {
    let chunks = vec![vec![1, 2], vec![3, 4, 5], vec![6]];
    assert_eq!(assemble_chunks(chunks.clone(), 10), vec![1, 2, 3, 4, 5, 6]);
    assert_eq!(assemble_chunks(chunks.clone(), 4), vec![1, 2, 3, 4]);
    assert_eq!(assemble_chunks(chunks, 0), Vec::<u64>::new());
    assert_eq!(assemble_chunks(vec![], 3), Vec::<u64>::new());
}
