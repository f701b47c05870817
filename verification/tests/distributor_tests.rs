use halo2_arithmetic::distributor::join;
use halo2_arithmetic::distributor::log2_floor;
use halo2_arithmetic::distributor::parallelize;
use halo2_arithmetic::distributor::partition_bounds;

#[test]
fn test_partition_covers_every_index_exactly_once() {
    for threads in 1..=6usize {
        for n in 0..=(4 * threads) {
            let bounds = partition_bounds(n, threads);
            // one partition per worker, or one per element when short
            assert_eq!(bounds.len(), n.min(threads));
            let mut seen = vec![0usize; n];
            for (start, len) in bounds.iter() {
                for i in *start..start + len {
                    seen[i] += 1;
                }
            }
            assert!(seen.iter().all(|c| *c == 1), "n = {}, threads = {}", n, threads);
        }
    }
}

#[test]
fn test_partition_sizes_balanced_larger_first() {
    for threads in 1..=6usize {
        for n in 0..=(4 * threads) {
            let bounds = partition_bounds(n, threads);
            if bounds.is_empty() {
                continue;
            }
            let max = bounds.iter().map(|b| b.1).max().unwrap();
            let min = bounds.iter().map(|b| b.1).min().unwrap();
            assert!(max - min <= 1);
            // the larger partitions come first
            for w in bounds.windows(2) {
                assert!(w[0].1 >= w[1].1);
            }
        }
    }
}

#[test]
fn test_parallelize_runs_once_per_partition_with_offsets() {
    for threads in 1..=5usize {
        for n in 0..=(3 * threads) {
            let mut v: Vec<usize> = vec![0; n];
            let mut calls = 0usize;
            let counter = std::cell::Cell::new(0usize);
            let cref = &counter;
            parallelize(&mut v, threads, |chunk: Vec<usize>, offset: usize| {
                cref.set(cref.get() + 1);
                // replace every element by its global index
                chunk
                    .iter()
                    .enumerate()
                    .map(|(i, _)| offset + i)
                    .collect()
            });
            calls += counter.get();
            assert_eq!(calls, n.min(threads), "n = {}, threads = {}", n, threads);
            for (i, x) in v.iter().enumerate() {
                assert_eq!(*x, i);
            }
        }
    }
}

#[test]
fn test_join_returns_both_results() {
    let (a, b) = join(|| 3 + 4, || "both".len());
    assert_eq!(a, 7);
    assert_eq!(b, 4);
}

#[test]
fn test_log2_floor_values() {
    assert_eq!(log2_floor(1), 0);
    assert_eq!(log2_floor(2), 1);
    assert_eq!(log2_floor(3), 1);
    assert_eq!(log2_floor(4), 2);
    assert_eq!(log2_floor(255), 7);
    assert_eq!(log2_floor(256), 8);
    assert_eq!(log2_floor(257), 8);
}
