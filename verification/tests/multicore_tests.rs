use multicore::checked_log2_floor;
use multicore::log2_floor;
use multicore::plan_chunk_size;
use multicore::MulticoreError;
use multicore::Worker;

#[test]
fn test_log2_floor() {
    assert_eq!(log2_floor(1), 0);
    assert_eq!(log2_floor(2), 1);
    assert_eq!(log2_floor(3), 1);
    assert_eq!(log2_floor(4), 2);
    assert_eq!(log2_floor(5), 2);
    assert_eq!(log2_floor(6), 2);
    assert_eq!(log2_floor(7), 2);
    assert_eq!(log2_floor(8), 3);
}

#[test]
fn test_worker_square() {
    let worker = Worker::new();
    let mut input: [i32; 4] = [1, 2, 3, 4];

    worker.scope(input.len(), |scope, chunk| {
        for a in input.chunks_mut(chunk) {
            scope.spawn(move || {
                for b in a {
                    *b = *b + *b;
                }
            });
        }
    });
    assert_eq!(input[0], 2);
    assert_eq!(input[1], 4);
    assert_eq!(input[2], 6);
    assert_eq!(input[3], 8);
}

#[test]
fn test_worker_mult() {
    let worker = Worker::new();

    let mut input: [i32; 6] = [1, 2, 3, 4, -5, 123];
    let saved = input.clone();

    worker.scope(input.len(), |scope, chunk| {
        for a in input.chunks_mut(chunk) {
            scope.spawn(move || {
                for b in a {
                    *b = *b * *b;
                }
            });
        }
    });
    for i in 0..input.len() {
        assert_eq!(input[i], saved[i] * saved[i]);
    }
}

#[test]
fn test_log2_floor_powers_bracket() {
    for n in 1usize..1000 {
        let k = log2_floor(n);
        assert!(1usize << k <= n);
        assert!(n < 1usize << (k + 1));
    }
}

#[test]
fn test_checked_log2_floor_rejects_zero() {
    assert_eq!(checked_log2_floor(0), Err(MulticoreError::InvalidArgument));
}

#[test]
fn test_checked_log2_floor_matches_log2_floor() {
    assert_eq!(checked_log2_floor(1), Ok(0));
    assert_eq!(checked_log2_floor(7), Ok(2));
    assert_eq!(checked_log2_floor(8), Ok(3));
}

#[test]
fn test_plan_chunk_size_values() {
    assert_eq!(plan_chunk_size(0, 1), Ok(0));
    assert_eq!(plan_chunk_size(0, 7), Ok(0));
    assert_eq!(plan_chunk_size(1, 1), Ok(1));
    assert_eq!(plan_chunk_size(4, 1), Ok(4));
    assert_eq!(plan_chunk_size(10, 3), Ok(4));
    assert_eq!(plan_chunk_size(9, 3), Ok(3));
    assert_eq!(plan_chunk_size(11, 3), Ok(4));
    assert_eq!(plan_chunk_size(3, 10), Ok(1));
}

#[test]
fn test_plan_chunk_size_rejects_zero_workers() {
    assert_eq!(plan_chunk_size(5, 0), Err(MulticoreError::InvalidConfiguration));
    assert_eq!(plan_chunk_size(0, 0), Err(MulticoreError::InvalidConfiguration));
}

#[test]
fn test_plan_chunk_count_within_workers() {
    for n in 0usize..200 {
        for w in 1usize..17 {
            let c = plan_chunk_size(n, w).unwrap();
            if n == 0 {
                assert_eq!(c, 0);
            } else {
                let count = (n + c - 1) / c;
                assert!(count <= w);
                assert!(count * c >= n);
                assert!((count - 1) * c < n);
            }
        }
    }
}

#[test]
fn test_worker_count_stable() {
    let w1 = Worker::new();
    let w2 = Worker::new();
    assert_eq!(w1.log_num_cpus(), w2.log_num_cpus());
}

#[test]
fn test_clone_shares_worker_count() {
    let w = Worker::new();
    let c = w.clone();
    assert_eq!(w.log_num_cpus(), c.log_num_cpus());
}

#[test]
fn test_log_num_cpus_at_least_one_worker() {
    let w = Worker::new();
    assert_eq!(w.log_num_cpus(), 0);
}

#[test]
fn test_scope_zero_elements() {
    let worker = Worker::new();
    let chunk_seen = worker.scope(0, |_scope, chunk| chunk);
    assert_eq!(chunk_seen, 0);
}

#[test]
fn test_scope_returns_body_result() {
    let worker = Worker::new();
    let input: [u64; 5] = [3, 1, 4, 1, 5];
    let total = worker.scope(input.len(), |_scope, _chunk| {
        let mut acc: u64 = 0;
        for v in input.iter() {
            acc += *v;
        }
        acc
    });
    assert_eq!(total, 14);
}

#[test]
fn test_join_all_outputs_written() {
    let worker = Worker::new();
    let mut done: [u64; 8] = [0; 8];

    worker.scope(done.len(), |scope, _chunk| {
        let mut index: usize = 0;
        for a in done.chunks_mut(2) {
            let slow = index % 2 == 0;
            scope.spawn(move || {
                if slow {
                    // An artificial delay: slow units must still be complete
                    // before `scope` returns.
                    let mut spin: u64 = 0;
                    for _ in 0..2_000_000u64 {
                        spin = spin.wrapping_add(std::hint::black_box(1));
                    }
                    let _ = std::hint::black_box(spin);
                }
                for b in a {
                    *b = 1;
                }
            });
            index += 1;
        }
    });
    for i in 0..done.len() {
        assert_eq!(done[i], 1);
    }
}
