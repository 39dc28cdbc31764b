use integer_partitions::Partitions;

fn collect_all(mut p: Partitions) -> Vec<Vec<usize>> {
    let mut out: Vec<Vec<usize>> = Vec::new();
    while let Some(partition) = p.next() {
        out.push(partition);
    }
    out
}

#[test]
fn oeis() {
    // Tests the first few entries of A000041.
    let tests: &[usize] = &[
        1, 1, 2, 3, 5, 7, 11, 15, 22, 30, 42, 56, 77, 101, 135, 176, 231, 297, 385, 490, 627, 792,
        1002, 1255, 1575, 1958, 2436, 3010, 3718, 4565, 5604, 6842, 8349, 10143, 12310, 14883,
        17977, 21637, 26015, 31185, 37338, 44583, 53174, 63261, 75175, 89134, 105558, 124754,
        147273, 173525,
    ];

    let mut ten = Partitions::new(10);
    while let Some(partition) = ten.next() {
        println!("{:?}", partition);
    }

    for (i, &n) in tests.iter().enumerate() {
        let mut p = Partitions::new(i);
        let mut c: usize = 0;

        while let Some(partition) = p.next() {
            let sum: usize = partition.iter().cloned().sum();
            assert_eq!(sum, i);
            c += 1;
        }

        assert_eq!(c, n);
    }
}

#[test]
fn count_fifty() {
    let mut p = Partitions::new(50);
    let mut c: usize = 0;
    while let Some(_partition) = p.next() {
        c += 1;
    }
    assert_eq!(c, 204226);
}

#[test]
fn scenario_zero() {
    let mut p = Partitions::new(0);
    assert_eq!(p.next(), Some(vec![]));
    assert_eq!(p.next(), None);
    assert_eq!(p.next(), None);
}

#[test]
fn scenario_one() {
    let all = collect_all(Partitions::new(1));
    assert_eq!(all, vec![vec![1]]);
}

#[test]
fn scenario_two() {
    let all = collect_all(Partitions::new(2));
    assert_eq!(all, vec![vec![1, 1], vec![2]]);
}

#[test]
fn scenario_four() {
    let all = collect_all(Partitions::new(4));
    let expected: Vec<Vec<usize>> = vec![
        vec![1, 1, 1, 1],
        vec![1, 1, 2],
        vec![1, 3],
        vec![2, 2],
        vec![4],
    ];
    assert_eq!(all, expected);
    for partition in &all {
        let sum: usize = partition.iter().cloned().sum();
        assert_eq!(sum, 4);
        for w in partition.windows(2) {
            assert!(w[0] <= w[1]);
        }
    }
}

#[test]
fn parts_sum_positive_and_sorted() {
    let all = collect_all(Partitions::new(8));
    assert_eq!(all.len(), 22);
    for partition in &all {
        let sum: usize = partition.iter().cloned().sum();
        assert_eq!(sum, 8);
        assert!(!partition.is_empty());
        for &part in partition {
            assert!(part >= 1);
        }
        for w in partition.windows(2) {
            assert!(w[0] <= w[1]);
        }
    }
}

#[test]
fn no_partition_repeats() {
    let all = collect_all(Partitions::new(9));
    for i in 0..all.len() {
        for j in 0..i {
            assert_ne!(all[i], all[j]);
        }
    }
}

#[test]
fn emission_order_strictly_increases() {
    let all = collect_all(Partitions::new(7));
    for w in all.windows(2) {
        assert!(w[0] < w[1], "{:?} should precede {:?}", w[0], w[1]);
    }
}

#[test]
fn exhaustion_is_idempotent() {
    let mut p = Partitions::new(3);
    let mut c: usize = 0;
    while let Some(_partition) = p.next() {
        c += 1;
    }
    assert_eq!(c, 3);
    assert_eq!(p.next(), None);
    assert_eq!(p.next(), None);
    assert_eq!(p.next(), None);
}

#[test]
fn recycle_matches_new() {
    let junk: Vec<usize> = vec![17, 0, 99, 3, 4, 5, 6, 7, 8, 1000];
    let fresh = collect_all(Partitions::new(6));
    let reused = collect_all(Partitions::recycle(6, junk));
    assert_eq!(fresh, reused);

    let empty: Vec<usize> = Vec::new();
    let reused_empty = collect_all(Partitions::recycle(6, empty));
    assert_eq!(fresh, reused_empty);
}

#[test]
fn end_hands_back_the_buffer() {
    let mut p = Partitions::new(5);
    assert!(p.next().is_some());
    let buffer = p.end();
    assert_eq!(buffer.len(), 6);

    // The buffer can seed another generator of a different size.
    let again = collect_all(Partitions::recycle(4, buffer));
    assert_eq!(again.len(), 5);
}
