use rust_primes::PrimesIter;

#[test]
fn test_first_five_primes() {
    let expected = vec![2, 3, 5, 7, 11];
    let mut iter = PrimesIter::default();
    let actual: Vec<u64> = iter.next_n(5);
    assert_eq!(expected, actual);
}

#[test]
fn test_next_100_primes() {
    // Skips the first 100 primes and takes the next 100. This is more
    // of a sanity check to make sure that it isn't too slow.
    let expected: Vec<u64> = vec![
        547, 557, 563, 569, 571, 577, 587, 593, 599, 601, 607, 613, 617, 619, 631, 641, 643, 647,
        653, 659, 661, 673, 677, 683, 691, 701, 709, 719, 727, 733, 739, 743, 751, 757, 761, 769,
        773, 787, 797, 809, 811, 821, 823, 827, 829, 839, 853, 857, 859, 863, 877, 881, 883, 887,
        907, 911, 919, 929, 937, 941, 947, 953, 967, 971, 977, 983, 991, 997, 1009, 1013, 1019,
        1021, 1031, 1033, 1039, 1049, 1051, 1061, 1063, 1069, 1087, 1091, 1093, 1097, 1103, 1109,
        1117, 1123, 1129, 1151, 1153, 1163, 1171, 1181, 1187, 1193, 1201, 1213, 1217, 1223,
    ];
    let mut iter = PrimesIter::default();
    let skipped: Vec<u64> = iter.next_n(100);
    assert_eq!(100, skipped.len());
    let actual: Vec<u64> = iter.next_n(100);
    assert_eq!(expected, actual);
}

#[test]
fn test_first_hundred_tail_and_density() {
    // The first 100 primes end with 541, and exactly 25 of them lie
    // below 100.
    let mut iter = PrimesIter::new();
    let first: Vec<u64> = iter.next_n(100);
    assert_eq!(100, first.len());
    assert_eq!(Some(&541), first.last());
    let below_100 = first.iter().filter(|&&p| p < 100).count();
    assert_eq!(25, below_100);
}

#[test]
fn test_zero_items_changes_nothing() {
    // Asking for zero primes yields nothing and leaves the generator
    // where a fresh one starts.
    let mut iter = PrimesIter::new();
    let nothing: Vec<u64> = iter.next_n(0);
    assert!(nothing.is_empty());
    let mut fresh = PrimesIter::new();
    assert_eq!(fresh.next_n(5), iter.next_n(5));
}

#[test]
fn test_single_steps_match_batch() {
    let mut stepping = PrimesIter::new();
    let mut batching = PrimesIter::new();
    let batch: Vec<u64> = batching.next_n(20);
    for expected in batch {
        assert_eq!(Some(expected), stepping.next());
    }
}

#[test]
fn test_outputs_strictly_increasing_and_prime() {
    let mut iter = PrimesIter::new();
    let primes: Vec<u64> = iter.next_n(200);
    for w in primes.windows(2) {
        assert!(w[0] < w[1]);
    }
    for &p in &primes {
        assert!(p >= 2);
        let mut d = 2;
        while d < p {
            assert_ne!(0, p % d);
            d += 1;
        }
    }
}
