use rust_primes::map::MapPrimesIter;
use rust_primes::pq::QueuePrimesIter;

/// Skips the first 100 primes and takes the next 100. This is more
/// of a sanity check to make sure that the sieves aren't too slow.
const NEXT_100_PRIMES: &[u64] = &[
    547, 557, 563, 569, 571, 577, 587, 593, 599, 601, 607, 613, 617, 619, 631, 641, 643, 647, 653,
    659, 661, 673, 677, 683, 691, 701, 709, 719, 727, 733, 739, 743, 751, 757, 761, 769, 773, 787,
    797, 809, 811, 821, 823, 827, 829, 839, 853, 857, 859, 863, 877, 881, 883, 887, 907, 911, 919,
    929, 937, 941, 947, 953, 967, 971, 977, 983, 991, 997, 1009, 1013, 1019, 1021, 1031, 1033,
    1039, 1049, 1051, 1061, 1063, 1069, 1087, 1091, 1093, 1097, 1103, 1109, 1117, 1123, 1129, 1151,
    1153, 1163, 1171, 1181, 1187, 1193, 1201, 1213, 1217, 1223,
];

#[test]
fn test_next_100_primes_queue() {
    let mut iter = QueuePrimesIter::default();
    let skipped: Vec<u64> = iter.next_n(100);
    assert_eq!(100, skipped.len());
    let actual: Vec<u64> = iter.next_n(100);
    assert_eq!(NEXT_100_PRIMES, actual);
}

#[test]
fn test_next_100_primes_map() {
    let mut iter = MapPrimesIter::default();
    let skipped: Vec<u64> = iter.next_n(100);
    assert_eq!(100, skipped.len());
    let actual: Vec<u64> = iter.next_n(100);
    assert_eq!(NEXT_100_PRIMES, actual);
}

#[test]
fn test_first_five_primes_map() {
    let mut iter = MapPrimesIter::new();
    assert_eq!(vec![2, 3, 5, 7, 11], iter.next_n(5));
}

#[test]
fn test_first_five_primes_queue() {
    let mut iter = QueuePrimesIter::new();
    assert_eq!(vec![2, 3, 5, 7, 11], iter.next_n(5));
}

#[test]
fn test_variants_agree() {
    // Both tracking strategies produce identical output sequences.
    let mut by_map = MapPrimesIter::new();
    let mut by_queue = QueuePrimesIter::new();
    assert_eq!(by_map.next_n(300), by_queue.next_n(300));
}

#[test]
fn test_zero_items_map_and_queue() {
    let mut by_map = MapPrimesIter::new();
    assert!(by_map.next_n(0).is_empty());
    let mut fresh_map = MapPrimesIter::new();
    assert_eq!(fresh_map.next_n(3), by_map.next_n(3));

    let mut by_queue = QueuePrimesIter::new();
    assert!(by_queue.next_n(0).is_empty());
    let mut fresh_queue = QueuePrimesIter::new();
    assert_eq!(fresh_queue.next_n(3), by_queue.next_n(3));
}
