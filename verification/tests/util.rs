use blkstrm::{is_sorted, no_sequential_duplicates, simulated_block, LastSeen};

#[test]
fn sorted_sequences() {
    assert!(is_sorted::<u64>(&[]));
    assert!(is_sorted(&[7]));
    assert!(is_sorted(&[1, 2, 2, 3]));
    assert!(!is_sorted(&[1, 3, 2]));
    assert!(!is_sorted(&[2, 1]));
}

#[test]
fn sequential_duplicates() {
    assert!(no_sequential_duplicates::<u64>(&[]));
    assert!(no_sequential_duplicates(&[7]));
    assert!(no_sequential_duplicates(&[1, 2, 1, 2]));
    assert!(!no_sequential_duplicates(&[1, 2, 2, 3]));
    assert!(!no_sequential_duplicates(&[4, 4]));
}

#[test]
fn last_seen_keeps_value_and_timestamp() {
    let seen = LastSeen::new(42u64, 1_700_000_000_123);
    assert_eq!(seen.value, 42);
    assert_eq!(seen.timestamp, 1_700_000_000_123);
}

#[derive(Debug, PartialEq, Eq, PartialOrd, Ord, Clone, Copy)]
struct Block(u64);

#[test]
fn checks_work_on_any_comparable_items() {
    let blocks = vec![Block(0), Block(1), Block(3)];
    assert!(is_sorted(&blocks));
    assert!(no_sequential_duplicates(&blocks));
    let shuffled = vec![Block(2), Block(1), Block(1)];
    assert!(!is_sorted(&shuffled));
    assert!(!no_sequential_duplicates(&shuffled));
}

#[test]
fn sorted_exactly_when_sorting_keeps_it() {
    for v in [vec![], vec![3u64], vec![1, 2, 2, 9], vec![4, 1, 3], vec![2, 2, 1]] {
        let mut w = v.clone();
        w.sort();
        assert_eq!(is_sorted(&v), w == v);
    }
}

#[test]
fn no_duplicates_exactly_when_dedup_keeps_it() {
    for v in [vec![], vec![3u64], vec![1, 2, 1, 2], vec![1, 1, 2], vec![5, 6, 6]] {
        let mut w = v.clone();
        w.dedup();
        assert_eq!(no_sequential_duplicates(&v), w == v);
    }
}

#[test]
fn concatenation_checks_the_seam() {
    let s = vec![1u64, 3, 5];
    for t in [vec![5u64, 6], vec![4, 9], vec![6, 7], vec![]] {
        let mut u = s.clone();
        u.extend(t.iter().copied());
        let seam_ok = t.is_empty() || s.last() <= t.first();
        assert_eq!(is_sorted(&u), is_sorted(&s) && is_sorted(&t) && seam_ok);
        let seam_distinct = t.is_empty() || s.last() != t.first();
        assert_eq!(
            no_sequential_duplicates(&u),
            no_sequential_duplicates(&s) && no_sequential_duplicates(&t) && seam_distinct
        );
    }
}

#[test]
fn sorted_without_repeats_is_rising() {
    for v in [vec![1u64, 2, 5], vec![1, 1, 2], vec![3, 2], vec![], vec![7]] {
        let rising = v.windows(2).all(|w| w[0] < w[1]);
        assert_eq!(is_sorted(&v) && no_sequential_duplicates(&v), rising);
    }
}

#[test]
fn simulated_block_fails_at_multiples() {
    assert_eq!(simulated_block(12, 6), Err(12));
    assert_eq!(simulated_block(13, 6), Ok(13));
    assert_eq!(simulated_block(0, 5), Err(0));
}
