use blkstrm::{is_sorted, no_sequential_duplicates, Sequencer, SequencerError};

/// Feeds `items` through the sequencer one by one, the way the consuming
/// loop does, and returns what it sends out.
fn run(sequencer: &mut Sequencer, items: &[u64]) -> Vec<u64> {
    let mut last_seen: Option<u64> = None;
    let mut sent = vec![];
    for &item in items {
        if let Some(value) = sequencer.accept(last_seen, item) {
            sent.push(value);
            sequencer.commit(&mut last_seen, value);
        }
    }
    sent
}

#[test]
fn bad_sequencer_cache_size() {
    let result = Sequencer::new(0);
    assert!(result.is_err());
}

#[test]
fn sequencer_error_names_zero_cache() {
    assert_eq!(Sequencer::new(0).err(), Some(SequencerError::ZeroCacheSize));
}

#[test]
fn new_sequencer_is_empty() {
    let sequencer = Sequencer::new(4).unwrap();
    assert!(sequencer.queue.is_empty());
    assert!(sequencer.cache.is_empty());
    assert_eq!(sequencer.cache_size_max, 4);
}

#[test]
fn sequencer_consume() {
    let mut sequencer = Sequencer::new(10).unwrap();
    // 16 producers, each sending 16 consecutive values starting at twice its index.
    let mut feed = vec![];
    for i in 0..16u64 {
        let start = i * 2;
        for j in start..(start + 16) {
            feed.push(j);
        }
    }
    let expected = run(&mut sequencer, &feed);
    assert!(is_sorted(&expected));
    assert!(no_sequential_duplicates(&expected));
    assert_eq!(expected, (0..46).collect::<Vec<u64>>());
}

#[test]
fn test_stream_ideas() {
    // The provider streams, merged in the order their tasks start.
    let s0 = vec![0u64, 1, 2];
    let s1 = vec![0u64, 3, 4];
    let s2 = vec![0u64, 1, 2, 4, 5, 8];
    let mut feed = vec![];
    feed.extend(s1);
    feed.extend(s0);
    feed.extend(s2);

    let mut sequencer = Sequencer::new(3).unwrap();
    let actual = run(&mut sequencer, &feed);
    let expected: Vec<u64> = (0..6).collect();
    assert!(expected.iter().last() <= actual.iter().last());
}

#[test]
fn repeats_and_stale_items_are_dropped() {
    let mut sequencer = Sequencer::new(2).unwrap();
    let sent = run(&mut sequencer, &[5, 5, 3, 6, 5, 9, 9, 7, 10]);
    assert_eq!(sent, vec![5, 6, 9, 10]);
}

#[test]
fn accept_offers_admitted_item_and_commit_empties_queue() {
    let mut sequencer = Sequencer::new(1).unwrap();
    assert_eq!(sequencer.accept(None, 7), Some(7));
    assert!(sequencer.queue.contains(&7));
    let mut last_seen = None;
    sequencer.commit(&mut last_seen, 7);
    assert!(sequencer.queue.is_empty());
    assert_eq!(last_seen, Some(7));
    assert!(sequencer.cache.contains(&7));
    // A cached item is dropped even without a last seen value.
    assert_eq!(sequencer.accept(None, 7), None);
    // Below the last seen value: dropped.
    assert_eq!(sequencer.accept(Some(7), 6), None);
    assert!(sequencer.queue.is_empty());
}

#[test]
fn full_cache_drops_its_least_item() {
    let mut sequencer = Sequencer::new(2).unwrap();
    let mut last_seen = None;
    for v in [1u64, 2, 3] {
        let offered = sequencer.accept(last_seen, v).unwrap();
        sequencer.commit(&mut last_seen, offered);
    }
    assert_eq!(sequencer.cache.iter().copied().collect::<Vec<u64>>(), vec![2, 3]);
    // 1 left the cache, but it is below the last seen value, so it stays out.
    assert_eq!(sequencer.accept(last_seen, 1), None);
    // A new run (no last seen value) admits it again.
    assert_eq!(sequencer.accept(None, 1), Some(1));
}

#[test]
fn queued_item_left_after_failed_send_goes_out_first() {
    // When sending fails, the offered item stays queued; a later round
    // offers the least queued item.
    let mut sequencer = Sequencer::new(4).unwrap();
    assert_eq!(sequencer.accept(None, 4), Some(4));
    assert_eq!(sequencer.accept(None, 9), Some(4));
    let mut last_seen = None;
    sequencer.commit(&mut last_seen, 4);
    assert_eq!(sequencer.queue.iter().copied().collect::<Vec<u64>>(), vec![9]);
}

#[test]
fn outputs_strictly_increase() {
    let mut sequencer = Sequencer::new(3).unwrap();
    let sent = run(&mut sequencer, &[3, 1, 4, 1, 5, 9, 2, 6, 5, 3, 5, 8, 9, 7, 9]);
    assert_eq!(sent, vec![3, 4, 5, 9]);
    assert!(sent.windows(2).all(|w| w[0] < w[1]));
}

#[test]
fn cache_stays_within_bound() {
    let mut sequencer = Sequencer::new(3).unwrap();
    let mut last_seen = None;
    for v in 0..20u64 {
        if let Some(offered) = sequencer.accept(last_seen, v) {
            sequencer.commit(&mut last_seen, offered);
        }
        assert!(sequencer.cache.len() <= 3);
        assert!(sequencer.cache.contains(&last_seen.unwrap()));
    }
    assert_eq!(sequencer.cache.iter().copied().collect::<Vec<u64>>(), vec![17, 18, 19]);
}

#[test]
fn sequence_matches_round_by_round() {
    let feed = [3u64, 1, 4, 1, 5, 9, 2, 6, 5, 3, 5, 8, 9, 7, 9, 10];
    let mut by_rounds = Sequencer::new(3).unwrap();
    let expected = run(&mut by_rounds, &feed);
    let mut batch = Sequencer::new(3).unwrap();
    let mut last_seen = None;
    let out = batch.sequence(&mut last_seen, &feed);
    assert_eq!(out, expected);
    assert_eq!(last_seen, Some(10));
    assert!(batch.queue.is_empty());
    assert_eq!(batch.cache, by_rounds.cache);
}

#[test]
fn sends_the_successive_highs() {
    let feed = [2u64, 7, 3, 7, 8, 1, 8, 12, 11];
    let mut s = Sequencer::new(2).unwrap();
    let mut last_seen = None;
    assert_eq!(s.sequence(&mut last_seen, &feed), vec![2, 7, 8, 12]);
}

#[test]
fn output_does_not_depend_on_cache_size() {
    let feed = [5u64, 1, 5, 6, 2, 6, 9, 3, 9, 10, 10];
    let mut outputs = vec![];
    for k in 1..6 {
        let mut s = Sequencer::new(k).unwrap();
        let mut last_seen = None;
        outputs.push(s.sequence(&mut last_seen, &feed));
    }
    assert!(outputs.iter().all(|o| *o == vec![5, 6, 9, 10]));
}

#[test]
fn sequencing_twice_changes_nothing() {
    let feed = [4u64, 2, 4, 6, 5, 7, 7, 1, 9];
    let mut first = Sequencer::new(2).unwrap();
    let mut l1 = None;
    let once = first.sequence(&mut l1, &feed);
    let mut second = Sequencer::new(5).unwrap();
    let mut l2 = None;
    assert_eq!(second.sequence(&mut l2, &once), once);
}

#[test]
fn cache_holds_the_last_items_sent() {
    let mut s = Sequencer::new(3).unwrap();
    let mut last_seen = None;
    let out = s.sequence(&mut last_seen, &[1u64, 4, 2, 6, 6, 9, 11]);
    assert_eq!(out, vec![1, 4, 6, 9, 11]);
    assert_eq!(s.cache.iter().copied().collect::<Vec<u64>>(), vec![6, 9, 11]);
    let mut t = Sequencer::new(10).unwrap();
    let mut l = None;
    let _ = t.sequence(&mut l, &[1u64, 4, 2]);
    assert_eq!(t.cache.iter().copied().collect::<Vec<u64>>(), vec![1, 4]);
}

#[test]
fn sequence_takes_a_left_over_queued_item_into_account() {
    let mut s = Sequencer::new(4).unwrap();
    // A send that failed left 9 queued.
    assert_eq!(s.accept(None, 9), Some(9));
    let mut last_seen = None;
    let out = s.sequence(&mut last_seen, &[4, 12]);
    // 4 joins the queue and goes out first; 9 goes out on the next round.
    assert_eq!(out, vec![4, 9]);
    assert_eq!(s.queue.iter().copied().collect::<Vec<u64>>(), vec![12]);
    assert_eq!(last_seen, Some(9));
}
