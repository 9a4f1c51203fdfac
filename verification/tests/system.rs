use blkstrm::{
    is_sorted, no_sequential_duplicates, ProviderAction, ProviderState, ProviderStatus, Sequencer,
    StreamEvent,
};

/// What a provider's stream yields: an item or an error.
enum Polled {
    Item(u64),
    Error,
}

/// Drives one provider over its stream the way the provider task does,
/// appending what it forwards to `feed`.
fn run_provider(state: &mut ProviderState<u64>, stream: Vec<Polled>, feed: &mut Vec<u64>) {
    let mut stream = stream.into_iter();
    loop {
        let event = match stream.next() {
            Some(Polled::Item(v)) => StreamEvent::Item(v),
            Some(Polled::Error) => StreamEvent::Failure,
            None => StreamEvent::End,
        };
        match state.observe(event) {
            ProviderAction::Forward(v) => {
                feed.push(v);
                state.record_sent(v, 0);
            }
            ProviderAction::Continue => {}
            ProviderAction::Finish => break,
        }
    }
}

fn sequence(cache_size_max: usize, feed: &[u64]) -> Vec<u64> {
    let mut sequencer = Sequencer::new(cache_size_max).unwrap();
    let mut last_seen = None;
    let mut received = vec![];
    for &item in feed {
        if let Some(v) = sequencer.accept(last_seen, item) {
            received.push(v);
            sequencer.commit(&mut last_seen, v);
        }
    }
    received
}

#[test]
fn mod_system_architecture() {
    let s0 = vec![Polled::Item(0), Polled::Item(1)];
    let s1 = vec![Polled::Item(0), Polled::Item(2), Polled::Item(1), Polled::Item(0), Polled::Item(4), Polled::Item(3), Polled::Error];
    let s2 = vec![Polled::Item(2), Polled::Item(5)];

    let mut states = vec![
        ProviderState::new("stream_1".to_string()),
        ProviderState::new("stream_2".to_string()),
        ProviderState::new("stream_3".to_string()),
    ];
    let mut feed = vec![];
    for (state, stream) in states.iter_mut().zip(vec![s0, s1, s2]) {
        run_provider(state, stream, &mut feed);
    }

    let received = sequence(4, &feed);
    assert!(is_sorted(&received));
    assert!(no_sequential_duplicates(&received));

    let expected_states = vec![
        (ProviderStatus::Running, 1u64),
        (ProviderStatus::Stopped, 3),
        (ProviderStatus::Running, 5),
    ];
    for (i, provider_state) in states.iter().enumerate() {
        assert_eq!(provider_state.status, expected_states[i].0);
        assert_eq!(
            provider_state.last_seen.as_ref().unwrap().value,
            expected_states[i].1
        );
    }
}

#[test]
fn ingestion_system_architecture() {
    let s0 = vec![Polled::Item(0), Polled::Item(1)];
    let s1 = vec![Polled::Item(0), Polled::Item(2), Polled::Item(1), Polled::Item(0), Polled::Item(4), Polled::Item(3), Polled::Error];
    let s2 = vec![Polled::Item(2), Polled::Error, Polled::Item(5)];

    let mut states = vec![
        ProviderState::new("stream_1".to_string()),
        ProviderState::new("stream_2".to_string()),
        ProviderState::new("stream_3".to_string()),
    ];
    let mut feed = vec![];
    for (state, stream) in states.iter_mut().zip(vec![s0, s1, s2]) {
        run_provider(state, stream, &mut feed);
    }

    let received = sequence(4, &feed);
    assert!(is_sorted(&received));
    assert!(no_sequential_duplicates(&received));

    let expected_states = vec![
        (ProviderStatus::Running, 1u64),
        (ProviderStatus::Stopped, 3),
        (ProviderStatus::Running, 5),
    ];
    for (i, provider_state) in states.iter().enumerate() {
        assert_eq!(provider_state.status, expected_states[i].0);
        assert_eq!(
            provider_state.last_seen.as_ref().unwrap().value,
            expected_states[i].1
        );
    }
}

#[test]
fn lib_system_architecture() {
    let s0 = vec![Polled::Item(0), Polled::Item(1)];
    let s1 = vec![Polled::Item(0), Polled::Item(2), Polled::Item(1), Polled::Item(0), Polled::Item(4), Polled::Item(3), Polled::Error];
    let s2 = vec![Polled::Item(2), Polled::Error, Polled::Item(5)];

    let mut feed = vec![];
    for stream in vec![s0, s1, s2] {
        let mut state = ProviderState::new(String::new());
        run_provider(&mut state, stream, &mut feed);
    }
    let received = sequence(1, &feed);
    let expected = vec![0u64, 1, 2, 3, 4, 5];
    for item in &received {
        assert!(*item <= *expected.iter().last().unwrap());
    }
}

#[test]
fn errors_do_not_stop_delivery() {
    let mut state = ProviderState::new("p".to_string());
    let mut feed = vec![];
    run_provider(&mut state, vec![Polled::Item(2), Polled::Error, Polled::Item(5)], &mut feed);
    assert_eq!(feed, vec![2, 5]);
    assert_eq!(state.status, ProviderStatus::Running);
    assert_eq!(state.last_seen.as_ref().unwrap().value, 5);
}

#[test]
fn interleaved_providers_yield_strictly_increasing_stream() {
    // Two providers delivering overlapping ranges, interleaved.
    let feed = vec![0u64, 0, 1, 1, 2, 3, 2, 4, 3, 5, 4, 6, 5, 7];
    let received = sequence(4, &feed);
    assert_eq!(received, vec![0, 1, 2, 3, 4, 5, 6, 7]);
}
