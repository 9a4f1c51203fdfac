use blkstrm::{
    LastSeen, ProviderAction, ProviderState, ProviderStatus, ProviderSystemMonitor,
    ProviderSystemMonitorState, StreamEvent,
};

fn state(name: &str, status: ProviderStatus, last: Option<u64>) -> ProviderState<u64> {
    ProviderState {
        name: name.to_string(),
        status,
        last_seen: last.map(|value| LastSeen { value, timestamp: 0 }),
    }
}

#[test]
fn new_provider_is_stopped_and_has_seen_nothing() {
    let s = ProviderState::<u64>::new("stream_1".to_string());
    assert_eq!(s.name, "stream_1");
    assert_eq!(s.status, ProviderStatus::Stopped);
    assert!(s.last_seen.is_none());
}

#[test]
fn default_provider_state() {
    let s = ProviderState::<u64>::default();
    assert_eq!(s.name, "");
    assert_eq!(s.status, ProviderStatus::Stopped);
    assert!(s.last_seen.is_none());
}

#[test]
fn item_marks_running_and_is_forwarded() {
    let mut s = ProviderState::<u64>::new("p".to_string());
    match s.observe(StreamEvent::Item(3)) {
        ProviderAction::Forward(v) => assert_eq!(v, 3),
        _ => panic!("an item is forwarded"),
    }
    assert_eq!(s.status, ProviderStatus::Running);
    assert!(s.last_seen.is_none());
    s.record_sent(3, 1_700_000_000_000);
    assert_eq!(s.last_seen.as_ref().unwrap().timestamp, 1_700_000_000_000);
    assert_eq!(s.last_seen.as_ref().unwrap().value, 3);
    assert_eq!(s.status, ProviderStatus::Running);
}

#[test]
fn failure_marks_stopped_keeps_last_seen_and_reading_goes_on() {
    let mut s = ProviderState::<u64>::new("p".to_string());
    let _ = s.observe(StreamEvent::Item(4));
    s.record_sent(4, 5);
    assert!(matches!(s.observe(StreamEvent::Failure), ProviderAction::Continue));
    assert_eq!(s.status, ProviderStatus::Stopped);
    assert_eq!(s.last_seen.as_ref().unwrap().value, 4);
    // A later item marks the provider running again.
    match s.observe(StreamEvent::Item(6)) {
        ProviderAction::Forward(v) => assert_eq!(v, 6),
        _ => panic!("an item is forwarded"),
    }
    assert_eq!(s.status, ProviderStatus::Running);
}

#[test]
fn end_of_stream_changes_nothing() {
    let mut s = ProviderState::<u64>::new("p".to_string());
    let _ = s.observe(StreamEvent::Item(4));
    assert!(matches!(s.observe(StreamEvent::End), ProviderAction::Finish));
    assert_eq!(s.status, ProviderStatus::Running);
}

#[test]
fn monitor_starts_with_all_stopped() {
    let m = ProviderSystemMonitor::new();
    assert!(matches!(m.state, ProviderSystemMonitorState::AllProvidersStopped));
}

#[test]
fn no_providers_means_all_stopped() {
    let r = ProviderSystemMonitor::assess(&vec![]);
    assert!(matches!(r, ProviderSystemMonitorState::AllProvidersStopped));
}

#[test]
fn every_provider_stopped() {
    let states = vec![
        state("a", ProviderStatus::Stopped, Some(3)),
        state("b", ProviderStatus::Stopped, None),
    ];
    let r = ProviderSystemMonitor::assess(&states);
    assert!(matches!(r, ProviderSystemMonitorState::AllProvidersStopped));
}

#[test]
fn lagging_and_stopped_are_named_in_order() {
    let states = vec![
        state("a", ProviderStatus::Running, Some(5)),
        state("b", ProviderStatus::Stopped, Some(3)),
        state("c", ProviderStatus::Running, Some(1)),
        state("d", ProviderStatus::Running, Some(5)),
        state("e", ProviderStatus::Stopped, None),
    ];
    match ProviderSystemMonitor::assess(&states) {
        ProviderSystemMonitorState::ProblemProviders { lagging, stopped } => {
            assert_eq!(lagging, vec!["b".to_string(), "c".to_string()]);
            assert_eq!(stopped, vec!["b".to_string(), "e".to_string()]);
        }
        other => panic!("unexpected verdict {:?}", other),
    }
}

#[test]
fn only_lagging_is_a_problem() {
    let states = vec![
        state("a", ProviderStatus::Running, Some(2)),
        state("b", ProviderStatus::Running, Some(7)),
    ];
    match ProviderSystemMonitor::assess(&states) {
        ProviderSystemMonitorState::ProblemProviders { lagging, stopped } => {
            assert_eq!(lagging, vec!["a".to_string()]);
            assert!(stopped.is_empty());
        }
        other => panic!("unexpected verdict {:?}", other),
    }
}

#[test]
fn providers_in_step_are_ok() {
    let states = vec![
        state("a", ProviderStatus::Running, Some(9)),
        state("b", ProviderStatus::Running, Some(9)),
    ];
    let mut m = ProviderSystemMonitor::new();
    let sent = m.update(&states);
    assert!(matches!(m.state, ProviderSystemMonitorState::ProvidersOk));
    assert!(matches!(sent, ProviderSystemMonitorState::ProvidersOk));
}

#[test]
fn update_keeps_the_verdict_it_returns() {
    let states = vec![
        state("a", ProviderStatus::Running, Some(4)),
        state("b", ProviderStatus::Stopped, Some(2)),
    ];
    let mut m = ProviderSystemMonitor::new();
    let sent = m.update(&states);
    match (&m.state, &sent) {
        (
            ProviderSystemMonitorState::ProblemProviders { lagging: l1, stopped: s1 },
            ProviderSystemMonitorState::ProblemProviders { lagging: l2, stopped: s2 },
        ) => {
            assert_eq!(l1, l2);
            assert_eq!(s1, s2);
            assert_eq!(l1, &vec!["b".to_string()]);
            assert_eq!(s1, &vec!["b".to_string()]);
        }
        other => panic!("unexpected verdicts {:?}", other),
    }
}
