use tdc_sieve::{get_trigger, sieve, skip_false_counts, sort_timeline, SieveError, NUMBER_OF_CHANNELS, TRIGGER_CHANNEL};

#[test]
fn sieve_routes_and_sorts() {
    let records: Vec<(usize, usize)> = vec![
        (7, 1000),
        (7, 1001),
        (2, 5000),
        (0, 1010),
        (1, 1030),
        (0, 1020),
        (1, 1025),
        (7, 1040),
    ];
    let timelines = sieve(&records, TRIGGER_CHANNEL, 100).unwrap();
    assert_eq!(timelines.len(), NUMBER_OF_CHANNELS);
    assert_eq!(timelines[0], vec![10, 20]);
    assert_eq!(timelines[1], vec![25, 30]);
    assert!(timelines[2].is_empty());
    assert_eq!(timelines[7], vec![40]);
    let total: usize = timelines.iter().map(|t| t.len()).sum();
    assert_eq!(total, 5);
}

#[test]
fn sieve_requires_leading_trigger() {
    assert_eq!(sieve(&vec![], TRIGGER_CHANNEL, 10), Err(SieveError::MissingTrigger));
    assert_eq!(sieve(&vec![(0, 5), (7, 6)], TRIGGER_CHANNEL, 10), Err(SieveError::MissingTrigger));
    assert_eq!(sieve(&vec![(7, 5), (0, 6)], 3, 10), Err(SieveError::MissingTrigger));
}

#[test]
fn sieve_rejects_records_before_trigger() {
    assert_eq!(sieve(&vec![(7, 100), (0, 105), (1, 90)], TRIGGER_CHANNEL, 10), Err(SieveError::InputFormat));
    assert_eq!(sieve(&vec![(7, 100), (0, 95)], TRIGGER_CHANNEL, 10), Err(SieveError::InputFormat));
}

#[test]
fn sieve_grows_for_large_channel_ids() {
    let timelines = sieve(&vec![(7, 0), (9, 0)], TRIGGER_CHANNEL, 10).unwrap();
    assert_eq!(timelines.len(), 10);
    assert_eq!(timelines[9], vec![0]);
    assert!(timelines[..9].iter().all(|t| t.is_empty()));
    let timelines = sieve(&vec![(7, 100), (12, 103), (2, 104), (12, 101)], TRIGGER_CHANNEL, 10).unwrap();
    assert_eq!(timelines.len(), 13);
    assert_eq!(timelines[12], vec![1, 3]);
    assert_eq!(timelines[2], vec![4]);
}

#[test]
fn sieve_with_another_trigger_channel() {
    let timelines = sieve(&vec![(0, 50), (0, 51), (3, 55), (0, 60)], 0, 10).unwrap();
    assert_eq!(timelines.len(), NUMBER_OF_CHANNELS);
    assert_eq!(timelines[3], vec![5]);
    assert_eq!(timelines[0], vec![10]);
}

#[test]
fn sieve_with_nothing_in_tolerance() {
    let timelines = sieve(&vec![(7, 100), (0, 500), (7, 105)], TRIGGER_CHANNEL, 10).unwrap();
    assert!(timelines.iter().all(|t| t.is_empty()));
    let timelines = sieve(&vec![(TRIGGER_CHANNEL, 100)], TRIGGER_CHANNEL, 10).unwrap();
    assert_eq!(timelines.len(), NUMBER_OF_CHANNELS);
}

#[test]
fn trigger_and_skip_steps() {
    assert_eq!(get_trigger(&vec![(7, 42), (1, 50)], TRIGGER_CHANNEL), Ok(42));
    assert_eq!(get_trigger(&vec![(1, 42)], TRIGGER_CHANNEL), Err(SieveError::MissingTrigger));
    assert_eq!(get_trigger(&vec![(1, 42)], 1), Ok(42));
    let records: Vec<(usize, usize)> = vec![(7, 100), (7, 101), (3, 200), (3, 104), (4, 300)];
    assert_eq!(skip_false_counts(&records, TRIGGER_CHANNEL, 100, 10), 3);
    assert_eq!(skip_false_counts(&records, TRIGGER_CHANNEL, 100, 1), 5);
}

#[test]
fn sort_step_sorts_and_keeps_sorted_input() {
    let mut timeline: Vec<usize> = vec![5, 1, 4, 1];
    sort_timeline(&mut timeline);
    assert_eq!(timeline, vec![1, 1, 4, 5]);
    let before = timeline.clone();
    sort_timeline(&mut timeline);
    assert_eq!(timeline, before);
}
