use alphabet_cache::{AlphabetService, CachedAlphabetService};

#[test]
fn provider_maps_letters_to_positions() {
    let api = AlphabetService::new(0);
    assert_eq!(api.get_letter_position('A'), Some(1));
    assert_eq!(api.get_letter_position('a'), Some(1));
    assert_eq!(api.get_letter_position('Z'), Some(26));
    assert_eq!(api.get_letter_position('z'), Some(26));
    assert_eq!(api.get_letter_position('m'), Some(13));
    assert_eq!(api.get_letter_position('1'), None);
    assert_eq!(api.get_letter_position(' '), None);
    assert_eq!(api.get_letter_position('é'), None);
}

#[test]
fn service_answers_positions_with_and_without_cache() {
    let api = AlphabetService::new(0);
    let mut service = CachedAlphabetService::new(api, 3);
    assert_eq!(service.get_letter_position('c'), Some(3));
    // A second request is a cache hit and must give the same answer.
    assert_eq!(service.get_letter_position('c'), Some(3));
}

#[test]
fn case_does_not_change_the_answer() {
    let api = AlphabetService::new(0);
    let mut service = CachedAlphabetService::new(api, 3);
    assert_eq!(service.get_letter_position('Z'), Some(26));
    assert_eq!(service.get_letter_position('z'), Some(26));
}

#[test]
fn invalid_input_is_never_cached() {
    let api = AlphabetService::new(0);
    let mut service = CachedAlphabetService::new(api, 1);
    // Fill the one-entry cache with 'a'.
    assert_eq!(service.get_letter_position('a'), Some(1));
    // A miss the provider cannot answer must not populate the cache, so 'a'
    // stays resident and is not evicted by the failed lookups.
    assert_eq!(service.get_letter_position('1'), None);
    assert_eq!(service.get_letter_position('1'), None);
    let lines = service.snapshot_lines();
    assert_eq!(lines, vec!["1".to_string(), "a|1".to_string()]);
}

#[test]
fn service_eviction_follows_lru_order() {
    let api = AlphabetService::new(0);
    let mut service = CachedAlphabetService::new(api, 3);
    service.get_letter_position('a');
    service.get_letter_position('b');
    service.get_letter_position('c');
    // Overflow: 'a' is evicted.
    service.get_letter_position('d');
    let lines = service.snapshot_lines();
    assert_eq!(
        lines,
        vec![
            "3".to_string(),
            "b|2".to_string(),
            "c|3".to_string(),
            "d|4".to_string()
        ]
    );
}

#[test]
fn service_snapshot_round_trip_keeps_recency() {
    let api = AlphabetService::new(0);
    let mut service = CachedAlphabetService::new(api, 2);
    service.get_letter_position('a');
    service.get_letter_position('b');
    // Promote 'a'; 'b' becomes the eviction candidate.
    service.get_letter_position('a');
    let lines = service.snapshot_lines();

    let api2 = AlphabetService::new(0);
    let mut restored = CachedAlphabetService::new_from_lines(api2, 2, &lines);
    assert_eq!(restored.snapshot_lines(), lines);
    restored.get_letter_position('c');
    let after = restored.snapshot_lines();
    assert_eq!(
        after,
        vec!["2".to_string(), "a|1".to_string(), "c|3".to_string()]
    );
}
