use alphabet_cache::Cache;

#[test]
fn put_within_capacity_keeps_all_keys() {
    let mut c: Cache<char, u32> = Cache::new(3);
    c.put('a', 1);
    c.put('b', 2);
    c.put('c', 3);
    assert_eq!(c.get(&'a'), Some(&1));
    assert_eq!(c.get(&'b'), Some(&2));
    assert_eq!(c.get(&'c'), Some(&3));
}

#[test]
fn put_overwrites_with_last_value() {
    let mut c: Cache<char, u32> = Cache::new(3);
    c.put('a', 1);
    c.put('b', 2);
    c.put('a', 9);
    assert_eq!(c.get(&'a'), Some(&9));
    assert_eq!(c.get(&'b'), Some(&2));
}

#[test]
fn overflow_evicts_first_inserted_key() {
    let mut c: Cache<char, u32> = Cache::new(3);
    c.put('a', 1);
    c.put('b', 2);
    c.put('c', 3);
    c.put('d', 4);
    assert_eq!(c.get(&'a'), None);
    assert_eq!(c.get(&'b'), Some(&2));
    assert_eq!(c.get(&'c'), Some(&3));
    assert_eq!(c.get(&'d'), Some(&4));
}

#[test]
fn get_promotes_key_so_another_is_evicted() {
    let mut c: Cache<char, u32> = Cache::new(2);
    c.put('a', 1);
    c.put('b', 2);
    // 'a' is least recently used; accessing it makes 'b' the eviction candidate.
    assert_eq!(c.get(&'a'), Some(&1));
    c.put('c', 3);
    assert_eq!(c.get(&'b'), None);
    assert_eq!(c.get(&'a'), Some(&1));
    assert_eq!(c.get(&'c'), Some(&3));
}

#[test]
fn overwrite_at_capacity_never_evicts() {
    let mut c: Cache<char, u32> = Cache::new(2);
    c.put('a', 1);
    c.put('b', 2);
    c.put('a', 7);
    assert_eq!(c.get(&'b'), Some(&2));
    assert_eq!(c.get(&'a'), Some(&7));
}

#[test]
fn full_scenario_capacity_three() {
    let mut c: Cache<char, u32> = Cache::new(3);
    c.put('A', 1);
    c.put('B', 2);
    c.put('C', 3);
    c.put('D', 4);
    // 'A' was least recently used and is gone.
    assert_eq!(c.get(&'A'), None);
    // Accessing 'B' makes it most recent, so the next overflow evicts 'C'.
    assert_eq!(c.get(&'B'), Some(&2));
    c.put('E', 5);
    assert_eq!(c.get(&'C'), None);
    assert_eq!(c.get(&'B'), Some(&2));
    assert_eq!(c.get(&'D'), Some(&4));
    assert_eq!(c.get(&'E'), Some(&5));
}

#[test]
fn snapshot_lines_have_count_then_entries_in_recency_order() {
    let mut c: Cache<char, u32> = Cache::new(3);
    c.put('a', 1);
    c.put('b', 2);
    let lines = c.to_lines();
    assert_eq!(lines, vec!["2".to_string(), "a|1".to_string(), "b|2".to_string()]);
}

#[test]
fn snapshot_round_trip_restores_entries_and_recency() {
    let mut c: Cache<char, u32> = Cache::new(3);
    c.put('a', 1);
    c.put('b', 2);
    c.put('c', 3);
    // Promote 'a' so that 'b' is the eviction candidate.
    assert_eq!(c.get(&'a'), Some(&1));
    let lines = c.to_lines();
    let mut restored: Cache<char, u32> = Cache::from_lines(3, &lines);
    assert_eq!(restored.to_lines(), lines);
    // Re-trigger eviction: the restored cache must drop 'b' first, exactly
    // as the saved cache would have.
    restored.put('d', 4);
    assert_eq!(restored.get(&'b'), None);
    assert_eq!(restored.get(&'a'), Some(&1));
    assert_eq!(restored.get(&'c'), Some(&3));
    assert_eq!(restored.get(&'d'), Some(&4));
}

#[test]
fn from_lines_skips_malformed_lines() {
    let lines = vec![
        "4".to_string(),
        "a|1".to_string(),
        "no delimiter".to_string(),
        "b|not a number".to_string(),
        "c|3".to_string(),
    ];
    let mut c: Cache<char, u32> = Cache::from_lines(5, &lines);
    assert_eq!(c.get(&'a'), Some(&1));
    assert_eq!(c.get(&'b'), None);
    assert_eq!(c.get(&'c'), Some(&3));
}

#[test]
fn from_lines_reads_no_more_than_the_header_says() {
    let lines = vec!["1".to_string(), "a|1".to_string(), "b|2".to_string()];
    let mut c: Cache<char, u32> = Cache::from_lines(5, &lines);
    assert_eq!(c.get(&'a'), Some(&1));
    assert_eq!(c.get(&'b'), None);
}

#[test]
fn from_lines_with_short_file_reads_what_is_there() {
    let lines = vec!["5".to_string(), "a|1".to_string(), "b|2".to_string()];
    let mut c: Cache<char, u32> = Cache::from_lines(5, &lines);
    assert_eq!(c.get(&'a'), Some(&1));
    assert_eq!(c.get(&'b'), Some(&2));
}

#[test]
fn from_lines_with_malformed_header_loads_nothing() {
    let lines = vec!["abc".to_string(), "a|1".to_string()];
    let mut c: Cache<char, u32> = Cache::from_lines(5, &lines);
    assert_eq!(c.get(&'a'), None);
}

#[test]
fn from_lines_empty_input_gives_empty_cache() {
    let lines: Vec<String> = Vec::new();
    let mut c: Cache<char, u32> = Cache::from_lines(5, &lines);
    assert_eq!(c.get(&'a'), None);
}

#[test]
fn from_lines_keeps_first_of_duplicate_keys_and_respects_capacity() {
    let lines = vec![
        "4".to_string(),
        "a|1".to_string(),
        "a|9".to_string(),
        "b|2".to_string(),
        "c|3".to_string(),
    ];
    let mut c: Cache<char, u32> = Cache::from_lines(2, &lines);
    assert_eq!(c.get(&'a'), Some(&1));
    assert_eq!(c.get(&'b'), Some(&2));
    assert_eq!(c.get(&'c'), None);
}

#[test]
fn value_with_delimiter_like_key_round_trips() {
    // A key of '1' and a numeric value exercise the digit codec inside the
    // snapshot line.
    let mut c: Cache<char, u32> = Cache::new(2);
    c.put('1', 4294967295);
    let lines = c.to_lines();
    assert_eq!(lines, vec!["1".to_string(), "1|4294967295".to_string()]);
    let mut restored: Cache<char, u32> = Cache::from_lines(2, &lines);
    assert_eq!(restored.get(&'1'), Some(&4294967295));
}
