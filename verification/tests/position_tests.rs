use audioserve::audio_meta::TimeStamp;
use audioserve::position::{
    is_null_group_name, latest_position, merge_legacy_positions, position_update, split_key, Collector,
    LegacyEntry, LegacyError, LegacyRecord, PositionFilter, PositionUpdate, MAX_GROUPS,
};

#[test]
fn test_collector() {
    let data: Vec<i64> = vec![1, 7, 5, 9, 0, 8, 3, 2, 4, 6];
    let mut c = Collector::with_capacity_and_filter(4, 5, |i: i64| i != 7);
    data.iter().for_each(|i| c.add(*i));
    let res = c.into_vec();
    assert_eq!(vec![9, 8, 6, 5], res);
}

fn ts(n: u64) -> TimeStamp {
    TimeStamp::from_millis(n)
}

#[test]
fn test_position_filter_no_criteria() {
    let filter = PositionFilter::new(None, None, None);
    assert!(filter.filter(ts(1000), false));
    assert!(filter.filter(ts(9999), true));
}

#[test]
fn test_position_filter_finished_flag() {
    let f_true = PositionFilter::new(Some(true), None, None);
    assert!(!f_true.filter(ts(100), false));
    assert!(f_true.filter(ts(100), true));

    let f_false = PositionFilter::new(Some(false), None, None);
    assert!(f_false.filter(ts(100), false));
    assert!(!f_false.filter(ts(100), true));
}

#[test]
fn test_position_filter_timestamp_window() {
    let filter = PositionFilter::new(None, Some(ts(500)), Some(ts(100)));
    assert!(!filter.filter(ts(99), false));
    assert!(filter.filter(ts(100), false));
    assert!(filter.filter(ts(250), false));
    assert!(filter.filter(ts(499), false));
    assert!(!filter.filter(ts(500), false));
    assert!(!filter.filter(ts(600), false));
}

#[test]
fn test_position_filter_combined_finished_and_timestamp() {
    let filter = PositionFilter::new(Some(true), Some(ts(500)), Some(ts(100)));
    assert!(!filter.filter(ts(250), false));
    assert!(!filter.filter(ts(50), true));
    assert!(filter.filter(ts(250), true));
}

#[test]
fn collector_without_filter() {
    let mut c: Collector<fn(i64) -> bool> = Collector::new(2);
    c.add(3);
    c.add(-1);
    c.add(10);
    assert_eq!(c.into_vec(), vec![10, 3]);
    assert!(PositionFilter::new(None, None, None).into_option().is_none());
    assert!(PositionFilter::new(Some(false), None, None).into_option().is_some());
}

#[test]
fn position_update_decisions() {
    let now = TimeStamp(5000);
    // unknown folder
    assert_eq!(
        position_update("a.mp3", 10, false, None, None, 0, None, false, now),
        PositionUpdate::Ignored
    );
    // stored position is newer than the one sent
    assert_eq!(
        position_update("a.mp3", 10, false, Some(("b.mp3", Some(100))), Some(TimeStamp(300)), 1, Some(TimeStamp(200)), true, now),
        PositionUpdate::Ignored
    );
    // newer one sent, its time stamp kept
    assert_eq!(
        position_update("a.mp3", 10, false, Some(("b.mp3", Some(100))), Some(TimeStamp(100)), 1, Some(TimeStamp(200)), true, now),
        PositionUpdate::Store { folder_finished: false, timestamp: TimeStamp(200) }
    );
    // time stamp sent but not kept
    assert_eq!(
        position_update("a.mp3", 10, false, Some(("b.mp3", Some(100))), None, 0, Some(TimeStamp(200)), false, now),
        PositionUpdate::Store { folder_finished: false, timestamp: now }
    );
    // near the end of the last file
    assert_eq!(
        position_update("b.mp3", 91, false, Some(("b.mp3", Some(100))), None, 0, None, false, now),
        PositionUpdate::Store { folder_finished: true, timestamp: now }
    );
    assert_eq!(
        position_update("b.mp3", 90, false, Some(("b.mp3", Some(100))), None, 0, None, false, now),
        PositionUpdate::Store { folder_finished: false, timestamp: now }
    );
    // past the end
    assert_eq!(
        position_update("b.mp3", 120, false, Some(("b.mp3", Some(100))), None, 0, None, false, now),
        PositionUpdate::Store { folder_finished: false, timestamp: now }
    );
    // too many groups for a new one, but an existing group may update
    assert_eq!(
        position_update("a.mp3", 1, true, Some(("b.mp3", None)), None, MAX_GROUPS, None, false, now),
        PositionUpdate::TooManyGroups
    );
    assert_eq!(
        position_update("a.mp3", 1, true, Some(("b.mp3", None)), Some(TimeStamp(1)), MAX_GROUPS, None, false, now),
        PositionUpdate::Store { folder_finished: true, timestamp: now }
    );
}

#[test]
fn latest_of_collections() {
    assert_eq!(latest_position(&[]), None);
    assert_eq!(latest_position(&[None, None]), None);
    assert_eq!(latest_position(&[None, Some(TimeStamp(3)), Some(TimeStamp(7)), Some(TimeStamp(7)), Some(TimeStamp(2))]), Some(2));
}

fn legacy(group: &str, key: &str, ts: u64) -> LegacyEntry {
    LegacyEntry { group: group.to_string(), key: key.to_string(), timestamp: TimeStamp(ts) }
}

#[test]
fn legacy_keys_and_groups() {
    assert_eq!(split_key("0/books/a"), ("0".to_string(), "books/a".to_string()));
    assert_eq!(split_key("12"), ("12".to_string(), "".to_string()));
    assert_eq!(split_key("/x"), ("".to_string(), "x".to_string()));
    assert!(is_null_group_name("null"));
    assert!(is_null_group_name("nullable"));
    assert!(!is_null_group_name("nul"));
    assert!(!is_null_group_name("home"));
}

#[test]
fn legacy_positions_merge() {
    let entries = vec![
        legacy("home", "0/books/a", 10),
        legacy("home", "0/books/a", 30),
        legacy("home", "0/books/a", 20),
        legacy("null-x", "0/books/a", 99),
        legacy("car", "0/books/a", 5),
        legacy("home", "1/other", 7),
        legacy("home", "1/other", 7),
    ];
    let recs = merge_legacy_positions(&entries).unwrap();
    let rec = |c: usize, f: &str, g: &str, e: usize| LegacyRecord {
        collection: c,
        folder: f.to_string(),
        group: g.to_string(),
        entry: e,
    };
    assert_eq!(
        recs,
        vec![rec(0, "books/a", "home", 1), rec(0, "books/a", "car", 4), rec(1, "other", "home", 5)]
    );

    let bad = vec![legacy("home", "0/a", 1), legacy("home", "x/a", 2)];
    assert_eq!(
        merge_legacy_positions(&bad),
        Err(LegacyError::CollectionNotNumber("x/a".to_string()))
    );
    // a skipped group is not checked
    let skipped = vec![legacy("null", "x/a", 2)];
    assert_eq!(merge_legacy_positions(&skipped), Ok(vec![]));
}

#[test]
fn collector_order_does_not_matter() {
    let items = [5i64, -3, 12, 7, 12, 0, 9];
    let mut a: Collector<fn(i64) -> bool> = Collector::new(3);
    for x in items.iter() {
        a.add(*x);
    }
    let mut b: Collector<fn(i64) -> bool> = Collector::new(3);
    for x in items.iter().rev() {
        b.add(*x);
    }
    let va = a.into_vec();
    assert_eq!(va, vec![12, 12, 9]);
    assert_eq!(va, b.into_vec());
}
