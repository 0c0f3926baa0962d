use diary2::time::{find_week, generate_image_prefix, shard_filename, week_range_filenames, Timestamp};

fn ts(secs: i64, nanos: u32) -> Timestamp {
    Timestamp::new(secs, nanos).expect("timestamp in range")
}

#[test]
fn shard_filename_of_a_wednesday() {
    // 2024-03-06T10:00:00Z, a Wednesday, day 19788 from the epoch
    let t = ts(1709719200, 0);
    let name = shard_filename(t.day());
    assert_eq!(name, "2024-03-03-2024-03-09.json");
}

#[test]
fn shard_filename_same_for_whole_week() {
    // Sunday 2024-03-03 and Saturday 2024-03-09 bound the same week
    let sunday = ts(19785 * 86400, 0);
    let saturday = ts(19791 * 86400 + 86399, 0);
    assert_eq!(shard_filename(sunday.day()), shard_filename(saturday.day()));
    // the Monday after starts a new week with a new name
    let next_sunday = ts(19792 * 86400, 0);
    assert_ne!(shard_filename(sunday.day()), shard_filename(next_sunday.day()));
}

#[test]
fn find_week_brackets_the_day() {
    // day 19788 is Wednesday 2024-03-06; its week runs 19785 through 19791
    let (begin, end) = find_week(19788);
    assert_eq!(begin, 19785);
    assert_eq!(end, 19791);
    // a Sunday is its own week begin
    let (b2, e2) = find_week(19785);
    assert_eq!(b2, 19785);
    assert_eq!(e2, 19791);
}

#[test]
fn week_range_covers_boundary_weeks() {
    // Saturday 2024-03-09 through Tuesday 2024-03-19: ten days, three weeks;
    // seven-day stepping lands on 03-09 and 03-16, missing the week of the
    // end, which must still be loaded.
    let start = ts(19791 * 86400, 0);
    let end = ts(19801 * 86400, 0);
    let files = week_range_filenames(&start, &end);
    assert_eq!(
        files,
        vec![
            "2024-03-03-2024-03-09.json".to_string(),
            "2024-03-10-2024-03-16.json".to_string(),
            "2024-03-17-2024-03-23.json".to_string(),
        ]
    );
}

#[test]
fn week_range_dedupes_final_week() {
    // Wednesday 2024-03-06 through Friday 2024-03-15: stepping reaches the
    // week of the end, so nothing extra is loaded.
    let start = ts(19788 * 86400, 0);
    let end = ts(19797 * 86400, 0);
    let files = week_range_filenames(&start, &end);
    assert_eq!(
        files,
        vec![
            "2024-03-03-2024-03-09.json".to_string(),
            "2024-03-10-2024-03-16.json".to_string(),
        ]
    );
}

#[test]
fn week_range_empty_when_start_after_end() {
    let start = ts(19791 * 86400, 1);
    let end = ts(19791 * 86400, 0);
    let files = week_range_filenames(&start, &end);
    assert!(files.is_empty());
}

#[test]
fn timestamp_rejects_out_of_range() {
    assert!(Timestamp::new(253402300799, 999_999_999).is_some());
    assert!(Timestamp::new(253402300800, 0).is_none());
    assert!(Timestamp::new(-62167219200, 0).is_some());
    assert!(Timestamp::new(-62167219201, 0).is_none());
    assert!(Timestamp::new(0, 1_000_000_000).is_none());
}

#[test]
fn image_prefix_shows_instant() {
    // 2024-03-06T10:00:00.123456789Z
    let t = ts(1709719200, 123456789);
    assert_eq!(generate_image_prefix(&t), "2024-03-06_10-00-00-123456789_");
    let midnight = ts(19785 * 86400, 0);
    assert_eq!(generate_image_prefix(&midnight), "2024-03-03_00-00-00-000000000_");
}
