use log_rotator::clock::{Duration, FixedClock, Timestamp};
use log_rotator::config::Config;
use log_rotator::file_handler::{FlakyFileHandler, InMemFileEntry, InMemFileHandler};
use log_rotator::reader::ByteSource;
use log_rotator::{log_redirect_generic, EngineError};

const LOGS: &str = r#"Line1.
Line2.
Line3: with more text in it.
Line4: { "with_json": true }
Line5.
Line6.
Line7.
Line8.
Line9.
"#;

fn config(delete_after: Option<u8>) -> Config {
    Config { dir: ".".to_string(), prefix: "testing.log".to_string(), delete_after }
}

fn live_entries(entries: &[InMemFileEntry]) -> Vec<&InMemFileEntry> {
    entries.iter().filter(|e| !e.deleted).collect()
}

#[test]
fn test_log_ration() {
    let input = ByteSource::new(LOGS.as_bytes().to_vec());
    let clock = FixedClock::new(vec![
        Duration::from_nanos(3),
        Duration::from_secs(1),
        Duration::from_hours(24),
        Duration::from_millis(2),
    ]);
    let mut file_handler = InMemFileHandler::new();

    log_redirect_generic(input, &config(None), clock, &mut file_handler, Timestamp::from_secs(0))
        .unwrap();

    let mut expected: Vec<(u64, &str)> = Vec::new();

    // The first two lines are in the first file because the first date change happens
    // in the third time increment.
    let mut day: u64 = 0;
    expected.push((day, &LOGS[0..14]));

    // The next two lines are in the next file.
    day += 1;
    expected.push((day, &LOGS[14..72]));

    // Each line is in its own file after that because the default increment is 24 hours.
    for i in 0..5 {
        day += 1;
        let start = 72 + i * 7;
        let end = 72 + (i + 1) * 7;
        expected.push((day, &LOGS[start..end]));
    }

    // One more (empty) file for the following day comes from the final close.
    let entries = &file_handler.entries;
    assert_eq!(entries.len(), expected.len() + 1);
    for (entry, (expected_day, expected_contents)) in entries.iter().zip(expected.iter()) {
        assert_eq!(entry.day, *expected_day);
        assert_eq!(entry.content, expected_contents.as_bytes().to_vec());
        assert!(!entry.deleted);
    }
    let last = entries.last().unwrap();
    assert_eq!(last.day, day + 1);
    assert!(last.content.is_empty());
}

#[test]
fn test_reader_error() {
    let input = ByteSource::failing(
        LOGS.as_bytes().to_vec(),
        9,
        b"Intentional error!".to_vec(),
    );
    let clock = FixedClock::new(vec![Duration::from_nanos(1); 10]);
    let mut file_handler = InMemFileHandler::new();

    log_redirect_generic(input, &config(None), clock, &mut file_handler, Timestamp::from_secs(0))
        .unwrap();

    let contents = String::from_utf8(file_handler.entries.first().unwrap().content.clone())
        .unwrap();
    let mut lines = contents.lines();

    assert_eq!(
        lines.next_back(),
        Some("LOGS ROTATION READER ERROR Intentional error!"),
        "Error is reported"
    );
    assert_eq!(lines.next_back(), Some("Line9."), "No data is lost.");
}

#[test]
fn test_delete_old_files() {
    let input = ByteSource::new(LOGS.as_bytes().to_vec());
    let clock = FixedClock::new(vec![Duration::from_nanos(1)]);
    let mut file_handler = InMemFileHandler::new();

    log_redirect_generic(
        input,
        &config(Some(5)),
        clock,
        &mut file_handler,
        Timestamp::from_secs(0),
    )
    .unwrap();

    // The first few lines are not in the output because
    // they were deleted by the rotation logic.
    let expected_lines = LOGS.lines().skip(4);

    let entries = &file_handler.entries;
    let live: Vec<&InMemFileEntry> = live_entries(entries)
        .into_iter()
        .filter(|e| !e.content.is_empty())
        .collect();
    for (entry, expected_contents) in live.iter().zip(expected_lines) {
        let contents = String::from_utf8(entry.content.clone()).unwrap();
        assert_eq!(contents, format!("{expected_contents}\n"));
    }
    assert_eq!(live.len(), 5);

    // The files for the four oldest days were deleted.
    let deleted: Vec<&InMemFileEntry> = entries.iter().filter(|e| e.deleted).collect();
    assert_eq!(deleted.len(), 4);
    for (i, entry) in deleted.iter().enumerate() {
        assert_eq!(entry.day, i as u64);
    }
}

#[test]
fn same_day_lines_share_one_file() {
    let input = ByteSource::new(b"Line1.\nLine2.\n".to_vec());
    let clock = FixedClock::new(vec![Duration::from_nanos(1), Duration::from_nanos(1)]);
    let mut file_handler = InMemFileHandler::new();

    let report = log_redirect_generic(
        input,
        &config(None),
        clock,
        &mut file_handler,
        Timestamp::from_secs(0),
    )
    .unwrap();

    assert_eq!(report.days, vec![0, 0]);
    assert!(report.marker.is_none());
    let entries = &file_handler.entries;
    assert_eq!(entries.len(), 2);
    assert_eq!(entries[0].content, b"Line1.\nLine2.\n".to_vec());
    assert_eq!(entries[0].day, 0);
    assert!(entries[1].content.is_empty());
}

#[test]
fn day_jump_splits_files() {
    let input = ByteSource::new(b"Line1.\nLine2.\n".to_vec());
    let clock = FixedClock::new(vec![Duration::from_nanos(1), Duration::from_hours(24)]);
    let mut file_handler = InMemFileHandler::new();

    let report = log_redirect_generic(
        input,
        &config(None),
        clock,
        &mut file_handler,
        Timestamp::from_secs(0),
    )
    .unwrap();

    assert_eq!(report.days, vec![0, 1]);
    let entries = &file_handler.entries;
    assert_eq!(entries.len(), 3);
    assert_eq!(entries[0].content, b"Line1.\n".to_vec());
    assert_eq!(entries[1].content, b"Line2.\n".to_vec());
    assert_eq!(entries[1].day, entries[0].day + 1);
}

#[test]
fn error_after_first_line_marks_file() {
    let input = ByteSource::failing(b"Line1.\n".to_vec(), 1, b"Intentional error!".to_vec());
    let clock = FixedClock::new(vec![Duration::from_nanos(1); 4]);
    let mut file_handler = InMemFileHandler::new();

    let report = log_redirect_generic(
        input,
        &config(None),
        clock,
        &mut file_handler,
        Timestamp::from_secs(0),
    )
    .unwrap();

    assert_eq!(
        report.marker,
        Some(b"LOGS ROTATION READER ERROR Intentional error!".to_vec())
    );
    let entries = &file_handler.entries;
    assert_eq!(
        entries[0].content,
        b"Line1.\nLOGS ROTATION READER ERROR Intentional error!".to_vec()
    );
}

#[test]
fn skipped_days_get_no_files() {
    // A 72 hour jump between two lines skips two whole days.
    let input = ByteSource::new(b"Line1.\nLine2.\n".to_vec());
    let clock = FixedClock::new(vec![Duration::from_nanos(1), Duration::from_hours(72)]);
    let mut file_handler = InMemFileHandler::new();

    let report = log_redirect_generic(
        input,
        &config(None),
        clock,
        &mut file_handler,
        Timestamp::from_secs(0),
    )
    .unwrap();

    assert_eq!(report.days, vec![0, 3]);
    let days: Vec<u64> = file_handler.entries.iter().map(|e| e.day).collect();
    assert_eq!(days, vec![0, 3, 4]);
}

#[test]
fn error_before_any_line_leaves_only_marker() {
    let input = ByteSource::failing(b"Line1.\n".to_vec(), 0, b"boom".to_vec());
    let clock = FixedClock::new(vec![Duration::from_nanos(1)]);
    let mut file_handler = InMemFileHandler::new();

    let report = log_redirect_generic(
        input,
        &config(None),
        clock,
        &mut file_handler,
        Timestamp::from_secs(0),
    )
    .unwrap();

    assert!(report.days.is_empty());
    assert_eq!(report.marker, Some(b"LOGS ROTATION READER ERROR boom".to_vec()));
    assert_eq!(
        file_handler.entries[0].content,
        b"LOGS ROTATION READER ERROR boom".to_vec()
    );
}

#[test]
fn clock_overflow_is_reported_in_the_file() {
    let input = ByteSource::new(b"Line1.\n".to_vec());
    let clock = FixedClock::new(vec![Duration::from_secs(u64::MAX)]);
    let mut file_handler = InMemFileHandler::new();

    let report = log_redirect_generic(
        input,
        &config(None),
        clock,
        &mut file_handler,
        Timestamp::from_secs(1),
    )
    .unwrap();

    assert!(report.days.is_empty());
    assert_eq!(
        report.marker,
        Some(b"LOGS ROTATION READER ERROR time overflow".to_vec())
    );
}

#[test]
fn empty_input_creates_one_empty_file_pair() {
    let input = ByteSource::new(Vec::new());
    let clock = FixedClock::new(Vec::new());
    let mut file_handler = InMemFileHandler::new();

    let report = log_redirect_generic(
        input,
        &config(None),
        clock,
        &mut file_handler,
        Timestamp::from_secs(86400 * 3 + 5),
    )
    .unwrap();

    assert!(report.days.is_empty());
    assert!(report.marker.is_none());
    let entries = &file_handler.entries;
    assert_eq!(entries.len(), 2);
    assert_eq!(entries[0].day, 3);
    assert_eq!(entries[1].day, 4);
    assert!(entries[0].content.is_empty());
    assert_eq!(file_handler.spawned_count, file_handler.resolved_count);
}

#[test]
fn every_flush_is_resolved() {
    let input = ByteSource::new(LOGS.as_bytes().to_vec());
    let clock = FixedClock::new(vec![Duration::from_nanos(1)]);
    let mut file_handler = InMemFileHandler::new();

    log_redirect_generic(input, &config(None), clock, &mut file_handler, Timestamp::from_secs(0))
        .unwrap();

    // One flush per rotation, plus one for the final close; all awaited.
    assert_eq!(file_handler.spawned_count, 9);
    assert_eq!(file_handler.resolved_count, file_handler.spawned_count);
}

#[test]
fn unwritable_store_aborts_the_run() {
    let input = ByteSource::new(b"Line1.\n".to_vec());
    let clock = FixedClock::new(vec![Duration::from_nanos(1)]);
    let mut file_handler = FlakyFileHandler::new();
    file_handler.fail_create = true;

    let outcome = log_redirect_generic(
        input,
        &config(None),
        clock,
        &mut file_handler,
        Timestamp::from_secs(0),
    );

    assert!(matches!(outcome, Err(EngineError::Create(_))));
}

#[test]
fn failing_write_aborts_the_run() {
    let input = ByteSource::new(b"Line1.\n".to_vec());
    let clock = FixedClock::new(vec![Duration::from_nanos(1)]);
    let mut file_handler = FlakyFileHandler::new();
    file_handler.fail_write = true;

    let outcome = log_redirect_generic(
        input,
        &config(None),
        clock,
        &mut file_handler,
        Timestamp::from_secs(0),
    );

    assert!(matches!(outcome, Err(EngineError::Write(_))));
}

#[test]
fn failing_delete_aborts_the_run() {
    let input = ByteSource::new(b"Line1.\nLine2.\n".to_vec());
    let clock = FixedClock::new(vec![Duration::from_nanos(1), Duration::from_hours(24)]);
    let mut file_handler = FlakyFileHandler::new();
    file_handler.fail_delete = true;

    let outcome = log_redirect_generic(
        input,
        &config(Some(0)),
        clock,
        &mut file_handler,
        Timestamp::from_secs(0),
    );

    assert!(matches!(outcome, Err(EngineError::Delete(_))));
}

#[test]
fn failing_close_aborts_the_run() {
    let input = ByteSource::new(Vec::new());
    let clock = FixedClock::new(Vec::new());
    let mut file_handler = FlakyFileHandler::new();
    file_handler.fail_close = true;

    let outcome = log_redirect_generic(
        input,
        &config(None),
        clock,
        &mut file_handler,
        Timestamp::from_secs(0),
    );

    assert!(matches!(outcome, Err(EngineError::Close(_))));
}

#[test]
fn retention_of_zero_keeps_only_the_open_file() {
    let input = ByteSource::new(b"Line1.\nLine2.\n".to_vec());
    let clock = FixedClock::new(vec![Duration::from_nanos(1), Duration::from_hours(24)]);
    let mut file_handler = InMemFileHandler::new();

    log_redirect_generic(
        input,
        &config(Some(0)),
        clock,
        &mut file_handler,
        Timestamp::from_secs(0),
    )
    .unwrap();

    let entries = &file_handler.entries;
    assert!(entries[0].deleted);
    assert!(!entries[1].deleted);
    assert_eq!(entries[1].content, b"Line2.\n".to_vec());
}
