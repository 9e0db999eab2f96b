use log_rotator::clock::{Clock, Duration, FixedClock, StdClock, Timestamp};
use log_rotator::file_handler::date_stamped_path;
use log_rotator::reader::{ByteSource, LineError, Reader, ReaderOutput};
use log_rotator::{marker_line, retention_victims, tomorrow, EngineError};

#[test]
fn durations_convert_exactly() {
    assert_eq!(Duration::from_hours(24), Duration { secs: 86400, nanos: 0 });
    assert_eq!(Duration::from_millis(2), Duration { secs: 0, nanos: 2_000_000 });
    assert_eq!(Duration::from_millis(1500), Duration { secs: 1, nanos: 500_000_000 });
    assert_eq!(Duration::from_nanos(7), Duration { secs: 0, nanos: 7 });
}

#[test]
fn timestamp_addition_carries_and_overflows() {
    let t = Timestamp { secs: 5, nanos: 999_999_999 };
    let sum = t.checked_add(Duration::from_nanos(1)).unwrap();
    assert_eq!(sum, Timestamp { secs: 6, nanos: 0 });
    assert_eq!(sum.compute_day(), 0);

    let noon = Timestamp { secs: 86400 * 2 + 43200, nanos: 0 };
    assert_eq!(noon.compute_day(), 2);

    let edge = Timestamp::from_secs(u64::MAX);
    assert!(edge.checked_add(Duration::from_secs(1)).is_none());
    assert!(edge.checked_add(Duration::from_secs(0)).is_some());
}

#[test]
fn fixed_clock_serves_increments_then_full_days() {
    let mut clock = FixedClock::new(vec![Duration::from_secs(1), Duration::from_secs(2)]);
    let mut instant = clock.now();
    assert_eq!(clock.elapsed(&mut instant), Duration::from_secs(1));
    assert_eq!(clock.elapsed(&mut instant), Duration::from_secs(2));
    assert_eq!(clock.elapsed(&mut instant), Duration::from_hours(24));
    assert_eq!(clock.elapsed(&mut instant), Duration::from_hours(24));
}

#[test]
fn std_clock_reports_well_formed_durations() {
    let mut clock = StdClock;
    let mut instant = clock.now();
    let a = clock.elapsed(&mut instant);
    let b = clock.elapsed(&mut instant);
    assert!(a.nanos < 1_000_000_000);
    assert!(b.nanos < 1_000_000_000);
}

#[test]
fn reader_splits_lines_and_reports_days() {
    let clock = FixedClock::new(vec![Duration::from_nanos(1), Duration::from_hours(24)]);
    let source = ByteSource::new(b"ab\ncd".to_vec());
    let mut reader = Reader::new(clock, source, Timestamp::from_secs(0));
    let mut buf: Vec<u8> = Vec::new();

    match reader.read_line(&mut buf).unwrap() {
        ReaderOutput::Line(day) => assert_eq!(day, 0),
        ReaderOutput::Eof => panic!("expected a line"),
    }
    assert_eq!(buf, b"ab\n".to_vec());

    match reader.read_line(&mut buf).unwrap() {
        ReaderOutput::Line(day) => assert_eq!(day, 1),
        ReaderOutput::Eof => panic!("expected a line"),
    }
    assert_eq!(buf, b"cd".to_vec());

    assert!(matches!(reader.read_line(&mut buf).unwrap(), ReaderOutput::Eof));
}

#[test]
fn reader_planted_failure_fires_in_place_of_a_read() {
    let clock = FixedClock::new(vec![Duration::from_nanos(1); 4]);
    let source = ByteSource::failing(b"ab\ncd\n".to_vec(), 1, b"gone".to_vec());
    let mut reader = Reader::new(clock, source, Timestamp::from_secs(0));
    let mut buf: Vec<u8> = Vec::new();

    assert!(reader.read_line(&mut buf).is_ok());
    match reader.read_line(&mut buf) {
        Err(LineError::Source(msg)) => assert_eq!(msg, b"gone".to_vec()),
        other => panic!("expected the planted failure, got {:?}", other.is_ok()),
    }
}

#[test]
fn marker_line_prefixes_the_message() {
    let line = marker_line(&b"boom".to_vec());
    assert_eq!(line, b"LOGS ROTATION READER ERROR boom".to_vec());
    let bare = marker_line(&Vec::new());
    assert_eq!(bare, b"LOGS ROTATION READER ERROR ".to_vec());
}

#[test]
fn tomorrow_overflows_only_at_the_edge() {
    assert!(matches!(tomorrow(5), Ok(6)));
    assert!(matches!(tomorrow(0), Ok(1)));
    assert!(matches!(tomorrow(u64::MAX), Err(EngineError::CalendarOverflow)));
}

#[test]
fn retention_victims_splits_at_the_window() {
    let mut live: Vec<u64> = vec![1, 2, 3, 6, 7];
    let victims = retention_victims(&mut live, 8, 5);
    assert_eq!(victims, vec![1, 2, 3]);
    assert_eq!(live, vec![6, 7]);

    // A window wider than the day count deletes nothing.
    let mut live: Vec<u64> = vec![0, 1];
    let victims = retention_victims(&mut live, 3, 200);
    assert!(victims.is_empty());
    assert_eq!(live, vec![0, 1]);

    // A window of zero clears everything older than the new day.
    let mut live: Vec<u64> = vec![0, 1, 2];
    let victims = retention_victims(&mut live, 3, 0);
    assert_eq!(victims, vec![0, 1, 2]);
    assert!(live.is_empty());
}

#[test]
fn paths_are_stamped_with_the_calendar_date() {
    let p = date_stamped_path(".", "testing.log", 0).unwrap();
    assert_eq!(String::from_utf8(p).unwrap(), "./testing.log-19700101");

    // 1970 is not a leap year, so day 365 is the next new year's day.
    let p = date_stamped_path("/var/log", "app", 365).unwrap();
    assert_eq!(String::from_utf8(p).unwrap(), "/var/log/app-19710101");

    // 2000 was a leap year: day 11016 is 2000-02-29.
    let p = date_stamped_path(".", "x", 11016).unwrap();
    assert_eq!(String::from_utf8(p).unwrap(), "./x-20000229");

    // A day number beyond any printable calendar yields nothing.
    assert!(date_stamped_path(".", "x", u64::MAX).is_none());
}
