use aoc::error::Error;
use aoc::solutions::solution_04::{
    collect_sleeps, count_of, entries_from_lines, guards, part1 as most_asleep,
    part2 as most_regular, sleeps_from_lines, sort_logs, total_of, LogEntry, LogKind, Sleep, Stamp,
};

const LOG: [&str; 17] = [
    "[1518-11-01 00:00] Guard #10 begins shift",
    "[1518-11-01 00:05] falls asleep",
    "[1518-11-01 00:25] wakes up",
    "[1518-11-01 00:30] falls asleep",
    "[1518-11-01 00:55] wakes up",
    "[1518-11-01 23:58] Guard #99 begins shift",
    "[1518-11-02 00:40] falls asleep",
    "[1518-11-02 00:50] wakes up",
    "[1518-11-03 00:05] Guard #10 begins shift",
    "[1518-11-03 00:24] falls asleep",
    "[1518-11-03 00:29] wakes up",
    "[1518-11-04 00:02] Guard #99 begins shift",
    "[1518-11-04 00:36] falls asleep",
    "[1518-11-04 00:46] wakes up",
    "[1518-11-05 00:03] Guard #99 begins shift",
    "[1518-11-05 00:45] falls asleep",
    "[1518-11-05 00:55] wakes up",
];

fn stamp(seconds: i64, minute: u32) -> Stamp {
    Stamp::new(seconds, minute).unwrap()
}

fn nap(guard: u64, from: u32, to: u32) -> Sleep {
    Sleep::new(stamp(60 * from as i64, from), stamp(60 * to as i64, to), guard).unwrap()
}

fn shuffled() -> Vec<String> {
    // Every fifth line, five times round: each line once, out of order.
    let mut lines = Vec::new();
    for start in 0..5 {
        let mut i = start;
        while i < LOG.len() {
            lines.push(LOG[i].to_string());
            i += 5;
        }
    }
    assert_eq!(lines.len(), LOG.len());
    lines
}

#[test]
fn log_lines_are_read() {
    assert_eq!(
        LogEntry::parse("[1970-01-01 00:01] wakes up"),
        Ok(LogEntry { date: stamp(60, 1), kind: LogKind::WakesUp })
    );
    assert_eq!(
        LogEntry::parse("[1970-01-02 01:30] falls asleep"),
        Ok(LogEntry { date: stamp(91_800, 30), kind: LogKind::FallsAsleep })
    );
    assert_eq!(
        LogEntry::parse("[1969-12-31 23:59] Guard #3109 begins shift"),
        Ok(LogEntry { date: stamp(-60, 59), kind: LogKind::GuardBeginsShift(3109) })
    );
    let date = chrono::NaiveDate::from_ymd_opt(1518, 11, 1)
        .unwrap()
        .and_hms_opt(0, 5, 0)
        .unwrap()
        .and_utc();
    assert_eq!(
        LogEntry::parse(LOG[1]),
        Ok(LogEntry { date: stamp(date.timestamp(), 5), kind: LogKind::FallsAsleep })
    );
    assert_eq!("[1970-01-01 00:01] wakes up".parse::<LogEntry>(), LogEntry::parse("[1970-01-01 00:01] wakes up"));
}

#[test]
fn what_follows_the_report_is_not_read() {
    assert_eq!(
        LogEntry::parse("[1970-01-01 00:01] wakes up again"),
        Ok(LogEntry { date: stamp(60, 1), kind: LogKind::WakesUp })
    );
    assert_eq!(
        LogEntry::parse("[1970-01-01 00:01] Guard #7 begins shift!"),
        Ok(LogEntry { date: stamp(60, 1), kind: LogKind::GuardBeginsShift(7) })
    );
}

#[test]
fn log_lines_that_are_refused() {
    for line in [
        "",
        "1970-01-01 00:01] wakes up",
        "[1970-01-01 00:01 wakes up",
        "[1970-01-01 00:01]wakes up",
        "[1970-01-01 00:01] wakes",
        "[1970-01-01 00:01] Guard # begins shift",
        "[1970-01-01 00:01] Guard #7 ends shift",
        "[1970-01-01 00:01] Guard #99999999999999999999 begins shift",
        "[1970-01-01 00:61] wakes up",
        "[1970-13-01 00:01] wakes up",
        "[1970-01-01 00:01:30] wakes up",
        "[yesterday] wakes up",
    ] {
        assert_eq!(LogEntry::parse(line), Err(Error::MalformedInput), "{line}");
    }
}

#[test]
fn stamps_have_minutes_below_sixty() {
    assert!(Stamp::new(0, 59).is_some());
    assert!(Stamp::new(0, 60).is_none());
    let s = stamp(-5, 7);
    assert_eq!(s.timestamp(), -5);
    assert_eq!(s.minute_of_hour(), 7);
}

#[test]
fn naps_do_not_end_before_they_begin() {
    assert_eq!(Sleep::new(stamp(120, 2), stamp(60, 1), 4), Err(Error::MalformedInput));
    let same = Sleep::new(stamp(60, 1), stamp(60, 1), 4).unwrap();
    assert_eq!(same.duration(), 0);
    let long = Sleep::new(stamp(i64::MIN, 0), stamp(i64::MAX, 59), 4).unwrap();
    assert_eq!(long.duration(), u64::MAX);
    assert_eq!(long.guard_id(), 4);
    assert_eq!(long.first_minute(), 0);
    assert_eq!(long.last_minute(), 59);
}

#[test]
fn entries_are_sorted_by_date() {
    let logs = entries_from_lines(&shuffled()).unwrap();
    let sorted = sort_logs(&logs);
    let lines: Vec<String> = LOG.iter().map(|l| l.to_string()).collect();
    assert_eq!(sorted, entries_from_lines(&lines).unwrap());
    assert_ne!(logs, sorted);
}

#[test]
fn entries_of_one_date_keep_their_order() {
    let a = LogEntry { date: stamp(60, 1), kind: LogKind::GuardBeginsShift(1) };
    let b = LogEntry { date: stamp(0, 0), kind: LogKind::GuardBeginsShift(2) };
    let c = LogEntry { date: stamp(60, 1), kind: LogKind::FallsAsleep };
    let d = LogEntry { date: stamp(0, 0), kind: LogKind::WakesUp };
    assert_eq!(sort_logs(&vec![a, b, c, d]), vec![b, d, a, c]);
}

#[test]
fn naps_of_the_log() {
    let sleeps = sleeps_from_lines(&shuffled()).unwrap();
    let found: Vec<(u64, u32, u32, u64)> = sleeps
        .iter()
        .map(|s| (s.guard_id(), s.first_minute(), s.last_minute(), s.duration()))
        .collect();
    assert_eq!(
        found,
        vec![
            (10, 5, 25, 1200),
            (10, 30, 55, 1500),
            (99, 40, 50, 600),
            (10, 24, 29, 300),
            (99, 36, 46, 600),
            (99, 45, 55, 600),
        ]
    );
}

#[test]
fn reports_that_do_not_count() {
    let asleep = |s: i64| LogEntry { date: stamp(s, 0), kind: LogKind::FallsAsleep };
    let awake = |s: i64| LogEntry { date: stamp(s, 0), kind: LogKind::WakesUp };
    let shift = |s: i64, g: u64| LogEntry { date: stamp(s, 0), kind: LogKind::GuardBeginsShift(g) };
    // Before the first shift nothing counts, nor does a guard numbered zero.
    assert_eq!(collect_sleeps(&[asleep(1), awake(2)]), Ok(vec![]));
    assert_eq!(collect_sleeps(&[shift(0, 0), asleep(1), awake(2)]), Ok(vec![]));
    // Waking up without having fallen asleep, and falling asleep twice.
    let one = Sleep::new(stamp(2, 0), stamp(9, 0), 5).unwrap();
    assert_eq!(
        collect_sleeps(&[shift(0, 5), awake(1), asleep(2), asleep(3), awake(9), awake(10)]),
        Ok(vec![one])
    );
    // A new shift wakes the guard up.
    assert_eq!(collect_sleeps(&[shift(0, 5), asleep(2), shift(3, 6), awake(9)]), Ok(vec![]));
    // Out of order, a guard wakes up before it fell asleep.
    assert_eq!(collect_sleeps(&[shift(0, 5), asleep(9), awake(2)]), Err(Error::MalformedInput));
    assert_eq!(
        collect_sleeps(&[shift(0, 5), asleep(9), awake(2), shift(10, 1)]),
        Err(Error::MalformedInput)
    );
}

#[test]
fn sleepiest_guard_and_minute() {
    let sleeps = sleeps_from_lines(&shuffled()).unwrap();
    assert_eq!(guards(&sleeps), vec![10, 99]);
    assert_eq!(total_of(&sleeps, 10), 3000);
    assert_eq!(total_of(&sleeps, 99), 1800);
    assert_eq!(total_of(&sleeps, 7), 0);
    assert_eq!(count_of(&sleeps, 10, 24), 2);
    assert_eq!(count_of(&sleeps, 10, 25), 1);
    assert_eq!(count_of(&sleeps, 99, 45), 3);
    assert_eq!(count_of(&sleeps, 99, 55), 0);
    assert_eq!(most_asleep(&sleeps), Ok(240));
    assert_eq!(most_regular(&sleeps), Ok(4455));
}

#[test]
fn nobody_sleeps() {
    assert_eq!(most_asleep(&[]), Err(Error::NotFound));
    assert_eq!(most_regular(&[]), Err(Error::NotFound));
}

#[test]
fn of_equals_the_last_wins() {
    // Both guards sleep ten minutes; minutes 3 to 7 and 20 to 24 are slept
    // through equally often.
    let sleeps = vec![nap(3, 3, 8), nap(8, 10, 20), nap(3, 20, 25)];
    assert_eq!(most_asleep(&sleeps), Ok(8 * 19));
    assert_eq!(most_regular(&sleeps), Ok(8 * 19));
    let sleeps = vec![nap(8, 10, 20), nap(3, 3, 8), nap(3, 20, 25)];
    assert_eq!(most_asleep(&sleeps), Ok(3 * 24));
    assert_eq!(most_regular(&sleeps), Ok(3 * 24));
}

#[test]
fn a_nap_across_the_hour_counts_no_minute() {
    // From minute 50 to minute 10 of the next hour: no minute lies between.
    let across = Sleep::new(stamp(3000, 50), stamp(4200, 10), 2).unwrap();
    assert_eq!(count_of(&[across], 2, 55), 0);
    assert_eq!(count_of(&[across], 2, 5), 0);
    assert_eq!(most_asleep(&[across]), Ok(2 * 59));
}

#[test]
fn products_that_do_not_fit() {
    let sleeps = vec![nap(u64::MAX, 3, 8)];
    assert_eq!(most_asleep(&sleeps), Err(Error::Overflow));
    assert_eq!(most_regular(&sleeps), Err(Error::Overflow));
    let early = vec![nap(u64::MAX, 0, 1)];
    assert_eq!(most_asleep(&early), Ok(0));
}

#[test]
fn entry_behind_a_date_that_was_read() {
    let chars: Vec<char> = "[then] falls asleep".chars().collect();
    assert_eq!(
        LogEntry::with_date(&chars, 5, Some((120, 2))),
        Ok(LogEntry { date: stamp(120, 2), kind: LogKind::FallsAsleep })
    );
    assert_eq!(LogEntry::with_date(&chars, 5, None), Err(Error::MalformedInput));
    assert_eq!(LogEntry::with_date(&chars, 5, Some((120, 60))), Err(Error::MalformedInput));
    assert_eq!(LogEntry::with_date(&chars, 4, Some((120, 2))), Err(Error::MalformedInput));
    assert_eq!(LogEntry::with_date(&chars, 50, Some((120, 2))), Err(Error::MalformedInput));
}
