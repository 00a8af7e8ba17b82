//! Day 4: the guards of the prototype suit lab and their naps.

use crate::error::Error;
use crate::util::text::{chars_of, number_at, scan_number, scan_tag, tag_at};
use vstd::prelude::*;
use vstd::string::*;

verus! {

/// A point in time, to the minute: the seconds since the beginning of
/// 1970 and the minute of the hour, which is below sixty.
#[derive(Clone, Copy, Debug, PartialEq, Eq)]
pub struct Stamp {
    seconds: i64,
    minute: u32,
}

impl Stamp {
    #[verifier::type_invariant]
    spec fn minute_in_hour(self) -> bool {
        self.minute < 60
    }

    /// The seconds since the beginning of 1970.
    pub closed spec fn seconds(self) -> i64 {
        self.seconds
    }

    /// The minute of the hour.
    pub closed spec fn minute(self) -> u32 {
        self.minute
    }

    /// The point in time with these seconds and this minute.
    pub closed spec fn at(seconds: i64, minute: u32) -> Stamp {
        Stamp { seconds, minute }
    }

    /// A point in time is determined by its seconds and its minute.
    pub broadcast proof fn lemma_at(seconds: i64, minute: u32)
        ensures
            (#[trigger] Stamp::at(seconds, minute)).seconds() == seconds,
            Stamp::at(seconds, minute).minute() == minute,
    {
    }

    /// A point in time is the one with its seconds and its minute.
    pub broadcast proof fn lemma_parts(self)
        ensures
            Stamp::at(#[trigger] self.seconds(), self.minute()) == self,
    {
    }

    /// The point in time with these seconds and this minute, where the
    /// minute is below sixty.
    pub fn new(seconds: i64, minute: u32) -> (r: Option<Stamp>)
        ensures
            r == (if minute < 60 {
                Some(Stamp::at(seconds, minute))
            } else {
                None
            }),
    {
        if minute < 60 {
            Some(Stamp { seconds, minute })
        } else {
            None
        }
    }

    /// The seconds since the beginning of 1970.
    pub fn timestamp(&self) -> (seconds: i64)
        ensures
            seconds == self.seconds(),
    {
        self.seconds
    }

    /// The minute of the hour.
    pub fn minute_of_hour(&self) -> (minute: u32)
        ensures
            minute == self.minute(),
            minute < 60,
    {
        proof {
            use_type_invariant(self);
        }
        self.minute
    }
}

/// The point in time that `text` writes in the format `format`, as
/// chrono reads it in universal time: its seconds since the beginning of
/// 1970 and its minute of the hour. Nothing where the text does not
/// follow the format.
pub uninterp spec fn date_of(text: Seq<char>, format: Seq<char>) -> Option<(i64, u32)>;

/// Reads a point in time with `chrono::TimeZone::datetime_from_str` on
/// `chrono::Utc`, and takes its seconds with `DateTime::timestamp` and
/// its minute with `Timelike::minute`. The contract names the result;
/// what it holds is left to chrono.
#[verifier::external_body]
#[allow(deprecated)]
pub(crate) fn read_date(text: &str, format: &str) -> (r: Option<(i64, u32)>)
    ensures
        r == date_of(text@, format@),
{
    let date = chrono::TimeZone::datetime_from_str(&chrono::Utc, text, format).ok()?;
    Some((date.timestamp(), chrono::Timelike::minute(&date)))
}

/// What a line of the log reports.
#[derive(Clone, Copy, Debug, PartialEq, Eq, Structural)]
pub enum LogKind {
    FallsAsleep,
    WakesUp,
    GuardBeginsShift(u64),
}

/// A line of the log: when it was written and what it reports.
#[derive(Clone, Copy, Debug, PartialEq, Eq)]
pub struct LogEntry {
    pub date: Stamp,
    pub kind: LogKind,
}

/// The format of the dates of the log.
pub open spec fn date_format() -> Seq<char> {
    "%Y-%m-%d %H:%M"@
}

/// The place of the first closing bracket at or behind `from`, or the
/// length of the text where there is none.
pub open spec fn close_of(s: Seq<char>, from: int) -> int
    decreases s.len() - from,
{
    if from < 0 || from >= s.len() {
        s.len() as int
    } else if s[from] == ']' {
        from
    } else {
        close_of(s, from + 1)
    }
}

/// What the text at place `pos` reports: `wakes up`, `falls asleep`, or
/// `Guard #` with a number and ` begins shift`. What follows is not
/// looked at.
pub open spec fn kind_at(s: Seq<char>, pos: int) -> Option<LogKind> {
    if tag_at(s, pos, "wakes up"@) is Some {
        Some(LogKind::WakesUp)
    } else if tag_at(s, pos, "falls asleep"@) is Some {
        Some(LogKind::FallsAsleep)
    } else {
        match tag_at(s, pos, "Guard #"@) {
            Some(p) => match number_at(s, p) {
                Some((id, q)) => if tag_at(s, q, " begins shift"@) is Some {
                    Some(LogKind::GuardBeginsShift(id))
                } else {
                    None
                },
                None => None,
            },
            None => None,
        }
    }
}

/// The entry of a line whose date, between the opening bracket and the
/// closing bracket at place `close`, was read as `date`: behind the
/// bracket stand a blank and what the line reports. `MalformedInput`
/// where no date was read, the minute of the date is not below sixty, or
/// the line goes on otherwise.
pub open spec fn entry_with(s: Seq<char>, close: int, date: Option<(i64, u32)>) -> Result<
    LogEntry,
    Error,
> {
    match (date, tag_at(s, close, "] "@)) {
        (Some(date), Some(q)) => match kind_at(s, q) {
            Some(kind) => if date.1 < 60 {
                Ok(LogEntry { date: Stamp::at(date.0, date.1), kind })
            } else {
                Err(Error::MalformedInput)
            },
            None => Err(Error::MalformedInput),
        },
        _ => Err(Error::MalformedInput),
    }
}

/// The entry that a line such as `[1518-11-01 00:05] falls asleep`
/// writes: an opening bracket, the date as far as the first closing
/// bracket, that bracket and a blank, and what the line reports.
pub open spec fn entry_of_line(s: Seq<char>) -> Result<LogEntry, Error> {
    match tag_at(s, 0, "["@) {
        Some(p) => {
            let c = close_of(s, p);
            if c >= s.len() {
                Err(Error::MalformedInput)
            } else {
                entry_with(s, c, date_of(s.subrange(p, c), date_format()))
            }
        },
        None => Err(Error::MalformedInput),
    }
}

fn find_close(s: &Vec<char>, from: usize) -> (at: usize)
    requires
        from <= s@.len(),
    ensures
        at == close_of(s@, from as int),
        from <= at <= s@.len(),
{
    let mut i: usize = from;
    while i < s.len()
        invariant
            from <= i <= s@.len(),
            close_of(s@, from as int) == close_of(s@, i as int),
        decreases s@.len() - i,
    {
        if s[i] == ']' {
            return i;
        }
        i += 1;
    }
    i
}

fn scan_kind(s: &Vec<char>, pos: usize) -> (kind: Option<LogKind>)
    ensures
        kind == kind_at(s@, pos as int),
{
    if scan_tag(s, pos, "wakes up").is_some() {
        return Some(LogKind::WakesUp);
    }
    if scan_tag(s, pos, "falls asleep").is_some() {
        return Some(LogKind::FallsAsleep);
    }
    let p = match scan_tag(s, pos, "Guard #") {
        Some(p) => p,
        None => {
            return None;
        },
    };
    let (id, q) = match scan_number(s, p) {
        Some(found) => found,
        None => {
            return None;
        },
    };
    if scan_tag(s, q, " begins shift").is_some() {
        Some(LogKind::GuardBeginsShift(id))
    } else {
        None
    }
}

impl LogEntry {
    /// The entry of a line whose date, before the closing bracket at
    /// place `close`, was read as `date`.
    pub fn with_date(chars: &Vec<char>, close: usize, date: Option<(i64, u32)>) -> (r: Result<
        LogEntry,
        Error,
    >)
        ensures
            r == entry_with(chars@, close as int, date),
    {
        let date = match date {
            Some(date) => date,
            None => {
                return Err(Error::MalformedInput);
            },
        };
        let q = match scan_tag(chars, close, "] ") {
            Some(q) => q,
            None => {
                return Err(Error::MalformedInput);
            },
        };
        match (scan_kind(chars, q), Stamp::new(date.0, date.1)) {
            (Some(kind), Some(date)) => Ok(LogEntry { date, kind }),
            _ => Err(Error::MalformedInput),
        }
    }

    /// Reads a line such as `[1518-11-01 00:00] Guard #10 begins shift`.
    pub fn parse(s: &str) -> (r: Result<LogEntry, Error>)
        ensures
            r == entry_of_line(s@),
    {
        let chars = chars_of(s);
        let p = match scan_tag(&chars, 0, "[") {
            Some(p) => p,
            None => {
                return Err(Error::MalformedInput);
            },
        };
        let c = find_close(&chars, p);
        if c >= chars.len() {
            return Err(Error::MalformedInput);
        }
        let date = read_date(s.substring_char(p, c), "%Y-%m-%d %H:%M");
        LogEntry::with_date(&chars, c, date)
    }
}

impl core::str::FromStr for LogEntry {
    type Err = Error;

    /// Reads a line such as `[1518-11-01 00:00] Guard #10 begins shift`.
    fn from_str(s: &str) -> (r: Result<Self, Error>)
        ensures
            r == entry_of_line(s@),
    {
        LogEntry::parse(s)
    }
}

/// Where `e` goes among entries in the order of their dates: behind
/// those that are as old or older.
pub open spec fn insert_at(sorted: Seq<LogEntry>, e: LogEntry) -> int
    decreases sorted.len(),
{
    if sorted.len() == 0 || sorted.last().date.seconds() <= e.date.seconds() {
        sorted.len() as int
    } else {
        insert_at(sorted.drop_last(), e)
    }
}

/// The entries in the order of their dates; entries of the same date
/// keep their order.
pub open spec fn by_date(logs: Seq<LogEntry>) -> Seq<LogEntry>
    decreases logs.len(),
{
    if logs.len() == 0 {
        Seq::empty()
    } else {
        let before = by_date(logs.drop_last());
        before.insert(insert_at(before, logs.last()), logs.last())
    }
}

/// Sorts the entries by their dates.
pub fn sort_logs(logs: &Vec<LogEntry>) -> (sorted: Vec<LogEntry>)
    ensures
        sorted@ == by_date(logs@),
{
    let mut sorted: Vec<LogEntry> = Vec::new();
    let mut i: usize = 0;
    assert(logs@.subrange(0, 0) =~= Seq::<LogEntry>::empty());
    while i < logs.len()
        invariant
            i <= logs@.len(),
            sorted@ == by_date(logs@.subrange(0, i as int)),
            sorted@.len() == i,
        decreases logs@.len() - i,
    {
        let e = logs[i];
        let mut pos: usize = sorted.len();
        assert(sorted@.subrange(0, pos as int) =~= sorted@);
        while pos > 0 && sorted[pos - 1].date.timestamp() > e.date.timestamp()
            invariant
                pos <= sorted@.len(),
                insert_at(sorted@, e) == insert_at(sorted@.subrange(0, pos as int), e),
            decreases pos,
        {
            proof {
                let head = sorted@.subrange(0, pos as int);
                assert(head.drop_last() =~= sorted@.subrange(0, pos - 1));
                assert(head.last() == sorted@[pos - 1]);
            }
            pos -= 1;
        }
        proof {
            let head = sorted@.subrange(0, pos as int);
            if pos > 0 {
                assert(head.last() == sorted@[pos - 1]);
            }
            assert(insert_at(head, e) == pos);
            let next = logs@.subrange(0, i + 1);
            assert(next.drop_last() =~= logs@.subrange(0, i as int));
            assert(next.last() == e);
        }
        sorted.insert(pos, e);
        i += 1;
    }
    assert(logs@.subrange(0, i as int) =~= logs@);
    sorted
}

/// A nap: the guard, and when it fell asleep and woke up. A nap never
/// ends before it begins.
#[derive(Clone, Copy, Debug, PartialEq, Eq)]
pub struct Sleep {
    guard: u64,
    start: Stamp,
    end: Stamp,
}

impl Sleep {
    #[verifier::type_invariant]
    spec fn ends_late(self) -> bool {
        self.start.seconds() <= self.end.seconds()
    }

    /// The guard that sleeps.
    pub closed spec fn guard(self) -> u64 {
        self.guard
    }

    /// When the guard falls asleep.
    pub closed spec fn start(self) -> Stamp {
        self.start
    }

    /// When the guard wakes up.
    pub closed spec fn end(self) -> Stamp {
        self.end
    }

    /// The nap of `guard` from `start` to `end`.
    pub closed spec fn at(start: Stamp, end: Stamp, guard: u64) -> Sleep {
        Sleep { guard, start, end }
    }

    /// A nap is determined by its guard, its beginning and its end.
    pub broadcast proof fn lemma_at(start: Stamp, end: Stamp, guard: u64)
        ensures
            (#[trigger] Sleep::at(start, end, guard)).guard() == guard,
            Sleep::at(start, end, guard).start() == start,
            Sleep::at(start, end, guard).end() == end,
    {
    }

    /// The seconds that the nap lasts.
    pub open spec fn length(self) -> int {
        self.end().seconds() - self.start().seconds()
    }

    /// Whether the guard is asleep in minute `m` of the hour: from the
    /// minute in which it falls asleep up to the one before it wakes up.
    pub open spec fn covers(self, m: int) -> bool {
        self.start().minute() <= m < self.end().minute()
    }

    /// The nap of `guard` from `start` to `end`; `MalformedInput` where
    /// it would end before it begins.
    pub fn new(start: Stamp, end: Stamp, guard: u64) -> (r: Result<Sleep, Error>)
        ensures
            r == (if start.seconds() <= end.seconds() {
                Ok(Sleep::at(start, end, guard))
            } else {
                Err(Error::MalformedInput)
            }),
    {
        if start.timestamp() > end.timestamp() {
            return Err(Error::MalformedInput);
        }
        Ok(Sleep { guard, start, end })
    }

    /// The guard that sleeps.
    pub fn guard_id(&self) -> (guard: u64)
        ensures
            guard == self.guard(),
    {
        self.guard
    }

    /// The minute in which the guard falls asleep.
    pub fn first_minute(&self) -> (m: u32)
        ensures
            m == self.start().minute(),
            m < 60,
    {
        self.start.minute_of_hour()
    }

    /// The minute in which the guard wakes up.
    pub fn last_minute(&self) -> (m: u32)
        ensures
            m == self.end().minute(),
            m < 60,
    {
        self.end.minute_of_hour()
    }

    /// The seconds that the nap lasts.
    pub fn duration(&self) -> (seconds: u64)
        ensures
            seconds == self.length(),
    {
        proof {
            use_type_invariant(self);
        }
        let from: i128 = self.start.timestamp() as i128;
        let to: i128 = self.end.timestamp() as i128;
        (to - from) as u64
    }
}

/// What is known while the log is read: the guard on duty (zero before
/// the first shift), since when it sleeps, and the naps so far.
pub ghost struct Watch {
    pub guard: u64,
    pub start: Option<Stamp>,
    pub sleeps: Seq<Sleep>,
}

/// What is known after one more entry. A shift puts its guard on duty,
/// awake. A guard that falls asleep sleeps from then on, unless it
/// sleeps already. A guard that wakes up after it fell asleep has had a
/// nap. Before the first shift nothing counts. `MalformedInput` where a
/// guard wakes up before it fell asleep.
pub open spec fn watch_step(w: Watch, log: LogEntry) -> Result<Watch, Error> {
    match log.kind {
        LogKind::GuardBeginsShift(id) => Ok(Watch { guard: id, start: None, ..w }),
        LogKind::FallsAsleep => if w.guard != 0 && w.start is None {
            Ok(Watch { start: Some(log.date), ..w })
        } else {
            Ok(w)
        },
        LogKind::WakesUp => match w.start {
            Some(start) => if w.guard == 0 {
                Ok(w)
            } else if start.seconds() <= log.date.seconds() {
                Ok(Watch { start: None, sleeps: w.sleeps.push(Sleep::at(start, log.date, w.guard)), ..w })
            } else {
                Err(Error::MalformedInput)
            },
            None => Ok(w),
        },
    }
}

/// What is known after the entries were read in their order.
pub open spec fn watched(logs: Seq<LogEntry>) -> Result<Watch, Error>
    decreases logs.len(),
{
    if logs.len() == 0 {
        Ok(Watch { guard: 0, start: None, sleeps: Seq::empty() })
    } else {
        match watched(logs.drop_last()) {
            Ok(w) => watch_step(w, logs.last()),
            Err(e) => Err(e),
        }
    }
}

/// The naps that the entries report, read in their order.
pub open spec fn sleeps_of(logs: Seq<LogEntry>) -> Result<Seq<Sleep>, Error> {
    match watched(logs) {
        Ok(w) => Ok(w.sleeps),
        Err(e) => Err(e),
    }
}

/// The naps that the entries report, read in their order.
pub fn collect_sleeps(logs: &[LogEntry]) -> (r: Result<Vec<Sleep>, Error>)
    ensures
        match r {
            Ok(sleeps) => sleeps_of(logs@) == Ok::<Seq<Sleep>, Error>(sleeps@),
            Err(e) => sleeps_of(logs@) == Err::<Seq<Sleep>, Error>(e),
        },
{
    let mut sleeps: Vec<Sleep> = Vec::new();
    let mut guard: u64 = 0;
    let mut start: Option<Stamp> = None;
    let mut i: usize = 0;
    assert(logs@.take(0) =~= Seq::<LogEntry>::empty());
    while i < logs.len()
        invariant
            i <= logs@.len(),
            watched(logs@.take(i as int)) == Ok::<Watch, Error>(
                Watch { guard, start, sleeps: sleeps@ },
            ),
        decreases logs@.len() - i,
    {
        proof {
            assert(logs@.take(i + 1).drop_last() =~= logs@.take(i as int));
            assert(logs@.take(i + 1).last() == logs@[i as int]);
        }
        let log = logs[i];
        match log.kind {
            LogKind::GuardBeginsShift(id) => {
                start = None;
                guard = id;
            },
            LogKind::FallsAsleep => {
                if guard != 0 && start.is_none() {
                    start = Some(log.date);
                }
            },
            LogKind::WakesUp => {
                if let Some(from) = start {
                    if guard != 0 {
                        match Sleep::new(from, log.date, guard) {
                            Ok(sleep) => {
                                sleeps.push(sleep);
                                start = None;
                            },
                            Err(e) => {
                                proof {
                                    lemma_watched_fails(logs@, i + 1);
                                }
                                return Err(e);
                            },
                        }
                    }
                }
            },
        }
        i += 1;
    }
    assert(logs@.take(i as int) =~= logs@);
    Ok(sleeps)
}

/// Entries that cannot be read stay unreadable with more entries behind
/// them.
pub proof fn lemma_watched_fails(logs: Seq<LogEntry>, upto: int)
    requires
        0 <= upto <= logs.len(),
        watched(logs.take(upto)) is Err,
    ensures
        watched(logs) == watched(logs.take(upto)),
    decreases logs.len(),
{
    if upto == logs.len() {
        assert(logs.take(upto) =~= logs);
    } else {
        assert(logs.drop_last().take(upto) =~= logs.take(upto));
        lemma_watched_fails(logs.drop_last(), upto);
    }
}

/// The entries that the lines write, one each.
pub open spec fn entries_of_lines(lines: Seq<Seq<char>>) -> Result<Seq<LogEntry>, Error> {
    if forall|i: int| 0 <= i < lines.len() ==> entry_of_line(#[trigger] lines[i]) is Ok {
        Ok(Seq::new(lines.len(), |i: int| entry_of_line(lines[i]).unwrap()))
    } else {
        Err(Error::MalformedInput)
    }
}

/// The naps that the lines of a log report: the entries are sorted by
/// their dates and then read in that order.
pub open spec fn sleeps_of_lines(lines: Seq<Seq<char>>) -> Result<Seq<Sleep>, Error> {
    match entries_of_lines(lines) {
        Ok(logs) => sleeps_of(by_date(logs)),
        Err(e) => Err(e),
    }
}

/// Reads one entry from each line.
pub fn entries_from_lines(lines: &Vec<String>) -> (r: Result<Vec<LogEntry>, Error>)
    ensures
        match r {
            Ok(logs) => entries_of_lines(lines.deep_view()) == Ok::<Seq<LogEntry>, Error>(logs@),
            Err(e) => entries_of_lines(lines.deep_view()) == Err::<Seq<LogEntry>, Error>(e),
        },
{
    let mut logs: Vec<LogEntry> = Vec::new();
    let mut i: usize = 0;
    while i < lines.len()
        invariant
            i <= lines@.len(),
            logs@.len() == i,
            forall|j: int| 0 <= j < i ==> entry_of_line(#[trigger] lines.deep_view()[j]) is Ok,
            forall|j: int|
                0 <= j < i ==> #[trigger] logs@[j] == entry_of_line(lines.deep_view()[j]).unwrap(),
        decreases lines@.len() - i,
    {
        assert(lines.deep_view()[i as int] == lines@[i as int]@);
        match LogEntry::parse(lines[i].as_str()) {
            Ok(e) => {
                logs.push(e);
            },
            Err(_) => {
                return Err(Error::MalformedInput);
            },
        }
        i += 1;
    }
    assert(logs@ =~= Seq::new(
        lines.deep_view().len(),
        |i: int| entry_of_line(lines.deep_view()[i]).unwrap(),
    ));
    Ok(logs)
}

/// The naps that the lines of a log report.
pub fn sleeps_from_lines(lines: &Vec<String>) -> (r: Result<Vec<Sleep>, Error>)
    ensures
        match r {
            Ok(sleeps) => sleeps_of_lines(lines.deep_view()) == Ok::<Seq<Sleep>, Error>(sleeps@),
            Err(e) => sleeps_of_lines(lines.deep_view()) == Err::<Seq<Sleep>, Error>(e),
        },
{
    let logs = match entries_from_lines(lines) {
        Ok(logs) => logs,
        Err(e) => {
            return Err(e);
        },
    };
    let sorted = sort_logs(&logs);
    collect_sleeps(sorted.as_slice())
}

/// The guards with `g` among them: behind the others where it is new.
pub open spec fn with_guard(guards: Seq<u64>, g: u64) -> Seq<u64> {
    if guards.contains(g) {
        guards
    } else {
        guards.push(g)
    }
}

/// The guards that have a nap, each once, in the order of their first
/// naps.
pub open spec fn guards_of(sleeps: Seq<Sleep>) -> Seq<u64>
    decreases sleeps.len(),
{
    if sleeps.len() == 0 {
        Seq::empty()
    } else {
        with_guard(guards_of(sleeps.drop_last()), sleeps.last().guard())
    }
}

/// The seconds that guard `g` sleeps in all.
pub open spec fn total(sleeps: Seq<Sleep>, g: u64) -> int
    decreases sleeps.len(),
{
    if sleeps.len() == 0 {
        0
    } else {
        total(sleeps.drop_last(), g) + if sleeps.last().guard() == g {
            sleeps.last().length()
        } else {
            0
        }
    }
}

/// In how many of its naps guard `g` is asleep in minute `m`.
pub open spec fn count_at(sleeps: Seq<Sleep>, g: u64, m: int) -> int
    decreases sleeps.len(),
{
    if sleeps.len() == 0 {
        0
    } else {
        count_at(sleeps.drop_last(), g, m) + if sleeps.last().guard() == g && sleeps.last().covers(m) {
            1int
        } else {
            0int
        }
    }
}

/// The place of the greatest value, the last one where several are as
/// great; zero where there is no value.
pub open spec fn last_max(values: Seq<int>) -> int
    decreases values.len(),
{
    if values.len() <= 1 {
        0
    } else {
        let best = last_max(values.drop_last());
        if values.last() >= values[best] {
            values.len() - 1
        } else {
            best
        }
    }
}

/// The greatest value stands at the place that `last_max` gives, and
/// behind it only smaller ones.
pub proof fn lemma_last_max(values: Seq<int>)
    requires
        values.len() > 0,
    ensures
        0 <= last_max(values) < values.len(),
        forall|i: int| 0 <= i < values.len() ==> #[trigger] values[i] <= values[last_max(values)],
        forall|i: int|
            last_max(values) < i < values.len() ==> #[trigger] values[i] < values[last_max(values)],
    decreases values.len(),
{
    if values.len() > 1 {
        let rest = values.drop_last();
        lemma_last_max(rest);
        assert forall|i: int| 0 <= i < rest.len() implies rest[i] == values[i] by {}
    }
}

/// The seconds that each guard sleeps in all, in the order of the guards.
pub open spec fn totals(sleeps: Seq<Sleep>) -> Seq<int> {
    Seq::new(guards_of(sleeps).len(), |i: int| total(sleeps, guards_of(sleeps)[i]))
}

/// For each minute of the hour, in how many naps guard `g` is asleep.
pub open spec fn counts(sleeps: Seq<Sleep>, g: u64) -> Seq<int> {
    Seq::new(60, |m: int| count_at(sleeps, g, m))
}

/// The guard that sleeps longest in all: of several such guards the one
/// whose first nap comes last.
pub open spec fn sleepiest(sleeps: Seq<Sleep>) -> u64 {
    guards_of(sleeps)[last_max(totals(sleeps))]
}

/// The minute in which guard `g` is asleep most often, the last of
/// several such minutes.
pub open spec fn best_minute(sleeps: Seq<Sleep>, g: u64) -> int {
    last_max(counts(sleeps, g))
}

/// The product of a guard and a minute: `Overflow` where it does not fit
/// the machine.
pub open spec fn answer(g: u64, m: int) -> Result<usize, Error> {
    if (g as usize) * m <= usize::MAX {
        Ok(((g as usize) * m) as usize)
    } else {
        Err(Error::Overflow)
    }
}

/// The guard that sleeps longest, times the minute in which it is asleep
/// most often; `NotFound` where nobody sleeps.
pub open spec fn most_asleep(sleeps: Seq<Sleep>) -> Result<usize, Error> {
    if sleeps.len() == 0 {
        Err(Error::NotFound)
    } else {
        answer(sleepiest(sleeps), best_minute(sleeps, sleepiest(sleeps)))
    }
}

/// How often each guard is asleep in the minute in which it is asleep
/// most often, in the order of the guards.
pub open spec fn peaks(sleeps: Seq<Sleep>) -> Seq<int> {
    Seq::new(
        guards_of(sleeps).len(),
        |i: int| counts(sleeps, guards_of(sleeps)[i])[best_minute(sleeps, guards_of(sleeps)[i])],
    )
}

/// The guard that is asleep in one minute more often than any guard in
/// any minute: of several such guards the one whose first nap comes
/// last.
pub open spec fn steadiest(sleeps: Seq<Sleep>) -> u64 {
    guards_of(sleeps)[last_max(peaks(sleeps))]
}

/// The guard that is most often asleep in one minute, times that minute;
/// `NotFound` where nobody sleeps.
pub open spec fn most_regular(sleeps: Seq<Sleep>) -> Result<usize, Error> {
    if sleeps.len() == 0 {
        Err(Error::NotFound)
    } else {
        answer(steadiest(sleeps), best_minute(sleeps, steadiest(sleeps)))
    }
}

/// The guards are as many as the naps at most, and at least one where
/// there is a nap.
pub proof fn lemma_guards_of(sleeps: Seq<Sleep>)
    ensures
        guards_of(sleeps).len() <= sleeps.len(),
        sleeps.len() > 0 ==> guards_of(sleeps).len() > 0,
    decreases sleeps.len(),
{
    if sleeps.len() > 0 {
        lemma_guards_of(sleeps.drop_last());
    }
}

fn find_guard(guards: &Vec<u64>, g: u64) -> (found: bool)
    ensures
        found == guards@.contains(g),
{
    let mut i: usize = 0;
    while i < guards.len()
        invariant
            i <= guards@.len(),
            forall|j: int| 0 <= j < i ==> guards@[j] != g,
        decreases guards@.len() - i,
    {
        if guards[i] == g {
            return true;
        }
        i += 1;
    }
    false
}

/// The guards that have a nap, each once, in the order of their first
/// naps.
pub fn guards(sleeps: &[Sleep]) -> (all: Vec<u64>)
    ensures
        all@ == guards_of(sleeps@),
{
    let mut all: Vec<u64> = Vec::new();
    let mut i: usize = 0;
    assert(sleeps@.take(0) =~= Seq::<Sleep>::empty());
    while i < sleeps.len()
        invariant
            i <= sleeps@.len(),
            all@ == guards_of(sleeps@.take(i as int)),
        decreases sleeps@.len() - i,
    {
        proof {
            assert(sleeps@.take(i + 1).drop_last() =~= sleeps@.take(i as int));
        }
        let g = sleeps[i].guard_id();
        if !find_guard(&all, g) {
            all.push(g);
        }
        i += 1;
    }
    assert(sleeps@.take(i as int) =~= sleeps@);
    all
}

/// The seconds that guard `g` sleeps in all.
pub fn total_of(sleeps: &[Sleep], g: u64) -> (seconds: u128)
    ensures
        seconds == total(sleeps@, g),
{
    let mut seconds: u128 = 0;
    let mut i: usize = 0;
    assert(sleeps@.take(0) =~= Seq::<Sleep>::empty());
    while i < sleeps.len()
        invariant
            i <= sleeps@.len(),
            seconds == total(sleeps@.take(i as int), g),
            seconds <= i * 0xffff_ffff_ffff_ffff,
        decreases sleeps@.len() - i,
    {
        proof {
            assert(sleeps@.take(i + 1).drop_last() =~= sleeps@.take(i as int));
            assert((i + 1) * 0xffff_ffff_ffff_ffff <= 0xffff_ffff_ffff_ffff * 0xffff_ffff_ffff_ffff)
                by (nonlinear_arith)
                requires
                    i + 1 <= 0xffff_ffff_ffff_ffff,
            ;
            assert((i + 1) * 0xffff_ffff_ffff_ffff == i * 0xffff_ffff_ffff_ffff + 0xffff_ffff_ffff_ffff)
                by (nonlinear_arith);
        }
        if sleeps[i].guard_id() == g {
            seconds += sleeps[i].duration() as u128;
        }
        i += 1;
    }
    assert(sleeps@.take(i as int) =~= sleeps@);
    seconds
}

/// In how many of its naps guard `g` is asleep in minute `m`.
pub fn count_of(sleeps: &[Sleep], g: u64, m: u32) -> (n: usize)
    ensures
        n == count_at(sleeps@, g, m as int),
{
    let mut n: usize = 0;
    let mut i: usize = 0;
    assert(sleeps@.take(0) =~= Seq::<Sleep>::empty());
    while i < sleeps.len()
        invariant
            i <= sleeps@.len(),
            n <= i,
            n == count_at(sleeps@.take(i as int), g, m as int),
        decreases sleeps@.len() - i,
    {
        proof {
            assert(sleeps@.take(i + 1).drop_last() =~= sleeps@.take(i as int));
        }
        let sleep = &sleeps[i];
        if sleep.guard_id() == g && sleep.first_minute() <= m && m < sleep.last_minute() {
            n += 1;
        }
        i += 1;
    }
    assert(sleeps@.take(i as int) =~= sleeps@);
    n
}

/// Whether the values of `values` are the numbers `numbers`.
pub open spec fn same_values(values: Seq<u128>, numbers: Seq<int>) -> bool {
    values.len() == numbers.len() && forall|i: int|
        0 <= i < values.len() ==> #[trigger] values[i] == numbers[i]
}

/// The place of the greatest value, the last one where several are as
/// great.
fn last_max_of(values: &Vec<u128>, Ghost(numbers): Ghost<Seq<int>>) -> (at: usize)
    requires
        same_values(values@, numbers),
    ensures
        at == last_max(numbers),
        values@.len() > 0 ==> at < values@.len(),
{
    let mut at: usize = 0;
    let mut i: usize = 1;
    if values.len() == 0 {
        return 0;
    }
    assert(numbers.take(1).len() <= 1);
    while i < values.len()
        invariant
            1 <= i <= values@.len(),
            at < i,
            same_values(values@, numbers),
            at == last_max(numbers.take(i as int)),
        decreases values@.len() - i,
    {
        proof {
            assert(numbers.take(i + 1).drop_last() =~= numbers.take(i as int));
            assert(numbers.take(i + 1).last() == numbers[i as int]);
            assert(numbers.take(i as int)[at as int] == numbers[at as int]);
        }
        if values[i] >= values[at] {
            at = i;
        }
        i += 1;
    }
    assert(numbers.take(i as int) =~= numbers);
    at
}

/// For each minute of the hour, in how many naps guard `g` is asleep.
fn counts_of(sleeps: &[Sleep], g: u64) -> (all: Vec<u128>)
    ensures
        same_values(all@, counts(sleeps@, g)),
{
    let mut all: Vec<u128> = Vec::new();
    let mut m: u32 = 0;
    while m < 60
        invariant
            m <= 60,
            all@.len() == m,
            forall|i: int| 0 <= i < m ==> #[trigger] all@[i] == count_at(sleeps@, g, i),
        decreases 60 - m,
    {
        all.push(count_of(sleeps, g, m) as u128);
        m += 1;
    }
    all
}

/// The minute in which guard `g` is asleep most often, and how often it
/// is asleep then.
fn peak_of(sleeps: &[Sleep], g: u64) -> (r: (usize, u128))
    ensures
        r.0 == best_minute(sleeps@, g),
        r.0 < 60,
        r.1 == counts(sleeps@, g)[best_minute(sleeps@, g)],
{
    let all = counts_of(sleeps, g);
    let at = last_max_of(&all, Ghost(counts(sleeps@, g)));
    (at, all[at])
}

fn product(g: u64, m: usize) -> (r: Result<usize, Error>)
    ensures
        r == answer(g, m as int),
{
    match (g as usize).checked_mul(m) {
        Some(p) => Ok(p),
        None => Err(Error::Overflow),
    }
}

/// The guard that sleeps longest, times the minute in which it is asleep
/// most often.
pub fn part1(sleeps: &[Sleep]) -> (r: Result<usize, Error>)
    ensures
        r == most_asleep(sleeps@),
{
    if sleeps.len() == 0 {
        return Err(Error::NotFound);
    }
    let all = guards(sleeps);
    proof {
        lemma_guards_of(sleeps@);
    }
    let mut sums: Vec<u128> = Vec::new();
    let mut i: usize = 0;
    while i < all.len()
        invariant
            i <= all@.len(),
            all@ == guards_of(sleeps@),
            sums@.len() == i,
            forall|j: int| 0 <= j < i ==> #[trigger] sums@[j] == total(sleeps@, all@[j]),
        decreases all@.len() - i,
    {
        sums.push(total_of(sleeps, all[i]));
        i += 1;
    }
    let at = last_max_of(&sums, Ghost(totals(sleeps@)));
    let g = all[at];
    let (minute, _) = peak_of(sleeps, g);
    product(g, minute)
}

/// The guard that is most often asleep in one minute, times that minute.
pub fn part2(sleeps: &[Sleep]) -> (r: Result<usize, Error>)
    ensures
        r == most_regular(sleeps@),
{
    if sleeps.len() == 0 {
        return Err(Error::NotFound);
    }
    let all = guards(sleeps);
    proof {
        lemma_guards_of(sleeps@);
    }
    let mut tops: Vec<u128> = Vec::new();
    let mut i: usize = 0;
    while i < all.len()
        invariant
            i <= all@.len(),
            all@ == guards_of(sleeps@),
            tops@.len() == i,
            forall|j: int| 0 <= j < i ==> #[trigger] tops@[j] == peaks(sleeps@)[j],
        decreases all@.len() - i,
    {
        let (_, top) = peak_of(sleeps, all[i]);
        tops.push(top);
        i += 1;
    }
    let at = last_max_of(&tops, Ghost(peaks(sleeps@)));
    let g = all[at];
    let (minute, _) = peak_of(sleeps, g);
    product(g, minute)
}

} // verus!
