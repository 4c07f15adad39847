//! The log of a guard post: who began a shift, who fell asleep and woke up
//! when, and from that the guard and the minute to pick.

use crate::scan::{parse_u32, parse_u8, scan, scanned, unsigned_of, ParseError};
use std::cmp::Ordering;
use std::collections::HashMap;
use vstd::prelude::*;
use vstd::std_specs::iter::IteratorSpec;

verus! {

broadcast use vstd::std_specs::hash::group_hash_axioms;

#[derive(Clone, Copy, Debug, PartialEq, Eq, Structural)]
pub struct Date {
    pub year: u32,
    pub month: u32,
    pub day: u32,
}

#[derive(Clone, Copy, Debug, PartialEq, Eq, Structural)]
pub enum LogType {
    BeginShift(u32),
    FallsAsleep,
    WakesUp,
}

#[derive(Clone, Copy, Debug)]
pub struct Log {
    pub date: Date,
    pub minute: u8,
    pub typ: LogType,
}

/// `a` was written before `b`: on an earlier day, or at an earlier minute of
/// the same day.
pub open spec fn precedes(a: Log, b: Log) -> bool {
    ||| a.date.year < b.date.year
    ||| a.date.year == b.date.year && a.date.month < b.date.month
    ||| a.date.year == b.date.year && a.date.month == b.date.month && a.date.day < b.date.day
    ||| a.date == b.date && a.minute < b.minute
}

/// `a` and `b` were written on the same day at the same minute.
pub open spec fn same_time(a: Log, b: Log) -> bool {
    a.date == b.date && a.minute == b.minute
}

/// How two entries stand in time.
pub open spec fn compare_logs(a: Log, b: Log) -> Ordering {
    if precedes(a, b) {
        Ordering::Less
    } else if same_time(a, b) {
        Ordering::Equal
    } else {
        Ordering::Greater
    }
}

impl Log {
    /// Compares two entries by their day, and on the same day by their
    /// minute.
    pub fn cmp(&self, other: &Log) -> (o: Ordering)
        ensures
            o == compare_logs(*self, *other),
    {
        if self.date.year != other.date.year {
            if self.date.year < other.date.year {
                Ordering::Less
            } else {
                Ordering::Greater
            }
        } else if self.date.month != other.date.month {
            if self.date.month < other.date.month {
                Ordering::Less
            } else {
                Ordering::Greater
            }
        } else if self.date.day != other.date.day {
            if self.date.day < other.date.day {
                Ordering::Less
            } else {
                Ordering::Greater
            }
        } else if self.minute != other.minute {
            if self.minute < other.minute {
                Ordering::Less
            } else {
                Ordering::Greater
            }
        } else {
            Ordering::Equal
        }
    }
}

impl PartialEq for Log {
    /// Two entries are equal when they were written at the same time.
    fn eq(&self, other: &Log) -> (r: bool) {
        self.date == other.date && self.minute == other.minute
    }
}

impl vstd::std_specs::cmp::PartialEqSpecImpl for Log {
    open spec fn obeys_eq_spec() -> bool {
        true
    }

    open spec fn eq_spec(&self, other: &Log) -> bool {
        self.date == other.date && self.minute == other.minute
    }
}

impl PartialOrd for Log {
    fn partial_cmp(&self, other: &Log) -> (r: Option<Ordering>) {
        Some(Log::cmp(self, other))
    }
}

impl vstd::std_specs::cmp::PartialOrdSpecImpl for Log {
    open spec fn obeys_partial_cmp_spec() -> bool {
        true
    }

    open spec fn partial_cmp_spec(&self, other: &Log) -> Option<Ordering> {
        Some(compare_logs(*self, *other))
    }
}

/// The `u32` that a field holds.
pub open spec fn u32_of(field: Seq<char>) -> Option<nat> {
    unsigned_of(field, 0xffff_ffff)
}

/// The `u8` that a field holds.
pub open spec fn u8_of(field: Seq<char>) -> Option<nat> {
    unsigned_of(field, 0xff)
}

/// What the text of an entry says happened.
pub open spec fn log_type_of(text: Seq<char>) -> Option<LogType> {
    if text == "falls asleep"@ {
        Some(LogType::FallsAsleep)
    } else if text == "wakes up"@ {
        Some(LogType::WakesUp)
    } else {
        shift_of_fields(scanned(text, "Guard #{d} begins shift"@))
    }
}

/// The beginning of a shift that the fields scanned from the text of an
/// entry hold: the first field is the number of the guard.
pub open spec fn shift_of_fields(fields: Seq<Seq<char>>) -> Option<LogType> {
    if fields.len() >= 1 && u32_of(fields[0]) is Some {
        Some(LogType::BeginShift(u32_of(fields[0])->0 as u32))
    } else {
        None
    }
}

/// The first of the six fields of an entry that is missing or does not hold
/// what it should: year, month and day, hour and minute, and the text.
pub open spec fn first_bad_field(fields: Seq<Seq<char>>) -> Option<int> {
    if fields.len() < 1 || u32_of(fields[0]) is None {
        Some(0)
    } else if fields.len() < 2 || u32_of(fields[1]) is None {
        Some(1)
    } else if fields.len() < 3 || u32_of(fields[2]) is None {
        Some(2)
    } else if fields.len() < 4 || u8_of(fields[3]) is None {
        Some(3)
    } else if fields.len() < 5 || u8_of(fields[4]) is None {
        Some(4)
    } else if fields.len() < 6 || log_type_of(fields[5]) is None {
        Some(5)
    } else if u8_of(fields[3]) == Some(23nat) && u32_of(fields[2]) == Some(0xffff_ffffnat) {
        // an entry of the hour before midnight counts for the next day
        Some(2)
    } else {
        None
    }
}

/// The entry that the fields of a scanned line hold.  An entry of the hour
/// before midnight counts as one of minute 0 of the next day.
pub open spec fn log_of_fields(fields: Seq<Seq<char>>) -> Result<Log, ParseError> {
    match first_bad_field(fields) {
        Some(field) => Err(ParseError { field: field as usize }),
        None => {
            let early = u8_of(fields[3]) == Some(23nat);
            Ok(
                Log {
                    date: Date {
                        year: u32_of(fields[0])->0 as u32,
                        month: u32_of(fields[1])->0 as u32,
                        day: if early {
                            (u32_of(fields[2])->0 + 1) as u32
                        } else {
                            u32_of(fields[2])->0 as u32
                        },
                    },
                    minute: if early {
                        0
                    } else {
                        u8_of(fields[4])->0 as u8
                    },
                    typ: log_type_of(fields[5])->0,
                },
            )
        },
    }
}

/// What the text of an entry says happened; none if it says none of
/// `falls asleep`, `wakes up` and `Guard #10 begins shift`.
pub fn parse_log_type(text: &String) -> (r: Option<LogType>)
    ensures
        r == log_type_of(text@),
{
    let falls = "falls asleep".to_owned();
    let wakes = "wakes up".to_owned();
    if *text == falls {
        Some(LogType::FallsAsleep)
    } else if *text == wakes {
        Some(LogType::WakesUp)
    } else {
        let fields = scan(text.as_str(), "Guard #{d} begins shift");
        assert(Seq::new(fields@.len(), |i: int| fields@[i]@) =~= scanned(text@, "Guard #{d} begins shift"@));
        shift_from_fields(&fields)
    }
}

/// The beginning of a shift that scanned fields hold; none if the first
/// field is missing or holds no number of a guard.
pub fn shift_from_fields(fields: &Vec<String>) -> (r: Option<LogType>)
    ensures
        r == shift_of_fields(Seq::new(fields@.len(), |i: int| fields@[i]@)),
{
    if fields.len() < 1 {
        return None;
    }
    match parse_u32(fields[0].as_str()) {
        Some(id) => Some(LogType::BeginShift(id)),
        None => None,
    }
}

/// The entry that scanned fields hold.
pub fn log_from_fields(fields: &Vec<String>) -> (r: Result<Log, ParseError>)
    ensures
        r == log_of_fields(Seq::new(fields@.len(), |i: int| fields@[i]@)),
{
    let ghost all = Seq::new(fields@.len(), |i: int| fields@[i]@);
    if fields.len() < 1 {
        return Err(ParseError { field: 0 });
    }
    let year = match parse_u32(fields[0].as_str()) {
        Some(v) => v,
        None => {
            return Err(ParseError { field: 0 });
        },
    };
    if fields.len() < 2 {
        return Err(ParseError { field: 1 });
    }
    let month = match parse_u32(fields[1].as_str()) {
        Some(v) => v,
        None => {
            return Err(ParseError { field: 1 });
        },
    };
    if fields.len() < 3 {
        return Err(ParseError { field: 2 });
    }
    let mut day = match parse_u32(fields[2].as_str()) {
        Some(v) => v,
        None => {
            return Err(ParseError { field: 2 });
        },
    };
    if fields.len() < 4 {
        return Err(ParseError { field: 3 });
    }
    let h = match parse_u8(fields[3].as_str()) {
        Some(v) => v,
        None => {
            return Err(ParseError { field: 3 });
        },
    };
    if fields.len() < 5 {
        return Err(ParseError { field: 4 });
    }
    let mut minute = match parse_u8(fields[4].as_str()) {
        Some(v) => v,
        None => {
            return Err(ParseError { field: 4 });
        },
    };
    if fields.len() < 6 {
        return Err(ParseError { field: 5 });
    }
    let typ = match parse_log_type(&fields[5]) {
        Some(t) => t,
        None => {
            return Err(ParseError { field: 5 });
        },
    };
    if h == 23 {
        if day == u32::MAX {
            return Err(ParseError { field: 2 });
        }
        day += 1;
        minute = 0;
    }
    Ok(Log { date: Date { year, month, day }, minute, typ })
}

impl Log {
    /// Reads a line of the form `[1518-11-01 00:05] falls asleep`.
    pub fn from_str(s: &str) -> (r: Result<Log, ParseError>)
        ensures
            r == log_of_fields(scanned(s@, "[{d}-{d}-{d} {d}:{d}] {[a-zA-Z#0-9 ]}"@)),
    {
        let fields = scan(s, "[{d}-{d}-{d} {d}:{d}] {[a-zA-Z#0-9 ]}");
        assert(Seq::new(fields@.len(), |i: int| fields@[i]@) =~= scanned(
            s@,
            "[{d}-{d}-{d} {d}:{d}] {[a-zA-Z#0-9 ]}"@,
        ));
        log_from_fields(&fields)
    }
}

/// No entry of `logs` was written before an entry that stands before it.
pub open spec fn is_sorted(logs: Seq<Log>) -> bool {
    forall|i: int, j: int| 0 <= i <= j < logs.len() ==> !precedes(logs[j], logs[i])
}

/// Calls `sort_unstable_by` of the standard library with `Log::cmp`: the
/// entries are put in the order of their time, and none is added or lost.
/// Entries of the same time may come in any order.
#[verifier::external_body]
pub(crate) fn sort_unstable(logs: &mut Vec<Log>)
    ensures
        is_sorted(final(logs)@),
        final(logs)@.to_multiset() == old(logs)@.to_multiset(),
{
    logs.sort_unstable_by(|a, b| Log::cmp(a, b));
}

/// Sorts the entries chronologically.
pub fn sort_logs(logs: &mut Vec<Log>)
    ensures
        is_sorted(final(logs)@),
        final(logs)@.to_multiset() == old(logs)@.to_multiset(),
        final(logs)@.len() == old(logs)@.len(),
{
    let ghost before = logs@;
    sort_unstable(logs);
    proof {
        before.to_multiset_ensures();
        logs@.to_multiset_ensures();
    }
}

/// How often a guard was asleep, minute by minute, and for how many
/// minutes in all.
#[derive(Clone, Copy, Debug)]
pub struct GuardSleeping {
    /// For each minute of the hour how often the guard was asleep in it.
    pub sleep_records: [u32; 60],
    /// The total number of minutes asleep.
    pub total_minutes: u32,
}

/// The sleep of a guard as the contracts see it.
pub struct Sleep {
    pub records: Seq<u32>,
    pub total: u32,
}

impl View for GuardSleeping {
    type V = Sleep;

    open spec fn view(&self) -> Sleep {
        Sleep { records: self.sleep_records@, total: self.total_minutes }
    }
}

/// The sleep of a guard that was never asleep.
pub open spec fn awake() -> Sleep {
    Sleep { records: Seq::new(60, |m: int| 0u32), total: 0 }
}

/// The sleep `s` and one more from the minute `start` up to, not including,
/// the minute `end`.
pub open spec fn slept(s: Sleep, start: u8, end: u8) -> Sleep {
    Sleep {
        records: Seq::new(
            60,
            |m: int|
                if start <= m < end {
                    (s.records[m] + 1) as u32
                } else {
                    s.records[m]
                },
        ),
        total: (s.total + (end - start)) as u32,
    }
}

/// No count of `s` is above `limit`, and the total is not above 255 times
/// `limit`.
pub open spec fn sleep_within(s: Sleep, limit: nat) -> bool {
    &&& s.records.len() == 60
    &&& forall|m: int| 0 <= m < 60 ==> #[trigger] s.records[m] <= limit
    &&& s.total <= 255 * limit
}

impl GuardSleeping {
    /// Counts one more sleep from the minute `start` up to, not including,
    /// the minute `end`.
    pub fn add_sleepy_time(&mut self, start: u8, end: u8)
        requires
            start <= end <= 60,
            old(self).total_minutes + (end - start) <= u32::MAX,
            forall|m: int| start <= m < end ==> old(self).sleep_records@[m] < u32::MAX,
        ensures
            final(self)@ == slept(old(self)@, start, end),
    {
        self.total_minutes += (end - start) as u32;
        for m in start..end
            invariant
                start <= end <= 60,
                self.total_minutes == old(self).total_minutes + (end - start),
                forall|i: int| start <= i < end ==> old(self).sleep_records@[i] < u32::MAX,
                forall|i: int|
                    0 <= i < 60 ==> #[trigger] self.sleep_records@[i] == if start <= i < m {
                        (old(self).sleep_records@[i] + 1) as u32
                    } else {
                        old(self).sleep_records@[i]
                    },
        {
            let count = self.sleep_records[m as usize];
            self.sleep_records[m as usize] = count + 1;
        }
        assert(self@.records =~= slept(old(self)@, start, end).records);
    }
}

/// What keeps a log from being counted.
#[derive(Clone, Copy, Debug, PartialEq, Eq, Structural)]
pub enum ShiftError {
    /// A guard wakes up and no shift has begun.
    NoGuard,
    /// A guard wakes up and none fell asleep.
    NotAsleep,
    /// A guard wakes up before the minute of falling asleep, or sleeps past
    /// the hour.
    BadMinutes,
}

/// The state of the count after some entries of the log.
pub struct Shift {
    /// The sleep of each guard that has begun a shift.
    pub guards: Map<u32, Sleep>,
    /// The guard on shift; 0 before the first shift.
    pub guard_id: u32,
    /// The minute at which a guard fell asleep last.
    pub asleep: Option<u8>,
}

/// The count after one more entry.
pub open spec fn after_log(s: Shift, log: Log) -> Result<Shift, ShiftError> {
    match log.typ {
        LogType::BeginShift(guard_id) => Ok(
            Shift {
                guards: if s.guards.contains_key(guard_id) {
                    s.guards
                } else {
                    s.guards.insert(guard_id, awake())
                },
                guard_id,
                ..s
            },
        ),
        LogType::FallsAsleep => Ok(Shift { asleep: Some(log.minute), ..s }),
        LogType::WakesUp => if !s.guards.contains_key(s.guard_id) {
            Err(ShiftError::NoGuard)
        } else if s.asleep is None {
            Err(ShiftError::NotAsleep)
        } else if s.asleep->0 > log.minute || (s.asleep->0 < log.minute && log.minute > 60) {
            Err(ShiftError::BadMinutes)
        } else {
            Ok(
                Shift {
                    guards: s.guards.insert(s.guard_id, slept(s.guards[s.guard_id], s.asleep->0, log.minute)),
                    ..s
                },
            )
        },
    }
}

/// The count after all entries of `logs`, in their order; the first entry
/// that cannot be counted ends it.
pub open spec fn after_logs(logs: Seq<Log>) -> Result<Shift, ShiftError>
    decreases logs.len(),
{
    if logs.len() == 0 {
        Ok(Shift { guards: Map::empty(), guard_id: 0, asleep: None })
    } else {
        match after_logs(logs.drop_last()) {
            Ok(s) => after_log(s, logs.last()),
            Err(e) => Err(e),
        }
    }
}

/// The sleep of each guard of `map`.
pub open spec fn sleeps(map: Map<u32, GuardSleeping>) -> Map<u32, Sleep> {
    Map::new(|id: u32| map.contains_key(id), |id: u32| map[id]@)
}

/// Counts the sleep of every guard from the log.
pub fn build_guards_map(logs: &Vec<Log>) -> (r: Result<HashMap<u32, GuardSleeping>, ShiftError>)
    requires
        logs@.len() <= 0xff_ffff,
    ensures
        match r {
            Ok(map) => after_logs(logs@) is Ok && sleeps(map@) == after_logs(logs@)->Ok_0.guards,
            Err(e) => after_logs(logs@) == Err::<Shift, ShiftError>(e),
        },
{
    let mut map: HashMap<u32, GuardSleeping> = HashMap::new();
    let mut cur_guard_id: u32 = 0;
    let mut asleep_minute: Option<u8> = None;
    proof {
        assert(sleeps(map@) =~= Map::empty());
    }

    for i in 0..logs.len()
        invariant
            logs@.len() <= 0xff_ffff,
            after_logs(logs@.take(i as int)) == Ok::<Shift, ShiftError>(
                Shift { guards: sleeps(map@), guard_id: cur_guard_id, asleep: asleep_minute },
            ),
            forall|id: u32| #[trigger] map@.contains_key(id) ==> sleep_within(map@[id]@, i as nat),
    {
        let log = logs[i];
        let ghost before = Shift { guards: sleeps(map@), guard_id: cur_guard_id, asleep: asleep_minute };
        let ghost map0 = map@;
        proof {
            assert(logs@.take(i + 1).drop_last() =~= logs@.take(i as int));
            assert(logs@.take(i + 1).last() == log);
            assert(after_logs(logs@.take(i + 1)) == after_log(before, log));
        }
        match log.typ {
            LogType::BeginShift(guard_id) => {
                if !map.contains_key(&guard_id) {
                    let guard = GuardSleeping { sleep_records: [0;60], total_minutes: 0 };
                    assert(guard@.records =~= awake().records);
                    map.insert(guard_id, guard);
                    assert(sleeps(map@) =~= before.guards.insert(guard_id, awake()));
                }
                cur_guard_id = guard_id;
            },
            LogType::FallsAsleep => {
                asleep_minute = Some(log.minute);
            },
            LogType::WakesUp => {
                if !map.contains_key(&cur_guard_id) {
                    proof {
                        lemma_error_stays(logs@, i as int + 1);
                    }
                    return Err(ShiftError::NoGuard);
                }
                let start = match asleep_minute {
                    Some(m) => m,
                    None => {
                        proof {
                            lemma_error_stays(logs@, i as int + 1);
                        }
                        return Err(ShiftError::NotAsleep);
                    },
                };
                if start > log.minute || (start < log.minute && log.minute > 60) {
                    proof {
                        lemma_error_stays(logs@, i as int + 1);
                    }
                    return Err(ShiftError::BadMinutes);
                }
                if start < log.minute {
                    let mut guard = *map.get(&cur_guard_id).unwrap();
                    assert(sleep_within(guard@, i as nat));
                    guard.add_sleepy_time(start, log.minute);
                    map.insert(cur_guard_id, guard);
                } else {
                    assert(slept(map@[cur_guard_id]@, start, log.minute) == map@[cur_guard_id]@) by {
                        assert(slept(map@[cur_guard_id]@, start, log.minute).records
                            =~= map@[cur_guard_id]@.records);
                    }
                }
                assert(sleeps(map@) =~= before.guards.insert(
                    cur_guard_id,
                    slept(before.guards[cur_guard_id], start, log.minute),
                ));
            },
        }
    }
    assert(logs@.take(logs@.len() as int) =~= logs@);
    Ok(map)
}

/// Once an entry cannot be counted, the log cannot.
pub proof fn lemma_error_stays(logs: Seq<Log>, k: int)
    requires
        0 <= k <= logs.len(),
        after_logs(logs.take(k)) is Err,
    ensures
        after_logs(logs) == after_logs(logs.take(k)),
    decreases logs.len() - k,
{
    if k < logs.len() {
        assert(logs.take(k + 1).drop_last() =~= logs.take(k));
        lemma_error_stays(logs, k + 1);
    } else {
        assert(logs.take(k) =~= logs);
    }
}

/// The guard and the minute to pick.
#[derive(Clone, Copy, Debug, PartialEq, Eq, Structural)]
pub struct Pick {
    pub guard_id: u32,
    pub minute: usize,
    /// How often the guard was asleep in that minute.
    pub value: u32,
}

impl Pick {
    /// The number of the guard times the minute.
    pub fn product(&self) -> (p: u64)
        requires
            self.minute < 60,
        ensures
            p == self.guard_id * self.minute,
    {
        assert(self.guard_id * self.minute <= 0xffff_ffff * 60) by (nonlinear_arith)
            requires
                self.guard_id <= 0xffff_ffff,
                self.minute < 60,
        ;
        (self.guard_id as u64) * (self.minute as u64)
    }
}

/// `m` is the last of the minutes in which the guard was asleep most often.
pub open spec fn is_sleepiest_minute(s: Sleep, m: int) -> bool {
    &&& 0 <= m < 60
    &&& forall|i: int| 0 <= i < 60 ==> s.records[i] <= s.records[m]
    &&& forall|i: int| m < i < 60 ==> s.records[i] < s.records[m]
}

/// The last of the minutes in which the guard was asleep most often.
pub fn sleepiest_minute(guard: &GuardSleeping) -> (m: usize)
    ensures
        is_sleepiest_minute(guard@, m as int),
{
    let mut best: usize = 0;
    for i in 1..60usize
        invariant
            0 <= best < i,
            forall|j: int| 0 <= j < i ==> guard.sleep_records@[j] <= guard.sleep_records@[best as int],
            forall|j: int| best < j < i ==> guard.sleep_records@[j] < guard.sleep_records@[best as int],
    {
        if guard.sleep_records[i] >= guard.sleep_records[best] {
            best = i;
        }
    }
    best
}

/// A guard that was asleep for the most minutes in all, and the minute in
/// which that guard was asleep most often.  Where several guards were
/// asleep for the most minutes, any of them can be the one.
pub fn part1(map: &HashMap<u32, GuardSleeping>) -> (pick: Pick)
    requires
        map@.len() > 0,
    ensures
        map@.contains_key(pick.guard_id),
        forall|id: u32| #[trigger] map@.contains_key(id) ==> map@[id].total_minutes <= map@[pick.guard_id].total_minutes,
        is_sleepiest_minute(map@[pick.guard_id]@, pick.minute as int),
        pick.value == map@[pick.guard_id].sleep_records@[pick.minute as int],
{
    let mut best_id: u32 = 0;
    let mut best_total: u32 = 0;
    let mut found = false;
    let ghost mut seen: Set<u32> = Set::empty();
    for entry in it: map.iter()
        invariant
            it.seq() == vstd::std_specs::hash::spec_hash_map_iter(map).remaining(),
            forall|j: int| 0 <= j < it.index() ==> seen.contains(*(#[trigger] it.seq()[j]).0),
            forall|id: u32| #[trigger] seen.contains(id) ==> map@.contains_key(id) && map@[id].total_minutes <= best_total,
            found ==> map@.contains_key(best_id) && map@[best_id].total_minutes == best_total,
            !found ==> it.index() == 0 && seen =~= Set::<u32>::empty(),
    {
        proof {
            assert(it.seq()[it.index()] == entry);
            assert(map@.contains_key(*entry.0) && map@[*entry.0] == *entry.1);
            seen = seen.insert(*entry.0);
        }
        if !found || entry.1.total_minutes >= best_total {
            best_id = *entry.0;
            best_total = entry.1.total_minutes;
            found = true;
        }
    }
    proof {
        let all = vstd::std_specs::hash::spec_hash_map_iter(map).remaining();
        assert forall|id: u32| #[trigger] map@.contains_key(id) implies seen.contains(id) by {
            assert(all.contains((&id, &map@[id])));
            let j = choose|j: int| 0 <= j < all.len() && all[j] == (&id, &map@[id]);
            assert(*all[j].0 == id);
        }
        if !found {
            assert(all.len() == 0);
            assert(map@.dom().len() == 0);
        }
    }
    let guard = map.get(&best_id).unwrap();
    let minute = sleepiest_minute(guard);
    Pick { guard_id: best_id, minute, value: guard.sleep_records[minute] }
}

/// The guard was asleep in no minute more often than `limit`.
pub open spec fn all_at_most(s: Sleep, limit: u32) -> bool {
    forall|m: int| 0 <= m < 60 ==> #[trigger] s.records[m] <= limit
}

/// A guard and a minute such that no guard was asleep more often in any
/// minute; of the minutes of that guard, the first such.  Where no guard
/// was asleep at all, guard 0 and minute 0.
pub fn part2(map: &HashMap<u32, GuardSleeping>) -> (pick: Pick)
    ensures
        forall|id: u32| #[trigger] map@.contains_key(id) ==> all_at_most(map@[id]@, pick.value),
        pick.value == 0 ==> pick.guard_id == 0 && pick.minute == 0,
        pick.value > 0 ==> map@.contains_key(pick.guard_id) && pick.minute < 60 && map@[pick.guard_id].sleep_records@[pick.minute as int]
            == pick.value && forall|m: int|
            0 <= m < pick.minute ==> map@[pick.guard_id].sleep_records@[m] < pick.value,
{
    // guard with current max
    let mut max_guard_id: u32 = 0;
    // minute of guard with current max
    let mut max_minute: usize = 0;
    // current max
    let mut max: u32 = 0;
    let ghost mut seen: Set<u32> = Set::empty();

    // across all guards and all minutes, find max
    for entry in it: map.iter()
        invariant
            it.seq() == vstd::std_specs::hash::spec_hash_map_iter(map).remaining(),
            forall|j: int| 0 <= j < it.index() ==> seen.contains(*(#[trigger] it.seq()[j]).0),
            forall|id: u32| #[trigger]
                seen.contains(id) ==> map@.contains_key(id) && all_at_most(map@[id]@, max),
            max == 0 ==> max_guard_id == 0 && max_minute == 0,
            max > 0 ==> map@.contains_key(max_guard_id) && max_minute < 60 && map@[max_guard_id].sleep_records@[max_minute as int]
                == max && forall|m: int| 0 <= m < max_minute ==> map@[max_guard_id].sleep_records@[m] < max,
    {
        let guard = entry.1;
        let guard_id = *entry.0;
        proof {
            assert(it.seq()[it.index()] == entry);
            assert(map@.contains_key(guard_id) && map@[guard_id] == *guard);
        }
        let ghost max0 = max;
        for minute_nb in 0..60usize
            invariant
                map@.contains_key(guard_id) && map@[guard_id] == *guard,
                max0 <= max,
                forall|id: u32| #[trigger]
                    seen.contains(id) ==> map@.contains_key(id) && all_at_most(map@[id]@, max0),
                forall|m: int| 0 <= m < minute_nb ==> guard.sleep_records@[m] <= max,
                max == 0 ==> max_guard_id == 0 && max_minute == 0,
                max > 0 ==> map@.contains_key(max_guard_id) && max_minute < 60
                    && map@[max_guard_id].sleep_records@[max_minute as int] == max && forall|m: int|
                    0 <= m < max_minute ==> map@[max_guard_id].sleep_records@[m] < max,
        {
            let val = guard.sleep_records[minute_nb];
            if val > max {
                max_guard_id = guard_id;
                max_minute = minute_nb;
                max = val;
            }
        }
        proof {
            seen = seen.insert(guard_id);
        }
    }
    proof {
        let all = vstd::std_specs::hash::spec_hash_map_iter(map).remaining();
        assert forall|id: u32| #[trigger] map@.contains_key(id) implies seen.contains(id) by {
            assert(all.contains((&id, &map@[id])));
            let j = choose|j: int| 0 <= j < all.len() && all[j] == (&id, &map@[id]);
            assert(*all[j].0 == id);
        }
    }
    Pick { guard_id: max_guard_id, minute: max_minute, value: max }
}

} // verus!
