use advent2018::fabric;
use advent2018::fabric::Claim;
use advent2018::frequency;
use advent2018::frequency::FrequencyError;
use advent2018::guards;
use advent2018::guards::{Date, Log, LogType, ShiftError};
use advent2018::inventory;
use advent2018::marbles::play_game;
use advent2018::scan::ParseError;
use std::cmp::Ordering;

fn strings(lines: &[&str]) -> Vec<String> {
    lines.iter().map(|l| l.to_string()).collect()
}

#[test]
fn frequency_sums_the_changes() {
    assert_eq!(frequency::part1(&strings(&["+1", "-2", "+3", "+1"])), Ok(3));
    assert_eq!(frequency::run(&strings(&["+1", "+1", "+1"])), Ok(3));
    assert_eq!(frequency::run(&strings(&["+1", "+1", "-2"])), Ok(0));
    assert_eq!(frequency::part1(&strings(&["-1", "-2", "-3"])), Ok(-6));
    assert_eq!(frequency::part1(&Vec::new()), Ok(0));
}

#[test]
fn frequency_reports_the_first_bad_line() {
    assert_eq!(frequency::part1(&strings(&["+1", "x", "y"])), Err(FrequencyError::Parse(1)));
    assert_eq!(frequency::part1(&strings(&["2147483647", "+1", "x"])), Err(FrequencyError::Overflow(1)));
    assert_eq!(frequency::part1(&strings(&["-2147483648", "-1"])), Err(FrequencyError::Overflow(1)));
    assert_eq!(frequency::run(&strings(&[""])), Err(FrequencyError::Parse(0)));
    assert_eq!(frequency::part2(&strings(&["+1", "x"]), 3), Err(FrequencyError::Parse(1)));
    assert_eq!(frequency::part2(&strings(&["2147483647", "+1"]), 3), Err(FrequencyError::Overflow(1)));
}

#[test]
fn frequency_reached_twice() {
    assert_eq!(frequency::part2(&strings(&["+1", "-2", "+3", "+1"]), 10), Ok(Some(2)));
    assert_eq!(frequency::part2(&strings(&["+3", "+3", "+4", "-2", "-4"]), 10), Ok(Some(10)));
    assert_eq!(frequency::part2(&strings(&["-6", "+3", "+8", "+5", "-6"]), 10), Ok(Some(5)));
    assert_eq!(frequency::part2(&strings(&["+7", "+7", "-2", "-7", "-4"]), 10), Ok(Some(14)));
    // the frequency at the start is not one that was reached
    assert_eq!(frequency::part2(&strings(&["+1", "-1"]), 10), Ok(Some(1)));
    // a repeat is found before the bad line is read
    assert_eq!(frequency::part2(&strings(&["+1", "-1", "+1", "x"]), 10), Ok(Some(1)));
}

#[test]
fn frequency_search_gives_up_after_the_rounds() {
    assert_eq!(frequency::part2(&strings(&["+1"]), 100), Ok(None));
    assert_eq!(frequency::part2(&strings(&["+1", "-2", "+3", "+1"]), 1), Ok(None));
    assert_eq!(frequency::part2(&strings(&["+1", "-2", "+3", "+1"]), 0), Ok(None));
    assert_eq!(frequency::part2(&Vec::new(), 5), Ok(None));
}

#[test]
fn inventory_checksum_is_twelve() {
    let labels = strings(&["abcdef", "bababc", "abbcde", "abcccd", "aabcdd", "abcdee", "ababab"]);
    assert_eq!(inventory::part1(&labels), 12);
    assert_eq!(inventory::part1(&strings(&["aa", "bbb"])), 1);
    assert_eq!(inventory::part1(&strings(&["aa", "bb"])), 0);
    assert_eq!(inventory::part1(&Vec::new()), 0);
}

#[test]
fn inventory_counts_letters() {
    let line: Vec<char> = "bababc".chars().collect();
    let counts = inventory::count_letters(&line);
    assert_eq!(counts.len(), 3);
    assert_eq!(counts[&('b' as u32)], 3);
    assert_eq!(counts[&('a' as u32)], 2);
    assert_eq!(counts[&('c' as u32)], 1);
    assert!(inventory::has_count(&line, &counts, 1));
    assert!(inventory::has_count(&line, &counts, 2));
    assert!(inventory::has_count(&line, &counts, 3));
    assert!(!inventory::has_count(&line, &counts, 4));
    assert_eq!(inventory::chars_of("héé"), vec!['h', 'é', 'é']);
    assert_eq!(inventory::all_chars(&strings(&["ab", ""])), vec![vec!['a', 'b'], vec![]]);
}

#[test]
fn inventory_common_letters() {
    let labels = strings(&["abcde", "fghij", "klmno", "pqrst", "fguij", "axcye", "wvxyz"]);
    assert_eq!(inventory::part2(&labels), Some("fgij".to_string()));
    assert_eq!(inventory::part2(&strings(&["abc", "xyz"])), None);
    assert_eq!(inventory::part2(&Vec::new()), None);
    // the letters that are left need not have stood at the same places
    assert_eq!(inventory::part2(&strings(&["abc", "bca"])), Some("bc".to_string()));
    // a label does not match itself
    assert_eq!(inventory::part2(&strings(&["aab"])), None);
    assert_eq!(inventory::part2(&strings(&["a", "b"])), Some(String::new()));
}

#[test]
fn inventory_compares_without_one_letter() {
    let a: Vec<char> = "fghij".chars().collect();
    let b: Vec<char> = "fguij".chars().collect();
    assert!(inventory::same_without(&a, 2, &b, 2));
    assert!(!inventory::same_without(&a, 1, &b, 2));
    let lines = vec![a.clone(), b.clone()];
    assert!(inventory::seen_before(&lines, 1, 2));
    assert!(!inventory::seen_before(&lines, 1, 3));
    assert!(!inventory::seen_before(&lines, 0, 2));
}

fn claims_example() -> Vec<Claim> {
    ["#1 @ 1,3: 4x4", "#2 @ 3,1: 4x4", "#3 @ 5,5: 2x2"].iter().map(|l| Claim::from_str(l).unwrap()).collect()
}

#[test]
fn claim_from_str() {
    assert_eq!(Claim::from_str("#123 @ 3,2: 5x4"), Ok(Claim { id: 123, x: 3, y: 2, width: 5, height: 4 }));
    assert_eq!(Claim::from_str("123 @ 3,2: 5x4"), Err(ParseError { field: 0 }));
    assert_eq!(Claim::from_str("#123 @ 3;2: 5x4"), Err(ParseError { field: 2 }));
    assert_eq!(Claim::from_str("#123 @ 3,2: 5x"), Err(ParseError { field: 4 }));
    assert_eq!(Claim::from_str("#123 @ 3,2: 5x-4"), Err(ParseError { field: 4 }));
    assert_eq!(Claim::from_str("#4294967296 @ 3,2: 5x4"), Err(ParseError { field: 0 }));
    let fields = strings(&["1", "2", "3"]);
    assert_eq!(Claim::from_fields(&fields), Err(ParseError { field: 3 }));
    assert_eq!(fabric::parse_u32_fields(&fields, 3), Ok(vec![1, 2, 3]));
    assert_eq!(fabric::parse_u32_fields(&fields, 0), Ok(Vec::new()));
}

#[test]
fn claim_points_go_column_by_column() {
    let claim = Claim { id: 1, x: 3, y: 2, width: 2, height: 3 };
    let mut it = claim.iter_points();
    let mut points = Vec::new();
    while let Some(p) = it.next() {
        points.push(p);
    }
    assert_eq!(points, vec![(3, 2), (3, 3), (3, 4), (4, 2), (4, 3), (4, 4)]);
    assert_eq!(it.next(), None);
    let flat = Claim { id: 2, x: 3, y: 2, width: 2, height: 0 };
    assert_eq!(flat.iter_points().next(), None);
    let thin = Claim { id: 3, x: 3, y: 2, width: 0, height: 2 };
    assert_eq!(thin.iter_points().next(), None);
}

#[test]
fn claims_overlap_on_four_squares() {
    let claims = claims_example();
    let grid = fabric::build_grid(&claims);
    assert_eq!(grid.len(), 32);
    assert_eq!(grid[&fabric::key(3, 3)], 2);
    assert_eq!(grid[&fabric::key(1, 3)], 1);
    assert_eq!(grid.get(&fabric::key(0, 0)), None);
    assert_eq!(fabric::key(1, 2), (1u64 << 32) + 2);
    assert_eq!(fabric::part1(&grid), 4);
    assert_eq!(fabric::part1(&fabric::build_grid(&Vec::new())), 0);
}

#[test]
fn third_claim_is_uncontested() {
    let claims = claims_example();
    let grid = fabric::build_grid(&claims);
    assert_eq!(fabric::part2(&claims, &grid), Some(3));
    let both = claims[..2].to_vec();
    assert_eq!(fabric::part2(&both, &fabric::build_grid(&both)), None);
    // a claim without squares overlaps nothing
    let mut empty_first = vec![Claim { id: 9, x: 3, y: 3, width: 0, height: 5 }];
    empty_first.extend(claims);
    assert_eq!(fabric::part2(&empty_first, &fabric::build_grid(&empty_first)), Some(9));
}

fn log_example() -> Vec<Log> {
    [
        "[1518-11-01 00:00] Guard #10 begins shift",
        "[1518-11-01 00:05] falls asleep",
        "[1518-11-01 00:25] wakes up",
        "[1518-11-01 00:30] falls asleep",
        "[1518-11-01 00:55] wakes up",
        "[1518-11-01 23:58] Guard #99 begins shift",
        "[1518-11-02 00:40] falls asleep",
        "[1518-11-02 00:50] wakes up",
        "[1518-11-03 00:05] Guard #10 begins shift",
        "[1518-11-03 00:24] falls asleep",
        "[1518-11-03 00:29] wakes up",
        "[1518-11-04 00:02] Guard #99 begins shift",
        "[1518-11-04 00:36] falls asleep",
        "[1518-11-04 00:46] wakes up",
        "[1518-11-05 00:03] Guard #99 begins shift",
        "[1518-11-05 00:45] falls asleep",
        "[1518-11-05 00:55] wakes up",
    ]
    .iter()
    .map(|l| Log::from_str(l).unwrap())
    .collect()
}

#[test]
fn log_from_str() {
    let log = Log::from_str("[1518-11-01 00:05] falls asleep").unwrap();
    assert_eq!(log.date, Date { year: 1518, month: 11, day: 1 });
    assert_eq!(log.minute, 5);
    assert_eq!(log.typ, LogType::FallsAsleep);
    let log = Log::from_str("[1518-11-01 00:25] wakes up").unwrap();
    assert_eq!(log.typ, LogType::WakesUp);
    assert_eq!(log.minute, 25);
    let log = Log::from_str("[1518-11-01 00:00] Guard #10 begins shift").unwrap();
    assert_eq!(log.typ, LogType::BeginShift(10));
    // the hour before midnight counts for minute 0 of the next day
    let log = Log::from_str("[1518-11-01 23:58] Guard #99 begins shift").unwrap();
    assert_eq!(log.date, Date { year: 1518, month: 11, day: 2 });
    assert_eq!(log.minute, 0);
    assert_eq!(log.typ, LogType::BeginShift(99));
}

#[test]
fn log_from_str_reports_the_bad_field() {
    assert_eq!(Log::from_str("1518-11-01 00:05] falls asleep").err(), Some(ParseError { field: 0 }));
    assert_eq!(Log::from_str("[1518-x-01 00:05] falls asleep").err(), Some(ParseError { field: 1 }));
    assert_eq!(Log::from_str("[1518-11-01 300:05] falls asleep").err(), Some(ParseError { field: 3 }));
    assert_eq!(Log::from_str("[1518-11-01 00:256] falls asleep").err(), Some(ParseError { field: 4 }));
    assert_eq!(Log::from_str("[1518-11-01 00:05]").err(), Some(ParseError { field: 5 }));
    assert_eq!(Log::from_str("[1518-11-01 00:05] sleeps").err(), Some(ParseError { field: 5 }));
    assert_eq!(Log::from_str("[1518-11-01 00:05] Guard #x begins shift").err(), Some(ParseError { field: 5 }));
    assert_eq!(
        Log::from_str("[1518-11-4294967295 23:05] falls asleep").err(),
        Some(ParseError { field: 2 })
    );
    assert_eq!(guards::parse_log_type(&"wakes up".to_string()), Some(LogType::WakesUp));
    assert_eq!(guards::parse_log_type(&"wakes  up".to_string()), None);
    assert_eq!(guards::log_from_fields(&Vec::new()).err(), Some(ParseError { field: 0 }));
}

#[test]
fn logs_compare_by_day_and_minute() {
    let at = |day, minute, typ| Log { date: Date { year: 1518, month: 11, day }, minute, typ };
    let a = at(1, 5, LogType::FallsAsleep);
    let b = at(1, 25, LogType::WakesUp);
    let c = at(2, 0, LogType::BeginShift(3));
    let same = at(1, 5, LogType::WakesUp);
    assert_eq!(a.cmp(&b), Ordering::Less);
    assert_eq!(b.cmp(&a), Ordering::Greater);
    assert_eq!(b.cmp(&c), Ordering::Less);
    assert_eq!(a.cmp(&same), Ordering::Equal);
    assert_eq!(a.partial_cmp(&c), Some(Ordering::Less));
    assert!(a == same);
    assert!(a != b);
    assert!(a < b);
    let later = Log { date: Date { year: 1519, month: 1, day: 1 }, minute: 0, typ: LogType::WakesUp };
    assert_eq!(c.cmp(&later), Ordering::Less);
    let month = Log { date: Date { year: 1518, month: 12, day: 1 }, minute: 0, typ: LogType::WakesUp };
    assert_eq!(month.cmp(&c), Ordering::Greater);
}

#[test]
fn logs_are_sorted_by_time() {
    let mut logs = log_example();
    logs.reverse();
    guards::sort_logs(&mut logs);
    let sorted = log_example();
    assert_eq!(logs.len(), sorted.len());
    for (a, b) in logs.iter().zip(sorted.iter()) {
        assert_eq!(a.date, b.date);
        assert_eq!(a.minute, b.minute);
        assert_eq!(a.typ, b.typ);
    }
}

#[test]
fn sleep_is_counted_per_minute() {
    let mut guard = guards::GuardSleeping { sleep_records: [0; 60], total_minutes: 0 };
    guard.add_sleepy_time(5, 25);
    guard.add_sleepy_time(24, 29);
    guard.add_sleepy_time(59, 60);
    guard.add_sleepy_time(7, 7);
    assert_eq!(guard.total_minutes, 26);
    assert_eq!(guard.sleep_records[4], 0);
    assert_eq!(guard.sleep_records[5], 1);
    assert_eq!(guard.sleep_records[24], 2);
    assert_eq!(guard.sleep_records[25], 1);
    assert_eq!(guard.sleep_records[29], 0);
    assert_eq!(guard.sleep_records[59], 1);
    assert_eq!(guards::sleepiest_minute(&guard), 24);
    let never = guards::GuardSleeping { sleep_records: [0; 60], total_minutes: 0 };
    assert_eq!(guards::sleepiest_minute(&never), 59);
}

#[test]
fn guards_map_of_the_example() {
    let map = guards::build_guards_map(&log_example()).unwrap();
    assert_eq!(map.len(), 2);
    assert_eq!(map[&10].total_minutes, 50);
    assert_eq!(map[&99].total_minutes, 30);
    assert_eq!(map[&10].sleep_records[24], 2);
    assert_eq!(map[&99].sleep_records[45], 3);
    assert_eq!(map[&99].sleep_records[35], 0);
    assert_eq!(guards::build_guards_map(&Vec::new()).unwrap().len(), 0);
}

#[test]
fn guards_map_rejects_a_broken_log() {
    let at = |minute, typ| Log { date: Date { year: 1518, month: 11, day: 1 }, minute, typ };
    let wakes = vec![at(5, LogType::WakesUp)];
    assert_eq!(guards::build_guards_map(&wakes).err(), Some(ShiftError::NoGuard));
    let asleep_first = vec![at(1, LogType::FallsAsleep), at(5, LogType::WakesUp)];
    assert_eq!(guards::build_guards_map(&asleep_first).err(), Some(ShiftError::NoGuard));
    let not_asleep = vec![at(0, LogType::BeginShift(7)), at(5, LogType::WakesUp)];
    assert_eq!(guards::build_guards_map(&not_asleep).err(), Some(ShiftError::NotAsleep));
    let backwards = vec![at(0, LogType::BeginShift(7)), at(9, LogType::FallsAsleep), at(5, LogType::WakesUp)];
    assert_eq!(guards::build_guards_map(&backwards).err(), Some(ShiftError::BadMinutes));
    let past = vec![at(0, LogType::BeginShift(7)), at(9, LogType::FallsAsleep), at(61, LogType::WakesUp)];
    assert_eq!(guards::build_guards_map(&past).err(), Some(ShiftError::BadMinutes));
    // guard 0 is on shift before any shift begins
    let zero = vec![at(0, LogType::BeginShift(0)), at(0, LogType::BeginShift(4)), at(0, LogType::BeginShift(0))];
    assert_eq!(guards::build_guards_map(&zero).unwrap().len(), 2);
    // waking at the minute of falling asleep counts as no sleep, at any minute
    let none = vec![at(0, LogType::BeginShift(7)), at(99, LogType::FallsAsleep), at(99, LogType::WakesUp)];
    assert_eq!(guards::build_guards_map(&none).unwrap()[&7].total_minutes, 0);
    let full = vec![at(0, LogType::BeginShift(7)), at(0, LogType::FallsAsleep), at(60, LogType::WakesUp)];
    assert_eq!(guards::build_guards_map(&full).unwrap()[&7].total_minutes, 60);
}

#[test]
fn guard_ten_sleeps_longest() {
    let map = guards::build_guards_map(&log_example()).unwrap();
    let pick = guards::part1(&map);
    assert_eq!(pick.guard_id, 10);
    assert_eq!(pick.minute, 24);
    assert_eq!(pick.value, 2);
    assert_eq!(pick.product(), 240);
}

#[test]
fn guard_ninety_nine_sleeps_most_in_one_minute() {
    let map = guards::build_guards_map(&log_example()).unwrap();
    let pick = guards::part2(&map);
    assert_eq!(pick.guard_id, 99);
    assert_eq!(pick.minute, 45);
    assert_eq!(pick.value, 3);
    assert_eq!(pick.product(), 4455);
    let nobody = guards::part2(&guards::build_guards_map(&Vec::new()).unwrap());
    assert_eq!(nobody, guards::Pick { guard_id: 0, minute: 0, value: 0 });
    let big = guards::Pick { guard_id: u32::MAX, minute: 59, value: 1 };
    assert_eq!(big.product(), u32::MAX as u64 * 59);
}

#[test]
fn marble_game_high_scores() {
    assert_eq!(play_game(25, 9), 32);
    assert_eq!(play_game(1618, 10), 8317);
    assert_eq!(play_game(7999, 13), 146373);
    assert_eq!(play_game(1104, 17), 2764);
    assert_eq!(play_game(6111, 21), 54718);
    assert_eq!(play_game(5807, 30), 37305);
}

#[test]
fn marble_game_without_a_scoring_marble() {
    assert_eq!(play_game(0, 3), 0);
    assert_eq!(play_game(22, 3), 0);
    assert_eq!(play_game(23, 1), 32);
    assert_eq!(play_game(23, 23), 32);
    assert_eq!(play_game(71250, 452), 388844);
}

#[test]
fn uncontested_claim_is_decided_by_the_values_of_the_grid() {
    let claims = claims_example();
    let mut grid = fabric::build_grid(&claims);
    // a grid that counts a square of the third claim twice
    grid.insert(fabric::key(5, 5), 2);
    assert_eq!(fabric::part2(&claims, &grid), None);
    // a grid that counts every square once
    for value in grid.values_mut() {
        *value = 1;
    }
    assert_eq!(fabric::part2(&claims, &grid), Some(1));
    grid.insert(fabric::key(1, 3), 0);
    assert_eq!(fabric::part2(&claims, &grid), Some(2));
}

#[test]
fn shift_from_fields_reads_the_number_of_the_guard() {
    assert_eq!(guards::shift_from_fields(&strings(&["10"])), Some(LogType::BeginShift(10)));
    assert_eq!(guards::shift_from_fields(&strings(&["+7", "x"])), Some(LogType::BeginShift(7)));
    assert_eq!(guards::shift_from_fields(&strings(&["x"])), None);
    assert_eq!(guards::shift_from_fields(&strings(&["4294967296"])), None);
    assert_eq!(guards::shift_from_fields(&Vec::new()), None);
    assert_eq!(guards::parse_log_type(&"Guard #10 begins shift".to_string()), Some(LogType::BeginShift(10)));
    assert_eq!(guards::parse_log_type(&"Guard 10 begins shift".to_string()), None);
}
