use pomodoro_core::codec::{decode_state, encode_state, load_state};
use pomodoro_core::contrib::Contributions;
use pomodoro_core::heatmap::{bucket_color, heatmap_bucket, heatmap_grid, Bucket};
use pomodoro_core::history::{format_history_entry, load_recent_history, split_history};
use pomodoro_core::modes::{duration_of, mode_display_bytes, Mode};
use pomodoro_core::numfmt::format_time;
use pomodoro_core::timer::PomodoroState;

const JAN_15: u32 = 20240115;
const JAN_16: u32 = 20240116;

#[test]
fn bucket_boundaries() {
    assert_eq!(heatmap_bucket(0), Bucket::Empty);
    assert_eq!(heatmap_bucket(1), Bucket::Low);
    assert_eq!(heatmap_bucket(2), Bucket::Low);
    assert_eq!(heatmap_bucket(3), Bucket::Medium);
    assert_eq!(heatmap_bucket(4), Bucket::Medium);
    assert_eq!(heatmap_bucket(5), Bucket::High);
    assert_eq!(heatmap_bucket(6), Bucket::High);
    assert_eq!(heatmap_bucket(7), Bucket::Max);
    assert_eq!(heatmap_bucket(100), Bucket::Max);
}

#[test]
fn bucket_colors() {
    assert_eq!(bucket_color(Bucket::Empty), "#161b22");
    assert_eq!(bucket_color(Bucket::Low), "#0e4429");
    assert_eq!(bucket_color(Bucket::Medium), "#006d32");
    assert_eq!(bucket_color(Bucket::High), "#26a641");
    assert_eq!(bucket_color(Bucket::Max), "#39d353");
}

#[test]
fn durations() {
    assert_eq!(duration_of(Mode::Work), 1500);
    assert_eq!(duration_of(Mode::Short), 300);
    assert_eq!(duration_of(Mode::Long), 900);
}

#[test]
fn fresh_state() {
    let s = PomodoroState::new();
    assert!(!s.is_running);
    assert_eq!(s.mode, Mode::Work);
    assert_eq!(s.remaining, 1500);
    assert_eq!(s.work_sessions, 0);
    assert_eq!(s.contributions.entries.len(), 0);
}

#[test]
fn reset_yields_duration() {
    let mut s = PomodoroState::new();
    s.start();
    s.tick(JAN_15);
    assert_eq!(s.remaining, 1499);
    s.reset(Mode::Short);
    assert!(!s.is_running);
    assert_eq!(s.mode, Mode::Short);
    assert_eq!(s.remaining, 300);
    s.start();
    s.reset(Mode::Long);
    assert!(!s.is_running);
    assert_eq!(s.remaining, 900);
    s.reset(Mode::Work);
    assert_eq!(s.remaining, 1500);
}

#[test]
fn four_sessions_cycle() {
    let mut s = PomodoroState::new();
    let mut modes = vec![s.mode];
    for _ in 0..7 {
        s.complete(JAN_15);
        modes.push(s.mode);
    }
    assert_eq!(
        modes,
        vec![
            Mode::Work,
            Mode::Short,
            Mode::Work,
            Mode::Short,
            Mode::Work,
            Mode::Short,
            Mode::Work,
            Mode::Long,
        ],
    );
    assert_eq!(s.work_sessions, 4);
}

#[test]
fn same_day_counts_twice() {
    let mut s = PomodoroState::new();
    s.complete(JAN_15);
    s.complete(JAN_15);
    s.complete(JAN_15);
    assert_eq!(s.contributions.get(JAN_15), 2);
    assert_eq!(s.work_sessions, 2);
}

#[test]
fn two_days_count_once_each() {
    let mut s = PomodoroState::new();
    s.complete(JAN_15);
    s.complete(JAN_15);
    s.complete(JAN_16);
    assert_eq!(s.contributions.get(JAN_15), 1);
    assert_eq!(s.contributions.get(JAN_16), 1);
}

#[test]
fn break_completion_changes_no_counters() {
    let mut s = PomodoroState::new();
    s.complete(JAN_15);
    assert_eq!(s.mode, Mode::Short);
    let before_sessions = s.work_sessions;
    let before_count = s.contributions.get(JAN_15);
    let ended = s.complete(JAN_15);
    assert_eq!(ended, Mode::Short);
    assert_eq!(s.mode, Mode::Work);
    assert_eq!(s.work_sessions, before_sessions);
    assert_eq!(s.contributions.get(JAN_15), before_count);
    s.reset(Mode::Long);
    s.complete(JAN_15);
    assert_eq!(s.work_sessions, before_sessions);
    assert_eq!(s.contributions.get(JAN_15), before_count);
}

#[test]
fn tick_only_runs_while_running() {
    let mut s = PomodoroState::new();
    assert!(!s.tick(JAN_15));
    assert_eq!(s.remaining, 1500);
    s.start();
    assert!(!s.tick(JAN_15));
    assert_eq!(s.remaining, 1499);
    s.pause();
    assert!(!s.tick(JAN_15));
    assert_eq!(s.remaining, 1499);
}

#[test]
fn tick_at_one_completes() {
    let mut s = PomodoroState {
        is_running: true,
        mode: Mode::Work,
        remaining: 1,
        work_sessions: 0,
        contributions: Contributions::new(),
    };
    let completed = s.tick(JAN_15);
    assert!(completed);
    assert!(!s.is_running);
    assert_eq!(s.mode, Mode::Short);
    assert_eq!(s.remaining, 300);
    assert_eq!(s.work_sessions, 1);
    assert_eq!(s.contributions.get(JAN_15), 1);
}

#[test]
fn time_display() {
    assert_eq!(format_time(1500), b"25:00".to_vec());
    assert_eq!(format_time(59), b"00:59".to_vec());
    assert_eq!(format_time(0), b"00:00".to_vec());
    assert_eq!(format_time(61), b"01:01".to_vec());
}

#[test]
fn encoding_is_exact() {
    let s = PomodoroState::new();
    let bytes = encode_state(&s);
    assert_eq!(
        String::from_utf8(bytes).unwrap(),
        "{\"is_running\":false,\"mode\":\"Work\",\"remaining\":1500,\
         \"work_sessions\":0000000000,\"contributions\":{}}",
    );
}

#[test]
fn encoding_with_entries_is_exact() {
    let mut s = PomodoroState::new();
    s.complete(JAN_15);
    s.reset(Mode::Work);
    s.complete(JAN_16);
    s.reset(Mode::Work);
    s.complete(JAN_16);
    s.reset(Mode::Work);
    let bytes = encode_state(&s);
    assert_eq!(
        String::from_utf8(bytes).unwrap(),
        "{\"is_running\":false,\"mode\":\"Work\",\"remaining\":1500,\
         \"work_sessions\":0000000003,\"contributions\":{\
         \"2024-01-15\":0000000001,\"2024-01-16\":0000000002}}",
    );
}

#[test]
fn state_round_trip() {
    let mut s = PomodoroState::new();
    s.complete(JAN_15);
    s.complete(JAN_15);
    s.complete(JAN_16);
    s.start();
    s.tick(JAN_16);
    s.pause();
    let bytes = encode_state(&s);
    let back = decode_state(&bytes).expect("own encoding reads back");
    assert_eq!(back.is_running, s.is_running);
    assert_eq!(back.mode, s.mode);
    assert_eq!(back.remaining, s.remaining);
    assert_eq!(back.work_sessions, s.work_sessions);
    assert_eq!(back.contributions.entries, s.contributions.entries);
}

#[test]
fn decode_rejects_corrupt_input() {
    assert!(decode_state(&b"".to_vec()).is_none());
    assert!(decode_state(&b"not a state file".to_vec()).is_none());
    assert!(decode_state(&b"{\"is_running\":maybe".to_vec()).is_none());
    // trailing garbage
    let mut bytes = encode_state(&PomodoroState::new());
    bytes.push(b' ');
    assert!(decode_state(&bytes).is_none());
    // an out-of-range countdown
    let text = "{\"is_running\":false,\"mode\":\"Work\",\"remaining\":9000,\
                \"work_sessions\":0000000000,\"contributions\":{}}";
    assert!(decode_state(&text.as_bytes().to_vec()).is_none());
    // an invalid calendar date
    let text = "{\"is_running\":false,\"mode\":\"Work\",\"remaining\":1500,\
                \"work_sessions\":0000000000,\"contributions\":{\"2024-02-31\":0000000001}}";
    assert!(decode_state(&text.as_bytes().to_vec()).is_none());
    // entries out of order
    let text = "{\"is_running\":false,\"mode\":\"Work\",\"remaining\":1500,\
                \"work_sessions\":0000000000,\"contributions\":{\
                \"2024-01-16\":0000000001,\"2024-01-15\":0000000001}}";
    assert!(decode_state(&text.as_bytes().to_vec()).is_none());
}

#[test]
fn load_state_falls_back_to_fresh() {
    let fresh = PomodoroState::new();
    let loaded = load_state(None);
    assert_eq!(loaded.remaining, fresh.remaining);
    assert_eq!(loaded.mode, Mode::Work);
    assert!(!loaded.is_running);
    assert_eq!(loaded.work_sessions, 0);
    assert!(loaded.contributions.entries.is_empty());

    let corrupt = load_state(Some(b"}}}}".to_vec()));
    assert_eq!(corrupt.remaining, 1500);
    assert_eq!(corrupt.work_sessions, 0);
    assert!(corrupt.contributions.entries.is_empty());

    let mut s = PomodoroState::new();
    s.complete(JAN_15);
    let reloaded = load_state(Some(encode_state(&s)));
    assert_eq!(reloaded.mode, s.mode);
    assert_eq!(reloaded.work_sessions, 1);
    assert_eq!(reloaded.contributions.entries, s.contributions.entries);
}

#[test]
fn recent_history_returns_newest_first() {
    let content = b"A\nB\nC\n".to_vec();
    let recent = load_recent_history(&content, 2);
    assert_eq!(recent, vec![b"C".to_vec(), b"B".to_vec()]);
}

#[test]
fn recent_history_handles_short_and_empty_logs() {
    let content = b"A\nB\nC\n".to_vec();
    let recent = load_recent_history(&content, 50);
    assert_eq!(recent, vec![b"C".to_vec(), b"B".to_vec(), b"A".to_vec()]);
    assert!(load_recent_history(&b"".to_vec(), 50).is_empty());
    assert!(load_recent_history(&content, 0).is_empty());
}

#[test]
fn split_keeps_interior_empty_lines() {
    let lines = split_history(&b"A\n\nB".to_vec());
    assert_eq!(lines, vec![b"A".to_vec(), b"".to_vec(), b"B".to_vec()]);
    assert!(split_history(&b"".to_vec()).is_empty());
    assert_eq!(split_history(&b"A\n".to_vec()), vec![b"A".to_vec()]);
}

#[test]
fn history_entry_format() {
    let v = format_history_entry(2024, 1, 15, 9, 5, 3, Mode::Work);
    assert_eq!(String::from_utf8(v).unwrap(), "2024-01-15 09:05:03 \u{2014} Work");
    let v = format_history_entry(2024, 12, 31, 23, 59, 59, Mode::Long);
    assert_eq!(String::from_utf8(v).unwrap(), "2024-12-31 23:59:59 \u{2014} Long Break");
}

#[test]
fn mode_display_names() {
    assert_eq!(mode_display_bytes(Mode::Work), b"Work".to_vec());
    assert_eq!(mode_display_bytes(Mode::Short), b"Short Break".to_vec());
    assert_eq!(mode_display_bytes(Mode::Long), b"Long Break".to_vec());
}

#[test]
fn heatmap_grid_counts_back_from_today() {
    let mut s = PomodoroState::new();
    for _ in 0..3 {
        s.complete(JAN_16);
        s.reset(Mode::Work);
    }
    s.complete(JAN_15);
    let grid = heatmap_grid(&s.contributions, JAN_16);
    assert_eq!(grid.len(), 371);
    assert_eq!(grid[0], Bucket::Medium);
    assert_eq!(grid[1], Bucket::Low);
    assert_eq!(grid[2], Bucket::Empty);
}

#[test]
fn heatmap_grid_crosses_month_and_leap_boundaries() {
    let mut s = PomodoroState::new();
    // 2024 is a leap year: the day before March 1st is February 29th
    s.complete(20240229);
    let grid = heatmap_grid(&s.contributions, 20240301);
    assert_eq!(grid[0], Bucket::Empty);
    assert_eq!(grid[1], Bucket::Low);
    // a year and six days earlier: 2023 is no leap year
    let grid = heatmap_grid(&s.contributions, 20230301);
    assert_eq!(grid[1], Bucket::Empty);
}

#[test]
fn contribution_lookup_and_saturation() {
    let mut c = Contributions::new();
    assert_eq!(c.get(JAN_15), 0);
    c.increment(JAN_15);
    c.increment(JAN_15);
    assert_eq!(c.get(JAN_15), 2);
    assert_eq!(c.get(JAN_16), 0);
    c.increment(JAN_16);
    assert_eq!(c.get(JAN_16), 1);
    assert_eq!(c.entries, vec![(JAN_15, 2), (JAN_16, 1)]);
}

#[test]
fn start_on_ran_out_countdown_is_a_no_op() {
    let mut s = PomodoroState {
        is_running: false,
        mode: Mode::Work,
        remaining: 0,
        work_sessions: 0,
        contributions: Contributions::new(),
    };
    s.start();
    assert!(!s.is_running);
    assert_eq!(s.remaining, 0);
    s.reset(Mode::Work);
    s.start();
    assert!(s.is_running);
    // starting again changes nothing
    s.start();
    assert!(s.is_running);
    assert_eq!(s.remaining, 1500);
}

#[test]
fn clock_parts_become_key_and_entry() {
    let p = pomodoro_core::clock::ClockParts {
        year: 2024,
        month: 1,
        day: 15,
        hour: 9,
        minute: 5,
        second: 3,
    };
    assert_eq!(pomodoro_core::clock::parts_to_key(&p), Some(JAN_15));
    let entry = pomodoro_core::clock::parts_to_entry(&p, Mode::Short).unwrap();
    assert_eq!(
        String::from_utf8(entry).unwrap(),
        "2024-01-15 09:05:03 \u{2014} Short Break",
    );
    let far = pomodoro_core::clock::ClockParts { year: 10000, ..p };
    assert_eq!(pomodoro_core::clock::parts_to_key(&far), None);
    let early = pomodoro_core::clock::ClockParts { year: 0, ..p };
    assert!(pomodoro_core::clock::parts_to_entry(&early, Mode::Work).is_none());
}

#[test]
fn clock_reports_a_storable_date() {
    let key = pomodoro_core::clock::today_key().expect("the clock's year fits four digits");
    // a packed YYYYMMDD key for a first-millennium-or-later date
    assert!(key >= 10101);
    assert!(key <= 99991231);
    let entry = pomodoro_core::clock::now_history_entry(Mode::Work)
        .expect("the clock's year fits four digits");
    let text = String::from_utf8(entry).unwrap();
    assert!(text.ends_with("\u{2014} Work"));
    assert_eq!(text.len(), "YYYY-MM-DD HH:MM:SS".len() + " — Work".len());
}

#[test]
fn wf_checks_accept_library_states_and_reject_bad_ones() {
    let mut s = PomodoroState::new();
    s.complete(JAN_15);
    assert!(s.check_wf());
    let bad = PomodoroState {
        is_running: true,
        mode: Mode::Short,
        remaining: 0,
        work_sessions: 0,
        contributions: Contributions::new(),
    };
    assert!(!bad.check_wf());
    let unsorted = Contributions { entries: vec![(JAN_16, 1), (JAN_15, 1)] };
    assert!(!unsorted.check_wf());
}
