use brick_road::calendar::{
    column_to_day, date_to_day, day_to_column, day_to_date, effort_to_calendar_days, holiday_columns,
    holiday_offset, today_marker_day, unix_secs_to_date,
};
use brick_road::date::Date;
use brick_road::model::{CalendarConfig, NonWorkingDate};

fn ymd(y: i32, m: u32, d: u32) -> Date {
    Date::from_ymd_opt(y, m, d).unwrap()
}

fn mon_fri_config() -> CalendarConfig {
    CalendarConfig {
        start_date: ymd(2025, 1, 6), // Monday
        working_days_per_week: 5,
        non_working_dates: vec![],
    }
}

fn with_holiday(start: Date, holiday: Date) -> CalendarConfig {
    CalendarConfig {
        start_date: start,
        working_days_per_week: 5,
        non_working_dates: vec![NonWorkingDate { date: holiday, description: String::new() }],
    }
}

#[test]
fn day_zero_is_start_date() {
    let cfg = mon_fri_config();
    assert_eq!(day_to_date(0, &cfg), cfg.start_date);
}

#[test]
fn five_days_skips_weekend() {
    let cfg = mon_fri_config();
    // Mon Jan 6 + 5 working days = Mon Jan 13
    assert_eq!(day_to_date(5, &cfg), ymd(2025, 1, 13));
}

#[test]
fn one_day_from_friday_is_monday() {
    let cfg = CalendarConfig {
        start_date: ymd(2025, 1, 10), // Friday
        working_days_per_week: 5,
        non_working_dates: vec![],
    };
    assert_eq!(day_to_date(1, &cfg), ymd(2025, 1, 13));
}

#[test]
fn holiday_is_skipped() {
    let cfg = with_holiday(ymd(2025, 1, 6), ymd(2025, 1, 7));
    // 1 working day after Mon Jan 6, skipping Tue Jan 7 → Wed Jan 8
    assert_eq!(day_to_date(1, &cfg), ymd(2025, 1, 8));
}

#[test]
fn six_day_week_includes_saturday() {
    let cfg = CalendarConfig {
        start_date: ymd(2025, 1, 10), // Friday
        working_days_per_week: 6,
        non_working_dates: vec![],
    };
    assert_eq!(day_to_date(1, &cfg), ymd(2025, 1, 11));
}

#[test]
fn date_to_day_roundtrip() {
    let cfg = mon_fri_config();
    for day in [0, 1, 5, 10, 20] {
        let date = day_to_date(day, &cfg);
        assert_eq!(date_to_day(date, &cfg), day, "roundtrip failed for day {day}");
    }
}

#[test]
fn date_to_day_negative() {
    let cfg = CalendarConfig {
        start_date: ymd(2025, 1, 13), // Monday
        working_days_per_week: 5,
        non_working_dates: vec![],
    };
    assert_eq!(date_to_day(ymd(2025, 1, 6), &cfg), -5);
}

#[test]
fn effort_to_calendar_days_basic() {
    let cfg = mon_fri_config();
    // 5 working days starting Monday = 7 calendar days
    assert_eq!(effort_to_calendar_days(5, cfg.start_date, &cfg), 7);
}

#[test]
fn day_to_x_is_identity_without_holidays() {
    let cfg = mon_fri_config();
    let off = cfg.global_off_days();
    for d in [0, 1, 5, 20] {
        assert_eq!(day_to_column(d, &off, &cfg), d);
        assert_eq!(column_to_day(day_to_column(d, &off, &cfg), &off, &cfg), d);
    }
}

#[test]
fn holiday_inserts_a_column_after_its_boundary() {
    // Mon Jan 6 start; make Wed Jan 8 (working day 2) a holiday.
    let holiday = ymd(2025, 1, 8);
    let cfg = with_holiday(ymd(2025, 1, 6), holiday);
    let off = cfg.global_off_days();
    // date_to_day(Jan 8) = 1, boundary = 2: days before it are unshifted.
    assert_eq!(day_to_column(1, &off, &cfg), 1);
    assert_eq!(day_to_column(2, &off, &cfg), 3);
    // The holiday column sits between them, at visual index 2.
    let cols = holiday_columns(&cfg, 20);
    assert_eq!(cols.len(), 1);
    assert_eq!(cols[0].0, 2);
    assert_eq!(cols[0].1, holiday);
    // Inverse: a column inside the holiday resolves to the prior working day.
    assert_eq!(column_to_day(2, &off, &cfg), 1);
    assert_eq!(column_to_day(3, &off, &cfg), 2);
}

#[test]
fn weekend_holiday_inserts_no_column() {
    let cfg = with_holiday(ymd(2025, 1, 6), ymd(2025, 1, 11)); // a Saturday
    let off = cfg.global_off_days();
    assert!(holiday_columns(&cfg, 20).is_empty());
    assert_eq!(day_to_column(5, &off, &cfg), 5);
}

#[test]
fn explicit_extra_off_day_shifts_day_to_x_by_one_column() {
    let cfg = mon_fri_config();
    let global = cfg.global_off_days();
    assert!(global.is_empty());
    let mut augmented = cfg.global_off_days();
    augmented.insert(ymd(2025, 1, 8));
    assert_eq!(
        day_to_column(2, &augmented, &cfg),
        day_to_column(2, &global, &cfg),
        "day 2 (before the inserted column) is unshifted"
    );
    assert_eq!(
        day_to_column(3, &augmented, &cfg),
        day_to_column(3, &global, &cfg) + 1,
        "day 3 shifts one column for the explicit off-day"
    );
    assert!(cfg.non_working_dates.is_empty());
}

#[test]
fn unix_secs_to_date_epoch_is_jan_1_1970() {
    assert_eq!(unix_secs_to_date(0), ymd(1970, 1, 1));
}

#[test]
fn unix_secs_to_date_one_day() {
    assert_eq!(unix_secs_to_date(86400), ymd(1970, 1, 2));
}

#[test]
fn unix_secs_to_date_leap_day_2000() {
    let secs = 946684800 + 59 * 86400;
    assert_eq!(unix_secs_to_date(secs), ymd(2000, 2, 29));
}

#[test]
fn unix_secs_to_date_modern_date() {
    assert_eq!(unix_secs_to_date(1_736_121_600), ymd(2025, 1, 6));
}

#[test]
fn today_marker_advances_past_finished_week_on_weekend() {
    let cfg = mon_fri_config();
    let fri = ymd(2025, 1, 17);
    let sat = ymd(2025, 1, 18);
    let sun = ymd(2025, 1, 19);
    assert_eq!(today_marker_day(fri, &cfg), date_to_day(fri, &cfg));
    let after_fri = date_to_day(fri, &cfg) + 1;
    assert_eq!(today_marker_day(sat, &cfg), after_fri);
    assert_eq!(today_marker_day(sun, &cfg), after_fri);
}

// ── further cases ───────────────────────────────────────────────────────────

#[test]
fn day_to_date_negative_steps_back_over_weekend() {
    let cfg = mon_fri_config();
    // One working day before Mon Jan 6 is Fri Jan 3.
    assert_eq!(day_to_date(-1, &cfg), ymd(2025, 1, 3));
    assert_eq!(date_to_day(ymd(2025, 1, 3), &cfg), -1);
}

#[test]
fn date_to_day_of_weekend_counts_completed_days() {
    let cfg = mon_fri_config();
    // Saturday Jan 11: Tue..Fri are four working days after Monday.
    assert_eq!(date_to_day(ymd(2025, 1, 11), &cfg), 4);
}

#[test]
fn holiday_offset_counts_columns_before_day() {
    let cfg = with_holiday(ymd(2025, 1, 6), ymd(2025, 1, 8));
    let off = cfg.global_off_days();
    assert_eq!(holiday_offset(1, &off, &cfg), 0);
    assert_eq!(holiday_offset(2, &off, &cfg), 1);
    assert_eq!(holiday_offset(30, &off, &cfg), 1);
}

#[test]
fn adjacent_holidays_get_adjacent_columns() {
    let cfg = CalendarConfig {
        start_date: ymd(2025, 1, 6),
        working_days_per_week: 5,
        non_working_dates: vec![
            NonWorkingDate { date: ymd(2025, 1, 9), description: "b".to_string() },
            NonWorkingDate { date: ymd(2025, 1, 8), description: "a".to_string() },
        ],
    };
    let cols = holiday_columns(&cfg, 20);
    assert_eq!(cols.len(), 2);
    // Both share boundary 2 (Tue Jan 7 is day 1); earliest date leftmost.
    assert_eq!(cols[0].1, ymd(2025, 1, 8));
    assert_eq!(cols[0].2, "a");
    assert_eq!(cols[1].1, ymd(2025, 1, 9));
    assert_eq!(cols[0].0 + 1, cols[1].0);
    let off = cfg.global_off_days();
    assert_eq!(cols[1].0 + 1, day_to_column(2, &off, &cfg));
}

#[test]
fn column_round_trip_with_holidays() {
    let cfg = with_holiday(ymd(2025, 1, 6), ymd(2025, 1, 8));
    let off = cfg.global_off_days();
    for d in -3..15 {
        assert_eq!(column_to_day(day_to_column(d, &off, &cfg), &off, &cfg), d);
    }
}

#[test]
fn iso_text_pads_and_signs_the_year() {
    assert_eq!(ymd(2025, 3, 7).iso_text(), "2025-03-07");
    assert_eq!(ymd(987, 12, 31).iso_text(), "0987-12-31");
    assert_eq!(ymd(0, 1, 1).iso_text(), "0000-01-01");
    assert_eq!(ymd(-1, 6, 15).iso_text(), "-0001-06-15");
    assert_eq!(ymd(12345, 1, 2).iso_text(), "+12345-01-02");
}

#[test]
fn iso_text_reads_back() {
    for d in [ymd(2025, 3, 7), ymd(0, 1, 1), ymd(-1, 6, 15), ymd(12345, 1, 2), ymd(-262143, 1, 1), ymd(262142, 12, 31)] {
        assert_eq!(Date::parse_iso(&d.iso_text()), Some(d));
    }
}

#[test]
fn month_abbreviations_are_english() {
    let names: Vec<String> = (1..=12).map(|m| ymd(2025, m, 1).month_abbrev()).collect();
    assert_eq!(names, vec!["Jan", "Feb", "Mar", "Apr", "May", "Jun", "Jul", "Aug", "Sep", "Oct", "Nov", "Dec"]);
}

#[test]
fn naive_date_conversion_keeps_the_day_number() {
    let nd = chrono::NaiveDate::from_ymd_opt(2025, 1, 1).unwrap();
    let d = Date::from_naive(nd);
    assert_eq!(d.day_number(), 739252);
    assert_eq!(d.to_naive(), nd);
    let first = Date::from_ymd_opt(1, 1, 1).unwrap();
    assert_eq!(first.to_naive(), chrono::NaiveDate::from_ymd_opt(1, 1, 1).unwrap());
    assert_eq!(Date::from_naive(first.to_naive()), first);
}

#[test]
fn days_near_the_last_date_still_convert() {
    let mut m = brick_road::model::Model::default();
    m.calendar.start_date = Date::from_ymd_opt(262142, 12, 1).unwrap();
    let c = &m.calendar;
    // Ten working days after the start stay inside the range.
    assert!(brick_road::calendar::day_convertible(c, 10));
    let d = brick_road::calendar::day_to_date(10, c);
    assert_eq!(brick_road::calendar::date_to_day(d, c), 10);
    // A hundred working days would run past 262142-12-31.
    assert!(!brick_road::calendar::day_convertible(c, 100));
    assert!(!brick_road::calendar::day_convertible(c, i32::MAX));
    assert!(brick_road::calendar::day_convertible(c, -1000));
}
