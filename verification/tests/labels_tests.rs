use brick_road::calendar::first_working_day_of_month;
use brick_road::date::Date;
use brick_road::labels::{compute_quarter_ranges, day_label_entries, format_day_label, next_ym};
use brick_road::model::{CalendarConfig, NonWorkingDate};

fn ymd(y: i32, m: u32, d: u32) -> Date {
    Date::from_ymd_opt(y, m, d).unwrap()
}

fn mon_config() -> CalendarConfig {
    CalendarConfig { start_date: ymd(2025, 6, 16), working_days_per_week: 5, non_working_dates: vec![] }
}

#[test]
fn format_day_label_day_zero_shows_start_date() {
    let cfg = mon_config();
    assert_eq!(format_day_label(0, false, &cfg), "Jun 16 '25");
}

#[test]
fn format_day_label_five_working_days_is_next_monday() {
    let cfg = mon_config();
    assert_eq!(format_day_label(5, false, &cfg), "Jun 23 '25");
}

#[test]
fn format_day_label_month_only_shows_abbreviated_month_and_year() {
    let cfg = mon_config();
    assert_eq!(format_day_label(0, true, &cfg), "Jun 2025");
}

#[test]
fn format_day_label_pads_the_year_and_goes_back() {
    let cfg = CalendarConfig { start_date: ymd(2005, 3, 1), working_days_per_week: 5, non_working_dates: vec![] };
    assert_eq!(format_day_label(0, false, &cfg), "Mar 1 '05");
    assert_eq!(format_day_label(-1, false, &cfg), "Feb 28 '05");
}

#[test]
fn next_ym_increments_month() {
    assert_eq!(next_ym(2025, 1), (2025, 2));
    assert_eq!(next_ym(2025, 11), (2025, 12));
}

#[test]
fn next_ym_wraps_december_to_january_of_next_year() {
    assert_eq!(next_ym(2025, 12), (2026, 1));
    assert_eq!(next_ym(1999, 12), (2000, 1));
}

#[test]
fn first_working_day_skips_weekend_and_holiday() {
    let mut cfg = mon_config();
    // 2025-11-01 is a Saturday; Monday the 3rd is a holiday.
    cfg.non_working_dates.push(NonWorkingDate { date: ymd(2025, 11, 3), description: "off".to_string() });
    assert_eq!(first_working_day_of_month(2025, 11, &cfg), Some(ymd(2025, 11, 4)));
    assert_eq!(first_working_day_of_month(2025, 6, &cfg), Some(ymd(2025, 6, 2)));
    assert_eq!(first_working_day_of_month(2025, 13, &cfg), None);
    let none = CalendarConfig { start_date: ymd(2025, 1, 6), working_days_per_week: 0, non_working_dates: vec![] };
    assert_eq!(first_working_day_of_month(2025, 6, &none), None);
}

#[test]
fn quarter_ranges_jan_start_two_years() {
    let cfg = CalendarConfig { start_date: ymd(2025, 1, 6), working_days_per_week: 5, non_working_dates: vec![] };
    let ranges = compute_quarter_ranges(&cfg, 500);
    assert_eq!(ranges.len(), 8, "two full years → 8 quarters");
    assert_eq!(ranges[0].label, "Q1 '25");
    assert_eq!(ranges[3].label, "Q4 '25");
    assert_eq!(ranges[4].label, "Q1 '26");
    assert_eq!(ranges[7].label, "Q4 '26");
}

#[test]
fn quarter_ranges_q4_wraps_to_next_year() {
    let cfg = CalendarConfig { start_date: ymd(2025, 10, 6), working_days_per_week: 5, non_working_dates: vec![] };
    let ranges = compute_quarter_ranges(&cfg, 150);
    assert!(!ranges.is_empty());
    assert_eq!(ranges[0].label, "Q4 '25");
    assert!(ranges.iter().any(|r| r.label == "Q1 '26"), "Q1 '26 should appear after 150 days starting in Oct 2025");
}

#[test]
fn quarter_ranges_zero_span_is_empty() {
    let cfg = mon_config();
    let ranges = compute_quarter_ranges(&cfg, 0);
    assert!(ranges.is_empty(), "span of 0 should produce no labels");
}

#[test]
fn quarter_ranges_columns_meet_at_quarter_starts() {
    let cfg = CalendarConfig { start_date: ymd(2025, 1, 6), working_days_per_week: 5, non_working_dates: vec![] };
    let ranges = compute_quarter_ranges(&cfg, 200);
    // Jan 1 2025 is a Wednesday, three working days before the Monday start.
    assert_eq!(ranges[0].start_column, 0);
    // Apr 1 2025 (Tuesday) is working day 61 from Jan 6.
    assert_eq!(ranges[0].end_column, 61);
    assert_eq!(ranges[1].start_column, 61);
    assert_eq!(ranges[1].label, "Q2 '25");
}

// The ruler's stride comes from the zoom: below 0.25 daily, below 1.0 every
// 5 days, below 3.0 every 10, else every 30 with month labels. These tests
// pass the stride the quoted zoom selects.

const PIXELS_PER_DAY: f32 = 20.0;

#[test]
fn day_labels_daily_stride_at_close_zoom() {
    // zoom 0.1 → step 1; with span 5 we expect days 0..=5+1
    let cfg = mon_config();
    let entries = day_label_entries(&cfg, 5, 1, false, 100);
    let days: Vec<i32> = entries.iter().map(|e| e.day).collect();
    assert_eq!(days, vec![0, 1, 2, 3, 4, 5, 6]);
}

#[test]
fn day_labels_weekly_stride_at_medium_zoom() {
    // zoom 0.5 → step 5; span 20 → days 0,5,10,15,20,25
    let cfg = mon_config();
    let entries = day_label_entries(&cfg, 20, 5, false, 100);
    let days: Vec<i32> = entries.iter().map(|e| e.day).collect();
    assert_eq!(days, vec![0, 5, 10, 15, 20, 25]);
}

#[test]
fn day_labels_biweekly_stride() {
    // zoom 2.0 → step 10; span 20 → days 0,10,20,30
    let cfg = mon_config();
    let entries = day_label_entries(&cfg, 20, 10, false, 100);
    let days: Vec<i32> = entries.iter().map(|e| e.day).collect();
    assert_eq!(days, vec![0, 10, 20, 30]);
}

#[test]
fn day_labels_monthly_stride_at_far_zoom() {
    // zoom 4.0 → step 30, month labels; span 60 → days 0,30,60,90
    let cfg = mon_config();
    let entries = day_label_entries(&cfg, 60, 30, true, 100);
    let days: Vec<i32> = entries.iter().map(|e| e.day).collect();
    assert_eq!(days, vec![0, 30, 60, 90]);
    for e in &entries {
        assert!(!e.label.contains(" '"), "monthly label should not contain \"'YY\": {}", e.label);
    }
    assert_eq!(entries[0].label, "Jun 2025");
}

#[test]
fn day_labels_span_includes_one_extra_step_beyond_duration() {
    let cfg = mon_config();
    let entries = day_label_entries(&cfg, 10, 5, false, 100); // span 15
    assert_eq!(entries.last().unwrap().day, 15, "last label should be at duration + step");
}

#[test]
fn day_labels_x_positions_match_day_to_x() {
    let cfg = mon_config();
    let entries = day_label_entries(&cfg, 10, 5, false, 100);
    let off = cfg.global_off_days();
    for e in &entries {
        assert_eq!(e.column, brick_road::calendar::day_to_column(e.day, &off, &cfg));
    }
}

#[test]
fn day_labels_past_days_dimmed_future_days_bright() {
    // today = 5: days before it are past, the rest are not
    let cfg = mon_config();
    let entries = day_label_entries(&cfg, 10, 5, false, 5);
    for e in &entries {
        assert_eq!(e.past, e.day < 5, "day {}", e.day);
    }
    assert!(entries[0].past);
    assert!(!entries[1].past);
}

#[test]
fn day_labels_zero_span_still_has_day_zero() {
    let cfg = mon_config();
    let entries = day_label_entries(&cfg, 0, 5, false, 100);
    assert!(entries.iter().any(|e| e.day == 0), "day 0 always present");
}

#[test]
fn day_labels_holiday_shifts_x_positions() {
    let mut cfg = mon_config();
    // 2025-06-18 is a Wednesday (working day 2 in this calendar).
    cfg.non_working_dates = vec![NonWorkingDate { date: ymd(2025, 6, 18), description: String::new() }];
    let cfg_no_hol = mon_config();
    let entries_hol = day_label_entries(&cfg, 10, 5, false, 100);
    let entries_plain = day_label_entries(&cfg_no_hol, 10, 5, false, 100);
    let x = |c: i32| c as f32 * PIXELS_PER_DAY;
    let x0_hol = x(entries_hol.iter().find(|e| e.day == 0).unwrap().column);
    let x0_plain = x(entries_plain.iter().find(|e| e.day == 0).unwrap().column);
    assert!((x0_hol - x0_plain).abs() < 0.001, "day 0 unaffected by holiday");
    let x5_hol = x(entries_hol.iter().find(|e| e.day == 5).unwrap().column);
    let x5_plain = x(entries_plain.iter().find(|e| e.day == 5).unwrap().column);
    assert!((x5_hol - x5_plain - PIXELS_PER_DAY).abs() < 0.001, "day 5 shifted right by one holiday column");
}

#[test]
fn day_labels_label_text_matches_format_day_label() {
    let cfg = mon_config();
    let entries = day_label_entries(&cfg, 5, 5, false, 100);
    for e in &entries {
        assert_eq!(e.label, format_day_label(e.day, false, &cfg), "label mismatch at day {}", e.day);
    }
    assert_eq!(entries[1].label, "Jun 23 '25");
}

#[test]
fn day_labels_negative_span_is_empty() {
    let cfg = mon_config();
    assert!(day_label_entries(&cfg, -7, 5, false, 0).is_empty());
}
