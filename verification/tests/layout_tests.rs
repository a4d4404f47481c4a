use brick_road::calendar::{date_to_day, day_to_column, holiday_columns, DateSet};
use brick_road::date::Date;
use brick_road::layout::{block_edge_columns, block_span_columns, compute_row_offs, fit_label_chars, resource_offday_column};
use brick_road::model::{CalendarConfig, Model, NonWorkingDate, Plan, PlanId, ResourceType, WorkBlock, WorkBlockId};

/// Screen pixels per grid column.
const PIXELS_PER_DAY: f32 = 20.0;

fn date(y: i32, m: u32, d: u32) -> Date {
    Date::from_ymd_opt(y, m, d).unwrap()
}

fn same_set(a: &DateSet, b: &DateSet) -> bool {
    a.len() == b.len() && (0..a.len()).all(|i| b.contains(a.get(i)))
}

fn plan_mut(m: &mut Model, id: PlanId) -> &mut Plan {
    let i = m.plan_position(id).unwrap();
    &mut m.plans[i]
}

fn block(start_day: i32, duration_days: i32) -> WorkBlock {
    WorkBlock {
        id: WorkBlockId(1),
        name: String::new(),
        parent: None,
        start_day,
        duration_days,
        row: 0,
        description: String::new(),
        priority: 0,
        t_shirt_size: None,
        rollup: false,
    }
}

fn x(column: i32) -> f32 {
    column as f32 * PIXELS_PER_DAY
}

/// The default calendar (from 2025-01-01) with one holiday on 2025-01-03,
/// working day 2.
fn calendar_with_holiday() -> CalendarConfig {
    let mut cal = CalendarConfig::default();
    cal.non_working_dates = vec![NonWorkingDate { date: date(2025, 1, 3), description: String::new() }];
    cal
}

fn base_cal() -> CalendarConfig {
    CalendarConfig { start_date: date(2025, 1, 6), working_days_per_week: 5, non_working_dates: vec![] }
}

// ── compute_row_offs ────────────────────────────────────────────────────────

#[test]
fn compute_row_offs_empty_model_returns_global_only() {
    let m = Model::default();
    let (global, row_offs) = compute_row_offs(&m);
    assert!(row_offs.is_empty());
    assert!(same_set(&global, &m.calendar.global_off_days()));
}

#[test]
fn compute_row_offs_resource_with_no_off_days_excluded() {
    let mut m = Model::default();
    let pid = m.create_plan("main", None);
    plan_mut(&mut m, pid).set_row_name(None, 0, "Alice".to_string());
    m.set_resource_kind("Alice", ResourceType::Engineer);
    // Resource exists but has no days off of its own → not in row_offs.
    let (_, row_offs) = compute_row_offs(&m);
    assert!(row_offs.is_empty());
}

#[test]
fn compute_row_offs_resource_off_day_included_in_row() {
    let mut m = Model::default();
    m.calendar.non_working_dates.push(NonWorkingDate { date: date(2025, 12, 25), description: "Xmas".to_string() });
    let pid = m.create_plan("main", None);
    plan_mut(&mut m, pid).set_row_name(None, 2, "Bob".to_string());
    m.set_resource_kind("Bob", ResourceType::Engineer);
    let pto = date(2025, 7, 4);
    let i = m.resource_position("Bob").unwrap();
    m.resource_blocks[i].non_working_dates.push(NonWorkingDate { date: pto, description: "PTO".to_string() });

    let (global, row_offs) = compute_row_offs(&m);
    // Only row 2 has its own set.
    assert_eq!(row_offs.len(), 1);
    assert_eq!(row_offs[0].0, 2);
    let row2_offs = &row_offs[0].1;
    assert!(row2_offs.contains(pto));
    // Global holidays are also present (unioned).
    assert_eq!(global.len(), 1);
    for k in 0..global.len() {
        assert!(row2_offs.contains(global.get(k)));
    }
    assert_eq!(row2_offs.len(), 2);
}

#[test]
fn compute_row_offs_matches_resource_names_ignoring_case_and_skips_blank_rows() {
    let mut m = Model::default();
    let pid = m.create_plan("main", None);
    plan_mut(&mut m, pid).set_row_name(None, 1, "carol".to_string());
    plan_mut(&mut m, pid).set_row_name(None, 3, "Dave".to_string());
    m.set_resource_kind("Carol", ResourceType::Person);
    m.set_resource_kind("Dave", ResourceType::Person);
    for name in ["Carol", "Dave"] {
        let i = m.resource_position(name).unwrap();
        m.resource_blocks[i].non_working_dates.push(NonWorkingDate { date: date(2025, 2, 3), description: String::new() });
        // The same day twice is one day off.
        m.resource_blocks[i].non_working_dates.push(NonWorkingDate { date: date(2025, 2, 3), description: String::new() });
    }
    let (_, row_offs) = compute_row_offs(&m);
    let rows: Vec<i32> = row_offs.iter().map(|(r, _)| *r).collect();
    assert_eq!(rows, vec![1, 3]);
    assert_eq!(row_offs[0].1.len(), 1);
}

#[test]
fn compute_row_offs_ignores_branch_plans() {
    let mut m = Model::default();
    let branch = m.create_plan("branch", Some(10));
    plan_mut(&mut m, branch).set_row_name(None, 0, "Erin".to_string());
    m.set_resource_kind("Erin", ResourceType::Person);
    let i = m.resource_position("Erin").unwrap();
    m.resource_blocks[i].non_working_dates.push(NonWorkingDate { date: date(2025, 2, 4), description: String::new() });
    let (_, row_offs) = compute_row_offs(&m);
    assert!(row_offs.is_empty());
}

// ── block_edge_columns / block_span_columns ─────────────────────────────────

#[test]
fn block_edges_x_no_holidays_simple() {
    let wb = block(0, 5);
    let cal = CalendarConfig::default(); // no holidays
    let (left, right) = block_edge_columns(&wb, &cal.global_off_days(), &cal);
    assert!((x(left) - 0.0).abs() < 0.001, "left at day 0");
    assert!((x(right) - 5.0 * PIXELS_PER_DAY).abs() < 0.001, "right at day 5");
}

#[test]
fn block_span_x_width_equals_right_minus_left() {
    let wb = block(2, 3);
    let cal = CalendarConfig::default();
    let off = cal.global_off_days();
    let (left, width) = block_span_columns(&wb, &off, &cal);
    let (l2, r2) = block_edge_columns(&wb, &off, &cal);
    assert_eq!(left, l2);
    assert_eq!(width, r2 - l2);
}

#[test]
fn block_edges_x_holiday_within_span_widens_right_edge() {
    // A holiday on 2025-01-03 inserts a column before day 3 (its boundary);
    // a block from day 1 to day 4 crosses it, so its right edge is wider.
    let cal = calendar_with_holiday();
    let wb = block(1, 3);
    let (left_h, right_h) = block_edge_columns(&wb, &cal.global_off_days(), &cal);
    let no_hol = CalendarConfig::default();
    let (left_n, right_n) = block_edge_columns(&wb, &no_hol.global_off_days(), &no_hol);
    assert!((x(left_h) - x(left_n)).abs() < 0.001, "left unchanged");
    assert!((x(right_h) - x(right_n) - PIXELS_PER_DAY).abs() < 0.001, "right wider by one day");
}

#[test]
fn block_edges_x_holiday_before_span_shifts_both_edges() {
    let cal = calendar_with_holiday();
    let wb = block(4, 2);
    let (left_h, right_h) = block_edge_columns(&wb, &cal.global_off_days(), &cal);
    let no_hol = CalendarConfig::default();
    let (left_n, right_n) = block_edge_columns(&wb, &no_hol.global_off_days(), &no_hol);
    assert!((x(left_h) - x(left_n) - PIXELS_PER_DAY).abs() < 0.001, "left shifted right by one");
    assert!((x(right_h) - x(right_n) - PIXELS_PER_DAY).abs() < 0.001, "right shifted right by one");
}

#[test]
fn block_edges_never_cross_for_negative_duration() {
    let cal = CalendarConfig::default();
    let wb = block(6, -4);
    assert_eq!(block_edge_columns(&wb, &cal.global_off_days(), &cal), (6, 6));
    assert_eq!(block_span_columns(&wb, &cal.global_off_days(), &cal), (6, 0));
}

// ── resource_offday_column ──────────────────────────────────────────────────

#[test]
fn resource_offday_column_left_x_sits_inside_block_span_gap() {
    // Off-day is Wednesday Jan 8 = working day 2 in the 5-day week.
    let pto = date(2025, 1, 8);
    let cal = base_cal();
    let mut row_offs = DateSet::new();
    row_offs.insert(pto);
    let left_x = x(resource_offday_column(pto, &row_offs, &cal));
    // Block spanning days 0–5 on the same row.
    let wb = block(0, 5);
    let (block_left, block_width) = block_span_columns(&wb, &row_offs, &cal);
    let block_left = x(block_left);
    let block_right = block_left + block_width as f32 * PIXELS_PER_DAY;
    assert!(left_x >= block_left && left_x + PIXELS_PER_DAY <= block_right);
}

#[test]
fn resource_offday_column_left_x_right_edge_matches_next_working_day() {
    let pto = date(2025, 1, 8);
    let cal = base_cal();
    let mut row_offs = DateSet::new();
    row_offs.insert(pto);
    let left = resource_offday_column(pto, &row_offs, &cal);
    let day = date_to_day(pto, &cal);
    let next_day = day_to_column(day + 1, &row_offs, &cal);
    assert_eq!(x(left) + PIXELS_PER_DAY, x(next_day));
    assert_eq!(left, 3);
}

#[test]
fn resource_offday_column_left_x_matches_global_holiday_columns_position() {
    let d = date(2025, 1, 8);
    let mut cal = base_cal();
    cal.non_working_dates.push(NonWorkingDate { date: d, description: String::new() });
    let global_offs = cal.global_off_days();
    let hols = holiday_columns(&cal, 20);
    assert_eq!(hols.len(), 1);
    let computed = resource_offday_column(d, &global_offs, &cal);
    assert_eq!(computed, hols[0].0);
}

// ── block labels ────────────────────────────────────────────────────────────
// A label has room for (screen width − 8) / 8 characters, floored; these pass
// that count for the widths quoted.

#[test]
fn fit_label_short_name_fits_unchanged() {
    // 200 screen px → 24 characters
    assert_eq!(fit_label_chars("Hello", 24), Some("Hello".to_string()));
}

#[test]
fn fit_label_long_name_gets_truncated_with_ellipsis() {
    // 80 screen px → 9 characters: keep 8, append "…"
    assert_eq!(fit_label_chars("Hello World Long", 9), Some("Hello Wo…".to_string()));
}

#[test]
fn fit_label_too_narrow_returns_none() {
    // 8 screen px → 0 characters
    assert_eq!(fit_label_chars("Hi", 0), None);
}

#[test]
fn fit_label_one_char_max_returns_ellipsis_only() {
    // 16 screen px → 1 character
    assert_eq!(fit_label_chars("Hi", 1), Some("…".to_string()));
}

#[test]
fn fit_label_counts_characters_not_bytes() {
    assert_eq!(fit_label_chars("Ünïcödé", 7), Some("Ünïcödé".to_string()));
    assert_eq!(fit_label_chars("Ünïcödé", 3), Some("Ün…".to_string()));
}
