use brick_road::date::Date;
use brick_road::datepicker::{handle_click, month_grid, shift_month, DatePickerResult, DatePickerState};
use brick_road::document::{
    blank_document_model, doc_display_name, merge_recent, recent_entries, recents_text, with_doc_extension, MAX_RECENTS,
};
use brick_road::model::{Model, NonWorkingDate, ResourceType, TShirtSize};

fn ymd(y: i32, m: u32, d: u32) -> Date {
    Date::from_ymd_opt(y, m, d).unwrap()
}

#[test]
fn month_grid_first_cell_is_monday_on_or_before_first() {
    let grid = month_grid(2025, 1);
    assert_eq!(grid[0][0], ymd(2024, 12, 30), "Jan 2025 grid must start Mon 2024-12-30");
}

#[test]
fn month_grid_in_the_outermost_years() {
    let first = ymd(-262143, 2, 1);
    let grid = month_grid(-262143, 2);
    assert_eq!(grid[0][0].weekday_from_monday(), 1);
    assert!(grid[0][0].day_number() <= first.day_number());
    assert!(first.day_number() - grid[0][0].day_number() < 7);
    let last_first = ymd(262142, 11, 1);
    let grid = month_grid(262142, 11);
    assert_eq!(grid[0][0].weekday_from_monday(), 1);
    assert!(last_first.day_number() - grid[0][0].day_number() < 7);
    assert_eq!(grid[5][6].day_number() - grid[0][0].day_number(), 41);
}

#[test]
fn month_grid_last_cell_is_sunday() {
    let grid = month_grid(2025, 1);
    assert_eq!(grid[5][6].weekday_from_monday(), 7, "last cell must be a Sunday");
}

#[test]
fn month_grid_contains_42_consecutive_days() {
    let grid = month_grid(2025, 3);
    let flat: Vec<Date> = grid.iter().flat_map(|r| r.iter().copied()).collect();
    for w in flat.windows(2) {
        assert_eq!(w[1].day_number() - w[0].day_number(), 1, "cells must be consecutive days");
    }
    assert_eq!(flat.len(), 42);
}

#[test]
fn month_grid_leap_february_2000() {
    let grid = month_grid(2000, 2);
    assert_eq!(grid[0][0], ymd(2000, 1, 31));
    let flat: Vec<Date> = grid.iter().flat_map(|r| r.iter().copied()).collect();
    assert!(flat.contains(&ymd(2000, 2, 29)), "leap day 2000-02-29 must be in grid");
}

#[test]
fn month_grid_year_boundary_december() {
    let grid = month_grid(2024, 12);
    assert_eq!(grid[0][0], ymd(2024, 11, 25));
    assert_eq!(grid[5][6], ymd(2025, 1, 5));
}

#[test]
fn month_grid_of_no_month_uses_january() {
    let grid = month_grid(2025, 13);
    assert_eq!(grid[0][0], ymd(2024, 12, 30));
}

#[test]
fn shift_month_forward_wraps_december() {
    assert_eq!(shift_month(2024, 12, 1), (2025, 1));
}

#[test]
fn shift_month_backward_wraps_january() {
    assert_eq!(shift_month(2025, 1, -1), (2024, 12));
}

#[test]
fn shift_month_multi_step() {
    assert_eq!(shift_month(2025, 11, 3), (2026, 2));
}

#[test]
fn shift_month_composes_and_undoes() {
    let (y, m) = shift_month(2025, 5, 7);
    assert_eq!(shift_month(y, m, 10), shift_month(2025, 5, 17));
    assert_eq!(shift_month(y, m, -7), (2025, 5));
    assert_eq!(shift_month(2025, 5, 0), (2025, 5));
    assert_eq!(shift_month(2025, 1, -13), (2023, 12));
}

#[test]
fn handle_click_single_returns_result() {
    let date = ymd(2025, 6, 15);
    let mut state = DatePickerState::single(date);
    let new_date = ymd(2025, 6, 20);
    let result = handle_click(&mut state, new_date);
    assert_eq!(result, Some(DatePickerResult::Single(new_date)));
    assert_eq!(state.start, new_date);
}

#[test]
fn handle_click_range_first_click_sets_start_no_result() {
    let date = ymd(2025, 6, 1);
    let mut state = DatePickerState::range(date, None);
    state.picking_end = false;
    let clicked = ymd(2025, 6, 10);
    let result = handle_click(&mut state, clicked);
    assert!(result.is_none(), "first click must not commit");
    assert_eq!(state.start, clicked);
    assert!(state.picking_end);
}

#[test]
fn handle_click_range_second_click_commits() {
    let start = ymd(2025, 6, 5);
    let mut state = DatePickerState::range(start, None);
    state.picking_end = true;
    let end = ymd(2025, 6, 15);
    let result = handle_click(&mut state, end);
    assert_eq!(result, Some(DatePickerResult::Range(start, end)));
}

#[test]
fn handle_click_range_swaps_if_end_before_start() {
    let start = ymd(2025, 6, 20);
    let mut state = DatePickerState::range(start, None);
    state.picking_end = true;
    let earlier = ymd(2025, 6, 10);
    let result = handle_click(&mut state, earlier);
    assert_eq!(result, Some(DatePickerResult::Range(earlier, start)), "end < start must swap so start <= end");
}

#[test]
fn picker_states_show_the_month_of_their_date() {
    let s = DatePickerState::single(ymd(2025, 6, 15));
    assert_eq!(s.shown_month, (2025, 6));
    let r = DatePickerState::range(ymd(2024, 2, 29), Some(ymd(2024, 3, 2)));
    assert_eq!(r.shown_month, (2024, 2));
    assert!(r.picking_end);
}

// ── documents ───────────────────────────────────────────────────────────────

#[test]
fn merge_recent_fronts_dedupes_and_caps() {
    let p = |s: &str| s.to_string();
    let list = merge_recent(vec![p("/a"), p("/b")], "/c", 8);
    assert_eq!(list, vec![p("/c"), p("/a"), p("/b")]);
    let list = merge_recent(vec![p("/a"), p("/b"), p("/c")], "/b", 8);
    assert_eq!(list, vec![p("/b"), p("/a"), p("/c")]);
    let list = merge_recent(vec![p("/a"), p("/b"), p("/c")], "/d", 3);
    assert_eq!(list, vec![p("/d"), p("/a"), p("/b")]);
}

#[test]
fn merge_recent_twice_is_once() {
    let list = vec!["/a".to_string(), "/b".to_string()];
    let once = merge_recent(list.clone(), "/b", MAX_RECENTS);
    assert_eq!(merge_recent(once.clone(), "/b", MAX_RECENTS), once);
    assert_eq!(merge_recent(list, "/b", 0), Vec::<String>::new());
}

#[test]
fn merge_recent_treats_equal_paths_as_one() {
    let list = merge_recent(vec!["/x//a".to_string(), "/b".to_string()], "/x/a", 8);
    assert_eq!(list, vec!["/x/a".to_string(), "/b".to_string()]);
}

#[test]
fn with_doc_extension_only_fills_missing() {
    assert_eq!(with_doc_extension("/x/remodel".to_string()), "/x/remodel.brickroad");
    assert_eq!(with_doc_extension("/x/legacy.db".to_string()), "/x/legacy.db");
}

#[test]
fn with_doc_extension_is_idempotent() {
    for p in ["/x/remodel", "plan", "/x/legacy.db", "a/.hidden", "rel/dir/"] {
        let once = with_doc_extension(p.to_string());
        assert_eq!(with_doc_extension(once.clone()), once);
    }
}

#[test]
fn doc_display_name_uses_stem() {
    assert_eq!(doc_display_name("/a/b/remodel.brickroad"), "remodel");
    assert_eq!(doc_display_name("/a/b/brick_road.db"), "brick_road");
}

#[test]
fn doc_display_name_without_stem_is_untitled() {
    assert_eq!(doc_display_name("/"), "untitled");
}

#[test]
fn blank_document_has_one_empty_plan_named_after_file() {
    let m = blank_document_model("/plans/remodel.brickroad", &Model::default());
    assert_eq!(m.plans.len(), 1);
    let plan = &m.plans[0];
    assert_eq!(plan.name, "remodel");
    assert!(plan.root_blocks.is_empty());
    assert!(m.work_blocks.is_empty());
}

#[test]
fn blank_document_inherits_settings_but_not_work() {
    let mut template = Model::default();
    let plan = template.create_plan("old", None);
    template.add_block_to_plan(plan, "work", 0, 5, 0);
    template.set_resource_kind("Team A", ResourceType::Team);
    template.calendar.working_days_per_week = 4;
    template.calendar.non_working_dates.push(NonWorkingDate {
        date: ymd(2026, 12, 25),
        description: "Christmas".to_string(),
    });
    template.t_shirt_sizes = vec![TShirtSize { label: "Sprint".to_string(), days: 10 }];
    let m = blank_document_model("/plans/next.brickroad", &template);
    assert_eq!(m.calendar.working_days_per_week, 4);
    assert_eq!(m.calendar.non_working_dates.len(), 1);
    assert_eq!(m.t_shirt_sizes.len(), 1);
    assert_eq!(m.t_shirt_sizes[0].label, "Sprint");
    assert!(m.work_blocks.is_empty());
    assert!(m.resource_blocks.is_empty());
    assert_eq!(m.plans.len(), 1, "just the new empty plan");
    assert_eq!(m.plans[0].name, "next");
}

#[test]
fn recent_entries_trim_and_skip_blank_lines() {
    let got = recent_entries("  /a/x.brickroad \r\n\n/b/y.brickroad\n   \n");
    assert_eq!(got, vec!["/a/x.brickroad".to_string(), "/b/y.brickroad".to_string()]);
    assert!(recent_entries("").is_empty());
}

#[test]
fn recents_written_read_back() {
    let list = vec!["/a/one.brickroad".to_string(), "/b/two.brickroad".to_string()];
    let text = recents_text(&list);
    assert_eq!(text, "/a/one.brickroad\n/b/two.brickroad");
    assert_eq!(recent_entries(&text), list);
}
