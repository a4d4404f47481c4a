use brick_road::csv::{csv_field, csv_row, parse_csv, parse_csv_records, HEADER};
use brick_road::date::Date;
use brick_road::model::{CalendarConfig, Model, Plan, PlanId, WorkBlockId};
use brick_road::plan_csv::{blocks_preorder, clear_plan_blocks, plan_to_csv, populate_plan, starts_are_convertible};

fn ymd(y: i32, m: u32, d: u32) -> Date {
    Date::from_ymd_opt(y, m, d).unwrap()
}

fn base_model() -> Model {
    let mut m = Model::default();
    m.calendar = CalendarConfig {
        start_date: ymd(2025, 1, 6),
        working_days_per_week: 5,
        non_working_dates: vec![],
    };
    m.create_plan("main", None);
    m
}

fn plan(m: &Model, id: PlanId) -> &Plan {
    &m.plans[m.plan_position(id).unwrap()]
}

fn plan_mut(m: &mut Model, id: PlanId) -> &mut Plan {
    let i = m.plan_position(id).unwrap();
    &mut m.plans[i]
}

fn block_name(m: &Model, id: WorkBlockId) -> String {
    m.work_blocks[m.block_position(id).unwrap()].name.clone()
}

fn export(m: &Model, id: PlanId) -> String {
    plan_to_csv(plan(m, id), m)
}

#[test]
fn csv_field_plain_passthrough() {
    assert_eq!(csv_field("hello"), "hello");
    assert_eq!(csv_field(""), "");
}

#[test]
fn csv_field_quotes_commas() {
    assert_eq!(csv_field("a,b"), "\"a,b\"");
}

#[test]
fn csv_field_doubles_internal_quotes() {
    assert_eq!(csv_field("say \"hi\""), "\"say \"\"hi\"\"\"");
}

#[test]
fn csv_field_quotes_newline() {
    assert_eq!(csv_field("line\nbreak"), "\"line\nbreak\"");
}

#[test]
fn csv_field_quotes_carriage_return() {
    assert_eq!(csv_field("a\rb"), "\"a\rb\"");
}

#[test]
fn csv_row_joins_quoted_fields() {
    assert_eq!(csv_row(&["1", "a,b", ""]), "1,\"a,b\",\n");
    assert_eq!(csv_row(&[]), "\n");
}

#[test]
fn empty_plan_produces_only_header() {
    let m = base_model();
    let plan_id = m.main_plan_id().unwrap();
    assert_eq!(export(&m, plan_id), HEADER);
}

#[test]
fn single_root_block_round_trip() {
    let mut m = base_model();
    let plan_id = m.main_plan_id().unwrap();
    let block_id = m.add_block_to_plan(plan_id, "Alpha", 0, 5, 0);
    let csv = export(&m, plan_id);
    let mut lines = csv.lines();
    assert_eq!(lines.next().unwrap(), "id,name,parent_id,start_date,duration_days,row,row_name");
    let row = lines.next().unwrap();
    assert!(row.contains(&block_id.0.to_string()), "id present");
    assert!(row.contains("Alpha"), "name present");
    assert!(row.contains("2025-01-06"), "start_date is day 0 = 2025-01-06");
    assert!(row.contains(",5,"), "duration_days = 5");
    let fields: Vec<&str> = row.split(',').collect();
    assert_eq!(fields[2], "", "parent_id empty for root block");
}

#[test]
fn child_block_parent_id_matches_parent() {
    let mut m = base_model();
    let plan_id = m.main_plan_id().unwrap();
    let parent_id = m.add_block_to_plan(plan_id, "Parent", 0, 10, 0);
    let child_id = m.add_child_block(plan_id, parent_id, "Child", 0, 5, 1);
    let csv = export(&m, plan_id);
    let child_row = csv.lines().find(|l| l.contains("Child")).expect("child row present");
    let fields: Vec<&str> = child_row.split(',').collect();
    assert_eq!(fields[0], child_id.0.to_string(), "child id in first column");
    assert_eq!(fields[2], parent_id.0.to_string(), "parent_id column matches parent");
}

#[test]
fn preorder_puts_parent_before_child() {
    let mut m = base_model();
    let plan_id = m.main_plan_id().unwrap();
    let parent_id = m.add_block_to_plan(plan_id, "Parent", 0, 10, 0);
    m.add_child_block(plan_id, parent_id, "Child", 2, 5, 0);
    let csv = export(&m, plan_id);
    let lines: Vec<&str> = csv.lines().collect();
    let parent_pos = lines.iter().position(|l| l.contains("Parent")).unwrap();
    let child_pos = lines.iter().position(|l| l.contains("Child")).unwrap();
    assert!(parent_pos < child_pos, "parent row must precede child row");
}

#[test]
fn block_name_with_comma_is_quoted() {
    let mut m = base_model();
    let plan_id = m.main_plan_id().unwrap();
    m.add_block_to_plan(plan_id, "Fee, Fi, Fo", 0, 3, 0);
    let csv = export(&m, plan_id);
    assert!(csv.contains("\"Fee, Fi, Fo\""), "name with commas must be quoted");
}

#[test]
fn row_name_appears_in_last_column() {
    let mut m = base_model();
    let plan_id = m.main_plan_id().unwrap();
    m.add_block_to_plan(plan_id, "Task", 0, 5, 0);
    plan_mut(&mut m, plan_id).set_row_name(None, 0, "Alice".to_string());
    let csv = export(&m, plan_id);
    let data_row = csv.lines().nth(1).unwrap();
    let fields: Vec<&str> = data_row.split(',').collect();
    assert_eq!(fields.last().copied().unwrap_or(""), "Alice");
}

#[test]
fn start_date_advances_by_working_days() {
    let mut m = base_model();
    let plan_id = m.main_plan_id().unwrap();
    m.add_block_to_plan(plan_id, "Week2", 5, 3, 0);
    let csv = export(&m, plan_id);
    assert!(csv.contains("2025-01-13"), "start_date at day 5 should be 2025-01-13");
}

#[test]
fn multiple_root_blocks_all_appear() {
    let mut m = base_model();
    let plan_id = m.main_plan_id().unwrap();
    m.add_block_to_plan(plan_id, "Alpha", 0, 3, 0);
    m.add_block_to_plan(plan_id, "Beta", 3, 3, 0);
    m.add_block_to_plan(plan_id, "Gamma", 6, 3, 0);
    let csv = export(&m, plan_id);
    assert!(csv.contains("Alpha"));
    assert!(csv.contains("Beta"));
    assert!(csv.contains("Gamma"));
    assert_eq!(csv.lines().count(), 4);
}

#[test]
fn children_export_sorted_by_start_then_id() {
    let mut m = base_model();
    let plan_id = m.main_plan_id().unwrap();
    let p = m.add_block_to_plan(plan_id, "P", 0, 10, 0);
    let late = m.add_child_block(plan_id, p, "Late", 4, 1, 0);
    let early = m.add_child_block(plan_id, p, "Early", 1, 1, 0);
    let order = blocks_preorder(plan(&m, plan_id), &m);
    assert_eq!(order, vec![p, early, late]);
}

// ── import ──────────────────────────────────────────────────────────────────

#[test]
fn parse_csv_rejects_wrong_header() {
    let (_, err) = parse_csv("wrong,header\n1,Foo,,2025-01-06,5,0,\n").unwrap_err();
    assert!(!err.is_empty());
    assert!(err[0].contains("Line 1"));
}

#[test]
fn parse_csv_rejects_wrong_field_count() {
    let csv = "id,name,parent_id,start_date,duration_days,row,row_name\n1,Foo\n";
    let (_, err) = parse_csv(csv).unwrap_err();
    assert!(err[0].contains("Line 2"));
    assert!(err[0].contains("fields"));
}

#[test]
fn parse_csv_rejects_empty_name() {
    let csv = "id,name,parent_id,start_date,duration_days,row,row_name\n1,,, 2025-01-06,5,0,\n";
    let (_, err) = parse_csv(csv).unwrap_err();
    assert!(err[0].contains("name"));
}

#[test]
fn parse_csv_rejects_bad_date() {
    let csv = "id,name,parent_id,start_date,duration_days,row,row_name\n1,X,,not-a-date,5,0,\n";
    let (_, err) = parse_csv(csv).unwrap_err();
    assert!(err[0].contains("start_date"));
}

#[test]
fn parse_csv_rejects_zero_duration() {
    let csv = "id,name,parent_id,start_date,duration_days,row,row_name\n1,X,,2025-01-06,0,0,\n";
    let (_, err) = parse_csv(csv).unwrap_err();
    assert!(err[0].contains("duration_days"));
}

#[test]
fn parse_csv_messages_name_line_and_value() {
    let csv = "id,name,parent_id,start_date,duration_days,row,row_name\nx,A,,2025-01-06,1,0,\n1,B,,2025-01-06,1,-2,\n";
    let (_, err) = parse_csv(csv).unwrap_err();
    assert_eq!(err.len(), 2);
    assert_eq!(err[0], "Line 2: invalid id \"x\"");
    assert_eq!(err[1], "Line 3: row must be >= 0, got -2");
}

#[test]
fn parse_csv_hands_back_good_rows_with_the_errors() {
    let csv = "id,name,parent_id,start_date,duration_days,row,row_name\n\
               1,A,,2025-01-06,2,0,Ops\n\
               2,,,2025-01-06,2,0,\n\
               3,C,1,2025-01-07,4,1,\n";
    let (rows, err) = parse_csv(csv).unwrap_err();
    assert_eq!(err, vec!["Line 3: name must not be empty".to_string()]);
    assert_eq!(rows.len(), 2);
    assert_eq!((rows[0].old_id, rows[0].name.as_str(), rows[0].row_name.as_str()), (1, "A", "Ops"));
    assert_eq!((rows[1].old_id, rows[1].parent_old_id, rows[1].duration_days, rows[1].row), (3, Some(1), 4, 1));
    assert_eq!(rows[1].start_date, ymd(2025, 1, 7));
}

#[test]
fn parse_csv_wrong_header_hands_back_no_rows() {
    let (rows, err) = parse_csv("wrong\n1,A,,2025-01-06,2,0,\n").unwrap_err();
    assert!(rows.is_empty());
    assert_eq!(err.len(), 1);
}

#[test]
fn parse_csv_accepts_quoted_name_with_comma() {
    let csv = "id,name,parent_id,start_date,duration_days,row,row_name\n1,\"Fee, Fi\",,2025-01-06,3,0,\n";
    let rows = parse_csv(csv).unwrap();
    assert_eq!(rows[0].name, "Fee, Fi");
}

#[test]
fn parse_csv_parses_parent_id() {
    let csv = "id,name,parent_id,start_date,duration_days,row,row_name\n\
               1,Parent,,2025-01-06,10,0,\n\
               2,Child,1,2025-01-06,5,0,\n";
    let rows = parse_csv(csv).unwrap();
    assert_eq!(rows[0].parent_old_id, None);
    assert_eq!(rows[1].parent_old_id, Some(1));
    assert_eq!(rows[1].start_date, ymd(2025, 1, 6));
}

#[test]
fn parse_csv_records_handles_empty_trailing_field() {
    let records = parse_csv_records("1,Alpha,,2025-01-06,5,0,");
    assert_eq!(records.len(), 1);
    assert_eq!(records[0].len(), 7);
    assert_eq!(records[0][6], "");
}

#[test]
fn parse_csv_records_unquotes_doubled_quotes() {
    let records = parse_csv_records("1,\"say \"\"hi\"\"\",, 2025-01-06,5,0,");
    assert_eq!(records[0][1], "say \"hi\"");
}

#[test]
fn parse_csv_records_no_trailing_empty_record() {
    let records = parse_csv_records("1,A,,2025-01-06,5,0,\n2,B,,2025-01-06,5,0,\n");
    assert_eq!(records.len(), 2, "a trailing newline must not add an empty record");
}

#[test]
fn parse_csv_records_reassembles_quoted_embedded_newline() {
    let records = parse_csv_records("1,\"line\nbreak\",,2025-01-06,5,0,\n");
    assert_eq!(records.len(), 1, "embedded newline stays within one record");
    assert_eq!(records[0].len(), 7);
    assert_eq!(records[0][1], "line\nbreak");
}

#[test]
fn parse_csv_records_handles_crlf_line_endings() {
    let records = parse_csv_records("1,A,,2025-01-06,5,0,\r\n2,B,,2025-01-06,5,0,\r\n");
    assert_eq!(records.len(), 2);
    assert_eq!(records[0][1], "A");
    assert_eq!(records[1][1], "B");
}

#[test]
fn parse_csv_records_reads_back_written_rows() {
    let text = format!("{}{}", csv_row(&["a,b", "say \"x\"", ""]), csv_row(&["line\nbreak"]));
    let records = parse_csv_records(&text);
    assert_eq!(records, vec![vec!["a,b".to_string(), "say \"x\"".to_string(), String::new()], vec!["line\nbreak".to_string()]]);
}

#[test]
fn populate_plan_creates_root_blocks() {
    let mut m = base_model();
    let plan_id = m.main_plan_id().unwrap();
    let rows = parse_csv(
        "id,name,parent_id,start_date,duration_days,row,row_name\n\
         1,Alpha,,2025-01-06,5,0,\n\
         2,Beta,,2025-01-13,3,1,Alice\n",
    )
    .unwrap();
    let errors = populate_plan(&rows, plan_id, &mut m);
    assert!(errors.is_empty(), "{errors:?}");
    assert_eq!(plan(&m, plan_id).root_blocks.len(), 2);
    let names: Vec<String> = plan(&m, plan_id).root_blocks.iter().map(|id| block_name(&m, *id)).collect();
    assert!(names.contains(&"Alpha".to_string()));
    assert!(names.contains(&"Beta".to_string()));
}

#[test]
fn populate_plan_reconstructs_hierarchy() {
    let mut m = base_model();
    let plan_id = m.main_plan_id().unwrap();
    let rows = parse_csv(
        "id,name,parent_id,start_date,duration_days,row,row_name\n\
         10,Parent,,2025-01-06,10,0,\n\
         20,Child,10,2025-01-06,5,0,\n",
    )
    .unwrap();
    let errors = populate_plan(&rows, plan_id, &mut m);
    assert!(errors.is_empty(), "{errors:?}");
    let child = m.work_blocks.iter().find(|wb| wb.name == "Child").unwrap();
    let parent = m.work_blocks.iter().find(|wb| wb.name == "Parent").unwrap();
    assert_eq!(child.parent, Some(parent.id));
}

#[test]
fn populate_plan_errors_on_unknown_parent_id() {
    let mut m = base_model();
    let plan_id = m.main_plan_id().unwrap();
    let rows = parse_csv(
        "id,name,parent_id,start_date,duration_days,row,row_name\n\
         1,Child,999,2025-01-06,5,0,\n",
    )
    .unwrap();
    let errors = populate_plan(&rows, plan_id, &mut m);
    assert!(!errors.is_empty());
    assert!(errors[0].contains("999"));
    assert_eq!(errors[0], "Row 2: parent_id 999 not found in this file");
}

#[test]
fn populate_plan_reports_child_before_parent() {
    let mut m = base_model();
    let plan_id = m.main_plan_id().unwrap();
    let rows = parse_csv(
        "id,name,parent_id,start_date,duration_days,row,row_name\n\
         2,Child,1,2025-01-06,5,0,\n\
         1,Parent,,2025-01-06,5,0,\n",
    )
    .unwrap();
    let errors = populate_plan(&rows, plan_id, &mut m);
    assert_eq!(errors, vec!["Row 2: parent_id 1 appears after child in file (must be pre-order)".to_string()]);
    assert_eq!(m.work_blocks.len(), 1);
}

#[test]
fn populate_plan_sets_row_names() {
    let mut m = base_model();
    let plan_id = m.main_plan_id().unwrap();
    let rows = parse_csv(
        "id,name,parent_id,start_date,duration_days,row,row_name\n\
         1,Task,,2025-01-06,5,2,Engineering\n",
    )
    .unwrap();
    let errors = populate_plan(&rows, plan_id, &mut m);
    assert!(errors.is_empty());
    assert_eq!(plan(&m, plan_id).row_name(None, 2), Some("Engineering".to_string()));
}

#[test]
fn clear_plan_blocks_removes_all_blocks() {
    let mut m = base_model();
    let plan_id = m.main_plan_id().unwrap();
    let parent = m.add_block_to_plan(plan_id, "Parent", 0, 10, 0);
    m.add_child_block(plan_id, parent, "Child", 0, 5, 1);
    assert!(!plan(&m, plan_id).root_blocks.is_empty());
    clear_plan_blocks(&mut m, plan_id);
    assert!(plan(&m, plan_id).root_blocks.is_empty());
    assert!(plan(&m, plan_id).block_rows.is_empty());
    assert!(m.work_blocks.is_empty());
}

#[test]
fn clear_plan_blocks_preserves_blocks_shared_with_other_plans() {
    let mut m = base_model();
    let main_id = m.main_plan_id().unwrap();
    let branch_id = m.create_plan("branch", Some(0));
    let block = m.add_block_to_plan(main_id, "Shared", 0, 5, 0);
    plan_mut(&mut m, branch_id).root_blocks.push(block);
    plan_mut(&mut m, branch_id).set_row_of(block, 0);
    clear_plan_blocks(&mut m, main_id);
    assert!(!plan(&m, main_id).has_row(block));
    assert!(m.block_position(block).is_some());
}

fn content(m: &Model, id: PlanId) -> Vec<(String, i32, i32, i32, Option<String>)> {
    let p = plan(m, id);
    blocks_preorder(p, m)
        .into_iter()
        .map(|bid| {
            let wb = &m.work_blocks[m.block_position(bid).unwrap()];
            (
                wb.name.clone(),
                wb.start_day,
                wb.duration_days,
                p.row_of(bid),
                wb.parent.map(|par| block_name(m, par)),
            )
        })
        .collect()
}

#[test]
fn export_import_round_trip() {
    let mut m = base_model();
    let plan_id = m.main_plan_id().unwrap();
    let parent = m.add_block_to_plan(plan_id, "Parent", 0, 10, 0);
    m.add_child_block(plan_id, parent, "Child A", 0, 3, 1);
    m.add_child_block(plan_id, parent, "Child B", 3, 5, 1);
    m.add_block_to_plan(plan_id, "Solo", 10, 2, 0);
    plan_mut(&mut m, plan_id).set_row_name(None, 1, "Team".to_string());
    let csv = export(&m, plan_id);
    let import_id = m.create_plan("imported", None);
    let rows = parse_csv(&csv).unwrap();
    let errors = populate_plan(&rows, import_id, &mut m);
    assert!(errors.is_empty(), "import errors: {errors:?}");
    assert_eq!(content(&m, plan_id), content(&m, import_id), "round-trip must be content-equal");
    assert_eq!(plan(&m, import_id).row_name(None, 1), Some("Team".to_string()), "row name must survive round-trip");
}

#[test]
fn export_import_round_trips_name_with_embedded_newline() {
    let mut m = base_model();
    let plan_id = m.main_plan_id().unwrap();
    m.add_block_to_plan(plan_id, "two\nlines", 0, 5, 0);
    let csv = export(&m, plan_id);
    assert!(csv.contains("\"two\nlines\""), "export should RFC-4180-quote the embedded newline");
    let import_id = m.create_plan("imported", None);
    let rows = parse_csv(&csv).expect("import must succeed, not fail the field count");
    let errors = populate_plan(&rows, import_id, &mut m);
    assert!(errors.is_empty(), "{errors:?}");
    let name = plan(&m, import_id).root_blocks.first().map(|id| block_name(&m, *id)).expect("one imported block");
    assert_eq!(name, "two\nlines", "the embedded newline survives the round trip");
}

#[test]
fn replace_plan_clears_then_repopulates() {
    let mut m = base_model();
    let plan_id = m.main_plan_id().unwrap();
    m.add_block_to_plan(plan_id, "OldBlock", 0, 5, 0);
    assert_eq!(plan(&m, plan_id).root_blocks.len(), 1);
    let csv = "id,name,parent_id,start_date,duration_days,row,row_name\n\
               1,NewBlock,,2025-01-06,3,0,\n\
               2,Another,,2025-01-13,2,0,\n";
    clear_plan_blocks(&mut m, plan_id);
    let rows = parse_csv(csv).unwrap();
    let errors = populate_plan(&rows, plan_id, &mut m);
    assert!(errors.is_empty());
    assert_eq!(plan(&m, plan_id).root_blocks.len(), 2);
    let names: Vec<String> = m.work_blocks.iter().map(|wb| wb.name.clone()).collect();
    assert!(!names.contains(&"OldBlock".to_string()), "old block removed");
    assert!(names.contains(&"NewBlock".to_string()));
    assert!(names.contains(&"Another".to_string()));
}

#[test]
fn far_starts_cannot_be_exported() {
    let mut m = base_model();
    let p = m.plans[0].id;
    m.add_block_to_plan(p, "A", 3, 2, 0);
    assert!(starts_are_convertible(&m.plans[0], &m));
    m.add_block_to_plan(p, "far", i32::MAX, 2, 0);
    assert!(!starts_are_convertible(&m.plans[0], &m));
}

#[test]
fn only_exported_blocks_need_a_date() {
    let mut m = base_model();
    let p = m.plans[0].id;
    m.add_block_to_plan(p, "A", 3, 2, 0);
    let other = m.create_plan("other", Some(0));
    m.add_block_to_plan(other, "far", i32::MAX, 2, 0);
    let main = m.plans.iter().position(|q| q.id == p).unwrap();
    assert!(starts_are_convertible(&m.plans[main], &m));
    let csv = plan_to_csv(&m.plans[main], &m);
    assert!(csv.contains(",A,"));
    assert!(!csv.contains("far"));
}
