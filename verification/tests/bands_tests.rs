use brick_road::bands::{band_lanes, main_bottom_row};
use brick_road::model::{Model, Plan, PlanId};

fn plan_mut(m: &mut Model, id: PlanId) -> &mut Plan {
    let i = m.plan_position(id).unwrap();
    &mut m.plans[i]
}

#[test]
fn lane_has_a_clickable_gap_row_below_last_block() {
    let mut m = Model::default();
    let _main = m.create_plan("main", None);
    let branch = m.create_plan("branch", Some(0));
    m.add_block_to_plan(branch, "b", 0, 3, 2); // lowest block at row 2

    let bands = band_lanes(&m);
    let band = bands.iter().find(|b| b.plan_id == branch).unwrap();
    // The empty row just below it (row 3) is still inside the lane.
    assert!(3 < band.rows, "gap row is inside the lane");
    assert_eq!(band.rows, 4);
}

#[test]
fn no_main_plan_means_no_lanes() {
    let mut m = Model::default();
    m.create_plan("branch", Some(4));
    assert!(band_lanes(&m).is_empty());
    assert_eq!(main_bottom_row(&m), None);
}

#[test]
fn lanes_are_branches_by_plan_id() {
    let mut m = Model::default();
    let main = m.create_plan("main", None);
    let b1 = m.create_plan("one", Some(3));
    let _second_root = m.create_plan("also root", None);
    let b2 = m.create_plan("two", Some(7));
    // A later main-like plan is not a lane; branches keep id order.
    let lanes = band_lanes(&m);
    let ids: Vec<PlanId> = lanes.iter().map(|l| l.plan_id).collect();
    assert_eq!(ids, vec![b1, b2]);
    assert_eq!(lanes[0].fork_day, 3);
    assert_eq!(lanes[1].name, "two");
    assert!(!ids.contains(&main));
    // Empty lanes show the minimum two rows.
    assert_eq!(lanes[0].rows, 2);
}

#[test]
fn lane_blocks_skip_zero_length_and_mark_shared_blocks() {
    let mut m = Model::default();
    let main = m.create_plan("main", None);
    let branch = m.create_plan("branch", Some(0));
    let shared = m.add_block_to_plan(main, "shared", 0, 5, 0);
    plan_mut(&mut m, branch).root_blocks.push(shared);
    let own = m.add_block_to_plan(branch, "own", 2, 4, 1);
    let _empty = m.add_block_to_plan(branch, "zero", 2, 0, 5);

    let lanes = band_lanes(&m);
    assert_eq!(lanes.len(), 1);
    let blocks = &lanes[0].blocks;
    assert_eq!(blocks.len(), 2);
    assert_eq!(blocks[0].id, shared);
    assert!(!blocks[0].owned, "main holds it");
    assert_eq!(blocks[1].id, own);
    assert!(blocks[1].owned);
    assert_eq!((blocks[1].start_day, blocks[1].duration_days, blocks[1].row), (2, 4, 1));
    assert_eq!(blocks[1].name, "own");
    // The zero-length block at row 5 does not widen the lane.
    assert_eq!(lanes[0].rows, 3);
}

#[test]
fn main_bottom_row_is_the_lowest_shown_row() {
    let mut m = Model::default();
    let main = m.create_plan("main", None);
    assert_eq!(main_bottom_row(&m), None);
    m.add_block_to_plan(main, "events", 0, 1, -1);
    assert_eq!(main_bottom_row(&m), None, "rows above row 0 do not lower the strip");
    m.add_block_to_plan(main, "a", 0, 3, 4);
    m.add_block_to_plan(main, "b", 0, 3, 1);
    m.add_block_to_plan(main, "zero", 0, 0, 9);
    assert_eq!(main_bottom_row(&m), Some(4));
}
