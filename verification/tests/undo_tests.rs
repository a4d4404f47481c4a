use brick_road::inspector::{apply_batch_edit, batch_snapshot};
use brick_road::model::{DependencyType, Model, Plan, PlanId, WorkBlock, WorkBlockId};
use brick_road::paste::paste_clipboard;
use brick_road::undo::{delete_blocks, delete_selection, drag_undo_record, remove_dependency, start_days, undo_last, UndoStack};

fn plan(m: &Model, id: PlanId) -> &Plan {
    &m.plans[m.plan_position(id).unwrap()]
}

fn block(m: &Model, id: WorkBlockId) -> &WorkBlock {
    &m.work_blocks[m.block_position(id).unwrap()]
}

fn has_block(m: &Model, id: WorkBlockId) -> bool {
    m.block_position(id).is_some()
}

#[test]
fn nothing_to_undo() {
    let mut m = Model::default();
    let mut undo = UndoStack::default();
    assert!(!undo_last(&mut m, &mut undo));
}

#[test]
fn deleting_a_selection_and_undoing_it_puts_the_blocks_back() {
    let mut m = Model::default();
    let p = m.create_plan("main", None);
    let a = m.add_block_to_plan(p, "A", 0, 3, 0);
    let b = m.add_block_to_plan(p, "B", 3, 2, 1);
    let c = m.add_block_to_plan(p, "C", 5, 2, 2);
    m.create_dependency(a, b, DependencyType::FinishToStart);
    m.create_dependency(b, c, DependencyType::FinishToStart);
    let mut undo = UndoStack::default();

    delete_selection(&mut m, &mut undo, &vec![a, b]);
    assert!(!has_block(&m, a) && !has_block(&m, b));
    assert!(has_block(&m, c));
    assert!(m.dependencies.is_empty());
    assert_eq!(plan(&m, p).root_blocks, vec![c]);

    assert!(undo_last(&mut m, &mut undo));
    assert!(has_block(&m, a) && has_block(&m, b));
    assert_eq!(block(&m, b).name, "B");
    assert_eq!(m.dependencies.len(), 2);
    let roots = &plan(&m, p).root_blocks;
    assert!(roots.contains(&a) && roots.contains(&b) && roots.contains(&c));
    assert!(undo.last_deletion.is_none());
    assert!(!undo_last(&mut m, &mut undo), "the deletion was undone once");
}

#[test]
fn deleting_an_empty_selection_records_nothing() {
    let mut m = Model::default();
    let mut undo = UndoStack::default();
    undo.record_paste(vec![WorkBlockId(7)]);
    delete_selection(&mut m, &mut undo, &vec![]);
    assert_eq!(undo.last_paste, Some(vec![WorkBlockId(7)]));
}

#[test]
fn undoing_a_move_restores_start_and_row() {
    let mut m = Model::default();
    let p = m.create_plan("main", None);
    let a = m.add_block_to_plan(p, "A", 0, 3, 0);
    let b = m.add_block_to_plan(p, "B", 4, 3, 1);
    let mut undo = UndoStack::default();
    // The drag found A at day 0 row 0 and B at day 4 row 1, then moved them.
    let i = m.block_position(a).unwrap();
    m.work_blocks[i].start_day = 10;
    m.set_block_row(p, a, 5);
    let j = m.block_position(b).unwrap();
    m.work_blocks[j].start_day = 14;
    m.set_block_row(p, b, 6);
    undo.record_move(vec![(a, 0, 0), (b, 4, 1)]);

    assert!(undo_last(&mut m, &mut undo));
    assert_eq!(block(&m, a).start_day, 0);
    assert_eq!(m.block_row(p, a), 0);
    assert_eq!(block(&m, b).start_day, 4);
    assert_eq!(m.block_row(p, b), 1);
}

#[test]
fn recording_no_moves_keeps_what_was_pending() {
    let mut undo = UndoStack::default();
    undo.record_batch_edit(vec![]);
    undo.record_move(vec![]);
    assert!(undo.last_batch_edit.is_some());
    assert!(undo.last_move.is_none());
}

#[test]
fn a_move_replaces_a_pending_paste() {
    let mut m = Model::default();
    let p = m.create_plan("main", None);
    let a = m.add_block_to_plan(p, "A", 2, 3, 0);
    let cb = vec![(block(&m, a).clone(), 0)];
    let pasted = paste_clipboard(&mut m, p, &cb, &[], 10, 1);
    let mut undo = UndoStack::default();
    undo.record_paste(pasted.clone());
    undo.record_move(vec![(a, 2, 0)]);
    assert!(undo.last_paste.is_none(), "the move is the one edit left to undo");
    assert!(undo.last_move.is_some());

    assert!(undo_last(&mut m, &mut undo)); // the move
    assert!(has_block(&m, pasted[0]));
    assert!(!undo_last(&mut m, &mut undo)); // nothing left
    assert!(has_block(&m, pasted[0]));
}

#[test]
fn undoing_a_batch_edit_through_the_stack() {
    let mut m = Model::default();
    let a = m.create_work_block("A");
    let ids = vec![a];
    let snaps = batch_snapshot(&m, &ids);
    apply_batch_edit(&mut m, &ids, Some(("XL".to_string(), 40)), Some(3));
    let mut undo = UndoStack::default();
    undo.record_batch_edit(snaps);
    assert!(undo_last(&mut m, &mut undo));
    assert_eq!(block(&m, a).t_shirt_size, None);
    assert_eq!(block(&m, a).duration_days, 0);
    assert!(undo.last_batch_edit.is_none());
}

#[test]
fn deleting_blocks_detaches_their_children() {
    let mut m = Model::default();
    let p = m.create_plan("main", None);
    let parent = m.add_block_to_plan(p, "P", 0, 5, 0);
    let child = m.add_child_block(p, parent, "C", 0, 1, 0);
    delete_blocks(&mut m, &vec![parent]);
    assert_eq!(block(&m, child).parent, None);
}

#[test]
fn removing_a_dependency_keeps_the_others() {
    let mut m = Model::default();
    let a = m.create_work_block("A");
    let b = m.create_work_block("B");
    let d1 = m.create_dependency(a, b, DependencyType::FinishToStart);
    let d2 = m.create_dependency(a, b, DependencyType::StartToStart);
    remove_dependency(&mut m, d1);
    assert_eq!(m.dependencies.len(), 1);
    assert_eq!(m.dependencies[0].id, d2);
}

#[test]
fn a_drag_record_adds_the_blocks_the_release_rippled() {
    let mut m = Model::default();
    let p = m.create_plan("main", None);
    let a = m.add_block_to_plan(p, "A", 0, 3, 0);
    let b = m.add_block_to_plan(p, "B", 5, 3, 1);
    let c = m.add_block_to_plan(p, "C", 9, 3, 2);
    let direct = vec![(a, 0, 0)];
    let pre = start_days(&m);
    assert_eq!(pre, vec![(a, 0), (b, 5), (c, 9)]);
    // The drag moved A; the cascade then pushed C.
    let i = m.block_position(a).unwrap();
    m.work_blocks[i].start_day = 4;
    let k = m.block_position(c).unwrap();
    m.work_blocks[k].start_day = 12;
    let record = drag_undo_record(direct, &pre, &m, Some(p));
    assert_eq!(record, vec![(a, 0, 0), (c, 9, 2)]);
    let mut undo = UndoStack::default();
    undo.record_move(record);
    assert!(undo_last(&mut m, &mut undo));
    assert_eq!(block(&m, a).start_day, 0);
    assert_eq!(block(&m, c).start_day, 9);
    assert_eq!(block(&m, b).start_day, 5);
}
