use brick_road::inspector::{
    apply_batch_edit, batch_snapshot, flush_inspector_buffers, restore_batch_edit, unanimous_priority, unanimous_size,
};
use brick_road::model::{Model, WorkBlock, WorkBlockId};

fn block(m: &Model, id: WorkBlockId) -> &WorkBlock {
    &m.work_blocks[m.block_position(id).unwrap()]
}

#[test]
fn unanimous_detects_shared_vs_mixed() {
    // All equal -> the shared value; any difference -> None; empty -> None.
    assert_eq!(unanimous_priority(&[2u8, 2, 2]), Some(2));
    assert_eq!(unanimous_priority(&[2u8, 3, 2]), None);
    assert_eq!(unanimous_priority(&[]), None);
    // The Option types the batch editor actually compares.
    let same = [Some("M".to_string()), Some("M".to_string())];
    assert_eq!(unanimous_size(&same), Some(Some("M".to_string())));
    let mixed = [Some("M".to_string()), None];
    assert_eq!(unanimous_size(&mixed), None);
}

#[test]
fn unanimous_size_of_unsized_blocks_is_no_size() {
    assert_eq!(unanimous_size(&[None, None]), Some(None));
    assert_eq!(unanimous_size(&[]), None);
}

#[test]
fn flush_trims_the_name_and_keeps_the_description_as_typed() {
    let mut m = Model::default();
    let a = m.create_work_block("A");
    assert!(flush_inspector_buffers(&mut m, a, "  Design  ", " notes "));
    assert_eq!(block(&m, a).name, "Design");
    assert_eq!(block(&m, a).description, " notes ");
    // Nothing new: nothing changes.
    assert!(!flush_inspector_buffers(&mut m, a, "Design", " notes "));
}

#[test]
fn flush_ignores_a_blank_name() {
    let mut m = Model::default();
    let a = m.create_work_block("A");
    assert!(!flush_inspector_buffers(&mut m, a, "   ", ""));
    assert_eq!(block(&m, a).name, "A");
    assert!(!flush_inspector_buffers(&mut m, WorkBlockId(999), "X", "Y"), "unknown block");
}

#[test]
fn batch_edit_sets_size_duration_and_priority_of_the_selection() {
    let mut m = Model::default();
    let a = m.create_work_block("A");
    let b = m.create_work_block("B");
    let c = m.create_work_block("C");
    let ids = vec![a, b, WorkBlockId(999)];
    apply_batch_edit(&mut m, &ids, Some(("L".to_string(), 25)), Some(3));
    for id in [a, b] {
        assert_eq!(block(&m, id).duration_days, 25);
        assert_eq!(block(&m, id).t_shirt_size.as_deref(), Some("L"));
        assert_eq!(block(&m, id).priority, 3);
    }
    assert_eq!(block(&m, c).t_shirt_size, None);
    assert_eq!(block(&m, c).duration_days, 0);
}

#[test]
fn batch_edit_of_priority_alone_keeps_sizes() {
    let mut m = Model::default();
    let a = m.create_work_block("A");
    apply_batch_edit(&mut m, &vec![a], Some(("S".to_string(), 10)), None);
    apply_batch_edit(&mut m, &vec![a], None, Some(0));
    assert_eq!(block(&m, a).t_shirt_size.as_deref(), Some("S"));
    assert_eq!(block(&m, a).duration_days, 10);
    assert_eq!(block(&m, a).priority, 0);
}

#[test]
fn undoing_a_batch_edit_restores_the_blocks() {
    let mut m = Model::default();
    let a = m.create_work_block("A");
    let b = m.create_work_block("B");
    let b_priority = block(&m, b).priority;
    apply_batch_edit(&mut m, &vec![a], Some(("M".to_string(), 15)), Some(2));
    let ids = vec![a, b];
    let snaps = batch_snapshot(&m, &ids);
    assert_eq!(snaps.len(), 2);
    apply_batch_edit(&mut m, &ids, Some(("XL".to_string(), 40)), Some(0));
    assert_eq!(block(&m, a).duration_days, 40);
    restore_batch_edit(&mut m, &snaps);
    assert_eq!(block(&m, a).t_shirt_size.as_deref(), Some("M"));
    assert_eq!(block(&m, a).duration_days, 15);
    assert_eq!(block(&m, a).priority, 2);
    assert_eq!(block(&m, b).t_shirt_size, None);
    assert_eq!(block(&m, b).duration_days, 0);
    assert_eq!(block(&m, b).priority, b_priority);
}
