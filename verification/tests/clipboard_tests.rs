use brick_road::clipboard::{copy_ids, copy_selection};
use brick_road::model::{DependencyType, Model, WorkBlockId};
use brick_road::paste::paste_clipboard;

#[test]
fn copy_takes_the_whole_subtree() {
    let mut m = Model::default();
    let p = m.create_plan("main", None);
    let root = m.add_block_to_plan(p, "root", 5, 10, 2);
    let child = m.add_child_block(p, root, "child", 5, 3, 0);
    let grandchild = m.add_child_block(p, child, "grandchild", 6, 1, 0);
    let other = m.add_block_to_plan(p, "other", 0, 4, 1);

    let ids = copy_ids(&m, &vec![root]);
    assert_eq!(ids.len(), 3);
    for id in [root, child, grandchild] {
        assert!(ids.contains(&id));
    }
    assert!(!ids.contains(&other));
}

#[test]
fn copy_orders_blocks_by_start_and_keeps_rows() {
    let mut m = Model::default();
    let p = m.create_plan("main", None);
    let late = m.add_block_to_plan(p, "late", 9, 2, 3);
    let early = m.add_block_to_plan(p, "early", 1, 2, 1);
    let (blocks, deps) = copy_selection(&m, &vec![late, early]);
    assert_eq!(blocks.len(), 2);
    assert_eq!(blocks[0].0.id, early);
    assert_eq!(blocks[0].1, 1);
    assert_eq!(blocks[1].0.id, late);
    assert_eq!(blocks[1].1, 3);
    assert!(deps.is_empty());
}

#[test]
fn copy_keeps_only_dependencies_inside_the_copy() {
    let mut m = Model::default();
    let p = m.create_plan("main", None);
    let a = m.add_block_to_plan(p, "a", 0, 2, 0);
    let b = m.add_block_to_plan(p, "b", 2, 2, 0);
    let c = m.add_block_to_plan(p, "c", 4, 2, 0);
    let inside = m.create_dependency(a, b, DependencyType::FinishToStart);
    m.create_dependency(b, c, DependencyType::FinishToStart);
    let (_, deps) = copy_selection(&m, &vec![a, b]);
    assert_eq!(deps.len(), 1);
    assert_eq!(deps[0].id, inside);
}

#[test]
fn copy_survives_a_parent_cycle() {
    let mut m = Model::default();
    let a = m.create_work_block("a");
    let b = m.create_work_block("b");
    m.work_blocks[0].parent = Some(b);
    m.work_blocks[1].parent = Some(a);
    let ids = copy_ids(&m, &vec![a]);
    assert_eq!(ids.len(), 2);
}

#[test]
fn copy_of_an_unknown_id_copies_no_block() {
    let m = Model::default();
    let (blocks, _) = copy_selection(&m, &vec![WorkBlockId(42)]);
    assert!(blocks.is_empty());
    assert_eq!(copy_ids(&m, &vec![WorkBlockId(42)]), vec![WorkBlockId(42)]);
}

#[test]
fn copy_then_paste_duplicates_the_subtree() {
    let mut m = Model::default();
    let p = m.create_plan("main", None);
    let root = m.add_block_to_plan(p, "root", 5, 10, 2);
    let child = m.add_child_block(p, root, "child", 6, 3, 2);
    let (blocks, deps) = copy_selection(&m, &vec![root]);
    let before = m.work_blocks.len();
    let new_ids = paste_clipboard(&mut m, p, &blocks, &deps, 20, 0);
    assert_eq!(new_ids.len(), 2);
    assert_eq!(m.work_blocks.len(), before + 2);
    let new_child = new_ids.iter().copied().find(|id| {
        let b = &m.work_blocks[m.block_position(*id).unwrap()];
        b.name == "child"
    });
    let new_child = new_child.unwrap();
    let nb = &m.work_blocks[m.block_position(new_child).unwrap()];
    assert!(nb.parent.is_some());
    assert_ne!(nb.parent, Some(root));
    assert_ne!(new_child, child);
}
