use brick_road::model::{DependencyId, WorkBlockId};
use brick_road::selection::Selection;

fn id(n: u64) -> WorkBlockId {
    WorkBlockId(n)
}

#[test]
fn plain_click_selects_one_block() {
    let mut s = Selection::default();
    s.click_block(id(1), false);
    s.click_block(id(2), false);
    assert_eq!(s.blocks, vec![id(2)]);
    assert_eq!(s.main, Some(id(2)));
}

#[test]
fn modifier_click_toggles_blocks() {
    let mut s = Selection::default();
    s.click_block(id(1), true);
    s.click_block(id(2), true);
    s.click_block(id(3), true);
    assert_eq!(s.blocks, vec![id(1), id(2), id(3)]);
    assert_eq!(s.main, Some(id(3)));
    s.click_block(id(1), true);
    assert_eq!(s.blocks, vec![id(2), id(3)]);
    assert_eq!(s.main, Some(id(2)));
    s.click_block(id(2), true);
    s.click_block(id(3), true);
    assert!(s.blocks.is_empty());
    assert_eq!(s.main, None);
}

#[test]
fn plain_click_inside_a_group_keeps_the_group() {
    let mut s = Selection::default();
    s.click_block(id(1), true);
    s.click_block(id(2), true);
    s.click_block(id(1), false);
    assert_eq!(s.blocks, vec![id(1), id(2)]);
    assert_eq!(s.main, Some(id(1)));
}

#[test]
fn edge_and_empty_clicks() {
    let mut s = Selection::default();
    s.click_block(id(1), false);
    s.click_dependency(DependencyId(9));
    assert_eq!(s.dependency, Some(DependencyId(9)));
    assert!(s.blocks.is_empty() && s.main.is_none());
    s.click_block(id(4), false);
    assert_eq!(s.dependency, None);
    s.click_empty(true);
    assert_eq!(s.blocks, vec![id(4)], "a marquee may be forming");
    s.click_empty(false);
    assert!(s.blocks.is_empty() && s.main.is_none());
}
