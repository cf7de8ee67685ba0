use rust_lio::ikd_node::NodeStatus;

fn leaf() -> NodeStatus {
    NodeStatus::new()
}

#[test]
fn fresh_node_counts_itself() {
    let s = leaf();
    assert_eq!(s.tree_size, 1);
    assert_eq!(s.valid_count(), 1);
    assert!(!s.point_deleted && !s.tree_deleted);
}

#[test]
fn counts_combine_children() {
    let mut l = leaf();
    l.mark_point_deleted();
    let r = leaf();
    let mut root = leaf();
    root.update_counts(Some(&l), Some(&r));
    assert_eq!(root.tree_size, 3);
    assert_eq!(root.invalid_point_num, 1);
    assert_eq!(root.valid_count(), 2);
    assert!(!root.tree_deleted);
    let mut only = leaf();
    only.update_counts(Some(&l), None);
    assert_eq!(only.tree_size, 2);
    assert_eq!(only.valid_count(), 1);
}

#[test]
fn last_point_deleted_deletes_the_tree() {
    let mut s = leaf();
    s.mark_point_deleted();
    assert!(s.point_deleted);
    assert!(s.tree_deleted);
    assert_eq!(s.valid_count(), 0);
}

#[test]
fn subtree_deletion_counts_valid_points_and_is_pushed_down() {
    let mut l = leaf();
    l.mark_point_deleted();
    let r = leaf();
    let mut root = leaf();
    root.update_counts(Some(&l), Some(&r));
    let deleted = root.mark_subtree_deleted(false);
    assert_eq!(deleted, 2);
    assert_eq!(root.valid_count(), 0);
    assert!(root.need_push_down_to_left && root.need_push_down_to_right);
    let mut left = Some(l);
    let mut right = Some(r);
    root.push_down(&mut left, &mut right);
    assert!(!root.need_push_down_to_left && !root.need_push_down_to_right);
    let (l2, r2) = (left.unwrap(), right.unwrap());
    assert!(l2.tree_deleted && r2.tree_deleted);
    assert!(r2.point_deleted);
    assert_eq!(r2.valid_count(), 0);
    assert!(r2.need_push_down_to_left);
    // Nothing to push the second time.
    let mut again = Some(r2);
    let mut none = None;
    root.push_down(&mut again, &mut none);
    assert_eq!(again, Some(r2));
    assert_eq!(none, None);
}

#[test]
fn downsample_deletion_is_recorded() {
    let mut root = leaf();
    root.update_counts(Some(&leaf()), None);
    root.mark_subtree_deleted(true);
    assert!(root.tree_downsample_deleted && root.point_downsample_deleted);
    assert_eq!(root.down_del_num, 2);
    let mut child = Some(leaf());
    let mut none = None;
    root.push_down(&mut child, &mut none);
    let c = child.unwrap();
    assert!(c.tree_downsample_deleted && c.point_downsample_deleted);
    assert_eq!(c.down_del_num, 1);
}

#[test]
fn point_in_box_deletion() {
    let mut s = leaf();
    assert_eq!(s.mark_point_in_box_deleted(false, false), 0);
    assert!(!s.point_deleted);
    assert_eq!(s.mark_point_in_box_deleted(true, true), 1);
    assert!(s.point_deleted && s.point_downsample_deleted);
    assert_eq!(s.mark_point_in_box_deleted(true, false), 0);
    s.update_counts(None, None);
    assert_eq!(s.invalid_point_num, 1);
    assert_eq!(s.down_del_num, 1);
    assert!(s.tree_deleted);
}
