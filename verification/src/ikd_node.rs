//! Bookkeeping of an ikd-tree node: subtree size, deletion counters and the
//! deletion flags that are pushed down lazily to the children.
//!
//! A node of an ikd-tree stores one point and two subtrees. Points are never
//! removed right away: they are flagged as deleted (or as deleted by
//! downsampling), whole subtrees are flagged at once and the flags reach the
//! children only when the node is next visited. The counters of a node
//! describe its whole subtree: `tree_size` nodes, of which
//! `invalid_point_num` are deleted and `down_del_num` were deleted by
//! downsampling.
use vstd::prelude::*;

verus! {

/// Deletion state and counters of one node and its subtree.
#[derive(Debug, Clone, Copy, PartialEq, Eq, Structural)]
pub struct NodeStatus {
    /// Number of nodes in the subtree.
    pub tree_size: i32,
    /// Number of deleted points in the subtree.
    pub invalid_point_num: i32,
    /// Number of points of the subtree deleted by downsampling.
    pub down_del_num: i32,
    /// This node's point is deleted.
    pub point_deleted: bool,
    /// Every point of the subtree is deleted.
    pub tree_deleted: bool,
    /// This node's point was deleted by downsampling.
    pub point_downsample_deleted: bool,
    /// Every point of the subtree was deleted by downsampling.
    pub tree_downsample_deleted: bool,
    /// The subtree deletion still has to reach the left child.
    pub need_push_down_to_left: bool,
    /// The subtree deletion still has to reach the right child.
    pub need_push_down_to_right: bool,
}

impl NodeStatus {
    /// The counters and flags agree with each other.
    pub open spec fn wf(self) -> bool {
        &&& 1 <= self.tree_size
        &&& 0 <= self.down_del_num <= self.invalid_point_num <= self.tree_size
        &&& self.point_downsample_deleted ==> self.point_deleted
        &&& self.tree_downsample_deleted ==> self.tree_deleted
        &&& self.tree_deleted ==> self.point_deleted && self.invalid_point_num == self.tree_size
        &&& self.tree_downsample_deleted ==> self.point_downsample_deleted && self.down_del_num
            == self.tree_size
        &&& self.point_deleted ==> self.invalid_point_num >= 1
        &&& !self.point_deleted ==> self.invalid_point_num < self.tree_size
        &&& self.point_downsample_deleted ==> self.down_del_num >= 1
        &&& self.need_push_down_to_left || self.need_push_down_to_right ==> self.tree_deleted
    }

    /// Number of points of the subtree that are not deleted.
    pub open spec fn valid_num(self) -> int {
        self.tree_size - self.invalid_point_num
    }

    /// Size contributed by an optional child.
    pub open spec fn size_of(c: Option<&NodeStatus>) -> int {
        match c {
            Some(s) => s.tree_size as int,
            None => 0,
        }
    }

    /// Deleted points contributed by an optional child.
    pub open spec fn invalid_of(c: Option<&NodeStatus>) -> int {
        match c {
            Some(s) => s.invalid_point_num as int,
            None => 0,
        }
    }

    /// Downsample-deleted points contributed by an optional child.
    pub open spec fn down_del_of(c: Option<&NodeStatus>) -> int {
        match c {
            Some(s) => s.down_del_num as int,
            None => 0,
        }
    }

    /// An optional child is wholly deleted (an absent child counts as such).
    pub open spec fn all_deleted(c: Option<&NodeStatus>) -> bool {
        match c {
            Some(s) => s.tree_deleted,
            None => true,
        }
    }

    /// An optional child is wholly deleted by downsampling (an absent child
    /// counts as such).
    pub open spec fn all_downsample_deleted(c: Option<&NodeStatus>) -> bool {
        match c {
            Some(s) => s.tree_downsample_deleted,
            None => true,
        }
    }

    /// An optional child is well formed.
    pub open spec fn child_wf(c: Option<&NodeStatus>) -> bool {
        match c {
            Some(s) => s.wf(),
            None => true,
        }
    }

    /// An optional status is well formed.
    pub open spec fn opt_wf(c: Option<NodeStatus>) -> bool {
        match c {
            Some(s) => s.wf(),
            None => true,
        }
    }

    /// The status of a fresh node: one point, nothing deleted.
    pub fn new() -> (r: NodeStatus)
        ensures
            r.wf(),
            r.tree_size == 1,
            r.invalid_point_num == 0,
            r.down_del_num == 0,
            !r.point_deleted,
            !r.tree_deleted,
            !r.point_downsample_deleted,
            !r.tree_downsample_deleted,
            !r.need_push_down_to_left,
            !r.need_push_down_to_right,
    {
        NodeStatus {
            tree_size: 1,
            invalid_point_num: 0,
            down_del_num: 0,
            point_deleted: false,
            tree_deleted: false,
            point_downsample_deleted: false,
            tree_downsample_deleted: false,
            need_push_down_to_left: false,
            need_push_down_to_right: false,
        }
    }

    /// Number of points of the subtree that are not deleted.
    pub fn valid_count(&self) -> (r: i32)
        requires
            self.wf(),
        ensures
            r == self.valid_num(),
            0 <= r <= self.tree_size,
    {
        self.tree_size - self.invalid_point_num
    }

    /// Recomputes the counters and subtree flags of a node from its own
    /// flags and its children's status: the size, deleted and
    /// downsample-deleted counts are the children's plus the node's own, and
    /// the subtree counts as deleted when the node's point and every child
    /// subtree are.
    pub fn update_counts(&mut self, left: Option<&NodeStatus>, right: Option<&NodeStatus>)
        requires
            NodeStatus::child_wf(left),
            NodeStatus::child_wf(right),
            NodeStatus::size_of(left) + NodeStatus::size_of(right) + 1
                <= i32::MAX,
            old(self).point_downsample_deleted ==> old(self).point_deleted,
            !old(self).need_push_down_to_left,
            !old(self).need_push_down_to_right,
        ensures
            final(self).wf(),
            final(self).tree_size == NodeStatus::size_of(left) + NodeStatus::size_of(
                right,
            ) + 1,
            final(self).invalid_point_num == NodeStatus::invalid_of(left)
                + NodeStatus::invalid_of(right) + (if old(self).point_deleted {
                1int
            } else {
                0int
            }),
            final(self).down_del_num == NodeStatus::down_del_of(left)
                + NodeStatus::down_del_of(right) + (if old(self).point_downsample_deleted {
                1int
            } else {
                0int
            }),
            final(self).tree_deleted == (NodeStatus::all_deleted(left)
                && NodeStatus::all_deleted(right) && old(self).point_deleted),
            final(self).tree_downsample_deleted == (NodeStatus::all_downsample_deleted(
                left,
            ) && NodeStatus::all_downsample_deleted(right) && old(self).point_downsample_deleted),
            final(self).point_deleted == old(self).point_deleted,
            final(self).point_downsample_deleted == old(self).point_downsample_deleted,
            final(self).need_push_down_to_left == old(self).need_push_down_to_left,
            final(self).need_push_down_to_right == old(self).need_push_down_to_right,
    {
        let own_invalid: i32 = if self.point_deleted {
            1
        } else {
            0
        };
        let own_down: i32 = if self.point_downsample_deleted {
            1
        } else {
            0
        };
        match (left, right) {
            (Some(l), Some(r)) => {
                self.tree_size = l.tree_size + r.tree_size + 1;
                self.invalid_point_num = l.invalid_point_num + r.invalid_point_num + own_invalid;
                self.down_del_num = l.down_del_num + r.down_del_num + own_down;
                self.tree_downsample_deleted = l.tree_downsample_deleted
                    && r.tree_downsample_deleted && self.point_downsample_deleted;
                self.tree_deleted = l.tree_deleted && r.tree_deleted && self.point_deleted;
            },
            (Some(l), None) => {
                self.tree_size = l.tree_size + 1;
                self.invalid_point_num = l.invalid_point_num + own_invalid;
                self.down_del_num = l.down_del_num + own_down;
                self.tree_downsample_deleted = l.tree_downsample_deleted
                    && self.point_downsample_deleted;
                self.tree_deleted = l.tree_deleted && self.point_deleted;
            },
            (None, Some(r)) => {
                self.tree_size = r.tree_size + 1;
                self.invalid_point_num = r.invalid_point_num + own_invalid;
                self.down_del_num = r.down_del_num + own_down;
                self.tree_downsample_deleted = r.tree_downsample_deleted
                    && self.point_downsample_deleted;
                self.tree_deleted = r.tree_deleted && self.point_deleted;
            },
            (None, None) => {
                self.tree_size = 1;
                self.invalid_point_num = own_invalid;
                self.down_del_num = own_down;
                self.tree_downsample_deleted = self.point_downsample_deleted;
                self.tree_deleted = self.point_deleted;
            },
        }
    }

    /// What a pending subtree deletion of `parent` does to a child.
    pub open spec fn pushed(parent: NodeStatus, child: NodeStatus) -> NodeStatus {
        let tdd = child.tree_downsample_deleted || parent.tree_downsample_deleted;
        let pdd = child.point_downsample_deleted || parent.tree_downsample_deleted;
        let td = parent.tree_deleted || tdd;
        let down = if parent.tree_downsample_deleted {
            child.tree_size
        } else {
            child.down_del_num
        };
        NodeStatus {
            tree_size: child.tree_size,
            invalid_point_num: if parent.tree_deleted {
                child.tree_size
            } else {
                down
            },
            down_del_num: down,
            point_deleted: td || pdd,
            tree_deleted: td,
            point_downsample_deleted: pdd,
            tree_downsample_deleted: tdd,
            need_push_down_to_left: true,
            need_push_down_to_right: true,
        }
    }

    /// Hands a pending subtree deletion of `self` on to one child.
    fn push_to(&self, child: &mut NodeStatus)
        ensures
            *final(child) == NodeStatus::pushed(*self, *old(child)),
    {
        child.tree_downsample_deleted = child.tree_downsample_deleted
            || self.tree_downsample_deleted;
        child.point_downsample_deleted = child.point_downsample_deleted
            || self.tree_downsample_deleted;
        child.tree_deleted = self.tree_deleted || child.tree_downsample_deleted;
        child.point_deleted = child.tree_deleted || child.point_downsample_deleted;
        if self.tree_downsample_deleted {
            child.down_del_num = child.tree_size;
        }
        if self.tree_deleted {
            child.invalid_point_num = child.tree_size;
        } else {
            child.invalid_point_num = child.down_del_num;
        }
        child.need_push_down_to_left = true;
        child.need_push_down_to_right = true;
    }

    /// What a child looks like after the pending deletion of `parent` on that
    /// side has been handled (an absent child stays absent).
    pub open spec fn after_push(parent: NodeStatus, pending: bool, child: Option<NodeStatus>) -> Option<
        NodeStatus,
    > {
        match child {
            Some(c) => if pending {
                Some(NodeStatus::pushed(parent, c))
            } else {
                Some(c)
            },
            None => None,
        }
    }

    /// A child that received a pending deletion is wholly deleted.
    pub open spec fn received_deletion(pending: bool, child: Option<NodeStatus>) -> bool {
        match child {
            Some(c) => pending ==> c.tree_deleted && c.valid_num() == 0,
            None => true,
        }
    }

    /// Hands the pending subtree deletion on to the children that still need
    /// it (the children's statuses are passed in and updated in place), and
    /// clears the pending flags. A child that receives it ends wholly deleted,
    /// with every point counted as deleted, and itself pending.
    pub fn push_down(&mut self, left: &mut Option<NodeStatus>, right: &mut Option<NodeStatus>)
        requires
            old(self).wf(),
            NodeStatus::opt_wf(*old(left)),
            NodeStatus::opt_wf(*old(right)),
        ensures
            final(self).wf(),
            *final(self) == (NodeStatus {
                need_push_down_to_left: false,
                need_push_down_to_right: false,
                ..*old(self)
            }),
            *final(left) == NodeStatus::after_push(
                *old(self),
                old(self).need_push_down_to_left,
                *old(left),
            ),
            *final(right) == NodeStatus::after_push(
                *old(self),
                old(self).need_push_down_to_right,
                *old(right),
            ),
            NodeStatus::opt_wf(*final(left)),
            NodeStatus::opt_wf(*final(right)),
            NodeStatus::received_deletion(old(self).need_push_down_to_left, *final(left)),
            NodeStatus::received_deletion(old(self).need_push_down_to_right, *final(right)),
    {
        if self.need_push_down_to_left {
            if let Some(c) = left {
                self.push_to(c);
            }
            self.need_push_down_to_left = false;
        }
        if self.need_push_down_to_right {
            if let Some(c) = right {
                self.push_to(c);
            }
            self.need_push_down_to_right = false;
        }
    }

    /// Deletes this node's point, which is not deleted yet. The subtree
    /// becomes wholly deleted when that was its last valid point.
    pub fn mark_point_deleted(&mut self)
        requires
            old(self).wf(),
            !old(self).point_deleted,
        ensures
            final(self).wf(),
            final(self).point_deleted,
            final(self).invalid_point_num == old(self).invalid_point_num + 1,
            final(self).tree_deleted == (final(self).invalid_point_num == final(self).tree_size),
            final(self).valid_num() == old(self).valid_num() - 1,
            final(self).tree_size == old(self).tree_size,
            final(self).down_del_num == old(self).down_del_num,
            final(self).point_downsample_deleted == old(self).point_downsample_deleted,
            final(self).tree_downsample_deleted == old(self).tree_downsample_deleted,
            final(self).need_push_down_to_left == old(self).need_push_down_to_left,
            final(self).need_push_down_to_right == old(self).need_push_down_to_right,
    {
        self.point_deleted = true;
        self.invalid_point_num = self.invalid_point_num + 1;
        if self.invalid_point_num == self.tree_size {
            self.tree_deleted = true;
        }
    }

    /// Deletes the whole subtree at once (optionally as a downsampling
    /// deletion); the children learn of it lazily. Returns how many points
    /// this deleted, that is the subtree's valid points before the call.
    pub fn mark_subtree_deleted(&mut self, is_downsample: bool) -> (deleted: i32)
        requires
            old(self).wf(),
        ensures
            final(self).wf(),
            deleted == old(self).valid_num(),
            final(self).valid_num() == 0,
            final(self).tree_deleted,
            final(self).point_deleted,
            final(self).need_push_down_to_left,
            final(self).need_push_down_to_right,
            final(self).tree_size == old(self).tree_size,
            is_downsample ==> final(self).tree_downsample_deleted
                && final(self).point_downsample_deleted && final(self).down_del_num
                == final(self).tree_size,
            !is_downsample ==> final(self).tree_downsample_deleted == old(self).tree_downsample_deleted && final(self).point_downsample_deleted == old(self).point_downsample_deleted && final(self).down_del_num == old(self).down_del_num,
    {
        self.tree_deleted = true;
        self.point_deleted = true;
        self.need_push_down_to_left = true;
        self.need_push_down_to_right = true;
        let deleted = self.tree_size - self.invalid_point_num;
        self.invalid_point_num = self.tree_size;
        if is_downsample {
            self.tree_downsample_deleted = true;
            self.point_downsample_deleted = true;
            self.down_del_num = self.tree_size;
        }
        deleted
    }

    /// Deletes this node's point when it lies in the deletion box and is not
    /// deleted yet; returns 1 when it did, 0 otherwise. The counters are
    /// brought up to date by the `update_counts` that follows.
    pub fn mark_point_in_box_deleted(&mut self, in_box: bool, is_downsample: bool) -> (deleted: i32)
        requires
            old(self).point_downsample_deleted ==> old(self).point_deleted,
        ensures
            final(self).point_downsample_deleted ==> final(self).point_deleted,
            deleted == (if in_box && !old(self).point_deleted {
                1int
            } else {
                0int
            }),
            final(self).point_deleted == (old(self).point_deleted || in_box),
            final(self).point_downsample_deleted == (old(self).point_downsample_deleted || (
            in_box && !old(self).point_deleted && is_downsample)),
            final(self).tree_size == old(self).tree_size,
            final(self).invalid_point_num == old(self).invalid_point_num,
            final(self).down_del_num == old(self).down_del_num,
            final(self).tree_deleted == old(self).tree_deleted,
            final(self).tree_downsample_deleted == old(self).tree_downsample_deleted,
            final(self).need_push_down_to_left == old(self).need_push_down_to_left,
            final(self).need_push_down_to_right == old(self).need_push_down_to_right,
    {
        if !self.point_deleted && in_box {
            self.point_deleted = true;
            if is_downsample {
                self.point_downsample_deleted = true;
            }
            1
        } else {
            0
        }
    }
}

} // verus!
