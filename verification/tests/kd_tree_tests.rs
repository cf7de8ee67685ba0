use rust_lio::ikd_node::NodeStatus;
use rust_lio::kd_tree::{criterion_check, flatten, next_axis, select_nth, KdNode, KdTree, NodeGeometry};

#[derive(Clone, Copy, Debug, PartialEq)]
struct Pt {
    x: f64,
    y: f64,
    z: f64,
}

fn pt(x: f64, y: f64, z: f64) -> Pt {
    Pt { x, y, z }
}

impl Pt {
    fn coord(&self, axis: usize) -> f64 {
        match axis {
            0 => self.x,
            1 => self.y,
            _ => self.z,
        }
    }
}

#[derive(Clone, Copy, Debug)]
struct Aabb {
    min: [f64; 3],
    max: [f64; 3],
}

/// Bounding box of the valid points below a node.
#[derive(Clone, Copy, Debug)]
struct Geom {
    range: [[f64; 2]; 3],
}

impl NodeGeometry<Pt> for Geom {
    type Region = Aabb;
    type Params = (f64, f64);
    type Radius = f64;

    fn fresh(_p: &Pt) -> Self {
        Geom { range: [[0.0, 0.0]; 3] }
    }

    fn goes_left(at: &Pt, axis: u8, p: &Pt) -> bool {
        p.coord(axis as usize) < at.coord(axis as usize)
    }

    fn same_point(a: &Pt, b: &Pt) -> bool {
        (a.x - b.x).abs() < 1e-6 && (a.y - b.y).abs() < 1e-6 && (a.z - b.z).abs() < 1e-6
    }

    fn meets(&self, b: &Aabb) -> bool {
        (0..3).all(|i| !(b.max[i] <= self.range[i][0] || b.min[i] > self.range[i][1]))
    }

    fn covers(&self, b: &Aabb) -> bool {
        (0..3).all(|i| b.min[i] <= self.range[i][0] && b.max[i] > self.range[i][1])
    }

    fn point_in(p: &Pt, b: &Aabb) -> bool {
        (0..3).all(|i| b.min[i] <= p.coord(i) && p.coord(i) < b.max[i])
    }

    fn refreshed(
        &self,
        point: &Pt,
        own: &NodeStatus,
        left: Option<(&Self, &NodeStatus)>,
        right: Option<(&Self, &NodeStatus)>,
    ) -> Self {
        let mut g = *self;
        g.refresh(point, own, left, right);
        g
    }

    fn rebuild_wanted(params: &(f64, f64), own: &NodeStatus, son: &NodeStatus) -> bool {
        let del = own.invalid_point_num as f64 / own.tree_size as f64;
        let bal = son.tree_size as f64 / (own.tree_size - 1) as f64;
        del > params.0 || bal > params.1 || bal < 1.0 - params.1
    }

    fn beyond(&self, q: &Pt, radius: &f64) -> bool {
        let (d, r) = self.sphere(q);
        d > radius + r
    }

    fn within(&self, q: &Pt, radius: &f64) -> bool {
        let (d, r) = self.sphere(q);
        d <= radius - r
    }

    fn point_within(p: &Pt, q: &Pt, radius: &f64) -> bool {
        let d2 = (p.x - q.x).powi(2) + (p.y - q.y).powi(2) + (p.z - q.z).powi(2);
        d2 <= radius * radius
    }

    fn split_axis(points: &[Pt]) -> u8 {
        let mut lo = [f64::INFINITY; 3];
        let mut hi = [f64::NEG_INFINITY; 3];
        for p in points {
            for i in 0..3 {
                lo[i] = lo[i].min(p.coord(i));
                hi[i] = hi[i].max(p.coord(i));
            }
        }
        let d = [hi[0] - lo[0], hi[1] - lo[1], hi[2] - lo[2]];
        if d[1] > d[0] && d[1] > d[2] {
            1
        } else if d[2] > d[0] && d[2] > d[1] {
            2
        } else {
            0
        }
    }

    fn less_on_axis(a: &Pt, b: &Pt, axis: u8) -> bool {
        a.coord(axis as usize) < b.coord(axis as usize)
    }
}

impl Geom {
    /// Distance from `q` to the box centre, and the box's half diagonal.
    fn sphere(&self, q: &Pt) -> (f64, f64) {
        let mut d2 = 0.0;
        let mut r2 = 0.0;
        for i in 0..3 {
            let c = (self.range[i][0] + self.range[i][1]) * 0.5;
            let h = (self.range[i][1] - self.range[i][0]) * 0.5;
            d2 += (q.coord(i) - c).powi(2);
            r2 += h * h;
        }
        (d2.sqrt(), r2.sqrt())
    }

    fn refresh(
        &mut self,
        point: &Pt,
        own: &NodeStatus,
        left: Option<(&Self, &NodeStatus)>,
        right: Option<(&Self, &NodeStatus)>,
    ) {
        let mut r = [[f64::INFINITY, f64::NEG_INFINITY]; 3];
        for (g, s) in [left, right].into_iter().flatten() {
            if !s.tree_deleted || own.tree_deleted {
                for i in 0..3 {
                    r[i][0] = r[i][0].min(g.range[i][0]);
                    r[i][1] = r[i][1].max(g.range[i][1]);
                }
            }
        }
        if !own.point_deleted || own.tree_deleted {
            for i in 0..3 {
                r[i][0] = r[i][0].min(point.coord(i));
                r[i][1] = r[i][1].max(point.coord(i));
            }
        }
        self.range = r;
    }
}

const PARAMS: (f64, f64) = (0.5, 0.6);

type Tree = KdTree<Pt, Geom>;

/// Every node's counters agree with its children (none pending here).
fn check_counts(n: &KdNode<Pt, Geom>) -> (i32, i32) {
    let mut size = 1;
    let mut invalid = if n.status.point_deleted { 1 } else { 0 };
    for c in [&n.left_son, &n.right_son].into_iter().flatten() {
        let (s, i) = check_counts(c);
        size += s;
        invalid += if n.status.need_push_down_to_left { s } else { i };
    }
    assert_eq!(n.status.tree_size, size);
    assert_eq!(n.status.invalid_point_num, invalid);
    (size, invalid)
}

#[test]
fn test_add_points() {
    let mut tree = Tree::new();
    tree.build(vec![pt(0.0, 0.0, 0.0), pt(1.0, 0.0, 0.0)]);
    assert_eq!(tree.size(), 2);
    tree.add_by_point(&pt(2.0, 0.0, 0.0), true, &PARAMS);
    assert_eq!(tree.size(), 3);
}

#[test]
fn test_delete_by_range() {
    let mut tree = Tree::new();
    tree.build(vec![pt(0.0, 0.0, 0.0), pt(1.0, 0.0, 0.0), pt(0.0, 1.0, 0.0), pt(5.0, 5.0, 5.0)]);
    assert_eq!(tree.validnum(), 4);
    let delete_box = Aabb { min: [-0.5, -0.5, -0.5], max: [1.5, 1.5, 1.5] };
    let deleted = tree.delete_by_range(&delete_box, true, false, &PARAMS);
    assert_eq!(deleted, 3);
    assert_eq!(tree.validnum(), 1);
}

#[test]
fn empty_tree() {
    let mut tree = Tree::new();
    assert!(tree.is_empty());
    assert_eq!(tree.size(), 0);
    assert_eq!(tree.validnum(), 0);
    assert!(tree.flatten_all().is_empty());
    let everything = Aabb { min: [-9.0; 3], max: [9.0; 3] };
    assert_eq!(tree.delete_by_range(&everything, true, false, &PARAMS), 0);
    tree.delete_by_point(&pt(0.0, 0.0, 0.0), true, &PARAMS);
    assert!(tree.is_empty());
    tree.build(Vec::new());
    assert!(tree.is_empty());
}

#[test]
fn first_point_becomes_the_root() {
    let mut tree = Tree::new();
    tree.add_by_point(&pt(3.0, 2.0, 1.0), true, &PARAMS);
    assert_eq!(tree.size(), 1);
    assert_eq!(tree.validnum(), 1);
    assert_eq!(tree.flatten_all(), vec![pt(3.0, 2.0, 1.0)]);
}

#[test]
fn build_places_the_median_at_the_root() {
    let mut tree = Tree::new();
    let pts: Vec<Pt> = (0..7).map(|i| pt(i as f64, 0.0, 0.0)).collect();
    tree.build(pts);
    assert_eq!(tree.size(), 7);
    let root = tree.root().as_ref().unwrap();
    assert_eq!(root.point, pt(3.0, 0.0, 0.0));
    assert_eq!(root.division_axis, 0);
    check_counts(root);
    let mut all = tree.flatten_all();
    all.sort_by(|a, b| a.x.partial_cmp(&b.x).unwrap());
    assert_eq!(all.len(), 7);
    assert_eq!(all[6], pt(6.0, 0.0, 0.0));
}

#[test]
fn delete_by_point_marks_one_point() {
    let mut tree = Tree::new();
    tree.build(vec![pt(0.0, 0.0, 0.0), pt(1.0, 0.0, 0.0), pt(2.0, 0.0, 0.0)]);
    tree.delete_by_point(&pt(2.0, 0.0, 0.0), true, &PARAMS);
    assert_eq!(tree.size(), 3);
    assert_eq!(tree.validnum(), 2);
    // Deleting it again changes nothing; an absent point neither.
    tree.delete_by_point(&pt(2.0, 0.0, 0.0), true, &PARAMS);
    tree.delete_by_point(&pt(7.0, 0.0, 0.0), true, &PARAMS);
    assert_eq!(tree.validnum(), 2);
    let mut all = tree.flatten_all();
    all.sort_by(|a, b| a.x.partial_cmp(&b.x).unwrap());
    assert_eq!(all, vec![pt(0.0, 0.0, 0.0), pt(1.0, 0.0, 0.0)]);
    check_counts(tree.root().as_ref().unwrap());
}

#[test]
fn covering_box_deletes_a_whole_subtree_lazily() {
    let mut tree = Tree::new();
    tree.build((0..5).map(|i| pt(i as f64, 0.0, 0.0)).collect());
    let everything = Aabb { min: [-1.0; 3], max: [10.0; 3] };
    assert_eq!(tree.delete_by_range(&everything, false, false, &PARAMS), 5);
    assert_eq!(tree.validnum(), 0);
    assert_eq!(tree.size(), 5);
    let root = tree.root().as_ref().unwrap();
    assert!(root.status.tree_deleted);
    assert!(root.status.need_push_down_to_left && root.status.need_push_down_to_right);
    // A second deletion finds nothing left.
    assert_eq!(tree.delete_by_range(&everything, false, false, &PARAMS), 0);
    // Inserting pushes the pending deletion down on the way.
    tree.add_by_point(&pt(10.0, 0.0, 0.0), false, &PARAMS);
    assert_eq!(tree.validnum(), 1);
    assert_eq!(tree.size(), 6);
}

#[test]
fn downsample_deletions_are_counted() {
    let mut tree = Tree::new();
    tree.build((0..3).map(|i| pt(i as f64, 0.0, 0.0)).collect());
    let first = Aabb { min: [-0.5; 3], max: [0.5, 9.0, 9.0] };
    assert_eq!(tree.delete_by_range(&first, false, true, &PARAMS), 1);
    let root = tree.root().as_ref().unwrap();
    assert_eq!(root.status.down_del_num, 1);
    assert_eq!(root.status.invalid_point_num, 1);
}

#[test]
fn unbalanced_insertions_trigger_rebuilds() {
    let mut tree = Tree::new();
    for i in 0..40 {
        tree.add_by_point(&pt(i as f64, 0.0, 0.0), true, &PARAMS);
    }
    assert_eq!(tree.size(), 40);
    assert_eq!(tree.validnum(), 40);
    let root = tree.root().as_ref().unwrap();
    check_counts(root);
    // Without rebuilding the tree would be a chain with no left child.
    assert!(root.left_son.is_some());
}

#[test]
fn rebuild_drops_deleted_nodes() {
    let mut tree = Tree::new();
    tree.build((0..30).map(|i| pt(i as f64, 0.0, 0.0)).collect());
    for i in 0..20 {
        tree.delete_by_point(&pt(i as f64, 0.0, 0.0), true, &PARAMS);
    }
    assert_eq!(tree.validnum(), 10);
    assert!(tree.size() < 30);
    check_counts(tree.root().as_ref().unwrap());
}

#[test]
fn flatten_skips_deleted_points() {
    let mut tree = Tree::new();
    tree.build(vec![pt(0.0, 0.0, 0.0), pt(1.0, 0.0, 0.0), pt(2.0, 0.0, 0.0)]);
    tree.delete_by_point(&pt(0.0, 0.0, 0.0), false, &PARAMS);
    let mut kept = Vec::new();
    flatten(tree.root().as_ref().unwrap(), &mut kept);
    kept.sort_by(|a, b| a.x.partial_cmp(&b.x).unwrap());
    assert_eq!(kept, vec![pt(1.0, 0.0, 0.0), pt(2.0, 0.0, 0.0)]);
    assert!(tree.acquire_removed_points().is_empty());
}

#[test]
fn axis_cycles() {
    assert_eq!(next_axis(0), 1);
    assert_eq!(next_axis(1), 2);
    assert_eq!(next_axis(2), 0);
    assert_eq!(next_axis(254), 0);
}

#[test]
fn without_rebuilds_counts_follow_each_operation() {
    let mut tree = Tree::new();
    tree.build((0..12).map(|i| pt(i as f64, 0.0, 0.0)).collect());
    let before = tree.validnum();
    tree.add_by_point(&pt(20.0, 0.0, 0.0), false, &PARAMS);
    assert_eq!(tree.size(), 13);
    assert_eq!(tree.validnum(), before + 1);
    let b = Aabb { min: [2.5, -1.0, -1.0], max: [7.5, 1.0, 1.0] };
    let valid = tree.validnum();
    let deleted = tree.delete_by_range(&b, false, false, &PARAMS);
    assert_eq!(deleted, 5);
    assert_eq!(deleted, valid - tree.validnum());
    assert_eq!(tree.size(), 13);
}

#[test]
fn rebuild_drops_points_below_a_pending_deletion() {
    let mut tree = Tree::new();
    tree.build((0..15).map(|i| pt(i as f64, 0.0, 0.0)).collect());
    // The left subtree (points 0 to 6) is flagged deleted as a whole.
    let left_half = Aabb { min: [-1.0, -1.0, -1.0], max: [6.5, 1.0, 1.0] };
    assert_eq!(tree.delete_by_range(&left_half, false, false, &PARAMS), 7);
    tree.delete_by_point(&pt(8.0, 0.0, 0.0), false, &PARAMS);
    tree.delete_by_point(&pt(9.0, 0.0, 0.0), false, &PARAMS);
    assert_eq!(tree.validnum(), 6);
    // Inserting with rebuilds allowed rebuilds the root (9 of 16 deleted);
    // the points below the still-pending deletion stay deleted.
    tree.add_by_point(&pt(15.0, 0.0, 0.0), true, &PARAMS);
    assert_eq!(tree.validnum(), 7);
    assert_eq!(tree.size(), 7);
    let mut all: Vec<f64> = tree.flatten_all().iter().map(|p| p.x).collect();
    all.sort_by(|a, b| a.partial_cmp(b).unwrap());
    assert_eq!(all, vec![7.0, 10.0, 11.0, 12.0, 13.0, 14.0, 15.0]);
}

#[test]
fn select_nth_partitions_around_the_kth() {
    let xs = [9.0, 2.0, 7.0, 4.0, 4.0, 8.0, 1.0, 6.0, 3.0];
    for k in 0..xs.len() {
        let mut v: Vec<Pt> = xs.iter().map(|&x| pt(x, 0.0, 0.0)).collect();
        v.insert(0, pt(100.0, 0.0, 0.0));
        v.push(pt(-100.0, 0.0, 0.0));
        let hi = xs.len();
        select_nth::<Pt, Geom>(&mut v, 1, hi, k + 1, 0);
        let mut sorted = xs.to_vec();
        sorted.sort_by(|a, b| a.partial_cmp(b).unwrap());
        assert_eq!(v[k + 1].x, sorted[k]);
        assert!(v[1..k + 1].iter().all(|p| p.x <= sorted[k]));
        assert!(v[k + 2..hi + 1].iter().all(|p| p.x >= sorted[k]));
        // Outside the range nothing moves.
        assert_eq!(v[0].x, 100.0);
        assert_eq!(v[hi + 1].x, -100.0);
        let mut back: Vec<f64> = v[1..hi + 1].iter().map(|p| p.x).collect();
        back.sort_by(|a, b| a.partial_cmp(b).unwrap());
        assert_eq!(back, sorted);
    }
}

#[test]
fn build_keeps_every_point_including_duplicates() {
    let pts = vec![
        pt(1.0, 1.0, 0.0),
        pt(1.0, 1.0, 0.0),
        pt(0.0, 3.0, 0.0),
        pt(2.0, -1.0, 0.0),
        pt(0.0, 3.0, 0.0),
        pt(5.0, 0.0, 2.0),
    ];
    let mut tree = Tree::new();
    tree.build(pts.clone());
    let key = |p: &Pt| (p.x, p.y, p.z);
    let mut got = tree.flatten_all();
    let mut want = pts;
    got.sort_by(|a, b| key(a).partial_cmp(&key(b)).unwrap());
    want.sort_by(|a, b| key(a).partial_cmp(&key(b)).unwrap());
    assert_eq!(got, want);
    check_counts(tree.root().as_ref().unwrap());
}

#[test]
fn test_box_search() {
    let points = vec![pt(0.0, 0.0, 0.0), pt(1.0, 0.0, 0.0), pt(0.0, 1.0, 0.0), pt(5.0, 5.0, 5.0)];
    let mut tree = Tree::new();
    tree.build(points);
    let search_box = Aabb { min: [-0.5, -0.5, -0.5], max: [1.5, 1.5, 1.5] };
    let results = tree.box_search(&search_box);
    assert_eq!(results.len(), 3);
}

#[test]
fn box_search_skips_deleted_points() {
    let mut tree = Tree::new();
    tree.build((0..6).map(|i| pt(i as f64, 0.0, 0.0)).collect());
    tree.delete_by_point(&pt(2.0, 0.0, 0.0), false, &PARAMS);
    let b = Aabb { min: [1.5, -1.0, -1.0], max: [4.5, 1.0, 1.0] };
    let mut xs: Vec<f64> = tree.box_search(&b).iter().map(|p| p.x).collect();
    xs.sort_by(|a, b| a.partial_cmp(b).unwrap());
    assert_eq!(xs, vec![3.0, 4.0]);
    assert!(Tree::new().box_search(&b).is_empty());
}

#[test]
fn test_radius_search() {
    let points = vec![pt(0.0, 0.0, 0.0), pt(0.5, 0.0, 0.0), pt(2.0, 0.0, 0.0)];
    let mut tree = Tree::new();
    tree.build(points);
    let query = pt(0.0, 0.0, 0.0);
    let results = tree.radius_search(&query, &1.0);
    assert_eq!(results.len(), 2);
}

#[test]
fn criterion_check_asks_the_geometry_only_above_the_minimum_size() {
    let mut small = Tree::new();
    small.build((0..5).map(|i| pt(i as f64, 0.0, 0.0)).collect());
    // Five nodes: never rebuilt, whatever the parameters.
    assert!(!criterion_check(small.root().as_ref().unwrap(), &(0.0, 0.0)));
    let mut big = Tree::new();
    big.build((0..15).map(|i| pt(i as f64, 0.0, 0.0)).collect());
    let root = big.root().as_ref().unwrap();
    // A balanced subtree of fifteen nodes: the answer is the criterion's.
    assert!(!criterion_check(root, &PARAMS));
    assert!(criterion_check(root, &(0.0, 0.0)));
}

#[test]
fn test_basic_build_and_search() {
    let points = vec![
        pt(0.0, 0.0, 0.0),
        pt(1.0, 0.0, 0.0),
        pt(0.0, 1.0, 0.0),
        pt(0.0, 0.0, 1.0),
        pt(1.0, 1.0, 1.0),
    ];
    let mut tree = Tree::new();
    tree.build(points);
    assert_eq!(tree.size(), 5);
    assert_eq!(tree.validnum(), 5);
}

#[test]
fn a_pending_subtree_deletion_hides_every_point_below() {
    let mut tree = Tree::new();
    tree.build((0..7).map(|i| pt(i as f64, 0.0, 0.0)).collect());
    // The left subtree (x = 0, 1, 2) lies wholly in the box: only its root
    // is flagged, its children learn of it lazily.
    let left_box = Aabb { min: [-0.5, -0.5, -0.5], max: [2.5, 0.5, 0.5] };
    assert_eq!(tree.delete_by_range(&left_box, false, false, &PARAMS), 3);
    assert_eq!(tree.size(), 7);
    assert_eq!(tree.validnum(), 4);
    let mut all = tree.flatten_all();
    all.sort_by(|a, b| a.x.partial_cmp(&b.x).unwrap());
    assert_eq!(all, vec![pt(3.0, 0.0, 0.0), pt(4.0, 0.0, 0.0), pt(5.0, 0.0, 0.0), pt(6.0, 0.0, 0.0)]);
    let everything = Aabb { min: [-9.0; 3], max: [9.0; 3] };
    assert_eq!(tree.box_search(&everything).len(), 4);
    assert_eq!(tree.radius_search(&pt(1.0, 0.0, 0.0), &1.5).len(), 0);
}

#[test]
fn deleting_everything_by_box_leaves_nothing_to_collect() {
    let mut tree = Tree::new();
    tree.build(vec![pt(0.0, 0.0, 0.0), pt(1.0, 0.0, 0.0), pt(2.0, 0.0, 0.0)]);
    let b = Aabb { min: [-0.5, -0.5, -0.5], max: [2.5, 0.5, 0.5] };
    assert_eq!(tree.delete_by_range(&b, true, false, &PARAMS), 3);
    assert_eq!(tree.validnum(), 0);
    assert!(tree.flatten_all().is_empty());
    assert!(tree.box_search(&b).is_empty());
    assert!(tree.radius_search(&pt(1.0, 0.0, 0.0), &5.0).is_empty());
    // A point added afterwards is the only valid one.
    tree.add_by_point(&pt(1.0, 0.0, 0.0), true, &PARAMS);
    assert_eq!(tree.validnum(), 1);
    assert_eq!(tree.flatten_all(), vec![pt(1.0, 0.0, 0.0)]);
}

#[test]
fn deleting_two_points_leaves_the_others() {
    let mut tree = Tree::new();
    tree.build(vec![pt(0.0, 0.0, 0.0), pt(1.0, 0.0, 0.0), pt(0.0, 1.0, 0.0), pt(5.0, 5.0, 5.0)]);
    tree.delete_by_point(&pt(0.0, 0.0, 0.0), true, &PARAMS);
    tree.delete_by_point(&pt(0.0, 1.0, 0.0), true, &PARAMS);
    assert_eq!(tree.validnum(), 2);
    let mut all = tree.flatten_all();
    all.sort_by(|a, b| a.x.partial_cmp(&b.x).unwrap());
    assert_eq!(all, vec![pt(1.0, 0.0, 0.0), pt(5.0, 5.0, 5.0)]);
}

#[test]
fn every_point_put_in_can_be_deleted_again() {
    let mut tree = Tree::new();
    let built: Vec<Pt> = vec![
        pt(0.0, 0.0, 0.0),
        pt(0.0, 1.0, 0.0),
        pt(0.0, 2.0, 0.0),
        pt(1.0, 0.0, 0.0),
        pt(2.0, 2.0, 2.0),
        pt(2.0, 2.0, 2.0),
    ];
    tree.build(built.clone());
    let added: Vec<Pt> = (0..20).map(|i| pt((i % 3) as f64, (i % 4) as f64, 0.5)).collect();
    for p in &added {
        tree.add_by_point(p, true, &PARAMS);
    }
    let total = (built.len() + added.len()) as i32;
    assert_eq!(tree.validnum(), total);
    let mut left = total;
    for p in built.iter().chain(added.iter()) {
        tree.delete_by_point(p, true, &PARAMS);
        left -= 1;
        assert_eq!(tree.validnum(), left);
    }
    assert!(tree.flatten_all().is_empty());
}
