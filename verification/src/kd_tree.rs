//! Structure of an ikd-tree: the nodes, their counters and lazy deletion
//! flags, and the operations that insert, delete and rebuild.
//!
//! The geometry of the points (coordinates, bounding boxes, the side a point
//! goes to, whether a box holds a point) is supplied by the caller through
//! `NodeGeometry`; every node keeps its own geometry value. What is proved
//! here holds whatever the geometry decides: every operation keeps the
//! counters of every node in agreement with the subtree below it, and the
//! valid-point counter equal to the number of points not deleted (a deletion
//! still pending at a subtree counts for every node below it). A build holds
//! exactly the points it was given; an insertion adds exactly its point to
//! the valid points; a deletion by point removes at most one valid point, one
//! the geometry finds the same; a deletion by region removes exactly the
//! valid points a search of that region would return, its count being the
//! drop in valid points. Rebuilds keep the valid points, so all of this holds
//! with rebuilds too; without them the nodes themselves stay. A search
//! appends exactly the valid points that the geometry's answers select, and a
//! selection puts the item in its place for any strict order.
//!
//! Every node brought up to date gets the geometry's refresh over its point,
//! status and children, and every node of a built or rebuilt subtree has it.
//! When the geometry's answers agree (`sides_agree`: the split order is
//! strict, `goes_left` follows it, and every point is the same as itself),
//! builds, insertions and deletions keep each left subtree before and each
//! right subtree after its node's point (`ordered`), so a deletion by point
//! always finds a valid point that was put in.
use crate::ikd_node::NodeStatus;
use crate::swap::{lemma_swap_range_multiset, swap_items, swapped};
use vstd::multiset::Multiset;
use vstd::prelude::*;

verus! {

broadcast use vstd::multiset::group_multiset_axioms;

/// Geometry of the points stored in a tree, and the decisions taken on it.
/// Each node keeps a geometry value (its bounding box and statistics).
pub trait NodeGeometry<P>: Sized {
    /// A query region (a box).
    type Region;
    /// Parameters of the rebuild criterion.
    type Params;
    /// A search radius.
    type Radius;

    /// Geometry of a fresh node that holds `p`.
    fn fresh(p: &P) -> Self;

    /// Whether `p` belongs on the left of a node holding `at` that splits on
    /// `axis`.
    fn goes_left(at: &P, axis: u8, p: &P) -> bool;

    /// Whether `a` and `b` are the same point.
    fn same_point(a: &P, b: &P) -> bool;

    /// Whether the region meets the node's bounding box.
    fn meets(&self, region: &Self::Region) -> bool;

    /// Whether the region contains the node's bounding box.
    fn covers(&self, region: &Self::Region) -> bool;

    /// Whether the region contains the point.
    fn point_in(p: &P, region: &Self::Region) -> bool;

    /// A node's geometry recomputed from its former geometry, its point, its
    /// status and its children's geometry and status (its bounding box and
    /// statistics).
    fn refreshed(
        &self,
        point: &P,
        own: &NodeStatus,
        left: Option<(&Self, &NodeStatus)>,
        right: Option<(&Self, &NodeStatus)>,
    ) -> Self;

    /// Whether a subtree with status `own` and first child `son` should be
    /// rebuilt (the size and child checks have been made).
    fn rebuild_wanted(params: &Self::Params, own: &NodeStatus, son: &NodeStatus) -> bool;

    /// Whether the node's bounding sphere lies wholly farther than `radius`
    /// from `q`.
    fn beyond(&self, q: &P, radius: &Self::Radius) -> bool;

    /// Whether the node's bounding sphere lies wholly within `radius` of `q`.
    fn within(&self, q: &P, radius: &Self::Radius) -> bool;

    /// Whether `p` lies within `radius` of `q`.
    fn point_within(p: &P, q: &P, radius: &Self::Radius) -> bool;

    /// The axis to split `points` on.
    fn split_axis(points: &[P]) -> u8;

    /// Whether `a` comes before `b` along `axis`.
    fn less_on_axis(a: &P, b: &P, axis: u8) -> bool;
}

/// A node and the subtree below it.
pub struct KdNode<P, G> {
    pub point: P,
    pub geom: G,
    /// Split axis (0 = x, 1 = y, 2 = z).
    pub division_axis: u8,
    pub status: NodeStatus,
    /// Set while an operation is under way at this node.
    pub working_flag: bool,
    pub left_son: Option<Box<KdNode<P, G>>>,
    pub right_son: Option<Box<KdNode<P, G>>>,
}

/// Status of an optional child.
pub open spec fn status_of<P, G>(c: Option<Box<KdNode<P, G>>>) -> Option<NodeStatus> {
    match c {
        Some(b) => Some(b.status),
        None => None,
    }
}

/// Size of an optional subtree status (0 when absent).
pub open spec fn o_size(o: Option<NodeStatus>) -> int {
    match o {
        Some(s) => s.tree_size as int,
        None => 0,
    }
}

/// Deleted points of an optional subtree status (0 when absent).
pub open spec fn o_invalid(o: Option<NodeStatus>) -> int {
    match o {
        Some(s) => s.invalid_point_num as int,
        None => 0,
    }
}

/// Downsample-deleted points of an optional subtree status (0 when absent).
pub open spec fn o_down(o: Option<NodeStatus>) -> int {
    match o {
        Some(s) => s.down_del_num as int,
        None => 0,
    }
}

/// An optional subtree status is wholly deleted (an absent one counts as such).
pub open spec fn o_deleted(o: Option<NodeStatus>) -> bool {
    match o {
        Some(s) => s.tree_deleted,
        None => true,
    }
}

/// An optional subtree status is wholly deleted by downsampling (an absent
/// one counts as such).
pub open spec fn o_down_deleted(o: Option<NodeStatus>) -> bool {
    match o {
        Some(s) => s.tree_downsample_deleted,
        None => true,
    }
}

/// 1 when `b` holds, else 0.
pub open spec fn one_if(b: bool) -> int {
    if b {
        1
    } else {
        0
    }
}

/// The counters and subtree flags of `s` are those of its children plus its
/// own point.
pub open spec fn agrees(s: NodeStatus, l: Option<NodeStatus>, r: Option<NodeStatus>) -> bool {
    &&& s.tree_size == o_size(l) + o_size(r) + 1
    &&& s.invalid_point_num == o_invalid(l) + o_invalid(r) + one_if(s.point_deleted)
    &&& s.down_del_num == o_down(l) + o_down(r) + one_if(s.point_downsample_deleted)
    &&& s.tree_deleted == (o_deleted(l) && o_deleted(r) && s.point_deleted)
    &&& s.tree_downsample_deleted == (o_down_deleted(l) && o_down_deleted(r)
        && s.point_downsample_deleted)
}

impl<P, G> KdNode<P, G> {
    /// The left child's status once the pending deletion reaches it.
    pub open spec fn eff_left(self) -> Option<NodeStatus> {
        NodeStatus::after_push(self.status, self.status.need_push_down_to_left, status_of(self.left_son))
    }

    /// The right child's status once the pending deletion reaches it.
    pub open spec fn eff_right(self) -> Option<NodeStatus> {
        NodeStatus::after_push(self.status, self.status.need_push_down_to_right, status_of(self.right_son))
    }

    /// Every node of the subtree has consistent counters that agree with its
    /// children (as they are once pending deletions reach them).
    pub open spec fn tree_wf(self) -> bool
        decreases self,
    {
        &&& self.status.wf()
        &&& self.status.need_push_down_to_left == self.status.need_push_down_to_right
        &&& agrees(self.status, self.eff_left(), self.eff_right())
        &&& match self.left_son {
            Some(l) => l.tree_wf(),
            None => true,
        }
        &&& match self.right_son {
            Some(r) => r.tree_wf(),
            None => true,
        }
    }

    /// Points of the subtree that are not deleted, in preorder: a subtree
    /// flagged deleted holds none (a deletion still pending at it reaches
    /// every node below it), otherwise each node whose own deletion flag is
    /// clear gives its point.
    pub open spec fn flat(self) -> Seq<P>
        decreases self,
    {
        if self.status.tree_deleted {
            Seq::<P>::empty()
        } else {
            (if self.status.point_deleted {
                Seq::<P>::empty()
            } else {
                seq![self.point]
            }) + match self.left_son {
                Some(l) => l.flat(),
                None => Seq::<P>::empty(),
            } + match self.right_son {
                Some(r) => r.flat(),
                None => Seq::<P>::empty(),
            }
        }
    }

    /// The node's own point, unless its own deletion flag is set.
    pub open spec fn own_flat(self) -> Seq<P> {
        if self.status.point_deleted {
            Seq::<P>::empty()
        } else {
            seq![self.point]
        }
    }

    /// The node's own point (unless flagged deleted) followed by the points
    /// that are not deleted of each child.
    pub open spec fn parts_flat(self) -> Seq<P> {
        self.own_flat() + opt_flat(self.left_son) + opt_flat(self.right_son)
    }

    /// The points of all nodes of the subtree, deleted or not.
    pub open spec fn all_points(self) -> Multiset<P>
        decreases self,
    {
        Multiset::singleton(self.point).add(
            match self.left_son {
                Some(l) => l.all_points(),
                None => Multiset::empty(),
            },
        ).add(
            match self.right_son {
                Some(r) => r.all_points(),
                None => Multiset::empty(),
            },
        )
    }

    /// Number of nodes of the subtree.
    pub open spec fn node_count(self) -> nat
        decreases self,
    {
        1 + match self.left_son {
            Some(l) => l.node_count(),
            None => 0,
        } + match self.right_son {
            Some(r) => r.node_count(),
            None => 0,
        }
    }
}

/// An optional subtree is well formed.
pub open spec fn opt_tree_wf<P, G>(t: Option<Box<KdNode<P, G>>>) -> bool {
    match t {
        Some(n) => n.tree_wf(),
        None => true,
    }
}

/// Points of an optional subtree.
pub open spec fn opt_points<P, G>(t: Option<Box<KdNode<P, G>>>) -> Multiset<P> {
    match t {
        Some(n) => n.all_points(),
        None => Multiset::empty(),
    }
}

/// Points that are not deleted of an optional subtree.
pub open spec fn opt_flat<P, G>(t: Option<Box<KdNode<P, G>>>) -> Seq<P> {
    match t {
        Some(n) => n.flat(),
        None => Seq::empty(),
    }
}

/// Number of nodes of an optional subtree.
pub open spec fn opt_count<P, G>(t: Option<Box<KdNode<P, G>>>) -> nat {
    match t {
        Some(n) => n.node_count(),
        None => 0,
    }
}

/// A child that receives a pending deletion is still well formed, with the
/// deletion now pending at it.
pub proof fn lemma_pushed_child<P, G>(parent: NodeStatus, c: KdNode<P, G>)
    requires
        parent.wf(),
        parent.tree_deleted,
        c.tree_wf(),
    ensures
        (KdNode { status: NodeStatus::pushed(parent, c.status), ..c }).tree_wf(),
{
    let c2 = KdNode { status: NodeStatus::pushed(parent, c.status), ..c };
    assert(c2.status.wf());
    assert(agrees(c2.status, c2.eff_left(), c2.eff_right()));
}

/// In a well-formed subtree the size counter is the number of nodes.
pub proof fn lemma_size_is_count<P, G>(n: KdNode<P, G>)
    requires
        n.tree_wf(),
    ensures
        n.status.tree_size == n.node_count(),
    decreases n,
{
    match n.left_son {
        Some(l) => lemma_size_is_count(*l),
        None => {},
    }
    match n.right_son {
        Some(r) => lemma_size_is_count(*r),
        None => {},
    }
}

/// Hands the node's pending deletion on to its children.
pub fn push_down_node<P, G: NodeGeometry<P>>(node: &mut KdNode<P, G>)
    requires
        old(node).tree_wf(),
    ensures
        final(node).tree_wf(),
        final(node).status == (NodeStatus {
            need_push_down_to_left: false,
            need_push_down_to_right: false,
            ..old(node).status
        }),
        status_of(final(node).left_son) == old(node).eff_left(),
        status_of(final(node).right_son) == old(node).eff_right(),
        final(node).node_count() == old(node).node_count(),
        opt_count(final(node).left_son) == opt_count(old(node).left_son),
        opt_count(final(node).right_son) == opt_count(old(node).right_son),
        final(node).all_points() == old(node).all_points(),
        final(node).point == old(node).point,
        final(node).geom == old(node).geom,
        final(node).division_axis == old(node).division_axis,
        final(node).working_flag == old(node).working_flag,
        !old(node).status.need_push_down_to_left ==> final(node).left_son == old(node).left_son,
        !old(node).status.need_push_down_to_right ==> final(node).right_son == old(node).right_son,
        final(node).parts_flat() == old(node).flat(),
        final(node).flat() == old(node).flat(),
        ordered::<P, G>(*final(node)) == ordered::<P, G>(*old(node)),
{
    let mut l: Option<NodeStatus> = match &node.left_son {
        Some(b) => Some(b.status),
        None => None,
    };
    let mut r: Option<NodeStatus> = match &node.right_son {
        Some(b) => Some(b.status),
        None => None,
    };
    let ghost before = *node;
    proof {
        match before.left_son {
            Some(b) => assert(b.tree_wf()),
            None => {},
        }
        match before.right_son {
            Some(b) => assert(b.tree_wf()),
            None => {},
        }
    }
    node.status.push_down(&mut l, &mut r);
    if let Some(s) = l {
        if let Some(mut b) = node.left_son.take() {
            proof {
                if before.status.need_push_down_to_left {
                    lemma_pushed_child(before.status, *b);
                }
            }
            let ghost b0 = *b;
            b.status = s;
            assert(b.node_count() == b0.node_count());
            assert(b.all_points() == b0.all_points());
            proof {
                lemma_ordered_same_shape::<P, G>(*b, b0);
            }
            node.left_son = Some(b);
        }
    }
    if let Some(s) = r {
        if let Some(mut b) = node.right_son.take() {
            proof {
                if before.status.need_push_down_to_right {
                    lemma_pushed_child(before.status, *b);
                }
            }
            let ghost b0 = *b;
            b.status = s;
            assert(b.node_count() == b0.node_count());
            assert(b.all_points() == b0.all_points());
            proof {
                lemma_ordered_same_shape::<P, G>(*b, b0);
            }
            node.right_son = Some(b);
        }
    }
    proof {
        lemma_ordered_same_shape::<P, G>(*node, before);
        lemma_flat_parts(before);
        lemma_flat_parts(*node);
        let nn = *node;
        if before.status.tree_deleted {
            assert(agrees(before.status, before.eff_left(), before.eff_right()));
            match nn.left_son {
                Some(l) => assert(l.status.tree_deleted),
                None => {},
            }
            match nn.right_son {
                Some(r) => assert(r.status.tree_deleted),
                None => {},
            }
            assert(node.parts_flat() =~= Seq::<P>::empty());
        }
    }
}

/// At most one point per node is collected.
pub proof fn lemma_flat_len<P, G>(n: KdNode<P, G>)
    ensures
        n.flat().len() <= n.node_count(),
    decreases n,
{
    match n.left_son {
        Some(l) => lemma_flat_len(*l),
        None => {},
    }
    match n.right_son {
        Some(r) => lemma_flat_len(*r),
        None => {},
    }
}

/// In a well-formed subtree without deleted points, every point is
/// collected.
pub proof fn lemma_flat_all_when_none_deleted<P, G>(n: KdNode<P, G>)
    requires
        n.tree_wf(),
        n.status.invalid_point_num == 0,
    ensures
        n.flat().to_multiset() == n.all_points(),
    decreases n,
{
    lemma_empty_to_multiset::<P>();
    lemma_singleton_to_multiset(n.point);
    lemma_opt_invalid(n.left_son);
    lemma_opt_invalid(n.right_son);
    assert(!n.status.tree_deleted);
    let lf = match n.left_son {
        Some(l) => {
            assert(l.tree_wf());
            assert(l.status.wf());
            lemma_flat_all_when_none_deleted(*l);
            l.flat()
        },
        None => Seq::<P>::empty(),
    };
    let rf = match n.right_son {
        Some(r) => {
            assert(r.tree_wf());
            assert(r.status.wf());
            lemma_flat_all_when_none_deleted(*r);
            r.flat()
        },
        None => Seq::<P>::empty(),
    };
    assert(n.flat() =~= seq![n.point] + lf + rf);
    vstd::seq_lib::lemma_multiset_commutative(seq![n.point] + lf, rf);
    vstd::seq_lib::lemma_multiset_commutative(seq![n.point], lf);
}

/// The valid-point counter of a well-formed subtree is the number of its
/// points that are not deleted.
pub proof fn lemma_valid_is_flat<P, G>(n: KdNode<P, G>)
    requires
        n.tree_wf(),
    ensures
        valid_of(n.status) == n.flat().len(),
    decreases n,
{
    if !n.status.tree_deleted {
        lemma_agrees_valid(n.status, n.eff_left(), n.eff_right());
        match n.left_son {
            Some(l) => {
                assert(l.tree_wf());
                lemma_valid_is_flat(*l);
            },
            None => {},
        }
        match n.right_son {
            Some(r) => {
                assert(r.tree_wf());
                lemma_valid_is_flat(*r);
            },
            None => {},
        }
    }
}

/// Optional form of `lemma_valid_is_flat`.
pub proof fn lemma_opt_valid_is_flat<P, G>(t: Option<Box<KdNode<P, G>>>)
    requires
        opt_tree_wf(t),
    ensures
        o_valid(status_of(t)) == opt_flat(t).len(),
{
    match t {
        Some(n) => lemma_valid_is_flat(*n),
        None => {},
    }
}

/// A well-formed node not flagged deleted holds its own point (unless
/// flagged) and its children's points that are not deleted; one flagged
/// deleted holds none, and neither do its children once a deletion pending
/// at it reaches them.
pub proof fn lemma_flat_parts<P, G>(n: KdNode<P, G>)
    ensures
        !n.status.tree_deleted ==> n.flat() == n.parts_flat(),
        n.status.tree_deleted ==> n.flat() == Seq::<P>::empty(),
{
    if !n.status.tree_deleted {
        assert(n.flat() =~= n.parts_flat());
    }
}

/// The points that are not deleted of a node's parts, as a multiset, are its
/// own point (unless flagged) and those of each child.
pub proof fn lemma_parts_multiset<P, G>(n: KdNode<P, G>)
    ensures
        n.parts_flat().to_multiset() == n.own_flat().to_multiset().add(
            opt_flat(n.left_son).to_multiset(),
        ).add(opt_flat(n.right_son).to_multiset()),
{
    vstd::seq_lib::lemma_multiset_commutative(
        n.own_flat() + opt_flat(n.left_son),
        opt_flat(n.right_son),
    );
    vstd::seq_lib::lemma_multiset_commutative(n.own_flat(), opt_flat(n.left_son));
}

/// A node whose children's points lie within the old children's points
/// plus `e1` and `e2` has its points within the old node's plus both.
pub proof fn lemma_points_within<P, G>(
    before: KdNode<P, G>,
    after: KdNode<P, G>,
    e1: Multiset<P>,
    e2: Multiset<P>,
)
    requires
        after.point == before.point,
        opt_points(after.left_son).subset_of(opt_points(before.left_son).add(e1)),
        opt_points(after.right_son).subset_of(opt_points(before.right_son).add(e2)),
    ensures
        after.all_points().subset_of(before.all_points().add(e1).add(e2)),
{
    assert forall|x: P| after.all_points().count(x) <= before.all_points().add(e1).add(e2).count(x) by {
        assert(opt_points(after.left_son).count(x) <= opt_points(before.left_son).add(e1).count(x));
        assert(opt_points(after.right_son).count(x) <= opt_points(before.right_son).add(e2).count(x));
    }
}

/// The points that are not deleted are among the points of the nodes.
pub proof fn lemma_flat_within_points<P, G>(n: KdNode<P, G>)
    ensures
        n.flat().to_multiset().subset_of(n.all_points()),
        n.parts_flat().to_multiset().subset_of(n.all_points()),
    decreases n,
{
    lemma_flat_parts(n);
    lemma_parts_multiset(n);
    lemma_empty_to_multiset::<P>();
    lemma_singleton_to_multiset(n.point);
    match n.left_son {
        Some(l) => lemma_flat_within_points(*l),
        None => {},
    }
    match n.right_son {
        Some(r) => lemma_flat_within_points(*r),
        None => {},
    }
}

/// In a well-formed subtree every point is deleted exactly when the subtree
/// is flagged deleted.
pub proof fn lemma_all_invalid_iff_deleted<P, G>(n: KdNode<P, G>)
    requires
        n.tree_wf(),
    ensures
        n.status.tree_deleted <==> n.status.invalid_point_num == n.status.tree_size,
    decreases n,
{
    match n.left_son {
        Some(l) => {
            assert(l.tree_wf());
            assert(l.status.wf());
            lemma_all_invalid_iff_deleted(*l);
        },
        None => {},
    }
    match n.right_son {
        Some(r) => {
            assert(r.tree_wf());
            assert(r.status.wf());
            lemma_all_invalid_iff_deleted(*r);
        },
        None => {},
    }
}

/// Collects the points of the subtree that are not deleted into `storage`,
/// in preorder (a subtree flagged deleted gives none).
pub fn flatten<P: Copy, G>(node: &KdNode<P, G>, storage: &mut Vec<P>)
    ensures
        final(storage)@ == old(storage)@ + node.flat(),
    decreases node,
{
    let ghost n = *node;
    let ghost s0 = storage@;
    if node.status.tree_deleted {
        assert(storage@ =~= s0 + n.flat());
        return;
    }
    if !node.status.point_deleted {
        storage.push(node.point);
    }
    let ghost s1 = storage@;
    match &node.left_son {
        Some(l) => flatten(l, storage),
        None => {},
    }
    let ghost s2 = storage@;
    match &node.right_son {
        Some(r) => flatten(r, storage),
        None => {},
    }
    proof {
        let own = n.own_flat();
        let lf = opt_flat(n.left_son);
        let rf = opt_flat(n.right_son);
        assert(s1 =~= s0 + own);
        assert(s2 =~= s1 + lf);
        assert(storage@ =~= s2 + rf);
        assert(n.flat() =~= own + lf + rf);
        assert(storage@ =~= s0 + n.flat());
    }
}

/// Whether the geometry of `n` is what the geometry's `refreshed` can give
/// for the former geometry `former`, the node's point and status, and its
/// children's geometry and status.
pub open spec fn geom_refreshed<P, G: NodeGeometry<P>>(former: G, n: KdNode<P, G>) -> bool {
    call_ensures(
        G::refreshed,
        (
            &former,
            &n.point,
            &n.status,
            match n.left_son {
                Some(b) => Some((&b.geom, &b.status)),
                None => None,
            },
            match n.right_son {
                Some(b) => Some((&b.geom, &b.status)),
                None => None,
            },
        ),
        n.geom,
    )
}

/// Every node of the subtree has the geometry that `refreshed` can give for
/// its fresh geometry (see `NodeGeometry::fresh`), its point and status, and
/// its children's geometry and status: what a build gives.
#[verifier::opaque]
pub open spec fn built_geoms<P, G: NodeGeometry<P>>(n: KdNode<P, G>) -> bool
    decreases n,
{
    &&& exists|g: G|
        #![trigger geom_refreshed::<P, G>(g, n)]
        call_ensures(G::fresh, (&n.point,), g) && geom_refreshed::<P, G>(g, n)
    &&& match n.left_son {
        Some(l) => built_geoms::<P, G>(*l),
        None => true,
    }
    &&& match n.right_son {
        Some(r) => built_geoms::<P, G>(*r),
        None => true,
    }
}

/// Recomputes the node's counters from its children (which must have no
/// deletion pending from it), then its geometry from its point, its new
/// status and its children (see `geom_refreshed`).
pub fn update_node<P, G: NodeGeometry<P>>(node: &mut KdNode<P, G>)
    requires
        opt_tree_wf(old(node).left_son),
        opt_tree_wf(old(node).right_son),
        o_size(status_of(old(node).left_son)) + o_size(status_of(old(node).right_son)) + 1
            <= i32::MAX,
        old(node).status.point_downsample_deleted ==> old(node).status.point_deleted,
        !old(node).status.need_push_down_to_left,
        !old(node).status.need_push_down_to_right,
    ensures
        final(node).tree_wf(),
        agrees(final(node).status, status_of(final(node).left_son), status_of(final(node).right_son)),
        final(node).left_son == old(node).left_son,
        final(node).right_son == old(node).right_son,
        final(node).point == old(node).point,
        final(node).division_axis == old(node).division_axis,
        final(node).working_flag == old(node).working_flag,
        final(node).status.point_deleted == old(node).status.point_deleted,
        final(node).status.point_downsample_deleted == old(node).status.point_downsample_deleted,
        !final(node).status.need_push_down_to_left,
        !final(node).status.need_push_down_to_right,
        geom_refreshed(old(node).geom, *final(node)),
        ordered::<P, G>(*final(node)) == ordered::<P, G>(*old(node)),
{
    let ls: Option<NodeStatus> = match &node.left_son {
        Some(b) => Some(b.status),
        None => None,
    };
    let rs: Option<NodeStatus> = match &node.right_son {
        Some(b) => Some(b.status),
        None => None,
    };
    let ghost n0 = *node;
    proof {
        match n0.left_son {
            Some(b) => assert(b.tree_wf()),
            None => {},
        }
        match n0.right_son {
            Some(b) => assert(b.tree_wf()),
            None => {},
        }
    }
    node.status.update_counts(ls.as_ref(), rs.as_ref());
    let lg: Option<(&G, &NodeStatus)> = match &node.left_son {
        Some(b) => Some((&b.geom, &b.status)),
        None => None,
    };
    let rg: Option<(&G, &NodeStatus)> = match &node.right_son {
        Some(b) => Some((&b.geom, &b.status)),
        None => None,
    };
    let g = node.geom.refreshed(&node.point, &node.status, lg, rg);
    node.geom = g;
    proof {
        lemma_ordered_same_shape::<P, G>(*node, n0);
    }
}

/// Subtrees of at most this many nodes are never rebuilt.
pub const MINIMUM_UNBALANCED_TREE_SIZE: i32 = 10;

/// Status of the node's left child, or of its right one when it has no
/// left child.
pub open spec fn first_son_status<P, G>(node: KdNode<P, G>) -> Option<NodeStatus> {
    match node.left_son {
        Some(l) => Some(l.status),
        None => status_of(node.right_son),
    }
}

/// Whether the subtree should be rebuilt: it has more than
/// `MINIMUM_UNBALANCED_TREE_SIZE` nodes, a child, and the criterion of the
/// geometry says so for its first child.
pub fn criterion_check<P, G: NodeGeometry<P>>(node: &KdNode<P, G>, params: &G::Params) -> (b: bool)
    ensures
        b ==> node.status.tree_size > MINIMUM_UNBALANCED_TREE_SIZE,
        b ==> node.left_son is Some || node.right_son is Some,
        node.status.tree_size > MINIMUM_UNBALANCED_TREE_SIZE ==> match first_son_status(*node) {
            Some(son) => call_ensures(G::rebuild_wanted, (params, &node.status, &son), b),
            None => !b,
        },
{
    if node.status.tree_size <= MINIMUM_UNBALANCED_TREE_SIZE {
        return false;
    }
    match &node.left_son {
        Some(l) => G::rebuild_wanted(params, &node.status, &l.status),
        None => match &node.right_son {
            Some(r) => G::rebuild_wanted(params, &node.status, &r.status),
            None => false,
        },
    }
}

/// The empty sequence holds no item.
proof fn lemma_empty_to_multiset<T>()
    ensures
        Seq::<T>::empty().to_multiset() == Multiset::<T>::empty(),
{
    vstd::seq_lib::to_multiset_len(Seq::<T>::empty());
    vstd::multiset::lemma_multiset_empty_len(Seq::<T>::empty().to_multiset());
}

/// A one-item sequence holds that item once.
proof fn lemma_singleton_to_multiset<T>(p: T)
    ensures
        seq![p].to_multiset() == Multiset::singleton(p),
{
    lemma_empty_to_multiset::<T>();
    vstd::seq_lib::to_multiset_build(Seq::<T>::empty(), p);
    assert(seq![p] =~= Seq::<T>::empty().push(p));
    assert(Multiset::<T>::empty().insert(p) =~= Multiset::singleton(p));
}

/// Whether the geometry may answer `r` when asked if `a` comes before `b`
/// along `axis`.
pub open spec fn less_answer<P, G: NodeGeometry<P>>(a: P, b: P, axis: u8, r: bool) -> bool {
    call_ensures(G::less_on_axis, (&a, &b, axis), r)
}

/// The answers of `less_on_axis` along `axis` form a strict order: no pair
/// gets both answers, no two points come each before the other, and coming
/// before is transitive.
pub open spec fn orders_strictly<P, G: NodeGeometry<P>>(axis: u8) -> bool {
    &&& forall|a: P, b: P|
        #![trigger less_answer::<P, G>(a, b, axis, true), less_answer::<P, G>(a, b, axis, false)]
        !(less_answer::<P, G>(a, b, axis, true) && less_answer::<P, G>(a, b, axis, false))
    &&& forall|a: P, b: P|
        #[trigger] less_answer::<P, G>(a, b, axis, true) ==> !less_answer::<P, G>(b, a, axis, true)
    &&& forall|a: P, b: P, c: P|
        #[trigger] less_answer::<P, G>(a, b, axis, true) && #[trigger] less_answer::<P, G>(
            b,
            c,
            axis,
            true,
        ) ==> less_answer::<P, G>(a, c, axis, true)
}

/// The geometry's answers fit together: along every axis `less_on_axis`
/// answers as a strict order (see `orders_strictly`), a point that
/// `goes_left` sends left does not come after the node's point and one it
/// sends right does not come before it, and every point is the same as
/// itself.
#[verifier::opaque]
pub open spec fn sides_agree<P, G: NodeGeometry<P>>() -> bool {
    &&& forall|axis: u8| #[trigger] orders_strictly::<P, G>(axis)
    &&& forall|at: P, axis: u8, p: P|
        #[trigger] call_ensures(G::goes_left, (&at, axis, &p), true) ==> !less_answer::<P, G>(
            at,
            p,
            axis,
            true,
        )
    &&& forall|at: P, axis: u8, p: P|
        #[trigger] call_ensures(G::goes_left, (&at, axis, &p), false) ==> !less_answer::<P, G>(
            p,
            at,
            axis,
            true,
        )
    &&& forall|q: P| !#[trigger] call_ensures(G::same_point, (&q, &q), false)
}

/// Every node's left subtree holds no point that comes after the node's
/// point along its split axis, and its right subtree none that comes
/// before it.
#[verifier::opaque]
pub open spec fn ordered<P, G: NodeGeometry<P>>(n: KdNode<P, G>) -> bool
    decreases n,
{
    &&& forall|q: P|
        opt_points(n.left_son).count(q) > 0 ==> !(#[trigger] less_answer::<P, G>(
            n.point,
            q,
            n.division_axis,
            true,
        ))
    &&& forall|q: P|
        opt_points(n.right_son).count(q) > 0 ==> !(#[trigger] less_answer::<P, G>(
            q,
            n.point,
            n.division_axis,
            true,
        ))
    &&& match n.left_son {
        Some(l) => ordered::<P, G>(*l),
        None => true,
    }
    &&& match n.right_son {
        Some(r) => ordered::<P, G>(*r),
        None => true,
    }
}

/// Two nodes with the same point, axis, children's points and children's
/// order are ordered alike.
pub proof fn lemma_ordered_same_shape<P, G: NodeGeometry<P>>(a: KdNode<P, G>, b: KdNode<P, G>)
    requires
        a.point == b.point,
        a.division_axis == b.division_axis,
        opt_points(a.left_son) == opt_points(b.left_son),
        opt_points(a.right_son) == opt_points(b.right_son),
        opt_ordered::<P, G>(a.left_son) == opt_ordered::<P, G>(b.left_son),
        opt_ordered::<P, G>(a.right_son) == opt_ordered::<P, G>(b.right_son),
    ensures
        ordered::<P, G>(a) == ordered::<P, G>(b),
{
    reveal_with_fuel(ordered, 1);
}

/// A node whose children hold no more points than before (and are ordered)
/// stays ordered.
pub proof fn lemma_ordered_children_shrink<P, G: NodeGeometry<P>>(
    before: KdNode<P, G>,
    after: KdNode<P, G>,
)
    requires
        ordered::<P, G>(before),
        after.point == before.point,
        after.division_axis == before.division_axis,
        opt_points(after.left_son).subset_of(opt_points(before.left_son)),
        opt_points(after.right_son).subset_of(opt_points(before.right_son)),
        opt_ordered::<P, G>(after.left_son),
        opt_ordered::<P, G>(after.right_son),
    ensures
        ordered::<P, G>(after),
{
    reveal_with_fuel(ordered, 1);
    let axis = after.division_axis;
    assert forall|x: P| opt_points(after.left_son).count(x) > 0 implies !(
    #[trigger] less_answer::<P, G>(after.point, x, axis, true)) by {
        assert(opt_points(before.left_son).count(x) > 0);
    }
    assert forall|x: P| opt_points(after.right_son).count(x) > 0 implies !(
    #[trigger] less_answer::<P, G>(x, after.point, axis, true)) by {
        assert(opt_points(before.right_son).count(x) > 0);
    }
}

/// What `ordered` says of one node, for one point `q`.
pub proof fn lemma_ordered_at<P, G: NodeGeometry<P>>(n: KdNode<P, G>, q: P)
    requires
        ordered::<P, G>(n),
    ensures
        opt_points(n.left_son).count(q) > 0 ==> !less_answer::<P, G>(n.point, q, n.division_axis, true),
        opt_points(n.right_son).count(q) > 0 ==> !less_answer::<P, G>(q, n.point, n.division_axis, true),
        opt_ordered::<P, G>(n.left_son),
        opt_ordered::<P, G>(n.right_son),
{
    reveal_with_fuel(ordered, 1);
}

/// A node is ordered when its children are and no point of its left (right)
/// subtree comes after (before) its point.
pub proof fn lemma_ordered_intro<P, G: NodeGeometry<P>>(n: KdNode<P, G>)
    requires
        forall|q: P|
            opt_points(n.left_son).count(q) > 0 ==> !(#[trigger] less_answer::<P, G>(
                n.point,
                q,
                n.division_axis,
                true,
            )),
        forall|q: P|
            opt_points(n.right_son).count(q) > 0 ==> !(#[trigger] less_answer::<P, G>(
                q,
                n.point,
                n.division_axis,
                true,
            )),
        opt_ordered::<P, G>(n.left_son),
        opt_ordered::<P, G>(n.right_son),
    ensures
        ordered::<P, G>(n),
{
    reveal_with_fuel(ordered, 1);
}

/// A node that gains `p` in the child on the side where `p` does not come
/// after (left) or before (right) its point stays ordered.
pub proof fn lemma_ordered_grow<P, G: NodeGeometry<P>>(
    before: KdNode<P, G>,
    after: KdNode<P, G>,
    p: P,
    to_left: bool,
)
    requires
        ordered::<P, G>(before),
        after.point == before.point,
        after.division_axis == before.division_axis,
        to_left ==> opt_points(after.left_son).subset_of(opt_points(before.left_son).insert(p))
            && opt_points(after.right_son) == opt_points(before.right_son)
            && !less_answer::<P, G>(before.point, p, before.division_axis, true),
        !to_left ==> opt_points(after.right_son).subset_of(opt_points(before.right_son).insert(p))
            && opt_points(after.left_son) == opt_points(before.left_son)
            && !less_answer::<P, G>(p, before.point, before.division_axis, true),
        opt_ordered::<P, G>(after.left_son),
        opt_ordered::<P, G>(after.right_son),
    ensures
        ordered::<P, G>(after),
{
    reveal_with_fuel(ordered, 1);
    let axis = after.division_axis;
    assert forall|x: P| opt_points(after.left_son).count(x) > 0 implies !(
    #[trigger] less_answer::<P, G>(after.point, x, axis, true)) by {
        if x != p || !to_left {
            assert(opt_points(before.left_son).count(x) > 0);
        }
    }
    assert forall|x: P| opt_points(after.right_son).count(x) > 0 implies !(
    #[trigger] less_answer::<P, G>(x, after.point, axis, true)) by {
        if x != p || to_left {
            assert(opt_points(before.right_son).count(x) > 0);
        }
    }
}

/// `ordered` for an optional subtree.
pub open spec fn opt_ordered<P, G: NodeGeometry<P>>(t: Option<Box<KdNode<P, G>>>) -> bool {
    match t {
        Some(n) => ordered::<P, G>(*n),
        None => true,
    }
}

/// No item of `s[lo..=hi0]` comes before an item of `s[lo0..lo]`.
pub open spec fn none_before_left<P, G: NodeGeometry<P>>(
    s: Seq<P>,
    axis: u8,
    lo0: int,
    lo: int,
    hi0: int,
) -> bool {
    forall|i: int, j: int|
        lo0 <= i < lo <= j <= hi0 ==> !(#[trigger] less_answer::<P, G>(s[j], s[i], axis, true))
}

/// No item of `s[hi+1..=hi0]` comes before an item of `s[lo0..=hi]`.
pub open spec fn none_after_right<P, G: NodeGeometry<P>>(
    s: Seq<P>,
    axis: u8,
    lo0: int,
    hi: int,
    hi0: int,
) -> bool {
    forall|i: int, j: int|
        lo0 <= j <= hi < i <= hi0 ==> !(#[trigger] less_answer::<P, G>(s[i], s[j], axis, true))
}

/// Exchanging two items of `s[lo..=hi]` keeps both bounds.
proof fn lemma_swap_keeps_bounds<P, G: NodeGeometry<P>>(
    s: Seq<P>,
    a: int,
    b: int,
    axis: u8,
    lo0: int,
    lo: int,
    hi: int,
    hi0: int,
)
    requires
        0 <= lo0 <= lo <= a <= hi,
        lo <= b <= hi,
        hi <= hi0 < s.len(),
        none_before_left::<P, G>(s, axis, lo0, lo, hi0),
        none_after_right::<P, G>(s, axis, lo0, hi, hi0),
    ensures
        none_before_left::<P, G>(swapped(s, a, b), axis, lo0, lo, hi0),
        none_after_right::<P, G>(swapped(s, a, b), axis, lo0, hi, hi0),
{
    let t = swapped(s, a, b);
    assert forall|i: int, j: int| lo0 <= i < lo <= j <= hi0 implies !(#[trigger] less_answer::<
        P,
        G,
    >(t[j], t[i], axis, true)) by {
        let j2 = if j == a {
            b
        } else if j == b {
            a
        } else {
            j
        };
        assert(t[j] == s[j2]);
        assert(t[i] == s[i]);
        assert(!less_answer::<P, G>(s[j2], s[i], axis, true));
    }
    assert forall|i: int, j: int| lo0 <= j <= hi < i <= hi0 implies !(#[trigger] less_answer::<
        P,
        G,
    >(t[i], t[j], axis, true)) by {
        let j2 = if j == a {
            b
        } else if j == b {
            a
        } else {
            j
        };
        assert(t[j] == s[j2]);
        assert(t[i] == s[i]);
        assert(!less_answer::<P, G>(s[i], s[j2], axis, true));
    }
}

/// Once `s[lo..=hi]` is partitioned around the pivot at `store` (items
/// before it come before it, items after it do not), the pivot is in its
/// place in `s[lo0..=hi0]`, and both bounds move past it.
proof fn lemma_partition_step<P, G: NodeGeometry<P>>(
    s: Seq<P>,
    axis: u8,
    lo0: int,
    lo: int,
    store: int,
    hi: int,
    hi0: int,
)
    requires
        orders_strictly::<P, G>(axis),
        0 <= lo0 <= lo <= store <= hi <= hi0 < s.len(),
        none_before_left::<P, G>(s, axis, lo0, lo, hi0),
        none_after_right::<P, G>(s, axis, lo0, hi, hi0),
        forall|t: int| lo <= t < store ==> #[trigger] less_answer::<P, G>(s[t], s[store], axis, true),
        forall|t: int|
            store < t <= hi ==> #[trigger] less_answer::<P, G>(s[t], s[store], axis, false),
    ensures
        none_before_left::<P, G>(s, axis, lo0, store + 1, hi0),
        none_after_right::<P, G>(s, axis, lo0, store - 1, hi0),
        forall|i: int| lo0 <= i < store ==> !(#[trigger] less_answer::<P, G>(s[store], s[i], axis, true)),
        forall|i: int| store < i <= hi0 ==> !(#[trigger] less_answer::<P, G>(s[i], s[store], axis, true)),
{
    let p = s[store];
    assert forall|i: int| lo0 <= i < store implies !(#[trigger] less_answer::<P, G>(p, s[i], axis, true)) by {
        if i >= lo {
            assert(less_answer::<P, G>(s[i], p, axis, true));
        } else {
            assert(!less_answer::<P, G>(s[store], s[i], axis, true));
        }
    }
    assert forall|i: int| store < i <= hi0 implies !(#[trigger] less_answer::<P, G>(s[i], p, axis, true)) by {
        if i <= hi {
            assert(less_answer::<P, G>(s[i], p, axis, false));
        } else {
            assert(!less_answer::<P, G>(s[i], s[store], axis, true));
        }
    }
    assert forall|i: int, j: int| lo0 <= i < store + 1 <= j <= hi0 implies !(
    #[trigger] less_answer::<P, G>(s[j], s[i], axis, true)) by {
        if i < lo {
            assert(!less_answer::<P, G>(s[j], s[i], axis, true));
        } else if j > hi {
            assert(!less_answer::<P, G>(s[j], s[i], axis, true));
        } else if i == store {
            assert(!less_answer::<P, G>(s[j], p, axis, true));
        } else {
            assert(less_answer::<P, G>(s[i], p, axis, true));
            assert(less_answer::<P, G>(s[j], p, axis, false));
            if less_answer::<P, G>(s[j], s[i], axis, true) {
                assert(less_answer::<P, G>(s[j], p, axis, true));
            }
        }
    }
    assert forall|i: int, j: int| lo0 <= j <= store - 1 < i <= hi0 implies !(
    #[trigger] less_answer::<P, G>(s[i], s[j], axis, true)) by {
        if i > hi {
            assert(!less_answer::<P, G>(s[i], s[j], axis, true));
        } else if j < lo {
            assert(!less_answer::<P, G>(s[i], s[j], axis, true));
        } else if i == store {
            assert(!less_answer::<P, G>(p, s[j], axis, true));
        } else {
            assert(less_answer::<P, G>(s[j], p, axis, true));
            assert(less_answer::<P, G>(s[i], p, axis, false));
            if less_answer::<P, G>(s[i], s[j], axis, true) {
                assert(less_answer::<P, G>(s[i], p, axis, true));
            }
        }
    }
}

/// Reorders `v[lo..=hi]` so that the item at `k` is the one that belongs
/// there in the order `less_on_axis` gives along `axis`, with the items
/// before it not after it in that order and the items after it not before
/// it (for an order that is strict, see `orders_strictly`). Items outside
/// the range stay.
pub fn select_nth<P: Copy, G: NodeGeometry<P>>(v: &mut Vec<P>, lo: usize, hi: usize, k: usize, axis: u8)
    requires
        lo <= k <= hi,
        hi < old(v).len(),
    ensures
        final(v)@.len() == old(v)@.len(),
        forall|i: int| 0 <= i < final(v)@.len() && !(lo <= i <= hi) ==> final(v)@[i] == old(v)@[i],
        final(v)@.subrange(lo as int, hi + 1).to_multiset() == old(v)@.subrange(lo as int, hi + 1).to_multiset(),
        orders_strictly::<P, G>(axis) ==> forall|i: int|
            lo <= i < k ==> !(#[trigger] less_answer::<P, G>(final(v)@[k as int], final(v)@[i], axis, true)),
        orders_strictly::<P, G>(axis) ==> forall|i: int|
            k < i <= hi ==> !(#[trigger] less_answer::<P, G>(final(v)@[i], final(v)@[k as int], axis, true)),
{
    let ghost lo0 = lo as int;
    let ghost hi0 = hi as int;
    let ghost s0 = v@;
    let ghost strict = orders_strictly::<P, G>(axis);
    let mut lo = lo;
    let mut hi = hi;
    while lo < hi
        invariant
            0 <= lo0 <= lo <= k <= hi <= hi0,
            hi0 < v@.len(),
            v@.len() == s0.len(),
            forall|i: int| 0 <= i < v@.len() && !(lo0 <= i <= hi0) ==> v@[i] == s0[i],
            v@.subrange(lo0, hi0 + 1).to_multiset() == s0.subrange(lo0, hi0 + 1).to_multiset(),
            strict == orders_strictly::<P, G>(axis),
            strict ==> none_before_left::<P, G>(v@, axis, lo0, lo as int, hi0),
            strict ==> none_after_right::<P, G>(v@, axis, lo0, hi as int, hi0),
        ensures
            v@.len() == s0.len(),
            forall|i: int| 0 <= i < v@.len() && !(lo0 <= i <= hi0) ==> v@[i] == s0[i],
            v@.subrange(lo0, hi0 + 1).to_multiset() == s0.subrange(lo0, hi0 + 1).to_multiset(),
            strict ==> forall|i: int|
                lo0 <= i < k ==> !(#[trigger] less_answer::<P, G>(v@[k as int], v@[i], axis, true)),
            strict ==> forall|i: int|
                k < i <= hi0 ==> !(#[trigger] less_answer::<P, G>(v@[i], v@[k as int], axis, true)),
        decreases hi - lo,
    {
        let m = lo + (hi - lo) / 2;
        proof {
            lemma_swap_range_multiset(v@, m as int, hi as int, lo0, hi0 + 1);
            if strict {
                lemma_swap_keeps_bounds::<P, G>(v@, m as int, hi as int, axis, lo0, lo as int, hi as int, hi0);
            }
        }
        swap_items(v, m, hi);
        let mut store = lo;
        let mut i = lo;
        while i < hi
            invariant
                0 <= lo0 <= lo <= store <= i <= hi <= hi0,
                lo <= k <= hi,
                lo < hi,
                hi0 < v@.len(),
                v@.len() == s0.len(),
                forall|j: int| 0 <= j < v@.len() && !(lo0 <= j <= hi0) ==> v@[j] == s0[j],
                v@.subrange(lo0, hi0 + 1).to_multiset() == s0.subrange(lo0, hi0 + 1).to_multiset(),
                strict == orders_strictly::<P, G>(axis),
                strict ==> none_before_left::<P, G>(v@, axis, lo0, lo as int, hi0),
                strict ==> none_after_right::<P, G>(v@, axis, lo0, hi as int, hi0),
                forall|t: int|
                    lo <= t < store ==> #[trigger] less_answer::<P, G>(v@[t], v@[hi as int], axis, true),
                forall|t: int|
                    store <= t < i ==> #[trigger] less_answer::<P, G>(v@[t], v@[hi as int], axis, false),
            decreases hi - i,
        {
            let before = G::less_on_axis(&v[i], &v[hi], axis);
            if before {
                let ghost w = v@;
                proof {
                    lemma_swap_range_multiset(v@, i as int, store as int, lo0, hi0 + 1);
                    if strict {
                        lemma_swap_keeps_bounds::<P, G>(v@, i as int, store as int, axis, lo0, lo as int, hi as int, hi0);
                    }
                }
                swap_items(v, i, store);
                proof {
                    assert(less_answer::<P, G>(w[i as int], w[hi as int], axis, true));
                    assert forall|t: int| lo <= t < store + 1 implies #[trigger] less_answer::<P, G>(
                        v@[t],
                        v@[hi as int],
                        axis,
                        true,
                    ) by {
                        if t < store {
                            assert(less_answer::<P, G>(w[t], w[hi as int], axis, true));
                        }
                    }
                    assert forall|t: int| store + 1 <= t < i + 1 implies #[trigger] less_answer::<P, G>(
                        v@[t],
                        v@[hi as int],
                        axis,
                        false,
                    ) by {
                        if t == i {
                            assert(less_answer::<P, G>(w[store as int], w[hi as int], axis, false));
                        } else {
                            assert(less_answer::<P, G>(w[t], w[hi as int], axis, false));
                        }
                    }
                }
                store = store + 1;
            }
            i = i + 1;
        }
        let ghost w = v@;
        proof {
            lemma_swap_range_multiset(v@, store as int, hi as int, lo0, hi0 + 1);
            if strict {
                lemma_swap_keeps_bounds::<P, G>(v@, store as int, hi as int, axis, lo0, lo as int, hi as int, hi0);
            }
        }
        swap_items(v, store, hi);
        proof {
            assert forall|t: int| lo <= t < store implies #[trigger] less_answer::<P, G>(
                v@[t],
                v@[store as int],
                axis,
                true,
            ) by {
                assert(less_answer::<P, G>(w[t], w[hi as int], axis, true));
            }
            assert forall|t: int| store < t <= hi implies #[trigger] less_answer::<P, G>(
                v@[t],
                v@[store as int],
                axis,
                false,
            ) by {
                if t == hi {
                    assert(less_answer::<P, G>(w[store as int], w[hi as int], axis, false));
                } else {
                    assert(less_answer::<P, G>(w[t], w[hi as int], axis, false));
                }
            }
            if strict {
                lemma_partition_step::<P, G>(v@, axis, lo0, lo as int, store as int, hi as int, hi0);
            }
        }
        if store == k {
            break;
        } else if k < store {
            hi = store - 1;
        } else {
            lo = store + 1;
        }
    }
}

/// Builds a subtree of the points `storage[l..=r]`: they are split on the
/// axis the geometry chooses, the median along it becomes the root, and the
/// points before and after it form the two subtrees. The subtree holds
/// exactly those points, all valid; the rest of `storage` stays.
pub fn build_tree<P: Copy, G: NodeGeometry<P>>(storage: &mut Vec<P>, l: usize, r: usize) -> (t: Box<
    KdNode<P, G>,
>)
    requires
        l <= r,
        r < old(storage).len(),
        old(storage).len() <= i32::MAX,
    ensures
        final(storage).len() == old(storage).len(),
        forall|i: int|
            0 <= i < final(storage)@.len() && !(l <= i <= r) ==> final(storage)@[i] == old(
                storage,
            )@[i],
        t.all_points() == old(storage)@.subrange(l as int, r + 1).to_multiset(),
        t.tree_wf(),
        t.node_count() == r - l + 1,
        t.status.tree_size == r - l + 1,
        t.status.invalid_point_num == 0,
        !t.status.need_push_down_to_left,
        built_geoms(*t),
        sides_agree::<P, G>() ==> ordered::<P, G>(*t),
    decreases r - l,
{
    let ghost s0 = storage@;
    let mid = l + (r - l) / 2;
    let axis = G::split_axis(vstd::slice::slice_subrange(storage.as_slice(), l, r + 1));
    select_nth::<P, G>(storage, l, r, mid, axis);
    let ghost s1 = storage@;
    let point = storage[mid];
    proof {
        if sides_agree::<P, G>() {
            reveal(sides_agree);
            assert(orders_strictly::<P, G>(axis));
        }
    }
    let left: Option<Box<KdNode<P, G>>> = if mid > l {
        let t = build_tree(storage, l, mid - 1);
        assert(t.all_points() == s1.subrange(l as int, mid as int).to_multiset());
        Some(t)
    } else {
        None
    };
    let ghost s2 = storage@;
    let right: Option<Box<KdNode<P, G>>> = if mid < r {
        Some(build_tree(storage, mid + 1, r))
    } else {
        None
    };
    let ghost lm = opt_points(left);
    let ghost rm = opt_points(right);
    proof {
        let a = s1.subrange(l as int, mid as int);
        let c = s1.subrange(mid + 1, r + 1);
        lemma_empty_to_multiset::<P>();
        if mid == l {
            assert(a =~= Seq::<P>::empty());
        }
        assert(lm == a.to_multiset());
        assert(s2.subrange(mid + 1, r + 1) =~= c);
        if mid == r {
            assert(c =~= Seq::<P>::empty());
        }
        assert(rm == c.to_multiset());
        assert(s1.subrange(l as int, r + 1) =~= a + seq![point] + c);
        vstd::seq_lib::lemma_multiset_commutative(a + seq![point], c);
        vstd::seq_lib::lemma_multiset_commutative(a, seq![point]);
        lemma_singleton_to_multiset(point);
    }
    let g0 = G::fresh(&point);
    let mut node = KdNode {
        point,
        geom: g0,
        division_axis: axis,
        status: NodeStatus::new(),
        working_flag: false,
        left_son: left,
        right_son: right,
    };
    update_node(&mut node);
    proof {
        lemma_size_is_count(node);
        assert(node.all_points() =~= Multiset::singleton(point).add(lm).add(rm));
        assert(geom_refreshed::<P, G>(g0, node));
        reveal_with_fuel(built_geoms, 1);
        if sides_agree::<P, G>() {
            let a = s1.subrange(l as int, mid as int);
            let c = s1.subrange(mid + 1, r + 1);
            assert forall|q: P| opt_points(node.left_son).count(q) > 0 implies !(
            #[trigger] less_answer::<P, G>(node.point, q, node.division_axis, true)) by {
                vstd::seq_lib::to_multiset_contains(a, q);
                let i = choose|i: int| 0 <= i < a.len() && a[i] == q;
                assert(s1[l + i] == q);
                assert(!less_answer::<P, G>(s1[mid as int], s1[l + i], axis, true));
            }
            assert forall|q: P| opt_points(node.right_son).count(q) > 0 implies !(
            #[trigger] less_answer::<P, G>(q, node.point, node.division_axis, true)) by {
                vstd::seq_lib::to_multiset_contains(c, q);
                let i = choose|i: int| 0 <= i < c.len() && c[i] == q;
                assert(s1[mid + 1 + i] == q);
                assert(!less_answer::<P, G>(s1[mid + 1 + i], s1[mid as int], axis, true));
            }
            lemma_ordered_intro::<P, G>(node);
        }
    }
    Box::new(node)
}

/// Rebuilds a subtree from its points that are not deleted (the subtree is
/// kept when there are none); the valid points stay.
pub fn rebuild_node<P: Copy, G: NodeGeometry<P>>(
    node: Box<KdNode<P, G>>,
    pcl_storage: &mut Vec<P>,
) -> (t: Box<KdNode<P, G>>)
    requires
        node.tree_wf(),
    ensures
        t.tree_wf(),
        t.node_count() <= node.node_count(),
        node.flat().len() == 0 ==> t == node,
        node.flat().len() > 0 ==> t.node_count() == node.flat().len() && t.status.invalid_point_num
            == 0 && t.all_points() == node.flat().to_multiset(),
        t.flat().to_multiset() == node.flat().to_multiset(),
        valid_of(t.status) == valid_of(node.status),
        node.flat().len() > 0 ==> built_geoms(*t),
        sides_agree::<P, G>() && ordered::<P, G>(*node) ==> ordered::<P, G>(*t),
{
    pcl_storage.clear();
    flatten(&node, pcl_storage);
    proof {
        assert(pcl_storage@ =~= node.flat());
        lemma_flat_len(*node);
        lemma_size_is_count(*node);
    }
    if pcl_storage.len() == 0 {
        return node;
    }
    let last = pcl_storage.len() - 1;
    let ghost flat = pcl_storage@;
    let t = build_tree(pcl_storage, 0, last);
    assert(flat.subrange(0, last + 1) =~= flat);
    proof {
        lemma_flat_all_when_none_deleted(*t);
        lemma_valid_is_flat(*node);
        lemma_size_is_count(*t);
    }
    t
}

/// The size of an optional well-formed subtree is its number of nodes.
pub proof fn lemma_opt_size<P, G>(t: Option<Box<KdNode<P, G>>>)
    requires
        opt_tree_wf(t),
    ensures
        o_size(status_of(t)) == opt_count(t),
{
    match t {
        Some(n) => lemma_size_is_count(*n),
        None => {},
    }
}

/// Valid points of an optional status.
pub open spec fn o_valid(o: Option<NodeStatus>) -> int {
    o_size(o) - o_invalid(o)
}

/// A node's valid points are its children's plus its own.
pub proof fn lemma_agrees_valid(s: NodeStatus, l: Option<NodeStatus>, r: Option<NodeStatus>)
    requires
        agrees(s, l, r),
    ensures
        valid_of(s) == o_valid(l) + o_valid(r) + 1 - one_if(s.point_deleted),
{
}

/// A fresh subtree of one valid point.
pub fn new_leaf<P: Copy, G: NodeGeometry<P>>(point: &P, axis: u8) -> (t: Box<KdNode<P, G>>)
    ensures
        t.tree_wf(),
        t.node_count() == 1,
        t.status.tree_size == 1,
        t.status.invalid_point_num == 0,
        t.point == *point,
        t.division_axis == axis,
        t.all_points() == Multiset::singleton(*point),
        t.flat() == seq![*point],
        built_geoms(*t),
        ordered::<P, G>(*t),
{
    let g0 = G::fresh(point);
    let mut n = KdNode {
        point: *point,
        geom: g0,
        division_axis: axis,
        status: NodeStatus::new(),
        working_flag: false,
        left_son: None,
        right_son: None,
    };
    update_node(&mut n);
    assert(n.all_points() =~= Multiset::singleton(*point));
    assert(geom_refreshed::<P, G>(g0, n));
    proof {
        reveal_with_fuel(built_geoms, 1);
        lemma_ordered_intro::<P, G>(n);
    }
    Box::new(n)
}

/// The split axis of a child of a node splitting on `axis`.
pub fn next_axis(axis: u8) -> (r: u8)
    ensures
        r == (axis + 1) % 3,
{
    ((axis as u16 + 1) % 3) as u8
}

/// Inserts `point` below `node`: down the side the geometry chooses at each
/// node, as a new leaf where that side is empty; each node on the way is
/// brought up to date and, when `allow_rebuild` is set and the criterion
/// holds, rebuilt.
#[verifier::spinoff_prover]
#[verifier::rlimit(80)]
pub fn add_by_point_recursive<P: Copy, G: NodeGeometry<P>>(
    node: Box<KdNode<P, G>>,
    point: &P,
    allow_rebuild: bool,
    _father_axis: u8,
    params: &G::Params,
    pcl_storage: &mut Vec<P>,
) -> (t: Box<KdNode<P, G>>)
    requires
        node.tree_wf(),
        node.status.tree_size < i32::MAX,
    ensures
        t.tree_wf(),
        t.node_count() <= node.node_count() + 1,
        !allow_rebuild ==> t.node_count() == node.node_count() + 1 && valid_of(t.status) == valid_of(
            node.status,
        ) + 1 && t.all_points() == node.all_points().insert(*point),
        t.flat().to_multiset() == node.flat().to_multiset().insert(*point),
        valid_of(t.status) == valid_of(node.status) + 1,
        t.all_points().subset_of(node.all_points().insert(*point)),
        sides_agree::<P, G>() && ordered::<P, G>(*node) ==> ordered::<P, G>(*t),
    decreases node.node_count(),
{
    let ghost n_in = *node;
    let mut node = node;
    proof {
        lemma_size_is_count(*node);
        lemma_agrees_valid(node.status, node.eff_left(), node.eff_right());
    }
    let ghost v0 = valid_of(node.status);
    node.working_flag = true;
    proof {
        lemma_ordered_same_shape::<P, G>(*node, n_in);
    }
    push_down_node(&mut *node);
    let ghost vl = o_valid(status_of(node.left_son));
    let ghost vr = o_valid(status_of(node.right_son));
    let ghost own = one_if(node.status.point_deleted);
    assert(v0 == vl + vr + 1 - own);
    let ghost lp = opt_points(node.left_son);
    let ghost rp = opt_points(node.right_son);
    let ghost pts0 = node.all_points();
    assert(pts0 == Multiset::singleton(node.point).add(lp).add(rp));
    let ghost n1 = *node;
    proof {
        lemma_parts_multiset(n1);
        lemma_valid_is_flat(n_in);
        lemma_empty_to_multiset::<P>();
        lemma_singleton_to_multiset(*point);
    }
    let go_left = G::goes_left(&node.point, node.division_axis, point);
    if go_left {
        match node.left_son.take() {
            Some(left) => {
                proof {
                    lemma_size_is_count(*left);
                }
                let new_left = add_by_point_recursive(
                    left,
                    point,
                    allow_rebuild,
                    node.division_axis,
                    params,
                    pcl_storage,
                );
                proof {
                    lemma_size_is_count(*new_left);
                }
                node.left_son = Some(new_left);
            },
            None => {
                node.left_son = Some(new_leaf(point, next_axis(node.division_axis)));
            },
        }
        proof {
            lemma_opt_size(node.right_son);
            if !allow_rebuild {
                assert(opt_points(node.left_son) == lp.insert(*point));
                assert(node.all_points() =~= pts0.insert(*point));
            }
        }
    } else {
        match node.right_son.take() {
            Some(right) => {
                proof {
                    lemma_size_is_count(*right);
                }
                let new_right = add_by_point_recursive(
                    right,
                    point,
                    allow_rebuild,
                    node.division_axis,
                    params,
                    pcl_storage,
                );
                proof {
                    lemma_size_is_count(*new_right);
                }
                node.right_son = Some(new_right);
            },
            None => {
                node.right_son = Some(new_leaf(point, next_axis(node.division_axis)));
            },
        }
        proof {
            lemma_opt_size(node.left_son);
            if !allow_rebuild {
                assert(opt_points(node.right_son) == rp.insert(*point));
                assert(node.all_points() =~= pts0.insert(*point));
            }
        }
    }
    proof {
        let nf = *node;
        lemma_parts_multiset(nf);
        assert(nf.own_flat() == n1.own_flat());
        assert(nf.parts_flat().to_multiset() =~= n1.parts_flat().to_multiset().insert(*point));
        vstd::seq_lib::to_multiset_len(nf.parts_flat());
        vstd::seq_lib::to_multiset_len(n1.parts_flat());
    }
    proof {
        let nf = *node;
        let e = Multiset::singleton(*point);
        assert(nf.all_points().subset_of(n1.all_points().add(e))) by {
            if go_left {
                assert(opt_points(nf.left_son).subset_of(opt_points(n1.left_son).add(e)));
                assert(opt_points(nf.right_son) =~= opt_points(n1.right_son).add(Multiset::empty()));
                lemma_points_within(n1, nf, e, Multiset::empty());
                assert(n1.all_points().add(e).add(Multiset::empty()) =~= n1.all_points().add(e));
            } else {
                assert(opt_points(nf.right_son).subset_of(opt_points(n1.right_son).add(e)));
                assert(opt_points(nf.left_son) =~= opt_points(n1.left_son).add(Multiset::empty()));
                lemma_points_within(n1, nf, Multiset::empty(), e);
                assert(n1.all_points().add(Multiset::empty()).add(e) =~= n1.all_points().add(e));
            }
        }
    }
    proof {
        let nf = *node;
        assert(sides_agree::<P, G>() && ordered::<P, G>(n_in) ==> ordered::<P, G>(nf)) by {
            if sides_agree::<P, G>() && ordered::<P, G>(n_in) {
                lemma_ordered_at::<P, G>(n1, *point);
                reveal(sides_agree);
                if go_left {
                    assert(call_ensures(G::goes_left, (&n1.point, n1.division_axis, point), true));
                } else {
                    assert(call_ensures(G::goes_left, (&n1.point, n1.division_axis, point), false));
                }
                lemma_ordered_grow::<P, G>(n1, nf, *point, go_left);
            }
        }
    }
    let ghost nf = *node;
    let t = finish_node(node, allow_rebuild, params, pcl_storage);
    proof {
        lemma_valid_is_flat(*t);
        assert(t.all_points().subset_of(n_in.all_points().insert(*point))) by {
            assert forall|x: P| t.all_points().count(x) <= n_in.all_points().insert(*point).count(x) by {
                assert(t.all_points().count(x) <= nf.all_points().count(x));
                assert(nf.all_points().count(x) <= n1.all_points().add(Multiset::singleton(*point)).count(x));
            }
        }
    }
    t
}

/// Flags the whole subtree deleted (its children learn of it lazily);
/// returns the number of points this deleted.
fn mark_whole_subtree<P, G: NodeGeometry<P>>(node: &mut KdNode<P, G>, is_downsample: bool) -> (deleted: i32)
    requires
        old(node).tree_wf(),
        !old(node).status.need_push_down_to_left,
    ensures
        final(node).tree_wf(),
        deleted == valid_of(old(node).status),
        valid_of(final(node).status) == 0,
        final(node).node_count() == old(node).node_count(),
        final(node).all_points() == old(node).all_points(),
        ordered::<P, G>(*final(node)) == ordered::<P, G>(*old(node)),
{
    let ghost n0 = *node;
    let deleted = node.status.mark_subtree_deleted(is_downsample);
    assert(node.node_count() == n0.node_count());
    assert(node.all_points() == n0.all_points());
    proof {
        lemma_ordered_same_shape::<P, G>(*node, n0);
    }
    deleted
}

/// The status of `node` once its counters and subtree flags are recomputed
/// from its children (see `agrees`), with no deletion pending.
pub open spec fn updated_status<P, G>(node: KdNode<P, G>) -> NodeStatus {
    let l = status_of(node.left_son);
    let r = status_of(node.right_son);
    NodeStatus {
        tree_size: (o_size(l) + o_size(r) + 1) as i32,
        invalid_point_num: (o_invalid(l) + o_invalid(r) + one_if(node.status.point_deleted)) as i32,
        down_del_num: (o_down(l) + o_down(r) + one_if(node.status.point_downsample_deleted)) as i32,
        tree_deleted: o_deleted(l) && o_deleted(r) && node.status.point_deleted,
        tree_downsample_deleted: o_down_deleted(l) && o_down_deleted(r)
            && node.status.point_downsample_deleted,
        need_push_down_to_left: false,
        need_push_down_to_right: false,
        ..node.status
    }
}

/// Whether `b` is what the rebuild criterion (see `criterion_check`) can
/// answer for a node with status `own` and first child status `son`.
pub open spec fn rebuild_answer<P, G: NodeGeometry<P>>(
    own: NodeStatus,
    son: Option<NodeStatus>,
    params: G::Params,
    b: bool,
) -> bool {
    if own.tree_size <= MINIMUM_UNBALANCED_TREE_SIZE {
        !b
    } else {
        match son {
            Some(s) => call_ensures(G::rebuild_wanted, (&params, &own, &s), b),
            None => !b,
        }
    }
}

/// Brings a node whose children are up to date to date itself, then
/// rebuilds it when `allow_rebuild` is set and the criterion holds.
pub fn finish_node<P: Copy, G: NodeGeometry<P>>(
    node: Box<KdNode<P, G>>,
    allow_rebuild: bool,
    params: &G::Params,
    pcl_storage: &mut Vec<P>,
) -> (t: Box<KdNode<P, G>>)
    requires
        opt_tree_wf(node.left_son),
        opt_tree_wf(node.right_son),
        opt_count(node.left_son) + opt_count(node.right_son) + 1 <= i32::MAX,
        node.status.point_downsample_deleted ==> node.status.point_deleted,
        !node.status.need_push_down_to_left,
        !node.status.need_push_down_to_right,
    ensures
        t.tree_wf(),
        t.node_count() <= node.node_count(),
        !allow_rebuild ==> t.node_count() == node.node_count() && valid_of(t.status) == o_valid(
            status_of(node.left_son),
        ) + o_valid(status_of(node.right_son)) + 1 - one_if(node.status.point_deleted)
            && t.all_points() == node.all_points(),
        t.flat().to_multiset() == node.parts_flat().to_multiset(),
        valid_of(t.status) == node.parts_flat().len(),
        t.all_points().subset_of(node.all_points()),
        sides_agree::<P, G>() && ordered::<P, G>(*node) ==> ordered::<P, G>(*t),
        !allow_rebuild ==> t.status == updated_status(*node) && t.left_son == node.left_son
            && t.right_son == node.right_son && t.point == node.point && geom_refreshed(
            node.geom,
            *t,
        ),
        allow_rebuild ==> exists|b: bool|
            #[trigger] rebuild_answer::<P, G>(updated_status(*node), first_son_status(*node), *params, b)
                && if b && node.parts_flat().len() > 0 {
                t.status.invalid_point_num == 0 && t.node_count() == node.parts_flat().len()
                    && t.all_points() == node.parts_flat().to_multiset() && built_geoms(*t)
            } else {
                t.status == updated_status(*node) && t.left_son == node.left_son && t.right_son
                    == node.right_son && t.point == node.point && geom_refreshed(node.geom, *t)
            },
{
    let mut node = node;
    proof {
        lemma_opt_size(node.left_son);
        lemma_opt_size(node.right_son);
    }
    let ghost n0 = *node;
    update_node(&mut *node);
    let ghost nu = *node;
    proof {
        lemma_agrees_valid(node.status, status_of(node.left_son), status_of(node.right_son));
        assert(node.node_count() == n0.node_count());
        assert(node.all_points() == n0.all_points());
    }
    proof {
        let nn = *node;
        lemma_flat_parts(nn);
        lemma_valid_is_flat(nn);
        if nn.status.tree_deleted {
            lemma_opt_invalid(nn.left_son);
            lemma_opt_invalid(nn.right_son);
            match nn.left_son {
                Some(l) => assert(l.flat() =~= Seq::<P>::empty()),
                None => {},
            }
            match nn.right_son {
                Some(r) => assert(r.flat() =~= Seq::<P>::empty()),
                None => {},
            }
            assert(n0.parts_flat() =~= Seq::<P>::empty());
        } else {
            assert(nn.parts_flat() == n0.parts_flat());
        }
    }
    proof {
        lemma_opt_invalid(n0.left_son);
        lemma_opt_invalid(n0.right_son);
        assert(node.status == updated_status(n0));
        assert(first_son_status(*node) == first_son_status(n0));
        assert(node.parts_flat() == n0.parts_flat());
    }
    let ghost mut wanted = false;
    let ghost mut rebuilt = *node;
    if allow_rebuild {
        let rebuild = criterion_check(&*node, params);
        proof {
            wanted = rebuild;
            assert(rebuild_answer::<P, G>(updated_status(n0), first_son_status(n0), *params, wanted));
        }
        if rebuild {
            proof {
                lemma_flat_parts(*node);
            }
            let ghost pre = *node;
            node = rebuild_node(node, pcl_storage);
            proof {
                rebuilt = *node;
                if n0.parts_flat().len() > 0 {
                    assert(pre.flat().len() > 0);
                    assert(built_geoms::<P, G>(*node));
                } else {
                    assert(*node == pre);
                }
            }
        }
    }
    let ghost before_flag = *node;
    node.working_flag = false;
    proof {
        lemma_ordered_same_shape::<P, G>(*node, before_flag);
        if node.point == nu.point && node.status == nu.status && node.left_son == nu.left_son
            && node.right_son == nu.right_son && node.geom == nu.geom {
            assert(geom_refreshed::<P, G>(n0.geom, nu));
            assert(geom_refreshed::<P, G>(n0.geom, *node));
        }
        if allow_rebuild {
            if wanted && n0.parts_flat().len() > 0 {
                reveal_with_fuel(built_geoms, 1);
                let g = choose|g: G|
                    #![trigger geom_refreshed::<P, G>(g, rebuilt)]
                    call_ensures(G::fresh, (&rebuilt.point,), g) && geom_refreshed::<P, G>(g, rebuilt);
                assert(geom_refreshed::<P, G>(g, *node));
                assert(built_geoms::<P, G>(*node));
            } else {
                assert(node.status == updated_status(n0));
                assert(geom_refreshed::<P, G>(n0.geom, *node));
            }
            assert(rebuild_answer::<P, G>(updated_status(n0), first_son_status(n0), *params, wanted));
        }
        lemma_flat_within_points(n0);
    }
    proof {
        vstd::seq_lib::to_multiset_len(n0.parts_flat());
        vstd::seq_lib::to_multiset_len(node.flat());
    }
    node
}

/// Number of points of a subtree that are not deleted.
pub open spec fn valid_of(s: NodeStatus) -> int {
    s.tree_size - s.invalid_point_num
}

/// Whether `hit` is what deleting `p` from the subtree `n` can answer to the
/// question "was a point deleted": a subtree flagged deleted is not
/// entered; else the node's point is deleted when the geometry finds it the
/// same as `p` and it is not deleted yet; else the left child is searched
/// unless the order along the split axis puts the node's point before `p`,
/// and, when that deleted nothing, the right child unless the order puts `p`
/// before the node's point. An absent child deletes nothing.
pub open spec fn delete_hits<P, G: NodeGeometry<P>>(n: KdNode<P, G>, p: P, hit: bool) -> bool
    decreases n,
{
    if n.status.tree_deleted {
        !hit
    } else {
        ||| call_ensures(G::same_point, (&n.point, &p), true) && !n.status.point_deleted && hit
        ||| (call_ensures(G::same_point, (&n.point, &p), false) || n.status.point_deleted) && {
            ||| call_ensures(G::less_on_axis, (&n.point, &p, n.division_axis), false) && hit
                && match n.left_son {
                Some(l) => delete_hits::<P, G>(*l, p, true),
                None => false,
            }
            ||| {
                ||| call_ensures(G::less_on_axis, (&n.point, &p, n.division_axis), true)
                ||| call_ensures(G::less_on_axis, (&n.point, &p, n.division_axis), false)
                    && match n.left_son {
                    Some(l) => delete_hits::<P, G>(*l, p, false),
                    None => true,
                }
            } && {
                ||| call_ensures(G::less_on_axis, (&p, &n.point, n.division_axis), true) && !hit
                ||| call_ensures(G::less_on_axis, (&p, &n.point, n.division_axis), false)
                    && match n.right_son {
                    Some(r) => delete_hits::<P, G>(*r, p, hit),
                    None => !hit,
                }
            }
        }
    }
}

/// `q` is a valid point of the ordered subtree `n`, and the geometry's
/// answers agree (see `sides_agree`).
#[verifier::opaque]
pub open spec fn findable<P, G: NodeGeometry<P>>(n: KdNode<P, G>, q: P) -> bool {
    sides_agree::<P, G>() && ordered::<P, G>(n) && n.flat().to_multiset().count(q) > 0
}

/// Where a search for a valid point `q` goes at a node whose own point was
/// not deleted by it: when the geometry's answers agree and the node is
/// ordered, `q` lies in the left child's valid points, which the search
/// enters, or else in the right child's, which it enters too.
pub proof fn lemma_search_side<P, G: NodeGeometry<P>>(n: KdNode<P, G>, q: P, same: bool)
    requires
        sides_agree::<P, G>(),
        ordered::<P, G>(n),
        n.parts_flat().to_multiset().count(q) > 0,
        call_ensures(G::same_point, (&n.point, &q), same),
        !(same && !n.status.point_deleted),
    ensures
        opt_ordered::<P, G>(n.left_son),
        opt_ordered::<P, G>(n.right_son),
        opt_flat(n.left_son).to_multiset().count(q) > 0 ==> n.left_son is Some
            && !less_answer::<P, G>(n.point, q, n.division_axis, true),
        opt_flat(n.left_son).to_multiset().count(q) == 0 ==> opt_flat(n.right_son).to_multiset().count(q)
            > 0 && n.right_son is Some && !less_answer::<P, G>(q, n.point, n.division_axis, true),
{
    reveal(sides_agree);
    lemma_ordered_at::<P, G>(n, q);
    lemma_parts_multiset(n);
    lemma_empty_to_multiset::<P>();
    lemma_singleton_to_multiset(n.point);
    if !n.status.point_deleted {
        assert(n.point != q) by {
            if n.point == q {
                assert(call_ensures(G::same_point, (&q, &q), false));
            }
        }
    }
    assert(n.own_flat().to_multiset().count(q) == 0);
    match n.left_son {
        Some(l) => {
            lemma_flat_within_points(*l);
        },
        None => {},
    }
    match n.right_son {
        Some(r) => {
            lemma_flat_within_points(*r);
        },
        None => {},
    }
}

/// Whether the multiset `before` is `after` with one more copy of a point
/// that the geometry answered is the same as `p`.
pub open spec fn removes_one<P, G: NodeGeometry<P>>(before: Multiset<P>, after: Multiset<P>, p: P) -> bool {
    exists|q: P|
        #![trigger after.insert(q)]
        call_ensures(G::same_point, (&q, &p), true) && before == after.insert(q)
}

/// Deletes the node's point when it is `point` and not deleted yet; otherwise
/// searches the children on whose side `point` can lie (see `delete_hits`):
/// points equal along the split axis can lie on either side of a build's
/// split. At most one point is deleted. Each node on the way is brought
/// up to date and, when `allow_rebuild` is set and the criterion holds,
/// rebuilt. A subtree flagged deleted is left alone.
#[verifier::spinoff_prover]
#[verifier::rlimit(100)]
pub fn delete_by_point_recursive<P: Copy, G: NodeGeometry<P>>(
    node: Box<KdNode<P, G>>,
    point: &P,
    allow_rebuild: bool,
    params: &G::Params,
    pcl_storage: &mut Vec<P>,
) -> (t: Box<KdNode<P, G>>)
    requires
        node.tree_wf(),
    ensures
        t.tree_wf(),
        t.node_count() <= node.node_count(),
        !allow_rebuild ==> t.node_count() == node.node_count() && t.all_points() == node.all_points(),
        valid_of(t.status) == valid_of(node.status) || valid_of(t.status) == valid_of(node.status) - 1,
        delete_hits(*node, *point, valid_of(t.status) == valid_of(node.status) - 1),
        t.all_points().subset_of(node.all_points()),
        valid_of(t.status) == valid_of(node.status) ==> t.flat().to_multiset() == node.flat().to_multiset(),
        valid_of(t.status) == valid_of(node.status) - 1 ==> removes_one::<P, G>(
            node.flat().to_multiset(),
            t.flat().to_multiset(),
            *point,
        ),
        sides_agree::<P, G>() && ordered::<P, G>(*node) ==> ordered::<P, G>(*t),
        findable::<P, G>(*node, *point) ==> valid_of(t.status) == valid_of(node.status) - 1,
    decreases node.node_count(),
{
    if node.status.tree_deleted {
        proof {
            lemma_empty_to_multiset::<P>();
            reveal(findable);
        }
        return node;
    }
    let ghost n0 = *node;
    let mut node = node;
    proof {
        lemma_size_is_count(*node);
        lemma_valid_is_flat(n0);
    }
    node.working_flag = true;
    proof {
        lemma_ordered_same_shape::<P, G>(*node, n0);
    }
    push_down_node(&mut *node);
    let ghost n1 = *node;
    proof {
        lemma_parts_multiset(n1);
        lemma_empty_to_multiset::<P>();
        lemma_singleton_to_multiset(n1.point);
        vstd::seq_lib::to_multiset_len(n1.parts_flat());
    }
    let same = G::same_point(&node.point, point);
    if same && !node.status.point_deleted {
        proof {
            lemma_opt_invalid(node.left_son);
            lemma_opt_invalid(node.right_son);
        }
        node.status.mark_point_deleted();
        node.working_flag = false;
        proof {
            let nf = *node;
            assert(nf.all_points() == n1.all_points());
            lemma_flat_parts(nf);
            lemma_parts_multiset(nf);
            if nf.status.tree_deleted {
                match nf.left_son {
                    Some(l) => assert(l.flat() =~= Seq::<P>::empty()),
                    None => {},
                }
                match nf.right_son {
                    Some(r) => assert(r.flat() =~= Seq::<P>::empty()),
                    None => {},
                }
            }
            assert(n1.parts_flat().to_multiset() =~= nf.flat().to_multiset().insert(n1.point));
            lemma_ordered_same_shape::<P, G>(nf, n1);
        }
        return node;
    }
    let ghost pts0 = node.all_points();
    let ghost lp = opt_points(node.left_son);
    let ghost rp = opt_points(node.right_son);
    let ghost lv0 = o_valid(status_of(node.left_son));
    let ghost rv0 = o_valid(status_of(node.right_son));
    let ghost mut child_hit = false;
    let ghost found = findable::<P, G>(n0, *point);
    let ghost mut left_tried = false;
    let ghost mut right_tried = false;
    let ghost mut removed: P = n1.point;
    let mut hit = false;
    let axis = node.division_axis;
    let after_node = G::less_on_axis(&node.point, point, axis);
    if !after_node {
        if let Some(left) = node.left_son.take() {
            let ghost l0 = *left;
            proof {
                assert(n1.tree_wf());
                assert(l0.tree_wf());
                assert(l0.status.wf());
                lemma_valid_is_flat(l0);
            }
            let before = left.status.valid_count();
            let new_left = delete_by_point_recursive(left, point, allow_rebuild, params, pcl_storage);
            let after = new_left.status.valid_count();
            hit = after < before;
            proof {
                child_hit = hit;
                left_tried = true;
                assert(findable::<P, G>(l0, *point) ==> child_hit);
                assert(delete_hits::<P, G>(l0, *point, child_hit));
                if child_hit {
                    removed = choose|q: P|
                        #![trigger new_left.flat().to_multiset().insert(q)]
                        call_ensures(G::same_point, (&q, point), true) && l0.flat().to_multiset()
                            == new_left.flat().to_multiset().insert(q);
                }
            }
            node.left_son = Some(new_left);
        }
    }
    if !hit {
        let before_node = G::less_on_axis(point, &node.point, axis);
        if !before_node {
            if let Some(right) = node.right_son.take() {
                let ghost r0 = *right;
                proof {
                    assert(n1.tree_wf());
                    assert(r0.tree_wf());
                    assert(r0.status.wf());
                    lemma_valid_is_flat(r0);
                }
                let before = right.status.valid_count();
                let new_right = delete_by_point_recursive(right, point, allow_rebuild, params, pcl_storage);
                let after = new_right.status.valid_count();
                hit = after < before;
                proof {
                    child_hit = hit;
                    right_tried = true;
                    assert(findable::<P, G>(r0, *point) ==> child_hit);
                    assert(delete_hits::<P, G>(r0, *point, child_hit));
                    if child_hit {
                        removed = choose|q: P|
                            #![trigger new_right.flat().to_multiset().insert(q)]
                            call_ensures(G::same_point, (&q, point), true) && r0.flat().to_multiset()
                                == new_right.flat().to_multiset().insert(q);
                    }
                }
                node.right_son = Some(new_right);
            }
        }
    }
    proof {
        lemma_opt_size(node.left_son);
        lemma_opt_size(node.right_son);
        lemma_opt_valid_is_flat(n1.left_son);
        lemma_opt_valid_is_flat(n1.right_son);
        lemma_opt_valid_is_flat(node.left_son);
        lemma_opt_valid_is_flat(node.right_son);
        if !allow_rebuild {
            assert(opt_points(node.left_son) == lp);
            assert(opt_points(node.right_son) == rp);
            assert(node.all_points() == pts0);
        }
        lemma_agrees_valid(n0.status, status_of(n0.left_son), status_of(n0.right_son));
        assert(delete_hits::<P, G>(n0, *point, child_hit));
        assert(o_valid(status_of(node.left_son)) + o_valid(status_of(node.right_son)) == lv0
            + rv0 - one_if(child_hit));
        let nf = *node;
        lemma_parts_multiset(nf);
        assert(nf.own_flat() == n1.own_flat());
        vstd::seq_lib::to_multiset_len(nf.parts_flat());
        if child_hit {
            assert(n1.parts_flat().to_multiset() =~= nf.parts_flat().to_multiset().insert(removed));
        } else {
            assert(n1.parts_flat().to_multiset() =~= nf.parts_flat().to_multiset());
        }
    }
    proof {
        let nf = *node;
        assert(nf.all_points().subset_of(n1.all_points())) by {
            let e = Multiset::<P>::empty();
            assert(opt_points(nf.left_son).subset_of(opt_points(n1.left_son).add(e)));
            assert(opt_points(nf.right_son).subset_of(opt_points(n1.right_son).add(e)));
            lemma_points_within(n1, nf, e, e);
            assert(n1.all_points().add(e).add(e) =~= n1.all_points());
        }
    }
    proof {
        let nf = *node;
        let q = *point;
        let axis = nf.division_axis;
        assert(sides_agree::<P, G>() && ordered::<P, G>(n0) ==> ordered::<P, G>(nf)) by {
            if sides_agree::<P, G>() && ordered::<P, G>(n0) {
                lemma_ordered_at::<P, G>(n1, q);
                assert(opt_points(nf.left_son).subset_of(opt_points(n1.left_son))) by {
                    assert(opt_points(n1.left_son).add(Multiset::empty()) =~= opt_points(n1.left_son));
                }
                assert(opt_points(nf.right_son).subset_of(opt_points(n1.right_son))) by {
                    assert(opt_points(n1.right_son).add(Multiset::empty()) =~= opt_points(n1.right_son));
                }
                lemma_ordered_children_shrink::<P, G>(n1, nf);
            }
        }
        assert(found ==> child_hit) by {
            if found {
                reveal(findable);
                lemma_search_side::<P, G>(n1, q, same);
                if opt_flat(n1.left_son).to_multiset().count(q) > 0 {
                    assert(left_tried);
                    match n1.left_son {
                        Some(l) => assert(findable::<P, G>(*l, q)),
                        None => {},
                    }
                } else if !child_hit {
                    assert(right_tried);
                    match n1.right_son {
                        Some(r) => assert(findable::<P, G>(*r, q)),
                        None => {},
                    }
                }
            }
        }
    }
    let ghost nf = *node;
    let t = finish_node(node, allow_rebuild, params, pcl_storage);

    proof {
        assert(t.all_points().subset_of(n0.all_points())) by {
            assert forall|x: P| t.all_points().count(x) <= n0.all_points().count(x) by {
                assert(t.all_points().count(x) <= nf.all_points().count(x));
                assert(nf.all_points().count(x) <= n1.all_points().count(x));
            }
        }
        lemma_valid_is_flat(*t);
        if child_hit {
            assert(n0.flat().to_multiset() == t.flat().to_multiset().insert(removed));
        }
    }
    t
}

/// In an optional well-formed subtree, all points are deleted exactly when
/// it is flagged deleted, and the deleted count is at most the size.
pub proof fn lemma_opt_invalid<P, G>(t: Option<Box<KdNode<P, G>>>)
    requires
        opt_tree_wf(t),
    ensures
        o_deleted(status_of(t)) <==> o_invalid(status_of(t)) == o_size(status_of(t)),
        0 <= o_invalid(status_of(t)) <= o_size(status_of(t)),
{
    match t {
        Some(n) => {
            assert(n.tree_wf());
            lemma_all_invalid_iff_deleted(*n);
        },
        None => {},
    }
}

/// Deletes the points of the subtree that lie in `region`: a subtree whose
/// bounding box the region contains is flagged deleted as a whole (its
/// children learn of it lazily), a subtree whose box the region misses is
/// left alone. With `is_downsample` the deletions count as downsampling
/// deletions. Each node on the way is brought up to date and, when
/// `allow_rebuild` is set and the criterion holds, rebuilt. Returns the
/// number of points this deleted, at most the subtree's valid points.
#[verifier::spinoff_prover]
#[verifier::rlimit(100)]
pub fn delete_by_range_recursive<P: Copy, G: NodeGeometry<P>>(
    node: Box<KdNode<P, G>>,
    region: &G::Region,
    allow_rebuild: bool,
    is_downsample: bool,
    params: &G::Params,
    pcl_storage: &mut Vec<P>,
) -> (res: (Box<KdNode<P, G>>, i32))
    requires
        node.tree_wf(),
    ensures
        res.0.tree_wf(),
        res.0.node_count() <= node.node_count(),
        0 <= res.1 <= valid_of(node.status),
        res.1 == valid_of(node.status) - valid_of(res.0.status),
        res.0.all_points().subset_of(node.all_points()),
        sides_agree::<P, G>() && ordered::<P, G>(*node) ==> ordered::<P, G>(*res.0),
        exists|out: Seq<P>|
            #[trigger] range_found::<P, G>(*node, *region, out) && node.flat().to_multiset()
                == res.0.flat().to_multiset().add(out.to_multiset()),
        !allow_rebuild ==> res.0.node_count() == node.node_count() && res.0.all_points()
            == node.all_points(),
    decreases node.node_count(), 0nat,
{
    let ghost n0 = *node;
    proof {
        lemma_valid_is_flat(n0);
        lemma_empty_to_multiset::<P>();
    }
    if node.status.tree_deleted {
        proof {
            assert(range_found::<P, G>(n0, *region, Seq::<P>::empty()));
            assert(n0.flat().to_multiset() =~= n0.flat().to_multiset().add(Seq::<P>::empty().to_multiset()));
        }
        return (node, 0);
    }
    let mut node = node;
    proof {
        lemma_size_is_count(*node);
        lemma_agrees_valid(node.status, node.eff_left(), node.eff_right());
    }
    let ghost v0 = valid_of(node.status);
    node.working_flag = true;
    proof {
        lemma_ordered_same_shape::<P, G>(*node, n0);
    }
    push_down_node(&mut *node);
    assert(valid_of(node.status) == v0);
    let ghost n1 = *node;
    proof {
        lemma_flat_parts(n1);
        lemma_parts_multiset(n1);
        vstd::seq_lib::to_multiset_len(n1.parts_flat());
    }
    let meets = node.geom.meets(region);
    if !meets {
        node.working_flag = false;
        proof {
            lemma_ordered_same_shape::<P, G>(*node, n1);
            assert(range_found::<P, G>(n0, *region, Seq::<P>::empty()));
            assert(n0.flat().to_multiset() =~= node.flat().to_multiset().add(Seq::<P>::empty().to_multiset()));
        }
        return (node, 0);
    }
    let covers = node.geom.covers(region);
    if covers {
        let deleted = mark_whole_subtree(&mut *node, is_downsample);
        let ghost marked = *node;
        node.working_flag = false;
        proof {
            lemma_ordered_same_shape::<P, G>(*node, marked);
            assert(ordered::<P, G>(*node) == ordered::<P, G>(n0));
            lemma_valid_is_flat(*node);
            assert(node.flat() =~= Seq::<P>::empty());
            assert(range_found::<P, G>(n0, *region, n0.flat()));
            assert(n0.flat().to_multiset() =~= node.flat().to_multiset().add(n0.flat().to_multiset()));
        }
        return (node, deleted);
    }
    let in_box = G::point_in(&node.point, region);
    proof {
        lemma_opt_invalid(node.left_son);
        lemma_opt_invalid(node.right_son);
        lemma_singleton_to_multiset(n1.point);
    }
    let ghost vl = o_valid(status_of(node.left_son));
    let ghost vr = o_valid(status_of(node.right_son));
    let ghost own0 = one_if(node.status.point_deleted);
    assert(v0 == vl + vr + 1 - own0);
    let ghost pts0 = node.all_points();
    let ghost lp = opt_points(node.left_son);
    let ghost rp = opt_points(node.right_son);
    let ghost own_out = if !n1.status.point_deleted && in_box {
        seq![n1.point]
    } else {
        Seq::<P>::empty()
    };
    let mut tmp_counter = node.status.mark_point_in_box_deleted(in_box, is_downsample);
    let ghost own1 = one_if(node.status.point_deleted);
    assert(tmp_counter == own1 - own0);
    assert(0 <= tmp_counter <= 1 - own0);
    let left = node.left_son.take();
    let (new_left, count_left) = delete_in_child(
        left,
        region,
        allow_rebuild,
        is_downsample,
        params,
        pcl_storage,
    );
    let ghost lo = choose|out: Seq<P>|
        #[trigger] opt_range_found::<P, G>(n1.left_son, *region, out) && opt_flat(n1.left_son).to_multiset()
            == opt_flat(new_left).to_multiset().add(out.to_multiset());
    node.left_son = new_left;
    let right = node.right_son.take();
    let (new_right, count_right) = delete_in_child(
        right,
        region,
        allow_rebuild,
        is_downsample,
        params,
        pcl_storage,
    );
    let ghost ro = choose|out: Seq<P>|
        #[trigger] opt_range_found::<P, G>(n1.right_son, *region, out) && opt_flat(n1.right_son).to_multiset()
            == opt_flat(new_right).to_multiset().add(out.to_multiset());
    node.right_son = new_right;
    let tmp_counter = tmp_counter + count_left + count_right;
    proof {
        lemma_opt_size(node.left_son);
        lemma_opt_size(node.right_son);
        if !allow_rebuild {
            assert(node.all_points() == pts0);
        }
        let nf = *node;
        lemma_parts_multiset(nf);
        vstd::seq_lib::to_multiset_len(nf.parts_flat());
        lemma_opt_valid_is_flat(n1.left_son);
        lemma_opt_valid_is_flat(n1.right_son);
        lemma_opt_valid_is_flat(nf.left_son);
        lemma_opt_valid_is_flat(nf.right_son);
        let out = own_out + lo + ro;
        let a = own_out.len() as int;
        let b = a + lo.len();
        assert(out.subrange(0, a) =~= own_out);
        assert(out.subrange(a, b) =~= lo);
        assert(out.subrange(b, out.len() as int) =~= ro);
        assert(range_own::<P, G>(n0, *region, own_out));
        assert(range_found::<P, G>(n0, *region, out));
        vstd::seq_lib::lemma_multiset_commutative(own_out + lo, ro);
        vstd::seq_lib::lemma_multiset_commutative(own_out, lo);
        assert(n1.own_flat().to_multiset() =~= nf.own_flat().to_multiset().add(own_out.to_multiset()));
        assert(n1.parts_flat().to_multiset() =~= nf.parts_flat().to_multiset().add(out.to_multiset()));
        vstd::seq_lib::to_multiset_len(out);
    }
    proof {
        let nf = *node;
        assert(nf.all_points().subset_of(n1.all_points())) by {
            let e = Multiset::<P>::empty();
            assert(opt_points(nf.left_son).subset_of(opt_points(n1.left_son).add(e)));
            assert(opt_points(nf.right_son).subset_of(opt_points(n1.right_son).add(e)));
            lemma_points_within(n1, nf, e, e);
            assert(n1.all_points().add(e).add(e) =~= n1.all_points());
        }
    }
    proof {
        let nf = *node;
        let axis = nf.division_axis;
        assert(sides_agree::<P, G>() && ordered::<P, G>(n0) ==> ordered::<P, G>(nf)) by {
            if sides_agree::<P, G>() && ordered::<P, G>(n0) {
                lemma_ordered_at::<P, G>(n1, n1.point);
                lemma_ordered_children_shrink::<P, G>(n1, nf);
            }
        }
    }
    let ghost nf = *node;
    let node = finish_node(node, allow_rebuild, params, pcl_storage);
    proof {
        lemma_valid_is_flat(*node);
        assert(node.all_points().subset_of(n0.all_points())) by {
            assert forall|x: P| node.all_points().count(x) <= n0.all_points().count(x) by {
                assert(node.all_points().count(x) <= nf.all_points().count(x));
                assert(nf.all_points().count(x) <= n1.all_points().count(x));
            }
        }
    }
    (node, tmp_counter)
}

/// Whether `out` is what the search of an optional subtree can append (an
/// absent subtree appends nothing).
pub open spec fn opt_range_found<P, G: NodeGeometry<P>>(
    c: Option<Box<KdNode<P, G>>>,
    region: G::Region,
    out: Seq<P>,
) -> bool {
    match c {
        Some(n) => range_found::<P, G>(*n, region, out),
        None => out == Seq::<P>::empty(),
    }
}

/// `delete_by_range_recursive` on an optional subtree.
pub fn delete_in_child<P: Copy, G: NodeGeometry<P>>(
    child: Option<Box<KdNode<P, G>>>,
    region: &G::Region,
    allow_rebuild: bool,
    is_downsample: bool,
    params: &G::Params,
    pcl_storage: &mut Vec<P>,
) -> (res: (Option<Box<KdNode<P, G>>>, i32))
    requires
        opt_tree_wf(child),
    ensures
        opt_tree_wf(res.0),
        opt_count(res.0) <= opt_count(child),
        0 <= res.1 <= o_valid(status_of(child)),
        res.0 is Some == child is Some,
        res.1 == o_valid(status_of(child)) - o_valid(status_of(res.0)),
        opt_points(res.0).subset_of(opt_points(child)),
        sides_agree::<P, G>() && opt_ordered::<P, G>(child) ==> opt_ordered::<P, G>(res.0),
        exists|out: Seq<P>|
            #[trigger] opt_range_found::<P, G>(child, *region, out) && opt_flat(child).to_multiset()
                == opt_flat(res.0).to_multiset().add(out.to_multiset()),
        !allow_rebuild ==> opt_count(res.0) == opt_count(child) && opt_points(res.0) == opt_points(
            child,
        ),
    decreases opt_count(child), 1nat,
{
    match child {
        Some(c) => {
            let ghost c0 = *c;
            let (t, count) = delete_by_range_recursive(
                c,
                region,
                allow_rebuild,
                is_downsample,
                params,
                pcl_storage,
            );
            proof {
                let out = choose|out: Seq<P>|
                    #[trigger] range_found::<P, G>(c0, *region, out) && c0.flat().to_multiset()
                        == t.flat().to_multiset().add(out.to_multiset());
                assert(opt_range_found::<P, G>(Some(Box::new(c0)), *region, out));
            }
            (Some(t), count)
        },
        None => {
            proof {
                lemma_empty_to_multiset::<P>();
                assert(opt_range_found::<P, G>(None, *region, Seq::<P>::empty()));
                assert(Multiset::<P>::empty() =~= Multiset::<P>::empty().add(Seq::<P>::empty().to_multiset()));
            }
            (None, 0)
        },
    }
}

/// Keeping the items of `s` that satisfy `pred` keeps none when none does.
pub proof fn lemma_filter_none<A>(s: Seq<A>, pred: spec_fn(A) -> bool)
    requires
        forall|i: int| 0 <= i < s.len() ==> !pred(#[trigger] s[i]),
    ensures
        s.filter(pred) == Seq::<A>::empty(),
    decreases s.len(),
{
    reveal(Seq::filter);
    if s.len() > 0 {
        lemma_filter_none(s.drop_last(), pred);
        assert(!pred(s[s.len() - 1]));
    }
}

/// The kept points of a node not flagged deleted are the kept part of its
/// own point followed by the kept points of each child.
pub proof fn lemma_filter_parts<P, G>(
    n: KdNode<P, G>,
    pred: spec_fn(P) -> bool,
    own_out: Seq<P>,
    lo: Seq<P>,
    ro: Seq<P>,
)
    requires
        !n.status.tree_deleted,
        n.status.point_deleted ==> own_out == Seq::<P>::empty(),
        !n.status.point_deleted && pred(n.point) ==> own_out == seq![n.point],
        !n.status.point_deleted && !pred(n.point) ==> own_out == Seq::<P>::empty(),
        lo == opt_flat(n.left_son).filter(pred),
        ro == opt_flat(n.right_son).filter(pred),
    ensures
        own_out + lo + ro == n.flat().filter(pred),
{
    reveal(Seq::filter);
    let own = n.own_flat();
    let lf = opt_flat(n.left_son);
    let rf = opt_flat(n.right_son);
    assert(n.flat() == own + lf + rf);
    Seq::filter_distributes_over_add(own + lf, rf, pred);
    Seq::filter_distributes_over_add(own, lf, pred);
    if !n.status.point_deleted {
        assert(seq![n.point].drop_last() =~= Seq::<P>::empty());
    }
    assert(own.filter(pred) == own_out);
}

/// Keeping the items of `s` that satisfy `pred` keeps all when all do.
pub proof fn lemma_filter_all<A>(s: Seq<A>, pred: spec_fn(A) -> bool)
    requires
        forall|i: int| 0 <= i < s.len() ==> pred(#[trigger] s[i]),
    ensures
        s.filter(pred) == s,
    decreases s.len(),
{
    reveal(Seq::filter);
    if s.len() > 0 {
        lemma_filter_all(s.drop_last(), pred);
        assert(pred(s[s.len() - 1]));
        assert(s.drop_last().push(s.last()) =~= s);
    }
}

/// The points that the geometry's point test may find inside `region`.
pub open spec fn inside_pred<P, G: NodeGeometry<P>>(region: G::Region) -> spec_fn(P) -> bool {
    |p: P| call_ensures(G::point_in, (&p, &region), true)
}

/// The point test answers each point one way only.
pub open spec fn point_in_decided<P, G: NodeGeometry<P>>(region: G::Region) -> bool {
    forall|p: P|
        #![trigger call_ensures(G::point_in, (&p, &region), true)]
        !(call_ensures(G::point_in, (&p, &region), true) && call_ensures(
            G::point_in,
            (&p, &region),
            false,
        ))
}

/// At every node of the subtree, the geometry's answer that the region misses its bounding box
/// is given only when the point test finds none of the node's valid points
/// inside `region`, and the answer that the region contains its bounding box only when it finds all
/// of them there.
pub open spec fn box_tests_sound<P, G: NodeGeometry<P>>(n: KdNode<P, G>, region: G::Region) -> bool
    decreases n,
{
    &&& call_ensures(G::meets, (&n.geom, &region), false) ==> forall|i: int|
        0 <= i < n.flat().len() ==> !inside_pred::<P, G>(region)(#[trigger] n.flat()[i])
    &&& call_ensures(G::covers, (&n.geom, &region), true) ==> forall|i: int|
        0 <= i < n.flat().len() ==> inside_pred::<P, G>(region)(#[trigger] n.flat()[i])
    &&& match n.left_son {
        Some(l) => box_tests_sound::<P, G>(*l, region),
        None => true,
    }
    &&& match n.right_son {
        Some(r) => box_tests_sound::<P, G>(*r, region),
        None => true,
    }
}

/// Whether `own` is what the search takes of the node's own point: nothing
/// when the point is flagged deleted, else the point when the geometry puts
/// it in the query and nothing when it does not.
pub open spec fn range_own<P, G: NodeGeometry<P>>(n: KdNode<P, G>, region: G::Region, own: Seq<P>) -> bool {
    if n.status.point_deleted {
        own == Seq::<P>::empty()
    } else {
        ||| call_ensures(G::point_in, (&n.point, &region), true) && own == seq![n.point]
        ||| call_ensures(G::point_in, (&n.point, &region), false) && own == Seq::<P>::empty()
    }
}

/// Whether `out` is what the search of the subtree `n` can append: nothing
/// when the subtree is flagged deleted or the geometry rules the node's box
/// out, every point of the subtree that is not deleted when it takes the box
/// whole, and otherwise the node's own part followed by what the search of
/// the left child appends and what that of the right child appends (an
/// absent child appends nothing).
pub open spec fn range_found<P, G: NodeGeometry<P>>(n: KdNode<P, G>, region: G::Region, out: Seq<P>) -> bool
    decreases n,
{
    ||| n.status.tree_deleted && out == Seq::<P>::empty()
    ||| !n.status.tree_deleted && call_ensures(G::meets, (&n.geom, &region), false) && out == Seq::<P>::empty()
    ||| !n.status.tree_deleted && call_ensures(G::meets, (&n.geom, &region), true) && call_ensures(G::covers, (&n.geom, &region), true) && out == n.flat()
    ||| !n.status.tree_deleted && call_ensures(G::meets, (&n.geom, &region), true) && call_ensures(G::covers, (&n.geom, &region), false) && exists|a: int, b: int|
        #![trigger out.subrange(0, a), out.subrange(a, b)]
        {
            &&& 0 <= a <= b <= out.len()
            &&& out == out.subrange(0, a) + out.subrange(a, b) + out.subrange(b, out.len() as int)
            &&& range_own::<P, G>(n, region, out.subrange(0, a))
            &&& match n.left_son {
                Some(l) => range_found::<P, G>(*l, region, out.subrange(a, b)),
                None => a == b,
            }
            &&& match n.right_son {
                Some(r) => range_found::<P, G>(*r, region, out.subrange(b, out.len() as int)),
                None => b == out.len(),
            }
        }
}

/// What the box search of a subtree may append is exactly the points of
/// the subtree that are not deleted and that the point test puts inside
/// `region`, in preorder, when the point test answers each point one
/// way and the node tests are sound: no such point is missed, and no other
/// point is taken.
#[verifier::spinoff_prover]
#[verifier::rlimit(60)]
pub proof fn lemma_range_found_exact<P, G: NodeGeometry<P>>(
    n: KdNode<P, G>,
    region: G::Region,
    out: Seq<P>,
)
    requires
        point_in_decided::<P, G>(region),
        box_tests_sound::<P, G>(n, region),
        range_found::<P, G>(n, region, out),
    ensures
        out == n.flat().filter(inside_pred::<P, G>(region)),
        forall|p: P| n.flat().contains(p) && inside_pred::<P, G>(region)(p) ==> #[trigger] out.contains(p),
    decreases n,
{
    broadcast use vstd::seq_lib::group_filter_ensures;

    let pred = inside_pred::<P, G>(region);
    let fl = n.flat();
    if n.status.tree_deleted && out == Seq::<P>::empty() {
        assert(fl =~= Seq::<P>::empty());
        lemma_filter_none(fl, pred);
    } else if !n.status.tree_deleted && call_ensures(G::meets, (&n.geom, &region), false) && out
        == Seq::<P>::empty() {
        lemma_filter_none(fl, pred);
    } else if !n.status.tree_deleted && call_ensures(G::meets, (&n.geom, &region), true)
        && call_ensures(G::covers, (&n.geom, &region), true) && out == fl {
        lemma_filter_all(fl, pred);
    } else {
        assert(exists|a: int, b: int|
            #![trigger out.subrange(0, a), out.subrange(a, b)]
            {
                &&& 0 <= a <= b <= out.len()
                &&& out == out.subrange(0, a) + out.subrange(a, b) + out.subrange(b, out.len() as int)
                &&& range_own::<P, G>(n, region, out.subrange(0, a))
                &&& match n.left_son {
                    Some(l) => range_found::<P, G>(*l, region, out.subrange(a, b)),
                    None => a == b,
                }
                &&& match n.right_son {
                    Some(r) => range_found::<P, G>(*r, region, out.subrange(b, out.len() as int)),
                    None => b == out.len(),
                }
            });
        let (a, b) = choose|a: int, b: int|
            #![trigger out.subrange(0, a), out.subrange(a, b)]
            {
                &&& 0 <= a <= b <= out.len()
                &&& out == out.subrange(0, a) + out.subrange(a, b) + out.subrange(b, out.len() as int)
                &&& range_own::<P, G>(n, region, out.subrange(0, a))
                &&& match n.left_son {
                    Some(l) => range_found::<P, G>(*l, region, out.subrange(a, b)),
                    None => a == b,
                }
                &&& match n.right_son {
                    Some(r) => range_found::<P, G>(*r, region, out.subrange(b, out.len() as int)),
                    None => b == out.len(),
                }
            };
        let o = out.subrange(0, a);
        let lo = out.subrange(a, b);
        let ro = out.subrange(b, out.len() as int);
        match n.left_son {
            Some(l) => {
                lemma_range_found_exact::<P, G>(*l, region, lo);
            },
            None => {
                assert(lo =~= Seq::<P>::empty());
                lemma_filter_none(Seq::<P>::empty(), pred);
            },
        }
        match n.right_son {
            Some(r) => {
                lemma_range_found_exact::<P, G>(*r, region, ro);
            },
            None => {
                assert(ro =~= Seq::<P>::empty());
                lemma_filter_none(Seq::<P>::empty(), pred);
            },
        }
        if !n.status.point_deleted {
            assert(pred(n.point) == call_ensures(G::point_in, (&n.point, &region), true));
        }
        lemma_filter_parts::<P, G>(n, pred, o, lo, ro);
        assert(out =~= o + lo + ro);
    }
    assert forall|p: P| fl.contains(p) && pred(p) implies #[trigger] out.contains(p) by {
        let i = choose|i: int| 0 <= i < fl.len() && fl[i] == p;
        fl.lemma_filter_contains(pred, i);
    }
}

/// Collects the points of the subtree inside `region`: nothing below a node
/// flagged deleted or whose bounding box the region misses, every point not
/// deleted below a node whose box the region contains, and otherwise the node's own point when it
/// is not flagged deleted and lies in the region, then the same for the
/// children. Every point added is a point of the subtree that is not deleted.
#[verifier::spinoff_prover]
#[verifier::rlimit(60)]
pub fn search_by_range<P: Copy, G: NodeGeometry<P>>(
    node: &KdNode<P, G>,
    region: &G::Region,
    storage: &mut Vec<P>,
)
    ensures
        final(storage)@.len() >= old(storage)@.len(),
        final(storage)@.subrange(0, old(storage)@.len() as int) == old(storage)@,
        range_found(*node, *region, final(storage)@.subrange(old(storage)@.len() as int, final(storage)@.len() as int)),
        forall|i: int|
            old(storage)@.len() <= i < final(storage)@.len() ==> node.flat().contains(
                #[trigger] final(storage)@[i],
            ),
        point_in_decided::<P, G>(*region) && box_tests_sound::<P, G>(*node, *region) ==> final(storage)@.subrange(
            old(storage)@.len() as int,
            final(storage)@.len() as int,
        ) == node.flat().filter(inside_pred::<P, G>(*region)),
    decreases node,
{
    let ghost n = *node;
    let ghost s0 = storage@;
    let ghost own = if n.status.point_deleted {
        Seq::<P>::empty()
    } else {
        seq![n.point]
    };
    let ghost lf = match n.left_son {
        Some(l) => l.flat(),
        None => Seq::<P>::empty(),
    };
    let ghost rf = match n.right_son {
        Some(r) => r.flat(),
        None => Seq::<P>::empty(),
    };
    let ghost pred = inside_pred::<P, G>(*region);
    let ghost exact = point_in_decided::<P, G>(*region) && box_tests_sound::<P, G>(n, *region);
    if node.status.tree_deleted {
        proof {
            assert(n.flat() =~= Seq::<P>::empty());
            lemma_filter_none(n.flat(), pred);
        }
        assert(storage@.subrange(s0.len() as int, s0.len() as int) =~= Seq::<P>::empty());
        assert(storage@.subrange(0, s0.len() as int) =~= s0);
        return;
    }
    assert(n.flat() == own + lf + rf);
    let skip = node.geom.meets(region);
    if !skip {
        assert(storage@.subrange(s0.len() as int, s0.len() as int) =~= Seq::<P>::empty());
        proof {
            if exact {
                lemma_range_found_exact::<P, G>(n, *region, storage@.subrange(s0.len() as int, storage@.len() as int));
            }
        }
        return;
    }
    let whole = node.geom.covers(region);
    if whole {
        flatten(node, storage);
        assert(storage@.subrange(0, s0.len() as int) =~= s0);
        assert(storage@.subrange(s0.len() as int, storage@.len() as int) =~= n.flat());
        assert forall|i: int| s0.len() <= i < storage@.len() implies n.flat().contains(
            #[trigger] storage@[i],
        ) by {
            assert(storage@[i] == n.flat()[i - s0.len()]);
        }
        proof {
            if exact {
                lemma_range_found_exact::<P, G>(n, *region, storage@.subrange(s0.len() as int, storage@.len() as int));
            }
        }
        return;
    }
    if !node.status.point_deleted {
        let inside = G::point_in(&node.point, region);
        if inside {
            storage.push(node.point);
            assert(n.flat()[0] == n.point);
            assert(storage@.subrange(s0.len() as int, storage@.len() as int) =~= seq![n.point]);
        } else {
            assert(storage@.subrange(s0.len() as int, storage@.len() as int) =~= Seq::<P>::empty());
        }
        assert(range_own::<P, G>(n, *region, storage@.subrange(s0.len() as int, storage@.len() as int)));
    } else {
        assert(storage@.subrange(s0.len() as int, storage@.len() as int) =~= Seq::<P>::empty());
    }
    let ghost s1 = storage@;
    assert(s1.subrange(0, s0.len() as int) =~= s0);
    assert(range_own::<P, G>(n, *region, s1.subrange(s0.len() as int, s1.len() as int)));
    assert forall|i: int| s0.len() <= i < s1.len() implies n.flat().contains(#[trigger] s1[i]) by {
        assert(n.flat()[0] == s1[i]);
    }
    match &node.left_son {
        Some(l) => {
            search_by_range(l, region, storage);
            assert forall|i: int| s1.len() <= i < storage@.len() implies n.flat().contains(
                #[trigger] storage@[i],
            ) by {
                let k = choose|k: int| 0 <= k < lf.len() && lf[k] == storage@[i];
                assert(n.flat()[own.len() + k] == storage@[i]);
            }
        },
        None => {},
    }
    let ghost s2 = storage@;
    assert(s2.subrange(0, s1.len() as int) =~= s1);
    assert forall|i: int| s0.len() <= i < s2.len() implies n.flat().contains(#[trigger] s2[i]) by {
        if i < s1.len() {
            assert(s2[i] == s1[i]);
        }
    }
    match &node.right_son {
        Some(r) => {
            search_by_range(r, region, storage);
            assert forall|i: int| s2.len() <= i < storage@.len() implies n.flat().contains(
                #[trigger] storage@[i],
            ) by {
                let k = choose|k: int| 0 <= k < rf.len() && rf[k] == storage@[i];
                assert(n.flat()[own.len() + lf.len() + k] == storage@[i]);
            }
        },
        None => {},
    }
    assert(storage@.subrange(0, s2.len() as int) =~= s2);
    assert forall|j: int| 0 <= j < s0.len() implies storage@[j] == s0[j] by {
        assert(storage@[j] == storage@.subrange(0, s2.len() as int)[j]);
        assert(s2[j] == s2.subrange(0, s1.len() as int)[j]);
        assert(s1[j] == s1.subrange(0, s0.len() as int)[j]);
    }
    assert forall|i: int| s0.len() <= i < storage@.len() implies n.flat().contains(
        #[trigger] storage@[i],
    ) by {
        if i < s2.len() {
            assert(storage@[i] == s2[i]);
        }
    }
    assert(storage@.subrange(0, s0.len() as int) =~= s0);
    proof {
        let out = storage@.subrange(s0.len() as int, storage@.len() as int);
        let a = s1.len() - s0.len();
        let b = s2.len() - s0.len();
        assert(out.subrange(0, a) =~= s1.subrange(s0.len() as int, s1.len() as int));
        assert(out.subrange(a, b) =~= s2.subrange(s1.len() as int, s2.len() as int));
        assert(out.subrange(b, out.len() as int) =~= storage@.subrange(
            s2.len() as int,
            storage@.len() as int,
        ));
        assert(s0.len() <= s1.len() <= s2.len() <= storage@.len());
        assert(out =~= out.subrange(0, a) + out.subrange(a, b) + out.subrange(b, out.len() as int));
        assert(range_found::<P, G>(n, *region, out));
        if exact {
            lemma_range_found_exact::<P, G>(n, *region, out);
        }
    }
}

/// The points that the geometry's point test may find within `radius` of `q`.
pub open spec fn within_pred<P, G: NodeGeometry<P>>(q: P, radius: G::Radius) -> spec_fn(P) -> bool {
    |p: P| call_ensures(G::point_within, (&p, &q, &radius), true)
}

/// The point test answers each point one way only.
pub open spec fn point_within_decided<P, G: NodeGeometry<P>>(q: P, radius: G::Radius) -> bool {
    forall|p: P|
        #![trigger call_ensures(G::point_within, (&p, &q, &radius), true)]
        !(call_ensures(G::point_within, (&p, &q, &radius), true) && call_ensures(
            G::point_within,
            (&p, &q, &radius),
            false,
        ))
}

/// At every node of the subtree, the geometry's answer that its bounding sphere lies beyond the radius
/// is given only when the point test finds none of the node's valid points
/// within `radius` of `q`, and the answer that it lies within the radius only when it finds all
/// of them there.
pub open spec fn radius_tests_sound<P, G: NodeGeometry<P>>(n: KdNode<P, G>, q: P, radius: G::Radius) -> bool
    decreases n,
{
    &&& call_ensures(G::beyond, (&n.geom, &q, &radius), true) ==> forall|i: int|
        0 <= i < n.flat().len() ==> !within_pred::<P, G>(q, radius)(#[trigger] n.flat()[i])
    &&& call_ensures(G::within, (&n.geom, &q, &radius), true) ==> forall|i: int|
        0 <= i < n.flat().len() ==> within_pred::<P, G>(q, radius)(#[trigger] n.flat()[i])
    &&& match n.left_son {
        Some(l) => radius_tests_sound::<P, G>(*l, q, radius),
        None => true,
    }
    &&& match n.right_son {
        Some(r) => radius_tests_sound::<P, G>(*r, q, radius),
        None => true,
    }
}

/// Whether `own` is what the search takes of the node's own point: nothing
/// when the point is flagged deleted, else the point when the geometry puts
/// it in the query and nothing when it does not.
pub open spec fn radius_own<P, G: NodeGeometry<P>>(n: KdNode<P, G>, q: P, radius: G::Radius, own: Seq<P>) -> bool {
    if n.status.point_deleted {
        own == Seq::<P>::empty()
    } else {
        ||| call_ensures(G::point_within, (&n.point, &q, &radius), true) && own == seq![n.point]
        ||| call_ensures(G::point_within, (&n.point, &q, &radius), false) && own == Seq::<P>::empty()
    }
}

/// Whether `out` is what the search of the subtree `n` can append: nothing
/// when the subtree is flagged deleted or the geometry rules the node's box
/// out, every point of the subtree that is not deleted when it takes the box
/// whole, and otherwise the node's own part followed by what the search of
/// the left child appends and what that of the right child appends (an
/// absent child appends nothing).
pub open spec fn radius_found<P, G: NodeGeometry<P>>(n: KdNode<P, G>, q: P, radius: G::Radius, out: Seq<P>) -> bool
    decreases n,
{
    ||| n.status.tree_deleted && out == Seq::<P>::empty()
    ||| !n.status.tree_deleted && call_ensures(G::beyond, (&n.geom, &q, &radius), true) && out == Seq::<P>::empty()
    ||| !n.status.tree_deleted && call_ensures(G::beyond, (&n.geom, &q, &radius), false) && call_ensures(G::within, (&n.geom, &q, &radius), true) && out == n.flat()
    ||| !n.status.tree_deleted && call_ensures(G::beyond, (&n.geom, &q, &radius), false) && call_ensures(G::within, (&n.geom, &q, &radius), false) && exists|a: int, b: int|
        #![trigger out.subrange(0, a), out.subrange(a, b)]
        {
            &&& 0 <= a <= b <= out.len()
            &&& out == out.subrange(0, a) + out.subrange(a, b) + out.subrange(b, out.len() as int)
            &&& radius_own::<P, G>(n, q, radius, out.subrange(0, a))
            &&& match n.left_son {
                Some(l) => radius_found::<P, G>(*l, q, radius, out.subrange(a, b)),
                None => a == b,
            }
            &&& match n.right_son {
                Some(r) => radius_found::<P, G>(*r, q, radius, out.subrange(b, out.len() as int)),
                None => b == out.len(),
            }
        }
}

/// What the radius search of a subtree may append is exactly the points of
/// the subtree that are not deleted and that the point test puts within
/// `radius` of `q`, in preorder, when the point test answers each point one
/// way and the node tests are sound: no such point is missed, and no other
/// point is taken.
#[verifier::spinoff_prover]
#[verifier::rlimit(60)]
pub proof fn lemma_radius_found_exact<P, G: NodeGeometry<P>>(
    n: KdNode<P, G>,
    q: P,
    radius: G::Radius,
    out: Seq<P>,
)
    requires
        point_within_decided::<P, G>(q, radius),
        radius_tests_sound::<P, G>(n, q, radius),
        radius_found::<P, G>(n, q, radius, out),
    ensures
        out == n.flat().filter(within_pred::<P, G>(q, radius)),
        forall|p: P| n.flat().contains(p) && within_pred::<P, G>(q, radius)(p) ==> #[trigger] out.contains(p),
    decreases n,
{
    broadcast use vstd::seq_lib::group_filter_ensures;

    let pred = within_pred::<P, G>(q, radius);
    let fl = n.flat();
    if n.status.tree_deleted && out == Seq::<P>::empty() {
        assert(fl =~= Seq::<P>::empty());
        lemma_filter_none(fl, pred);
    } else if !n.status.tree_deleted && call_ensures(G::beyond, (&n.geom, &q, &radius), true) && out
        == Seq::<P>::empty() {
        lemma_filter_none(fl, pred);
    } else if !n.status.tree_deleted && call_ensures(G::beyond, (&n.geom, &q, &radius), false)
        && call_ensures(G::within, (&n.geom, &q, &radius), true) && out == fl {
        lemma_filter_all(fl, pred);
    } else {
        assert(exists|a: int, b: int|
            #![trigger out.subrange(0, a), out.subrange(a, b)]
            {
                &&& 0 <= a <= b <= out.len()
                &&& out == out.subrange(0, a) + out.subrange(a, b) + out.subrange(b, out.len() as int)
                &&& radius_own::<P, G>(n, q, radius, out.subrange(0, a))
                &&& match n.left_son {
                    Some(l) => radius_found::<P, G>(*l, q, radius, out.subrange(a, b)),
                    None => a == b,
                }
                &&& match n.right_son {
                    Some(r) => radius_found::<P, G>(*r, q, radius, out.subrange(b, out.len() as int)),
                    None => b == out.len(),
                }
            });
        let (a, b) = choose|a: int, b: int|
            #![trigger out.subrange(0, a), out.subrange(a, b)]
            {
                &&& 0 <= a <= b <= out.len()
                &&& out == out.subrange(0, a) + out.subrange(a, b) + out.subrange(b, out.len() as int)
                &&& radius_own::<P, G>(n, q, radius, out.subrange(0, a))
                &&& match n.left_son {
                    Some(l) => radius_found::<P, G>(*l, q, radius, out.subrange(a, b)),
                    None => a == b,
                }
                &&& match n.right_son {
                    Some(r) => radius_found::<P, G>(*r, q, radius, out.subrange(b, out.len() as int)),
                    None => b == out.len(),
                }
            };
        let o = out.subrange(0, a);
        let lo = out.subrange(a, b);
        let ro = out.subrange(b, out.len() as int);
        match n.left_son {
            Some(l) => {
                lemma_radius_found_exact::<P, G>(*l, q, radius, lo);
            },
            None => {
                assert(lo =~= Seq::<P>::empty());
                lemma_filter_none(Seq::<P>::empty(), pred);
            },
        }
        match n.right_son {
            Some(r) => {
                lemma_radius_found_exact::<P, G>(*r, q, radius, ro);
            },
            None => {
                assert(ro =~= Seq::<P>::empty());
                lemma_filter_none(Seq::<P>::empty(), pred);
            },
        }
        if !n.status.point_deleted {
            assert(pred(n.point) == call_ensures(G::point_within, (&n.point, &q, &radius), true));
        }
        lemma_filter_parts::<P, G>(n, pred, o, lo, ro);
        assert(out =~= o + lo + ro);
    }
    assert forall|p: P| fl.contains(p) && pred(p) implies #[trigger] out.contains(p) by {
        let i = choose|i: int| 0 <= i < fl.len() && fl[i] == p;
        fl.lemma_filter_contains(pred, i);
    }
}

/// Collects the points of the subtree within `radius` of `q`: nothing below
/// a subtree flagged deleted or a node whose bounding sphere lies beyond the
/// radius, every point not deleted below a node whose sphere lies within it,
/// and otherwise the node's own point
/// when it is not flagged deleted and lies within the radius, then the same
/// for the children. Every point added is a point of the subtree that is not
/// deleted.
#[verifier::spinoff_prover]
#[verifier::rlimit(60)]
pub fn search_by_radius<P: Copy, G: NodeGeometry<P>>(
    node: &KdNode<P, G>,
    q: &P,
    radius: &G::Radius,
    storage: &mut Vec<P>,
)
    ensures
        final(storage)@.len() >= old(storage)@.len(),
        final(storage)@.subrange(0, old(storage)@.len() as int) == old(storage)@,
        radius_found(*node, *q, *radius, final(storage)@.subrange(old(storage)@.len() as int, final(storage)@.len() as int)),
        forall|i: int|
            old(storage)@.len() <= i < final(storage)@.len() ==> node.flat().contains(
                #[trigger] final(storage)@[i],
            ),
        point_within_decided::<P, G>(*q, *radius) && radius_tests_sound::<P, G>(*node, *q, *radius) ==> final(storage)@.subrange(
            old(storage)@.len() as int,
            final(storage)@.len() as int,
        ) == node.flat().filter(within_pred::<P, G>(*q, *radius)),
    decreases node,
{
    let ghost n = *node;
    let ghost s0 = storage@;
    let ghost own = if n.status.point_deleted {
        Seq::<P>::empty()
    } else {
        seq![n.point]
    };
    let ghost lf = match n.left_son {
        Some(l) => l.flat(),
        None => Seq::<P>::empty(),
    };
    let ghost rf = match n.right_son {
        Some(r) => r.flat(),
        None => Seq::<P>::empty(),
    };
    let ghost pred = within_pred::<P, G>(*q, *radius);
    let ghost exact = point_within_decided::<P, G>(*q, *radius) && radius_tests_sound::<P, G>(n, *q, *radius);
    if node.status.tree_deleted {
        proof {
            assert(n.flat() =~= Seq::<P>::empty());
            lemma_filter_none(n.flat(), pred);
        }
        assert(storage@.subrange(s0.len() as int, s0.len() as int) =~= Seq::<P>::empty());
        assert(storage@.subrange(0, s0.len() as int) =~= s0);
        return;
    }
    assert(n.flat() == own + lf + rf);
    let skip = node.geom.beyond(q, radius);
    if skip {
        assert(storage@.subrange(s0.len() as int, s0.len() as int) =~= Seq::<P>::empty());
        proof {
            if exact {
                lemma_radius_found_exact::<P, G>(n, *q, *radius, storage@.subrange(s0.len() as int, storage@.len() as int));
            }
        }
        return;
    }
    let whole = node.geom.within(q, radius);
    if whole {
        flatten(node, storage);
        assert(storage@.subrange(0, s0.len() as int) =~= s0);
        assert(storage@.subrange(s0.len() as int, storage@.len() as int) =~= n.flat());
        assert forall|i: int| s0.len() <= i < storage@.len() implies n.flat().contains(
            #[trigger] storage@[i],
        ) by {
            assert(storage@[i] == n.flat()[i - s0.len()]);
        }
        proof {
            if exact {
                lemma_radius_found_exact::<P, G>(n, *q, *radius, storage@.subrange(s0.len() as int, storage@.len() as int));
            }
        }
        return;
    }
    if !node.status.point_deleted {
        let inside = G::point_within(&node.point, q, radius);
        if inside {
            storage.push(node.point);
            assert(n.flat()[0] == n.point);
            assert(storage@.subrange(s0.len() as int, storage@.len() as int) =~= seq![n.point]);
        } else {
            assert(storage@.subrange(s0.len() as int, storage@.len() as int) =~= Seq::<P>::empty());
        }
        assert(radius_own::<P, G>(n, *q, *radius, storage@.subrange(s0.len() as int, storage@.len() as int)));
    } else {
        assert(storage@.subrange(s0.len() as int, storage@.len() as int) =~= Seq::<P>::empty());
    }
    let ghost s1 = storage@;
    assert(s1.subrange(0, s0.len() as int) =~= s0);
    assert(radius_own::<P, G>(n, *q, *radius, s1.subrange(s0.len() as int, s1.len() as int)));
    assert forall|i: int| s0.len() <= i < s1.len() implies n.flat().contains(#[trigger] s1[i]) by {
        assert(n.flat()[0] == s1[i]);
    }
    match &node.left_son {
        Some(l) => {
            search_by_radius(l, q, radius, storage);
            assert forall|i: int| s1.len() <= i < storage@.len() implies n.flat().contains(
                #[trigger] storage@[i],
            ) by {
                let k = choose|k: int| 0 <= k < lf.len() && lf[k] == storage@[i];
                assert(n.flat()[own.len() + k] == storage@[i]);
            }
        },
        None => {},
    }
    let ghost s2 = storage@;
    assert(s2.subrange(0, s1.len() as int) =~= s1);
    assert forall|i: int| s0.len() <= i < s2.len() implies n.flat().contains(#[trigger] s2[i]) by {
        if i < s1.len() {
            assert(s2[i] == s1[i]);
        }
    }
    match &node.right_son {
        Some(r) => {
            search_by_radius(r, q, radius, storage);
            assert forall|i: int| s2.len() <= i < storage@.len() implies n.flat().contains(
                #[trigger] storage@[i],
            ) by {
                let k = choose|k: int| 0 <= k < rf.len() && rf[k] == storage@[i];
                assert(n.flat()[own.len() + lf.len() + k] == storage@[i]);
            }
        },
        None => {},
    }
    assert(storage@.subrange(0, s2.len() as int) =~= s2);
    assert forall|j: int| 0 <= j < s0.len() implies storage@[j] == s0[j] by {
        assert(storage@[j] == storage@.subrange(0, s2.len() as int)[j]);
        assert(s2[j] == s2.subrange(0, s1.len() as int)[j]);
        assert(s1[j] == s1.subrange(0, s0.len() as int)[j]);
    }
    assert forall|i: int| s0.len() <= i < storage@.len() implies n.flat().contains(
        #[trigger] storage@[i],
    ) by {
        if i < s2.len() {
            assert(storage@[i] == s2[i]);
        }
    }
    assert(storage@.subrange(0, s0.len() as int) =~= s0);
    proof {
        let out = storage@.subrange(s0.len() as int, storage@.len() as int);
        let a = s1.len() - s0.len();
        let b = s2.len() - s0.len();
        assert(out.subrange(0, a) =~= s1.subrange(s0.len() as int, s1.len() as int));
        assert(out.subrange(a, b) =~= s2.subrange(s1.len() as int, s2.len() as int));
        assert(out.subrange(b, out.len() as int) =~= storage@.subrange(
            s2.len() as int,
            storage@.len() as int,
        ));
        assert(s0.len() <= s1.len() <= s2.len() <= storage@.len());
        assert(out =~= out.subrange(0, a) + out.subrange(a, b) + out.subrange(b, out.len() as int));
        assert(radius_found::<P, G>(n, *q, *radius, out));
        if exact {
            lemma_radius_found_exact::<P, G>(n, *q, *radius, out);
        }
    }
}

/// An ikd-tree: the root of the node structure and the scratch storage of
/// its rebuilds. Every node of it is always well formed.
pub struct KdTree<P, G> {
    root: Option<Box<KdNode<P, G>>>,
    pcl_storage: Vec<P>,
    points_deleted: Vec<P>,
}

impl<P, G> KdTree<P, G> {
    #[verifier::type_invariant]
    spec fn inv(self) -> bool {
        &&& opt_tree_wf(self.root)
        &&& self.points_deleted@.len() == 0
    }

    /// The root of the tree.
    pub closed spec fn tree(self) -> Option<Box<KdNode<P, G>>> {
        self.root
    }

    /// The recorded removed points, in the order they were recorded.
    pub closed spec fn removed_spec(self) -> Seq<P> {
        self.points_deleted@
    }

    /// Number of nodes.
    pub open spec fn size_spec(self) -> int {
        o_size(status_of(self.tree()))
    }

    /// Number of points that are not deleted.
    pub open spec fn valid_spec(self) -> int {
        o_size(status_of(self.tree())) - o_invalid(status_of(self.tree()))
    }

    /// Points of all nodes, deleted or not.
    pub open spec fn points_spec(self) -> Multiset<P> {
        opt_points(self.tree())
    }

    /// Points that are not deleted, in preorder.
    pub open spec fn flat_spec(self) -> Seq<P> {
        match self.tree() {
            Some(n) => n.flat(),
            None => Seq::empty(),
        }
    }

    /// The points that are not deleted, as a multiset.
    pub open spec fn valid_points(self) -> Multiset<P> {
        self.flat_spec().to_multiset()
    }

    /// An empty tree.
    pub fn new() -> (t: Self)
        ensures
            t.tree() is None,
            t.size_spec() == 0,
            t.removed_spec() == Seq::<P>::empty(),
    {
        KdTree { root: None, pcl_storage: Vec::new(), points_deleted: Vec::new() }
    }

    /// The root of the tree; every node below it is well formed.
    pub fn root(&self) -> (r: &Option<Box<KdNode<P, G>>>)
        ensures
            *r == self.tree(),
            opt_tree_wf(*r),
    {
        proof {
            use_type_invariant(self);
        }
        &self.root
    }

    /// Number of nodes in the tree.
    pub fn size(&self) -> (r: i32)
        ensures
            r == self.size_spec(),
            r == opt_count(self.tree()),
    {
        proof {
            use_type_invariant(self);
            lemma_opt_size(self.root);
        }
        match &self.root {
            Some(n) => n.status.tree_size,
            None => 0,
        }
    }

    /// Number of points that are not deleted.
    pub fn validnum(&self) -> (r: i32)
        ensures
            r == self.valid_spec(),
            0 <= r <= self.size_spec(),
            r == self.flat_spec().len(),
    {
        proof {
            use_type_invariant(self);
            lemma_opt_invalid(self.root);
        }
        match &self.root {
            Some(n) => {
                proof {
                    lemma_valid_is_flat(**n);
                }
                n.status.valid_count()
            },
            None => 0,
        }
    }

    /// Whether the tree has no node.
    pub fn is_empty(&self) -> (b: bool)
        ensures
            b == (self.tree() is None),
    {
        self.root.is_none()
    }

    /// The points that are not deleted, in preorder.
    pub fn flatten_all(&self) -> (v: Vec<P>)
        where
            P: Copy,
        ensures
            v@ == self.flat_spec(),
    {
        let mut storage: Vec<P> = Vec::new();
        match &self.root {
            Some(n) => {
                flatten(n, &mut storage);
                assert(storage@ =~= n.flat());
            },
            None => {},
        }
        storage
    }

    /// Hands out the recorded removed points and clears the record. No
    /// operation records a point (the record stays empty), so the result is
    /// always empty.
    pub fn acquire_removed_points(&mut self) -> (v: Vec<P>)
        ensures
            v@ == old(self).removed_spec(),
            v@ == Seq::<P>::empty(),
            final(self).removed_spec() == Seq::<P>::empty(),
            final(self).tree() == old(self).tree(),
    {
        proof {
            use_type_invariant(&*self);
        }
        let mut out: Vec<P> = Vec::new();
        std::mem::swap(&mut out, &mut self.points_deleted);
        out
    }
}

impl<P: Copy, G: NodeGeometry<P>> KdTree<P, G> {
    /// The tree is ordered (see `ordered`); an empty tree is.
    pub open spec fn ordered_spec(self) -> bool {
        opt_ordered::<P, G>(self.tree())
    }

    /// Replaces the tree by one built from `points`, all valid.
    pub fn build(&mut self, points: Vec<P>)
        requires
            points.len() <= i32::MAX,
        ensures
            final(self).size_spec() == points.len(),
            final(self).valid_spec() == points.len(),
            final(self).points_spec() == points@.to_multiset(),
            final(self).flat_spec().to_multiset() == points@.to_multiset(),
            sides_agree::<P, G>() ==> final(self).ordered_spec(),
            final(self).removed_spec() == old(self).removed_spec(),
    {
        proof {
            use_type_invariant(&*self);
        }
        self.root = None;
        if points.len() == 0 {
            proof {
                lemma_empty_to_multiset::<P>();
                assert(points@ =~= Seq::<P>::empty());
            }
            return;
        }
        let mut storage = points;
        let ghost s0 = storage@;
        let last = storage.len() - 1;
        let t = build_tree(&mut storage, 0, last);
        proof {
            assert(s0.subrange(0, last + 1) =~= s0);
            lemma_flat_all_when_none_deleted(*t);
        }
        self.root = Some(t);
    }

    /// The points inside `region` (see `search_by_range`); each is a point
    /// of the tree that is not deleted.
    pub fn box_search(&self, region: &G::Region) -> (v: Vec<P>)
        ensures
            match self.tree() {
                Some(n) => range_found(*n, *region, v@),
                None => v@.len() == 0,
            },
            forall|i: int| 0 <= i < v@.len() ==> self.flat_spec().contains(#[trigger] v@[i]),
            point_in_decided::<P, G>(*region) && match self.tree() {
                Some(n) => box_tests_sound::<P, G>(*n, *region),
                None => true,
            } ==> v@ == self.flat_spec().filter(inside_pred::<P, G>(*region)),
            point_in_decided::<P, G>(*region) && match self.tree() {
                Some(n) => box_tests_sound::<P, G>(*n, *region),
                None => true,
            } ==> forall|p: P|
                self.flat_spec().contains(p) && inside_pred::<P, G>(*region)(p) ==> #[trigger] v@.contains(p),
    {
        let mut storage: Vec<P> = Vec::new();
        match &self.root {
            Some(n) => {
                search_by_range(n, region, &mut storage);
                assert(storage@.subrange(0, storage@.len() as int) =~= storage@);
            },
            None => {
                proof {
                    lemma_filter_none(Seq::<P>::empty(), inside_pred::<P, G>(*region));
                }
            },
        }
        proof {
            broadcast use vstd::seq_lib::group_filter_ensures;

            let fl = self.flat_spec();
            assert forall|p: P| fl.contains(p) && inside_pred::<P, G>(*region)(p) implies fl.filter(
                inside_pred::<P, G>(*region),
            ).contains(p) by {
                let i = choose|i: int| 0 <= i < fl.len() && fl[i] == p;
                fl.lemma_filter_contains(inside_pred::<P, G>(*region), i);
            }
        }
        storage
    }

    /// The points within `radius` of `q` (see `search_by_radius`); each is
    /// a point of the tree that is not deleted.
    pub fn radius_search(&self, q: &P, radius: &G::Radius) -> (v: Vec<P>)
        ensures
            match self.tree() {
                Some(n) => radius_found(*n, *q, *radius, v@),
                None => v@.len() == 0,
            },
            forall|i: int| 0 <= i < v@.len() ==> self.flat_spec().contains(#[trigger] v@[i]),
            point_within_decided::<P, G>(*q, *radius) && match self.tree() {
                Some(n) => radius_tests_sound::<P, G>(*n, *q, *radius),
                None => true,
            } ==> v@ == self.flat_spec().filter(within_pred::<P, G>(*q, *radius)),
            point_within_decided::<P, G>(*q, *radius) && match self.tree() {
                Some(n) => radius_tests_sound::<P, G>(*n, *q, *radius),
                None => true,
            } ==> forall|p: P|
                self.flat_spec().contains(p) && within_pred::<P, G>(*q, *radius)(p) ==> #[trigger] v@.contains(p),
    {
        let mut storage: Vec<P> = Vec::new();
        match &self.root {
            Some(n) => {
                search_by_radius(n, q, radius, &mut storage);
                assert(storage@.subrange(0, storage@.len() as int) =~= storage@);
            },
            None => {
                proof {
                    lemma_filter_none(Seq::<P>::empty(), within_pred::<P, G>(*q, *radius));
                }
            },
        }
        proof {
            broadcast use vstd::seq_lib::group_filter_ensures;

            let fl = self.flat_spec();
            assert forall|p: P| fl.contains(p) && within_pred::<P, G>(*q, *radius)(p) implies fl.filter(
                within_pred::<P, G>(*q, *radius),
            ).contains(p) by {
                let i = choose|i: int| 0 <= i < fl.len() && fl[i] == p;
                fl.lemma_filter_contains(within_pred::<P, G>(*q, *radius), i);
            }
        }
        storage
    }

    /// Inserts a point (see `add_by_point_recursive`); an empty tree gets it
    /// as its root. The valid points gain exactly this point; the tree grows
    /// by at most one node.
    pub fn add_by_point(&mut self, point: &P, allow_rebuild: bool, params: &G::Params)
        requires
            old(self).size_spec() < i32::MAX,
        ensures
            final(self).tree() is Some,
            final(self).size_spec() <= old(self).size_spec() + 1,
            !allow_rebuild || old(self).tree() is None ==> final(self).size_spec()
                == old(self).size_spec() + 1 && final(self).points_spec() == old(self).points_spec().insert(*point),
            final(self).valid_spec() == old(self).valid_spec() + 1,
            final(self).valid_points() == old(self).valid_points().insert(*point),
            final(self).points_spec().contains(*point),
            final(self).points_spec().subset_of(old(self).points_spec().insert(*point)),
            sides_agree::<P, G>() && old(self).ordered_spec() ==> final(self).ordered_spec(),
            final(self).removed_spec() == old(self).removed_spec(),
    {
        proof {
            use_type_invariant(&*self);
            lemma_opt_size(self.root);
        }
        let mut root: Option<Box<KdNode<P, G>>> = None;
        std::mem::swap(&mut root, &mut self.root);
        let mut pcl: Vec<P> = Vec::new();
        std::mem::swap(&mut pcl, &mut self.pcl_storage);
        match root {
            None => {
                let leaf = new_leaf(point, 0);
                proof {
                    lemma_empty_to_multiset::<P>();
                    lemma_singleton_to_multiset(*point);
                    lemma_valid_is_flat(*leaf);
                }
                self.root = Some(leaf);
            },
            Some(root) => {
                let new_root = add_by_point_recursive(
                    root,
                    point,
                    allow_rebuild,
                    0,
                    params,
                    &mut pcl,
                );
                proof {
                    lemma_size_is_count(*new_root);
                    lemma_flat_within_points(*new_root);
                    assert(new_root.flat().to_multiset().count(*point) > 0);
                    assert(new_root.all_points().count(*point) > 0);
                }
                self.root = Some(new_root);
            },
        }
        self.pcl_storage = pcl;
    }

    /// Deletes a point (see `delete_by_point_recursive`): at most one valid
    /// point goes, one the geometry finds the same; in an ordered tree and
    /// with agreeing answers (see `sides_agree`), a valid copy of the point is
    /// always found. The tree does not grow.
    pub fn delete_by_point(&mut self, point: &P, allow_rebuild: bool, params: &G::Params)
        ensures
            final(self).size_spec() <= old(self).size_spec(),
            old(self).tree() is None ==> final(self).tree() is None,
            !allow_rebuild ==> final(self).size_spec() == old(self).size_spec() && final(self).points_spec() == old(self).points_spec(),
            final(self).valid_spec() == old(self).valid_spec() || final(self).valid_spec() == old(self).valid_spec() - 1,
            match old(self).tree() {
                Some(n) => delete_hits(*n, *point, final(self).valid_spec() == old(self).valid_spec() - 1),
                None => true,
            },
            final(self).valid_spec() == old(self).valid_spec() ==> final(self).valid_points() == old(self).valid_points(),
            final(self).valid_spec() == old(self).valid_spec() - 1 ==> removes_one::<P, G>(
                old(self).valid_points(),
                final(self).valid_points(),
                *point,
            ),
            final(self).points_spec().subset_of(old(self).points_spec()),
            sides_agree::<P, G>() && old(self).ordered_spec() ==> final(self).ordered_spec(),
            sides_agree::<P, G>() && old(self).ordered_spec() && old(self).valid_points().count(*point)
                > 0 ==> final(self).valid_spec() == old(self).valid_spec() - 1,
            final(self).removed_spec() == old(self).removed_spec(),
    {
        proof {
            use_type_invariant(&*self);
            lemma_opt_size(self.root);
            lemma_empty_to_multiset::<P>();
        }
        let mut root: Option<Box<KdNode<P, G>>> = None;
        std::mem::swap(&mut root, &mut self.root);
        let mut pcl: Vec<P> = Vec::new();
        std::mem::swap(&mut pcl, &mut self.pcl_storage);
        if let Some(root) = root {
            proof {
                reveal(findable);
            }
            let new_root = delete_by_point_recursive(root, point, allow_rebuild, params, &mut pcl);
            proof {
                lemma_size_is_count(*new_root);
                lemma_opt_invalid(Some(new_root));
            }
            self.root = Some(new_root);
        }
        self.pcl_storage = pcl;
    }

    /// Deletes the points in `region` (see `delete_by_range_recursive`);
    /// the valid points that go are exactly those a search of `region` could
    /// return, and the count returned is their number.
    pub fn delete_by_range(
        &mut self,
        region: &G::Region,
        allow_rebuild: bool,
        is_downsample: bool,
        params: &G::Params,
    ) -> (deleted: i32)
        ensures
            0 <= deleted <= old(self).valid_spec(),
            final(self).size_spec() <= old(self).size_spec(),
            old(self).tree() is None ==> final(self).tree() is None && deleted == 0,
            !allow_rebuild ==> final(self).size_spec() == old(self).size_spec() && final(self).points_spec() == old(self).points_spec(),
            deleted == old(self).valid_spec() - final(self).valid_spec(),
            exists|out: Seq<P>|
                #[trigger] opt_range_found::<P, G>(old(self).tree(), *region, out) && old(self).valid_points() == final(self).valid_points().add(out.to_multiset()),
            final(self).points_spec().subset_of(old(self).points_spec()),
            sides_agree::<P, G>() && old(self).ordered_spec() ==> final(self).ordered_spec(),
            final(self).removed_spec() == old(self).removed_spec(),
    {
        proof {
            use_type_invariant(&*self);
            lemma_opt_size(self.root);
        }
        let mut root: Option<Box<KdNode<P, G>>> = None;
        std::mem::swap(&mut root, &mut self.root);
        let mut pcl: Vec<P> = Vec::new();
        std::mem::swap(&mut pcl, &mut self.pcl_storage);
        let mut deleted: i32 = 0;
        let ghost r0 = root;
        if let Some(root) = root {
            let ghost n0 = *root;
            let (new_root, count) = delete_by_range_recursive(
                root,
                region,
                allow_rebuild,
                is_downsample,
                params,
                &mut pcl,
            );
            proof {
                lemma_size_is_count(*new_root);
                let out = choose|out: Seq<P>|
                    #[trigger] range_found::<P, G>(n0, *region, out) && n0.flat().to_multiset()
                        == new_root.flat().to_multiset().add(out.to_multiset());
                assert(opt_range_found::<P, G>(r0, *region, out));
            }
            self.root = Some(new_root);
            deleted = count;
        } else {
            proof {
                lemma_empty_to_multiset::<P>();
                assert(opt_range_found::<P, G>(r0, *region, Seq::<P>::empty()));
                assert(Multiset::<P>::empty() =~= Multiset::<P>::empty().add(Seq::<P>::empty().to_multiset()));
            }
        }
        self.pcl_storage = pcl;
        deleted
    }
}

} // verus!
