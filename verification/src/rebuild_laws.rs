//! What holds of building trees and of building parts of them anew.
use crate::kd_tree::{counted, purged, KDTree};
use crate::model::{
    all_numbers, axis_at, built, first_unbalanced, halved, leads, lemma_counts, lemma_leads_size,
    lemma_live_within, lemma_regraft, lemma_shrunk_zero, live, live_set, ordered, points, replaced,
    size_of, sized, subtree_at, tombstones, unbalanced, Tree,
};
use crate::point::Point;
use crate::select::coordinate;
use vstd::multiset::Multiset;
use vstd::prelude::*;

verus! {

/// Collecting the points of a tree that was just built gives back those that it was built
/// from, in some order.
pub proof fn law_collecting_undoes_building(t: Tree, ps: Multiset<Point>, depth: nat, dim: nat)
    requires
        built(t, ps, depth, dim),
    ensures
        live(t).to_multiset() == ps,
{
    lemma_live_within(t);
}

/// No point occurs twice, and no two agree on an axis.
pub open spec fn distinct_on_axes(ps: Multiset<Point>, dim: nat) -> bool {
    &&& forall|p: Point| #[trigger] ps.count(p) <= 1
    &&& forall|x: Point, y: Point, a: nat|
        #![trigger coordinate(x, a), coordinate(y, a)]
        ps.contains(x) && ps.contains(y) && x != y && a < dim ==> coordinate(x, a).less(
            coordinate(y, a),
        ) || coordinate(y, a).less(coordinate(x, a))
}

/// What holds of all points holds of some of them.
proof fn lemma_distinct_subset(a: Multiset<Point>, b: Multiset<Point>, dim: nat)
    requires
        a.subset_of(b),
        all_numbers(b, dim),
        distinct_on_axes(b, dim),
    ensures
        all_numbers(a, dim),
        distinct_on_axes(a, dim),
{
    assert forall|p: Point| #[trigger] a.contains(p) implies b.contains(p) by {}
    assert forall|p: Point| #[trigger] a.count(p) <= 1 by {
        assert(b.count(p) <= 1);
    }
}

/// Below the root of a tree with distinct coordinates, a point is on the left iff it lies
/// lower.
proof fn lemma_sides(t: Tree, depth: nat, dim: nat, x: Point)
    requires
        t is Node,
        dim > 0,
        ordered(t, depth, dim),
        distinct_on_axes(points(t), dim),
    ensures
        ({
            let axis: nat = axis_at(depth, dim);
            &&& points(*t->left).contains(x) ==> coordinate(x, axis).less(
                coordinate(t->point, axis),
            )
            &&& points(t).contains(x) && coordinate(x, axis).less(coordinate(t->point, axis))
                ==> points(*t->left).count(x) == points(t).count(x)
        }),
{
    let axis: nat = axis_at(depth, dim);
    let all: Multiset<Point> = points(t);
    assert(all.contains(t->point));
    assert(all.count(x) <= 1);
    assert(all.count(t->point) <= 1);
    if points(*t->left).contains(x) {
        assert(all.contains(x));
        assert(x != t->point);
        assert(coordinate(x, axis).at_most(coordinate(t->point, axis)));
    }
    if points(*t->right).contains(x) {
        assert(coordinate(t->point, axis).at_most(coordinate(x, axis)));
    }
}

/// Two trees that were built from the same points, distinct on every axis, have the same
/// root and the same points on its left.
proof fn lemma_same_split(a: Tree, b: Tree, depth: nat, dim: nat)
    requires
        a is Node,
        b is Node,
        dim > 0,
        points(a) == points(b),
        sized(a),
        sized(b),
        halved(a),
        halved(b),
        ordered(a, depth, dim),
        ordered(b, depth, dim),
        distinct_on_axes(points(a), dim),
    ensures
        a->point == b->point,
        points(*a->left) == points(*b->left),
        points(*a->right) == points(*b->right),
{
    let axis: nat = axis_at(depth, dim);
    assert(points(a).contains(a->point));
    assert(points(b).contains(b->point));
    lemma_counts(a);
    lemma_counts(b);
    lemma_counts(*a->left);
    lemma_counts(*b->left);
    if a->point != b->point {
        assert(coordinate(a->point, axis).less(coordinate(b->point, axis)) || coordinate(
            b->point,
            axis,
        ).less(coordinate(a->point, axis)));
        if coordinate(a->point, axis).less(coordinate(b->point, axis)) {
            lemma_root_not_lower(a, b, depth, dim);
        } else {
            lemma_root_not_lower(b, a, depth, dim);
        }
    }
    assert forall|x: Point| points(*a->left).count(x) == points(*b->left).count(x) by {
        lemma_sides(a, depth, dim, x);
        lemma_sides(b, depth, dim, x);
    }
    assert(points(*a->left) =~= points(*b->left));
    assert forall|x: Point| points(*a->right).count(x) == points(*b->right).count(x) by {
        let la: Multiset<Point> = points(*a->left).add(points(*a->right));
        let lb: Multiset<Point> = points(*b->left).add(points(*b->right));
        assert(la.insert(a->point).count(x) == lb.insert(b->point).count(x));
        assert(la.count(x) == lb.count(x));
    }
    assert(points(*a->right) =~= points(*b->right));
}

/// A lower root would have fewer points below it.
proof fn lemma_root_not_lower(a: Tree, b: Tree, depth: nat, dim: nat)
    requires
        a is Node,
        b is Node,
        dim > 0,
        points(a) == points(b),
        sized(a),
        sized(b),
        halved(a),
        halved(b),
        ordered(a, depth, dim),
        ordered(b, depth, dim),
        distinct_on_axes(points(a), dim),
    ensures
        !coordinate(a->point, axis_at(depth, dim)).less(coordinate(b->point, axis_at(depth, dim))),
{
    let axis: nat = axis_at(depth, dim);
    if coordinate(a->point, axis).less(coordinate(b->point, axis)) {
        let below: Multiset<Point> = points(*a->left).insert(a->point);
        let left: Multiset<Point> = points(*b->left);
        lemma_counts(a);
        lemma_counts(b);
        lemma_counts(*a->left);
        lemma_counts(*b->left);
        assert forall|x: Point| below.count(x) <= left.count(x) by {
            lemma_sides(a, depth, dim, x);
            lemma_sides(b, depth, dim, x);
            if below.count(x) > 0 {
                assert(points(a).contains(x));
                assert(below.count(x) <= points(a).count(x));
            }
        }
        assert(below.subset_of(left));
        assert(left.sub(below).len() + below.len() == left.len());
        assert(false);
    }
}

/// Points that are distinct on every axis build one tree only.
pub proof fn law_built_is_unique(a: Tree, b: Tree, ps: Multiset<Point>, depth: nat, dim: nat)
    requires
        dim > 0,
        built(a, ps, depth, dim),
        built(b, ps, depth, dim),
        all_numbers(ps, dim),
        distinct_on_axes(ps, dim),
    ensures
        a == b,
    decreases a,
{
    lemma_counts(a);
    lemma_counts(b);
    match (a, b) {
        (Tree::Node { left: la, right: ra, .. }, Tree::Node { left: lb, right: rb, .. }) => {
            lemma_same_split(a, b, depth, dim);
            lemma_distinct_subset(points(*la), ps, dim);
            lemma_distinct_subset(points(*ra), ps, dim);
            law_built_is_unique(*la, *lb, points(*la), depth + 1, dim);
            law_built_is_unique(*ra, *rb, points(*ra), depth + 1, dim);
        },
        _ => {},
    }
}

/// Every subtree of a built tree is one that its points build.
proof fn lemma_subtree_built(t: Tree, turns: Seq<bool>, target: nat, depth: nat, dim: nat)
    requires
        depth <= target,
        leads(t, turns, target, depth),
        sized(t),
        halved(t),
        tombstones(t) == 0,
        ordered(t, depth, dim),
    ensures
        ({
            let sub: Tree = subtree_at(t, turns, target, depth);
            &&& built(sub, points(sub), target, dim)
            &&& replaced(t, turns, target, depth, sub) == t
        }),
    decreases t,
{
    if depth < target {
        if let Tree::Node { left, right, .. } = t {
            if turns[depth as int] {
                lemma_subtree_built(*left, turns, target, depth + 1, dim);
            } else {
                lemma_subtree_built(*right, turns, target, depth + 1, dim);
            }
        }
    }
}

/// Building a subtree of a freshly built tree anew changes nothing, where all coordinates
/// are numbers and distinct on every axis.
pub proof fn law_rebuild_keeps_fresh(
    old: KDTree,
    new: KDTree,
    ps: Multiset<Point>,
    turns: Seq<bool>,
    target: nat,
)
    requires
        old.dim > 0,
        built(old.tree(), ps, 0, old.dim as nat),
        all_numbers(ps, old.dim as nat),
        distinct_on_axes(ps, old.dim as nat),
        old.total_nodes == size_of(old.tree()),
        old.deleted_count == 0,
        leads(old.tree(), turns, target, 0),
        purged(old, new, turns, target),
    ensures
        new.tree() == old.tree(),
        new.dim == old.dim,
        new.point_ids == old.point_ids,
        new.total_nodes == old.total_nodes,
        new.deleted_count == old.deleted_count,
{
    let dim: nat = old.dim as nat;
    let t: Tree = old.tree();
    let was: Tree = subtree_at(t, turns, target, 0);
    let now: Tree = subtree_at(new.tree(), turns, target, 0);
    lemma_subtree_built(t, turns, target, 0, dim);
    lemma_leads_size(t, turns, target, 0);
    lemma_live_within(was);
    lemma_distinct_subset(points(was), ps, dim);
    law_built_is_unique(was, now, points(was), target, dim);
    lemma_shrunk_zero(t, turns, target, 0);
}

/// Building a subtree anew keeps the points that were not deleted, and the counters right.
/// At the root it leaves no deleted node, and no node at all where every point was deleted.
pub proof fn law_rebuild_keeps_points(old: KDTree, new: KDTree, turns: Seq<bool>, target: nat)
    requires
        counted(old),
        leads(old.tree(), turns, target, 0),
        purged(old, new, turns, target),
    ensures
        counted(new),
        live_set(new.tree()) == live_set(old.tree()),
        new.dim == old.dim,
        new.point_ids == old.point_ids,
        target == 0 ==> {
            &&& tombstones(new.tree()) == 0
            &&& new.total_nodes == live_set(new.tree()).len()
            &&& new.deleted_count == 0
            &&& new.root is None <==> live_set(new.tree()).len() == 0
        },
{
    let now: Tree = subtree_at(new.tree(), turns, target, 0);
    lemma_regraft(old.tree(), turns, target, 0, now, old.dim as nat);
    lemma_counts(new.tree());
    assert forall|p: Point| #[trigger] points(new.tree()).contains(p) implies p.vector.len()
        >= new.dim by {
        assert(points(old.tree()).contains(p));
    }
}

/// The subtree that rebalancing picks is the topmost unbalanced one on the way: it is
/// unbalanced, none above it is, and where none is picked, none on the way is unbalanced.
pub proof fn law_topmost_is_picked(t: Tree, turns: Seq<bool>)
    ensures
        match first_unbalanced(t, turns, 0) {
            Some(d) => {
                &&& d <= turns.len()
                &&& leads(t, turns, d, 0)
                &&& unbalanced(subtree_at(t, turns, d, 0))
                &&& forall|e: nat| e < d ==> !unbalanced(#[trigger] subtree_at(t, turns, e, 0))
            },
            None => forall|e: nat|
                e <= turns.len() && leads(t, turns, e, 0) ==> !unbalanced(
                    #[trigger] subtree_at(t, turns, e, 0),
                ),
        },
{
    lemma_topmost(t, turns, 0);
}

/// The same, where `t` stands at `depth`.
proof fn lemma_topmost(t: Tree, turns: Seq<bool>, depth: nat)
    requires
        depth <= turns.len(),
    ensures
        match first_unbalanced(t, turns, depth) {
            Some(d) => {
                &&& depth <= d <= turns.len()
                &&& leads(t, turns, d, depth)
                &&& unbalanced(subtree_at(t, turns, d, depth))
                &&& forall|e: nat|
                    depth <= e < d ==> !unbalanced(#[trigger] subtree_at(t, turns, e, depth))
            },
            None => forall|e: nat|
                depth <= e <= turns.len() ==> !unbalanced(
                    #[trigger] subtree_at(t, turns, e, depth),
                ),
        },
    decreases t,
{
    if let Tree::Node { left, right, .. } = t {
        if !unbalanced(t) && depth < turns.len() {
            let side: Tree = if turns[depth as int] {
                *left
            } else {
                *right
            };
            lemma_topmost(side, turns, depth + 1);
            assert forall|e: nat| depth < e implies #[trigger] subtree_at(t, turns, e, depth)
                == subtree_at(side, turns, e, depth + 1) by {}
        }
    }
}

} // verus!
