//! What the operations do to the index, node by node: in terms of paths, of the fields of
//! nodes, and of whole numbers.
use crate::kd_tree::{added, lemma_added, lemma_removed, removed, tree_of, KDTree, KDTreeNode};
use crate::laws::{law_built_is_balanced, law_insert_keeps_balance};
use crate::model::{
    all_numbers, balanced, built, descent, first_unbalanced, goes_left, grown, holds_live,
    lemma_counts, lemma_grown, lemma_holds_live, lemma_leads_size, lemma_live_within,
    lemma_marked, lemma_regraft, marked, ordered, points, rebuilt, size_of, sized, subtree_at,
    unbalanced, Tree,
};
use crate::paths::{
    before, begins, lemma_first_holder_at, lemma_grown_at, lemma_grown_below, lemma_held_at,
    lemma_leads, lemma_link, lemma_link_at, lemma_marked_at, lemma_path_to, lemma_rebuilt_at,
    lemma_stored, lemma_subtree_at, lemma_tree_add, lemma_tree_keeps, lemma_tree_point,
    lemma_tree_turn, lemma_way, link_at, point_in, remaining, size_below, stored, tree_at,
};
use crate::point::{points_of, IndexedVector, Point, PointId};
use crate::rebuild_laws::law_topmost_is_picked;
use crate::select::coordinate;
use crate::single::{
    law_quarter_at_any_size, law_quarter_of_counts, law_seven_tenths_at_any_size,
    law_seven_tenths_of_counts, lemma_nothing_within, Single,
};
use vstd::multiset::Multiset;
use vstd::prelude::*;

verus! {

/// A child of `c` nodes is too large below a node that has `n` in its subtree. Up to two to
/// the power of 21 nodes the limit is at seven tenths; beyond, rounding may shift it, but
/// not above four fifths.
pub open spec fn too_large(c: nat, n: nat) -> bool {
    (n <= 0x20_0000 && 10 * c > 7 * n) || 5 * c > 4 * n
}

/// A child of `c` nodes is not too large below a node that has `n` in its subtree: beyond
/// two to the power of 21 nodes, if it has no more than two thirds.
pub open spec fn small_enough(c: nat, n: nat) -> bool {
    (n <= 0x20_0000 && 10 * c <= 7 * n) || 3 * c <= 2 * n
}

/// A subtree counts as unbalanced where a child is too large, and does not where both are
/// small enough.
pub proof fn law_unbalanced_by_counts(link: Option<Box<KDTreeNode>>)
    ensures
        link matches Some(node) ==> {
            let n: nat = node.subtree_size as nat;
            let l: nat = size_below(node.left);
            let r: nat = size_below(node.right);
            &&& too_large(l, n) || too_large(r, n) ==> unbalanced(tree_of(link))
            &&& small_enough(l, n) && small_enough(r, n) ==> !unbalanced(tree_of(link))
            &&& n <= 0x20_0000 ==> (unbalanced(tree_of(link)) <==> 10 * l > 7 * n || 10 * r > 7 * n)
        },
{
    if let Some(node) = link {
        lemma_link(link);
        lemma_link(node.left);
        lemma_link(node.right);
        lemma_unbalanced_counts(
            tree_of(link),
            size_below(node.left),
            size_below(node.right),
            node.subtree_size as nat,
        );
    }
}

/// The same of a tree.
proof fn lemma_unbalanced_counts(t: Tree, l: nat, r: nat, n: nat)
    requires
        t is Node,
        t->size == n,
        size_of(*t->left) == l,
        size_of(*t->right) == r,
        n <= usize::MAX,
        l <= usize::MAX,
        r <= usize::MAX,
    ensures
        too_large(l, n) || too_large(r, n) ==> unbalanced(t),
        small_enough(l, n) && small_enough(r, n) ==> !unbalanced(t),
        n <= 0x20_0000 ==> (unbalanced(t) <==> 10 * l > 7 * n || 10 * r > 7 * n),
{
    let c: nat = if l >= r {
        l
    } else {
        r
    };
    law_seven_tenths_at_any_size(c, n);
    if n <= 0x20_0000 {
        law_seven_tenths_of_counts(c, n);
    }
}

/// In a balanced tree no child is too large, wherever a path leads: up to two to the power
/// of 21 nodes none has more than seven tenths of the nodes, and at no size more than four
/// fifths.
pub proof fn law_balanced_by_counts(link: Option<Box<KDTreeNode>>, path: Seq<bool>)
    requires
        balanced(tree_of(link)),
    ensures
        link_at(link, path) matches Some(node) ==> {
            &&& !too_large(size_below(node.left), node.subtree_size as nat)
            &&& !too_large(size_below(node.right), node.subtree_size as nat)
        },
{
    lemma_link_at(link, path);
    lemma_tree_keeps(tree_of(link), path, 0, 1);
    if let Some(node) = link_at(link, path) {
        lemma_link(link_at(link, path));
        law_unbalanced_by_counts(link_at(link, path));
    }
}

/// Insertions into a new index keep every child within its share, wherever a path leads.
pub proof fn law_insertions_keep_shares(
    states: Seq<KDTree>,
    news: Seq<Point>,
    ps: Multiset<Point>,
    path: Seq<bool>,
)
    requires
        states.len() == news.len() + 1,
        states[0].wf(),
        states[0].dim > 0,
        built(states[0].tree(), ps, 0, states[0].dim as nat),
        forall|i: int|
            0 <= i < news.len() ==> added(states[i], states[i + 1], #[trigger] news[i])
                && news[i].vector.len() >= states[0].dim,
    ensures
        link_at(states.last().root, path) matches Some(node) ==> {
            let n: nat = node.subtree_size as nat;
            &&& n <= 0x20_0000 ==> 10 * size_below(node.left) <= 7 * n
            &&& n <= 0x20_0000 ==> 10 * size_below(node.right) <= 7 * n
            &&& 5 * size_below(node.left) <= 4 * n
            &&& 5 * size_below(node.right) <= 4 * n
        },
{
    lemma_insertions_balance(states, news, ps);
    law_balanced_by_counts(states.last().root, path);
}

/// The states that insertions lead to are balanced.
proof fn lemma_insertions_balance(states: Seq<KDTree>, news: Seq<Point>, ps: Multiset<Point>)
    requires
        states.len() == news.len() + 1,
        states[0].wf(),
        states[0].dim > 0,
        built(states[0].tree(), ps, 0, states[0].dim as nat),
        forall|i: int|
            0 <= i < news.len() ==> added(states[i], states[i + 1], #[trigger] news[i])
                && news[i].vector.len() >= states[0].dim,
    ensures
        balanced(states.last().tree()),
        states.last().wf(),
        states.last().dim == states[0].dim,
        states.last().deleted_count == 0,
    decreases news.len(),
{
    if news.len() == 0 {
        lemma_counts(states[0].tree());
        law_built_is_balanced(states[0].tree(), ps, 0, states[0].dim as nat);
    } else {
        let n: int = news.len() - 1;
        let earlier: Seq<KDTree> = states.drop_last();
        let fewer: Seq<Point> = news.drop_last();
        assert forall|i: int| 0 <= i < fewer.len() implies added(
            earlier[i],
            earlier[i + 1],
            #[trigger] fewer[i],
        ) && fewer[i].vector.len() >= earlier[0].dim by {
            assert(news[i] == fewer[i]);
        }
        lemma_insertions_balance(earlier, fewer, ps);
        let old: KDTree = states[n];
        let new: KDTree = states[n + 1];
        assert(earlier.last() == old);
        assert(added(old, new, news[n]));
        lemma_added(old, new, news[n]);
        lemma_counts(old.tree());
        lemma_counts(new.tree());
        law_insert_keeps_balance(old, new, news[n]);
    }
}

/// In a tree that was built at some depth the axis of a node is its depth modulo the number
/// of axes: along it, no point on the left lies above the node and none on the right below.
pub proof fn law_axis_of_built(
    link: Option<Box<KDTreeNode>>,
    ps: Multiset<Point>,
    depth: nat,
    dim: nat,
    path: Seq<bool>,
    rest: Seq<bool>,
)
    requires
        dim > 0,
        built(tree_of(link), ps, depth, dim),
        forall|p: Point, a: int|
            #![trigger ps.contains(p), p.vector[a]]
            ps.contains(p) && 0 <= a < dim ==> !p.vector[a].nan(),
    ensures
        ({
            let axis: int = (depth + path.len()) as int % dim as int;
            link_at(link, path) matches Some(node) ==> {
                &&& link_at(node.left, rest) matches Some(other) ==> point_in(
                    *other,
                ).vector[axis].at_most(point_in(*node).vector[axis])
                &&& link_at(node.right, rest) matches Some(other) ==> point_in(
                    *node,
                ).vector[axis].at_most(point_in(*other).vector[axis])
            }
        }),
{
    assert(all_numbers(ps, dim)) by {
        assert forall|p: Point, a: nat|
            #![trigger ps.contains(p), coordinate(p, a)]
            ps.contains(p) && a < dim implies !coordinate(p, a).nan() by {
            assert(!p.vector[a as int].nan());
        }
    }
    lemma_axis(link, depth, dim, path, rest);
}

/// The axis of a node, where the tree is ordered along the axes.
proof fn lemma_axis(
    link: Option<Box<KDTreeNode>>,
    depth: nat,
    dim: nat,
    path: Seq<bool>,
    rest: Seq<bool>,
)
    requires
        dim > 0,
        ordered(tree_of(link), depth, dim),
    ensures
        ({
            let axis: int = (depth + path.len()) as int % dim as int;
            link_at(link, path) matches Some(node) ==> {
                &&& link_at(node.left, rest) matches Some(other) ==> point_in(
                    *other,
                ).vector[axis].at_most(point_in(*node).vector[axis])
                &&& link_at(node.right, rest) matches Some(other) ==> point_in(
                    *node,
                ).vector[axis].at_most(point_in(*other).vector[axis])
            }
        }),
{
    let here: Option<Box<KDTreeNode>> = link_at(link, path);
    lemma_link_at(link, path);
    lemma_tree_keeps(tree_of(link), path, depth, dim);
    if let Some(node) = here {
        lemma_link(here);
        lemma_link_at(node.left, rest);
        lemma_link_at(node.right, rest);
        lemma_link(link_at(node.left, rest));
        lemma_link(link_at(node.right, rest));
        if link_at(node.left, rest) is Some {
            lemma_tree_point(tree_of(node.left), rest);
        }
        if link_at(node.right, rest) is Some {
            lemma_tree_point(tree_of(node.right), rest);
        }
    }
}

/// In every index that a search may leave subtrees out of, the axis of a node is its depth
/// modulo the number of axes, and no coordinate of a node is a NaN.
pub proof fn law_axis_of_index(index: KDTree, path: Seq<bool>, rest: Seq<bool>)
    requires
        index.dim > 0,
        index.searchable(),
    ensures
        ({
            let axis: int = path.len() as int % index.dim as int;
            link_at(index.root, path) matches Some(node) ==> {
                &&& link_at(node.left, rest) matches Some(other) ==> point_in(
                    *other,
                ).vector[axis].at_most(point_in(*node).vector[axis])
                &&& link_at(node.right, rest) matches Some(other) ==> point_in(
                    *node,
                ).vector[axis].at_most(point_in(*other).vector[axis])
                &&& forall|a: int|
                    0 <= a < index.dim ==> !(#[trigger] point_in(*node).vector[a]).nan()
            }
        }),
{
    lemma_axis(index.root, 0, index.dim as nat, path, rest);
    if let Some(node) = link_at(index.root, path) {
        lemma_link_at(index.root, path);
        lemma_link(link_at(index.root, path));
        lemma_tree_point(index.tree(), path);
        assert forall|a: int| 0 <= a < index.dim implies !(
        #[trigger] point_in(*node).vector[a]).nan() by {
            assert(!coordinate(point_in(*node), a as nat).nan());
        }
    }
}

/// A built tree holds the given points and no others, none deleted. Every node claims the
/// nodes that it has, half of them, rounded down, on its left.
pub proof fn law_built_by_counts(
    link: Option<Box<KDTreeNode>>,
    ps: Multiset<Point>,
    depth: nat,
    dim: nat,
    path: Seq<bool>,
)
    requires
        built(tree_of(link), ps, depth, dim),
    ensures
        stored(link) == ps,
        remaining(link) == ps,
        size_below(link) == ps.len(),
        link_at(link, path) matches Some(node) ==> {
            &&& !node.is_deleted
            &&& node.subtree_size == size_below(node.left) + size_below(node.right) + 1
            &&& size_below(node.left) == node.subtree_size as nat / 2
        },
{
    lemma_stored(link);
    lemma_live_within(tree_of(link));
    lemma_counts(tree_of(link));
    lemma_link(link);
    lemma_link_at(link, path);
    lemma_tree_keeps(tree_of(link), path, depth, dim);
    if let Some(node) = link_at(link, path) {
        lemma_link(link_at(link, path));
        lemma_link(node.left);
        lemma_link(node.right);
    }
}

/// What every operation keeps, node by node: sizes and counters tell the nodes, every point
/// has a coordinate on each axis, and a known identifier is that of a point.
pub proof fn law_kept_by_counts(index: KDTree, path: Seq<bool>, id: PointId)
    requires
        index.wf(),
    ensures
        index.total_nodes == stored(index.root).len(),
        index.total_nodes - index.deleted_count == remaining(index.root).len(),
        link_at(index.root, path) matches Some(node) ==> {
            &&& node.subtree_size == size_below(node.left) + size_below(node.right) + 1
            &&& node.subtree_size == stored(link_at(index.root, path)).len()
            &&& node.indexed_vector.vector@.len() >= index.dim
        },
        index.point_ids@.contains(id) ==> exists|p: Point| #[trigger]
            remaining(index.root).contains(p) && p.id == id,
{
    lemma_stored(index.root);
    lemma_counts(index.tree());
    lemma_link_at(index.root, path);
    lemma_tree_keeps(index.tree(), path, 0, 1);
    if let Some(node) = link_at(index.root, path) {
        lemma_link(link_at(index.root, path));
        lemma_link(node.left);
        lemma_link(node.right);
        lemma_stored(link_at(index.root, path));
        lemma_counts(tree_of(link_at(index.root, path)));
        lemma_tree_point(index.tree(), path);
    }
    lemma_holds_live(index.tree(), id);
}

/// The points that remain are those to which paths lead and that were not deleted, and the
/// points that are stored are those to which paths lead.
pub proof fn law_points_by_paths(link: Option<Box<KDTreeNode>>, p: Point)
    ensures
        remaining(link).contains(p) <==> exists|path: Seq<bool>|
            (#[trigger] link_at(link, path)) is Some && !link_at(link, path)->0.is_deleted
                && point_in(*link_at(link, path)->0) == p,
        stored(link).contains(p) <==> exists|path: Seq<bool>|
            (#[trigger] link_at(link, path)) is Some && point_in(*link_at(link, path)->0) == p,
        remaining(link).subset_of(stored(link)),
    decreases link,
{
    lemma_stored(link);
    lemma_live_within(tree_of(link));
    assert forall|path: Seq<bool>| (#[trigger] link_at(link, path)) is Some implies stored(
        link,
    ).contains(point_in(*link_at(link, path)->0)) && (!link_at(link, path)->0.is_deleted
        ==> remaining(link).contains(point_in(*link_at(link, path)->0))) by {
        lemma_link_at(link, path);
        lemma_link(link_at(link, path));
        lemma_tree_point(tree_of(link), path);
    }
    if let Some(node) = link {
        let none: Seq<bool> = Seq::empty();
        assert(link_at(link, none) == link);
        law_points_by_paths(node.left, p);
        law_points_by_paths(node.right, p);
        assert forall|rest: Seq<bool>|
            (#[trigger] link_at(node.left, rest)) is Some implies link_at(link, seq![true] + rest)
            == link_at(node.left, rest) by {
            assert((seq![true] + rest).skip(1) =~= rest);
        }
        assert forall|rest: Seq<bool>|
            (#[trigger] link_at(node.right, rest)) is Some implies link_at(link, seq![false] + rest)
            == link_at(node.right, rest) by {
            assert((seq![false] + rest).skip(1) =~= rest);
        }
    }
}

/// A vector stands for the point with its identifier and its coordinates, and vectors stand
/// for their points one by one.
pub proof fn law_points_of_vectors(vectors: Seq<IndexedVector>, i: int)
    requires
        0 <= i < vectors.len(),
    ensures
        points_of(vectors).len() == vectors.len(),
        points_of(vectors)[i].id == vectors[i].id,
        points_of(vectors)[i].vector == vectors[i].vector@,
{
}

/// The path leads to a node that holds the identifier and was not deleted, and to none
/// before it.
pub open spec fn first_live(root: Option<Box<KDTreeNode>>, id: PointId, at: Seq<bool>) -> bool {
    &&& link_at(root, at) matches Some(node) && node.indexed_vector.id == id && !node.is_deleted
    &&& forall|other: Seq<bool>| #[trigger]
        before(other, at) ==> !(link_at(root, other) matches Some(node) && node.indexed_vector.id
            == id && !node.is_deleted)
}

/// A path leads to every identifier that the index knows.
pub proof fn law_known_has_path(index: KDTree, id: PointId) -> (at: Seq<bool>)
    requires
        index.wf(),
        index.point_ids@.contains(id),
    ensures
        first_live(index.root, id, at),
{
    let at: Seq<bool> = lemma_path_to(index.tree(), id);
    lemma_link_at(index.root, at);
    lemma_link(link_at(index.root, at));
    assert forall|other: Seq<bool>| #[trigger] before(other, at) implies !(link_at(
        index.root,
        other,
    ) matches Some(node) && node.indexed_vector.id == id && !node.is_deleted) by {
        lemma_link_at(index.root, other);
        lemma_link(link_at(index.root, other));
    }
    at
}

/// The same of the tree.
proof fn lemma_first_live(root: Option<Box<KDTreeNode>>, id: PointId, at: Seq<bool>)
    requires
        first_live(root, id, at),
    ensures
        tree_at(tree_of(root), at) is Node,
        tree_at(tree_of(root), at)->point == point_in(*link_at(root, at)->0),
        tree_at(tree_of(root), at)->point.id == id,
        !tree_at(tree_of(root), at)->deleted,
        forall|other: Seq<bool>| #[trigger]
            before(other, at) && tree_at(tree_of(root), other) is Node && tree_at(
                tree_of(root),
                other,
            )->point.id == id ==> tree_at(tree_of(root), other)->deleted,
        holds_live(tree_of(root), id),
{
    let t: Tree = tree_of(root);
    lemma_link_at(root, at);
    lemma_link(link_at(root, at));
    assert forall|other: Seq<bool>| #[trigger]
        before(other, at) && tree_at(t, other) is Node && tree_at(t, other)->point.id
            == id implies tree_at(t, other)->deleted by {
        lemma_link_at(root, other);
        lemma_link(link_at(root, other));
    }
    lemma_held_at(t, at, id);
}

/// While no more than a quarter of the nodes is deleted, a deletion changes one mark and
/// nothing else in the tree: the mark of the first node that holds the identifier and was
/// not deleted before. Beyond two to the power of 24 nodes rounding may shift the limit, but
/// not below a fifth.
pub proof fn law_delete_marks_one(
    old: KDTree,
    new: KDTree,
    id: PointId,
    at: Seq<bool>,
    path: Seq<bool>,
)
    requires
        old.wf(),
        old.point_ids@.contains(id),
        removed(old, new, id),
        first_live(old.root, id, at),
        (old.total_nodes < 0x100_0000 && 4 * (old.deleted_count + 1) <= old.total_nodes) || 5 * (
        old.deleted_count + 1) <= old.total_nodes,
    ensures
        new.dim == old.dim,
        new.point_ids@ == old.point_ids@.remove(id),
        new.total_nodes == old.total_nodes,
        new.deleted_count == old.deleted_count + 1,
        link_at(new.root, path) is Some <==> link_at(old.root, path) is Some,
        link_at(old.root, path) matches Some(was) ==> {
            let now: KDTreeNode = *link_at(new.root, path)->0;
            &&& now.indexed_vector.id == was.indexed_vector.id
            &&& now.indexed_vector.vector@ == was.indexed_vector.vector@
            &&& now.subtree_size == was.subtree_size
            &&& now.is_deleted == (was.is_deleted || path == at)
        },
{
    lemma_first_live(old.root, id, at);
    law_quarter_at_any_size((old.deleted_count + 1) as nat, old.total_nodes as nat);
    if old.total_nodes < 0x100_0000 {
        law_quarter_of_counts((old.deleted_count + 1) as nat, old.total_nodes as nat);
    }
    lemma_marked_at(old.tree(), id, at, path);
    lemma_link_at(old.root, path);
    lemma_link_at(new.root, path);
    lemma_link(link_at(old.root, path));
    lemma_link(link_at(new.root, path));
    if let Some(was) = link_at(old.root, path) {
        let now: KDTreeNode = *link_at(new.root, path)->0;
        assert(point_in(now) == point_in(*was));
    }
}

/// Once more than a quarter of the nodes is deleted, a deletion builds the whole tree anew
/// from the points that remain. Beyond two to the power of 24 nodes rounding may shift the
/// limit, but not above a third.
pub proof fn law_delete_builds_anew(old: KDTree, new: KDTree, id: PointId, at: Seq<bool>)
    requires
        old.wf(),
        old.point_ids@.contains(id),
        removed(old, new, id),
        first_live(old.root, id, at),
        (old.total_nodes < 0x100_0000 && 4 * (old.deleted_count + 1) > old.total_nodes) || 3 * (
        old.deleted_count + 1) > old.total_nodes,
    ensures
        new.dim == old.dim,
        new.point_ids@ == old.point_ids@.remove(id),
        new.total_nodes == old.total_nodes - old.deleted_count - 1,
        new.deleted_count == 0,
        built(
            tree_of(new.root),
            remaining(old.root).remove(point_in(*link_at(old.root, at)->0)),
            0,
            old.dim as nat,
        ),
{
    lemma_first_live(old.root, id, at);
    lemma_counts(old.tree());
    lemma_marked(old.tree(), id);
    lemma_counts(marked(old.tree(), id));
    law_quarter_at_any_size((old.deleted_count + 1) as nat, old.total_nodes as nat);
    if old.total_nodes < 0x100_0000 {
        law_quarter_of_counts((old.deleted_count + 1) as nat, old.total_nodes as nat);
    }
    lemma_first_holder_at(old.tree(), id, at);
    lemma_stored(old.root);
}

/// A deletion takes the point of that node from those that remain, at any size.
pub proof fn law_delete_leaves_the_others(old: KDTree, new: KDTree, id: PointId, at: Seq<bool>)
    requires
        old.wf(),
        old.point_ids@.contains(id),
        removed(old, new, id),
        first_live(old.root, id, at),
    ensures
        remaining(old.root).contains(point_in(*link_at(old.root, at)->0)),
        remaining(new.root) == remaining(old.root).remove(point_in(*link_at(old.root, at)->0)),
        new.total_nodes - new.deleted_count == old.total_nodes - old.deleted_count - 1,
        new.point_ids@ == old.point_ids@.remove(id),
        new.dim == old.dim,
{
    lemma_first_live(old.root, id, at);
    lemma_first_holder_at(old.tree(), id, at);
    lemma_marked(old.tree(), id);
    lemma_counts(old.tree());
    lemma_counts(marked(old.tree(), id));
    lemma_live_within(new.tree());
    lemma_stored(old.root);
    lemma_stored(new.root);
}

/// The way of a new point: at every node it goes left where the point does not lie above
/// the node along the axis, whose number is the depth modulo the number of axes, and it ends
/// where there is no node.
pub open spec fn is_way(
    root: Option<Box<KDTreeNode>>,
    p: Point,
    dim: usize,
    way: Seq<bool>,
) -> bool {
    &&& link_at(root, way) is None
    &&& forall|i: int|
        0 <= i < way.len() ==> (link_at(root, #[trigger] way.take(i)) matches Some(node)
            && way[i] == p.vector[i % dim as int].at_most(
            point_in(*node).vector[i % dim as int],
        ))
}

/// The size of the child that the way takes at depth `i`, after the insertion.
pub open spec fn taken(root: Option<Box<KDTreeNode>>, way: Seq<bool>, i: int) -> nat {
    let node: KDTreeNode = *link_at(root, way.take(i))->0;
    size_below(
        if way[i] {
            node.left
        } else {
            node.right
        },
    ) + 1
}

/// The size of the other child.
pub open spec fn passed(root: Option<Box<KDTreeNode>>, way: Seq<bool>, i: int) -> nat {
    let node: KDTreeNode = *link_at(root, way.take(i))->0;
    size_below(
        if way[i] {
            node.right
        } else {
            node.left
        },
    )
}

/// The size of the node itself, after the insertion.
pub open spec fn whole(root: Option<Box<KDTreeNode>>, way: Seq<bool>, i: int) -> nat {
    size_below(link_at(root, way.take(i))) + 1
}

/// After the insertion, a child of the node at depth `i` on the way is too large.
pub open spec fn crowded(root: Option<Box<KDTreeNode>>, way: Seq<bool>, i: int) -> bool {
    too_large(taken(root, way, i), whole(root, way, i)) || too_large(
        passed(root, way, i),
        whole(root, way, i),
    )
}

/// After the insertion, both children of the node at depth `i` on the way are small enough.
pub open spec fn roomy(root: Option<Box<KDTreeNode>>, way: Seq<bool>, i: int) -> bool {
    small_enough(taken(root, way, i), whole(root, way, i)) && small_enough(
        passed(root, way, i),
        whole(root, way, i),
    )
}

/// Every point has a way.
pub proof fn law_point_has_way(index: KDTree, p: Point) -> (way: Seq<bool>)
    requires
        index.dim > 0,
    ensures
        is_way(index.root, p, index.dim, way),
{
    let t: Tree = index.tree();
    let dim: nat = index.dim as nat;
    let way: Seq<bool> = descent(t, p, 0, dim);
    lemma_grown_at(t, p, 0, dim, way);
    lemma_link_at(index.root, way);
    lemma_link(link_at(index.root, way));
    assert forall|i: int| 0 <= i < way.len() implies (link_at(index.root, #[trigger] way.take(i))
        matches Some(node) && way[i] == p.vector[i % dim as int].at_most(
        point_in(*node).vector[i % dim as int],
    )) by {
        let cut: Seq<bool> = way.take(i);
        lemma_grown_at(t, p, 0, dim, cut);
        lemma_link_at(index.root, cut);
        lemma_link(link_at(index.root, cut));
        lemma_turn(t, p, 0, dim, i);
    }
    way
}

/// The turn at some place on the way.
proof fn lemma_turn(t: Tree, p: Point, depth: nat, dim: nat, i: int)
    requires
        0 <= i < descent(t, p, depth, dim).len(),
    ensures
        ({
            let way: Seq<bool> = descent(t, p, depth, dim);
            let here: Tree = tree_at(t, way.take(i));
            here is Node && way[i] == goes_left(p, here->point, depth + i as nat, dim)
        }),
    decreases t,
{
    let way: Seq<bool> = descent(t, p, depth, dim);
    if let Tree::Node { point, left, right, .. } = t {
        let go_left: bool = goes_left(p, point, depth, dim);
        let next: Tree = if go_left {
            *left
        } else {
            *right
        };
        let rest: Seq<bool> = descent(next, p, depth + 1, dim);
        assert(way == seq![go_left] + rest);
        if i == 0 {
            assert(way.take(0).len() == 0);
        } else {
            assert(way.take(i).skip(1) =~= rest.take(i - 1));
            assert(way.take(i)[0] == go_left);
            lemma_turn(next, p, depth + 1, dim, i - 1);
        }
    }
}

/// The way, as the tree has it.
proof fn lemma_is_way(index: KDTree, p: Point, way: Seq<bool>)
    requires
        is_way(index.root, p, index.dim, way),
        index.dim > 0 || index.root is None,
    ensures
        way == descent(index.tree(), p, 0, index.dim as nat),
{
    let t: Tree = index.tree();
    lemma_link_at(index.root, way);
    lemma_link(link_at(index.root, way));
    lemma_link(index.root);
    if index.dim == 0 {
        if way.len() > 0 {
            assert(way.take(0).len() == 0);
            assert(link_at(index.root, way.take(0)) is Some);
            assert(false);
        }
        assert(way =~= Seq::<bool>::empty());
    } else {
        assert forall|i: int| 0 <= i < way.len() implies tree_at(t, #[trigger] way.take(i)) is Node
            && way[i] == goes_left(
            p,
            tree_at(t, way.take(i))->point,
            0 + i as nat,
            index.dim as nat,
        ) by {
            lemma_link_at(index.root, way.take(i));
            lemma_link(link_at(index.root, way.take(i)));
        }
        lemma_way(t, p, 0, index.dim as nat, way);
    }
}

/// A node on the way, after the insertion.
#[verifier::rlimit(40)]
proof fn lemma_on_way(index: KDTree, p: Point, way: Seq<bool>, i: int)
    requires
        index.wf(),
        index.total_nodes < usize::MAX,
        way == descent(index.tree(), p, 0, index.dim as nat),
        0 <= i < way.len(),
        link_at(index.root, way.take(i)) is Some,
    ensures
        ({
            let g: Tree = tree_at(grown(index.tree(), p, 0, index.dim as nat), way.take(i));
            &&& g is Node
            &&& crowded(index.root, way, i) ==> unbalanced(g)
            &&& roomy(index.root, way, i) ==> !unbalanced(g)
        }),
{
    let t: Tree = index.tree();
    let dim: nat = index.dim as nat;
    let cut: Seq<bool> = way.take(i);
    let all: Tree = grown(t, p, 0, dim);
    let g: Tree = tree_at(all, cut);
    let link: Option<Box<KDTreeNode>> = link_at(index.root, cut);
    let node: KDTreeNode = *link->0;
    let along: Seq<bool> = cut.push(way[i]);
    let aside: Seq<bool> = cut.push(!way[i]);
    lemma_link_at(index.root, cut);
    lemma_link(link);
    lemma_link(node.left);
    lemma_link(node.right);
    assert(begins(cut, way) && cut != way);
    lemma_grown_at(t, p, 0, dim, cut);
    assert(along =~= way.take(i + 1));
    assert(begins(along, way));
    lemma_grown_at(t, p, 0, dim, along);
    assert(!begins(aside, way)) by {
        if begins(aside, way) {
            assert(way.take(aside.len() as int)[i] == way[i]);
        }
    }
    assert(!begins(way, aside)) by {
        if begins(way, aside) {
            assert(aside.take(way.len() as int)[i] == way[i]);
        }
    }
    lemma_grown_at(t, p, 0, dim, aside);
    lemma_tree_turn(t, cut, way[i]);
    lemma_tree_turn(t, cut, !way[i]);
    lemma_tree_turn(all, cut, way[i]);
    lemma_tree_turn(all, cut, !way[i]);
    lemma_grown(t, p, 0, dim);
    lemma_tree_keeps(all, cut, 0, dim);
    let l: nat = size_of(*g->left);
    let r: nat = size_of(*g->right);
    lemma_unbalanced_counts(g, l, r, g->size);
}

/// Where the insertion leaves all children on the way small enough, the point becomes a
/// leaf at the end of its way, the nodes on the way count it, and nothing else changes.
#[verifier::rlimit(40)]
pub proof fn law_insert_adds_leaf(
    old: KDTree,
    new: KDTree,
    p: Point,
    way: Seq<bool>,
    path: Seq<bool>,
)
    requires
        old.wf(),
        old.dim > 0 || old.root is None,
        old.total_nodes < usize::MAX,
        added(old, new, p),
        is_way(old.root, p, old.dim, way),
        forall|i: int| 0 <= i < way.len() ==> #[trigger] roomy(old.root, way, i),
    ensures
        new.dim == old.dim,
        new.point_ids@ == old.point_ids@.insert(p.id),
        new.total_nodes == old.total_nodes + 1,
        new.deleted_count == old.deleted_count,
        path == way ==> (link_at(new.root, path) matches Some(now) && point_in(*now) == p
            && !now.is_deleted && now.subtree_size == 1 && now.left is None && now.right is None),
        path != way ==> (link_at(new.root, path) is Some <==> link_at(old.root, path) is Some),
        path != way ==> (link_at(old.root, path) matches Some(was) ==> {
            let now: KDTreeNode = *link_at(new.root, path)->0;
            &&& point_in(now) == point_in(*was)
            &&& now.is_deleted == was.is_deleted
            &&& now.subtree_size == was.subtree_size + if begins(path, way) {
                1int
            } else {
                0
            }
        }),
{
    let t: Tree = old.tree();
    let dim: nat = old.dim as nat;
    let g: Tree = grown(t, p, 0, dim);
    lemma_is_way(old, p, way);
    lemma_grown(t, p, 0, dim);
    law_topmost_is_picked(g, way);
    if let Some(d) = first_unbalanced(g, way, 0) {
        lemma_subtree_at(g, way, d, 0);
        assert(way.subrange(0, d as int) =~= way.take(d as int));
        if d < way.len() {
            assert(link_at(old.root, way.take(d as int)) is Some);
            lemma_on_way(old, p, way, d as int);
            assert(roomy(old.root, way, d as int));
        } else {
            assert(way.take(d as int) =~= way);
            lemma_grown_at(t, p, 0, dim, way);
            lemma_nothing_within(1);
        }
        assert(false);
    }
    lemma_grown_at(t, p, 0, dim, path);
    lemma_link_at(old.root, path);
    lemma_link_at(new.root, path);
    lemma_link(link_at(old.root, path));
    lemma_link(link_at(new.root, path));
    if let Some(now) = link_at(new.root, path) {
        lemma_link(now.left);
        lemma_link(now.right);
    }
}

/// Where the insertion makes a child on the way too large, the topmost subtree in which it
/// does is built anew from its points that were not deleted and the new one. The nodes above
/// count the difference, and nothing else changes.
#[verifier::rlimit(40)]
pub proof fn law_insert_builds_topmost_anew(
    old: KDTree,
    new: KDTree,
    p: Point,
    way: Seq<bool>,
    at: int,
    path: Seq<bool>,
)
    requires
        old.wf(),
        old.dim > 0,
        old.total_nodes < usize::MAX,
        added(old, new, p),
        is_way(old.root, p, old.dim, way),
        0 <= at < way.len(),
        crowded(old.root, way, at),
        forall|i: int| 0 <= i < at ==> #[trigger] roomy(old.root, way, i),
    ensures
        ({
            let cut: Seq<bool> = way.take(at);
            let part: Option<Box<KDTreeNode>> = link_at(old.root, cut);
            let dropped: int = stored(part).len() - remaining(part).len();
            &&& new.dim == old.dim
            &&& new.point_ids@ == old.point_ids@.insert(p.id)
            &&& new.total_nodes == old.total_nodes + 1 - dropped
            &&& new.deleted_count == old.deleted_count - dropped
            &&& built(
                tree_of(link_at(new.root, cut)),
                remaining(part).insert(p),
                at as nat,
                old.dim as nat,
            )
            &&& !begins(cut, path) ==> (link_at(new.root, path) is Some <==> link_at(
                old.root,
                path,
            ) is Some)
            &&& !begins(cut, path) ==> (link_at(old.root, path) matches Some(was) ==> {
                let now: KDTreeNode = *link_at(new.root, path)->0;
                &&& point_in(now) == point_in(*was)
                &&& now.is_deleted == was.is_deleted
                &&& now.subtree_size == was.subtree_size + if begins(path, cut) {
                    1 - dropped
                } else {
                    0
                }
            })
        }),
{
    let t: Tree = old.tree();
    let dim: nat = old.dim as nat;
    let g: Tree = grown(t, p, 0, dim);
    let cut: Seq<bool> = way.take(at);
    let target: nat = at as nat;
    let part: Option<Box<KDTreeNode>> = link_at(old.root, cut);
    lemma_is_way(old, p, way);
    lemma_grown(t, p, 0, dim);
    law_topmost_is_picked(g, way);
    assert forall|i: int| 0 <= i <= at implies tree_at(g, #[trigger] way.take(i)) is Node && (i < at
        ==> !unbalanced(tree_at(g, way.take(i)))) && subtree_at(g, way, i as nat, 0) == tree_at(
        g,
        way.take(i),
    ) by {
        assert(link_at(old.root, way.take(i)) is Some);
        lemma_on_way(old, p, way, i);
        if i < at {
            assert(roomy(old.root, way, i));
        }
        lemma_subtree_at(g, way, i as nat, 0);
        assert(way.subrange(0, i) =~= way.take(i));
    }
    assert(link_at(old.root, way.take(at)) is Some);
    lemma_on_way(old, p, way, at);
    assert forall|i: nat| 0 <= i < target implies tree_at(g, #[trigger] way.subrange(0, i as int))
        is Node by {
        assert(way.subrange(0, i as int) =~= way.take(i as int));
    }
    lemma_leads(g, way, target, 0);
    assert(tree_at(g, way.take(at)) is Node);
    assert(unbalanced(subtree_at(g, way, target, 0)));
    assert(first_unbalanced(g, way, 0) == Some(target)) by {
        match first_unbalanced(g, way, 0) {
            None => {
                assert(false);
            },
            Some(d) => {
                if d < target {
                    assert(tree_at(g, way.take(d as int)) is Node);
                    assert(false);
                }
            },
        }
    }
    let was: Tree = subtree_at(g, way, target, 0);
    let now: Tree = subtree_at(new.tree(), way, target, 0);
    let diff: nat = (size_of(was) - size_of(now)) as nat;
    assert(rebuilt(g, new.tree(), way, target, dim));
    lemma_subtree_at(new.tree(), way, target, 0);
    assert(way.subrange(0, at) =~= cut);
    lemma_link_at(new.root, cut);
    lemma_link_at(old.root, cut);
    lemma_stored(part);
    assert(begins(cut, way));
    lemma_grown_below(t, p, 0, dim, cut);
    lemma_tree_keeps(t, cut, 0, dim);
    lemma_grown(tree_at(t, cut), p, 0 + cut.len(), dim);
    lemma_counts(tree_at(t, cut));
    lemma_regraft(g, way, target, 0, now, dim);
    lemma_leads_size(g, way, target, 0);
    lemma_rebuilt_at(g, way, target, 0, now, diff, path);
    lemma_grown_at(t, p, 0, dim, path);
    lemma_link_at(old.root, path);
    lemma_link_at(new.root, path);
    lemma_link(link_at(old.root, path));
    lemma_link(link_at(new.root, path));
    if !begins(cut, path) {
        assert(path != way);
        assert(!begins(way, path)) by {
            if begins(way, path) {
                assert(path.take(at) =~= path.take(way.len() as int).take(at));
            }
        }
        if begins(path, way) {
            if path.len() >= at {
                assert(path.take(at) =~= way.take(path.len() as int).take(at));
                assert(way.take(path.len() as int).take(at) =~= cut);
                assert(false);
            }
            assert(cut.take(path.len() as int) =~= way.take(path.len() as int));
            assert(begins(path, cut));
            lemma_way_sizes(g, way, target, 0, path.len());
            assert(way.subrange(0, path.len() as int) =~= path);
        } else {
            if begins(path, cut) {
                assert(way.take(path.len() as int) =~= cut.take(path.len() as int));
                assert(false);
            }
        }
    }
}

/// The subtrees on a way are at least as large as what they lead to.
proof fn lemma_way_sizes(t: Tree, turns: Seq<bool>, target: nat, depth: nat, i: nat)
    requires
        sized(t),
        depth <= i <= target <= turns.len(),
    ensures
        size_of(subtree_at(t, turns, target, depth)) <= size_of(
            tree_at(t, turns.subrange(depth as int, i as int)),
        ),
{
    let first: Seq<bool> = turns.subrange(depth as int, i as int);
    let second: Seq<bool> = turns.subrange(i as int, target as int);
    lemma_subtree_at(t, turns, target, depth);
    assert(turns.subrange(depth as int, target as int) =~= first + second);
    lemma_tree_add(t, first, second);
    lemma_tree_keeps(t, first, 0, 1);
    lemma_tree_keeps(tree_at(t, first), second, 0, 1);
}

/// A tree holds an identifier where one of its points that remain has it.
pub proof fn law_held_by_points(link: Option<Box<KDTreeNode>>, id: PointId)
    ensures
        holds_live(tree_of(link), id) <==> exists|p: Point| #[trigger]
            remaining(link).contains(p) && p.id == id,
{
    lemma_holds_live(tree_of(link), id);
    lemma_stored(link);
}

/// The node that a path leads to has no NaN on one of the axes, and splits what is below it
/// along the axis with this number.
pub open spec fn splits(node: KDTreeNode, axis: int, dim: int) -> bool {
    let here: Seq<Single> = node.indexed_vector.vector@;
    &&& forall|a: int| 0 <= a < dim ==> !(#[trigger] here[a]).nan()
    &&& forall|x: Point| #[trigger]
        stored(node.left).contains(x) ==> x.vector[axis].at_most(here[axis])
    &&& forall|x: Point| #[trigger]
        stored(node.right).contains(x) ==> here[axis].at_most(x.vector[axis])
}

/// A search may leave subtrees out iff every node has numbers for coordinates and splits
/// what is below it along its axis, whose number is the depth modulo the number of axes.
pub proof fn law_searchable_by_paths(index: KDTree)
    requires
        index.dim > 0,
    ensures
        index.searchable() <==> forall|path: Seq<bool>|
            (#[trigger] link_at(index.root, path)) matches Some(node) ==> splits(
                *node,
                path.len() as int % index.dim as int,
                index.dim as int,
            ),
{
    let dim: nat = index.dim as nat;
    if index.searchable() {
        assert forall|path: Seq<bool>|
            (#[trigger] link_at(index.root, path)) is Some implies splits(
            *link_at(index.root, path)->0,
            path.len() as int % index.dim as int,
            index.dim as int,
        ) by {
            let link: Option<Box<KDTreeNode>> = link_at(index.root, path);
            let node: KDTreeNode = *link->0;
            lemma_link_at(index.root, path);
            lemma_link(link);
            lemma_tree_keeps(index.tree(), path, 0, dim);
            lemma_tree_point(index.tree(), path);
            lemma_stored(node.left);
            lemma_stored(node.right);
            assert forall|a: int| 0 <= a < dim implies !(
            #[trigger] node.indexed_vector.vector@[a]).nan() by {
                assert(!coordinate(point_in(node), a as nat).nan());
            }
        }
    }
    if forall|path: Seq<bool>|
        (#[trigger] link_at(index.root, path)) matches Some(node) ==> splits(
            *node,
            path.len() as int % index.dim as int,
            index.dim as int,
        ) {
        lemma_split_tree(index.root, 0, dim);
    }
}

/// What paths say of the nodes says it of the tree.
proof fn lemma_split_tree(link: Option<Box<KDTreeNode>>, depth: nat, dim: nat)
    requires
        dim > 0,
        forall|path: Seq<bool>|
            (#[trigger] link_at(link, path)) matches Some(node) ==> splits(
                *node,
                (depth + path.len()) as int % dim as int,
                dim as int,
            ),
    ensures
        ordered(tree_of(link), depth, dim),
        all_numbers(points(tree_of(link)), dim),
    decreases link,
{
    if let Some(node) = link {
        let none: Seq<bool> = Seq::empty();
        assert(link_at(link, none) == link);
        assert(splits(*node, (depth + none.len()) as int % dim as int, dim as int));
        assert forall|path: Seq<bool>|
            (#[trigger] link_at(node.left, path)) is Some implies splits(
            *link_at(node.left, path)->0,
            (depth + 1 + path.len()) as int % dim as int,
            dim as int,
        ) by {
            let longer: Seq<bool> = seq![true] + path;
            assert(longer.skip(1) =~= path);
            assert(link_at(link, longer) == link_at(node.left, path));
        }
        assert forall|path: Seq<bool>|
            (#[trigger] link_at(node.right, path)) is Some implies splits(
            *link_at(node.right, path)->0,
            (depth + 1 + path.len()) as int % dim as int,
            dim as int,
        ) by {
            let longer: Seq<bool> = seq![false] + path;
            assert(longer.skip(1) =~= path);
            assert(link_at(link, longer) == link_at(node.right, path));
        }
        lemma_split_tree(node.left, depth + 1, dim);
        lemma_split_tree(node.right, depth + 1, dim);
        lemma_stored(node.left);
        lemma_stored(node.right);
        lemma_link(link);
        let t: Tree = tree_of(link);
        assert forall|p: Point, a: nat|
            #![trigger points(t).contains(p), coordinate(p, a)]
            points(t).contains(p) && a < dim implies !coordinate(p, a).nan() by {
            if !points(tree_of(node.left)).contains(p) && !points(tree_of(node.right)).contains(
                p,
            ) {
                assert(p == point_in(*node));
                assert(!node.indexed_vector.vector@[a as int].nan());
            }
        }
    }
}

/// Inserting a point whose coordinates are numbers leaves an index that a search may leave
/// subtrees out of such an index, and so does any deletion.
pub proof fn law_numbers_stay_searchable(old: KDTree, new: KDTree, p: Point, id: PointId)
    requires
        old.wf(),
        old.dim > 0,
        old.searchable(),
    ensures
        added(old, new, p) && p.vector.len() >= old.dim && (forall|a: int|
            0 <= a < old.dim ==> !(#[trigger] p.vector[a]).nan()) ==> new.searchable(),
        removed(old, new, id) && old.point_ids@.contains(id) ==> new.searchable(),
{
    if added(old, new, p) && p.vector.len() >= old.dim && (forall|a: int|
        0 <= a < old.dim ==> !(#[trigger] p.vector[a]).nan()) {
        assert forall|a: nat| a < old.dim implies !(#[trigger] coordinate(p, a)).nan() by {
            assert(!p.vector[a as int].nan());
        }
        lemma_added(old, new, p);
    }
    if removed(old, new, id) && old.point_ids@.contains(id) {
        lemma_removed(old, new, id);
    }
}

} // verus!
