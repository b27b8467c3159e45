//! The tree as the contracts speak of it, and what the operations do to it.
use crate::point::Point;
use crate::select::coordinate;
use crate::single::over_seven_tenths;
use vstd::multiset::Multiset;
use vstd::prelude::*;

verus! {

/// A k-d tree. Each node holds a point, whether it was deleted, and the number of
/// nodes that its subtree claims to have.
pub enum Tree {
    Empty,
    Node { point: Point, deleted: bool, size: nat, left: Box<Tree>, right: Box<Tree> },
}

/// The size that a tree claims to have.
pub open spec fn size_of(t: Tree) -> nat {
    match t {
        Tree::Empty => 0,
        Tree::Node { size, .. } => size,
    }
}

/// Every node claims the number of nodes that its subtree has.
pub open spec fn sized(t: Tree) -> bool
    decreases t,
{
    match t {
        Tree::Empty => true,
        Tree::Node { size, left, right, .. } => {
            &&& size == size_of(*left) + size_of(*right) + 1
            &&& sized(*left)
            &&& sized(*right)
        },
    }
}

/// The points of all nodes, deleted ones among them.
pub open spec fn points(t: Tree) -> Multiset<Point>
    decreases t,
{
    match t {
        Tree::Empty => Multiset::empty(),
        Tree::Node { point, left, right, .. } => points(*left).add(points(*right)).insert(point),
    }
}

/// The points that were not deleted, a node's before those of its left and then of
/// its right subtree.
pub open spec fn live(t: Tree) -> Seq<Point>
    decreases t,
{
    match t {
        Tree::Empty => Seq::empty(),
        Tree::Node { point, deleted, left, right, .. } => (if deleted {
            Seq::empty()
        } else {
            seq![point]
        }) + live(*left) + live(*right),
    }
}

/// The points that were not deleted, in no order.
pub open spec fn live_set(t: Tree) -> Multiset<Point> {
    live(t).to_multiset()
}

/// The number of deleted nodes.
pub open spec fn tombstones(t: Tree) -> nat
    decreases t,
{
    match t {
        Tree::Empty => 0,
        Tree::Node { deleted, left, right, .. } => tombstones(*left) + tombstones(*right) + (
        if deleted {
            1nat
        } else {
            0nat
        }),
    }
}

/// Some node that was not deleted holds the identifier.
pub open spec fn holds_live(t: Tree, id: u128) -> bool
    decreases t,
{
    match t {
        Tree::Empty => false,
        Tree::Node { point, deleted, left, right, .. } => (!deleted && point.id == id)
            || holds_live(*left, id) || holds_live(*right, id),
    }
}

/// The points with the identifier.
pub open spec fn with_id(ps: Multiset<Point>, id: u128) -> Multiset<Point> {
    ps.filter(|p: Point| p.id == id)
}

/// The point of the first node that holds the identifier and was not deleted; a node comes
/// before its left subtree, which comes before the right one.
pub open spec fn first_holder(t: Tree, id: u128) -> Point
    recommends
        holds_live(t, id),
    decreases t,
{
    match t {
        Tree::Empty => arbitrary(),
        Tree::Node { point, deleted, left, right, .. } => if point.id == id && !deleted {
            point
        } else if holds_live(*left, id) {
            first_holder(*left, id)
        } else {
            first_holder(*right, id)
        },
    }
}

/// No subtree is unbalanced.
pub open spec fn balanced(t: Tree) -> bool
    decreases t,
{
    match t {
        Tree::Empty => true,
        Tree::Node { left, right, .. } => !unbalanced(t) && balanced(*left) && balanced(*right),
    }
}

/// Every point has a coordinate on each of the axes.
pub open spec fn all_fit(ps: Multiset<Point>, dim: nat) -> bool {
    forall|p: Point| #[trigger] ps.contains(p) ==> p.vector.len() >= dim
}

/// The point has no NaN on any of the axes.
pub open spec fn has_numbers(p: Point, dim: nat) -> bool {
    forall|a: nat| a < dim ==> !(#[trigger] coordinate(p, a)).nan()
}

/// No point has a NaN on any of the axes.
pub open spec fn all_numbers(ps: Multiset<Point>, dim: nat) -> bool {
    forall|p: Point, a: nat| #![trigger ps.contains(p), coordinate(p, a)]
        ps.contains(p) && a < dim ==> !coordinate(p, a).nan()
}

/// The axis by which a node at some depth splits its subtree.
pub open spec fn axis_at(depth: nat, dim: nat) -> nat {
    depth % dim
}

/// Every point of the left subtree lies at most as high as its node along the node's
/// axis, every point of the right subtree at least as high.
pub open spec fn ordered(t: Tree, depth: nat, dim: nat) -> bool
    decreases t,
{
    match t {
        Tree::Empty => true,
        Tree::Node { point, left, right, .. } => {
            let axis: nat = axis_at(depth, dim);
            &&& forall|p: Point| #[trigger]
                points(*left).contains(p) ==> coordinate(p, axis).at_most(coordinate(point, axis))
            &&& forall|p: Point| #[trigger]
                points(*right).contains(p) ==> coordinate(point, axis).at_most(coordinate(p, axis))
            &&& ordered(*left, depth + 1, dim)
            &&& ordered(*right, depth + 1, dim)
        },
    }
}

/// Every node has half of the other nodes of its subtree, rounded up, on its left.
pub open spec fn halved(t: Tree) -> bool
    decreases t,
{
    match t {
        Tree::Empty => true,
        Tree::Node { size, left, right, .. } => {
            &&& size_of(*left) == size / 2
            &&& halved(*left)
            &&& halved(*right)
        },
    }
}

/// A tree as it is built from points at some depth: no node is deleted, every node
/// splits what is below it in half, and, if all coordinates are numbers, along its axis.
pub open spec fn built(t: Tree, ps: Multiset<Point>, depth: nat, dim: nat) -> bool {
    &&& points(t) == ps
    &&& sized(t)
    &&& halved(t)
    &&& tombstones(t) == 0
    &&& all_numbers(ps, dim) ==> ordered(t, depth, dim)
}

/// Whether a point goes to the left of a node.
pub open spec fn goes_left(p: Point, node: Point, depth: nat, dim: nat) -> bool {
    coordinate(p, axis_at(depth, dim)).at_most(coordinate(node, axis_at(depth, dim)))
}

pub open spec fn leaf(p: Point) -> Tree {
    Tree::Node {
        point: p,
        deleted: false,
        size: 1,
        left: Box::new(Tree::Empty),
        right: Box::new(Tree::Empty),
    }
}

/// The tree with a point added as a leaf.
pub open spec fn grown(t: Tree, p: Point, depth: nat, dim: nat) -> Tree
    decreases t,
{
    match t {
        Tree::Empty => leaf(p),
        Tree::Node { point, deleted, size, left, right } => if goes_left(p, point, depth, dim) {
            Tree::Node {
                point,
                deleted,
                size: size + 1,
                left: Box::new(grown(*left, p, depth + 1, dim)),
                right,
            }
        } else {
            Tree::Node {
                point,
                deleted,
                size: size + 1,
                left,
                right: Box::new(grown(*right, p, depth + 1, dim)),
            }
        },
    }
}

/// The turns that lead to the place of a new point: `true` is left.
pub open spec fn descent(t: Tree, p: Point, depth: nat, dim: nat) -> Seq<bool>
    decreases t,
{
    match t {
        Tree::Empty => Seq::empty(),
        Tree::Node { point, left, right, .. } => {
            let go_left: bool = goes_left(p, point, depth, dim);
            seq![go_left] + descent(
                if go_left {
                    *left
                } else {
                    *right
                },
                p,
                depth + 1,
                dim,
            )
        },
    }
}

/// A subtree that one child dominates.
pub open spec fn unbalanced(t: Tree) -> bool {
    match t {
        Tree::Empty => false,
        Tree::Node { size, left, right, .. } => over_seven_tenths(
            if size_of(*left) >= size_of(*right) {
                size_of(*left)
            } else {
                size_of(*right)
            },
            size,
        ),
    }
}

/// The child that a turn leads to.
pub open spec fn child(t: Tree, go_left: bool) -> Tree {
    match t {
        Tree::Empty => Tree::Empty,
        Tree::Node { left, right, .. } => if go_left {
            *left
        } else {
            *right
        },
    }
}

/// The depth of the first unbalanced subtree on the way that the turns lead, where `t`
/// stands at `depth`.
pub open spec fn first_unbalanced(t: Tree, turns: Seq<bool>, depth: nat) -> Option<nat>
    decreases t,
{
    match t {
        Tree::Empty => None,
        Tree::Node { left, right, .. } => if unbalanced(t) {
            Some(depth)
        } else if depth < turns.len() {
            if turns[depth as int] {
                first_unbalanced(*left, turns, depth + 1)
            } else {
                first_unbalanced(*right, turns, depth + 1)
            }
        } else {
            None
        },
    }
}

/// The turns lead over nodes down to `target`.
pub open spec fn leads(t: Tree, turns: Seq<bool>, target: nat, depth: nat) -> bool
    decreases t,
{
    depth >= target || match t {
        Tree::Empty => false,
        Tree::Node { left, right, .. } => depth < turns.len() && if turns[depth as int] {
            leads(*left, turns, target, depth + 1)
        } else {
            leads(*right, turns, target, depth + 1)
        },
    }
}

/// The subtree at depth `target` on the way that the turns lead.
pub open spec fn subtree_at(t: Tree, turns: Seq<bool>, target: nat, depth: nat) -> Tree
    decreases t,
{
    if depth >= target {
        t
    } else {
        match t {
            Tree::Empty => Tree::Empty,
            Tree::Node { left, right, .. } => if turns[depth as int] {
                subtree_at(*left, turns, target, depth + 1)
            } else {
                subtree_at(*right, turns, target, depth + 1)
            },
        }
    }
}

/// The tree with another subtree in that place.
pub open spec fn replaced(t: Tree, turns: Seq<bool>, target: nat, depth: nat, sub: Tree) -> Tree
    decreases t,
{
    if depth >= target {
        sub
    } else {
        match t {
            Tree::Empty => Tree::Empty,
            Tree::Node { point, deleted, size, left, right } => if turns[depth as int] {
                Tree::Node {
                    point,
                    deleted,
                    size,
                    left: Box::new(replaced(*left, turns, target, depth + 1, sub)),
                    right,
                }
            } else {
                Tree::Node {
                    point,
                    deleted,
                    size,
                    left,
                    right: Box::new(replaced(*right, turns, target, depth + 1, sub)),
                }
            },
        }
    }
}

/// The tree with the claimed sizes above depth `target` on that way lowered by `diff`.
pub open spec fn shrunk(t: Tree, turns: Seq<bool>, target: nat, diff: nat, depth: nat) -> Tree
    decreases t,
{
    if depth >= target {
        t
    } else {
        match t {
            Tree::Empty => Tree::Empty,
            Tree::Node { point, deleted, size, left, right } => if turns[depth as int] {
                Tree::Node {
                    point,
                    deleted,
                    size: (size - diff) as nat,
                    left: Box::new(shrunk(*left, turns, target, diff, depth + 1)),
                    right,
                }
            } else {
                Tree::Node {
                    point,
                    deleted,
                    size: (size - diff) as nat,
                    left,
                    right: Box::new(shrunk(*right, turns, target, diff, depth + 1)),
                }
            },
        }
    }
}

/// `new` is `old` with the subtree at depth `target` on the way of the turns built anew
/// from its points that were not deleted.
pub open spec fn rebuilt(old: Tree, new: Tree, turns: Seq<bool>, target: nat, dim: nat) -> bool {
    let was: Tree = subtree_at(old, turns, target, 0);
    let now: Tree = subtree_at(new, turns, target, 0);
    &&& built(now, live_set(was), target, dim)
    &&& new == shrunk(
        replaced(old, turns, target, 0, now),
        turns,
        target,
        (size_of(was) - size_of(now)) as nat,
        0,
    )
}

/// What inserting a point does to a tree: the point becomes a leaf, and the topmost
/// subtree on the way to it that is then unbalanced is built anew.
pub open spec fn inserted(old: Tree, new: Tree, p: Point, dim: nat) -> bool {
    let g: Tree = grown(old, p, 0, dim);
    let turns: Seq<bool> = descent(old, p, 0, dim);
    match first_unbalanced(g, turns, 0) {
        None => new == g,
        Some(d) => rebuilt(g, new, turns, d, dim),
    }
}

/// The tree with the first node that holds the identifier, of those that were not deleted,
/// marked as deleted; a node comes before its left subtree, which comes before the right
/// one.
pub open spec fn marked(t: Tree, id: u128) -> Tree
    decreases t,
{
    match t {
        Tree::Empty => Tree::Empty,
        Tree::Node { point, deleted, size, left, right } => if point.id == id && !deleted {
            Tree::Node { point, deleted: true, size, left, right }
        } else if holds_live(*left, id) {
            Tree::Node { point, deleted, size, left: Box::new(marked(*left, id)), right }
        } else {
            Tree::Node { point, deleted, size, left, right: Box::new(marked(*right, id)) }
        },
    }
}

/// What a node adds to the points of its subtrees that were not deleted.
pub proof fn lemma_live_set(t: Tree)
    ensures
        t is Empty ==> live_set(t) == Multiset::<Point>::empty(),
        t matches Tree::Node { point, deleted, left, right, .. } ==> live_set(t) == (if deleted {
            live_set(*left).add(live_set(*right))
        } else {
            live_set(*left).add(live_set(*right)).insert(point)
        }),
{
    broadcast use vstd::seq_lib::group_to_multiset_ensures;

    match t {
        Tree::Empty => {
            assert(live_set(t) =~= Multiset::empty());
        },
        Tree::Node { point, deleted, left, right, .. } => {
            let head: Seq<Point> = if deleted {
                Seq::empty()
            } else {
                seq![point]
            };
            let l: Seq<Point> = live(*left);
            let r: Seq<Point> = live(*right);
            vstd::seq_lib::lemma_multiset_commutative(head + l, r);
            vstd::seq_lib::lemma_multiset_commutative(head, l);
            if deleted {
                assert(head.to_multiset() =~= Multiset::empty());
            } else {
                assert(head =~= Seq::<Point>::empty().push(point));
                assert(head.to_multiset() =~= Multiset::<Point>::empty().insert(point));
            }
            assert(live_set(t) =~= (if deleted {
                live_set(*left).add(live_set(*right))
            } else {
                live_set(*left).add(live_set(*right)).insert(point)
            }));
        },
    }
}

/// Nodes are counted once: by their claimed sizes, by their points, and as deleted or
/// not.
pub proof fn lemma_counts(t: Tree)
    requires
        sized(t),
    ensures
        points(t).len() == size_of(t),
        live_set(t).len() + tombstones(t) == size_of(t),
        live(t).len() == live_set(t).len(),
    decreases t,
{
    lemma_live_set(t);
    vstd::seq_lib::to_multiset_len(live(t));
    if let Tree::Node { left, right, .. } = t {
        lemma_counts(*left);
        lemma_counts(*right);
    }
}

/// The points that were not deleted are among all points, and are all of them where
/// nothing was deleted.
pub proof fn lemma_live_within(t: Tree)
    ensures
        live_set(t).subset_of(points(t)),
        tombstones(t) == 0 ==> live_set(t) == points(t),
    decreases t,
{
    lemma_live_set(t);
    if let Tree::Node { left, right, .. } = t {
        lemma_live_within(*left);
        lemma_live_within(*right);
        assert(tombstones(t) == 0 ==> live_set(t) =~= points(t));
    }
}

/// What adding a leaf does to the measures of a tree.
pub proof fn lemma_grown(t: Tree, p: Point, depth: nat, dim: nat)
    requires
        sized(t),
    ensures
        sized(grown(t, p, depth, dim)),
        size_of(grown(t, p, depth, dim)) == size_of(t) + 1,
        points(grown(t, p, depth, dim)) == points(t).insert(p),
        live_set(grown(t, p, depth, dim)) == live_set(t).insert(p),
        tombstones(grown(t, p, depth, dim)) == tombstones(t),
    decreases t,
{
    let g: Tree = grown(t, p, depth, dim);
    lemma_live_set(t);
    lemma_live_set(g);
    match t {
        Tree::Empty => {
            lemma_live_set(Tree::Empty);
            assert(points(g) =~= points(t).insert(p));
            assert(live_set(g) =~= live_set(t).insert(p));
        },
        Tree::Node { point, left, right, .. } => {
            if goes_left(p, point, depth, dim) {
                lemma_grown(*left, p, depth + 1, dim);
            } else {
                lemma_grown(*right, p, depth + 1, dim);
            }
            assert(points(g) =~= points(t).insert(p));
            assert(live_set(g) =~= live_set(t).insert(p));
        },
    }
}

/// Adding a leaf keeps the order along the axes, where all coordinates are numbers.
pub proof fn lemma_grown_ordered(t: Tree, p: Point, depth: nat, dim: nat)
    requires
        sized(t),
        dim > 0,
        ordered(t, depth, dim),
        all_numbers(points(t).insert(p), dim),
    ensures
        ordered(grown(t, p, depth, dim), depth, dim),
    decreases t,
{
    if let Tree::Node { point, left, right, .. } = t {
        let axis: nat = axis_at(depth, dim);
        let all: Multiset<Point> = points(t).insert(p);
        assert(all.contains(p) && all.contains(point));
        assert(!coordinate(p, axis).nan() && !coordinate(point, axis).nan());
        let side: Tree = if goes_left(p, point, depth, dim) {
            *left
        } else {
            *right
        };
        assert(all_numbers(points(side).insert(p), dim)) by {
            assert forall|x: Point, a: nat|
                #![trigger points(side).insert(p).contains(x), coordinate(x, a)]
                points(side).insert(p).contains(x) && a < dim implies !coordinate(x, a).nan() by {
                assert(all.contains(x));
            }
        }
        lemma_grown(side, p, depth + 1, dim);
        lemma_grown_ordered(side, p, depth + 1, dim);
        let bigger: Tree = grown(side, p, depth + 1, dim);
        assert forall|x: Point| #[trigger] points(bigger).contains(x) implies points(side).contains(
            x,
        ) || x == p by {}
    } else {
        assert(ordered(Tree::Empty, depth + 1, dim));
    }
}

/// The way to an unbalanced subtree leads over nodes, and no further than the turns.
pub proof fn lemma_first_unbalanced(t: Tree, turns: Seq<bool>, depth: nat)
    ensures
        first_unbalanced(t, turns, depth) matches Some(d) ==> {
            &&& depth <= d
            &&& leads(t, turns, d, depth)
            &&& unbalanced(subtree_at(t, turns, d, depth))
            &&& depth <= turns.len() ==> d <= turns.len()
        },
    decreases t,
{
    if let Tree::Node { left, right, .. } = t {
        if !unbalanced(t) && depth < turns.len() {
            lemma_first_unbalanced(*left, turns, depth + 1);
            lemma_first_unbalanced(*right, turns, depth + 1);
        }
    }
}

/// A subtree leaves room for the nodes above it.
pub proof fn lemma_leads_size(t: Tree, turns: Seq<bool>, target: nat, depth: nat)
    requires
        sized(t),
        depth <= target,
        leads(t, turns, target, depth),
    ensures
        target - depth + size_of(subtree_at(t, turns, target, depth)) <= size_of(t),
        sized(subtree_at(t, turns, target, depth)),
        points(subtree_at(t, turns, target, depth)).subset_of(points(t)),
    decreases t,
{
    if depth < target {
        if let Tree::Node { left, right, .. } = t {
            if turns[depth as int] {
                lemma_leads_size(*left, turns, target, depth + 1);
            } else {
                lemma_leads_size(*right, turns, target, depth + 1);
            }
        }
    }
}

/// Lowering sizes by nothing changes nothing.
pub proof fn lemma_shrunk_zero(t: Tree, turns: Seq<bool>, target: nat, depth: nat)
    ensures
        shrunk(t, turns, target, 0, depth) == t,
    decreases t,
{
    if depth < target {
        if let Tree::Node { left, right, .. } = t {
            lemma_shrunk_zero(*left, turns, target, depth + 1);
            lemma_shrunk_zero(*right, turns, target, depth + 1);
        }
    }
}

/// The sizes on the way down to `target` are at least `n`.
pub open spec fn at_least_on_way(t: Tree, turns: Seq<bool>, target: nat, n: nat, depth: nat) -> bool
    decreases t,
{
    depth >= target || match t {
        Tree::Empty => true,
        Tree::Node { size, left, right, .. } => size >= n && if turns[depth as int] {
            at_least_on_way(*left, turns, target, n, depth + 1)
        } else {
            at_least_on_way(*right, turns, target, n, depth + 1)
        },
    }
}

/// Putting another subtree in place leaves the way to it, and its sizes, as they were.
pub proof fn lemma_replaced_way(
    t: Tree,
    turns: Seq<bool>,
    target: nat,
    depth: nat,
    sub: Tree,
    n: nat,
)
    requires
        sized(t),
        depth <= target,
        leads(t, turns, target, depth),
        n <= size_of(subtree_at(t, turns, target, depth)),
    ensures
        leads(replaced(t, turns, target, depth, sub), turns, target, depth),
        at_least_on_way(replaced(t, turns, target, depth, sub), turns, target, n, depth),
    decreases t,
{
    lemma_leads_size(t, turns, target, depth);
    if depth < target {
        if let Tree::Node { left, right, .. } = t {
            if turns[depth as int] {
                lemma_replaced_way(*left, turns, target, depth + 1, sub, n);
            } else {
                lemma_replaced_way(*right, turns, target, depth + 1, sub, n);
            }
        }
    }
}

/// What building a subtree anew, without its deleted nodes, does to the whole tree.
pub proof fn lemma_regraft(
    t: Tree,
    turns: Seq<bool>,
    target: nat,
    depth: nat,
    now: Tree,
    dim: nat,
)
    requires
        sized(t),
        depth <= target,
        leads(t, turns, target, depth),
        built(now, live_set(subtree_at(t, turns, target, depth)), target, dim),
    ensures
        ({
            let was: Tree = subtree_at(t, turns, target, depth);
            let diff: nat = (size_of(was) - size_of(now)) as nat;
            let r: Tree = shrunk(
                replaced(t, turns, target, depth, now),
                turns,
                target,
                diff,
                depth,
            );
            &&& size_of(was) - size_of(now) == tombstones(was)
            &&& sized(r)
            &&& size_of(r) + diff == size_of(t)
            &&& live_set(r) == live_set(t)
            &&& points(r).subset_of(points(t))
            &&& tombstones(r) + diff == tombstones(t)
            &&& subtree_at(r, turns, target, depth) == now
            &&& ordered(t, depth, dim) && ordered(now, target, dim) ==> ordered(r, depth, dim)
        }),
    decreases t,
{
    let was: Tree = subtree_at(t, turns, target, depth);
    let diff: nat = (size_of(was) - size_of(now)) as nat;
    let r: Tree = shrunk(replaced(t, turns, target, depth, now), turns, target, diff, depth);
    if depth == target {
        lemma_counts(was);
        lemma_counts(now);
        lemma_live_within(was);
        lemma_live_within(now);
    } else {
        lemma_live_set(t);
        lemma_live_set(r);
        if let Tree::Node { left, right, .. } = t {
            if turns[depth as int] {
                lemma_regraft(*left, turns, target, depth + 1, now, dim);
            } else {
                lemma_regraft(*right, turns, target, depth + 1, now, dim);
            }
            assert(live_set(r) =~= live_set(t));
            assert forall|p: Point| #[trigger] points(*r->left).contains(p) implies points(
                *left,
            ).contains(p) by {}
            assert forall|p: Point| #[trigger] points(*r->right).contains(p) implies points(
                *right,
            ).contains(p) by {}
        }
    }
}

/// An identifier is held where a point with it is.
pub proof fn lemma_holds_live(t: Tree, id: u128)
    ensures
        holds_live(t, id) <==> exists|p: Point| #[trigger] live_set(t).contains(p) && p.id == id,
    decreases t,
{
    lemma_live_set(t);
    if let Tree::Node { point, deleted, left, right, .. } = t {
        lemma_holds_live(*left, id);
        lemma_holds_live(*right, id);
        if holds_live(t, id) {
            if !deleted && point.id == id {
                assert(live_set(t).contains(point));
            } else if holds_live(*left, id) {
                let p: Point = choose|p: Point| #[trigger]
                    live_set(*left).contains(p) && p.id == id;
                assert(live_set(t).contains(p));
            } else {
                let p: Point = choose|p: Point| #[trigger]
                    live_set(*right).contains(p) && p.id == id;
                assert(live_set(t).contains(p));
            }
        }
        if exists|p: Point| #[trigger] live_set(t).contains(p) && p.id == id {
            let p: Point = choose|p: Point| #[trigger] live_set(t).contains(p) && p.id == id;
            assert(live_set(*left).contains(p) || live_set(*right).contains(p) || (!deleted && p
                == point));
        }
    }
}

/// What marking a node does to the measures of a tree.
pub proof fn lemma_marked(t: Tree, id: u128)
    requires
        sized(t),
        holds_live(t, id),
    ensures
        sized(marked(t, id)),
        size_of(marked(t, id)) == size_of(t),
        points(marked(t, id)) == points(t),
        first_holder(t, id).id == id,
        live_set(t).contains(first_holder(t, id)),
        live_set(marked(t, id)) == live_set(t).remove(first_holder(t, id)),
        tombstones(marked(t, id)) == tombstones(t) + 1,
        forall|other: u128|
            other != id ==> #[trigger] holds_live(marked(t, id), other) == holds_live(t, other),
    decreases t,
{
    let m: Tree = marked(t, id);
    lemma_live_set(t);
    lemma_live_set(m);
    if let Tree::Node { point, deleted, left, right, .. } = t {
        let here: bool = point.id == id && !deleted;
        if !here {
            if holds_live(*left, id) {
                lemma_marked(*left, id);
            } else {
                lemma_marked(*right, id);
            }
        }
        assert(points(m) =~= points(t));
        assert(live_set(m) =~= live_set(t).remove(first_holder(t, id)));
        assert forall|other: u128| other != id implies #[trigger] holds_live(m, other)
            == holds_live(t, other) by {
            if !here {
                if holds_live(*left, id) {
                    assert(holds_live(marked(*left, id), other) == holds_live(*left, other));
                } else {
                    assert(holds_live(marked(*right, id), other) == holds_live(*right, other));
                }
            }
        }
    }
}

/// Marking a node leaves the order along the axes.
pub proof fn lemma_marked_ordered(t: Tree, id: u128, depth: nat, dim: nat)
    requires
        sized(t),
        holds_live(t, id),
        ordered(t, depth, dim),
    ensures
        ordered(marked(t, id), depth, dim),
    decreases t,
{
    if let Tree::Node { point, deleted, left, right, .. } = t {
        if point.id != id || deleted {
            if holds_live(*left, id) {
                lemma_marked(*left, id);
                lemma_marked_ordered(*left, id, depth + 1, dim);
            } else {
                lemma_marked(*right, id);
                lemma_marked_ordered(*right, id, depth + 1, dim);
            }
        }
    }
}

} // verus!
