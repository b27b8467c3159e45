//! Nodes by the path that leads to them, read off the links themselves.
//!
//! A path is a sequence of turns from a link, `true` for left. The functions here look at
//! the fields of the nodes and at nothing else, so that what is said of the index in their
//! terms can be checked against the nodes directly.
use crate::kd_tree::{tree_of, KDTreeNode};
use crate::model::{
    balanced, descent, first_holder, goes_left, grown, halved, holds_live, leads, leaf,
    lemma_live_set, live_set, marked, ordered, points, replaced, shrunk, size_of, sized,
    subtree_at, tombstones, Tree,
};
use crate::point::Point;
use vstd::multiset::Multiset;
use vstd::prelude::*;

verus! {

/// The link that a path leads to.
pub open spec fn link_at(link: Option<Box<KDTreeNode>>, path: Seq<bool>) -> Option<Box<KDTreeNode>>
    decreases path.len(),
{
    if path.len() == 0 {
        link
    } else {
        match link {
            None => None,
            Some(node) => link_at(
                if path[0] {
                    node.left
                } else {
                    node.right
                },
                path.skip(1),
            ),
        }
    }
}

/// The size that the node of a link claims for its subtree.
pub open spec fn size_below(link: Option<Box<KDTreeNode>>) -> nat {
    match link {
        None => 0,
        Some(node) => node.subtree_size as nat,
    }
}

/// The point of a node.
pub open spec fn point_in(node: KDTreeNode) -> Point {
    Point { id: node.indexed_vector.id, vector: node.indexed_vector.vector@ }
}

/// The points of all nodes below a link, deleted ones among them.
pub open spec fn stored(link: Option<Box<KDTreeNode>>) -> Multiset<Point>
    decreases link,
{
    match link {
        None => Multiset::empty(),
        Some(node) => stored(node.left).add(stored(node.right)).insert(point_in(*node)),
    }
}

/// The points of the nodes below a link that were not deleted.
pub open spec fn remaining(link: Option<Box<KDTreeNode>>) -> Multiset<Point>
    decreases link,
{
    match link {
        None => Multiset::empty(),
        Some(node) => if node.is_deleted {
            remaining(node.left).add(remaining(node.right))
        } else {
            remaining(node.left).add(remaining(node.right)).insert(point_in(*node))
        },
    }
}

/// `a` comes before `b` where a node comes before its left subtree, and that one before the
/// right one.
pub open spec fn before(a: Seq<bool>, b: Seq<bool>) -> bool
    decreases a.len(),
{
    if b.len() == 0 {
        false
    } else if a.len() == 0 {
        true
    } else if a[0] != b[0] {
        a[0]
    } else {
        before(a.skip(1), b.skip(1))
    }
}

/// The first turns of `b` are those of `a`.
pub open spec fn begins(a: Seq<bool>, b: Seq<bool>) -> bool {
    a.len() <= b.len() && b.take(a.len() as int) == a
}

/// The subtree that a path leads to.
pub open spec fn tree_at(t: Tree, path: Seq<bool>) -> Tree
    decreases path.len(),
{
    if path.len() == 0 {
        t
    } else {
        match t {
            Tree::Empty => Tree::Empty,
            Tree::Node { left, right, .. } => tree_at(
                if path[0] {
                    *left
                } else {
                    *right
                },
                path.skip(1),
            ),
        }
    }
}

/// What a node is, and what the tree below its link says of it.
pub proof fn lemma_link(link: Option<Box<KDTreeNode>>)
    ensures
        size_below(link) == size_of(tree_of(link)),
        link is None <==> tree_of(link) is Empty,
        link matches Some(node) ==> {
            &&& tree_of(link)->point == point_in(*node)
            &&& tree_of(link)->deleted == node.is_deleted
            &&& tree_of(link)->size == node.subtree_size
            &&& *tree_of(link)->left == tree_of(node.left)
            &&& *tree_of(link)->right == tree_of(node.right)
        },
{
}

/// Paths lead to the same place in the links and in the tree.
pub proof fn lemma_link_at(link: Option<Box<KDTreeNode>>, path: Seq<bool>)
    ensures
        tree_of(link_at(link, path)) == tree_at(tree_of(link), path),
    decreases path.len(),
{
    lemma_link(link);
    if path.len() > 0 {
        if let Some(node) = link {
            lemma_link_at(
                if path[0] {
                    node.left
                } else {
                    node.right
                },
                path.skip(1),
            );
        }
    }
}

/// The points below a link are those of the tree below it.
pub proof fn lemma_stored(link: Option<Box<KDTreeNode>>)
    ensures
        stored(link) == points(tree_of(link)),
        remaining(link) == live_set(tree_of(link)),
    decreases link,
{
    lemma_live_set(tree_of(link));
    if let Some(node) = link {
        lemma_stored(node.left);
        lemma_stored(node.right);
    }
}

/// A path in two parts.
pub proof fn lemma_tree_add(t: Tree, a: Seq<bool>, b: Seq<bool>)
    ensures
        tree_at(t, a + b) == tree_at(tree_at(t, a), b),
    decreases a.len(),
{
    if a.len() == 0 {
        assert(a + b =~= b);
    } else {
        assert((a + b)[0] == a[0]);
        assert((a + b).skip(1) =~= a.skip(1) + b);
        if let Tree::Node { left, right, .. } = t {
            lemma_tree_add(
                if a[0] {
                    *left
                } else {
                    *right
                },
                a.skip(1),
                b,
            );
        } else {
            lemma_tree_empty(b);
        }
    }
}

/// No path leads out of an empty tree.
pub proof fn lemma_tree_empty(path: Seq<bool>)
    ensures
        tree_at(Tree::Empty, path) is Empty,
{
}

/// One turn further on.
pub proof fn lemma_tree_turn(t: Tree, path: Seq<bool>, turn: bool)
    ensures
        tree_at(t, path.push(turn)) == match tree_at(t, path) {
            Tree::Empty => Tree::Empty,
            Tree::Node { left, right, .. } => if turn {
                *left
            } else {
                *right
            },
        },
{
    let one: Seq<bool> = seq![turn];
    assert(path.push(turn) =~= path + one);
    lemma_tree_add(t, path, one);
    assert(one.skip(1).len() == 0);
    assert(one[0] == turn);
    if let Tree::Node { left, right, .. } = tree_at(t, path) {
        let next: Tree = if turn {
            *left
        } else {
            *right
        };
        assert(tree_at(next, one.skip(1)) == next);
    }
}

/// What holds everywhere in a tree holds in its subtrees.
pub proof fn lemma_tree_keeps(t: Tree, path: Seq<bool>, depth: nat, dim: nat)
    ensures
        sized(t) ==> sized(tree_at(t, path)) && size_of(tree_at(t, path)) <= size_of(t),
        balanced(t) ==> balanced(tree_at(t, path)),
        halved(t) ==> halved(tree_at(t, path)),
        tombstones(t) == 0 ==> tombstones(tree_at(t, path)) == 0,
        ordered(t, depth, dim) ==> ordered(tree_at(t, path), depth + path.len(), dim),
        points(tree_at(t, path)).subset_of(points(t)),
    decreases path.len(),
{
    if path.len() > 0 {
        if let Tree::Node { left, right, .. } = t {
            let next: Tree = if path[0] {
                *left
            } else {
                *right
            };
            lemma_tree_keeps(next, path.skip(1), depth + 1, dim);
            assert(depth + 1 + path.skip(1).len() == depth + path.len());
            assert(points(next).subset_of(points(t)));
        }
    }
}

/// A node on a path is one of the points.
pub proof fn lemma_tree_point(t: Tree, path: Seq<bool>)
    requires
        tree_at(t, path) is Node,
    ensures
        points(t).contains(tree_at(t, path)->point),
        !tree_at(t, path)->deleted ==> live_set(t).contains(tree_at(t, path)->point),
    decreases path.len(),
{
    lemma_live_set(t);
    if path.len() > 0 {
        if let Tree::Node { left, right, .. } = t {
            lemma_tree_point(
                if path[0] {
                    *left
                } else {
                    *right
                },
                path.skip(1),
            );
        }
    }
}

/// The subtree at some depth on a way is the one that the first turns lead to.
pub proof fn lemma_subtree_at(t: Tree, turns: Seq<bool>, target: nat, depth: nat)
    requires
        depth <= target <= turns.len(),
    ensures
        subtree_at(t, turns, target, depth) == tree_at(
            t,
            turns.subrange(depth as int, target as int),
        ),
    decreases t,
{
    let part: Seq<bool> = turns.subrange(depth as int, target as int);
    if depth < target {
        assert(part[0] == turns[depth as int]);
        assert(part.skip(1) =~= turns.subrange(depth as int + 1, target as int));
        if let Tree::Node { left, right, .. } = t {
            lemma_subtree_at(*left, turns, target, depth + 1);
            lemma_subtree_at(*right, turns, target, depth + 1);
        }
    }
}

/// A way over nodes leads.
pub proof fn lemma_leads(t: Tree, turns: Seq<bool>, target: nat, depth: nat)
    requires
        depth <= target <= turns.len(),
        forall|i: nat|
            depth <= i < target ==> tree_at(t, #[trigger] turns.subrange(depth as int, i as int))
                is Node,
    ensures
        leads(t, turns, target, depth),
    decreases t,
{
    if depth < target {
        assert(turns.subrange(depth as int, depth as int).len() == 0);
        assert(t is Node);
        if let Tree::Node { left, right, .. } = t {
            let next: Tree = if turns[depth as int] {
                *left
            } else {
                *right
            };
            assert forall|i: nat| depth + 1 <= i < target implies tree_at(
                next,
                #[trigger] turns.subrange(depth as int + 1, i as int),
            ) is Node by {
                let part: Seq<bool> = turns.subrange(depth as int, i as int);
                assert(part[0] == turns[depth as int]);
                assert(part.skip(1) =~= turns.subrange(depth as int + 1, i as int));
                assert(tree_at(t, part) is Node);
            }
            lemma_leads(next, turns, target, depth + 1);
        }
    }
}

/// Where a tree holds an identifier that was not deleted, a path leads to it.
pub proof fn lemma_path_to(t: Tree, id: u128) -> (path: Seq<bool>)
    requires
        holds_live(t, id),
    ensures
        tree_at(t, path) is Node,
        tree_at(t, path)->point.id == id,
        !tree_at(t, path)->deleted,
        forall|other: Seq<bool>| #[trigger]
            before(other, path) && tree_at(t, other) is Node && tree_at(t, other)->point.id == id
                ==> tree_at(t, other)->deleted,
    decreases t,
{
    match t {
        Tree::Empty => Seq::empty(),
        Tree::Node { point, deleted, left, right, .. } => {
            if point.id == id && !deleted {
                Seq::empty()
            } else {
                let go_left: bool = holds_live(*left, id);
                let next: Tree = if go_left {
                    *left
                } else {
                    *right
                };
                let rest: Seq<bool> = lemma_path_to(next, id);
                let path: Seq<bool> = seq![go_left] + rest;
                assert(path.skip(1) =~= rest);
                assert(path[0] == go_left);
                assert forall|other: Seq<bool>| #[trigger]
                    before(other, path) && tree_at(t, other) is Node && tree_at(t, other)->point.id
                        == id implies tree_at(t, other)->deleted by {
                    if other.len() > 0 {
                        if other[0] == go_left {
                            assert(before(other.skip(1), rest));
                        } else {
                            assert(other[0] && !go_left);
                            if !tree_at(t, other)->deleted {
                                lemma_held_at(*left, other.skip(1), id);
                            }
                        }
                    }
                }
                path
            }
        },
    }
}

/// A node that holds an identifier makes the tree hold it.
pub proof fn lemma_held_at(t: Tree, path: Seq<bool>, id: u128)
    requires
        tree_at(t, path) is Node,
        tree_at(t, path)->point.id == id,
        !tree_at(t, path)->deleted,
    ensures
        holds_live(t, id),
    decreases path.len(),
{
    if path.len() > 0 {
        if let Tree::Node { left, right, .. } = t {
            lemma_held_at(
                if path[0] {
                    *left
                } else {
                    *right
                },
                path.skip(1),
                id,
            );
        }
    }
}

/// Marking changes one node.
pub proof fn lemma_marked_at(t: Tree, id: u128, at: Seq<bool>, path: Seq<bool>)
    requires
        tree_at(t, at) is Node,
        tree_at(t, at)->point.id == id,
        !tree_at(t, at)->deleted,
        forall|other: Seq<bool>| #[trigger]
            before(other, at) && tree_at(t, other) is Node && tree_at(t, other)->point.id == id
                ==> tree_at(t, other)->deleted,
    ensures
        tree_at(t, path) is Empty <==> tree_at(marked(t, id), path) is Empty,
        tree_at(t, path) is Node ==> {
            &&& tree_at(marked(t, id), path)->point == tree_at(t, path)->point
            &&& tree_at(marked(t, id), path)->size == tree_at(t, path)->size
            &&& tree_at(marked(t, id), path)->deleted == (tree_at(t, path)->deleted || path == at)
        },
    decreases t,
{
    if let Tree::Node { point, deleted, left, right, .. } = t {
        if at.len() == 0 {
            assert(path.len() == 0 ==> path =~= at);
        } else {
            let none: Seq<bool> = Seq::empty();
            assert(before(none, at));
            assert(tree_at(t, none) == t);
            assert(point.id == id ==> deleted);
            let next: Tree = if at[0] {
                *left
            } else {
                *right
            };
            lemma_held_at(next, at.skip(1), id);
            if !at[0] && holds_live(*left, id) {
                let q: Seq<bool> = lemma_path_to(*left, id);
                let other: Seq<bool> = seq![true] + q;
                assert(other.skip(1) =~= q);
                assert(before(other, at));
                assert(tree_at(t, other) == tree_at(*left, q));
                assert(false);
            }
            assert forall|other: Seq<bool>| #[trigger]
                before(other, at.skip(1)) && tree_at(next, other) is Node && tree_at(
                    next,
                    other,
                )->point.id == id implies tree_at(next, other)->deleted by {
                let longer: Seq<bool> = seq![at[0]] + other;
                assert(longer.skip(1) =~= other);
                assert(before(longer, at));
                assert(tree_at(t, longer) == tree_at(next, other));
            }
            if path.len() > 0 {
                if path[0] == at[0] {
                    lemma_marked_at(next, id, at.skip(1), path.skip(1));
                    if path.skip(1) == at.skip(1) {
                        assert(path =~= seq![path[0]] + path.skip(1));
                        assert(at =~= seq![at[0]] + at.skip(1));
                    }
                }
            }
        }
    }
}

/// The way of a point is the one on which each turn is decided by its node.
pub proof fn lemma_way(t: Tree, p: Point, depth: nat, dim: nat, way: Seq<bool>)
    requires
        tree_at(t, way) is Empty,
        forall|i: int|
            0 <= i < way.len() ==> {
                &&& tree_at(t, #[trigger] way.take(i)) is Node
                &&& way[i] == goes_left(
                    p,
                    tree_at(t, way.take(i))->point,
                    depth + i as nat,
                    dim,
                )
            },
    ensures
        way == descent(t, p, depth, dim),
    decreases t,
{
    match t {
        Tree::Empty => {
            if way.len() > 0 {
                assert(way.take(0).len() == 0);
                assert(false);
            }
            assert(way =~= Seq::<bool>::empty());
        },
        Tree::Node { point, left, right, .. } => {
            assert(way.len() > 0);
            assert(way.take(0).len() == 0);
            assert(tree_at(t, way.take(0)) == t);
            let go_left: bool = goes_left(p, point, depth, dim);
            assert(way[0] == go_left);
            let next: Tree = if go_left {
                *left
            } else {
                *right
            };
            let rest: Seq<bool> = way.skip(1);
            assert forall|i: int| 0 <= i < rest.len() implies tree_at(next, #[trigger] rest.take(i))
                is Node && rest[i] == goes_left(
                p,
                tree_at(next, rest.take(i))->point,
                depth + 1 + i as nat,
                dim,
            ) by {
                let longer: Seq<bool> = way.take(i + 1);
                assert(longer.skip(1) =~= rest.take(i));
                assert(longer[0] == way[0]);
                assert(tree_at(t, longer) == tree_at(next, rest.take(i)));
            }
            lemma_way(next, p, depth + 1, dim, rest);
            assert(way =~= seq![go_left] + rest);
        },
    }
}

/// What a new leaf changes, place by place.
pub proof fn lemma_grown_at(t: Tree, p: Point, depth: nat, dim: nat, path: Seq<bool>)
    ensures
        ({
            let way: Seq<bool> = descent(t, p, depth, dim);
            let old: Tree = tree_at(t, path);
            let new: Tree = tree_at(grown(t, p, depth, dim), path);
            if path == way {
                new == leaf(p) && old is Empty
            } else if begins(path, way) {
                &&& old is Node
                &&& new is Node
                &&& new->point == old->point
                &&& new->deleted == old->deleted
                &&& new->size == old->size + 1
            } else if begins(way, path) {
                new is Empty && old is Empty
            } else {
                new == old
            }
        }),
    decreases t,
{
    let way: Seq<bool> = descent(t, p, depth, dim);
    match t {
        Tree::Empty => {
            assert(path.take(0) =~= way);
            if path.len() == 0 {
                assert(path =~= way);
            } else {
                assert(tree_at(Tree::Empty, path.skip(1)) is Empty);
            }
        },
        Tree::Node { point, left, right, .. } => {
            let go_left: bool = goes_left(p, point, depth, dim);
            let next: Tree = if go_left {
                *left
            } else {
                *right
            };
            let rest: Seq<bool> = descent(next, p, depth + 1, dim);
            assert(way == seq![go_left] + rest);
            assert(way.skip(1) =~= rest);
            if path.len() == 0 {
                assert(way.take(0) =~= path);
            } else {
                let tail: Seq<bool> = path.skip(1);
                assert(path =~= seq![path[0]] + tail);
                if path[0] == go_left {
                    lemma_grown_at(next, p, depth + 1, dim, tail);
                    lemma_begins(go_left, tail, rest);
                    lemma_begins(go_left, rest, tail);
                } else {
                    if begins(path, way) {
                        assert(way.take(path.len() as int)[0] == path[0]);
                    }
                    if begins(way, path) {
                        assert(path.take(way.len() as int)[0] == way[0]);
                    }
                }
            }
        },
    }
}

/// The first holder is the one that no other comes before.
pub proof fn lemma_first_holder_at(t: Tree, id: u128, at: Seq<bool>)
    requires
        tree_at(t, at) is Node,
        tree_at(t, at)->point.id == id,
        !tree_at(t, at)->deleted,
        forall|other: Seq<bool>| #[trigger]
            before(other, at) && tree_at(t, other) is Node && tree_at(t, other)->point.id == id
                ==> tree_at(t, other)->deleted,
    ensures
        first_holder(t, id) == tree_at(t, at)->point,
    decreases t,
{
    if let Tree::Node { point, deleted, left, right, .. } = t {
        if at.len() > 0 {
            let none: Seq<bool> = Seq::empty();
            assert(before(none, at));
            assert(tree_at(t, none) == t);
            let next: Tree = if at[0] {
                *left
            } else {
                *right
            };
            lemma_held_at(next, at.skip(1), id);
            if !at[0] && holds_live(*left, id) {
                let q: Seq<bool> = lemma_path_to(*left, id);
                let other: Seq<bool> = seq![true] + q;
                assert(other.skip(1) =~= q);
                assert(before(other, at));
                assert(tree_at(t, other) == tree_at(*left, q));
                assert(false);
            }
            assert forall|other: Seq<bool>| #[trigger]
                before(other, at.skip(1)) && tree_at(next, other) is Node && tree_at(
                    next,
                    other,
                )->point.id == id implies tree_at(next, other)->deleted by {
                let longer: Seq<bool> = seq![at[0]] + other;
                assert(longer.skip(1) =~= other);
                assert(before(longer, at));
                assert(tree_at(t, longer) == tree_at(next, other));
            }
            lemma_first_holder_at(next, id, at.skip(1));
        }
    }
}

/// A subtree on the way of a point grows as a tree of its own.
pub proof fn lemma_grown_below(t: Tree, p: Point, depth: nat, dim: nat, cut: Seq<bool>)
    requires
        begins(cut, descent(t, p, depth, dim)),
    ensures
        tree_at(grown(t, p, depth, dim), cut) == grown(
            tree_at(t, cut),
            p,
            depth + cut.len(),
            dim,
        ),
    decreases cut.len(),
{
    if cut.len() > 0 {
        let way: Seq<bool> = descent(t, p, depth, dim);
        if let Tree::Node { point, left, right, .. } = t {
            let go_left: bool = goes_left(p, point, depth, dim);
            let next: Tree = if go_left {
                *left
            } else {
                *right
            };
            let rest: Seq<bool> = descent(next, p, depth + 1, dim);
            assert(way == seq![go_left] + rest);
            assert(way.take(cut.len() as int)[0] == cut[0]);
            assert(cut =~= seq![go_left] + cut.skip(1));
            lemma_begins(go_left, cut.skip(1), rest);
            lemma_grown_below(next, p, depth + 1, dim, cut.skip(1));
        }
    }
}

/// A common first turn does not matter.
pub proof fn lemma_begins(turn: bool, a: Seq<bool>, b: Seq<bool>)
    ensures
        begins(seq![turn] + a, seq![turn] + b) <==> begins(a, b),
        (seq![turn] + a == seq![turn] + b) <==> a == b,
{
    let x: Seq<bool> = seq![turn] + a;
    let y: Seq<bool> = seq![turn] + b;
    assert(x.skip(1) =~= a);
    assert(y.skip(1) =~= b);
    if a.len() <= b.len() {
        assert(y.take(x.len() as int) =~= seq![turn] + b.take(a.len() as int));
        if y.take(x.len() as int) == x {
            assert(b.take(a.len() as int) =~= a) by {
                assert(y.take(x.len() as int).skip(1) =~= b.take(a.len() as int));
            }
        }
    }
}

/// What building a subtree anew changes, place by place.
pub proof fn lemma_rebuilt_at(
    t: Tree,
    turns: Seq<bool>,
    target: nat,
    depth: nat,
    now: Tree,
    diff: nat,
    path: Seq<bool>,
)
    requires
        depth <= target <= turns.len(),
        leads(t, turns, target, depth),
    ensures
        ({
            let r: Tree = shrunk(
                replaced(t, turns, target, depth, now),
                turns,
                target,
                diff,
                depth,
            );
            let way: Seq<bool> = turns.subrange(depth as int, target as int);
            let old: Tree = tree_at(t, path);
            let new: Tree = tree_at(r, path);
            if begins(way, path) {
                new == tree_at(now, path.skip(way.len() as int))
            } else if begins(path, way) {
                &&& old is Node
                &&& new is Node
                &&& new->point == old->point
                &&& new->deleted == old->deleted
                &&& new->size == (old->size - diff) as nat
            } else {
                new == old
            }
        }),
    decreases t,
{
    let way: Seq<bool> = turns.subrange(depth as int, target as int);
    if depth == target {
        assert(path.take(0) =~= way);
        assert(path.skip(0) =~= path);
    } else if let Tree::Node { left, right, .. } = t {
        let turn: bool = turns[depth as int];
        let next: Tree = if turn {
            *left
        } else {
            *right
        };
        let rest: Seq<bool> = turns.subrange(depth as int + 1, target as int);
        assert(way =~= seq![turn] + rest);
        if path.len() == 0 {
            assert(way.take(0) =~= path);
        } else {
            let tail: Seq<bool> = path.skip(1);
            assert(path =~= seq![path[0]] + tail);
            if path[0] == turn {
                lemma_rebuilt_at(next, turns, target, depth + 1, now, diff, tail);
                lemma_begins(turn, tail, rest);
                lemma_begins(turn, rest, tail);
                if begins(rest, tail) {
                    assert(tail.skip(rest.len() as int) =~= path.skip(way.len() as int));
                }
            } else {
                if begins(path, way) {
                    assert(way.take(path.len() as int)[0] == path[0]);
                }
                if begins(way, path) {
                    assert(path.take(way.len() as int)[0] == way[0]);
                }
            }
        }
    }
}

} // verus!
