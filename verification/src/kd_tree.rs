//! The index: building, inserting, deleting and rebalancing.
use crate::model::{
    all_fit, all_numbers, at_least_on_way, axis_at, built, child, descent, first_holder,
    first_unbalanced, grown, has_numbers, holds_live, inserted, leads, lemma_counts,
    lemma_first_unbalanced, lemma_grown, lemma_grown_ordered, lemma_holds_live, lemma_leads_size,
    lemma_live_within, lemma_marked, lemma_marked_ordered, lemma_regraft, lemma_replaced_way,
    lemma_shrunk_zero, live, live_set, marked, ordered, points, rebuilt, replaced, shrunk,
    size_of, sized, subtree_at, tombstones, unbalanced, Tree,
};
use crate::paths::{lemma_stored, remaining, size_below, stored};
use crate::point::{is_vacant, points_of, vacant, DbError, IndexedVector, Point, PointId};
use crate::select::{coordinate, numbers_on, reach_axis, select_median, split_at_median};
use crate::single::{
    exceeds_quarter, exceeds_seven_tenths, law_quarter_of_counts, lemma_nothing_within,
    lemma_within_quarter, over_quarter, Single,
};
use std::collections::HashSet;
use vstd::multiset::Multiset;
use vstd::prelude::*;

verus! {

/// A node of the tree.
pub struct KDTreeNode {
    pub indexed_vector: IndexedVector,
    pub left: Option<Box<KDTreeNode>>,
    pub right: Option<Box<KDTreeNode>>,
    /// A deleted node stays in place until its subtree is built anew.
    pub is_deleted: bool,
    /// The number of nodes of the subtree, deleted ones among them.
    pub subtree_size: usize,
}

/// The tree below a link.
pub open spec fn tree_of(link: Option<Box<KDTreeNode>>) -> Tree
    decreases link,
{
    match link {
        None => Tree::Empty,
        Some(node) => Tree::Node {
            point: node.indexed_vector@,
            deleted: node.is_deleted,
            size: node.subtree_size as nat,
            left: Box::new(tree_of(node.left)),
            right: Box::new(tree_of(node.right)),
        },
    }
}

/// The number of levels below the root of a tree that splits `n` points in half.
pub open spec fn levels(n: nat) -> nat
    decreases n,
{
    if n <= 1 {
        0
    } else {
        1 + levels(n / 2)
    }
}

/// More points need no fewer levels.
proof fn lemma_levels_mono(a: nat, b: nat)
    requires
        a <= b,
    ensures
        levels(a) <= levels(b),
    decreases b,
{
    if a > 1 {
        lemma_levels_mono(a / 2, b / 2);
    }
}

/// A sequence without one slot, as a multiset.
proof fn lemma_split_multiset(s: Seq<Point>, mid: int)
    requires
        0 <= mid < s.len(),
    ensures
        s.to_multiset() == s.subrange(0, mid).to_multiset().add(
            s.subrange(mid + 1, s.len() as int).to_multiset(),
        ).insert(s[mid]),
{
    let l: Seq<Point> = s.subrange(0, mid);
    let r: Seq<Point> = s.subrange(mid + 1, s.len() as int);
    assert(s =~= (l + r).insert(mid, s[mid]));
    vstd::seq_lib::to_multiset_insert(l + r, mid, s[mid]);
    vstd::seq_lib::lemma_multiset_commutative(l, r);
}

/// What holds of all points of a multiset holds of every slot of the sequence.
proof fn lemma_slots(s: Seq<Point>, dim: nat, axis: nat)
    requires
        axis < dim,
    ensures
        all_fit(s.to_multiset(), dim) ==> reach_axis(s, axis),
        all_numbers(s.to_multiset(), dim) ==> numbers_on(s, axis),
{
    broadcast use vstd::seq_lib::to_multiset_contains;

    assert forall|i: int| 0 <= i < s.len() implies s.to_multiset().contains(#[trigger] s[i]) by {
        assert(s.contains(s[i]));
    }
    if all_numbers(s.to_multiset(), dim) {
        assert forall|i: int| 0 <= i < s.len() implies !coordinate(#[trigger] s[i], axis).nan() by {
            assert(s.to_multiset().contains(s[i]));
        }
    }
}

/// A node over two trees that were built from the two sides of a median split.
proof fn lemma_built_node(t: Tree, s: Seq<Point>, mid: nat, depth: nat, dim: nat)
    requires
        t is Node,
        dim > 0,
        mid == s.len() / 2,
        mid < s.len(),
        t->point == s[mid as int],
        !t->deleted,
        t->size == size_of(*t->left) + size_of(*t->right) + 1,
        built(*t->left, s.subrange(0, mid as int).to_multiset(), depth + 1, dim),
        built(*t->right, s.subrange(mid as int + 1, s.len() as int).to_multiset(), depth + 1, dim),
        all_numbers(s.to_multiset(), dim) ==> split_at_median(s, mid, axis_at(depth, dim)),
    ensures
        built(t, s.to_multiset(), depth, dim),
        size_of(t) == s.len(),
{
    broadcast use vstd::seq_lib::to_multiset_contains;

    let l: Seq<Point> = s.subrange(0, mid as int);
    let r: Seq<Point> = s.subrange(mid as int + 1, s.len() as int);
    let axis: nat = axis_at(depth, dim);
    lemma_split_multiset(s, mid as int);
    vstd::seq_lib::to_multiset_len(l);
    vstd::seq_lib::to_multiset_len(r);
    lemma_counts(*t->left);
    lemma_counts(*t->right);
    if all_numbers(s.to_multiset(), dim) {
        assert forall|p: Point| #[trigger] points(*t->left).contains(p) implies coordinate(
            p,
            axis,
        ).at_most(coordinate(t->point, axis)) by {
            assert(l.contains(p));
            let i: int = choose|i: int| 0 <= i < l.len() && l[i] == p;
            assert(s[i] == p);
        }
        assert forall|p: Point| #[trigger] points(*t->right).contains(p) implies coordinate(
            t->point,
            axis,
        ).at_most(coordinate(p, axis)) by {
            assert(r.contains(p));
            let i: int = choose|i: int| 0 <= i < r.len() && r[i] == p;
            assert(s[mid + 1 + i] == p);
        }
        assert(all_numbers(l.to_multiset(), dim)) by {
            assert forall|p: Point, a: nat|
                #![trigger l.to_multiset().contains(p), coordinate(p, a)]
                l.to_multiset().contains(p) && a < dim implies !coordinate(p, a).nan() by {
                assert(s.to_multiset().contains(p));
            }
        }
        assert(all_numbers(r.to_multiset(), dim)) by {
            assert forall|p: Point, a: nat|
                #![trigger r.to_multiset().contains(p), coordinate(p, a)]
                r.to_multiset().contains(p) && a < dim implies !coordinate(p, a).nan() by {
                assert(s.to_multiset().contains(p));
            }
        }
    }
}

/// The empty tree is what no points build.
proof fn lemma_built_empty(s: Seq<Point>, depth: nat, dim: nat)
    ensures
        s.len() == 0 ==> built(Tree::Empty, s.to_multiset(), depth, dim),
{
    vstd::seq_lib::to_multiset_len(s);
    if s.len() == 0 {
        assert(s.to_multiset() =~= Multiset::empty());
    }
}

/// An index over points. Its tree splits the points along one axis after the other; a
/// deleted point stays in it, marked, until its part of the tree is built anew.
pub struct KDTree {
    /// The number of axes.
    pub dim: usize,
    pub root: Option<Box<KDTreeNode>>,
    /// The identifiers that can be deleted.
    pub point_ids: HashSet<PointId>,
    /// The number of nodes, deleted ones among them.
    pub total_nodes: usize,
    /// The number of deleted nodes.
    pub deleted_count: usize,
}

/// The turns of a path, without the depths.
pub open spec fn turns_of(path: Seq<(usize, bool)>) -> Seq<bool> {
    Seq::new(path.len(), |i: int| path[i].1)
}

/// The identifiers of points.
pub open spec fn ids_of(ps: Seq<Point>) -> Set<PointId> {
    Set::new(|id: PointId| exists|i: int| 0 <= i < ps.len() && (#[trigger] ps[i]).id == id)
}

impl KDTree {
    /// The tree below the root.
    pub open spec fn tree(&self) -> Tree {
        tree_of(self.root)
    }

    /// What every operation keeps.
    pub open spec fn wf(&self) -> bool {
        &&& sized(self.tree())
        &&& all_fit(points(self.tree()), self.dim as nat)
        &&& self.total_nodes == size_of(self.tree())
        &&& self.deleted_count == tombstones(self.tree())
        &&& self.deleted_count < self.total_nodes || (self.total_nodes == 0 && self.deleted_count
            == 0)
        &&& self.dim == 0 ==> self.total_nodes <= 1
        &&& forall|id: PointId| #[trigger]
            self.point_ids@.contains(id) ==> holds_live(self.tree(), id)
    }

    /// All coordinates are numbers, and every node splits its subtree along its axis:
    /// what a search relies on when it leaves a subtree out.
    pub open spec fn searchable(&self) -> bool {
        &&& all_numbers(points(self.tree()), self.dim as nat)
        &&& ordered(self.tree(), 0, self.dim as nat)
    }

    /// Builds a tree from the vectors of a slice and returns its root. The vectors
    /// move into the tree and leave vacant slots behind.
    pub fn build_recursive(vectors: &mut [IndexedVector], depth: usize, dim: usize) -> (root: Box<
        KDTreeNode,
    >)
        requires
            old(vectors)@.len() > 0,
            dim > 0,
            all_fit(points_of(old(vectors)@).to_multiset(), dim as nat),
            depth + levels(old(vectors)@.len()) <= usize::MAX,
        ensures
            built(
                tree_of(Some(root)),
                points_of(old(vectors)@).to_multiset(),
                depth as nat,
                dim as nat,
            ),
            root.subtree_size == old(vectors)@.len(),
            !root.is_deleted,
            size_below(root.left) == old(vectors)@.len() / 2,
            stored(Some(root)) == points_of(old(vectors)@).to_multiset(),
            final(vectors)@.len() == old(vectors)@.len(),
            forall|i: int|
                0 <= i < final(vectors)@.len() ==> (#[trigger] final(vectors)@[i]).vector@.len()
                    == 0,
            forall|i: int|
                0 <= i < final(vectors)@.len() ==> is_vacant((#[trigger] final(vectors)@[i])@),
        decreases old(vectors)@.len(),
    {
        let axis: usize = depth % dim;
        let mid_idx: usize = vectors.len() / 2;
        let n: usize = vectors.len();
        let ghost given: Seq<Point> = points_of(vectors@);
        proof {
            lemma_slots(given, dim as nat, axis as nat);
        }
        select_median(vectors, mid_idx, axis);
        let ghost s: Seq<Point> = points_of(vectors@);
        let mut median_vec: IndexedVector = vacant();
        std::mem::swap(&mut vectors[mid_idx], &mut median_vec);
        let (left_points, rest) = vectors.split_at_mut(mid_idx);
        let (_, right_points) = rest.split_at_mut(1);
        let ghost l: Seq<Point> = s.subrange(0, mid_idx as int);
        let ghost r: Seq<Point> = s.subrange(mid_idx + 1, n as int);
        proof {
            assert(points_of(left_points@) =~= l);
            assert(points_of(right_points@) =~= r);
            lemma_split_multiset(s, mid_idx as int);
            lemma_levels_mono(l.len(), (n / 2) as nat);
            lemma_levels_mono(r.len(), (n / 2) as nat);
            assert forall|p: Point| #[trigger]
                l.to_multiset().contains(p) implies p.vector.len() >= dim by {
                assert(given.to_multiset().contains(p));
            }
            assert forall|p: Point| #[trigger]
                r.to_multiset().contains(p) implies p.vector.len() >= dim by {
                assert(given.to_multiset().contains(p));
            }
        }
        let left: Option<Box<KDTreeNode>> = if left_points.is_empty() {
            None
        } else {
            Some(Self::build_recursive(left_points, depth + 1, dim))
        };
        let right: Option<Box<KDTreeNode>> = if right_points.is_empty() {
            None
        } else {
            Some(Self::build_recursive(right_points, depth + 1, dim))
        };
        let left_size: usize = size_of_link(&left);
        let right_size: usize = size_of_link(&right);
        let root: Box<KDTreeNode> = Box::new(
            KDTreeNode {
                indexed_vector: median_vec,
                left,
                right,
                is_deleted: false,
                subtree_size: left_size + right_size + 1,
            },
        );
        proof {
            lemma_built_empty(l, (depth + 1) as nat, dim as nat);
            lemma_built_empty(r, (depth + 1) as nat, dim as nat);
            lemma_built_node(tree_of(Some(root)), s, mid_idx as nat, depth as nat, dim as nat);
            lemma_stored(Some(root));
        }
        root
    }
}

/// There are no more levels than points.
proof fn lemma_levels(n: nat)
    ensures
        levels(n) <= n,
    decreases n,
{
    if n > 1 {
        lemma_levels(n / 2);
    }
}

impl KDTree {
    /// An index without points.
    pub fn build_empty(dim: usize) -> (index: Self)
        ensures
            index.wf(),
            index.searchable(),
            index.dim == dim,
            index.tree() is Empty,
            index.root is None,
            index.point_ids@ == Set::<PointId>::empty(),
            index.total_nodes == 0,
            index.deleted_count == 0,
    {
        broadcast use vstd::std_specs::hash::group_hash_axioms;

        KDTree { dim, root: None, point_ids: HashSet::new(), total_nodes: 0, deleted_count: 0 }
    }

    /// An index over the given vectors. The first one gives the number of axes.
    pub fn build(vectors: Vec<IndexedVector>) -> (result: Result<Self, DbError>)
        requires
            vectors@.len() > 0 ==> vectors@[0].vector@.len() > 0 && all_fit(
                points_of(vectors@).to_multiset(),
                vectors@[0].vector@.len(),
            ),
        ensures
            vectors@.len() == 0 ==> result == Err::<KDTree, DbError>(DbError::IndexInitError),
            vectors@.len() > 0 ==> {
                &&& result is Ok
                &&& result->Ok_0.wf()
                &&& result->Ok_0.dim == vectors@[0].vector@.len()
                &&& built(
                    result->Ok_0.tree(),
                    points_of(vectors@).to_multiset(),
                    0,
                    result->Ok_0.dim as nat,
                )
                &&& stored(result->Ok_0.root) == points_of(vectors@).to_multiset()
                &&& remaining(result->Ok_0.root) == points_of(vectors@).to_multiset()
                &&& result->Ok_0.point_ids@ == ids_of(points_of(vectors@))
                &&& forall|i: int|
                    0 <= i < vectors@.len() ==> result->Ok_0.point_ids@.contains(
                        (#[trigger] vectors@[i]).id,
                    )
                &&& forall|id: PointId| #[trigger]
                    result->Ok_0.point_ids@.contains(id) ==> exists|i: int|
                        0 <= i < vectors@.len() && (#[trigger] vectors@[i]).id == id
                &&& result->Ok_0.total_nodes == vectors@.len()
                &&& result->Ok_0.deleted_count == 0
                &&& all_numbers(points_of(vectors@).to_multiset(), result->Ok_0.dim as nat)
                    ==> result->Ok_0.searchable()
            },
    {
        broadcast use vstd::std_specs::hash::group_hash_axioms;

        let mut vectors: Vec<IndexedVector> = vectors;
        if vectors.is_empty() {
            return Err(DbError::IndexInitError);
        }
        let dim: usize = vectors[0].vector.len();
        let ghost start: Seq<IndexedVector> = vectors@;
        let ghost given: Seq<Point> = points_of(vectors@);
        let mut point_ids: HashSet<PointId> = HashSet::new();
        let n: usize = vectors.len();
        let mut i: usize = 0;
        while i < n
            invariant
                i <= n,
                n == vectors@.len(),
                given == points_of(vectors@),
                point_ids@ == ids_of(given.take(i as int)),
            decreases n - i,
        {
            broadcast use vstd::std_specs::hash::group_hash_axioms;

            let ghost before: Set<PointId> = point_ids@;
            point_ids.insert(vectors[i].id);
            i = i + 1;
            proof {
                let head: Seq<Point> = given.take(i as int);
                let prev: Seq<Point> = given.take(i as int - 1);
                assert(given[i as int - 1].id == vectors@[i as int - 1].id);
                assert forall|id: PointId| ids_of(head).contains(id) == before.insert(
                    given[i as int - 1].id,
                ).contains(id) by {
                    if ids_of(head).contains(id) {
                        let j: int = choose|j: int|
                            0 <= j < head.len() && (#[trigger] head[j]).id == id;
                        if j < i - 1 {
                            assert(prev[j] == head[j]);
                        }
                    }
                    if ids_of(prev).contains(id) {
                        let j: int = choose|j: int|
                            0 <= j < prev.len() && (#[trigger] prev[j]).id == id;
                        assert(prev[j] == head[j]);
                    }
                    assert(head[i as int - 1] == given[i as int - 1]);
                }
                assert(point_ids@ =~= ids_of(head));
            }
        }
        proof {
            assert(given.take(n as int) =~= given);
            lemma_levels(n as nat);
        }
        let root_node: Box<KDTreeNode> = Self::build_recursive(vectors.as_mut_slice(), 0, dim);
        let index: KDTree = KDTree {
            dim,
            root: Some(root_node),
            point_ids,
            total_nodes: vectors.len(),
            deleted_count: 0,
        };
        proof {
            let t: Tree = index.tree();
            lemma_live_within(t);
            lemma_stored(index.root);
            assert forall|i: int| 0 <= i < given.len() implies index.point_ids@.contains(
                (#[trigger] start[i]).id,
            ) by {
                assert(given[i].id == start[i].id);
            }
            assert forall|id: PointId| #[trigger] index.point_ids@.contains(id) implies exists|
                i: int,
            | 0 <= i < start.len() && (#[trigger] start[i]).id == id by {
                let i: int = choose|i: int| 0 <= i < given.len() && (#[trigger] given[i]).id == id;
                assert(start[i].id == id);
            }
            assert forall|id: PointId| #[trigger] index.point_ids@.contains(id) implies holds_live(
                t,
                id,
            ) by {
                let j: int = choose|j: int| 0 <= j < given.len() && (#[trigger] given[j]).id == id;
                assert(given.contains(given[j]));
                vstd::seq_lib::to_multiset_contains(given, given[j]);
                assert(live_set(t).contains(given[j]));
                lemma_holds_live(t, id);
            }
        }
        Ok(index)
    }
}

/// The size of the tree below a link.
fn size_of_link(link: &Option<Box<KDTreeNode>>) -> (n: usize)
    ensures
        n == size_of(tree_of(*link)),
{
    match link {
        None => 0,
        Some(node) => node.subtree_size,
    }
}

/// Adds a vector as a leaf below a link and appends the turns that led there.
fn add_leaf(
    link: &mut Option<Box<KDTreeNode>>,
    new_vector: IndexedVector,
    depth: usize,
    dim: usize,
    path: &mut Vec<(usize, bool)>,
)
    requires
        sized(tree_of(*old(link))),
        all_fit(points(tree_of(*old(link))), dim as nat),
        new_vector@.vector.len() >= dim,
        dim > 0 || *old(link) is None,
        depth + size_of(tree_of(*old(link))) < usize::MAX,
    ensures
        tree_of(*final(link)) == grown(tree_of(*old(link)), new_vector@, depth as nat, dim as nat),
        turns_of(final(path)@) == turns_of(old(path)@) + descent(
            tree_of(*old(link)),
            new_vector@,
            depth as nat,
            dim as nat,
        ),
    decreases tree_of(*old(link)),
{
    let ghost t: Tree = tree_of(*link);
    let ghost turns: Seq<bool> = turns_of(path@);
    match link {
        None => {
            *link = Some(
                Box::new(
                    KDTreeNode {
                        indexed_vector: new_vector,
                        left: None,
                        right: None,
                        is_deleted: false,
                        subtree_size: 1,
                    },
                ),
            );
            assert(turns_of(path@) =~= turns + Seq::<bool>::empty());
        },
        Some(node) => {
            let axis: usize = depth % dim;
            assert(points(t).contains(t->point));
            node.subtree_size = node.subtree_size + 1;
            let va: Single = new_vector.vector[axis];
            let vb: Single = node.indexed_vector.vector[axis];
            let go_left: bool = va.le(vb);
            path.push((depth, go_left));
            assert(turns_of(path@) =~= turns + seq![go_left]);
            proof {
                assert forall|p: Point| #[trigger]
                    points(*t->left).contains(p) implies p.vector.len() >= dim by {
                    assert(points(t).contains(p));
                }
                assert forall|p: Point| #[trigger]
                    points(*t->right).contains(p) implies p.vector.len() >= dim by {
                    assert(points(t).contains(p));
                }
            }
            if go_left {
                add_leaf(&mut node.left, new_vector, depth + 1, dim, path);
            } else {
                add_leaf(&mut node.right, new_vector, depth + 1, dim, path);
            }
            assert(turns_of(path@) =~= turns + descent(t, new_vector@, depth as nat, dim as nat));
        },
    }
}

impl KDTree {
    /// Whether one child holds more than its share of a subtree.
    pub(crate) fn is_unbalanced(node: &KDTreeNode) -> (b: bool)
        ensures
            forall|link: Option<Box<KDTreeNode>>|
                link is Some && *link->0 == *node ==> b == unbalanced(#[trigger] tree_of(link)),
            node.subtree_size <= 0x20_0000 ==> b == (10 * size_below(node.left) > 7
                * node.subtree_size || 10 * size_below(node.right) > 7 * node.subtree_size),
    {
        let left_size: usize = size_of_link(&node.left);
        let right_size: usize = size_of_link(&node.right);
        let max_child: usize = if left_size >= right_size {
            left_size
        } else {
            right_size
        };
        exceeds_seven_tenths(max_child, node.subtree_size)
    }

    /// Appends the vectors of a subtree that were not deleted.
    fn collect_recursive(node: KDTreeNode, result: &mut Vec<IndexedVector>)
        ensures
            points_of(final(result)@) == points_of(old(result)@) + live(
                tree_of(Some(Box::new(node))),
            ),
        decreases node,
    {
        let ghost t: Tree = tree_of(Some(Box::new(node)));
        let ghost start: Seq<Point> = points_of(result@);
        if !node.is_deleted {
            result.push(node.indexed_vector);
        }
        let ghost l: Tree = tree_of(node.left);
        let ghost r: Tree = tree_of(node.right);
        let ghost head: Seq<Point> = if t->deleted {
            Seq::empty()
        } else {
            seq![t->point]
        };
        assert(points_of(result@) =~= start + head);
        if let Some(left) = node.left {
            Self::collect_recursive(*left, result);
        }
        assert(points_of(result@) =~= start + head + live(l));
        if let Some(right) = node.right {
            Self::collect_recursive(*right, result);
        }
        assert(points_of(result@) =~= start + head + live(l) + live(r));
        assert(live(t) =~= head + live(l) + live(r));
    }

    /// The vectors of a subtree that were not deleted.
    pub(crate) fn collect_active_vectors(node: KDTreeNode) -> (result: Vec<IndexedVector>)
        requires
            sized(tree_of(Some(Box::new(node)))),
        ensures
            points_of(result@) == live(tree_of(Some(Box::new(node)))),
            points_of(result@).to_multiset() == remaining(Some(Box::new(node))),
    {
        proof {
            lemma_stored(Some(Box::new(node)));
        }
        let mut result: Vec<IndexedVector> = Vec::with_capacity(node.subtree_size);
        Self::collect_recursive(node, &mut result);
        assert(points_of(result@) =~= live(tree_of(Some(Box::new(node)))));
        result
    }
}

/// What building a subtree anew does to an index whose other parts stay.
pub open spec fn purged(old: KDTree, new: KDTree, turns: Seq<bool>, target: nat) -> bool {
    &&& rebuilt(old.tree(), new.tree(), turns, target, old.dim as nat)
    &&& new.dim == old.dim
    &&& new.point_ids == old.point_ids
    &&& new.total_nodes == size_of(new.tree())
    &&& new.deleted_count == if target == 0 {
        0
    } else {
        old.deleted_count - (old.total_nodes - new.total_nodes)
    }
}

/// Sizes and counters tell the nodes, and every point has a coordinate on each axis.
pub open spec fn counted(index: KDTree) -> bool {
    &&& sized(index.tree())
    &&& all_fit(points(index.tree()), index.dim as nat)
    &&& index.total_nodes == size_of(index.tree())
    &&& index.deleted_count == tombstones(index.tree())
}

/// What holds of all points of a multiset holds of those of a part of it.
proof fn lemma_subset_fits(a: Multiset<Point>, b: Multiset<Point>, dim: nat)
    requires
        a.subset_of(b),
    ensures
        all_fit(b, dim) ==> all_fit(a, dim),
        all_numbers(b, dim) ==> all_numbers(a, dim),
{
    assert forall|p: Point| #[trigger] a.contains(p) implies b.contains(p) by {}
}

/// Builds the tree below a link anew from its vectors that were not deleted.
/// Returns its size before and after.
fn rebuild_link(link: &mut Option<Box<KDTreeNode>>, depth: usize, dim: usize) -> (sizes: (
    usize,
    usize,
))
    requires
        sized(tree_of(*old(link))),
        all_fit(points(tree_of(*old(link))), dim as nat),
        dim > 0 || live(tree_of(*old(link))).len() == 0,
        depth + size_of(tree_of(*old(link))) <= usize::MAX,
    ensures
        built(
            tree_of(*final(link)),
            live_set(tree_of(*old(link))),
            depth as nat,
            dim as nat,
        ),
        sizes.0 == size_of(tree_of(*old(link))),
        sizes.1 == size_of(tree_of(*final(link))),
{
    let ghost t: Tree = tree_of(*link);
    proof {
        lemma_counts(t);
        lemma_live_within(t);
        lemma_built_empty(live(t), depth as nat, dim as nat);
        lemma_levels(live(t).len());
        lemma_subset_fits(live_set(t), points(t), dim as nat);
    }
    if let Some(root) = link.take() {
        let old_size: usize = root.subtree_size;
        let mut vectors: Vec<IndexedVector> = KDTree::collect_active_vectors(*root);
        let new_size: usize = vectors.len();
        if !vectors.is_empty() {
            *link = Some(KDTree::build_recursive(vectors.as_mut_slice(), depth, dim));
        }
        (old_size, new_size)
    } else {
        (0, 0)
    }
}

/// Builds the subtree at depth `target` anew, where `link` stands at `depth`, and returns
/// its size before and after.
fn rebuild_below(
    link: &mut Option<Box<KDTreeNode>>,
    path: &[(usize, bool)],
    depth: usize,
    target: usize,
    dim: usize,
) -> (sizes: (usize, usize))
    requires
        depth <= target <= path@.len(),
        leads(tree_of(*old(link)), turns_of(path@), target as nat, depth as nat),
        sized(tree_of(*old(link))),
        all_fit(points(tree_of(*old(link))), dim as nat),
        dim > 0,
        depth + size_of(tree_of(*old(link))) <= usize::MAX,
    ensures
        ({
            let turns: Seq<bool> = turns_of(path@);
            let was: Tree = subtree_at(tree_of(*old(link)), turns, target as nat, depth as nat);
            let now: Tree = subtree_at(tree_of(*final(link)), turns, target as nat, depth as nat);
            &&& built(now, live_set(was), target as nat, dim as nat)
            &&& tree_of(*final(link)) == replaced(
                tree_of(*old(link)),
                turns,
                target as nat,
                depth as nat,
                now,
            )
            &&& sizes.0 == size_of(was)
            &&& sizes.1 == size_of(now)
        }),
    decreases tree_of(*old(link)),
{
    let ghost t: Tree = tree_of(*link);
    if depth == target {
        return rebuild_link(link, depth, dim);
    }
    match link {
        None => {
            assert(false);
            (0, 0)
        },
        Some(node) => {
            proof {
                lemma_subset_fits(points(*t->left), points(t), dim as nat);
                lemma_subset_fits(points(*t->right), points(t), dim as nat);
            }
            if path[depth].1 {
                rebuild_below(&mut node.left, path, depth + 1, target, dim)
            } else {
                rebuild_below(&mut node.right, path, depth + 1, target, dim)
            }
        },
    }
}

/// Lowers the sizes above depth `up_to` on the way of the path, where `link` stands at
/// `depth`.
fn subtract_sizes(
    link: &mut Option<Box<KDTreeNode>>,
    path: &[(usize, bool)],
    up_to: usize,
    diff: usize,
    depth: usize,
)
    requires
        depth <= up_to <= path@.len(),
        at_least_on_way(
            tree_of(*old(link)),
            turns_of(path@),
            up_to as nat,
            diff as nat,
            depth as nat,
        ),
    ensures
        tree_of(*final(link)) == shrunk(
            tree_of(*old(link)),
            turns_of(path@),
            up_to as nat,
            diff as nat,
            depth as nat,
        ),
    decreases tree_of(*old(link)),
{
    let ghost t: Tree = tree_of(*link);
    if depth < up_to {
        if let Some(node) = link {
            node.subtree_size = node.subtree_size - diff;
            if path[depth].1 {
                subtract_sizes(&mut node.left, path, up_to, diff, depth + 1);
            } else {
                subtract_sizes(&mut node.right, path, up_to, diff, depth + 1);
            }
        }
    }
}

impl KDTree {
    /// Lowers the sizes of the ancestors of the subtree at depth `up_to_depth`.
    fn subtract_size_from_ancestors(
        &mut self,
        path: &[(usize, bool)],
        up_to_depth: usize,
        diff: usize,
    )
        requires
            up_to_depth <= path@.len(),
            at_least_on_way(
                old(self).tree(),
                turns_of(path@),
                up_to_depth as nat,
                diff as nat,
                0,
            ),
        ensures
            final(self).tree() == shrunk(
                old(self).tree(),
                turns_of(path@),
                up_to_depth as nat,
                diff as nat,
                0,
            ),
            final(self).dim == old(self).dim,
            final(self).point_ids == old(self).point_ids,
            final(self).total_nodes == old(self).total_nodes,
            final(self).deleted_count == old(self).deleted_count,
    {
        subtract_sizes(&mut self.root, path, up_to_depth, diff, 0);
    }

    /// Builds the subtree at depth `target_depth` on the way of the path anew, without
    /// its deleted nodes.
    pub(crate) fn rebuild_at_depth(&mut self, path: &[(usize, bool)], target_depth: usize)
        requires
            counted(*old(self)),
            old(self).dim > 0,
            target_depth <= path@.len(),
            leads(old(self).tree(), turns_of(path@), target_depth as nat, 0),
        ensures
            purged(*old(self), *final(self), turns_of(path@), target_depth as nat),
            counted(*final(self)),
            live_set(final(self).tree()) == live_set(old(self).tree()),
            old(self).root is None ==> *final(self) == *old(self),
    {
        if self.root.is_none() {
            proof {
                lemma_live_within(self.tree());
            }
            return;
        }
        let ghost t: Tree = self.tree();
        let ghost turns: Seq<bool> = turns_of(path@);
        let dim: usize = self.dim;
        proof {
            lemma_leads_size(t, turns, target_depth as nat, 0);
        }
        let (old_size, new_size): (usize, usize) = rebuild_below(
            &mut self.root,
            path,
            0,
            target_depth,
            dim,
        );
        let ghost now: Tree = subtree_at(self.tree(), turns, target_depth as nat, 0);
        proof {
            lemma_regraft(t, turns, target_depth as nat, 0, now, dim as nat);
            lemma_counts(t);
            lemma_replaced_way(t, turns, target_depth as nat, 0, now, (old_size - new_size) as nat);
            lemma_shrunk_zero(self.tree(), turns, target_depth as nat, 0);
        }
        if target_depth == 0 {
            self.total_nodes = self.total_nodes - (old_size - new_size);
            self.deleted_count = 0;
        } else if old_size != new_size {
            let size_diff: usize = old_size - new_size;
            self.subtract_size_from_ancestors(path, target_depth, size_diff);
            self.total_nodes = self.total_nodes - size_diff;
            self.deleted_count = self.deleted_count.saturating_sub(size_diff);
        }
        proof {
            lemma_subset_fits(points(self.tree()), points(t), dim as nat);
        }
    }

    /// Builds the topmost unbalanced subtree on the way of the path anew, if there is one.
    pub(crate) fn check_and_rebalance(&mut self, path: &[(usize, bool)])
        requires
            counted(*old(self)),
            old(self).dim > 0,
        ensures
            match first_unbalanced(old(self).tree(), turns_of(path@), 0) {
                None => *final(self) == *old(self),
                Some(d) => purged(*old(self), *final(self), turns_of(path@), d),
            },
            counted(*final(self)),
            live_set(final(self).tree()) == live_set(old(self).tree()),
    {
        let ghost t: Tree = self.tree();
        let ghost turns: Seq<bool> = turns_of(path@);
        let mut unbalanced_depth: Option<usize> = None;
        let mut current: &Option<Box<KDTreeNode>> = &self.root;
        let mut idx: usize = 0;
        loop
            invariant_except_break
                unbalanced_depth is None,
                idx <= path@.len(),
                first_unbalanced(tree_of(*current), turns, idx as nat) == first_unbalanced(
                    t,
                    turns,
                    0,
                ),
            invariant
                turns == turns_of(path@),
            ensures
                first_unbalanced(t, turns, 0) == match unbalanced_depth {
                    None => None::<nat>,
                    Some(d) => Some(d as nat),
                },
            decreases tree_of(*current),
        {
            match current {
                None => {
                    break;
                },
                Some(node) => {
                    if Self::is_unbalanced(node) {
                        unbalanced_depth = Some(idx);
                        break;
                    }
                    if idx == path.len() {
                        break;
                    }
                    current = if path[idx].1 {
                        &node.left
                    } else {
                        &node.right
                    };
                    idx = idx + 1;
                },
            }
        }
        if let Some(target_depth) = unbalanced_depth {
            proof {
                lemma_first_unbalanced(t, turns, 0);
            }
            self.rebuild_at_depth(path, target_depth);
        }
    }
}

/// What inserting a point does to an index.
pub open spec fn added(old: KDTree, new: KDTree, p: Point) -> bool {
    let g: Tree = grown(old.tree(), p, 0, old.dim as nat);
    let turns: Seq<bool> = descent(old.tree(), p, 0, old.dim as nat);
    &&& inserted(old.tree(), new.tree(), p, old.dim as nat)
    &&& new.dim == old.dim
    &&& new.point_ids@ == old.point_ids@.insert(p.id)
    &&& new.total_nodes == size_of(new.tree())
    &&& new.deleted_count == match first_unbalanced(g, turns, 0) {
        None => old.deleted_count as int,
        Some(d) => if d == 0 {
            0
        } else {
            old.deleted_count - (old.total_nodes + 1 - new.total_nodes)
        },
    }
}

/// What deleting a point, of which the index knows the identifier, does to an index:
/// the first node that holds it, of those that were not deleted, is marked, and once more
/// than a quarter of the nodes is deleted, the tree is built anew without them.
pub open spec fn removed(old: KDTree, new: KDTree, id: PointId) -> bool {
    let m: Tree = marked(old.tree(), id);
    &&& new.dim == old.dim
    &&& new.point_ids@ == old.point_ids@.remove(id)
    &&& if over_quarter((old.deleted_count + 1) as nat, old.total_nodes as nat) {
        &&& built(new.tree(), live_set(m), 0, old.dim as nat)
        &&& new.total_nodes == live_set(m).len()
        &&& new.deleted_count == 0
    } else {
        &&& new.tree() == m
        &&& new.total_nodes == old.total_nodes
        &&& new.deleted_count == old.deleted_count + 1
    }
}

/// A new point and the rebuilding that may follow keep what every operation keeps.
pub proof fn lemma_added(old: KDTree, new: KDTree, p: Point)
    requires
        old.wf(),
        p.vector.len() >= old.dim,
        old.dim > 0 || old.tree() is Empty,
        added(old, new, p),
    ensures
        new.wf(),
        new.total_nodes <= old.total_nodes + 1,
        live_set(new.tree()) == live_set(old.tree()).insert(p),
        old.searchable() && has_numbers(p, old.dim as nat) ==> new.searchable(),
{
    let dim: nat = old.dim as nat;
    let t: Tree = old.tree();
    let g: Tree = grown(t, p, 0, dim);
    let turns: Seq<bool> = descent(t, p, 0, dim);
    lemma_grown(t, p, 0, dim);
    assert(all_fit(points(g), dim)) by {
        assert forall|x: Point| #[trigger] points(g).contains(x) implies x.vector.len() >= dim by {
            assert(points(t).contains(x) || x == p);
        }
    }
    if old.searchable() && has_numbers(p, dim) {
        assert forall|x: Point, a: nat|
            #![trigger points(g).contains(x), coordinate(x, a)]
            points(g).contains(x) && a < dim implies !coordinate(x, a).nan() by {
            assert(points(t).contains(x) || x == p);
        }
        if dim > 0 {
            lemma_grown_ordered(t, p, 0, dim);
        } else {
            assert(ordered(Tree::Empty, 1, dim));
            assert(ordered(g, 0, dim));
        }
    }
    if let Some(d) = first_unbalanced(g, turns, 0) {
        let was: Tree = subtree_at(g, turns, d, 0);
        let now: Tree = subtree_at(new.tree(), turns, d, 0);
        lemma_first_unbalanced(g, turns, 0);
        lemma_leads_size(g, turns, d, 0);
        lemma_live_within(was);
        lemma_regraft(g, turns, d, 0, now, dim);
        lemma_subset_fits(points(new.tree()), points(g), dim);
        lemma_subset_fits(points(was), points(g), dim);
        lemma_subset_fits(live_set(was), points(was), dim);
        lemma_counts(new.tree());
        assert(live_set(new.tree()).len() > 0) by {
            assert(live_set(new.tree()).contains(p));
        }
        if dim == 0 {
            lemma_nothing_within(1);
            assert(false);
        }
    }
    assert forall|id: PointId| #[trigger] new.point_ids@.contains(id) implies holds_live(
        new.tree(),
        id,
    ) by {
        lemma_holds_live(t, id);
        lemma_holds_live(new.tree(), id);
        if id == p.id {
            assert(live_set(new.tree()).contains(p));
        } else {
            let x: Point = choose|x: Point| #[trigger] live_set(t).contains(x) && x.id == id;
            assert(live_set(new.tree()).contains(x));
        }
    }
}

/// A deletion and the rebuilding that may follow keep what every operation keeps.
pub proof fn lemma_removed(old: KDTree, new: KDTree, id: PointId)
    requires
        old.wf(),
        old.point_ids@.contains(id),
        removed(old, new, id),
    ensures
        new.wf(),
        new.total_nodes <= old.total_nodes,
        live_set(new.tree()) == live_set(old.tree()).remove(first_holder(old.tree(), id)),
        old.searchable() ==> new.searchable(),
{
    let dim: nat = old.dim as nat;
    let m: Tree = marked(old.tree(), id);
    lemma_marked(old.tree(), id);
    if old.searchable() {
        lemma_marked_ordered(old.tree(), id, 0, dim);
    }
    lemma_counts(m);
    lemma_live_within(m);
    lemma_subset_fits(live_set(m), points(m), dim);
    lemma_counts(new.tree());
    lemma_live_within(new.tree());
    if !over_quarter((old.deleted_count + 1) as nat, old.total_nodes as nat) {
        lemma_within_quarter(new.deleted_count as nat, new.total_nodes as nat);
    }
    assert forall|other: PointId| #[trigger] new.point_ids@.contains(other) implies holds_live(
        new.tree(),
        other,
    ) by {
        assert(old.point_ids@.contains(other) && other != id);
        assert(holds_live(m, other) == holds_live(old.tree(), other));
        lemma_holds_live(m, other);
        lemma_holds_live(new.tree(), other);
    }
}

impl KDTree {
    /// Adds a point, and builds the topmost subtree that it leaves unbalanced anew.
    pub fn insert_point(&mut self, new_vector: IndexedVector)
        requires
            old(self).wf(),
            new_vector@.vector.len() >= old(self).dim,
            old(self).dim > 0 || old(self).tree() is Empty,
            old(self).total_nodes < usize::MAX,
        ensures
            added(*old(self), *final(self), new_vector@),
            final(self).wf(),
            final(self).dim == old(self).dim,
            final(self).point_ids@ == old(self).point_ids@.insert(new_vector.id),
            remaining(final(self).root) == remaining(old(self).root).insert(
                (Point { id: new_vector.id, vector: new_vector.vector@ }),
            ),
            final(self).total_nodes <= old(self).total_nodes + 1,
            live_set(final(self).tree()) == live_set(old(self).tree()).insert(new_vector@),
            old(self).searchable() && has_numbers(new_vector@, old(self).dim as nat)
                ==> final(self).searchable(),
    {
        broadcast use vstd::std_specs::hash::group_hash_axioms;

        let ghost start: KDTree = *self;
        let ghost p: Point = new_vector@;
        let ghost g: Tree = grown(start.tree(), p, 0, start.dim as nat);
        let dim: usize = self.dim;
        proof {
            lemma_grown(start.tree(), p, 0, dim as nat);
            lemma_nothing_within(1);
        }
        self.point_ids.insert(new_vector.id);
        self.total_nodes = self.total_nodes + 1;
        let fresh: bool = self.root.is_none();
        let mut path: Vec<(usize, bool)> = Vec::new();
        add_leaf(&mut self.root, new_vector, 0, dim, &mut path);
        proof {
            assert(turns_of(path@) =~= descent(start.tree(), p, 0, dim as nat));
            assert forall|x: Point| #[trigger] points(g).contains(x) implies x.vector.len()
                >= dim by {
                assert(points(start.tree()).contains(x) || x == p);
            }
        }
        if !fresh {
            self.check_and_rebalance(path.as_slice());
        }
        proof {
            lemma_added(start, *self, p);
            lemma_stored(start.root);
            lemma_stored(self.root);
        }
    }

    /// Whether more than a quarter of the nodes is deleted.
    fn should_rebuild_global(&self) -> (b: bool)
        ensures
            b == (self.total_nodes > 0 && over_quarter(
                self.deleted_count as nat,
                self.total_nodes as nat,
            )),
            self.total_nodes < 0x100_0000 ==> b == (self.total_nodes > 0 && 4 * self.deleted_count
                > self.total_nodes),
    {
        self.total_nodes > 0 && exceeds_quarter(self.deleted_count, self.total_nodes)
    }

    /// Marks the first node that holds the identifier, of those that were not deleted, as
    /// deleted; false where there is none.
    pub(crate) fn find_and_mark_deleted(
        node_opt: &mut Option<Box<KDTreeNode>>,
        target_id: PointId,
    ) -> (found: bool)
        ensures
            found == holds_live(tree_of(*old(node_opt)), target_id),
            found ==> tree_of(*final(node_opt)) == marked(tree_of(*old(node_opt)), target_id),
            !found ==> tree_of(*final(node_opt)) == tree_of(*old(node_opt)),
        decreases tree_of(*old(node_opt)),
    {
        match node_opt {
            None => false,
            Some(node) => {
                if node.indexed_vector.id == target_id && !node.is_deleted {
                    node.is_deleted = true;
                    return true;
                }
                // Left before right.
                if Self::find_and_mark_deleted(&mut node.left, target_id) {
                    return true;
                }
                Self::find_and_mark_deleted(&mut node.right, target_id)
            },
        }
    }

    /// Deletes a point. Returns true where a point with the identifier was found and
    /// deleted, else false.
    pub fn delete_point(&mut self, point_id: &PointId) -> (found: bool)
        requires
            old(self).wf(),
        ensures
            found == old(self).point_ids@.contains(*point_id),
            !found ==> *final(self) == *old(self),
            found ==> removed(*old(self), *final(self), *point_id),
            final(self).dim == old(self).dim,
            final(self).point_ids@ == old(self).point_ids@.remove(*point_id),
            found && old(self).total_nodes < 0x100_0000 ==> {
                let kept: bool = 4 * (old(self).deleted_count + 1) <= old(self).total_nodes;
                &&& kept ==> final(self).total_nodes == old(self).total_nodes
                &&& kept ==> final(self).deleted_count == old(self).deleted_count + 1
                &&& !kept ==> final(self).total_nodes == old(self).total_nodes
                    - old(self).deleted_count - 1
                &&& !kept ==> final(self).deleted_count == 0
            },
            found ==> remaining(final(self).root).len() + 1 == remaining(old(self).root).len(),
            found ==> live_set(final(self).tree()) == live_set(old(self).tree()).remove(
                first_holder(old(self).tree(), *point_id),
            ),
            !final(self).point_ids@.contains(*point_id),
            final(self).wf(),
            final(self).total_nodes <= old(self).total_nodes,
            old(self).searchable() ==> final(self).searchable(),
    {
        broadcast use vstd::std_specs::hash::group_hash_axioms;

        let ghost start: KDTree = *self;
        if !self.point_ids.contains(point_id) {
            assert(self.point_ids@ =~= self.point_ids@.remove(*point_id));
            return false;
        }
        proof {
            lemma_marked(start.tree(), *point_id);
            lemma_counts(marked(start.tree(), *point_id));
        }
        let deleted: bool = Self::find_and_mark_deleted(&mut self.root, *point_id);
        if deleted {
            self.deleted_count = self.deleted_count + 1;
            self.point_ids.remove(point_id);
        }
        if self.should_rebuild_global() {
            let (_, live_nodes): (usize, usize) = rebuild_link(&mut self.root, 0, self.dim);
            proof {
                lemma_counts(self.tree());
            }
            self.total_nodes = live_nodes;
            self.deleted_count = 0;
        }
        proof {
            lemma_removed(start, *self, *point_id);
            lemma_counts(start.tree());
            lemma_stored(start.root);
            lemma_stored(self.root);
            assert(start.total_nodes > 0);
            if start.total_nodes < 0x100_0000 {
                law_quarter_of_counts((start.deleted_count + 1) as nat, start.total_nodes as nat);
            }
        }
        deleted
    }

    /// Adds a point.
    pub fn insert(&mut self, vector: IndexedVector) -> (result: Result<(), DbError>)
        requires
            old(self).wf(),
            vector@.vector.len() >= old(self).dim,
            old(self).dim > 0 || old(self).tree() is Empty,
            old(self).total_nodes < usize::MAX,
        ensures
            result is Ok,
            added(*old(self), *final(self), vector@),
            final(self).wf(),
            final(self).dim == old(self).dim,
            final(self).point_ids@ == old(self).point_ids@.insert(vector.id),
            remaining(final(self).root) == remaining(old(self).root).insert(
                (Point { id: vector.id, vector: vector.vector@ }),
            ),
            final(self).total_nodes <= old(self).total_nodes + 1,
            live_set(final(self).tree()) == live_set(old(self).tree()).insert(vector@),
            old(self).searchable() && has_numbers(vector@, old(self).dim as nat)
                ==> final(self).searchable(),
    {
        self.insert_point(vector);
        Ok(())
    }

    /// Deletes a point. Returns `Ok(true)` where a point with the identifier was found and
    /// deleted, else `Ok(false)`.
    pub fn delete(&mut self, point_id: PointId) -> (result: Result<bool, DbError>)
        requires
            old(self).wf(),
        ensures
            result == Ok::<bool, DbError>(old(self).point_ids@.contains(point_id)),
            !old(self).point_ids@.contains(point_id) ==> *final(self) == *old(self),
            old(self).point_ids@.contains(point_id) ==> removed(
                *old(self),
                *final(self),
                point_id,
            ),
            final(self).dim == old(self).dim,
            final(self).point_ids@ == old(self).point_ids@.remove(point_id),
            old(self).point_ids@.contains(point_id) && old(self).total_nodes < 0x100_0000 ==> {
                let kept: bool = 4 * (old(self).deleted_count + 1) <= old(self).total_nodes;
                &&& kept ==> final(self).total_nodes == old(self).total_nodes
                &&& kept ==> final(self).deleted_count == old(self).deleted_count + 1
                &&& !kept ==> final(self).total_nodes == old(self).total_nodes
                    - old(self).deleted_count - 1
                &&& !kept ==> final(self).deleted_count == 0
            },
            old(self).point_ids@.contains(point_id) ==> remaining(final(self).root).len() + 1
                == remaining(old(self).root).len(),
            old(self).point_ids@.contains(point_id) ==> live_set(final(self).tree()) == live_set(
                old(self).tree(),
            ).remove(first_holder(old(self).tree(), point_id)),
            !final(self).point_ids@.contains(point_id),
            final(self).wf(),
            final(self).total_nodes <= old(self).total_nodes,
            old(self).searchable() ==> final(self).searchable(),
    {
        Ok(self.delete_point(&point_id))
    }
}

} // verus!
