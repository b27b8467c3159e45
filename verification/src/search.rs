//! Searching the index for the points nearest to a query.
//!
//! How far two vectors are apart is for the caller to say: a search takes the measure
//! as a function, and its contract speaks of what that function returned.
use crate::kd_tree::{tree_of, KDTree, KDTreeNode};
use crate::model::{
    all_fit, axis_at, child, lemma_counts, lemma_live_set, live_set, points, size_of, sized, Tree,
};
use crate::neighbors::{all_measured, ascending, placed, Neighbor, Neighbors};
use crate::paths::{lemma_stored, remaining};
use crate::point::{DbError, DenseVector, Point, PointId, Similarity};
use crate::select::coordinate;
use crate::single::{gap, Single};
use vstd::multiset::Multiset;
use vstd::prelude::*;

verus! {

/// What a search is asked for: at most `k` points near a vector, by a measure.
pub struct Query<D: Fn(&DenseVector, &DenseVector, Similarity) -> Single> {
    pub vector: DenseVector,
    pub k: nat,
    pub similarity: Similarity,
    pub distance: D,
}

/// A query, put together from the arguments of a search.
pub open spec fn query<D: Fn(&DenseVector, &DenseVector, Similarity) -> Single>(
    vector: DenseVector,
    k: usize,
    similarity: Similarity,
    distance: D,
) -> Query<D> {
    Query { vector, k: k as nat, similarity, distance }
}

impl<D: Fn(&DenseVector, &DenseVector, Similarity) -> Single> Query<D> {
    /// The same query for at most `k` points.
    pub open spec fn for_at_most(self, k: nat) -> Query<D> {
        Query { vector: self.vector, k, similarity: self.similarity, distance: self.distance }
    }

    /// `r` is a distance that the measure may return for a stored vector.
    pub open spec fn outcome(self, v: Seq<Single>, r: Single) -> bool {
        exists|w: DenseVector|
            w@ == v && #[trigger] call_ensures(
                self.distance,
                (&self.vector, &w, self.similarity),
                r,
            )
    }

    /// The measure can be called on each of the points.
    pub open spec fn can_measure(self, ps: Multiset<Point>) -> bool {
        forall|w: DenseVector, p: Point|
            #![trigger
                ps.contains(p),
                call_requires(self.distance, (&self.vector, &w, self.similarity))
            ]
            ps.contains(p) && p.vector == w@ ==> call_requires(
                self.distance,
                (&self.vector, &w, self.similarity),
            )
    }

    /// Every distance to one of the points is a number.
    pub open spec fn numeric(self, ps: Multiset<Point>) -> bool {
        forall|p: Point, r: Single|
            #![trigger ps.contains(p), self.outcome(p.vector, r)]
            ps.contains(p) && self.outcome(p.vector, r) ==> !r.nan()
    }

    /// The neighbors are these points, each with a distance that the measure returned.
    pub open spec fn stand_for(self, items: Seq<Neighbor>, chosen: Seq<Point>) -> bool {
        &&& items.len() == chosen.len()
        &&& forall|i: int|
            0 <= i < items.len() ==> (#[trigger] items[i]).id == chosen[i].id && self.outcome(
                chosen[i].vector,
                items[i].distance,
            )
    }

    /// The point lies in a subtree that is on the other side of a splitting plane than
    /// the query, and the plane is not nearer to the query than `bound`.
    pub open spec fn behind_plane(
        self,
        t: Tree,
        depth: nat,
        dim: nat,
        p: Point,
        bound: Single,
    ) -> bool
        decreases t,
    {
        match t {
            Tree::Empty => false,
            Tree::Node { point, left, right, .. } => {
                let axis: nat = axis_at(depth, dim);
                let here: Single = self.vector@[axis as int];
                let split: Single = coordinate(point, axis);
                let far: Tree = if here.at_most(split) {
                    *right
                } else {
                    *left
                };
                ||| live_set(far).contains(p) && !gap(here, split).less(bound)
                ||| self.behind_plane(*left, depth + 1, dim, p, bound)
                ||| self.behind_plane(*right, depth + 1, dim, p, bound)
            },
        }
    }

    /// Why a point is not among the nearest ones when the farthest of those is at
    /// `bound`: it was not measured to be nearer, or was left out behind a plane.
    pub open spec fn passed_over(
        self,
        t: Tree,
        depth: nat,
        dim: nat,
        p: Point,
        bound: Single,
    ) -> bool {
        ||| exists|r: Single| #[trigger] self.outcome(p.vector, r) && !r.less(bound)
        ||| self.similarity.bounded_by_axis() && self.behind_plane(t, depth, dim, p, bound)
    }

    /// What a search step makes of the points chosen before: as many as fit, from those
    /// and the added ones, and for each of the others the reason, in terms of the tree
    /// `t` at `depth`.
    pub open spec fn advanced(
        self,
        t: Tree,
        depth: nat,
        dim: nat,
        added: Multiset<Point>,
        before: Seq<Neighbor>,
        chosen_before: Seq<Point>,
        after: Seq<Neighbor>,
        chosen: Seq<Point>,
    ) -> bool {
        let offered: Multiset<Point> = chosen_before.to_multiset().add(added);
        &&& self.stand_for(after, chosen)
        &&& chosen.to_multiset().subset_of(offered)
        &&& after.len() == smaller(self.k, before.len() + added.len())
        &&& self.numeric(offered) ==> {
            &&& before.len() == self.k ==> after.last().distance.at_most(before.last().distance)
            &&& forall|p: Point| #[trigger]
                offered.count(p) > chosen.to_multiset().count(p) ==> after.len() == self.k
                    && self.passed_over(t, depth, dim, p, after.last().distance)
        }
    }

    /// `items` is an answer: the points in `chosen`, none of them deleted, as many as there
    /// are but at most `k`, each with a distance that the measure returned. Where every
    /// distance is a number, they come nearest first, and every other point was passed
    /// over for a reason.
    pub open spec fn answers(
        self,
        t: Tree,
        dim: nat,
        items: Seq<Neighbor>,
        chosen: Seq<Point>,
    ) -> bool {
        &&& self.stand_for(items, chosen)
        &&& chosen.to_multiset().subset_of(live_set(t))
        &&& items.len() == smaller(self.k, live_set(t).len())
        &&& self.numeric(live_set(t)) ==> {
            &&& ascending(items)
            &&& self.k > 0 ==> forall|p: Point| #[trigger]
                live_set(t).count(p) > chosen.to_multiset().count(p) ==> self.passed_over(
                    t,
                    0,
                    dim,
                    p,
                    items.last().distance,
                )
        }
    }

    /// Some points make up the answer.
    pub open spec fn answered(self, index: KDTree, items: Seq<Neighbor>) -> bool {
        exists|chosen: Seq<Point>| #[trigger]
            self.answers(index.tree(), index.dim as nat, items, chosen)
    }

    /// What an answer says of the pairs that it was read off.
    proof fn lemma_pairs(self, index: KDTree, pairs: Seq<(PointId, Single)>)
        requires
            self.answered(index, neighbors_of(pairs)),
        ensures
            pairs.len() == if self.k <= remaining(index.root).len() {
                self.k
            } else {
                remaining(index.root).len()
            },
            exists|chosen: Seq<Point>|
                {
                    &&& (#[trigger] chosen.to_multiset()).subset_of(remaining(index.root))
                    &&& chosen.len() == pairs.len()
                    &&& forall|i: int|
                        0 <= i < pairs.len() ==> (#[trigger] pairs[i]).0 == chosen[i].id
                            && self.outcome(chosen[i].vector, pairs[i].1)
                },
    {
        let items: Seq<Neighbor> = neighbors_of(pairs);
        let chosen: Seq<Point> = choose|c: Seq<Point>| #[trigger]
            self.answers(index.tree(), index.dim as nat, items, c);
        lemma_stored(index.root);
        assert(chosen.to_multiset().subset_of(remaining(index.root)));
        assert forall|i: int| 0 <= i < pairs.len() implies (#[trigger] pairs[i]).0 == chosen[i].id
            && self.outcome(chosen[i].vector, pairs[i].1) by {
            assert(items[i].id == pairs[i].0 && items[i].distance == pairs[i].1);
            assert(self.outcome(chosen[i].vector, items[i].distance));
        }
    }

    /// A lower bound lets no more points through.
    proof fn lemma_behind_plane_bound(
        self,
        t: Tree,
        depth: nat,
        dim: nat,
        p: Point,
        b0: Single,
        b1: Single,
    )
        requires
            b1.at_most(b0),
            self.behind_plane(t, depth, dim, p, b0),
        ensures
            self.behind_plane(t, depth, dim, p, b1),
        decreases t,
    {
        if let Tree::Node { left, right, .. } = t {
            if self.behind_plane(*left, depth + 1, dim, p, b0) {
                self.lemma_behind_plane_bound(*left, depth + 1, dim, p, b0, b1);
            }
            if self.behind_plane(*right, depth + 1, dim, p, b0) {
                self.lemma_behind_plane_bound(*right, depth + 1, dim, p, b0, b1);
            }
        }
    }

    /// A lower bound leaves the reason why a point was passed over.
    proof fn lemma_passed_over_bound(
        self,
        t: Tree,
        depth: nat,
        dim: nat,
        p: Point,
        b0: Single,
        b1: Single,
    )
        requires
            b1.at_most(b0),
            self.passed_over(t, depth, dim, p, b0),
        ensures
            self.passed_over(t, depth, dim, p, b1),
    {
        if self.similarity.bounded_by_axis() && self.behind_plane(t, depth, dim, p, b0) {
            self.lemma_behind_plane_bound(t, depth, dim, p, b0, b1);
        } else {
            let r: Single = choose|r: Single| #[trigger]
                self.outcome(p.vector, r) && !r.less(b0);
            assert(self.outcome(p.vector, r) && !r.less(b1));
        }
    }

    proof fn lemma_numeric_subset(self, a: Multiset<Point>, b: Multiset<Point>)
        requires
            a.subset_of(b),
            self.numeric(b),
        ensures
            self.numeric(a),
    {
        assert forall|p: Point| #[trigger] a.contains(p) implies b.contains(p) by {}
    }

    /// The neighbors of points whose distances are numbers have such distances.
    proof fn lemma_measured(self, items: Seq<Neighbor>, chosen: Seq<Point>, ps: Multiset<Point>)
        requires
            self.stand_for(items, chosen),
            chosen.to_multiset().subset_of(ps),
            self.numeric(ps),
        ensures
            all_measured(items),
    {
        assert forall|i: int| 0 <= i < items.len() implies !(
        #[trigger] items[i]).distance.nan() by {
            let p: Point = chosen[i];
            assert(chosen.contains(p));
            vstd::seq_lib::to_multiset_contains(chosen, p);
            assert(ps.contains(p));
            assert(self.outcome(p.vector, items[i].distance));
        }
    }

    /// Two steps in a row are one.
    proof fn lemma_two_steps(
        self,
        t: Tree,
        depth: nat,
        dim: nat,
        a: Multiset<Point>,
        b: Multiset<Point>,
        i0: Seq<Neighbor>,
        c0: Seq<Point>,
        i1: Seq<Neighbor>,
        c1: Seq<Point>,
        i2: Seq<Neighbor>,
        c2: Seq<Point>,
    )
        requires
            self.advanced(t, depth, dim, a, i0, c0, i1, c1),
            self.advanced(t, depth, dim, b, i1, c1, i2, c2),
            i0.len() <= self.k,
        ensures
            self.advanced(t, depth, dim, a.add(b), i0, c0, i2, c2),
    {
        let m0: Multiset<Point> = c0.to_multiset();
        let m1: Multiset<Point> = c1.to_multiset();
        let m2: Multiset<Point> = c2.to_multiset();
        let all: Multiset<Point> = m0.add(a.add(b));
        assert(m2.subset_of(all)) by {
            assert forall|p: Point| m2.count(p) <= all.count(p) by {
                assert(m1.count(p) <= m0.add(a).count(p));
                assert(m2.count(p) <= m1.add(b).count(p));
            }
        }
        if self.numeric(all) {
            assert(m0.add(a).subset_of(all));
            assert(m1.add(b).subset_of(all)) by {
                assert forall|p: Point| m1.add(b).count(p) <= all.count(p) by {
                    assert(m1.count(p) <= m0.add(a).count(p));
                }
            }
            self.lemma_numeric_subset(m0.add(a), all);
            self.lemma_numeric_subset(m1.add(b), all);
            let b1: Single = i1.last().distance;
            let b2: Single = i2.last().distance;
            assert forall|p: Point| #[trigger] all.count(p) > m2.count(p) implies i2.len()
                == self.k && self.passed_over(t, depth, dim, p, b2) by {
                if m0.add(a).count(p) > m1.count(p) {
                    self.lemma_passed_over_bound(t, depth, dim, p, b1, b2);
                } else {
                    assert(m1.add(b).count(p) > m2.count(p));
                }
            }
        }
    }

    /// A step through a child is a step in terms of its parent.
    proof fn lemma_step_in_parent(
        self,
        t: Tree,
        go_left: bool,
        depth: nat,
        dim: nat,
        added: Multiset<Point>,
        i0: Seq<Neighbor>,
        c0: Seq<Point>,
        i1: Seq<Neighbor>,
        c1: Seq<Point>,
    )
        requires
            t is Node,
            self.advanced(child(t, go_left), depth + 1, dim, added, i0, c0, i1, c1),
        ensures
            self.advanced(t, depth, dim, added, i0, c0, i1, c1),
    {
    }

    /// Adding points that are all passed over is a step, and so is adding none.
    proof fn lemma_left_out(
        self,
        t: Tree,
        depth: nat,
        dim: nat,
        added: Multiset<Point>,
        items: Seq<Neighbor>,
        chosen: Seq<Point>,
    )
        requires
            self.stand_for(items, chosen),
            self.k > 0,
            items.len() <= self.k,
            added.len() > 0 ==> items.len() == self.k,
            forall|p: Point| #[trigger]
                added.contains(p) ==> self.passed_over(t, depth, dim, p, items.last().distance),
        ensures
            self.advanced(t, depth, dim, added, items, chosen, items, chosen),
    {
        let offered: Multiset<Point> = chosen.to_multiset().add(added);
        if self.numeric(offered) {
            self.lemma_measured(items, chosen, offered);
            assert forall|p: Point| #[trigger]
                offered.count(p) > chosen.to_multiset().count(p) implies items.len() == self.k
                && self.passed_over(t, depth, dim, p, items.last().distance) by {
                assert(added.contains(p));
                assert(added.count(p) <= added.len());
            }
        }
    }

    /// Offering one point is a step.
    proof fn lemma_offered(
        self,
        t: Tree,
        depth: nat,
        dim: nat,
        p: Point,
        n: Neighbor,
        before: Neighbors,
        chosen: Seq<Point>,
        after: Neighbors,
        pos: Option<usize>,
    )
        requires
            self.k > 0,
            before.wf(),
            after.wf(),
            before.items@.len() <= self.k,
            self.stand_for(before.items@, chosen),
            n.id == p.id,
            self.outcome(p.vector, n.distance),
            pos is None ==> before.items@.len() == self.k && !n.distance.less(
                before.items@.last().distance,
            ) && after.items@ == before.items@,
            pos is Some && before.items@.len() < self.k ==> placed(
                before.items@,
                after.items@,
                pos->0 as int,
                n,
            ),
            pos is Some && before.items@.len() == self.k ==> n.distance.less(
                before.items@.last().distance,
            ) && placed(before.items@.drop_last(), after.items@, pos->0 as int, n),
        ensures
            self.advanced(
                t,
                depth,
                dim,
                Multiset::singleton(p),
                before.items@,
                chosen,
                after.items@,
                chosen_after(chosen, self.k, pos, p),
            ),
    {
        broadcast use vstd::seq_lib::group_to_multiset_ensures;

        let i0: Seq<Neighbor> = before.items@;
        let i1: Seq<Neighbor> = after.items@;
        let c1: Seq<Point> = chosen_after(chosen, self.k, pos, p);
        let offered: Multiset<Point> = chosen.to_multiset().add(Multiset::singleton(p));
        let bound: Single = i1.last().distance;
        match pos {
            None => {
                if self.numeric(offered) {
                    self.lemma_measured(i0, chosen, offered);
                    assert forall|x: Point| #[trigger]
                        offered.count(x) > c1.to_multiset().count(x) implies i1.len() == self.k
                        && self.passed_over(t, depth, dim, x, bound) by {
                        assert(x == p);
                    }
                }
            },
            Some(at) => {
                let rest: Seq<Point> = if chosen.len() < self.k {
                    chosen
                } else {
                    chosen.drop_last()
                };
                let kept: Seq<Neighbor> = if chosen.len() < self.k {
                    i0
                } else {
                    i0.drop_last()
                };
                assert(i1 == kept.insert(at as int, n));
                assert(c1 == rest.insert(at as int, p));
                assert forall|i: int| 0 <= i < i1.len() implies (#[trigger] i1[i]).id == c1[i].id
                    && self.outcome(c1[i].vector, i1[i].distance) by {
                    if i < at {
                        assert(i1[i] == i0[i] && c1[i] == chosen[i]);
                    } else if i > at {
                        assert(i1[i] == i0[i - 1] && c1[i] == chosen[i - 1]);
                    }
                }
                if chosen.len() < self.k {
                    assert(c1.to_multiset() =~= offered);
                } else {
                    let x0: Point = chosen.last();
                    assert(chosen =~= rest.push(x0));
                    assert(chosen.to_multiset() =~= rest.to_multiset().insert(x0));
                    assert(c1.to_multiset() =~= rest.to_multiset().insert(p));
                    if self.numeric(offered) {
                        self.lemma_measured(i0, chosen, offered);
                        let far: Single = i0.last().distance;
                        assert(bound.at_most(far)) by {
                            let j: int = i1.len() - 1;
                            if j == at {
                                assert(i1[j] == n);
                            } else {
                                assert(i1[j] == i0[j - 1]);
                                assert(i0[j - 1].distance.at_most(i0[i0.len() - 1].distance));
                            }
                        }
                        assert forall|x: Point| #[trigger]
                            offered.count(x) > c1.to_multiset().count(x) implies i1.len() == self.k
                            && self.passed_over(t, depth, dim, x, bound) by {
                            assert(x == x0);
                            assert(i0[i0.len() - 1].distance == far);
                            assert(self.outcome(x0.vector, far));
                        }
                    }
                }
            },
        }
    }
}

/// The smaller one of two numbers.
pub open spec fn smaller(a: nat, b: nat) -> nat {
    if a <= b {
        a
    } else {
        b
    }
}

/// The points chosen after a neighbor was offered.
spec fn chosen_after(chosen: Seq<Point>, k: nat, pos: Option<usize>, p: Point) -> Seq<Point> {
    match pos {
        None => chosen,
        Some(i) => if chosen.len() < k {
            chosen.insert(i as int, p)
        } else {
            chosen.drop_last().insert(i as int, p)
        },
    }
}

/// The neighbors that a list of identifiers and distances stands for.
pub open spec fn neighbors_of(pairs: Seq<(PointId, Single)>) -> Seq<Neighbor> {
    Seq::new(pairs.len(), |i: int| Neighbor { id: pairs[i].0, distance: pairs[i].1 })
}

/// The identifiers of neighbors.
pub open spec fn ids_in(items: Seq<Neighbor>) -> Seq<PointId> {
    Seq::new(items.len(), |i: int| items[i].id)
}

impl KDTree {
    /// The `k` points nearest to the query, with their distances, the nearest first.
    pub fn search_top_k<D: Fn(&DenseVector, &DenseVector, Similarity) -> Single>(
        &self,
        query_vector: DenseVector,
        k: usize,
        dist_type: Similarity,
        distance: &D,
    ) -> (found: Vec<(PointId, Single)>)
        requires
            self.wf(),
            self.tree() is Node && k > 0 ==> self.dim > 0 && query_vector@.len() >= self.dim,
            query(query_vector, k, dist_type, *distance).can_measure(live_set(self.tree())),
        ensures
            query(query_vector, k, dist_type, *distance).answered(*self, neighbors_of(found@)),
            found@.len() == if k <= remaining(self.root).len() {
                k as nat
            } else {
                remaining(self.root).len()
            },
            exists|chosen: Seq<Point>|
                {
                    &&& (#[trigger] chosen.to_multiset()).subset_of(remaining(self.root))
                    &&& chosen.len() == found@.len()
                    &&& forall|i: int|
                        0 <= i < found@.len() ==> (#[trigger] found@[i]).0 == chosen[i].id
                            && query(query_vector, k, dist_type, *distance).outcome(
                            chosen[i].vector,
                            found@[i].1,
                        )
                },
    {
        let ghost t: Tree = self.tree();
        let ghost q: Query<D> = query(query_vector, k, dist_type, *distance);
        let mut best_neighbours: Neighbors = Neighbors::new();
        let ghost none: Seq<Point> = Seq::empty();
        let ghost mut chosen: Seq<Point> = none;
        proof {
            vstd::seq_lib::to_multiset_len(none);
            assert(none.to_multiset() =~= Multiset::empty());
            assert(none.to_multiset().add(live_set(t)) =~= live_set(t));
            lemma_live_set(t);
            lemma_counts(t);
        }
        if self.root.is_some() && k > 0 {
            let Ghost(c): Ghost<Seq<Point>> = self.search_recursive(
                &self.root,
                &query_vector,
                k,
                &mut best_neighbours,
                0,
                dist_type,
                distance,
                Ghost(none),
            );
            proof {
                chosen = c;
            }
        }
        proof {
            if q.numeric(live_set(t)) {
                q.lemma_measured(best_neighbours.items@, chosen, live_set(t));
            }
            assert(q.answers(t, self.dim as nat, best_neighbours.items@, chosen));
        }
        let mut found: Vec<(PointId, Single)> = Vec::new();
        let mut i: usize = 0;
        while i < best_neighbours.items.len()
            invariant
                i <= best_neighbours.items@.len(),
                neighbors_of(found@) == best_neighbours.items@.take(i as int),
            decreases best_neighbours.items@.len() - i,
        {
            let n: Neighbor = best_neighbours.items[i];
            let ghost shorter: Seq<Neighbor> = neighbors_of(found@);
            found.push((n.id, n.distance));
            assert(neighbors_of(found@) =~= shorter.push(n));
            assert(best_neighbours.items@.take(i + 1) =~= shorter.push(n));
            i = i + 1;
        }
        assert(best_neighbours.items@.take(i as int) =~= best_neighbours.items@);
        proof {
            q.lemma_pairs(*self, found@);
        }
        found
    }

    /// Goes through the tree below a link, the side of the query first, and leaves the
    /// other side out where its points cannot be near enough. Below an empty link there is
    /// nothing to do.
    fn search_recursive<D: Fn(&DenseVector, &DenseVector, Similarity) -> Single>(
        &self,
        node_opt: &Option<Box<KDTreeNode>>,
        query_vector: &DenseVector,
        k: usize,
        heap: &mut Neighbors,
        depth: usize,
        dist_type: Similarity,
        distance: &D,
        Ghost(chosen): Ghost<Seq<Point>>,
    ) -> (picked: Ghost<Seq<Point>>)
        requires
            *node_opt is Some ==> {
                &&& k > 0
                &&& self.dim > 0
                &&& query_vector@.len() >= self.dim
                &&& sized(tree_of(*node_opt))
                &&& all_fit(points(tree_of(*node_opt)), self.dim as nat)
                &&& depth + size_of(tree_of(*node_opt)) <= usize::MAX
                &&& query(*query_vector, k, dist_type, *distance).can_measure(
                    live_set(tree_of(*node_opt)),
                )
                &&& old(heap).wf()
                &&& old(heap).items@.len() <= k
                &&& query(*query_vector, k, dist_type, *distance).stand_for(
                    old(heap).items@,
                    chosen,
                )
            },
        ensures
            *node_opt is None ==> final(heap).items@ == old(heap).items@ && picked@ == chosen,
            old(heap).wf() ==> final(heap).wf(),
            k > 0 && old(heap).items@.len() <= k && query(
                *query_vector,
                k,
                dist_type,
                *distance,
            ).stand_for(old(heap).items@, chosen) ==> query(
                *query_vector,
                k,
                dist_type,
                *distance,
            ).advanced(
                tree_of(*node_opt),
                depth as nat,
                self.dim as nat,
                live_set(tree_of(*node_opt)),
                old(heap).items@,
                chosen,
                final(heap).items@,
                picked@,
            ),
        decreases tree_of(*node_opt),
    {
        let ghost t: Tree = tree_of(*node_opt);
        let ghost at: nat = depth as nat;
        let ghost dim: nat = self.dim as nat;
        let ghost q: Query<D> = query(*query_vector, k, dist_type, *distance);
        let ghost i0: Seq<Neighbor> = heap.items@;
        match node_opt {
            None => {
                proof {
                    lemma_live_set(t);
                    if k > 0 && i0.len() <= k && q.stand_for(i0, chosen) {
                        q.lemma_left_out(t, at, dim, live_set(t), i0, chosen);
                    }
                }
                Ghost(chosen)
            },
            Some(node) => {
                let axis: usize = depth % self.dim;
                proof {
                    lemma_live_set(t);
                    assert(points(t).contains(t->point));
                    assert forall|p: Point| #[trigger] points(*t->left).contains(p) implies points(
                        t,
                    ).contains(p) by {}
                    assert forall|p: Point| #[trigger] points(*t->right).contains(p) implies points(
                        t,
                    ).contains(p) by {}
                    assert forall|p: Point| #[trigger]
                        live_set(*t->left).contains(p) implies live_set(t).contains(p) by {}
                    assert forall|p: Point| #[trigger]
                        live_set(*t->right).contains(p) implies live_set(t).contains(p) by {}
                }
                let here: Single = query_vector[axis];
                let split: Single = node.indexed_vector.vector[axis];
                let near_is_left: bool = here.le(split);
                let (near_side, far_side): (&Option<Box<KDTreeNode>>, &Option<Box<KDTreeNode>>) =
                    if near_is_left {
                    (&node.left, &node.right)
                } else {
                    (&node.right, &node.left)
                };
                let ghost near: Multiset<Point> = live_set(child(t, near_is_left));
                let ghost far: Multiset<Point> = live_set(child(t, !near_is_left));
                let Ghost(c1): Ghost<Seq<Point>> = self.search_recursive(
                    near_side,
                    query_vector,
                    k,
                    heap,
                    depth + 1,
                    dist_type,
                    distance,
                    Ghost(chosen),
                );
                let ghost i1: Seq<Neighbor> = heap.items@;
                let ghost mut c2: Seq<Point> = c1;
                let ghost own: Multiset<Point> = if t->deleted {
                    Multiset::empty()
                } else {
                    Multiset::singleton(t->point)
                };
                if !node.is_deleted {
                    let ghost before: Neighbors = *heap;
                    assert(live_set(t).contains(t->point));
                    let d: Single = distance(query_vector, &node.indexed_vector.vector, dist_type);
                    let n: Neighbor = Neighbor { id: node.indexed_vector.id, distance: d };
                    let pos: Option<usize> = heap.offer(k, n);
                    proof {
                        assert(q.outcome(t->point.vector, d));
                        c2 = chosen_after(c1, k as nat, pos, t->point);
                        q.lemma_offered(t, at, dim, t->point, n, before, c1, *heap, pos);
                    }
                } else {
                    proof {
                        q.lemma_left_out(t, at, dim, own, i1, c1);
                    }
                }
                let ghost i2: Seq<Neighbor> = heap.items@;
                proof {
                    q.lemma_step_in_parent(t, near_is_left, at, dim, near, i0, chosen, i1, c1);
                    q.lemma_two_steps(t, at, dim, near, own, i0, chosen, i1, c1, i2, c2);
                }
                let axis_diff: Single = here.abs_diff(split);
                let should_search_far: bool = match dist_type {
                    Similarity::Euclidean | Similarity::Manhattan => heap.items.len() < k
                        || axis_diff.lt(heap.items[k - 1].distance),
                    _ => true,
                };
                let ghost mut c3: Seq<Point> = c2;
                if should_search_far {
                    let Ghost(c): Ghost<Seq<Point>> = self.search_recursive(
                        far_side,
                        query_vector,
                        k,
                        heap,
                        depth + 1,
                        dist_type,
                        distance,
                        Ghost(c2),
                    );
                    proof {
                        c3 = c;
                        let i3: Seq<Neighbor> = heap.items@;
                        q.lemma_step_in_parent(t, !near_is_left, at, dim, far, i2, c2, i3, c3);
                    }
                } else {
                    proof {
                        q.lemma_left_out(t, at, dim, far, i2, c2);
                    }
                }
                proof {
                    let i3: Seq<Neighbor> = heap.items@;
                    q.lemma_two_steps(t, at, dim, near.add(own), far, i0, chosen, i2, c2, i3, c3);
                    assert(near.add(own).add(far) =~= live_set(t));
                }
                Ghost(c3)
            },
        }
    }

    /// The identifiers of the `k` points nearest to the query, the nearest first. Only the
    /// measures that a difference along one axis bounds can be searched by.
    pub fn search<D: Fn(&DenseVector, &DenseVector, Similarity) -> Single>(
        &self,
        query_vector: DenseVector,
        similarity: Similarity,
        k: usize,
        distance: &D,
    ) -> (result: Result<Vec<PointId>, DbError>)
        requires
            self.wf(),
            similarity.bounded_by_axis() && self.tree() is Node && k > 0 ==> self.dim > 0
                && query_vector@.len() >= self.dim,
            similarity.bounded_by_axis() ==> query(
                query_vector,
                k,
                similarity,
                *distance,
            ).can_measure(live_set(self.tree())),
        ensures
            !similarity.bounded_by_axis() ==> result == Err::<Vec<PointId>, DbError>(
                DbError::UnsupportedSimilarity,
            ),
            similarity.bounded_by_axis() ==> {
                &&& result is Ok
                &&& exists|items: Seq<Neighbor>| #[trigger]
                    query(query_vector, k, similarity, *distance).answered(*self, items)
                        && result->Ok_0@ == ids_in(items)
            },
            similarity is Cosine || similarity is Hamming ==> result == Err::<
                Vec<PointId>,
                DbError,
            >(DbError::UnsupportedSimilarity),
            similarity is Euclidean || similarity is Manhattan ==> {
                &&& result is Ok
                &&& result->Ok_0@.len() == if k <= remaining(self.root).len() {
                    k as nat
                } else {
                    remaining(self.root).len()
                }
                &&& exists|chosen: Seq<Point>|
                    {
                        &&& (#[trigger] chosen.to_multiset()).subset_of(remaining(self.root))
                        &&& chosen.len() == result->Ok_0@.len()
                        &&& forall|i: int|
                            0 <= i < chosen.len() ==> #[trigger] result->Ok_0@[i] == chosen[i].id
                    }
            },
    {
        if matches!(similarity, Similarity::Cosine | Similarity::Hamming) {
            return Err(DbError::UnsupportedSimilarity);
        }
        let results: Vec<(PointId, Single)> = self.search_top_k(
            query_vector,
            k,
            similarity,
            distance,
        );
        let ghost items: Seq<Neighbor> = neighbors_of(results@);
        let mut ids: Vec<PointId> = Vec::new();
        let mut i: usize = 0;
        while i < results.len()
            invariant
                i <= results@.len(),
                items == neighbors_of(results@),
                ids@ == ids_in(items.take(i as int)),
            decreases results@.len() - i,
        {
            ids.push(results[i].0);
            i = i + 1;
            assert(ids@ =~= ids_in(items.take(i as int)));
        }
        assert(items.take(i as int) =~= items);
        proof {
            let chosen: Seq<Point> = choose|chosen: Seq<Point>|
                {
                    &&& (#[trigger] chosen.to_multiset()).subset_of(remaining(self.root))
                    &&& chosen.len() == results@.len()
                    &&& forall|i: int|
                        0 <= i < results@.len() ==> (#[trigger] results@[i]).0 == chosen[i].id
                            && query(query_vector, k, similarity, *distance).outcome(
                            chosen[i].vector,
                            results@[i].1,
                        )
                };
            assert(chosen.to_multiset().subset_of(remaining(self.root)));
            assert forall|i: int| 0 <= i < chosen.len() implies #[trigger] ids@[i]
                == chosen[i].id by {
                assert(ids@[i] == results@[i].0);
            }
        }
        Ok(ids)
    }
}

} // verus!
