//! What holds of the answers to a search.
use crate::kd_tree::{added, removed, KDTree};
use crate::laws::{law_deleted_is_gone, law_insert_adds_one};
use crate::model::{
    all_fit, all_numbers, axis_at, holds_live, lemma_holds_live, lemma_live_set, lemma_live_within,
    live_set, ordered, points, with_id, Tree,
};
use crate::neighbors::{ascending, Neighbor};
use crate::paths::{lemma_stored, remaining};
use crate::point::{DenseVector, Point, PointId, Similarity};
use crate::search::{ids_in, neighbors_of, query, smaller, Query};
use crate::select::coordinate;
use crate::single::{gap, law_gap_grows, lemma_gap_bits, lemma_gap_nan, Single, INFINITY_BITS};
use crate::sums::{
    is_root, law_root_of_square, law_sum_reaches_terms, lemma_root_bound, lemma_square_mono,
    square, total,
};
use vstd::multiset::Multiset;
use vstd::prelude::*;

verus! {

/// The measure returns `d` of a stored vector whenever it is asked for the distance
/// from the vector of the query.
pub open spec fn measures<D: Fn(&DenseVector, &DenseVector, Similarity) -> Single>(
    q: Query<D>,
    d: spec_fn(Seq<Single>) -> Single,
) -> bool {
    forall|w: DenseVector, r: Single| #[trigger]
        call_ensures(q.distance, (&q.vector, &w, q.similarity), r) ==> r == d(w@)
}

/// A point that is as far from the query along one axis as another point is in all is not
/// nearer than that one.
pub open spec fn bounded_by_gaps(
    query: Seq<Single>,
    ps: Multiset<Point>,
    dim: nat,
    d: spec_fn(Seq<Single>) -> Single,
) -> bool {
    forall|p: Point, x: Point, a: nat|
        #![trigger ps.contains(p), ps.contains(x), coordinate(p, a)]
        ps.contains(p) && ps.contains(x) && a < dim && !gap(
            query[a as int],
            coordinate(p, a),
        ).less(d(x.vector)) ==> d(x.vector).at_most(d(p.vector))
}

/// The measure returns `d`, which is a number for every point of the index. Where a search
/// leaves subtrees out by the measure, all coordinates are numbers, too, and what is as far
/// along one axis as a point is in all is not nearer than that point.
pub open spec fn true_distance<D: Fn(&DenseVector, &DenseVector, Similarity) -> Single>(
    q: Query<D>,
    index: KDTree,
    d: spec_fn(Seq<Single>) -> Single,
) -> bool {
    &&& measures(q, d)
    &&& forall|p: Point| #[trigger] live_set(index.tree()).contains(p) ==> !d(p.vector).nan()
    &&& q.similarity.bounded_by_axis() ==> {
        &&& index.dim > 0
        &&& index.searchable()
        &&& bounded_by_gaps(q.vector@, live_set(index.tree()), index.dim as nat, d)
    }
}

/// The neighbors are the points in `chosen`, at most `k`, the nearest first, and no other
/// point is nearer than one of them.
pub open spec fn nearest_first(
    ps: Multiset<Point>,
    d: spec_fn(Seq<Single>) -> Single,
    k: nat,
    items: Seq<Neighbor>,
    chosen: Seq<Point>,
) -> bool {
    &&& chosen.to_multiset().subset_of(ps)
    &&& chosen.len() == items.len()
    &&& items.len() == smaller(k, ps.len())
    &&& forall|i: int|
        0 <= i < items.len() ==> (#[trigger] items[i]).id == chosen[i].id && items[i].distance == d(
            chosen[i].vector,
        )
    &&& ascending(items)
    &&& forall|p: Point, i: int|
        #![trigger ps.count(p), items[i]]
        ps.count(p) > chosen.to_multiset().count(p) && 0 <= i < items.len()
            ==> items[i].distance.at_most(d(p.vector))
}

/// A coordinate beyond a plane that is not nearer than `bound` is not nearer either.
proof fn lemma_beyond_plane(q: Single, split: Single, v: Single, bound: Single)
    requires
        !split.nan(),
        !v.nan(),
        if q.at_most(split) {
            split.at_most(v)
        } else {
            v.at_most(split)
        },
        !gap(q, split).less(bound),
    ensures
        !gap(q, v).less(bound),
{
    lemma_gap_nan(q, split);
    if !gap(q, v).nan() {
        if !gap(q, split).nan() {
            law_gap_grows(q, split, v);
        } else {
            assert(q.infinite() && split.infinite() && q.negative() == split.negative());
            assert(gap(q, v) == Single { bits: INFINITY_BITS });
        }
    }
}

/// A point that was left out behind a plane, not nearer than the point `x`, is not nearer
/// than `x` either.
proof fn lemma_behind_plane_far<D: Fn(&DenseVector, &DenseVector, Similarity) -> Single>(
    q: Query<D>,
    t: Tree,
    depth: nat,
    dim: nat,
    p: Point,
    x: Point,
    ps: Multiset<Point>,
    d: spec_fn(Seq<Single>) -> Single,
)
    requires
        dim > 0,
        ordered(t, depth, dim),
        all_numbers(points(t), dim),
        live_set(t).subset_of(ps),
        ps.contains(x),
        bounded_by_gaps(q.vector@, ps, dim, d),
        q.behind_plane(t, depth, dim, p, d(x.vector)),
    ensures
        d(x.vector).at_most(d(p.vector)),
    decreases t,
{
    if let Tree::Node { point, left, right, .. } = t {
        let bound: Single = d(x.vector);
        let axis: nat = axis_at(depth, dim);
        let here: Single = q.vector@[axis as int];
        let split: Single = coordinate(point, axis);
        let far: Tree = if here.at_most(split) {
            *right
        } else {
            *left
        };
        lemma_live_set(t);
        assert forall|y: Point| #[trigger] points(*left).contains(y) implies points(t).contains(
            y,
        ) by {}
        assert forall|y: Point| #[trigger] points(*right).contains(y) implies points(t).contains(
            y,
        ) by {}
        assert(live_set(*left).subset_of(live_set(t)));
        assert(live_set(*right).subset_of(live_set(t)));
        if live_set(far).contains(p) && !gap(here, split).less(bound) {
            lemma_live_within(far);
            assert(points(far).contains(p));
            assert(points(t).contains(point));
            assert(ps.contains(p));
            lemma_beyond_plane(here, split, coordinate(p, axis), bound);
        } else if q.behind_plane(*left, depth + 1, dim, p, bound) {
            lemma_behind_plane_far(q, *left, depth + 1, dim, p, x, ps, d);
        } else {
            lemma_behind_plane_far(q, *right, depth + 1, dim, p, x, ps, d);
        }
    }
}

/// A search finds the nearest points: no point that it does not return is nearer than
/// one that it returns.
pub proof fn law_search_finds_nearest<D: Fn(&DenseVector, &DenseVector, Similarity) -> Single>(
    q: Query<D>,
    index: KDTree,
    items: Seq<Neighbor>,
    d: spec_fn(Seq<Single>) -> Single,
)
    requires
        index.wf(),
        true_distance(q, index, d),
        q.answered(index, items),
    ensures
        exists|chosen: Seq<Point>| #[trigger]
            nearest_first(live_set(index.tree()), d, q.k, items, chosen),
{
    let t: Tree = index.tree();
    let dim: nat = index.dim as nat;
    let chosen: Seq<Point> = choose|chosen: Seq<Point>| #[trigger]
        q.answers(t, dim, items, chosen);
    let ps: Multiset<Point> = live_set(t);
    assert forall|v: Seq<Single>, r: Single| #[trigger] q.outcome(v, r) implies r == d(v) by {}
    assert(q.numeric(ps));
    assert forall|p: Point, i: int|
        #![trigger ps.count(p), items[i]]
        ps.count(p) > chosen.to_multiset().count(p) && 0 <= i
            < items.len() implies items[i].distance.at_most(d(p.vector)) by {
        let bound: Single = items.last().distance;
        assert(items[items.len() - 1].distance == bound);
        assert(items[i].distance.at_most(bound));
        assert(q.passed_over(t, 0, dim, p, bound));
        assert(ps.contains(p));
        if exists|r: Single| #[trigger] q.outcome(p.vector, r) && !r.less(bound) {
        } else {
            let x: Point = chosen.last();
            assert(chosen.contains(x));
            vstd::seq_lib::to_multiset_contains(chosen, x);
            assert(ps.contains(x));
            assert(bound == d(x.vector));
            lemma_behind_plane_far(q, t, 0, dim, p, x, ps, d);
        }
    }
    assert(nearest_first(ps, d, q.k, items, chosen));
}

/// No coordinate is a NaN or infinite.
pub open spec fn finite(v: Seq<Single>) -> bool {
    forall|a: int| 0 <= a < v.len() ==> (#[trigger] v[a]).magnitude() < INFINITY_BITS
}

/// The rounded differences of two vectors along the axes that both have, as patterns.
pub open spec fn differences(query: Seq<Single>, v: Seq<Single>) -> Seq<nat> {
    Seq::new(smaller(query.len(), v.len()), |a: int| gap(query[a], v[a]).bits as nat)
}

/// The squares of these differences.
pub open spec fn squares(query: Seq<Single>, v: Seq<Single>) -> Seq<nat> {
    Seq::new(smaller(query.len(), v.len()), |a: int| square(gap(query[a], v[a]).bits as nat))
}

/// `r` is the Manhattan distance in single precision: the sum of the differences.
pub open spec fn is_manhattan(query: Seq<Single>, v: Seq<Single>, r: Single) -> bool {
    r.bits == total(differences(query, v))
}

/// `r` is the Euclidean distance in single precision: the root of the sum of the squares.
pub open spec fn is_euclidean(query: Seq<Single>, v: Seq<Single>, r: Single) -> bool {
    is_root(total(squares(query, v)), r.bits as nat)
}

/// Between finite coordinates there is a difference, and both sums reach what it adds.
proof fn lemma_sums_reach(query: Seq<Single>, v: Seq<Single>, a: int)
    requires
        finite(query),
        finite(v),
        0 <= a < query.len(),
        a < v.len(),
    ensures
        gap(query[a], v[a]).bits <= total(differences(query, v)) <= INFINITY_BITS,
        square(gap(query[a], v[a]).bits as nat) <= total(squares(query, v)) <= INFINITY_BITS,
{
    let terms: Seq<nat> = differences(query, v);
    let powers: Seq<nat> = squares(query, v);
    assert forall|j: int| 0 <= j < terms.len() implies #[trigger] terms[j] <= INFINITY_BITS by {
        lemma_gap_bits(query[j], v[j]);
    }
    assert forall|j: int| 0 <= j < powers.len() implies #[trigger] powers[j] <= INFINITY_BITS by {
        lemma_square_mono(0, gap(query[j], v[j]).bits as nat);
    }
    law_sum_reaches_terms(terms, a);
    law_sum_reaches_terms(powers, a);
    assert(terms[a] == gap(query[a], v[a]).bits);
    assert(powers[a] == square(gap(query[a], v[a]).bits as nat));
}

/// The Manhattan measure is one that a search can leave subtrees out by, on all finite
/// vectors.
pub proof fn law_manhattan_is_bounded(
    query: Seq<Single>,
    ps: Multiset<Point>,
    dim: nat,
    d: spec_fn(Seq<Single>) -> Single,
)
    requires
        0 < dim <= query.len(),
        finite(query),
        all_fit(ps, dim),
        forall|p: Point| #[trigger]
            ps.contains(p) ==> finite(p.vector) && is_manhattan(query, p.vector, d(p.vector)),
    ensures
        bounded_by_gaps(query, ps, dim, d),
        forall|p: Point| #[trigger] ps.contains(p) ==> !d(p.vector).nan(),
{
    assert forall|p: Point| #[trigger] ps.contains(p) implies d(p.vector).bits
        <= INFINITY_BITS by {
        lemma_sums_reach(query, p.vector, 0);
    }
    assert forall|p: Point, x: Point, a: nat|
        #![trigger ps.contains(p), ps.contains(x), coordinate(p, a)]
        ps.contains(p) && ps.contains(x) && a < dim && !gap(
            query[a as int],
            coordinate(p, a),
        ).less(d(x.vector)) implies d(x.vector).at_most(d(p.vector)) by {
        lemma_gap_bits(query[a as int], coordinate(p, a));
        lemma_sums_reach(query, p.vector, a as int);
    }
}

/// A vector that is as far from the query along one axis as another is in all is not nearer
/// than that one, by the Euclidean measure.
proof fn lemma_euclidean_pair(
    query: Seq<Single>,
    v: Seq<Single>,
    w: Seq<Single>,
    a: int,
    dv: Single,
    dw: Single,
)
    requires
        finite(query),
        finite(v),
        0 <= a < query.len(),
        a < v.len(),
        is_euclidean(query, v, dv),
        is_euclidean(query, w, dw),
        !gap(query[a], v[a]).less(dw),
    ensures
        dw.at_most(dv),
{
    lemma_gap_bits(query[a], v[a]);
    lemma_sums_reach(query, v, a);
    lemma_root_bound(total(squares(query, v)), dv.bits as nat);
    lemma_root_bound(total(squares(query, w)), dw.bits as nat);
    lemma_square_mono(dw.bits as nat, gap(query[a], v[a]).bits as nat);
    law_root_of_square(
        total(squares(query, w)),
        dw.bits as nat,
        total(squares(query, v)),
        dv.bits as nat,
    );
}

/// The Euclidean measure is one that a search can leave subtrees out by, on all finite
/// vectors, whether or not a square underflows.
pub proof fn law_euclidean_is_bounded(
    query: Seq<Single>,
    ps: Multiset<Point>,
    dim: nat,
    d: spec_fn(Seq<Single>) -> Single,
)
    requires
        0 < dim <= query.len(),
        finite(query),
        all_fit(ps, dim),
        forall|p: Point| #[trigger]
            ps.contains(p) ==> finite(p.vector) && is_euclidean(query, p.vector, d(p.vector)),
    ensures
        bounded_by_gaps(query, ps, dim, d),
        forall|p: Point| #[trigger] ps.contains(p) ==> !d(p.vector).nan(),
{
    assert forall|p: Point, x: Point, a: nat|
        #![trigger ps.contains(p), ps.contains(x), coordinate(p, a)]
        ps.contains(p) && ps.contains(x) && a < dim && !gap(
            query[a as int],
            coordinate(p, a),
        ).less(d(x.vector)) implies d(x.vector).at_most(d(p.vector)) by {
        lemma_euclidean_pair(query, p.vector, x.vector, a as int, d(p.vector), d(x.vector));
    }
    assert forall|p: Point| #[trigger] ps.contains(p) implies !d(p.vector).nan() by {
        lemma_root_bound(total(squares(query, p.vector)), d(p.vector).bits as nat);
    }
}

/// On finite vectors, the Manhattan and the Euclidean distance in single precision are all
/// that the laws on searching ask of a measure.
pub proof fn law_measures_are_true<D: Fn(&DenseVector, &DenseVector, Similarity) -> Single>(
    q: Query<D>,
    index: KDTree,
    d: spec_fn(Seq<Single>) -> Single,
)
    requires
        index.wf(),
        0 < index.dim <= q.vector@.len(),
        index.searchable(),
        q.similarity.bounded_by_axis(),
        measures(q, d),
        finite(q.vector@),
        forall|p: Point| #[trigger]
            live_set(index.tree()).contains(p) ==> {
                &&& finite(p.vector)
                &&& q.similarity is Manhattan ==> is_manhattan(q.vector@, p.vector, d(p.vector))
                &&& q.similarity is Euclidean ==> is_euclidean(q.vector@, p.vector, d(p.vector))
            },
    ensures
        true_distance(q, index, d),
{
    let ps: Multiset<Point> = live_set(index.tree());
    lemma_live_within(index.tree());
    assert forall|p: Point| #[trigger] ps.contains(p) implies p.vector.len() >= index.dim by {
        assert(points(index.tree()).contains(p));
    }
    if q.similarity is Manhattan {
        law_manhattan_is_bounded(q.vector@, ps, index.dim as nat, d);
    } else {
        law_euclidean_is_bounded(q.vector@, ps, index.dim as nat, d);
    }
}

/// A multiset that another one of the same size contains is that one.
proof fn lemma_same_size(a: Multiset<Point>, b: Multiset<Point>)
    requires
        a.subset_of(b),
        a.len() == b.len(),
    ensures
        a == b,
{
    let rest: Multiset<Point> = b.sub(a);
    assert(rest.len() == 0);
    assert forall|p: Point| a.count(p) == b.count(p) by {
        assert(rest.count(p) <= rest.len());
    }
    assert(a =~= b);
}

/// A search for at least as many points as there are returns them all.
pub proof fn law_search_returns_all<D: Fn(&DenseVector, &DenseVector, Similarity) -> Single>(
    q: Query<D>,
    index: KDTree,
    items: Seq<Neighbor>,
)
    requires
        q.answered(index, items),
        q.k >= live_set(index.tree()).len(),
    ensures
        exists|chosen: Seq<Point>|
            #![trigger q.stand_for(items, chosen)]
            q.stand_for(items, chosen) && chosen.to_multiset() == live_set(
                index.tree(),
            ),
{
    let chosen: Seq<Point> = choose|chosen: Seq<Point>| #[trigger]
        q.answers(index.tree(), index.dim as nat, items, chosen);
    vstd::seq_lib::to_multiset_len(chosen);
    lemma_same_size(chosen.to_multiset(), live_set(index.tree()));
    assert(q.stand_for(items, chosen));
}

/// Every identifier that a search returns is one of a point that was not deleted.
pub proof fn law_search_returns_live<D: Fn(&DenseVector, &DenseVector, Similarity) -> Single>(
    q: Query<D>,
    index: KDTree,
    items: Seq<Neighbor>,
)
    requires
        q.answered(index, items),
    ensures
        forall|i: int|
            0 <= i < items.len() ==> holds_live(index.tree(), (#[trigger] items[i]).id),
{
    let t: Tree = index.tree();
    let chosen: Seq<Point> = choose|chosen: Seq<Point>| #[trigger]
        q.answers(t, index.dim as nat, items, chosen);
    assert forall|i: int| 0 <= i < items.len() implies holds_live(
        t,
        (#[trigger] items[i]).id,
    ) by {
        let p: Point = chosen[i];
        assert(chosen.contains(p));
        vstd::seq_lib::to_multiset_contains(chosen, p);
        assert(live_set(t).contains(p));
        lemma_holds_live(t, p.id);
    }
}

/// An inserted point is among what a search for all points returns.
pub proof fn law_inserted_is_found<D: Fn(&DenseVector, &DenseVector, Similarity) -> Single>(
    q: Query<D>,
    old: KDTree,
    new: KDTree,
    p: Point,
    items: Seq<Neighbor>,
)
    requires
        old.wf(),
        added(old, new, p),
        q.answered(new, items),
        q.k >= live_set(new.tree()).len(),
    ensures
        exists|i: int| 0 <= i < items.len() && (#[trigger] items[i]).id == p.id,
{
    law_insert_adds_one(old, new, p);
    law_search_returns_all(q, new, items);
    let chosen: Seq<Point> = choose|chosen: Seq<Point>|
        #![trigger q.stand_for(items, chosen)]
        q.stand_for(items, chosen) && chosen.to_multiset() == live_set(
            new.tree(),
        );
    assert(live_set(new.tree()).contains(p));
    vstd::seq_lib::to_multiset_contains(chosen, p);
    let i: int = choose|i: int| 0 <= i < chosen.len() && chosen[i] == p;
    assert(items[i].id == p.id);
}

/// Where one point has the identifier, no search returns it after a deletion.
pub proof fn law_deleted_is_not_found<D: Fn(&DenseVector, &DenseVector, Similarity) -> Single>(
    q: Query<D>,
    old: KDTree,
    new: KDTree,
    id: PointId,
    items: Seq<Neighbor>,
)
    requires
        old.wf(),
        old.point_ids@.contains(id),
        with_id(live_set(old.tree()), id).len() == 1,
        removed(old, new, id),
        q.answered(new, items),
    ensures
        forall|i: int| 0 <= i < items.len() ==> (#[trigger] items[i]).id != id,
{
    law_deleted_is_gone(old, new, id);
    law_search_returns_live(q, new, items);
}

/// The distances are equal as numbers, one by one.
pub open spec fn same_distances(a: Seq<Neighbor>, b: Seq<Neighbor>) -> bool {
    &&& a.len() == b.len()
    &&& forall|i: int|
        #![trigger a[i]]
        #![trigger b[i]]
        0 <= i < a.len() ==> a[i].distance.at_most(b[i].distance) && b[i].distance.at_most(
            a[i].distance,
        )
}

/// No two points are equally far away.
pub open spec fn all_apart(ps: Multiset<Point>, d: spec_fn(Seq<Single>) -> Single) -> bool {
    forall|x: Point, y: Point|
        #![trigger ps.contains(x), ps.contains(y)]
        ps.contains(x) && ps.contains(y) && x != y ==> d(x.vector).less(d(y.vector)) || d(
            y.vector,
        ).less(d(x.vector))
}

/// Of two lists of nearest points, neither has a farther one in the same place.
proof fn lemma_no_farther(
    ps: Multiset<Point>,
    d: spec_fn(Seq<Single>) -> Single,
    j: nat,
    a: Seq<Neighbor>,
    chosen_a: Seq<Point>,
    k: nat,
    b: Seq<Neighbor>,
    chosen_b: Seq<Point>,
    i: int,
)
    requires
        nearest_first(ps, d, j, a, chosen_a),
        nearest_first(ps, d, k, b, chosen_b),
        0 <= i < a.len(),
        i < b.len(),
    ensures
        a[i].distance.at_most(b[i].distance),
{
    assert(a[i].distance.at_most(a[i].distance));
    assert(b[i].distance.at_most(b[i].distance));
    if b[i].distance.less(a[i].distance) {
        let front: Seq<Point> = chosen_b.take(i + 1);
        let head: Seq<Point> = chosen_a.take(i);
        let tail: Seq<Point> = chosen_a.skip(i);
        let near: Multiset<Point> = front.to_multiset();
        let kept: Multiset<Point> = head.to_multiset();
        assert(chosen_a =~= head + tail);
        assert(chosen_b =~= front + chosen_b.skip(i + 1));
        vstd::seq_lib::lemma_multiset_commutative(head, tail);
        vstd::seq_lib::lemma_multiset_commutative(front, chosen_b.skip(i + 1));
        vstd::seq_lib::to_multiset_len(front);
        vstd::seq_lib::to_multiset_len(head);
        if near.subset_of(kept) {
            assert(kept.sub(near).len() + near.len() == kept.len());
            assert(false);
        }
        let p: Point = choose|p: Point| near.count(p) > kept.count(p);
        assert(near.contains(p));
        vstd::seq_lib::to_multiset_contains(front, p);
        let m: int = choose|m: int| 0 <= m < front.len() && front[m] == p;
        assert(chosen_b[m] == p);
        assert(b[m].distance == d(p.vector));
        assert(b[m].distance.at_most(b[i].distance));
        if tail.to_multiset().contains(p) {
            vstd::seq_lib::to_multiset_contains(tail, p);
            let n: int = choose|n: int| 0 <= n < tail.len() && tail[n] == p;
            assert(chosen_a[i + n] == p);
            assert(a[i + n].distance == d(p.vector));
            assert(a[i].distance.at_most(a[i + n].distance));
            assert(false);
        }
        assert(chosen_a.to_multiset().count(p) == kept.count(p));
        assert(chosen_b.to_multiset().count(p) >= near.count(p));
        assert(chosen_b.to_multiset().count(p) <= ps.count(p));
        assert(ps.count(p) > chosen_a.to_multiset().count(p));
        assert(a[i].distance.at_most(d(p.vector)));
        assert(false);
    }
}

/// Asking for more points does not change the distances of the nearest ones.
pub proof fn law_more_begins_with_fewer<
    D: Fn(&DenseVector, &DenseVector, Similarity) -> Single,
>(
    q: Query<D>,
    index: KDTree,
    j: nat,
    fewer: Seq<Neighbor>,
    items: Seq<Neighbor>,
    d: spec_fn(Seq<Single>) -> Single,
)
    requires
        index.wf(),
        true_distance(q, index, d),
        j <= q.k,
        q.for_at_most(j).answered(index, fewer),
        q.answered(index, items),
    ensures
        same_distances(fewer, items.take(smaller(j, items.len()) as int)),
{
    let few: Query<D> = q.for_at_most(j);
    let ps: Multiset<Point> = live_set(index.tree());
    assert(measures(few, d));
    law_search_finds_nearest(few, index, fewer, d);
    law_search_finds_nearest(q, index, items, d);
    let ca: Seq<Point> = choose|c: Seq<Point>| #[trigger] nearest_first(ps, d, j, fewer, c);
    let cb: Seq<Point> = choose|c: Seq<Point>| #[trigger] nearest_first(ps, d, q.k, items, c);
    let front: Seq<Neighbor> = items.take(smaller(j, items.len()) as int);
    assert forall|i: int|
        #![trigger fewer[i]]
        #![trigger front[i]]
        0 <= i < fewer.len() implies fewer[i].distance.at_most(front[i].distance)
        && front[i].distance.at_most(fewer[i].distance) by {
        lemma_no_farther(ps, d, j, fewer, ca, q.k, items, cb, i);
        lemma_no_farther(ps, d, q.k, items, cb, j, fewer, ca, i);
    }
}

/// Two indexes with the same points answer alike, however they came about: with the same
/// distances, and with the same identifiers where no two points are equally far away.
pub proof fn law_answer_depends_on_points<
    D: Fn(&DenseVector, &DenseVector, Similarity) -> Single,
>(
    q: Query<D>,
    a: KDTree,
    b: KDTree,
    items_a: Seq<Neighbor>,
    items_b: Seq<Neighbor>,
    d: spec_fn(Seq<Single>) -> Single,
)
    requires
        a.wf(),
        b.wf(),
        true_distance(q, a, d),
        true_distance(q, b, d),
        live_set(a.tree()) == live_set(b.tree()),
        q.answered(a, items_a),
        q.answered(b, items_b),
    ensures
        same_distances(items_a, items_b),
        all_apart(live_set(a.tree()), d) ==> items_a == items_b,
{
    let ps: Multiset<Point> = live_set(a.tree());
    law_search_finds_nearest(q, a, items_a, d);
    law_search_finds_nearest(q, b, items_b, d);
    let ca: Seq<Point> = choose|c: Seq<Point>| #[trigger] nearest_first(ps, d, q.k, items_a, c);
    let cb: Seq<Point> = choose|c: Seq<Point>| #[trigger] nearest_first(ps, d, q.k, items_b, c);
    assert forall|i: int|
        #![trigger items_a[i]]
        #![trigger items_b[i]]
        0 <= i < items_a.len() implies items_a[i].distance.at_most(items_b[i].distance)
        && items_b[i].distance.at_most(items_a[i].distance) by {
        lemma_no_farther(ps, d, q.k, items_a, ca, q.k, items_b, cb, i);
        lemma_no_farther(ps, d, q.k, items_b, cb, q.k, items_a, ca, i);
    }
    if all_apart(ps, d) {
        assert forall|i: int| 0 <= i < items_a.len() implies items_a[i] == items_b[i] by {
            let x: Point = ca[i];
            let y: Point = cb[i];
            assert(ca.contains(x) && cb.contains(y));
            vstd::seq_lib::to_multiset_contains(ca, x);
            vstd::seq_lib::to_multiset_contains(cb, y);
            assert(ps.contains(x) && ps.contains(y));
            assert(items_a[i].distance == d(x.vector) && items_b[i].distance == d(y.vector));
        }
        assert(items_a =~= items_b);
    }
}

/// What a search returns are the nearest points: the identifier of each with its own
/// distance, as many as there are but at most `k`, the nearest first, and no other point is
/// nearer than one of them. The measure has to return `d`, a number for every point; for the
/// Euclidean and the Manhattan one all coordinates have to be numbers, too, and a point that
/// is as far along one axis as another is in all must not be nearer than that one.
#[verifier::rlimit(40)]
pub proof fn law_pairs_are_nearest<D: Fn(&DenseVector, &DenseVector, Similarity) -> Single>(
    vector: DenseVector,
    k: usize,
    similarity: Similarity,
    distance: D,
    index: KDTree,
    pairs: Seq<(PointId, Single)>,
    d: spec_fn(Seq<Single>) -> Single,
)
    requires
        index.wf(),
        query(vector, k, similarity, distance).answered(index, neighbors_of(pairs)),
        forall|w: DenseVector, r: Single| #[trigger]
            call_ensures(distance, (&vector, &w, similarity), r) ==> r == d(w@),
        forall|p: Point| #[trigger] remaining(index.root).contains(p) ==> !d(p.vector).nan(),
        similarity is Euclidean || similarity is Manhattan ==> {
            &&& index.dim > 0
            &&& index.searchable()
            &&& forall|p: Point, x: Point, a: int|
                #![trigger
                    remaining(index.root).contains(p),
                    remaining(index.root).contains(x),
                    p.vector[a]
                ]
                remaining(index.root).contains(p) && remaining(index.root).contains(x) && 0 <= a
                    < index.dim && !gap(vector@[a], p.vector[a]).less(d(x.vector)) ==> d(
                    x.vector,
                ).at_most(d(p.vector))
        },
    ensures
        pairs.len() == if k <= remaining(index.root).len() {
            k as nat
        } else {
            remaining(index.root).len()
        },
        forall|i: int, j: int|
            0 <= i <= j < pairs.len() ==> (#[trigger] pairs[i]).1.at_most((#[trigger] pairs[j]).1),
        exists|chosen: Seq<Point>|
            {
                &&& (#[trigger] chosen.to_multiset()).subset_of(remaining(index.root))
                &&& chosen.len() == pairs.len()
                &&& forall|i: int|
                    0 <= i < pairs.len() ==> (#[trigger] pairs[i]).0 == chosen[i].id && pairs[i].1
                        == d(chosen[i].vector)
                &&& forall|p: Point, i: int|
                    #![trigger remaining(index.root).count(p), pairs[i]]
                    remaining(index.root).count(p) > chosen.to_multiset().count(p) && 0 <= i
                        < pairs.len() ==> pairs[i].1.at_most(d(p.vector))
            },
{
    let q: Query<D> = query(vector, k, similarity, distance);
    let items: Seq<Neighbor> = neighbors_of(pairs);
    let ps: Multiset<Point> = live_set(index.tree());
    lemma_stored(index.root);
    assert(measures(q, d));
    if q.similarity.bounded_by_axis() {
        assert forall|p: Point, x: Point, a: nat|
            #![trigger ps.contains(p), ps.contains(x), coordinate(p, a)]
            ps.contains(p) && ps.contains(x) && a < index.dim && !gap(
                q.vector@[a as int],
                coordinate(p, a),
            ).less(d(x.vector)) implies d(x.vector).at_most(d(p.vector)) by {
            assert(remaining(index.root).contains(p) && remaining(index.root).contains(x));
            assert(coordinate(p, a) == p.vector[a as int]);
        }
    }
    assert(true_distance(q, index, d));
    law_search_finds_nearest(q, index, items, d);
    let chosen: Seq<Point> = choose|c: Seq<Point>| #[trigger] nearest_first(ps, d, q.k, items, c);
    assert forall|i: int| 0 <= i < pairs.len() implies items[i].id == (#[trigger] pairs[i]).0
        && items[i].distance == pairs[i].1 by {}
    assert forall|i: int, j: int| 0 <= i <= j < pairs.len() implies (
    #[trigger] pairs[i]).1.at_most((#[trigger] pairs[j]).1) by {
        assert(items[i].distance.at_most(items[j].distance));
    }
    assert(chosen.to_multiset().subset_of(remaining(index.root)));
    assert forall|i: int| 0 <= i < pairs.len() implies (#[trigger] pairs[i]).0 == chosen[i].id
        && pairs[i].1 == d(chosen[i].vector) by {
        assert(items[i].id == chosen[i].id);
    }
    assert forall|p: Point, i: int|
        #![trigger remaining(index.root).count(p), pairs[i]]
        remaining(index.root).count(p) > chosen.to_multiset().count(p) && 0 <= i
            < pairs.len() implies pairs[i].1.at_most(d(p.vector)) by {
        assert(ps.count(p) > chosen.to_multiset().count(p));
        assert(items[i].distance.at_most(d(p.vector)));
    }
}

/// Where no two points have the same identifier, the distance beside an identifier is that
/// of the point with this identifier.
pub proof fn law_distance_is_its_own<D: Fn(&DenseVector, &DenseVector, Similarity) -> Single>(
    vector: DenseVector,
    k: usize,
    similarity: Similarity,
    distance: D,
    index: KDTree,
    pairs: Seq<(PointId, Single)>,
    i: int,
    p: Point,
)
    requires
        query(vector, k, similarity, distance).answered(index, neighbors_of(pairs)),
        0 <= i < pairs.len(),
        remaining(index.root).contains(p),
        p.id == pairs[i].0,
        forall|x: Point, y: Point|
            #![trigger remaining(index.root).contains(x), remaining(index.root).contains(y)]
            remaining(index.root).contains(x) && remaining(index.root).contains(y) && x.id == y.id
                ==> x == y,
    ensures
        exists|w: DenseVector|
            w@ == p.vector && #[trigger] call_ensures(
                distance,
                (&vector, &w, similarity),
                pairs[i].1,
            ),
{
    let q: Query<D> = query(vector, k, similarity, distance);
    let items: Seq<Neighbor> = neighbors_of(pairs);
    lemma_stored(index.root);
    let chosen: Seq<Point> = choose|c: Seq<Point>| #[trigger]
        q.answers(index.tree(), index.dim as nat, items, c);
    let x: Point = chosen[i];
    assert(items[i].id == pairs[i].0 && items[i].distance == pairs[i].1);
    assert(chosen.contains(x));
    vstd::seq_lib::to_multiset_contains(chosen, x);
    assert(remaining(index.root).contains(x));
    assert(q.outcome(x.vector, items[i].distance));
}

/// The identifiers that a search returns are those of the nearest points: as many as there
/// are but at most `k`, the nearest first, and no other point is nearer than one of these.
/// The measure has to be as for the pairs.
pub proof fn law_identifiers_are_nearest<D: Fn(&DenseVector, &DenseVector, Similarity) -> Single>(
    vector: DenseVector,
    k: usize,
    similarity: Similarity,
    distance: D,
    index: KDTree,
    items: Seq<Neighbor>,
    ids: Seq<PointId>,
    d: spec_fn(Seq<Single>) -> Single,
)
    requires
        index.wf(),
        query(vector, k, similarity, distance).answered(index, items),
        ids == ids_in(items),
        forall|w: DenseVector, r: Single| #[trigger]
            call_ensures(distance, (&vector, &w, similarity), r) ==> r == d(w@),
        forall|p: Point| #[trigger] remaining(index.root).contains(p) ==> !d(p.vector).nan(),
        similarity is Euclidean || similarity is Manhattan ==> {
            &&& index.dim > 0
            &&& index.searchable()
            &&& forall|p: Point, x: Point, a: int|
                #![trigger
                    remaining(index.root).contains(p),
                    remaining(index.root).contains(x),
                    p.vector[a]
                ]
                remaining(index.root).contains(p) && remaining(index.root).contains(x) && 0 <= a
                    < index.dim && !gap(vector@[a], p.vector[a]).less(d(x.vector)) ==> d(
                    x.vector,
                ).at_most(d(p.vector))
        },
    ensures
        ids.len() == if k <= remaining(index.root).len() {
            k as nat
        } else {
            remaining(index.root).len()
        },
        exists|chosen: Seq<Point>|
            {
                &&& (#[trigger] chosen.to_multiset()).subset_of(remaining(index.root))
                &&& chosen.len() == ids.len()
                &&& forall|i: int| 0 <= i < ids.len() ==> #[trigger] ids[i] == chosen[i].id
                &&& forall|i: int, j: int|
                    0 <= i <= j < ids.len() ==> d((#[trigger] chosen[i]).vector).at_most(
                        d((#[trigger] chosen[j]).vector),
                    )
                &&& forall|p: Point, i: int|
                    #![trigger remaining(index.root).count(p), chosen[i]]
                    remaining(index.root).count(p) > chosen.to_multiset().count(p) && 0 <= i
                        < ids.len() ==> d(chosen[i].vector).at_most(d(p.vector))
            },
{
    let pairs: Seq<(PointId, Single)> = Seq::new(
        items.len(),
        |i: int| (items[i].id, items[i].distance),
    );
    assert(neighbors_of(pairs) =~= items);
    law_pairs_are_nearest(vector, k, similarity, distance, index, pairs, d);
    let chosen: Seq<Point> = choose|chosen: Seq<Point>|
        {
            &&& (#[trigger] chosen.to_multiset()).subset_of(remaining(index.root))
            &&& chosen.len() == pairs.len()
            &&& forall|i: int|
                0 <= i < pairs.len() ==> (#[trigger] pairs[i]).0 == chosen[i].id && pairs[i].1 == d(
                    chosen[i].vector,
                )
            &&& forall|p: Point, i: int|
                #![trigger remaining(index.root).count(p), pairs[i]]
                remaining(index.root).count(p) > chosen.to_multiset().count(p) && 0 <= i
                    < pairs.len() ==> pairs[i].1.at_most(d(p.vector))
        };
    assert forall|i: int| 0 <= i < ids.len() implies #[trigger] ids[i] == chosen[i].id by {
        assert(pairs[i].0 == chosen[i].id);
    }
    assert forall|i: int, j: int| 0 <= i <= j < ids.len() implies d(
        (#[trigger] chosen[i]).vector,
    ).at_most(d((#[trigger] chosen[j]).vector)) by {
        assert(pairs[i].1.at_most(pairs[j].1));
    }
    assert forall|p: Point, i: int|
        #![trigger remaining(index.root).count(p), chosen[i]]
        remaining(index.root).count(p) > chosen.to_multiset().count(p) && 0 <= i
            < ids.len() implies d(chosen[i].vector).at_most(d(p.vector)) by {
        assert(pairs[i].1.at_most(d(p.vector)));
    }
    assert(chosen.to_multiset().subset_of(remaining(index.root)));
}

} // verus!
