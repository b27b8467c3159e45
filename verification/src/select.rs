//! Median selection: the step that splits a slice of points along one axis.
use crate::point::{points_of, IndexedVector, Point};
use crate::single::Single;
use vstd::prelude::*;

verus! {

/// The coordinate by which points are split.
pub open spec fn coordinate(p: Point, axis: nat) -> Single {
    p.vector[axis as int]
}

/// No point has a NaN on the axis.
pub open spec fn numbers_on(points: Seq<Point>, axis: nat) -> bool {
    forall|i: int| 0 <= i < points.len() ==> !coordinate(#[trigger] points[i], axis).nan()
}

/// The point at `mid` stands where sorting along the axis would put it: none before
/// it lies above it, none behind it lies below it.
pub open spec fn split_at_median(points: Seq<Point>, mid: nat, axis: nat) -> bool {
    &&& forall|i: int|
        0 <= i < mid ==> coordinate(#[trigger] points[i], axis).at_most(
            coordinate(points[mid as int], axis),
        )
    &&& forall|i: int|
        mid < i < points.len() ==> coordinate(points[mid as int], axis).at_most(
            coordinate(#[trigger] points[i], axis),
        )
}

/// Every point has a coordinate on the axis.
pub open spec fn reach_axis(points: Seq<Point>, axis: nat) -> bool {
    forall|i: int| 0 <= i < points.len() ==> axis < (#[trigger] points[i]).vector.len()
}

/// Exchanging two slots keeps the items.
proof fn lemma_swap_multiset<T>(s: Seq<T>, i: int, j: int)
    requires
        0 <= i < s.len(),
        0 <= j < s.len(),
    ensures
        s.update(i, s[j]).update(j, s[i]).to_multiset() == s.to_multiset(),
{
    let t: Seq<T> = s.update(i, s[j]);
    vstd::seq_lib::to_multiset_update(s, i, s[j]);
    vstd::seq_lib::to_multiset_update(t, j, s[i]);
    if i == j {
        assert(t.update(j, s[i]) =~= s);
    } else {
        vstd::seq_lib::to_multiset_contains(s, s[i]);
        assert(s.contains(s[i]));
        assert(t.update(j, s[i]).to_multiset() =~= s.to_multiset());
    }
}

/// Exchanges two slots.
fn swap_slots(vectors: &mut [IndexedVector], i: usize, j: usize)
    requires
        i < old(vectors)@.len(),
        j < old(vectors)@.len(),
    ensures
        final(vectors)@ == old(vectors)@.update(i as int, old(vectors)@[j as int]).update(
            j as int,
            old(vectors)@[i as int],
        ),
{
    if i < j {
        let (front, back) = vectors.split_at_mut(j);
        std::mem::swap(&mut front[i], &mut back[0]);
    } else if j < i {
        let (front, back) = vectors.split_at_mut(i);
        std::mem::swap(&mut front[j], &mut back[0]);
    }
    proof {
        assert(final(vectors)@ =~= old(vectors)@.update(i as int, old(vectors)@[j as int]).update(
            j as int,
            old(vectors)@[i as int],
        ));
    }
}

/// What holds of the slots between `lo` and `hi` while they are sorted into those below,
/// at and above the pivot.
spec fn three_way(
    points: Seq<Point>,
    axis: nat,
    pivot: Single,
    lo: int,
    lt: int,
    i: int,
    gt: int,
    hi: int,
) -> bool {
    &&& forall|x: int| lo <= x < lt ==> coordinate(#[trigger] points[x], axis).less(pivot)
    &&& forall|x: int|
        lt <= x < i ==> !coordinate(#[trigger] points[x], axis).less(pivot) && !pivot.less(
            coordinate(points[x], axis),
        )
    &&& forall|x: int| gt <= x < hi ==> pivot.less(coordinate(#[trigger] points[x], axis))
}

/// Everything before `lo` lies at most as high as everything from `lo` on, and the
/// same at `hi`.
spec fn bracketed(points: Seq<Point>, axis: nat, lo: int, hi: int) -> bool {
    &&& forall|x: int, y: int|
        0 <= x < lo <= y < points.len() ==> coordinate(#[trigger] points[x], axis).at_most(
            coordinate(#[trigger] points[y], axis),
        )
    &&& forall|x: int, y: int|
        0 <= x < hi <= y < points.len() ==> coordinate(#[trigger] points[x], axis).at_most(
            coordinate(#[trigger] points[y], axis),
        )
}

/// Reorders a slice so that the point at `mid` is the one that sorting along the axis
/// would put there, with none above it before it and none below it behind it.
///
/// A NaN compares equal to everything; where one occurs on the axis the order of the
/// result is left open.
pub fn select_median(vectors: &mut [IndexedVector], mid: usize, axis: usize)
    requires
        mid < old(vectors)@.len(),
        reach_axis(points_of(old(vectors)@), axis as nat),
    ensures
        points_of(final(vectors)@).to_multiset() == points_of(old(vectors)@).to_multiset(),
        final(vectors)@.len() == old(vectors)@.len(),
        numbers_on(points_of(old(vectors)@), axis as nat) ==> split_at_median(
            points_of(final(vectors)@),
            mid as nat,
            axis as nat,
        ),
        ({
            let a: int = axis as int;
            let given: Seq<IndexedVector> = old(vectors)@;
            let split: Seq<IndexedVector> = final(vectors)@;
            let middle: Single = split[mid as int].vector@[a];
            (forall|i: int| 0 <= i < given.len() ==> !(#[trigger] given[i]).vector@[a].nan()) ==> {
                &&& forall|i: int|
                    0 <= i < mid ==> (#[trigger] split[i]).vector@[a].at_most(middle)
                &&& forall|i: int|
                    mid < i < split.len() ==> middle.at_most((#[trigger] split[i]).vector@[a])
            }
        }),
{
    let n: usize = vectors.len();
    let ghost given: Seq<IndexedVector> = vectors@;
    let ghost before: Seq<Point> = points_of(vectors@);
    let ghost numbers: bool = numbers_on(before, axis as nat);
    let mut lo: usize = 0;
    let mut hi: usize = n;
    while hi - lo > 1
        invariant
            lo <= mid < hi <= n,
            n == vectors@.len(),
            points_of(vectors@).to_multiset() == before.to_multiset(),
            reach_axis(points_of(vectors@), axis as nat),
            numbers ==> numbers_on(points_of(vectors@), axis as nat),
            numbers ==> bracketed(points_of(vectors@), axis as nat, lo as int, hi as int),
        ensures
            n == vectors@.len(),
            points_of(vectors@).to_multiset() == before.to_multiset(),
            numbers ==> split_at_median(points_of(vectors@), mid as nat, axis as nat),
        decreases hi - lo,
    {
        let at: usize = lo + (hi - lo) / 2;
        assert(points_of(vectors@)[at as int] == vectors@[at as int]@);
        let pivot: Single = vectors[at].vector[axis];
        let mut lt: usize = lo;
        let mut i: usize = lo;
        let mut gt: usize = hi;
        let ghost mut home: int = at as int;
        while i < gt
            invariant
                lo <= lt <= i <= gt <= hi <= n,
                lo <= mid < hi,
                lo <= home < hi,
                n == vectors@.len(),
                coordinate(points_of(vectors@)[home], axis as nat) == pivot,
                points_of(vectors@).to_multiset() == before.to_multiset(),
                reach_axis(points_of(vectors@), axis as nat),
                numbers ==> numbers_on(points_of(vectors@), axis as nat),
                numbers ==> bracketed(points_of(vectors@), axis as nat, lo as int, hi as int),
                three_way(
                    points_of(vectors@),
                    axis as nat,
                    pivot,
                    lo as int,
                    lt as int,
                    i as int,
                    gt as int,
                    hi as int,
                ),
            decreases gt - i,
        {
            let ghost p0: Seq<Point> = points_of(vectors@);
            assert(p0[i as int] == vectors@[i as int]@);
            let c: Single = vectors[i].vector[axis];
            if c.lt(pivot) {
                swap_slots(vectors, lt, i);
                proof {
                    lemma_swap_multiset(p0, lt as int, i as int);
                    assert(points_of(vectors@) =~= p0.update(lt as int, p0[i as int]).update(
                        i as int,
                        p0[lt as int],
                    ));
                    if home == lt {
                        home = i as int;
                    } else if home == i {
                        home = lt as int;
                    }
                }
                lt = lt + 1;
                i = i + 1;
            } else if pivot.lt(c) {
                gt = gt - 1;
                swap_slots(vectors, i, gt);
                proof {
                    lemma_swap_multiset(p0, i as int, gt as int);
                    assert(points_of(vectors@) =~= p0.update(i as int, p0[gt as int]).update(
                        gt as int,
                        p0[i as int],
                    ));
                    if home == gt {
                        home = i as int;
                    } else if home == i {
                        home = gt as int;
                    }
                }
            } else {
                i = i + 1;
            }
        }
        let ghost p1: Seq<Point> = points_of(vectors@);
        assert(!coordinate(p1[home], axis as nat).less(pivot));
        assert(!pivot.less(coordinate(p1[home], axis as nat)));
        if mid < lt {
            hi = lt;
        } else if mid >= gt {
            lo = gt;
        } else {
            proof {
                if numbers {
                    assert(split_at_median(p1, mid as nat, axis as nat));
                }
            }
            break;
        }
    }
    proof {
        if forall|i: int|
            0 <= i < given.len() ==> !(#[trigger] given[i]).vector@[axis as int].nan() {
            assert forall|i: int| 0 <= i < before.len() implies !coordinate(
                #[trigger] before[i],
                axis as nat,
            ).nan() by {
                assert(before[i] == given[i]@);
            }
            let after: Seq<Point> = points_of(vectors@);
            assert(split_at_median(after, mid as nat, axis as nat));
            assert forall|i: int| 0 <= i < after.len() implies coordinate(
                #[trigger] after[i],
                axis as nat,
            ) == vectors@[i].vector@[axis as int] by {}
            assert forall|i: int| 0 <= i < mid implies (
            #[trigger] vectors@[i]).vector@[axis as int].at_most(
                vectors@[mid as int].vector@[axis as int],
            ) by {
                assert(coordinate(after[i], axis as nat).at_most(
                    coordinate(after[mid as int], axis as nat),
                ));
            }
            let middle: Single = vectors@[mid as int].vector@[axis as int];
            assert forall|i: int| mid < i < vectors@.len() implies middle.at_most(
                (#[trigger] vectors@[i]).vector@[axis as int],
            ) by {
                assert(coordinate(after[mid as int], axis as nat).at_most(
                    coordinate(after[i], axis as nat),
                ));
            }
        }
    }
}

} // verus!
