//! The nearest points that a search has met so far.
use crate::point::PointId;
use crate::single::Single;
use vstd::prelude::*;

verus! {

/// A point that a search has met, and its distance from the query.
#[derive(Clone, Copy, Debug)]
pub struct Neighbor {
    pub id: PointId,
    pub distance: Single,
}

/// Neighbors, the nearest first.
pub struct Neighbors {
    pub items: Vec<Neighbor>,
}

/// No distance is a NaN.
pub open spec fn all_measured(items: Seq<Neighbor>) -> bool {
    forall|i: int| 0 <= i < items.len() ==> !(#[trigger] items[i]).distance.nan()
}

/// No neighbor is nearer than one before it.
pub open spec fn ascending(items: Seq<Neighbor>) -> bool {
    forall|i: int, j: int|
        0 <= i <= j < items.len() ==> (#[trigger] items[i]).distance.at_most(
            (#[trigger] items[j]).distance,
        )
}

/// The neighbors after one is put in its place: before those at the end that it is
/// nearer than.
pub open spec fn placed(old: Seq<Neighbor>, new: Seq<Neighbor>, pos: int, n: Neighbor) -> bool {
    &&& 0 <= pos <= old.len()
    &&& new == old.insert(pos, n)
    &&& forall|i: int| pos <= i < old.len() ==> n.distance.less((#[trigger] old[i]).distance)
    &&& pos > 0 ==> !n.distance.less(old[pos - 1].distance)
}

impl Neighbors {
    /// The order holds where every distance is a number.
    pub open spec fn wf(&self) -> bool {
        all_measured(self.items@) ==> ascending(self.items@)
    }

    /// No neighbors.
    pub fn new() -> (s: Self)
        ensures
            s.wf(),
            s.items@.len() == 0,
    {
        Neighbors { items: Vec::new() }
    }

    /// Adds a neighbor in its place, which is returned.
    pub fn push(&mut self, n: Neighbor) -> (pos: usize)
        requires
            old(self).wf(),
        ensures
            placed(old(self).items@, final(self).items@, pos as int, n),
            pos <= old(self).items@.len(),
            final(self).items@ == old(self).items@.insert(pos as int, n),
            final(self).wf(),
    {
        let ghost before: Seq<Neighbor> = self.items@;
        let mut pos: usize = self.items.len();
        while pos > 0 && n.distance.lt(self.items[pos - 1].distance)
            invariant
                self.items@ == before,
                pos <= before.len(),
                forall|i: int|
                    pos <= i < before.len() ==> n.distance.less((#[trigger] before[i]).distance),
            decreases pos,
        {
            pos = pos - 1;
        }
        self.items.insert(pos, n);
        proof {
            let after: Seq<Neighbor> = self.items@;
            if all_measured(after) {
                assert forall|i: int| 0 <= i < before.len() implies !(
                #[trigger] before[i]).distance.nan() by {
                    if i < pos {
                        assert(after[i] == before[i]);
                    } else {
                        assert(after[i + 1] == before[i]);
                    }
                }
                assert(after[pos as int] == n);
                assert(ascending(before));
                assert forall|i: int, j: int| 0 <= i <= j < after.len() implies (
                #[trigger] after[i]).distance.at_most((#[trigger] after[j]).distance) by {
                    let x: int = if i < pos { i } else { i - 1 };
                    let y: int = if j < pos { j } else { j - 1 };
                    if i != pos && j != pos {
                        assert(before[x].distance.at_most(before[y].distance));
                    } else if i == pos && j > pos {
                        assert(n.distance.less(before[y].distance));
                    } else if j == pos && i < pos {
                        assert(before[x].distance.at_most(before[pos - 1].distance));
                    }
                }
            }
        }
        pos
    }

    /// Offers a neighbor to a collection of at most `k`: it is added while there is
    /// room, and displaces the farthest one if it is nearer. Its place is returned, or
    /// `None` where it was turned down.
    pub fn offer(&mut self, k: usize, n: Neighbor) -> (pos: Option<usize>)
        requires
            k > 0,
            old(self).wf(),
            old(self).items@.len() <= k,
        ensures
            final(self).wf(),
            pos is None ==> old(self).items@.len() == k && !n.distance.less(
                old(self).items@.last().distance,
            ) && final(self).items@ == old(self).items@,
            pos is Some && old(self).items@.len() < k ==> placed(
                old(self).items@,
                final(self).items@,
                pos->0 as int,
                n,
            ),
            pos is Some && old(self).items@.len() == k ==> n.distance.less(
                old(self).items@.last().distance,
            ) && placed(old(self).items@.drop_last(), final(self).items@, pos->0 as int, n),
            pos is None <==> old(self).items@.len() == k && !n.distance.less(
                old(self).items@.last().distance,
            ),
            pos matches Some(at) ==> final(self).items@ == if old(self).items@.len() < k {
                old(self).items@.insert(at as int, n)
            } else {
                old(self).items@.drop_last().insert(at as int, n)
            },
    {
        if self.items.len() < k {
            return Some(self.push(n));
        }
        let farthest: Single = self.items[k - 1].distance;
        if n.distance.lt(farthest) {
            let ghost before: Seq<Neighbor> = self.items@;
            self.items.pop();
            proof {
                let rest: Seq<Neighbor> = self.items@;
                assert(rest =~= before.drop_last());
                if all_measured(rest) {
                    assert forall|i: int| 0 <= i < before.len() implies !(
                    #[trigger] before[i]).distance.nan() by {
                        if i < rest.len() {
                            assert(rest[i] == before[i]);
                        }
                    }
                    assert forall|i: int, j: int| 0 <= i <= j < rest.len() implies (
                    #[trigger] rest[i]).distance.at_most((#[trigger] rest[j]).distance) by {
                        assert(before[i].distance.at_most(before[j].distance));
                    }
                }
            }
            return Some(self.push(n));
        }
        None
    }
}

} // verus!
