//! Points, how the distance between them is measured, and the errors of the index.
use crate::single::Single;
use vstd::prelude::*;

verus! {

/// The identifier of a point: the 128 bits of a UUID.
pub type PointId = u128;

/// The coordinates of a point.
pub type DenseVector = Vec<Single>;

/// A point as callers hand it to the index.
#[derive(Debug)]
pub struct IndexedVector {
    pub id: PointId,
    pub vector: DenseVector,
}

/// A point as the contracts speak of it.
pub struct Point {
    pub id: PointId,
    pub vector: Seq<Single>,
}

impl View for IndexedVector {
    type V = Point;

    open spec fn view(&self) -> Point {
        Point { id: self.id, vector: self.vector@ }
    }
}

/// The points that a sequence of vectors stands for.
pub open spec fn points_of(vectors: Seq<IndexedVector>) -> Seq<Point> {
    Seq::new(vectors.len(), |i: int| vectors[i]@)
}

/// How the distance between two vectors is measured.
#[derive(Clone, Copy, PartialEq, Eq, Structural, Debug)]
pub enum Similarity {
    Euclidean,
    Manhattan,
    Cosine,
    Hamming,
}

impl Similarity {
    /// No coordinate differs by more than such a distance, so a subtree behind a
    /// splitting plane that is too far away can be left out of a search.
    pub open spec fn bounded_by_axis(self) -> bool {
        self is Euclidean || self is Manhattan
    }
}

/// Why the index turns a request down.
#[derive(Clone, Copy, PartialEq, Eq, Structural, Debug)]
pub enum DbError {
    /// An index cannot be built without a vector to take the dimension from.
    IndexInitError,
    /// The index cannot search by this measure.
    UnsupportedSimilarity,
}

/// The bits of a UUID of version 4, the random one.
pub open spec fn is_random_id(id: PointId) -> bool {
    (id >> 76) & 0xf == 4 && (id >> 62) & 3 == 2
}

/// A fresh random identifier, from `uuid::Uuid::new_v4`, as the number that
/// `uuid::Uuid::as_u128` makes of it: its 16 bytes, the first one highest.
///
/// `new_v4` fills 128 bits at random and sets the version to 4 and the variant to the
/// one of RFC 9562. The other bits are left to chance, so nothing is claimed of them.
/// It takes no input to fail on, but needs a system that hands out random bytes.
#[verifier::external_body]
pub(crate) fn random_id() -> (id: PointId)
    ensures
        is_random_id(id),
{
    uuid::Uuid::new_v4().as_u128()
}

/// What is left in a slot whose vector has moved into a tree: no coordinates, under
/// a fresh identifier.
pub open spec fn is_vacant(slot: Point) -> bool {
    slot.vector.len() == 0 && is_random_id(slot.id)
}

/// A slot without a vector.
pub(crate) fn vacant() -> (slot: IndexedVector)
    ensures
        is_vacant(slot@),
{
    IndexedVector { id: random_id(), vector: Vec::new() }
}

} // verus!
