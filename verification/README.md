# kd_index

A k-d tree index over points with single-precision coordinates, written and verified in Verus.

The index is built from points at once or grows by one point at a time. Deleting marks a point;
once more than a quarter of the nodes is marked, the tree is built anew without them. Inserting
builds the topmost subtree anew in which one child holds more than seven tenths of the nodes. A
search returns the `k` points nearest to a query and leaves out subtrees that cannot hold one.

Both shares are tested in single precision. `law_quarter_of_counts` and
`law_seven_tenths_of_counts` in `single` say up to which size that is the test on whole numbers.

| Module | What it holds |
| --- | --- |
| `single` | single-precision numbers as bit patterns: order, rounded difference, ratio tests |
| `sums` | sums, squares and roots in single precision, and their order after rounding |
| `point` | points, measures, errors |
| `select` | median selection on a slice |
| `model` | the mathematical tree and what each operation does to it |
| `kd_tree` | the index: building, inserting, deleting, rebalancing |
| `neighbors` | the nearest points met so far |
| `search` | the search and what its answers are |
| `laws` | what holds of insertions and deletions, one at a time and in any sequence |
| `rebuild_laws` | what holds of building trees and of building parts of them anew |
| `search_laws` | what holds of the answers to a search |

How far two vectors are apart is for the caller to say: a search takes the measure as a function.
`law_search_finds_nearest` states what the measure must meet for the answer to be the nearest
points: it returns numbers, always the same for the same vectors, and, for the Euclidean and the
Manhattan measure, a point that is as far along one axis as another is in all is not nearer than
that one. `law_measures_are_true` shows that the sum of the differences and the root of the sum of
their squares, in single precision, meet this on all finite vectors, underflow or not.

One function is trusted: `random_id` in `point`, which takes a random UUID from the `uuid` crate.

`app/` wraps the index for callers with `f32` vectors and UUIDs; `tests/` runs it.
