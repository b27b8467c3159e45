//! What holds of the index as a whole: of what insertions and deletions do to it, one at a
//! time and in any sequence.
use crate::kd_tree::{added, ids_of, lemma_added, lemma_removed, removed, KDTree};
use crate::model::{
    all_numbers, balanced, built, descent, first_holder, first_unbalanced, goes_left, grown,
    halved, has_numbers, holds_live, inserted, lemma_counts, lemma_first_unbalanced, lemma_grown,
    lemma_holds_live, lemma_leads_size, lemma_live_within, lemma_marked, lemma_regraft,
    lemma_shrunk_zero, live_set, marked, ordered, points, replaced, size_of, sized, subtree_at,
    tombstones, unbalanced, with_id, Tree,
};
use crate::point::{Point, PointId};
use crate::single::{lemma_count_finite, lemma_half_within, lemma_nothing_within, over_quarter};
use vstd::multiset::Multiset;
use vstd::prelude::*;

verus! {

/// The tree that a rebuilding leaves, in terms of the one that it started from.
proof fn lemma_inserted(t: Tree, new: Tree, p: Point, dim: nat)
    requires
        sized(t),
        inserted(t, new, p, dim),
    ensures
        sized(new),
        live_set(new) == live_set(t).insert(p),
        points(new).subset_of(points(t).insert(p)),
        size_of(new) + tombstones(t) == size_of(t) + 1 + tombstones(new),
        first_unbalanced(grown(t, p, 0, dim), descent(t, p, 0, dim), 0) is None ==> size_of(new)
            == size_of(t) + 1,
        first_unbalanced(grown(t, p, 0, dim), descent(t, p, 0, dim), 0) == Some(0nat)
            ==> tombstones(new) == 0,
{
    let g: Tree = grown(t, p, 0, dim);
    let turns: Seq<bool> = descent(t, p, 0, dim);
    lemma_grown(t, p, 0, dim);
    if let Some(d) = first_unbalanced(g, turns, 0) {
        lemma_first_unbalanced(g, turns, 0);
        lemma_regraft(g, turns, d, 0, subtree_at(new, turns, d, 0), dim);
    }
}

/// Inserting adds the point and loses none, however much of the tree is built anew.
pub proof fn law_insert_adds_one(old: KDTree, new: KDTree, p: Point)
    requires
        old.wf(),
        added(old, new, p),
    ensures
        live_set(new.tree()) == live_set(old.tree()).insert(p),
        new.point_ids@.contains(p.id),
        holds_live(new.tree(), p.id),
{
    lemma_inserted(old.tree(), new.tree(), p, old.dim as nat);
    assert(live_set(new.tree()).contains(p));
    lemma_holds_live(new.tree(), p.id);
}

/// Deleting takes away one point, that of the first node that holds the identifier and was
/// not deleted before, and no other, whether or not the tree is built anew.
pub proof fn law_delete_takes_one(old: KDTree, new: KDTree, id: PointId)
    requires
        old.wf(),
        old.point_ids@.contains(id),
        removed(old, new, id),
    ensures
        first_holder(old.tree(), id).id == id,
        live_set(old.tree()).contains(first_holder(old.tree(), id)),
        live_set(new.tree()) == live_set(old.tree()).remove(first_holder(old.tree(), id)),
{
    lemma_marked(old.tree(), id);
    lemma_live_within(new.tree());
}

/// Where one point has the identifier, none has it after a deletion.
pub proof fn law_deleted_is_gone(old: KDTree, new: KDTree, id: PointId)
    requires
        old.wf(),
        old.point_ids@.contains(id),
        with_id(live_set(old.tree()), id).len() == 1,
        removed(old, new, id),
    ensures
        !holds_live(new.tree(), id),
{
    law_delete_takes_one(old, new, id);
    lemma_holds_live(new.tree(), id);
    if holds_live(new.tree(), id) {
        let p: Point = choose|p: Point| #[trigger] live_set(new.tree()).contains(p) && p.id == id;
        let first: Point = first_holder(old.tree(), id);
        let before: Multiset<Point> = with_id(live_set(old.tree()), id);
        let after: Multiset<Point> = with_id(live_set(new.tree()), id);
        assert(after =~= before.remove(first));
        assert(after.count(p) > 0);
        assert(after.count(p) <= after.len());
    }
}

/// Deleting a point that was just inserted, under an identifier that no point had, finds it
/// and leaves the points and identifiers that were there before. To delete it once more
/// finds nothing.
pub proof fn law_delete_undoes_insert(old: KDTree, mid: KDTree, new: KDTree, p: Point)
    requires
        old.wf(),
        mid.wf(),
        !holds_live(old.tree(), p.id),
        added(old, mid, p),
        removed(mid, new, p.id),
    ensures
        mid.point_ids@.contains(p.id),
        live_set(new.tree()) == live_set(old.tree()),
        new.point_ids@ == old.point_ids@,
        !new.point_ids@.contains(p.id),
{
    let id: PointId = p.id;
    law_insert_adds_one(old, mid, p);
    lemma_holds_live(old.tree(), id);
    law_delete_takes_one(mid, new, id);
    let first: Point = first_holder(mid.tree(), id);
    if first != p {
        assert(live_set(old.tree()).contains(first));
        assert(false);
    }
    assert(live_set(new.tree()) =~= live_set(old.tree()));
    assert(new.point_ids@ =~= old.point_ids@);
}

/// After a deletion at most a quarter of the nodes is deleted.
pub proof fn law_delete_within_quarter(old: KDTree, new: KDTree, id: PointId)
    requires
        old.wf(),
        old.point_ids@.contains(id),
        removed(old, new, id),
    ensures
        new.total_nodes == 0 || !over_quarter(new.deleted_count as nat, new.total_nodes as nat),
{
    if new.total_nodes > 0 {
        lemma_nothing_within(new.total_nodes as nat);
    }
}

/// A tree that is built from points has no unbalanced subtree.
pub proof fn law_built_is_balanced(t: Tree, ps: Multiset<Point>, depth: nat, dim: nat)
    requires
        built(t, ps, depth, dim),
        ps.len() <= usize::MAX,
    ensures
        balanced(t),
{
    lemma_counts(t);
    lemma_halved_balanced(t);
}

/// A tree that is split in half everywhere is balanced everywhere.
proof fn lemma_halved_balanced(t: Tree)
    requires
        sized(t),
        halved(t),
        size_of(t) <= usize::MAX,
    ensures
        balanced(t),
    decreases t,
{
    if let Tree::Node { size, left, right, .. } = t {
        lemma_halved_balanced(*left);
        lemma_halved_balanced(*right);
        lemma_count_finite(size);
        lemma_half_within(size_of(*left), size);
        lemma_half_within(size_of(*right), size);
    }
}

/// A new leaf leaves unbalanced what lies on the way to it at most.
proof fn lemma_grown_balance(
    t: Tree,
    p: Point,
    depth: nat,
    dim: nat,
    turns: Seq<bool>,
    target: nat,
    now: Tree,
)
    requires
        sized(t),
        balanced(t),
        depth <= turns.len(),
        turns.skip(depth as int) == descent(t, p, depth, dim),
        match first_unbalanced(grown(t, p, depth, dim), turns, depth) {
            None => true,
            Some(d) => {
                &&& target == d
                &&& balanced(now)
                &&& size_of(now) == size_of(subtree_at(grown(t, p, depth, dim), turns, d, depth))
            },
        },
    ensures
        first_unbalanced(grown(t, p, depth, dim), turns, depth) is None ==> balanced(
            grown(t, p, depth, dim),
        ),
        first_unbalanced(grown(t, p, depth, dim), turns, depth) is Some ==> balanced(
            replaced(grown(t, p, depth, dim), turns, target, depth, now),
        ) && size_of(replaced(grown(t, p, depth, dim), turns, target, depth, now)) == size_of(
            grown(t, p, depth, dim),
        ),
    decreases t,
{
    let g: Tree = grown(t, p, depth, dim);
    lemma_first_unbalanced(g, turns, depth);
    match t {
        Tree::Empty => {
            lemma_nothing_within(1);
            assert(!unbalanced(g));
            assert(balanced(Tree::Empty));
            assert(turns.skip(depth as int).len() == 0);
        },
        Tree::Node { point, left, right, .. } => {
            let go_left: bool = goes_left(p, point, depth, dim);
            let side: Tree = if go_left {
                *left
            } else {
                *right
            };
            let rest: Seq<bool> = descent(side, p, depth + 1, dim);
            assert(turns.skip(depth as int) == seq![go_left] + rest);
            assert(turns[depth as int] == turns.skip(depth as int)[0]);
            assert(turns.skip(depth as int + 1) =~= rest) by {
                assert(turns.skip(depth as int + 1) =~= turns.skip(depth as int).skip(1));
                assert((seq![go_left] + rest).skip(1) =~= rest);
            }
            if !unbalanced(g) {
                lemma_first_unbalanced(grown(side, p, depth + 1, dim), turns, depth + 1);
                lemma_grown_balance(side, p, depth + 1, dim, turns, target, now);
            }
        },
    }
}

/// In a tree without an unbalanced subtree an insertion leaves none either, unless the
/// rebuilding that it brings drops deleted nodes.
pub proof fn law_insert_keeps_balance(old: KDTree, new: KDTree, p: Point)
    requires
        old.wf(),
        balanced(old.tree()),
        added(old, new, p),
        new.total_nodes == old.total_nodes + 1,
    ensures
        balanced(new.tree()),
{
    let dim: nat = old.dim as nat;
    let t: Tree = old.tree();
    let g: Tree = grown(t, p, 0, dim);
    let turns: Seq<bool> = descent(t, p, 0, dim);
    lemma_grown(t, p, 0, dim);
    lemma_inserted(t, new.tree(), p, dim);
    assert(turns.skip(0) =~= turns);
    match first_unbalanced(g, turns, 0) {
        None => {
            lemma_grown_balance(t, p, 0, dim, turns, 0, g);
        },
        Some(d) => {
            let was: Tree = subtree_at(g, turns, d, 0);
            let now: Tree = subtree_at(new.tree(), turns, d, 0);
            lemma_first_unbalanced(g, turns, 0);
            lemma_leads_size(g, turns, d, 0);
            lemma_regraft(g, turns, d, 0, now, dim);
            lemma_counts(was);
            lemma_counts(g);
            lemma_counts(now);
            lemma_shrunk_zero(replaced(g, turns, d, 0, now), turns, d, 0);
            law_built_is_balanced(now, live_set(was), d, dim);
            lemma_grown_balance(t, p, 0, dim, turns, d, now);
        },
    }
}

/// Marking a node leaves the balance.
proof fn lemma_marked_balanced(t: Tree, id: u128)
    requires
        sized(t),
        holds_live(t, id),
        balanced(t),
    ensures
        balanced(marked(t, id)),
    decreases t,
{
    if let Tree::Node { point, deleted, left, right, .. } = t {
        if point.id != id || deleted {
            if holds_live(*left, id) {
                lemma_marked(*left, id);
                lemma_marked_balanced(*left, id);
            } else {
                lemma_marked(*right, id);
                lemma_marked_balanced(*right, id);
            }
        }
    }
}

/// In a tree without an unbalanced subtree a deletion leaves none either.
pub proof fn law_delete_keeps_balance(old: KDTree, new: KDTree, id: PointId)
    requires
        old.wf(),
        old.point_ids@.contains(id),
        balanced(old.tree()),
        removed(old, new, id),
    ensures
        balanced(new.tree()),
{
    let m: Tree = marked(old.tree(), id);
    lemma_marked(old.tree(), id);
    lemma_marked_balanced(old.tree(), id);
    lemma_counts(m);
    if over_quarter((old.deleted_count + 1) as nat, old.total_nodes as nat) {
        law_built_is_balanced(new.tree(), live_set(m), 0, old.dim as nat);
    }
}

/// Inserting keeps the deletion counter equal to the number of deleted nodes, however many
/// of them a rebuilding drops.
pub proof fn law_insert_keeps_count(old: KDTree, new: KDTree, p: Point)
    requires
        old.wf(),
        added(old, new, p),
    ensures
        new.deleted_count == tombstones(new.tree()),
{
    lemma_inserted(old.tree(), new.tree(), p, old.dim as nat);
}

/// Deleting keeps it equal, too.
pub proof fn law_delete_keeps_count(old: KDTree, new: KDTree, id: PointId)
    requires
        old.wf(),
        old.point_ids@.contains(id),
        removed(old, new, id),
    ensures
        new.deleted_count == tombstones(new.tree()),
{
    lemma_marked(old.tree(), id);
}

/// The counters tell the number of points that were not deleted.
pub proof fn law_counters_tell_live(index: KDTree)
    requires
        index.wf(),
    ensures
        live_set(index.tree()).len() == index.total_nodes - index.deleted_count,
{
    lemma_counts(index.tree());
}

/// The index knows the identifier of every point that was not deleted.
pub open spec fn listed(index: KDTree) -> bool {
    forall|id: PointId| #[trigger] holds_live(index.tree(), id) ==> index.point_ids@.contains(id)
}

/// An index that was built from points knows all their identifiers.
pub proof fn law_built_is_listed(index: KDTree, ps: Seq<Point>)
    requires
        built(index.tree(), ps.to_multiset(), 0, index.dim as nat),
        index.point_ids@ == ids_of(ps),
    ensures
        listed(index),
{
    let t: Tree = index.tree();
    assert forall|id: PointId| #[trigger]
        holds_live(t, id) implies index.point_ids@.contains(id) by {
        lemma_holds_live(t, id);
        lemma_live_within(t);
        let p: Point = choose|p: Point| #[trigger] live_set(t).contains(p) && p.id == id;
        vstd::seq_lib::to_multiset_contains(ps, p);
        let i: int = choose|i: int| 0 <= i < ps.len() && ps[i] == p;
        assert(ps[i].id == id);
    }
}

/// Inserting keeps every identifier known.
pub proof fn law_insert_keeps_listed(old: KDTree, new: KDTree, p: Point)
    requires
        old.wf(),
        listed(old),
        added(old, new, p),
    ensures
        listed(new),
{
    law_insert_adds_one(old, new, p);
    assert forall|id: PointId| #[trigger]
        holds_live(new.tree(), id) implies new.point_ids@.contains(id) by {
        lemma_holds_live(new.tree(), id);
        lemma_holds_live(old.tree(), id);
        let x: Point = choose|x: Point| #[trigger] live_set(new.tree()).contains(x) && x.id == id;
        if x != p {
            assert(live_set(old.tree()).contains(x));
        }
    }
}

/// Deleting keeps every identifier known, where one point has the deleted one.
pub proof fn law_delete_keeps_listed(old: KDTree, new: KDTree, id: PointId)
    requires
        old.wf(),
        listed(old),
        old.point_ids@.contains(id),
        with_id(live_set(old.tree()), id).len() == 1,
        removed(old, new, id),
    ensures
        listed(new),
{
    law_deleted_is_gone(old, new, id);
    law_delete_takes_one(old, new, id);
    assert forall|other: PointId| #[trigger]
        holds_live(new.tree(), other) implies new.point_ids@.contains(other) by {
        lemma_holds_live(new.tree(), other);
        lemma_holds_live(old.tree(), other);
        let p: Point = choose|p: Point| #[trigger] live_set(new.tree()).contains(p) && p.id
            == other;
        assert(live_set(old.tree()).contains(p));
        assert(other != id);
    }
}

/// No two points have the same identifier.
pub open spec fn one_each(ps: Multiset<Point>) -> bool {
    forall|id: PointId| #[trigger] with_id(ps, id).len() <= 1
}

/// Sizes, order, both counters and the known identifiers tell the nodes of the tree, and no
/// two points that were not deleted have the same identifier.
pub open spec fn sound(index: KDTree) -> bool {
    &&& sized(index.tree())
    &&& ordered(index.tree(), 0, index.dim as nat)
    &&& index.total_nodes == points(index.tree()).len()
    &&& index.deleted_count == tombstones(index.tree())
    &&& forall|id: PointId| #[trigger]
        index.point_ids@.contains(id) <==> holds_live(index.tree(), id)
    &&& one_each(live_set(index.tree()))
    &&& index.wf()
    &&& index.searchable()
}

/// An index that was just made, without points or from the given ones.
pub open spec fn made_from(index: KDTree, ps: Seq<Point>) -> bool {
    &&& index.wf()
    &&& index.dim > 0
    &&& built(index.tree(), ps.to_multiset(), 0, index.dim as nat)
    &&& index.point_ids@ == ids_of(ps)
    &&& all_numbers(ps.to_multiset(), index.dim as nat)
    &&& one_each(ps.to_multiset())
}

/// `new` comes from `old` by inserting a point under an identifier that no point has.
pub open spec fn grows(old: KDTree, new: KDTree, p: Point) -> bool {
    &&& p.vector.len() >= old.dim
    &&& has_numbers(p, old.dim as nat)
    &&& !holds_live(old.tree(), p.id)
    &&& added(old, new, p)
}

/// `new` comes from `old` by deleting an identifier, known or not.
pub open spec fn forgets(old: KDTree, new: KDTree, id: PointId) -> bool {
    if old.point_ids@.contains(id) {
        removed(old, new, id)
    } else {
        new == old
    }
}

/// `new` comes from `old` by an insertion or a deletion.
pub open spec fn step(old: KDTree, new: KDTree) -> bool {
    ||| exists|p: Point| grows(old, new, p)
    ||| exists|id: PointId| forgets(old, new, id)
}

/// A sequence of states, each of which comes from the one before by a step.
pub open spec fn history(states: Seq<KDTree>) -> bool {
    forall|i: int| 0 < i < states.len() ==> step(states[i - 1], #[trigger] states[i])
}

/// An index without points is one that was made from none.
pub proof fn law_empty_is_made(index: KDTree)
    requires
        index.wf(),
        index.dim > 0,
        index.tree() is Empty,
        index.point_ids@ == Set::<PointId>::empty(),
    ensures
        made_from(index, Seq::<Point>::empty()),
{
    let none: Seq<Point> = Seq::empty();
    vstd::seq_lib::to_multiset_len(none);
    assert(none.to_multiset() =~= Multiset::empty());
    assert(ids_of(none) =~= Set::<PointId>::empty());
    assert forall|id: PointId| #[trigger] with_id(none.to_multiset(), id).len() <= 1 by {
        assert(with_id(none.to_multiset(), id) =~= Multiset::empty());
    }
}

/// A new index is sound.
proof fn lemma_made_is_sound(index: KDTree, ps: Seq<Point>)
    requires
        made_from(index, ps),
    ensures
        sound(index),
{
    law_built_is_listed(index, ps);
    lemma_live_within(index.tree());
    lemma_counts(index.tree());
}

/// An insertion or a deletion leaves a sound index sound.
proof fn lemma_step_is_sound(old: KDTree, new: KDTree)
    requires
        sound(old),
        old.dim > 0,
        step(old, new),
    ensures
        sound(new),
        new.dim == old.dim,
{
    assert(listed(old));
    if exists|p: Point| grows(old, new, p) {
        let p: Point = choose|p: Point| grows(old, new, p);
        lemma_added(old, new, p);
        law_insert_keeps_listed(old, new, p);
        lemma_holds_live(old.tree(), p.id);
        assert forall|id: PointId| #[trigger] with_id(live_set(new.tree()), id).len() <= 1 by {
            let before: Multiset<Point> = with_id(live_set(old.tree()), id);
            let after: Multiset<Point> = with_id(live_set(new.tree()), id);
            assert(before.len() <= 1);
            if id == p.id {
                if before.len() > 0 {
                    let x: Point = before.choose();
                    assert(before.contains(x));
                    assert(live_set(old.tree()).contains(x));
                    assert(false);
                }
                assert(after =~= before.insert(p));
            } else {
                assert(after =~= before);
            }
        }
    } else {
        let id: PointId = choose|id: PointId| forgets(old, new, id);
        if old.point_ids@.contains(id) {
            lemma_removed(old, new, id);
            law_delete_takes_one(old, new, id);
            let first: Point = first_holder(old.tree(), id);
            let ours: Multiset<Point> = with_id(live_set(old.tree()), id);
            assert(ours.len() <= 1);
            assert(ours.count(first) > 0);
            assert(ours.count(first) <= ours.len());
            law_delete_keeps_listed(old, new, id);
            assert forall|other: PointId| #[trigger]
                with_id(live_set(new.tree()), other).len() <= 1 by {
                let before: Multiset<Point> = with_id(live_set(old.tree()), other);
                let after: Multiset<Point> = with_id(live_set(new.tree()), other);
                assert(before.len() <= 1);
                assert(after.subset_of(before));
                assert(before.sub(after).len() + after.len() == before.len());
            }
        }
    }
    lemma_counts(new.tree());
}

/// Through any sequence of insertions and deletions on a new index, sizes, order, both
/// counters and the known identifiers tell the nodes of the tree, as long as no point is
/// inserted under an identifier that another one has.
pub proof fn law_every_state_is_sound(states: Seq<KDTree>, ps: Seq<Point>)
    requires
        states.len() > 0,
        made_from(states[0], ps),
        history(states),
    ensures
        forall|i: int| 0 <= i < states.len() ==> sound(#[trigger] states[i]),
        forall|i: int| 0 <= i < states.len() ==> (#[trigger] states[i]).dim == states[0].dim,
    decreases states.len(),
{
    if states.len() == 1 {
        lemma_made_is_sound(states[0], ps);
    } else {
        let n: int = states.len() - 1;
        let earlier: Seq<KDTree> = states.drop_last();
        assert(history(earlier)) by {
            assert forall|i: int| 0 < i < earlier.len() implies step(
                earlier[i - 1],
                #[trigger] earlier[i],
            ) by {
                assert(earlier[i] == states[i] && earlier[i - 1] == states[i - 1]);
            }
        }
        law_every_state_is_sound(earlier, ps);
        assert(earlier[n - 1] == states[n - 1]);
        assert(sound(earlier[n - 1]) && earlier[n - 1].dim == states[0].dim);
        lemma_step_is_sound(states[n - 1], states[n]);
        assert forall|i: int| 0 <= i < states.len() implies sound(#[trigger] states[i])
            && states[i].dim == states[0].dim by {
            if i < n {
                assert(earlier[i] == states[i]);
            }
        }
    }
}

} // verus!
