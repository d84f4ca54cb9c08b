//! What a deletion leaves behind.
use vstd::prelude::*;
use crate::consistency::{
    lemma_arm_cut, lemma_arm_cut_edges, lemma_arm_struck, lemma_branch_released, lemma_edges_stay,
    lemma_index_of, lemma_link_cut, lemma_note_of, lemma_note_removed, lemma_points_to_alike,
    lemma_points_to_remove, lemma_points_to_update, lemma_same_notes, lemma_settle_frame,
};
use crate::graph::{
    arm_cut, arm_to, arms_cut, arms_of, backlinks_of, branch_reaching, branch_released, cascade,
    consistent, edges_kept, edges_of, has_arm_to, has_link, has_note, index_of, leads_kept,
    link_cut, link_deleted, link_to, lost_by_arm, no_new_orphan, note_deleted, note_of, note_with,
    orphaned, orphans_released, pending_free, points_to, pruned, released, roots_kept, same_content,
    survivors, targets_of, unlinked, weight, with_arms, with_edges,
};
use crate::search::{lemma_position, lemma_position_found, position, without_first};
use crate::termination::{
    lemma_arm_cut_weight, lemma_arms_cut_weight, lemma_branch_released_weight,
    lemma_link_cut_weight, lemma_released_orphan, lemma_released_trans, lemma_weight_remove,
};
use crate::types::{FLinkView, NoteView};

verus! {

/// Pruning is transitive.
pub proof fn lemma_pruned_trans(s: Seq<NoteView>, t: Seq<NoteView>, u: Seq<NoteView>)
    requires
        pruned(s, t),
        pruned(t, u),
    ensures
        pruned(s, u),
{
    lemma_released_trans(s, t, u);
    assert forall|k: int, x: Seq<char>|
        0 <= k < s.len() && #[trigger] has_arm_to(u[k].forwardlinks, x) implies has_arm_to(
        s[k].forwardlinks,
        x,
    ) by {
        assert(has_arm_to(t[k].forwardlinks, x));
    }
}

/// Cutting a plain link prunes the store and touches the back-links of
/// the link's target alone.
pub proof fn lemma_link_cut_pruned(s: Seq<NoteView>, from: Seq<char>, to: Seq<char>)
    requires
        has_note(s, from),
    ensures
        pruned(s, link_cut(s, from, to)),
        forall|k: int|
            0 <= k < s.len() && s[k].id != to ==> (#[trigger] link_cut(s, from, to)[k]).backlinks
                == s[k].backlinks,
{
    lemma_note_of(s, from);
    let i = index_of(s, from);
    let old_edges = s[i].forwardlinks;
    let edges = without_first(old_edges, link_to(to));
    let t = link_cut(s, from, to);
    lemma_link_cut_weight(s, from, to);
    lemma_edges_stay(s, i, edges, from, to);
    lemma_settle_frame(with_edges(s, i, edges), from, to);
    lemma_position(old_edges, link_to(to));
    assert forall|k: int, x: Seq<char>|
        0 <= k < s.len() && #[trigger] has_arm_to(t[k].forwardlinks, x) implies has_arm_to(
        s[k].forwardlinks,
        x,
    ) by {
        if k == i && position(old_edges, link_to(to)) < old_edges.len() {
            lemma_points_to_remove(old_edges, position(old_edges, link_to(to)), x);
        }
    }
}

/// Cutting an arm prunes the store and touches the back-links of the
/// arm's target alone.
pub proof fn lemma_arm_cut_pruned(s: Seq<NoteView>, note: Seq<char>, p: int, target: Seq<char>)
    requires
        has_note(s, note),
        0 <= p < note_of(s, note).forwardlinks.len(),
    ensures
        pruned(s, arm_cut(s, note, p, target)),
        forall|k: int|
            0 <= k < s.len() && s[k].id != target ==> (#[trigger] arm_cut(
                s,
                note,
                p,
                target,
            )[k]).backlinks == s[k].backlinks,
{
    lemma_note_of(s, note);
    let i = index_of(s, note);
    let old_edges = s[i].forwardlinks;
    let old_arms = arms_of(old_edges[p]);
    let arms = without_first(old_arms, arm_to(target));
    let edge = with_arms(old_edges[p], arms);
    let edges = old_edges.update(p, edge);
    let t = arm_cut(s, note, p, target);
    lemma_arm_cut_weight(s, note, p, target);
    lemma_edges_stay(s, i, edges, note, target);
    lemma_settle_frame(with_edges(s, i, edges), note, target);
    assert forall|k: int, x: Seq<char>|
        0 <= k < s.len() && #[trigger] has_arm_to(t[k].forwardlinks, x) implies has_arm_to(
        s[k].forwardlinks,
        x,
    ) by {
        if k == i {
            lemma_points_to_update(old_edges, p, edge, x);
            lemma_points_to_remove(old_edges, p, x);
            lemma_arm_struck(old_arms, target, x);
        }
    }
}

/// Cutting arms one after the other prunes the store and touches the
/// back-links of the arms' targets alone.
pub proof fn lemma_arms_cut_pruned(
    s: Seq<NoteView>,
    note: Seq<char>,
    p: int,
    targets: Seq<Seq<char>>,
)
    requires
        has_note(s, note),
        0 <= p < note_of(s, note).forwardlinks.len(),
    ensures
        pruned(s, arms_cut(s, note, p, targets)),
        forall|k: int|
            0 <= k < s.len() && !targets.contains(s[k].id) ==> (#[trigger] arms_cut(
                s,
                note,
                p,
                targets,
            )[k]).backlinks == s[k].backlinks,
    decreases targets.len(),
{
    lemma_arms_cut_weight(s, note, p, targets);
    if targets.len() > 0 {
        let next = arm_cut(s, note, p, targets[0]);
        let rest = targets.drop_first();
        lemma_arm_cut_pruned(s, note, p, targets[0]);
        lemma_arm_cut_edges(s, note, p, targets[0]);
        lemma_arms_cut_pruned(next, note, p, rest);
        let last = arms_cut(next, note, p, rest);
        lemma_pruned_trans(s, next, last);
        assert forall|k: int| 0 <= k < s.len() && !targets.contains(s[k].id) implies (
        #[trigger] last[k]).backlinks == s[k].backlinks by {
            assert(same_content(s[k], next[k]));
            assert(targets[0] != s[k].id);
            if rest.contains(s[k].id) {
                let m = choose|m: int| 0 <= m < rest.len() && rest[m] == s[k].id;
                assert(targets[m + 1] == s[k].id);
            }
            assert(next[k].backlinks == s[k].backlinks);
        }
    }
}

/// Releasing a branch prunes the store and touches the back-links of the
/// targets of its arms alone.
pub proof fn lemma_branch_released_pruned(s: Seq<NoteView>, note: Seq<char>, p: int)
    requires
        has_note(s, note),
        0 <= p < note_of(s, note).forwardlinks.len(),
    ensures
        pruned(s, branch_released(s, note, p)),
        forall|k: int|
            0 <= k < s.len() && !has_arm_to(note_of(s, note).forwardlinks, s[k].id) ==> (
            #[trigger] branch_released(s, note, p)[k]).backlinks == s[k].backlinks,
{
    lemma_note_of(s, note);
    let i = index_of(s, note);
    let edges = s[i].forwardlinks;
    let arms = arms_of(edges[p]);
    let targets = targets_of(arms);
    let cut = arms_cut(s, note, p, targets);
    let t = branch_released(s, note, p);
    lemma_arms_cut_pruned(s, note, p, targets);
    lemma_arms_cut_weight(s, note, p, targets);
    lemma_branch_released_weight(s, note, p);
    lemma_same_notes(s, cut, note);
    assert forall|k: int, x: Seq<char>|
        0 <= k < s.len() && #[trigger] has_arm_to(t[k].forwardlinks, x) implies has_arm_to(
        s[k].forwardlinks,
        x,
    ) by {
        if k == i {
            lemma_points_to_remove(cut[i].forwardlinks, p, x);
        }
        assert(has_arm_to(cut[k].forwardlinks, x));
    }
    assert forall|k: int|
        0 <= k < s.len() && !has_arm_to(edges, s[k].id) implies (#[trigger] t[k]).backlinks
        == s[k].backlinks by {
        if targets.contains(s[k].id) {
            let m = choose|m: int| 0 <= m < targets.len() && targets[m] == s[k].id;
            assert(arms[m].id == s[k].id);
            lemma_position_found(arms, arm_to(s[k].id), m);
            assert(branch_reaching(s[k].id)(edges[p]));
            lemma_position_found(edges, branch_reaching(s[k].id), p);
        }
    }
}

/// What holds between a store and the end of a deletion if it holds
/// between the store after one cut and that end.
proof fn lemma_after_cut(s: Seq<NoteView>, t: Seq<NoteView>, r: Seq<NoteView>)
    requires
        pruned(s, t),
        survivors(t, r),
        no_new_orphan(t, r),
        forall|k: int|
            0 <= k < s.len() && (#[trigger] t[k]).backlinks.len() == 0 && s[k].backlinks.len() > 0
                ==> !has_note(r, s[k].id) || lost_by_arm(s, r, s[k].id),
    ensures
        survivors(s, r),
        no_new_orphan(s, r),
{
    assert forall|id: Seq<char>| #[trigger] has_note(r, id) implies has_note(s, id)
        && same_content(note_of(s, id), note_of(r, id)) by {
        lemma_same_notes(s, t, id);
        lemma_note_of(t, id);
        assert(same_content(s[index_of(s, id)], t[index_of(s, id)]));
    }
    assert forall|id: Seq<char>, source: Seq<char>|
        has_note(r, id) && #[trigger] backlinks_of(r, id).contains(source) implies backlinks_of(
        s,
        id,
    ).contains(source) by {
        lemma_same_notes(s, t, id);
        lemma_note_of(t, id);
        assert(backlinks_of(t, id).contains(source));
        assert(t[index_of(s, id)].backlinks.contains(source));
    }
    assert forall|id: Seq<char>| #[trigger] orphaned(r, id) implies orphaned(s, id) || lost_by_arm(
        s,
        r,
        id,
    ) by {
        if orphaned(t, id) {
            lemma_same_notes(s, t, id);
            lemma_note_of(t, id);
            let k = index_of(s, id);
            assert(same_content(s[k], t[k]));
            assert(t[k].backlinks.len() == 0);
        } else {
            assert(lost_by_arm(t, r, id));
            let x = choose|x: Seq<char>|
                has_note(t, x) && !has_note(r, x) && #[trigger] has_arm_to(
                    note_of(t, x).forwardlinks,
                    id,
                );
            lemma_same_notes(s, t, x);
            lemma_note_of(t, x);
            assert(has_arm_to(t[index_of(s, x)].forwardlinks, id));
            assert(has_arm_to(note_of(s, x).forwardlinks, id));
        }
    }
}

/// Edges and roots are kept from a store to the end of a deletion if they
/// are kept from the store after one cut of `note`, which is gone in the
/// end.
proof fn lemma_kept_after_cut(
    s: Seq<NoteView>,
    t: Seq<NoteView>,
    r: Seq<NoteView>,
    note: Seq<char>,
    pending: Seq<Seq<char>>,
    next: Seq<Seq<char>>,
)
    requires
        pruned(s, t),
        forall|k: int|
            0 <= k < s.len() && s[k].id != note ==> (#[trigger] t[k]).forwardlinks
                == s[k].forwardlinks,
        !has_note(r, note),
        survivors(t, r),
        edges_kept(t, r),
        roots_kept(t, r, next),
        forall|x: Seq<char>| orphaned(s, x) && !pending.contains(x) ==> !next.contains(x),
    ensures
        edges_kept(s, r),
        roots_kept(s, r, pending),
{
    assert forall|x: Seq<char>| #[trigger] has_note(r, x) implies edges_of(r, x) == edges_of(
        s,
        x,
    ) by {
        lemma_same_notes(s, t, x);
        lemma_note_of(t, x);
        assert(same_content(s[index_of(s, x)], t[index_of(s, x)]));
    }
    assert forall|x: Seq<char>| orphaned(s, x) && !pending.contains(x) implies #[trigger] has_note(
        r,
        x,
    ) by {
        lemma_released_orphan(s, t, x);
    }
}

/// What holds between a store and the end of a deletion if it holds
/// between the store without a note that has no edges and that end.
proof fn lemma_after_removal(s: Seq<NoteView>, i: int, r: Seq<NoteView>)
    requires
        consistent(s),
        0 <= i < s.len(),
        s[i].backlinks.len() == 0,
        s[i].forwardlinks.len() == 0,
        survivors(s.remove(i), r),
        no_new_orphan(s.remove(i), r),
        edges_kept(s.remove(i), r),
    ensures
        survivors(s, r),
        no_new_orphan(s, r),
        edges_kept(s, r),
{
    let t = s.remove(i);
    lemma_note_removed(s, i);
    assert forall|x: Seq<char>| #[trigger] has_note(r, x) implies edges_of(r, x) == edges_of(
        s,
        x,
    ) by {
        assert(has_note(t, x));
        assert(note_of(t, x) == note_of(s, x));
    }
    assert forall|x: Seq<char>| #[trigger] has_note(r, x) implies has_note(s, x) && same_content(
        note_of(s, x),
        note_of(r, x),
    ) by {
        assert(has_note(t, x));
        assert(note_of(t, x) == note_of(s, x));
    }
    assert forall|x: Seq<char>, source: Seq<char>|
        has_note(r, x) && #[trigger] backlinks_of(r, x).contains(source) implies backlinks_of(
        s,
        x,
    ).contains(source) by {
        assert(has_note(t, x));
        assert(note_of(t, x) == note_of(s, x));
        assert(backlinks_of(t, x).contains(source));
    }
    assert forall|x: Seq<char>| #[trigger] orphaned(r, x) implies orphaned(s, x) || lost_by_arm(
        s,
        r,
        x,
    ) by {
        if orphaned(t, x) {
            assert(note_of(t, x) == note_of(s, x));
        } else {
            assert(lost_by_arm(t, r, x));
            let y = choose|y: Seq<char>|
                has_note(t, y) && !has_note(r, y) && #[trigger] has_arm_to(
                    note_of(t, y).forwardlinks,
                    x,
                );
            assert(note_of(t, y) == note_of(s, y));
            assert(has_arm_to(note_of(s, y).forwardlinks, x));
        }
    }
}

/// What holds of the end `r` of a release of `pending` from `s`: `r` is
/// consistent, the notes released are gone, every note that stays was
/// there before with its content and its edges, no note that stays has
/// lost its last back-link unless an arm of a note that is gone had led
/// to it, and a note that nothing pointed to stays unless it was to be
/// released.
pub open spec fn cascaded(s: Seq<NoteView>, pending: Seq<Seq<char>>, r: Seq<NoteView>) -> bool {
    &&& consistent(r)
    &&& forall|k: int| 0 <= k < pending.len() ==> !has_note(r, #[trigger] pending[k])
    &&& survivors(s, r)
    &&& no_new_orphan(s, r)
    &&& edges_kept(s, r)
    &&& roots_kept(s, r, pending)
}

/// A release whose last note is not in the store.
proof fn lemma_cascade_absent(s: Seq<NoteView>, pending: Seq<Seq<char>>, r: Seq<NoteView>)
    requires
        pending.len() > 0,
        !has_note(s, pending.last()),
        cascaded(s, pending.drop_last(), r),
    ensures
        cascaded(s, pending, r),
{
    let rest = pending.drop_last();
    assert forall|k: int| 0 <= k < pending.len() implies !has_note(r, #[trigger] pending[k]) by {
        if k < rest.len() {
            assert(rest[k] == pending[k]);
        }
    }
    assert forall|x: Seq<char>| !pending.contains(x) implies !rest.contains(x) by {
        if rest.contains(x) {
            let k = choose|k: int| 0 <= k < rest.len() && rest[k] == x;
            assert(pending[k] == x);
        }
    }
}

/// The notes still to be released once the last one is done.
proof fn lemma_rest_free(s: Seq<NoteView>, t: Seq<NoteView>, pending: Seq<Seq<char>>)
    requires
        pending.len() > 0,
        pending_free(s, pending),
        forall|x: Seq<char>|
            x != pending.last() && #[trigger] has_note(t, x) ==> has_note(s, x) && note_of(t, x)
                == note_of(s, x),
        !has_note(t, pending.last()) || t == s,
    ensures
        pending_free(t, pending.drop_last()),
{
    let rest = pending.drop_last();
    assert forall|k: int|
        0 <= k < rest.len() && has_note(t, #[trigger] rest[k]) implies orphaned(t, rest[k]) by {
        assert(rest[k] == pending[k]);
    }
}

/// A release whose last note has no edges left: the note leaves the
/// store.
proof fn lemma_cascade_removal(s: Seq<NoteView>, pending: Seq<Seq<char>>, r: Seq<NoteView>)
    requires
        consistent(s),
        pending_free(s, pending),
        pending.len() > 0,
        has_note(s, pending.last()),
        edges_of(s, pending.last()).len() == 0,
        cascaded(s.remove(index_of(s, pending.last())), pending.drop_last(), r),
    ensures
        cascaded(s, pending, r),
{
    let id = pending.last();
    let i = index_of(s, id);
    let rest = pending.drop_last();
    let t = s.remove(i);
    lemma_note_of(s, id);
    assert(orphaned(s, pending[pending.len() - 1]));
    lemma_note_removed(s, i);
    lemma_after_removal(s, i, r);
    assert forall|k: int| 0 <= k < pending.len() implies !has_note(r, #[trigger] pending[k]) by {
        if k < rest.len() {
            assert(rest[k] == pending[k]);
        }
    }
    assert forall|x: Seq<char>| orphaned(s, x) && !pending.contains(x) implies #[trigger] has_note(
        r,
        x,
    ) by {
        assert(pending[pending.len() - 1] == id);
        assert(note_of(t, x) == note_of(s, x));
        if rest.contains(x) {
            let k = choose|k: int| 0 <= k < rest.len() && rest[k] == x;
            assert(pending[k] == x);
        }
    }
}

/// The notes to be released after a cut, with `more` next if it was left
/// without back-links.
proof fn lemma_next_free(
    s: Seq<NoteView>,
    t: Seq<NoteView>,
    pending: Seq<Seq<char>>,
    next: Seq<Seq<char>>,
    more: Seq<char>,
)
    requires
        pending_free(s, pending),
        released(s, t),
        next == pending || (next == pending.push(more) && orphaned(t, more)),
    ensures
        pending_free(t, next),
{
    assert forall|k: int|
        0 <= k < next.len() && has_note(t, #[trigger] next[k]) implies orphaned(t, next[k]) by {
        if k < pending.len() {
            assert(next[k] == pending[k]);
            lemma_released_orphan(s, t, pending[k]);
        }
    }
}

/// A release whose last note has a plain link first: the link is cut, and
/// its target is released next if nothing points to it any more.
proof fn lemma_cascade_link(
    s: Seq<NoteView>,
    pending: Seq<Seq<char>>,
    target: Seq<char>,
    r: Seq<NoteView>,
)
    requires
        consistent(s),
        pending_free(s, pending),
        pending.len() > 0,
        has_note(s, pending.last()),
        edges_of(s, pending.last()).len() > 0,
        link_to(target)(edges_of(s, pending.last())[0]),
        cascaded(
            link_cut(s, pending.last(), target),
            if orphaned(link_cut(s, pending.last(), target), target) {
                pending.push(target)
            } else {
                pending
            },
            r,
        ),
    ensures
        cascaded(s, pending, r),
{
    let id = pending.last();
    let i = index_of(s, id);
    lemma_note_of(s, id);
    let t = link_cut(s, id, target);
    let next = if orphaned(t, target) {
        pending.push(target)
    } else {
        pending
    };
    lemma_position_found(s[i].forwardlinks, link_to(target), 0);
    lemma_link_cut(s, id, target);
    lemma_link_cut_pruned(s, id, target);
    lemma_edges_stay(s, i, without_first(s[i].forwardlinks, link_to(target)), id, target);
    assert(points_to(s[i].forwardlinks, target));
    assert(has_note(s, target));
    lemma_note_of(s, target);
    let j = index_of(s, target);
    assert forall|k: int| 0 <= k < pending.len() implies !has_note(r, #[trigger] pending[k]) by {
        assert(next[k] == pending[k]);
    }
    assert forall|k: int|
        0 <= k < s.len() && (#[trigger] t[k]).backlinks.len() == 0 && s[k].backlinks.len() > 0
            implies !has_note(r, s[k].id) || lost_by_arm(s, r, s[k].id) by {
        assert(s[k].id == target);
        lemma_index_of(s, k);
        lemma_same_notes(s, t, target);
        assert(orphaned(t, target));
        assert(next[pending.len() as int] == target);
    }
    lemma_after_cut(s, t, r);
    assert(!has_note(r, pending[pending.len() - 1]));
    assert(s[j].backlinks.contains(s[i].id) <==> points_to(s[i].forwardlinks, s[j].id));
    assert forall|x: Seq<char>| orphaned(s, x) && !pending.contains(x) implies !next.contains(
        x,
    ) by {
        if next.contains(x) {
            let k = choose|k: int| 0 <= k < next.len() && next[k] == x;
            if k < pending.len() {
                assert(pending[k] == x);
            }
        }
    }
    lemma_kept_after_cut(s, t, r, id, pending, next);
}

/// A release whose last note has a branch first: the branch is released.
proof fn lemma_cascade_branch(s: Seq<NoteView>, pending: Seq<Seq<char>>, r: Seq<NoteView>)
    requires
        consistent(s),
        pending_free(s, pending),
        pending.len() > 0,
        has_note(s, pending.last()),
        edges_of(s, pending.last()).len() > 0,
        edges_of(s, pending.last())[0] is Branch,
        cascaded(branch_released(s, pending.last(), 0), pending, r),
    ensures
        cascaded(s, pending, r),
{
    let id = pending.last();
    lemma_note_of(s, id);
    let t = branch_released(s, id, 0);
    lemma_branch_released(s, id, 0);
    lemma_branch_released_pruned(s, id, 0);
    assert(!has_note(r, pending[pending.len() - 1]));
    assert forall|k: int|
        0 <= k < s.len() && (#[trigger] t[k]).backlinks.len() == 0 && s[k].backlinks.len() > 0
            implies !has_note(r, s[k].id) || lost_by_arm(s, r, s[k].id) by {
        assert(has_arm_to(note_of(s, id).forwardlinks, s[k].id));
    }
    lemma_after_cut(s, t, r);
    lemma_kept_after_cut(s, t, r, id, pending, pending);
}

/// Releasing notes that nothing points to leaves a consistent store
/// consistent, and leaves what `cascaded` says.
pub proof fn lemma_cascade(s: Seq<NoteView>, pending: Seq<Seq<char>>)
    requires
        consistent(s),
        pending_free(s, pending),
    ensures
        cascaded(s, pending, cascade(s, pending)),
    decreases weight(s), pending.len(),
{
    let r = cascade(s, pending);
    if pending.len() > 0 {
        let id = pending.last();
        let i = index_of(s, id);
        let rest = pending.drop_last();
        lemma_position(s, note_with(id));
        if i >= s.len() {
            lemma_rest_free(s, s, pending);
            lemma_cascade(s, rest);
            lemma_cascade_absent(s, pending, r);
        } else if s[i].forwardlinks.len() == 0 {
            let t = s.remove(i);
            assert(orphaned(s, pending[pending.len() - 1]));
            lemma_note_removed(s, i);
            lemma_rest_free(s, t, pending);
            lemma_weight_remove(s, i);
            lemma_cascade(t, rest);
            lemma_cascade_removal(s, pending, r);
        } else {
            match s[i].forwardlinks[0] {
                FLinkView::Link(link) => {
                    let t = link_cut(s, id, link.id);
                    let next = if orphaned(t, link.id) {
                        pending.push(link.id)
                    } else {
                        pending
                    };
                    lemma_position_found(s[i].forwardlinks, link_to(link.id), 0);
                    lemma_link_cut(s, id, link.id);
                    lemma_link_cut_weight(s, id, link.id);
                    lemma_next_free(s, t, pending, next, link.id);
                    lemma_cascade(t, next);
                    lemma_cascade_link(s, pending, link.id, r);
                },
                FLinkView::Branch(_) => {
                    let t = branch_released(s, id, 0);
                    lemma_branch_released(s, id, 0);
                    lemma_branch_released_weight(s, id, 0);
                    lemma_next_free(s, t, pending, pending, id);
                    lemma_cascade(t, pending);
                    lemma_cascade_branch(s, pending, r);
                },
            }
        }
    }
}

/// Cutting an edge of `source` that leads to `id`, a plain link if there
/// is one and an arm otherwise, leaves every note leading where it led,
/// `id` left aside.
proof fn lemma_cut_leads(s: Seq<NoteView>, source: Seq<char>, id: Seq<char>, k: int, x: Seq<char>)
    requires
        has_note(s, source),
        0 <= k < s.len(),
        x != id,
        has_link(edges_of(s, source), id) || has_arm_to(edges_of(s, source), id),
    ensures
        ({
            let edges = edges_of(s, source);
            let t = if has_link(edges, id) {
                link_cut(s, source, id)
            } else {
                arm_cut(s, source, position(edges, branch_reaching(id)), id)
            };
            points_to(t[k].forwardlinks, x) == points_to(s[k].forwardlinks, x)
        }),
{
    lemma_note_of(s, source);
    let i = index_of(s, source);
    let edges = s[i].forwardlinks;
    if has_link(edges, id) {
        let at = position(edges, link_to(id));
        lemma_position(edges, link_to(id));
        lemma_edges_stay(s, i, without_first(edges, link_to(id)), source, id);
        lemma_points_to_remove(edges, at, x);
    } else {
        let p = position(edges, branch_reaching(id));
        lemma_position(edges, branch_reaching(id));
        let arms = without_first(arms_of(edges[p]), arm_to(id));
        let edge = with_arms(edges[p], arms);
        lemma_edges_stay(s, i, edges.update(p, edge), source, id);
        lemma_arm_struck(arms_of(edges[p]), id, x);
        lemma_points_to_alike(edges, p, edge, x);
    }
}

/// Cutting every edge that leads to a note of a consistent store leaves
/// the store consistent and pruned, with nothing pointing to the note,
/// and with the back-links of every other note as they were.
pub proof fn lemma_unlinked(s: Seq<NoteView>, id: Seq<char>)
    requires
        consistent(s),
        has_note(s, id),
    ensures
        consistent(unlinked(s, id)),
        pruned(s, unlinked(s, id)),
        orphaned(unlinked(s, id), id),
        forall|k: int|
            0 <= k < s.len() && s[k].id != id ==> (#[trigger] unlinked(s, id)[k]).backlinks
                == s[k].backlinks,
        forall|k: int, x: Seq<char>|
            0 <= k < s.len() && x != id ==> (#[trigger] points_to(
                unlinked(s, id)[k].forwardlinks,
                x,
            )) == points_to(s[k].forwardlinks, x),
    decreases weight(s),
{
    lemma_note_of(s, id);
    let j = index_of(s, id);
    if s[j].backlinks.len() == 0 {
    } else {
        let source = s[j].backlinks[0];
        assert(has_note(s, s[j].backlinks[0]));
        lemma_note_of(s, source);
        let i = index_of(s, source);
        assert(s[j].backlinks.contains(s[i].id));
        assert(s[j].backlinks.contains(s[i].id) <==> points_to(s[i].forwardlinks, s[j].id));
        let t = if has_link(s[i].forwardlinks, id) {
            link_cut(s, source, id)
        } else {
            arm_cut(s, source, position(s[i].forwardlinks, branch_reaching(id)), id)
        };
        if has_link(s[i].forwardlinks, id) {
            lemma_link_cut(s, source, id);
            lemma_link_cut_pruned(s, source, id);
            lemma_link_cut_weight(s, source, id);
        } else {
            let p = position(s[i].forwardlinks, branch_reaching(id));
            lemma_position(s[i].forwardlinks, branch_reaching(id));
            lemma_arm_cut(s, source, p, id);
            lemma_arm_cut_pruned(s, source, p, id);
            lemma_arm_cut_weight(s, source, p, id);
        }
        lemma_same_notes(s, t, id);
        lemma_unlinked(t, id);
        let u = unlinked(t, id);
        lemma_pruned_trans(s, t, u);
        assert forall|k: int, x: Seq<char>|
            0 <= k < s.len() && x != id implies (#[trigger] points_to(u[k].forwardlinks, x))
            == points_to(s[k].forwardlinks, x) by {
            assert(points_to(u[k].forwardlinks, x) == points_to(t[k].forwardlinks, x));
            lemma_cut_leads(s, source, id, k, x);
        }
        assert forall|k: int| 0 <= k < s.len() && s[k].id != id implies (#[trigger] u[k]).backlinks
            == s[k].backlinks by {
            assert(same_content(s[k], t[k]));
            assert(t[k].backlinks == s[k].backlinks);
        }
    }
}

/// Deleting a note of a consistent store leaves the store consistent.
/// The note is gone; every note that stays was there before, with its
/// content; and no note that stays has lost its last back-link, unless an
/// arm of a note that is gone had led to it.
pub proof fn lemma_note_deleted(s: Seq<NoteView>, id: Seq<char>)
    requires
        consistent(s),
        has_note(s, id),
    ensures
        consistent(note_deleted(s, id)),
        !has_note(note_deleted(s, id), id),
        survivors(s, note_deleted(s, id)),
        no_new_orphan(s, note_deleted(s, id)),
        leads_kept(s, note_deleted(s, id), id),
        roots_kept(s, note_deleted(s, id), seq![id]),
{
    let u = unlinked(s, id);
    let pending = seq![id];
    lemma_unlinked(s, id);
    assert(pending_free(u, pending));
    lemma_cascade(u, pending);
    let r = note_deleted(s, id);
    assert(!has_note(r, pending[0]));
    assert forall|k: int|
        0 <= k < s.len() && (#[trigger] u[k]).backlinks.len() == 0 && s[k].backlinks.len() > 0
            implies !has_note(r, s[k].id) || lost_by_arm(s, r, s[k].id) by {
        assert(s[k].id == id);
    }
    lemma_after_cut(s, u, r);
    assert forall|x: Seq<char>, target: Seq<char>|
        has_note(r, x) && target != id implies (#[trigger] points_to(edges_of(r, x), target))
        == points_to(edges_of(s, x), target) by {
        assert(edges_of(r, x) == edges_of(u, x));
        lemma_same_notes(s, u, x);
        lemma_note_of(u, x);
        assert(points_to(u[index_of(s, x)].forwardlinks, target) == points_to(
            s[index_of(s, x)].forwardlinks,
            target,
        ));
    }
    assert forall|x: Seq<char>| orphaned(s, x) && !pending.contains(x) implies #[trigger] has_note(
        r,
        x,
    ) by {
        lemma_released_orphan(s, u, x);
    }
}

/// Deleting a plain link of a consistent store leaves the store
/// consistent. Every note that stays was there before, with its content;
/// and no note that stays has lost its last back-link, unless an arm of a
/// note that is gone had led to it.
pub proof fn lemma_link_deleted(s: Seq<NoteView>, from: Seq<char>, to: Seq<char>)
    requires
        consistent(s),
        has_note(s, from),
    ensures
        consistent(link_deleted(s, from, to)),
        survivors(s, link_deleted(s, from, to)),
        no_new_orphan(s, link_deleted(s, from, to)),
        edges_kept(link_cut(s, from, to), link_deleted(s, from, to)),
        roots_kept(link_cut(s, from, to), link_deleted(s, from, to), seq![to]),
{
    let t = link_cut(s, from, to);
    let r = link_deleted(s, from, to);
    lemma_link_cut(s, from, to);
    lemma_link_cut_pruned(s, from, to);
    if orphaned(t, to) {
        let pending = seq![to];
        assert(pending_free(t, pending));
        lemma_cascade(t, pending);
        assert(!has_note(r, pending[0]));
        assert forall|k: int|
            0 <= k < s.len() && (#[trigger] t[k]).backlinks.len() == 0 && s[k].backlinks.len() > 0
                implies !has_note(r, s[k].id) || lost_by_arm(s, r, s[k].id) by {
            assert(s[k].id == to);
        }
    } else {
        assert forall|k: int|
            0 <= k < s.len() && (#[trigger] t[k]).backlinks.len() == 0 && s[k].backlinks.len() > 0
                implies !has_note(r, s[k].id) || lost_by_arm(s, r, s[k].id) by {
            assert(s[k].id == to);
            lemma_index_of(s, k);
            lemma_same_notes(s, t, to);
        }
    }
    lemma_after_cut(s, t, r);
}

/// Between two consistent stores, of which the second holds survivors of
/// the first and no new orphan: a note whose back-links all name notes
/// that are gone, none of which led to it by an arm, is gone too.
pub proof fn lemma_orphans_released(s: Seq<NoteView>, t: Seq<NoteView>)
    requires
        consistent(s),
        consistent(t),
        survivors(s, t),
        no_new_orphan(s, t),
    ensures
        orphans_released(s, t),
{
    assert forall|id: Seq<char>|
        has_note(s, id) && backlinks_of(s, id).len() > 0 && (forall|source: Seq<char>| #[trigger]
            backlinks_of(s, id).contains(source) ==> !has_note(t, source) && !has_arm_to(
                edges_of(s, source),
                id,
            )) implies !#[trigger] has_note(t, id) by {
        if has_note(t, id) {
            lemma_note_of(t, id);
            lemma_note_of(s, id);
            let k = index_of(t, id);
            let left = backlinks_of(t, id);
            if left.len() > 0 {
                assert(left.contains(left[0]));
                assert(backlinks_of(s, id).contains(left[0]));
                assert(has_note(t, t[k].backlinks[0]));
            }
            assert(orphaned(t, id));
            assert(lost_by_arm(s, t, id));
            let x = choose|x: Seq<char>|
                has_note(s, x) && !has_note(t, x) && #[trigger] has_arm_to(
                    note_of(s, x).forwardlinks,
                    id,
                );
            lemma_note_of(s, x);
            let i = index_of(s, x);
            let j = index_of(s, id);
            assert(s[j].backlinks.contains(s[i].id) <==> points_to(s[i].forwardlinks, s[j].id));
            assert(backlinks_of(s, id).contains(x));
        }
    }
}

} // verus!
