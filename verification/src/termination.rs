//! Why a deletion ends: every step makes the store smaller.
use vstd::prelude::*;
use crate::consistency::{lemma_arm_cut_edges, lemma_note_of, lemma_same_notes, lemma_settle_frame};
use crate::graph::{
    arm_cut, arm_to, arms_cut, arms_of, branch_released, edge_weight, edges_weight, has_arm,
    has_link, has_note, index_of, link_cut, link_to, note_of, note_weight, note_with, released,
    same_content, settle_backlink, targets_of, token_is, weight, with_arms, with_edges,
};
use crate::search::{lemma_position, position, without_first};
use crate::types::{FLinkView, NoteView};

verus! {

/// The size of edges without one of them.
pub proof fn lemma_edges_weight_remove(edges: Seq<FLinkView>, p: int)
    requires
        0 <= p < edges.len(),
    ensures
        edges_weight(edges.remove(p)) == edges_weight(edges) - edge_weight(edges[p]),
    decreases edges.len(),
{
    if p == edges.len() - 1 {
        assert(edges.remove(p) =~= edges.drop_last());
    } else {
        assert(edges.remove(p).drop_last() =~= edges.drop_last().remove(p));
        assert(edges.remove(p).last() == edges.last());
        lemma_edges_weight_remove(edges.drop_last(), p);
    }
}

/// The size of edges with one of them replaced.
pub proof fn lemma_edges_weight_update(edges: Seq<FLinkView>, p: int, edge: FLinkView)
    requires
        0 <= p < edges.len(),
    ensures
        edges_weight(edges.update(p, edge)) == edges_weight(edges) - edge_weight(edges[p])
            + edge_weight(edge),
    decreases edges.len(),
{
    if p == edges.len() - 1 {
        assert(edges.update(p, edge).drop_last() =~= edges.drop_last());
    } else {
        assert(edges.update(p, edge).drop_last() =~= edges.drop_last().update(p, edge));
        assert(edges.update(p, edge).last() == edges.last());
        lemma_edges_weight_update(edges.drop_last(), p, edge);
    }
}

/// The size of a store without one of its notes.
pub proof fn lemma_weight_remove(s: Seq<NoteView>, i: int)
    requires
        0 <= i < s.len(),
    ensures
        weight(s.remove(i)) == weight(s) - note_weight(s[i]),
    decreases s.len(),
{
    if i == s.len() - 1 {
        assert(s.remove(i) =~= s.drop_last());
    } else {
        assert(s.remove(i).drop_last() =~= s.drop_last().remove(i));
        assert(s.remove(i).last() == s.last());
        lemma_weight_remove(s.drop_last(), i);
    }
}

/// The size of a store with one of its notes replaced.
pub proof fn lemma_weight_update(s: Seq<NoteView>, i: int, note: NoteView)
    requires
        0 <= i < s.len(),
    ensures
        weight(s.update(i, note)) == weight(s) - note_weight(s[i]) + note_weight(note),
    decreases s.len(),
{
    if i == s.len() - 1 {
        assert(s.update(i, note).drop_last() =~= s.drop_last());
    } else {
        assert(s.update(i, note).drop_last() =~= s.drop_last().update(i, note));
        assert(s.update(i, note).last() == s.last());
        lemma_weight_update(s.drop_last(), i, note);
    }
}

/// Cutting is transitive.
pub proof fn lemma_released_trans(s: Seq<NoteView>, t: Seq<NoteView>, u: Seq<NoteView>)
    requires
        released(s, t),
        released(t, u),
    ensures
        released(s, u),
{
    assert forall|k: int| 0 <= k < s.len() implies same_content(s[k], #[trigger] u[k]) by {
        assert(same_content(s[k], t[k]));
        assert(same_content(t[k], u[k]));
    }
    assert forall|k: int| 0 <= k < s.len() implies (#[trigger] u[k]).backlinks.len()
        <= s[k].backlinks.len() by {
        assert(t[k].backlinks.len() <= s[k].backlinks.len());
    }
}

/// A note that nothing pointed to before a cut is still there, and still
/// nothing points to it.
pub proof fn lemma_released_orphan(s: Seq<NoteView>, t: Seq<NoteView>, id: Seq<char>)
    requires
        released(s, t),
    ensures
        has_note(t, id) == has_note(s, id),
        index_of(t, id) == index_of(s, id),
        has_note(s, id) ==> note_of(t, id).backlinks.len() <= note_of(s, id).backlinks.len(),
{
    lemma_same_notes(s, t, id);
    if has_note(s, id) {
        lemma_note_of(s, id);
    }
}

/// Settling a back-link makes the store no larger.
pub proof fn lemma_settle_weight(s: Seq<NoteView>, source: Seq<char>, target: Seq<char>)
    ensures
        weight(settle_backlink(s, source, target)) <= weight(s),
        released(s, settle_backlink(s, source, target)),
{
    lemma_settle_frame(s, source, target);
    let j = index_of(s, target);
    lemma_position(s, note_with(target));
    if j < s.len() {
        lemma_position(s[j].backlinks, token_is(source));
        let left = without_first(s[j].backlinks, token_is(source));
        lemma_weight_update(s, j, NoteView { backlinks: left, ..s[j] });
    }
}

/// Giving a note other edges changes the size of the store by what the
/// edges differ in size.
pub proof fn lemma_with_edges_weight(s: Seq<NoteView>, i: int, edges: Seq<FLinkView>)
    requires
        0 <= i < s.len(),
    ensures
        weight(with_edges(s, i, edges)) == weight(s) - edges_weight(s[i].forwardlinks)
            + edges_weight(edges),
        released(s, with_edges(s, i, edges)),
{
    lemma_weight_update(s, i, NoteView { forwardlinks: edges, ..s[i] });
}

/// Cutting a plain link makes the store no larger, and smaller if the
/// link is there.
pub proof fn lemma_link_cut_weight(s: Seq<NoteView>, from: Seq<char>, to: Seq<char>)
    requires
        has_note(s, from),
    ensures
        weight(link_cut(s, from, to)) <= weight(s),
        has_link(note_of(s, from).forwardlinks, to) ==> weight(link_cut(s, from, to)) < weight(s),
        released(s, link_cut(s, from, to)),
{
    lemma_note_of(s, from);
    let i = index_of(s, from);
    let old_edges = s[i].forwardlinks;
    let edges = without_first(old_edges, link_to(to));
    lemma_position(old_edges, link_to(to));
    if position(old_edges, link_to(to)) < old_edges.len() {
        lemma_edges_weight_remove(old_edges, position(old_edges, link_to(to)));
    }
    let mid = with_edges(s, i, edges);
    lemma_with_edges_weight(s, i, edges);
    lemma_settle_weight(mid, from, to);
    lemma_released_trans(s, mid, link_cut(s, from, to));
}

/// Cutting an arm makes the store no larger, and smaller if the arm is
/// there.
pub proof fn lemma_arm_cut_weight(s: Seq<NoteView>, note: Seq<char>, p: int, target: Seq<char>)
    requires
        has_note(s, note),
        0 <= p < note_of(s, note).forwardlinks.len(),
    ensures
        weight(arm_cut(s, note, p, target)) <= weight(s),
        has_arm(arms_of(note_of(s, note).forwardlinks[p]), target) ==> weight(
            arm_cut(s, note, p, target),
        ) < weight(s),
        released(s, arm_cut(s, note, p, target)),
{
    lemma_note_of(s, note);
    let i = index_of(s, note);
    let old_edges = s[i].forwardlinks;
    let old_arms = arms_of(old_edges[p]);
    let arms = without_first(old_arms, arm_to(target));
    lemma_position(old_arms, arm_to(target));
    let edge = with_arms(old_edges[p], arms);
    let edges = old_edges.update(p, edge);
    lemma_edges_weight_update(old_edges, p, edge);
    let mid = with_edges(s, i, edges);
    lemma_with_edges_weight(s, i, edges);
    lemma_settle_weight(mid, note, target);
    lemma_released_trans(s, mid, arm_cut(s, note, p, target));
}

/// Cutting arms one after the other makes the store no larger.
pub proof fn lemma_arms_cut_weight(
    s: Seq<NoteView>,
    note: Seq<char>,
    p: int,
    targets: Seq<Seq<char>>,
)
    requires
        has_note(s, note),
        0 <= p < note_of(s, note).forwardlinks.len(),
    ensures
        weight(arms_cut(s, note, p, targets)) <= weight(s),
        released(s, arms_cut(s, note, p, targets)),
        has_note(arms_cut(s, note, p, targets), note),
        note_of(arms_cut(s, note, p, targets), note).forwardlinks.len() == note_of(
            s,
            note,
        ).forwardlinks.len(),
    decreases targets.len(),
{
    if targets.len() > 0 {
        let next = arm_cut(s, note, p, targets[0]);
        lemma_arm_cut_weight(s, note, p, targets[0]);
        lemma_arm_cut_edges(s, note, p, targets[0]);
        lemma_arms_cut_weight(next, note, p, targets.drop_first());
        lemma_released_trans(s, next, arms_cut(next, note, p, targets.drop_first()));
    }
}

/// Releasing a branch makes the store smaller.
pub proof fn lemma_branch_released_weight(s: Seq<NoteView>, note: Seq<char>, p: int)
    requires
        has_note(s, note),
        0 <= p < note_of(s, note).forwardlinks.len(),
    ensures
        weight(branch_released(s, note, p)) < weight(s),
        released(s, branch_released(s, note, p)),
{
    lemma_note_of(s, note);
    let i = index_of(s, note);
    let targets = targets_of(arms_of(s[i].forwardlinks[p]));
    let cut = arms_cut(s, note, p, targets);
    lemma_arms_cut_weight(s, note, p, targets);
    lemma_same_notes(s, cut, note);
    lemma_edges_weight_remove(cut[i].forwardlinks, p);
    lemma_with_edges_weight(cut, i, cut[i].forwardlinks.remove(p));
    lemma_released_trans(s, cut, branch_released(s, note, p));
}

} // verus!
