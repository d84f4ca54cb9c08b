//! What holds of every consistent store, said over the edges themselves.
use vstd::prelude::*;
use crate::consistency::{lemma_index_of, lemma_note_of};
use crate::deletion::{lemma_note_deleted, lemma_orphans_released};
use crate::effects::note_deleted_seen;
use crate::graph::{
    arm_to, branch_reaching, consistent, has_arm, has_note, index_of, link_to, note_deleted,
    note_of, points_to,
};
use crate::search::lemma_found_iff;
use crate::types::{FLinkView, NoteView};

verus! {

/// The edge leads to `target`: it is a plain link to it, or a branch with
/// an arm to it.
pub open spec fn edge_leads_to(edge: FLinkView, target: Seq<char>) -> bool {
    match edge {
        FLinkView::Link(link) => link.id == target,
        FLinkView::Branch(branch) => exists|k: int|
            0 <= k < branch.branches.len() && (#[trigger] branch.branches[k]).id == target,
    }
}

/// One of the edges leads to `target`.
pub open spec fn some_edge_leads_to(edges: Seq<FLinkView>, target: Seq<char>) -> bool {
    exists|i: int| 0 <= i < edges.len() && edge_leads_to(#[trigger] edges[i], target)
}

/// Edges lead to a note, as the model has it, exactly if one of them does.
pub proof fn lemma_points_to_some_edge(edges: Seq<FLinkView>, target: Seq<char>)
    ensures
        points_to(edges, target) <==> some_edge_leads_to(edges, target),
{
    lemma_found_iff(edges, link_to(target));
    lemma_found_iff(edges, branch_reaching(target));
    assert forall|i: int| 0 <= i < edges.len() implies (edge_leads_to(#[trigger] edges[i], target)
        <==> link_to(target)(edges[i]) || branch_reaching(target)(edges[i])) by {
        match edges[i] {
            FLinkView::Link(_) => {},
            FLinkView::Branch(branch) => {
                lemma_found_iff(branch.branches, arm_to(target));
                if has_arm(branch.branches, target) {
                    let k = choose|k: int|
                        0 <= k < branch.branches.len() && arm_to(target)(
                            #[trigger] branch.branches[k],
                        );
                    assert(branch.branches[k].id == target);
                }
                if edge_leads_to(edges[i], target) {
                    let k = choose|k: int|
                        0 <= k < branch.branches.len() && (#[trigger] branch.branches[k]).id
                            == target;
                    assert(arm_to(target)(branch.branches[k]));
                }
            },
        }
    }
    if points_to(edges, target) {
        let i = choose|i: int|
            0 <= i < edges.len() && (link_to(target)(#[trigger] edges[i]) || branch_reaching(
                target,
            )(edges[i]));
        assert(edge_leads_to(edges[i], target));
    }
    if some_edge_leads_to(edges, target) {
        let i = choose|i: int| 0 <= i < edges.len() && edge_leads_to(#[trigger] edges[i], target);
        assert(link_to(target)(edges[i]) || branch_reaching(target)(edges[i]));
    }
}

/// Back-links mirror forward edges. For any two notes `a` and `b` of a
/// consistent store, `a` has a plain link or an arm of a branch to `b`
/// exactly if `a` is listed among the back-links of `b`; and it is listed
/// there once.
pub proof fn lemma_backlinks_mirror_edges(s: Seq<NoteView>, a: Seq<char>, b: Seq<char>)
    requires
        consistent(s),
        has_note(s, a),
        has_note(s, b),
    ensures
        some_edge_leads_to(note_of(s, a).forwardlinks, b) <==> note_of(s, b).backlinks.contains(a),
        note_of(s, b).backlinks.no_duplicates(),
{
    lemma_note_of(s, a);
    lemma_note_of(s, b);
    let i = index_of(s, a);
    let j = index_of(s, b);
    assert(s[j].backlinks.contains(s[i].id) <==> points_to(s[i].forwardlinks, s[j].id));
    assert(s[j].backlinks.no_duplicates());
    lemma_points_to_some_edge(s[i].forwardlinks, b);
}

/// No edge dangles. Whatever a note of a consistent store leads to, by a
/// plain link or by an arm of a branch, is a note of the store.
pub proof fn lemma_no_edge_dangles(s: Seq<NoteView>, a: Seq<char>, target: Seq<char>)
    requires
        consistent(s),
        has_note(s, a),
        some_edge_leads_to(note_of(s, a).forwardlinks, target),
    ensures
        has_note(s, target),
{
    lemma_note_of(s, a);
    let i = index_of(s, a);
    lemma_points_to_some_edge(s[i].forwardlinks, target);
    assert(points_to(s[i].forwardlinks, target));
}

/// Every back-link names a note of the store. Whatever a note of a
/// consistent store lists among its back-links is a note of the store.
pub proof fn lemma_no_backlink_dangles(s: Seq<NoteView>, b: Seq<char>, source: Seq<char>)
    requires
        consistent(s),
        has_note(s, b),
        note_of(s, b).backlinks.contains(source),
    ensures
        has_note(s, source),
{
    lemma_note_of(s, b);
    let j = index_of(s, b);
    let k = choose|k: int| 0 <= k < s[j].backlinks.len() && s[j].backlinks[k] == source;
    assert(has_note(s, s[j].backlinks[k]));
}

/// A store holds a note under an identifier exactly if one of its notes
/// carries it, and in a consistent store only one does.
pub proof fn lemma_one_note_per_id(s: Seq<NoteView>, i: int, j: int)
    requires
        consistent(s),
        0 <= i < s.len(),
        0 <= j < s.len(),
        s[i].id == s[j].id,
    ensures
        i == j,
        has_note(s, s[i].id),
        note_of(s, s[i].id) == s[i],
{
    lemma_index_of(s, i);
}

/// Deleting a note is thorough. In what is left of a consistent store,
/// the note is gone, and so is every note whose back-links all named
/// notes that are gone, none of which led to it by an arm of a branch.
/// What is left is consistent; every note in it was there before; and
/// none of them has lost its last back-link, unless an arm of a note that
/// is gone had led to it. This holds whatever cycles the links form.
pub proof fn lemma_deletion_is_thorough(s: Seq<NoteView>, id: Seq<char>)
    requires
        consistent(s),
        has_note(s, id),
    ensures
        consistent(note_deleted(s, id)),
        note_deleted_seen(s, note_deleted(s, id), id),
{
    lemma_note_deleted(s, id);
    lemma_orphans_released(s, note_deleted(s, id));
}

} // verus!
