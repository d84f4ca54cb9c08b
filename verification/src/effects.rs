//! What a caller sees of each step: the notes by their identifiers, with
//! their edges and back-links, rather than the places they stand in.
use vstd::prelude::*;
use crate::consistency::{
    lemma_arm_cut, lemma_arm_cut_edges, lemma_arm_pushed, lemma_arm_struck, lemma_arms_cut,
    lemma_branch_added, lemma_branch_released, lemma_collapsed, lemma_edge_replaced,
    lemma_edges_stay, lemma_gain_frame, lemma_index_of, lemma_link_cut, lemma_note_added,
    lemma_note_of, lemma_points_to_push, lemma_same_ids, lemma_same_notes, lemma_settle_frame,
};
use crate::deletion::{lemma_cascade, lemma_link_deleted, lemma_orphans_released};
use crate::graph::{
    add_branch_error, add_branching_error, add_link_error, alike, arm_added, arm_cut, arm_to,
    arms_cut, arms_distinct, arms_of, arms_under, backlinks_of, branch_added, branch_at,
    branch_reaching, branch_released, branch_with, collapsed, consistent, cut_of, cut_seen,
    delete_link_error, detached, distinct_ids, edge_replaced, edges_distinct, edges_kept, edges_of,
    gain_backlink, has_arm, has_arm_to, has_branch, has_link, has_note, index_of, joined, kept,
    leads_kept, link_added, link_cut, link_deleted, link_to, listed, no_new_orphan, note_of,
    note_replaced, note_with, orphaned, orphans_released, pending_free, points_to, replaced,
    roots_kept, same_content, same_link_or_branch, same_notes, settle_backlink, sources_sound,
    struck, survivors, targets_of, token_is, untouched, with_arms, with_edges,
};
use crate::search::{
    lemma_found_iff, lemma_found_push, lemma_found_remove, lemma_found_same, lemma_position,
    lemma_position_found, lemma_struck, position, without_first,
};
use crate::types::{BranchView, FLinkView, LinkView, NoteView};

verus! {

/// Replacing the note at `i` by one under the same identifier: the same
/// notes are found, in the same places; the new note is found under the
/// identifier, and every other note is as it was.
pub proof fn lemma_update_seen(s: Seq<NoteView>, i: int, changed: NoteView)
    requires
        distinct_ids(s),
        0 <= i < s.len(),
        changed.id == s[i].id,
    ensures
        forall|x: Seq<char>| #[trigger] has_note(s.update(i, changed), x) == has_note(s, x),
        forall|x: Seq<char>| #[trigger] index_of(s.update(i, changed), x) == index_of(s, x),
        note_of(s.update(i, changed), s[i].id) == changed,
        forall|x: Seq<char>|
            has_note(s, x) && x != s[i].id ==> #[trigger] note_of(s.update(i, changed), x)
                == note_of(s, x),
{
    let t = s.update(i, changed);
    assert forall|x: Seq<char>| #[trigger] has_note(t, x) == has_note(s, x) by {
        lemma_same_ids(s, t, x);
    }
    assert forall|x: Seq<char>| #[trigger] index_of(t, x) == index_of(s, x) by {
        lemma_same_ids(s, t, x);
    }
    lemma_index_of(s, i);
    lemma_same_ids(s, t, s[i].id);
    assert forall|x: Seq<char>| has_note(s, x) && x != s[i].id implies #[trigger] note_of(t, x)
        == note_of(s, x) by {
        lemma_same_ids(s, t, x);
        lemma_note_of(s, x);
    }
}

/// Two stores with the same notes in the same places hold the same notes
/// with the same content.
pub proof fn lemma_kept(s: Seq<NoteView>, t: Seq<NoteView>)
    requires
        same_notes(s, t),
    ensures
        kept(s, t),
        forall|x: Seq<char>| #[trigger] index_of(t, x) == index_of(s, x),
{
    assert forall|x: Seq<char>| #[trigger] has_note(t, x) == has_note(s, x) by {
        lemma_same_notes(s, t, x);
    }
    assert forall|x: Seq<char>| #[trigger] index_of(t, x) == index_of(s, x) by {
        lemma_same_notes(s, t, x);
    }
    assert forall|x: Seq<char>| has_note(s, x) implies same_content(
        note_of(s, x),
        #[trigger] note_of(t, x),
    ) by {
        lemma_same_notes(s, t, x);
        lemma_note_of(s, x);
    }
}

/// What is seen of a note that joined a store.
pub proof fn lemma_note_joined(s: Seq<NoteView>, note: NoteView)
    requires
        consistent(s),
        !has_note(s, note.id),
    ensures
        joined(s, s.push(detached(note)), detached(note)),
{
    let n = detached(note);
    let t = s.push(n);
    lemma_note_added(s, note);
    lemma_note_of(t, note.id);
    assert forall|x: Seq<char>| x != note.id implies #[trigger] has_note(t, x) == has_note(
        s,
        x,
    ) by {
        lemma_found_push(s, n, note_with(x));
    }
    assert forall|x: Seq<char>| has_note(s, x) implies #[trigger] note_of(t, x) == note_of(
        s,
        x,
    ) by {
        lemma_found_push(s, n, note_with(x));
        lemma_note_of(s, x);
    }
}

/// What is seen of a note that was replaced by one with the same
/// identifier.
pub proof fn lemma_note_replaced_seen(s: Seq<NoteView>, id: Seq<char>, changed: NoteView)
    requires
        consistent(s),
        has_note(s, id),
        changed.id == id,
    ensures
        replaced(s, note_replaced(s, id, changed), id, changed),
{
    lemma_note_of(s, id);
    lemma_update_seen(s, index_of(s, id), changed);
}

/// What is seen of a store after a note got other edges and another
/// gained a back-link.
proof fn lemma_grown_seen(
    s: Seq<NoteView>,
    note: Seq<char>,
    edges: Seq<FLinkView>,
    target: Seq<char>,
)
    requires
        consistent(s),
        has_note(s, note),
        has_note(s, target),
    ensures
        ({
            let t = gain_backlink(with_edges(s, index_of(s, note), edges), target, note);
            &&& kept(s, t)
            &&& untouched(s, t, note, target)
            &&& edges_of(t, note) == edges
            &&& backlinks_of(t, target) == listed(backlinks_of(s, target), note)
            &&& backlinks_of(t, target).contains(note)
            &&& note != target ==> edges_of(t, target) == edges_of(s, target) && backlinks_of(
                t,
                note,
            ) == backlinks_of(s, note)
        }),
{
    lemma_note_of(s, note);
    lemma_note_of(s, target);
    let i = index_of(s, note);
    let j = index_of(s, target);
    let mid = with_edges(s, i, edges);
    let t = gain_backlink(mid, target, note);
    lemma_update_seen(s, i, NoteView { forwardlinks: edges, ..s[i] });
    assert(distinct_ids(mid)) by {
        assert forall|a: int, b: int|
            0 <= a < mid.len() && 0 <= b < mid.len() && a != b implies (#[trigger] mid[a]).id != (
        #[trigger] mid[b]).id by {
            assert(s[a].id != s[b].id);
        }
    }
    assert(index_of(mid, target) == j);
    lemma_gain_frame(mid, target, note);
    if !mid[j].backlinks.contains(note) {
        lemma_update_seen(mid, j, NoteView { backlinks: mid[j].backlinks.push(note), ..mid[j] });
    }
    lemma_kept(mid, t);
    lemma_index_of(s, i);
    lemma_index_of(s, j);
    assert forall|x: Seq<char>| #[trigger] has_note(t, x) == has_note(s, x) by {
        assert(has_note(mid, x) == has_note(s, x));
    }
    assert forall|x: Seq<char>| has_note(s, x) implies same_content(
        note_of(s, x),
        #[trigger] note_of(t, x),
    ) by {
        lemma_note_of(s, x);
        assert(index_of(mid, x) == index_of(s, x));
        assert(index_of(t, x) == index_of(mid, x));
        assert(same_content(mid[index_of(s, x)], t[index_of(s, x)]));
    }
    assert forall|x: Seq<char>|
        has_note(s, x) && x != note && x != target implies #[trigger] note_of(t, x) == note_of(
        s,
        x,
    ) by {
        lemma_note_of(s, x);
        assert(index_of(mid, x) == index_of(s, x));
        assert(index_of(t, x) == index_of(mid, x));
    }
    assert(index_of(t, note) == i);
    assert(index_of(t, target) == j);
    let sources = backlinks_of(s, target);
    if !sources.contains(note) {
        assert(sources.push(note)[sources.len() as int] == note);
    }
}

/// What is seen of a store `t` after `from` got a plain link to `to` in
/// `s`. The link is the last edge of `from`, and `to` lists `from` among
/// its back-links; nothing else differs.
pub open spec fn link_added_seen(
    s: Seq<NoteView>,
    t: Seq<NoteView>,
    from: Seq<char>,
    to: Seq<char>,
    reason: Seq<char>,
) -> bool {
    &&& kept(s, t)
    &&& untouched(s, t, from, to)
    &&& edges_of(t, from) == edges_of(s, from).push(FLinkView::Link(LinkView { id: to, reason }))
    &&& backlinks_of(t, to) == listed(backlinks_of(s, to), from)
    &&& backlinks_of(t, to).contains(from)
    &&& from != to ==> edges_of(t, to) == edges_of(s, to) && backlinks_of(t, from) == backlinks_of(
        s,
        from,
    )
    &&& has_link(edges_of(t, from), to)
    &&& forall|x: Seq<char>|
        x != to ==> #[trigger] has_link(edges_of(t, from), x) == has_link(edges_of(s, from), x)
    &&& forall|x: Seq<char>| #[trigger]
        has_branch(edges_of(t, from), x) == has_branch(edges_of(s, from), x)
}

/// A plain link that was added is seen as `link_added_seen` says.
pub proof fn lemma_link_added_seen(
    s: Seq<NoteView>,
    from: Seq<char>,
    to: Seq<char>,
    reason: Seq<char>,
)
    requires
        consistent(s),
        add_link_error(s, from, to) is None,
    ensures
        link_added_seen(s, link_added(s, from, to, reason), from, to, reason),
{
    let link = FLinkView::Link(LinkView { id: to, reason });
    let old_edges = edges_of(s, from);
    let edges = old_edges.push(link);
    lemma_grown_seen(s, from, edges, to);
    lemma_points_to_push(old_edges, link, to);
    assert forall|x: Seq<char>| x != to implies #[trigger] has_link(edges, x) == has_link(
        old_edges,
        x,
    ) by {
        lemma_points_to_push(old_edges, link, x);
    }
    assert forall|x: Seq<char>| #[trigger] has_branch(edges, x) == has_branch(old_edges, x) by {
        lemma_found_push(old_edges, link, branch_with(x));
    }
}

/// What is seen of a store `t` after `note` got an empty branch `branch`
/// in `s`. The branch is the last edge of `note`, without arms; nothing
/// else differs.
pub open spec fn branch_added_seen(
    s: Seq<NoteView>,
    t: Seq<NoteView>,
    note: Seq<char>,
    branch: Seq<char>,
    condition: Seq<char>,
) -> bool {
    &&& kept(s, t)
    &&& untouched(s, t, note, note)
    &&& edges_of(t, note) == edges_of(s, note).push(
        FLinkView::Branch(BranchView { id: branch, condition, branches: Seq::empty() }),
    )
    &&& backlinks_of(t, note) == backlinks_of(s, note)
    &&& has_branch(edges_of(t, note), branch)
    &&& arms_under(edges_of(t, note), branch) == Seq::<LinkView>::empty()
    &&& forall|x: Seq<char>| #[trigger]
        has_link(edges_of(t, note), x) == has_link(edges_of(s, note), x)
    &&& forall|x: Seq<char>|
        x != branch ==> #[trigger] has_branch(edges_of(t, note), x) == has_branch(
            edges_of(s, note),
            x,
        )
    &&& forall|x: Seq<char>|
        x != branch && has_branch(edges_of(s, note), x) ==> #[trigger] arms_under(
            edges_of(t, note),
            x,
        ) == arms_under(edges_of(s, note), x)
}

/// An empty branch that was added is seen as `branch_added_seen` says.
pub proof fn lemma_branch_added_seen(
    s: Seq<NoteView>,
    note: Seq<char>,
    branch: Seq<char>,
    condition: Seq<char>,
)
    requires
        consistent(s),
        add_branching_error(s, note, branch) is None,
    ensures
        branch_added_seen(s, branch_added(s, note, branch, condition), note, branch, condition),
{
    lemma_note_of(s, note);
    let i = index_of(s, note);
    let edge = FLinkView::Branch(BranchView { id: branch, condition, branches: Seq::empty() });
    let old_edges = edges_of(s, note);
    let edges = old_edges.push(edge);
    let t = branch_added(s, note, branch, condition);
    lemma_update_seen(s, i, NoteView { forwardlinks: edges, ..s[i] });
    lemma_branch_added(s, note, branch, condition);
    lemma_kept(s, t);
    lemma_found_push(old_edges, edge, branch_with(branch));
    lemma_position(edges, branch_with(branch));
    lemma_position(old_edges, branch_with(branch));
    assert(position(edges, branch_with(branch)) == old_edges.len()) by {
        if position(edges, branch_with(branch)) < old_edges.len() {
            assert(edges[position(edges, branch_with(branch))] == old_edges[position(
                edges,
                branch_with(branch),
            )]);
            lemma_position_found(
                old_edges,
                branch_with(branch),
                position(edges, branch_with(branch)),
            );
        }
    }
    assert forall|x: Seq<char>| #[trigger] has_link(edges, x) == has_link(old_edges, x) by {
        lemma_found_push(old_edges, edge, link_to(x));
    }
    assert forall|x: Seq<char>| x != branch implies #[trigger] has_branch(edges, x) == has_branch(
        old_edges,
        x,
    ) by {
        lemma_found_push(old_edges, edge, branch_with(x));
    }
    assert forall|x: Seq<char>|
        x != branch && has_branch(old_edges, x) implies #[trigger] arms_under(edges, x)
        == arms_under(old_edges, x) by {
        lemma_found_push(old_edges, edge, branch_with(x));
    }
}

/// What is seen of a store `t` after the branch `branch` of `note` got an
/// arm to `target` in `s`. The arm is the last one of the branch, and
/// `target` lists `note` among its back-links; nothing else differs.
pub open spec fn arm_added_seen(
    s: Seq<NoteView>,
    t: Seq<NoteView>,
    note: Seq<char>,
    branch: Seq<char>,
    target: Seq<char>,
    reason: Seq<char>,
) -> bool {
    let old_edges = edges_of(s, note);
    let p = branch_at(old_edges, branch);
    let arm = LinkView { id: target, reason };
    &&& kept(s, t)
    &&& untouched(s, t, note, target)
    &&& edges_of(t, note) == old_edges.update(
        p,
        with_arms(old_edges[p], arms_under(old_edges, branch).push(arm)),
    )
    &&& backlinks_of(t, target) == listed(backlinks_of(s, target), note)
    &&& backlinks_of(t, target).contains(note)
    &&& note != target ==> edges_of(t, target) == edges_of(s, target) && backlinks_of(t, note)
        == backlinks_of(s, note)
    &&& branch_at(edges_of(t, note), branch) == p
    &&& arms_under(edges_of(t, note), branch) == arms_under(old_edges, branch).push(arm)
    &&& has_arm(arms_under(edges_of(t, note), branch), target)
    &&& forall|x: Seq<char>|
        x != target ==> #[trigger] has_arm(arms_under(edges_of(t, note), branch), x) == has_arm(
            arms_under(old_edges, branch),
            x,
        )
    &&& forall|x: Seq<char>| #[trigger] has_link(edges_of(t, note), x) == has_link(old_edges, x)
    &&& forall|x: Seq<char>| #[trigger]
        has_branch(edges_of(t, note), x) == has_branch(old_edges, x)
    &&& forall|x: Seq<char>|
        x != branch && has_branch(old_edges, x) ==> #[trigger] arms_under(edges_of(t, note), x)
            == arms_under(old_edges, x)
}

/// An arm that was added is seen as `arm_added_seen` says.
pub proof fn lemma_arm_added_seen(
    s: Seq<NoteView>,
    note: Seq<char>,
    branch: Seq<char>,
    target: Seq<char>,
    reason: Seq<char>,
)
    requires
        consistent(s),
        add_branch_error(s, note, branch, target) is None,
    ensures
        arm_added_seen(
            s,
            arm_added(s, note, branch_at(edges_of(s, note), branch), target, reason),
            note,
            branch,
            target,
            reason,
        ),
{
    let old_edges = edges_of(s, note);
    let p = branch_at(old_edges, branch);
    lemma_position(old_edges, branch_with(branch));
    let arm = LinkView { id: target, reason };
    let old_arms = arms_under(old_edges, branch);
    let edge = with_arms(old_edges[p], old_arms.push(arm));
    let edges = old_edges.update(p, edge);
    lemma_grown_seen(s, note, edges, target);
    lemma_arm_pushed(old_arms, arm, target);
    assert forall|k: int| 0 <= k < old_edges.len() implies branch_with(branch)(
        #[trigger] old_edges[k],
    ) == branch_with(branch)(edges[k]) by {}
    lemma_found_same(old_edges, edges, branch_with(branch));
    assert forall|x: Seq<char>| x != target implies #[trigger] has_arm(old_arms.push(arm), x)
        == has_arm(old_arms, x) by {
        lemma_arm_pushed(old_arms, arm, x);
    }
    assert forall|x: Seq<char>| #[trigger] has_link(edges, x) == has_link(old_edges, x) by {
        assert forall|k: int| 0 <= k < old_edges.len() implies link_to(x)(#[trigger] old_edges[k])
            == link_to(x)(edges[k]) by {}
        lemma_found_same(old_edges, edges, link_to(x));
    }
    assert forall|x: Seq<char>| #[trigger] has_branch(edges, x) == has_branch(old_edges, x) by {
        assert forall|k: int| 0 <= k < old_edges.len() implies branch_with(x)(
            #[trigger] old_edges[k],
        ) == branch_with(x)(edges[k]) by {}
        lemma_found_same(old_edges, edges, branch_with(x));
    }
    assert forall|x: Seq<char>|
        x != branch && has_branch(old_edges, x) implies #[trigger] arms_under(edges, x)
        == arms_under(old_edges, x) by {
        assert forall|k: int| 0 <= k < old_edges.len() implies branch_with(x)(
            #[trigger] old_edges[k],
        ) == branch_with(x)(edges[k]) by {}
        lemma_found_same(old_edges, edges, branch_with(x));
        lemma_position(old_edges, branch_with(x));
    }
}

/// What is seen of a store `t` after the edge at `p` of `note` gave way
/// to `edge`, which is like it, in `s`: the edges of `note` differ in
/// that place, and nothing else differs.
pub open spec fn edge_replaced_seen(
    s: Seq<NoteView>,
    t: Seq<NoteView>,
    note: Seq<char>,
    p: int,
    edge: FLinkView,
) -> bool {
    &&& kept(s, t)
    &&& untouched(s, t, note, note)
    &&& backlinks_of(t, note) == backlinks_of(s, note)
    &&& edges_of(t, note) == edges_of(s, note).update(p, edge)
    &&& forall|x: Seq<char>| #[trigger]
        has_link(edges_of(t, note), x) == has_link(edges_of(s, note), x)
    &&& forall|x: Seq<char>| #[trigger]
        has_branch(edges_of(t, note), x) == has_branch(edges_of(s, note), x)
    &&& forall|x: Seq<char>| #[trigger]
        branch_at(edges_of(t, note), x) == branch_at(edges_of(s, note), x)
}

/// An edge that gave way to one like it is seen as `edge_replaced_seen`
/// says.
pub proof fn lemma_edge_replaced_seen(s: Seq<NoteView>, note: Seq<char>, p: int, edge: FLinkView)
    requires
        consistent(s),
        has_note(s, note),
        0 <= p < edges_of(s, note).len(),
        alike(edges_of(s, note)[p], edge),
    ensures
        edge_replaced_seen(s, edge_replaced(s, note, p, edge), note, p, edge),
{
    lemma_note_of(s, note);
    let i = index_of(s, note);
    let old_edges = edges_of(s, note);
    let edges = old_edges.update(p, edge);
    let t = edge_replaced(s, note, p, edge);
    lemma_update_seen(s, i, NoteView { forwardlinks: edges, ..s[i] });
    lemma_edge_replaced(s, note, p, edge);
    lemma_kept(s, t);
    assert forall|x: Seq<char>| #[trigger] has_link(edges, x) == has_link(old_edges, x) by {
        assert forall|k: int| 0 <= k < old_edges.len() implies link_to(x)(#[trigger] old_edges[k])
            == link_to(x)(edges[k]) by {}
        lemma_found_same(old_edges, edges, link_to(x));
    }
    assert forall|x: Seq<char>| #[trigger] has_branch(edges, x) == has_branch(old_edges, x) by {
        assert forall|k: int| 0 <= k < old_edges.len() implies branch_with(x)(
            #[trigger] old_edges[k],
        ) == branch_with(x)(edges[k]) by {}
        lemma_found_same(old_edges, edges, branch_with(x));
    }
    assert forall|x: Seq<char>| #[trigger] branch_at(edges, x) == branch_at(old_edges, x) by {
        assert forall|k: int| 0 <= k < old_edges.len() implies branch_with(x)(
            #[trigger] old_edges[k],
        ) == branch_with(x)(edges[k]) by {}
        lemma_found_same(old_edges, edges, branch_with(x));
    }
}

/// Striking an identifier from back-links that do not list it changes
/// nothing.
pub proof fn lemma_struck_absent(sources: Seq<Seq<char>>, id: Seq<char>)
    requires
        !sources.contains(id),
    ensures
        struck(sources, id) == sources,
{
    lemma_position(sources, token_is(id));
    if position(sources, token_is(id)) < sources.len() {
        assert(sources.contains(sources[position(sources, token_is(id))]));
    }
}

/// A cut after a cut is a cut.
pub proof fn lemma_cut_of_trans(
    s: Seq<NoteView>,
    t: Seq<NoteView>,
    u: Seq<NoteView>,
    note: Seq<char>,
)
    requires
        cut_of(s, t, note),
        cut_of(t, u, note),
        sources_sound(s),
    ensures
        cut_of(s, u, note),
{
    assert forall|k: int| 0 <= k < s.len() implies same_content(s[k], #[trigger] u[k]) by {
        assert(same_content(s[k], t[k]));
        assert(same_content(t[k], u[k]));
    }
    assert forall|k: int| 0 <= k < s.len() && s[k].id != note implies (#[trigger] u[k]).forwardlinks
        == s[k].forwardlinks by {
        assert(same_content(s[k], t[k]));
        assert(t[k].forwardlinks == s[k].forwardlinks);
    }
    assert forall|k: int| 0 <= k < s.len() implies (#[trigger] u[k]).backlinks == s[k].backlinks
        || u[k].backlinks == struck(s[k].backlinks, note) by {
        assert(t[k].backlinks == s[k].backlinks || t[k].backlinks == struck(s[k].backlinks, note));
        assert(s[k].backlinks.no_duplicates());
        lemma_struck(s[k].backlinks, note, token_is(note));
        lemma_struck_absent(struck(s[k].backlinks, note), note);
    }
}

/// Settling a back-link of `note` is a cut of `note`.
proof fn lemma_settle_cut_of(s: Seq<NoteView>, note: Seq<char>, target: Seq<char>)
    ensures
        cut_of(s, settle_backlink(s, note, target), note),
{
    lemma_settle_frame(s, note, target);
    lemma_position(s, note_with(target));
}

/// Giving `note` other edges and settling a back-link of it is a cut of
/// `note`.
proof fn lemma_edges_cut_of(
    s: Seq<NoteView>,
    note: Seq<char>,
    edges: Seq<FLinkView>,
    target: Seq<char>,
)
    requires
        has_note(s, note),
    ensures
        cut_of(s, settle_backlink(with_edges(s, index_of(s, note), edges), note, target), note),
{
    lemma_note_of(s, note);
    let i = index_of(s, note);
    let mid = with_edges(s, i, edges);
    let t = settle_backlink(mid, note, target);
    lemma_settle_cut_of(mid, note, target);
    assert forall|k: int| 0 <= k < s.len() implies same_content(s[k], #[trigger] t[k]) by {
        assert(same_content(mid[k], t[k]));
    }
    assert forall|k: int| 0 <= k < s.len() && s[k].id != note implies (#[trigger] t[k]).forwardlinks
        == s[k].forwardlinks by {
        assert(same_content(mid[k], t[k]));
        assert(t[k].forwardlinks == mid[k].forwardlinks);
    }
    assert forall|k: int| 0 <= k < s.len() implies (#[trigger] t[k]).backlinks == s[k].backlinks
        || t[k].backlinks == struck(s[k].backlinks, note) by {
        assert(t[k].backlinks == mid[k].backlinks || t[k].backlinks == struck(
            mid[k].backlinks,
            note,
        ));
    }
}

/// Cutting arms one after the other is a cut.
pub proof fn lemma_arms_cut_of(s: Seq<NoteView>, note: Seq<char>, p: int, targets: Seq<Seq<char>>)
    requires
        consistent(s),
        has_note(s, note),
        0 <= p < edges_of(s, note).len(),
    ensures
        cut_of(s, arms_cut(s, note, p, targets), note),
    decreases targets.len(),
{
    if targets.len() > 0 {
        let next = arm_cut(s, note, p, targets[0]);
        let edges = edges_of(s, note);
        lemma_edges_cut_of(
            s,
            note,
            edges.update(
                p,
                with_arms(edges[p], without_first(arms_of(edges[p]), arm_to(targets[0]))),
            ),
            targets[0],
        );
        lemma_arm_cut(s, note, p, targets[0]);
        lemma_arm_cut_edges(s, note, p, targets[0]);
        lemma_arms_cut_of(next, note, p, targets.drop_first());
        lemma_cut_of_trans(s, next, arms_cut(next, note, p, targets.drop_first()), note);
    } else {
        lemma_cut_of_self(s, note);
    }
}

/// A store is a cut of itself.
pub proof fn lemma_cut_of_self(s: Seq<NoteView>, note: Seq<char>)
    ensures
        cut_of(s, s, note),
{
}

/// What is seen of a cut between two consistent stores.
pub proof fn lemma_cut_seen(s: Seq<NoteView>, t: Seq<NoteView>, note: Seq<char>)
    requires
        consistent(s),
        consistent(t),
        has_note(s, note),
        cut_of(s, t, note),
    ensures
        cut_seen(s, t, note),
{
    lemma_kept(s, t);
    lemma_note_of(s, note);
    let i = index_of(s, note);
    assert(same_content(s[i], t[i]));
    assert forall|x: Seq<char>| has_note(s, x) && x != note implies #[trigger] edges_of(t, x)
        == edges_of(s, x) by {
        lemma_note_of(s, x);
        assert(index_of(t, x) == index_of(s, x));
    }
    assert forall|x: Seq<char>| has_note(s, x) implies (#[trigger] backlinks_of(t, x).contains(note)
        <==> points_to(edges_of(t, note), x)) by {
        lemma_note_of(s, x);
        let k = index_of(s, x);
        assert(index_of(t, x) == k);
        assert(index_of(t, note) == i);
        assert(same_content(s[k], t[k]));
        assert(t[k].backlinks.contains(t[i].id) <==> points_to(t[i].forwardlinks, t[k].id));
    }
    assert forall|x: Seq<char>|
        has_note(s, x) implies #[trigger] backlinks_of(t, x) == if points_to(edges_of(t, note), x) {
        backlinks_of(s, x)
    } else {
        struck(backlinks_of(s, x), note)
    } by {
        lemma_note_of(s, x);
        let k = index_of(s, x);
        assert(index_of(t, x) == k);
        assert(t[k].backlinks == s[k].backlinks || t[k].backlinks == struck(s[k].backlinks, note));
        assert(backlinks_of(t, x).contains(note) <==> points_to(edges_of(t, note), x));
        assert(s[k].backlinks.no_duplicates());
        lemma_struck(s[k].backlinks, note, token_is(note));
        if !t[k].backlinks.contains(note) && t[k].backlinks == s[k].backlinks {
            lemma_struck_absent(s[k].backlinks, note);
        }
    }
}

/// What is seen of a store `t` after the arm to `target` of the branch
/// `branch` of `note` was cut in `s`: the branch is there without that
/// arm, and `target` lists `note` among its back-links only if `note`
/// still leads to it.
pub open spec fn arm_cut_seen(
    s: Seq<NoteView>,
    t: Seq<NoteView>,
    note: Seq<char>,
    branch: Seq<char>,
    target: Seq<char>,
) -> bool {
    let old_edges = edges_of(s, note);
    let p = branch_at(old_edges, branch);
    let arms = without_first(arms_under(old_edges, branch), arm_to(target));
    &&& cut_seen(s, t, note)
    &&& edges_of(t, note) == old_edges.update(p, with_arms(old_edges[p], arms))
    &&& has_branch(edges_of(t, note), branch)
    &&& arms_under(edges_of(t, note), branch) == arms
    &&& !has_arm(arms_under(edges_of(t, note), branch), target)
    &&& forall|x: Seq<char>|
        x != target ==> #[trigger] has_arm(arms_under(edges_of(t, note), branch), x) == has_arm(
            arms_under(old_edges, branch),
            x,
        )
    &&& forall|x: Seq<char>| #[trigger] has_link(edges_of(t, note), x) == has_link(old_edges, x)
    &&& forall|x: Seq<char>| #[trigger]
        has_branch(edges_of(t, note), x) == has_branch(old_edges, x)
}

/// An arm that was cut is seen as `arm_cut_seen` says.
pub proof fn lemma_arm_cut_seen(
    s: Seq<NoteView>,
    note: Seq<char>,
    branch: Seq<char>,
    target: Seq<char>,
)
    requires
        consistent(s),
        has_note(s, note),
        has_branch(edges_of(s, note), branch),
    ensures
        arm_cut_seen(
            s,
            arm_cut(s, note, branch_at(edges_of(s, note), branch), target),
            note,
            branch,
            target,
        ),
{
    let old_edges = edges_of(s, note);
    let p = branch_at(old_edges, branch);
    lemma_position(old_edges, branch_with(branch));
    lemma_note_of(s, note);
    let old_arms = arms_under(old_edges, branch);
    let arms = without_first(old_arms, arm_to(target));
    let edge = with_arms(old_edges[p], arms);
    let edges = old_edges.update(p, edge);
    let t = arm_cut(s, note, p, target);
    lemma_arm_cut(s, note, p, target);
    lemma_arm_cut_edges(s, note, p, target);
    lemma_edges_cut_of(s, note, edges, target);
    lemma_cut_seen(s, t, note);
    assert(edges_distinct(old_edges));
    assert(arms_distinct(arms_of(old_edges[p])));
    lemma_arm_struck(old_arms, target, target);
    assert forall|k: int| 0 <= k < old_edges.len() implies branch_with(branch)(
        #[trigger] old_edges[k],
    ) == branch_with(branch)(edges[k]) by {}
    lemma_found_same(old_edges, edges, branch_with(branch));
    assert forall|x: Seq<char>| x != target implies #[trigger] has_arm(arms, x) == has_arm(
        old_arms,
        x,
    ) by {
        lemma_arm_struck(old_arms, target, x);
    }
    assert forall|x: Seq<char>| #[trigger] has_link(edges, x) == has_link(old_edges, x) by {
        assert forall|k: int| 0 <= k < old_edges.len() implies link_to(x)(#[trigger] old_edges[k])
            == link_to(x)(edges[k]) by {}
        lemma_found_same(old_edges, edges, link_to(x));
    }
    assert forall|x: Seq<char>| #[trigger] has_branch(edges, x) == has_branch(old_edges, x) by {
        assert forall|k: int| 0 <= k < old_edges.len() implies branch_with(x)(
            #[trigger] old_edges[k],
        ) == branch_with(x)(edges[k]) by {}
        lemma_found_same(old_edges, edges, branch_with(x));
    }
}

/// Distinct edges hold no second branch under the identifier of one of
/// them, and no second plain link to the target of one of them.
pub proof fn lemma_no_second(edges: Seq<FLinkView>, p: int)
    requires
        edges_distinct(edges),
        0 <= p < edges.len(),
    ensures
        edges[p] matches FLinkView::Branch(branch) ==> !has_branch(edges.remove(p), branch.id),
        edges[p] matches FLinkView::Link(link) ==> !has_link(edges.remove(p), link.id),
{
    let rest = edges.remove(p);
    match edges[p] {
        FLinkView::Branch(branch) => {
            lemma_found_iff(rest, branch_with(branch.id));
            if has_branch(rest, branch.id) {
                let k = choose|k: int|
                    0 <= k < rest.len() && branch_with(branch.id)(#[trigger] rest[k]);
                let k2 = if k < p { k } else { k + 1 };
                assert(rest[k] == edges[k2]);
                assert(!same_link_or_branch(edges[k2], edges[p]));
            }
        },
        FLinkView::Link(link) => {
            lemma_found_iff(rest, link_to(link.id));
            if has_link(rest, link.id) {
                let k = choose|k: int| 0 <= k < rest.len() && link_to(link.id)(#[trigger] rest[k]);
                let k2 = if k < p { k } else { k + 1 };
                assert(rest[k] == edges[k2]);
                assert(!same_link_or_branch(edges[k2], edges[p]));
            }
        },
    }
}

/// What is seen of a store `t` after the branch `branch` of `note` was
/// released in `s`: the branch is gone from the edges of `note`, and each
/// target of its arms lists `note` among its back-links only if `note`
/// still leads to it.
pub open spec fn branch_released_seen(
    s: Seq<NoteView>,
    t: Seq<NoteView>,
    note: Seq<char>,
    branch: Seq<char>,
) -> bool {
    let old_edges = edges_of(s, note);
    &&& cut_seen(s, t, note)
    &&& edges_of(t, note) == old_edges.remove(branch_at(old_edges, branch))
    &&& !has_branch(edges_of(t, note), branch)
    &&& forall|x: Seq<char>| #[trigger] has_link(edges_of(t, note), x) == has_link(old_edges, x)
    &&& forall|x: Seq<char>|
        x != branch ==> #[trigger] has_branch(edges_of(t, note), x) == has_branch(old_edges, x)
}

/// A branch that was released is seen as `branch_released_seen` says.
pub proof fn lemma_branch_released_seen(s: Seq<NoteView>, note: Seq<char>, branch: Seq<char>)
    requires
        consistent(s),
        has_note(s, note),
        has_branch(edges_of(s, note), branch),
    ensures
        branch_released_seen(
            s,
            branch_released(s, note, branch_at(edges_of(s, note), branch)),
            note,
            branch,
        ),
{
    let old_edges = edges_of(s, note);
    let p = branch_at(old_edges, branch);
    lemma_position(old_edges, branch_with(branch));
    lemma_note_of(s, note);
    let i = index_of(s, note);
    let targets = targets_of(arms_of(old_edges[p]));
    let cut = arms_cut(s, note, p, targets);
    let t = branch_released(s, note, p);
    lemma_arms_cut(s, note, p, targets);
    lemma_arms_cut_of(s, note, p, targets);
    lemma_branch_released(s, note, p);
    lemma_same_notes(s, cut, note);
    assert(cut_of(cut, t, note)) by {
        assert forall|k: int| 0 <= k < cut.len() implies same_content(cut[k], #[trigger] t[k]) by {}
    }
    lemma_cut_of_trans(s, cut, t, note);
    lemma_cut_seen(s, t, note);
    lemma_same_notes(s, t, note);
    assert(edges_distinct(old_edges));
    lemma_no_second(old_edges, p);
    let edges = old_edges.remove(p);
    assert forall|x: Seq<char>| #[trigger] has_link(edges, x) == has_link(old_edges, x) by {
        lemma_found_remove(old_edges, p, link_to(x));
    }
    assert forall|x: Seq<char>| x != branch implies #[trigger] has_branch(edges, x) == has_branch(
        old_edges,
        x,
    ) by {
        lemma_found_remove(old_edges, p, branch_with(x));
    }
}

/// What is seen of a store `t` after the branch `branch` of `note` was
/// collapsed onto `chosen` in `s`. The branch is gone from the edges of
/// `note`. If it had an arm to `chosen` and `note` had no plain link to
/// `chosen`, a plain link with the arm's target and reason is the last
/// edge of `note`. Each target of an arm lists `note` among its
/// back-links only if `note` still leads to it.
pub open spec fn collapsed_seen(
    s: Seq<NoteView>,
    t: Seq<NoteView>,
    note: Seq<char>,
    branch: Seq<char>,
    chosen: Seq<char>,
) -> bool {
    let old_edges = edges_of(s, note);
    let p = branch_at(old_edges, branch);
    let arms = arms_under(old_edges, branch);
    &&& cut_seen(s, t, note)
    &&& edges_of(t, note) == if has_arm(arms, chosen) && !has_link(old_edges, chosen) {
        old_edges.remove(p).push(FLinkView::Link(arms[position(arms, arm_to(chosen))]))
    } else {
        old_edges.remove(p)
    }
    &&& !has_branch(edges_of(t, note), branch)
    &&& has_arm(arms, chosen) ==> has_link(edges_of(t, note), chosen)
}

/// A branch that was collapsed is seen as `collapsed_seen` says.
pub proof fn lemma_collapsed_seen(
    s: Seq<NoteView>,
    note: Seq<char>,
    branch: Seq<char>,
    chosen: Seq<char>,
)
    requires
        consistent(s),
        has_note(s, note),
        has_branch(edges_of(s, note), branch),
    ensures
        collapsed_seen(s, collapsed(s, note, branch, chosen), note, branch, chosen),
{
    let old_edges = edges_of(s, note);
    let p = branch_at(old_edges, branch);
    lemma_position(old_edges, branch_with(branch));
    lemma_note_of(s, note);
    let i = index_of(s, note);
    let arms = arms_under(old_edges, branch);
    let k = position(arms, arm_to(chosen));
    lemma_position(arms, arm_to(chosen));
    let t = collapsed(s, note, branch, chosen);
    lemma_collapsed(s, note, branch, chosen);
    assert(edges_distinct(old_edges));
    lemma_no_second(old_edges, p);
    if k < arms.len() && !has_link(old_edges, chosen) {
        let others = targets_of(arms.remove(k));
        let cut = arms_cut(s, note, p, others);
        lemma_arms_cut(s, note, p, others);
        lemma_arms_cut_of(s, note, p, others);
        lemma_same_notes(s, cut, note);
        let link = FLinkView::Link(arms[k]);
        assert(cut[i].forwardlinks.remove(p) =~= old_edges.remove(p));
        let edges = old_edges.remove(p).push(link);
        assert(cut_of(cut, t, note)) by {
            assert forall|n: int| 0 <= n < cut.len() implies same_content(
                cut[n],
                #[trigger] t[n],
            ) by {}
        }
        lemma_cut_of_trans(s, cut, t, note);
        lemma_cut_seen(s, t, note);
        lemma_same_notes(s, t, note);
        lemma_found_push(old_edges.remove(p), link, branch_with(branch));
        lemma_found_push(old_edges.remove(p), link, link_to(chosen));
    } else {
        lemma_branch_released_seen(s, note, branch);
        if k < arms.len() {
            lemma_found_remove(old_edges, p, link_to(chosen));
        }
    }
}

/// What is seen of a store `t` after the plain link from `from` to `to`
/// was cut in `s`: the link is gone from the edges of `from`, and `to`
/// lists `from` among its back-links only if an arm of `from` still leads
/// to it.
pub open spec fn link_cut_seen(
    s: Seq<NoteView>,
    t: Seq<NoteView>,
    from: Seq<char>,
    to: Seq<char>,
) -> bool {
    let old_edges = edges_of(s, from);
    &&& cut_seen(s, t, from)
    &&& edges_of(t, from) == without_first(old_edges, link_to(to))
    &&& !has_link(edges_of(t, from), to)
    &&& forall|x: Seq<char>|
        x != to ==> #[trigger] has_link(edges_of(t, from), x) == has_link(old_edges, x)
    &&& forall|x: Seq<char>| #[trigger]
        has_branch(edges_of(t, from), x) == has_branch(old_edges, x)
    &&& forall|x: Seq<char>| #[trigger]
        has_arm_to(edges_of(t, from), x) == has_arm_to(old_edges, x)
}

/// A plain link that was cut is seen as `link_cut_seen` says.
pub proof fn lemma_link_cut_seen(s: Seq<NoteView>, from: Seq<char>, to: Seq<char>)
    requires
        consistent(s),
        has_note(s, from),
        has_link(edges_of(s, from), to),
    ensures
        link_cut_seen(s, link_cut(s, from, to), from, to),
{
    let old_edges = edges_of(s, from);
    let p = position(old_edges, link_to(to));
    lemma_position(old_edges, link_to(to));
    lemma_note_of(s, from);
    let i = index_of(s, from);
    let edges = without_first(old_edges, link_to(to));
    let t = link_cut(s, from, to);
    lemma_link_cut(s, from, to);
    lemma_edges_cut_of(s, from, edges, to);
    lemma_cut_seen(s, t, from);
    lemma_edges_stay(s, i, edges, from, to);
    lemma_same_notes(s, t, from);
    assert(edges_distinct(old_edges));
    lemma_no_second(old_edges, p);
    assert forall|x: Seq<char>| x != to implies #[trigger] has_link(edges, x) == has_link(
        old_edges,
        x,
    ) by {
        lemma_found_remove(old_edges, p, link_to(x));
    }
    assert forall|x: Seq<char>| #[trigger] has_branch(edges, x) == has_branch(old_edges, x) by {
        lemma_found_remove(old_edges, p, branch_with(x));
    }
    assert forall|x: Seq<char>| #[trigger] has_arm_to(edges, x) == has_arm_to(old_edges, x) by {
        lemma_found_remove(old_edges, p, branch_reaching(x));
    }
}

/// The plain link from `from` to `to` is the last thing that leads to
/// `to`: no other note is listed among the back-links of `to`, and no arm
/// of `from` leads to it.
pub open spec fn last_link(s: Seq<NoteView>, from: Seq<char>, to: Seq<char>) -> bool {
    backlinks_of(s, to).len() == 1 && !has_arm_to(edges_of(s, from), to)
}

/// What is seen of a store `t` after the plain link from `from` to `to`
/// was deleted in `s`. First the link is cut. If it was the last thing
/// that led to `to`, `to` is gone, and so is every note that was left with
/// back-links to notes that are gone alone, none of which led to it by an
/// arm; otherwise nothing else differs. Every note that is left was there
/// before, with the edges it had after the cut, and none of them has lost
/// its last back-link unless an arm of a note that is gone had led to it.
/// A note that nothing pointed to stays.
pub open spec fn link_deleted_seen(
    s: Seq<NoteView>,
    t: Seq<NoteView>,
    from: Seq<char>,
    to: Seq<char>,
) -> bool {
    let cut = link_cut(s, from, to);
    &&& link_cut_seen(s, cut, from, to)
    &&& last_link(s, from, to) ==> !has_note(t, to)
    &&& !last_link(s, from, to) ==> t == cut
    &&& survivors(s, t)
    &&& no_new_orphan(s, t)
    &&& orphans_released(cut, t)
    &&& edges_kept(cut, t)
    &&& roots_kept(cut, t, seq![to])
}

/// A plain link that was deleted is seen as `link_deleted_seen` says.
pub proof fn lemma_link_deleted_seen(s: Seq<NoteView>, from: Seq<char>, to: Seq<char>)
    requires
        consistent(s),
        delete_link_error(s, from, to) is None,
    ensures
        link_deleted_seen(s, link_deleted(s, from, to), from, to),
{
    let cut = link_cut(s, from, to);
    let t = link_deleted(s, from, to);
    lemma_link_cut(s, from, to);
    lemma_link_cut_seen(s, from, to);
    lemma_link_deleted(s, from, to);
    lemma_note_of(s, from);
    lemma_note_of(s, to);
    let i = index_of(s, from);
    let j = index_of(s, to);
    let sources = backlinks_of(s, to);
    assert(sources.no_duplicates());
    assert(s[j].backlinks.contains(s[i].id) <==> points_to(s[i].forwardlinks, s[j].id));
    assert(sources.contains(from));
    lemma_struck(sources, from, token_is(from));
    lemma_position(sources, token_is(from));
    assert(has_note(cut, to));
    assert(backlinks_of(cut, to) == if points_to(edges_of(cut, from), to) {
        sources
    } else {
        struck(sources, from)
    });
    if position(sources, token_is(from)) >= sources.len() {
        let k = choose|k: int| 0 <= k < sources.len() && sources[k] == from;
        lemma_position_found(sources, token_is(from), k);
    }
    assert(struck(sources, from).len() == sources.len() - 1);
    if orphaned(cut, to) {
        let pending = seq![to];
        assert(pending_free(cut, pending));
        lemma_cascade(cut, pending);
        assert(!has_note(t, pending[0]));
        lemma_orphans_released(cut, t);
    } else {
        lemma_orphans_released(cut, cut);
    }
}

/// What is seen of a store `t` after the note `note` was deleted in `s`.
/// The note is gone, and so is every note whose back-links all named
/// notes that are gone, none of which led to it by an arm. Every note
/// that is left was there before and leads where it led, the deleted
/// note left aside; none of them has lost its last back-link unless an
/// arm of a note that is gone had led to it. Every other note that
/// nothing pointed to stays.
pub open spec fn note_deleted_seen(s: Seq<NoteView>, t: Seq<NoteView>, note: Seq<char>) -> bool {
    &&& !has_note(t, note)
    &&& survivors(s, t)
    &&& no_new_orphan(s, t)
    &&& orphans_released(s, t)
    &&& leads_kept(s, t, note)
    &&& roots_kept(s, t, seq![note])
}

} // verus!
