//! The capabilities of a note store: adding, changing, deleting and
//! reading, each split by what it works on. A store shows itself as the
//! sequence of its notes' values; the contracts speak of that sequence
//! alone.
use vstd::prelude::*;
use crate::effects::{
    arm_added_seen, arm_cut_seen, branch_added_seen, branch_released_seen, collapsed_seen,
    edge_replaced_seen, link_added_seen, link_deleted_seen, note_deleted_seen,
};
use crate::errors::{AddError, ChangeError, DeleteError, ReadError};
use crate::graph::{
    add_branch_error, add_branching_error, add_link_error, add_note_error, arm_added, arm_cut,
    arm_reason_changed, arm_replaced, arms_under, backlinks_of, branch_added, branch_at,
    branch_condition_changed, branch_ids, branch_released, change_arm_error, change_branch_error,
    change_link_error, change_note_error, collapsed, consistent, decided, delete_arm_error,
    delete_branch_error, delete_link_error, delete_note_error, detached, edge_unmarked, edges_of,
    has_branch, has_note, joined, link_added, link_deleted, link_reason_changed, link_to,
    note_deleted, note_of, note_replaced, orphaned, pure_links, read_branch_error, read_note_error,
    replaced, root_ids,
};
use crate::search::{matching, position};
use crate::types::{
    branch_refs_view, flink_refs_view, id_refs_view, link_refs_view, BranchId, BranchView, FLink,
    FLinkView, Link, LinkView, Note, NoteId, NoteView,
};

verus! {

/// All that adds to a store.
pub trait Add: AddNote + AddLink + AddBranch {

}

/// All that changes what a store says.
pub trait Change: ChangeNote + ChangeLink + ChangeBranch {

}

/// All that deletes from a store.
pub trait Delete: DeleteNote + DeleteLink + DeleteBranch {

}

/// All that reads a store.
pub trait Read: ReadNote + ReadLink + ReadBranch {

}

impl<T> Add for T where T: AddNote + AddLink + AddBranch {

}

impl<T> Change for T where T: ChangeNote + ChangeLink + ChangeBranch {

}

impl<T> Delete for T where T: DeleteNote + DeleteLink + DeleteBranch {

}

impl<T> Read for T where T: ReadNote + ReadLink + ReadBranch {

}

/// Taking notes in.
pub trait AddNote: View<V = Seq<NoteView>> {
    /// Puts the note into the store, without edges, under the identifier
    /// it carries, and returns that identifier. Refused if the store has
    /// a note under it.
    fn add_note(&mut self, note: Note) -> (result: Result<NoteId, AddError>)
        ensures
            consistent(final(self)@),
            decided(result, add_note_error(old(self)@, note@.id)),
            result matches Ok(id) ==> id@ == note@.id,
            final(self)@ == if result is Ok {
                old(self)@.push(detached(note@))
            } else {
                old(self)@
            },
            result is Ok ==> joined(old(self)@, final(self)@, detached(note@)),
    ;
}

/// Drawing plain links.
pub trait AddLink: View<V = Seq<NoteView>> {
    /// Draws a plain link from `from_note` to `to_note`, and lists
    /// `from_note` among the back-links of `to_note`. Refused if either
    /// note is missing or the link is there already.
    fn add_link(&mut self, from_note: NoteId, to_note: NoteId, reason: String) -> (result:
        Result<(), AddError>)
        ensures
            consistent(final(self)@),
            decided(result, add_link_error(old(self)@, from_note@, to_note@)),
            final(self)@ == if result is Ok {
                link_added(old(self)@, from_note@, to_note@, reason@)
            } else {
                old(self)@
            },
            result is Ok ==> link_added_seen(
                old(self)@,
                final(self)@,
                from_note@,
                to_note@,
                reason@,
            ),
    ;
}

/// Opening branches and giving them arms.
pub trait AddBranch: View<V = Seq<NoteView>> {
    /// Opens an empty branch on `note` under a fresh identifier and
    /// returns the identifier. Refused if the note is missing, or if the
    /// generator repeats an identifier that a branch of the note has: on
    /// a note without branches it cannot be refused for that.
    fn create_branching(&mut self, note: NoteId, condition: String) -> (result: Result<
        BranchId,
        AddError,
    >)
        ensures
            consistent(final(self)@),
            match result {
                Ok(id) => {
                    &&& add_branching_error(old(self)@, note@, id@) is None
                    &&& final(self)@ == branch_added(old(self)@, note@, id@, condition@)
                    &&& branch_added_seen(old(self)@, final(self)@, note@, id@, condition@)
                },
                Err(error) => {
                    &&& exists|id: Seq<char>| #[trigger]
                        add_branching_error(old(self)@, note@, id) == Some(error)
                    &&& final(self)@ == old(self)@
                },
            },
            has_note(old(self)@, note@) && branch_ids(edges_of(old(self)@, note@)).len() == 0
                ==> result is Ok,
    ;

    /// Gives the branch `on_branch` of `note` an arm to `link_note`, and
    /// lists `note` among the back-links of `link_note`. Refused if either
    /// note or the branch is missing, or if the branch has an arm to
    /// `link_note` already.
    fn add_branch(
        &mut self,
        note: NoteId,
        on_branch: BranchId,
        link_note: NoteId,
        reason: String,
    ) -> (result: Result<(), AddError>)
        ensures
            consistent(final(self)@),
            decided(result, add_branch_error(old(self)@, note@, on_branch@, link_note@)),
            final(self)@ == if result is Ok {
                arm_added(
                    old(self)@,
                    note@,
                    branch_at(edges_of(old(self)@, note@), on_branch@),
                    link_note@,
                    reason@,
                )
            } else {
                old(self)@
            },
            result is Ok ==> arm_added_seen(
                old(self)@,
                final(self)@,
                note@,
                on_branch@,
                link_note@,
                reason@,
            ),
    ;
}

/// Changing what a note says.
pub trait ChangeNote: View<V = Seq<NoteView>> {
    /// Gives the note another title.
    fn change_note_title(&mut self, note: NoteId, title: String) -> (result: Result<
        (),
        ChangeError,
    >)
        ensures
            consistent(final(self)@),
            decided(result, change_note_error(old(self)@, note@)),
            final(self)@ == if result is Ok {
                note_replaced(
                    old(self)@,
                    note@,
                    NoteView { title: title@, ..note_of(old(self)@, note@) },
                )
            } else {
                old(self)@
            },
            result is Ok ==> replaced(
                old(self)@,
                final(self)@,
                note@,
                NoteView { title: title@, ..note_of(old(self)@, note@) },
            ),
    ;

    /// Gives the note another subtitle.
    fn change_note_subtitle(&mut self, note: NoteId, subtitle: String) -> (result: Result<
        (),
        ChangeError,
    >)
        ensures
            consistent(final(self)@),
            decided(result, change_note_error(old(self)@, note@)),
            final(self)@ == if result is Ok {
                note_replaced(
                    old(self)@,
                    note@,
                    NoteView { subtitle: Some(subtitle@), ..note_of(old(self)@, note@) },
                )
            } else {
                old(self)@
            },
            result is Ok ==> replaced(
                old(self)@,
                final(self)@,
                note@,
                NoteView { subtitle: Some(subtitle@), ..note_of(old(self)@, note@) },
            ),
    ;

    /// Gives the note another body.
    fn change_note_body(&mut self, note: NoteId, body: String) -> (result: Result<
        (),
        ChangeError,
    >)
        ensures
            consistent(final(self)@),
            decided(result, change_note_error(old(self)@, note@)),
            final(self)@ == if result is Ok {
                note_replaced(
                    old(self)@,
                    note@,
                    NoteView { body: body@, ..note_of(old(self)@, note@) },
                )
            } else {
                old(self)@
            },
            result is Ok ==> replaced(
                old(self)@,
                final(self)@,
                note@,
                NoteView { body: body@, ..note_of(old(self)@, note@) },
            ),
    ;

    /// Marks the note.
    fn mark_note(&mut self, note: NoteId) -> (result: Result<(), ChangeError>)
        ensures
            consistent(final(self)@),
            decided(result, change_note_error(old(self)@, note@)),
            final(self)@ == if result is Ok {
                note_replaced(
                    old(self)@,
                    note@,
                    NoteView { marked: true, ..note_of(old(self)@, note@) },
                )
            } else {
                old(self)@
            },
            result is Ok ==> replaced(
                old(self)@,
                final(self)@,
                note@,
                NoteView { marked: true, ..note_of(old(self)@, note@) },
            ),
    ;

    /// Takes the mark from the note.
    fn unmark_note(&mut self, note: NoteId) -> (result: Result<(), ChangeError>)
        ensures
            consistent(final(self)@),
            decided(result, change_note_error(old(self)@, note@)),
            final(self)@ == if result is Ok {
                note_replaced(
                    old(self)@,
                    note@,
                    NoteView { marked: false, ..note_of(old(self)@, note@) },
                )
            } else {
                old(self)@
            },
            result is Ok ==> replaced(
                old(self)@,
                final(self)@,
                note@,
                NoteView { marked: false, ..note_of(old(self)@, note@) },
            ),
    ;

    /// Reserved for a sweep over the whole store. For now it succeeds and
    /// changes nothing.
    fn reconsile_nodes(&mut self) -> (result: Result<(), ChangeError>)
        ensures
            result is Ok,
            final(self)@ == old(self)@,
            consistent(final(self)@),
    ;
}

/// Changing what a plain link says.
pub trait ChangeLink: View<V = Seq<NoteView>> {
    /// Gives the plain link from `from_note` to `to_note` another reason.
    /// Refused if `from_note` is missing or has no such link.
    fn change_link_reason(&mut self, from_note: NoteId, to_note: NoteId, reason: String) -> (result:
        Result<(), ChangeError>)
        ensures
            consistent(final(self)@),
            decided(result, change_link_error(old(self)@, from_note@, to_note@)),
            final(self)@ == if result is Ok {
                link_reason_changed(old(self)@, from_note@, to_note@, reason@)
            } else {
                old(self)@
            },
            result is Ok ==> edge_replaced_seen(
                old(self)@,
                final(self)@,
                from_note@,
                position(edges_of(old(self)@, from_note@), link_to(to_note@)),
                FLinkView::Link(LinkView { id: to_note@, reason: reason@ }),
            ),
    ;
}

/// Changing what a branch says, and collapsing it onto one arm.
pub trait ChangeBranch: View<V = Seq<NoteView>> {
    /// Gives the branch `branch` of `note` another condition. Refused if
    /// the note or the branch is missing.
    fn change_branch_condition(
        &mut self,
        note: NoteId,
        branch: BranchId,
        condition: String,
    ) -> (result: Result<(), ChangeError>)
        ensures
            consistent(final(self)@),
            decided(result, change_branch_error(old(self)@, note@, branch@)),
            final(self)@ == if result is Ok {
                branch_condition_changed(old(self)@, note@, branch@, condition@)
            } else {
                old(self)@
            },
            result is Ok ==> edge_replaced_seen(
                old(self)@,
                final(self)@,
                note@,
                branch_at(edges_of(old(self)@, note@), branch@),
                FLinkView::Branch(
                    BranchView {
                        id: branch@,
                        condition: condition@,
                        branches: arms_under(edges_of(old(self)@, note@), branch@),
                    },
                ),
            ),
    ;

    /// Gives the arm to `link_note` of the branch `branch` of `note`
    /// another reason. Refused if the note, the branch or the arm is
    /// missing.
    fn change_branch_reason(
        &mut self,
        note: NoteId,
        branch: BranchId,
        link_note: NoteId,
        reason: String,
    ) -> (result: Result<(), ChangeError>)
        ensures
            consistent(final(self)@),
            decided(result, change_arm_error(old(self)@, note@, branch@, link_note@)),
            final(self)@ == if result is Ok {
                arm_reason_changed(old(self)@, note@, branch@, link_note@, reason@)
            } else {
                old(self)@
            },
            result is Ok ==> edge_replaced_seen(
                old(self)@,
                final(self)@,
                note@,
                branch_at(edges_of(old(self)@, note@), branch@),
                arm_replaced(edges_of(old(self)@, note@), branch@, link_note@, reason@),
            ),
    ;

    /// Collapses the branch `branch` of `note` onto `link_note`. If the
    /// branch has an arm to `link_note` and the note has no plain link to
    /// it, that arm becomes a plain link at the end of the note's edges,
    /// with its reason; otherwise no link is added. Every other arm is
    /// cut and its back-link settled, and the branch is gone. Refused if
    /// the note or the branch is missing.
    fn collapse_branch(&mut self, note: NoteId, branch: BranchId, link_note: NoteId) -> (result:
        Result<(), ChangeError>)
        ensures
            consistent(final(self)@),
            decided(result, change_branch_error(old(self)@, note@, branch@)),
            final(self)@ == if result is Ok {
                collapsed(old(self)@, note@, branch@, link_note@)
            } else {
                old(self)@
            },
            result is Ok ==> collapsed_seen(old(self)@, final(self)@, note@, branch@, link_note@),
    ;
}

/// Deleting notes.
pub trait DeleteNote: View<V = Seq<NoteView>> {
    /// Deletes the note: cuts every edge that leads to it, then releases
    /// it. Its edges are cut in their order and it leaves the store, and
    /// so does every note that a plain link cut on the way leaves without
    /// a back-link. The targets of its arms stay. Refused if the note is
    /// missing.
    fn delete_note(&mut self, note: NoteId) -> (result: Result<(), DeleteError>)
        ensures
            consistent(final(self)@),
            decided(result, delete_note_error(old(self)@, note@)),
            final(self)@ == if result is Ok {
                note_deleted(old(self)@, note@)
            } else {
                old(self)@
            },
            result is Ok ==> note_deleted_seen(old(self)@, final(self)@, note@),
    ;
}

/// Deleting plain links.
pub trait DeleteLink: View<V = Seq<NoteView>> {
    /// Deletes the plain link from `from_note` to `to_note`. If nothing
    /// points to `to_note` any more, that note is released: its edges are
    /// cut in their order and it leaves the store, and so does every note
    /// that a plain link cut on the way leaves without a back-link.
    /// Refused if either note or the link is missing.
    fn delete_link(&mut self, from_note: NoteId, to_note: NoteId) -> (result: Result<
        (),
        DeleteError,
    >)
        ensures
            consistent(final(self)@),
            decided(result, delete_link_error(old(self)@, from_note@, to_note@)),
            final(self)@ == if result is Ok {
                link_deleted(old(self)@, from_note@, to_note@)
            } else {
                old(self)@
            },
            result is Ok ==> link_deleted_seen(old(self)@, final(self)@, from_note@, to_note@),
    ;
}

/// Deleting branches and their arms.
pub trait DeleteBranch: View<V = Seq<NoteView>> {
    /// Deletes the branch `branch` of `note`: cuts its arms, settles their
    /// back-links and removes the branch from the note's edges. The
    /// targets of the arms stay in the store. Refused if the note or the
    /// branch is missing.
    fn delete_branch(&mut self, note: NoteId, branch: BranchId) -> (result: Result<
        (),
        DeleteError,
    >)
        ensures
            consistent(final(self)@),
            decided(result, delete_branch_error(old(self)@, note@, branch@)),
            final(self)@ == if result is Ok {
                branch_released(
                    old(self)@,
                    note@,
                    branch_at(edges_of(old(self)@, note@), branch@),
                )
            } else {
                old(self)@
            },
            result is Ok ==> branch_released_seen(old(self)@, final(self)@, note@, branch@),
    ;

    /// Deletes the arm to `link_note` of the branch `branch` of `note` and
    /// settles the back-link. The branch stays, even without arms, and so
    /// does `link_note`. Refused if either note, the branch or the arm is
    /// missing.
    fn delete_branch_link(&mut self, note: NoteId, branch: BranchId, link_note: NoteId) -> (result:
        Result<(), DeleteError>)
        ensures
            consistent(final(self)@),
            decided(result, delete_arm_error(old(self)@, note@, branch@, link_note@)),
            final(self)@ == if result is Ok {
                arm_cut(
                    old(self)@,
                    note@,
                    branch_at(edges_of(old(self)@, note@), branch@),
                    link_note@,
                )
            } else {
                old(self)@
            },
            result is Ok ==> arm_cut_seen(old(self)@, final(self)@, note@, branch@, link_note@),
    ;
}

/// Reading notes.
pub trait ReadNote: View<V = Seq<NoteView>> {
    /// The note `note`. Refused if it is missing.
    fn read_note(&self, note: NoteId) -> (result: Result<&Note, ReadError>)
        ensures
            consistent(self@),
            decided(result, read_note_error(self@, note@)),
            result matches Ok(found) ==> found@ == note_of(self@, note@),
    ;

    /// The identifiers of the notes that nothing points to, in the order
    /// of the store. Never refused.
    fn list_root_notes(&self) -> (result: Result<Vec<&NoteId>, ReadError>)
        ensures
            consistent(self@),
            result matches Ok(roots) && id_refs_view(roots@) == root_ids(self@),
            forall|id: Seq<char>| #[trigger] root_ids(self@).contains(id) <==> orphaned(self@, id),
    ;
}

/// Reading edges and back-links.
pub trait ReadLink: View<V = Seq<NoteView>> {
    /// The edges of `note`, in their order. Refused if the note is
    /// missing.
    fn list_forwardlinks(&self, note: NoteId) -> (result: Result<Vec<&FLink>, ReadError>)
        ensures
            consistent(self@),
            decided(result, read_note_error(self@, note@)),
            result matches Ok(edges) ==> flink_refs_view(edges@) == edges_of(self@, note@),
    ;

    /// The edges of `note` that lead to a note that is not marked, in
    /// their order: a plain link whose target is not marked, a branch
    /// with an arm whose target is not marked. Refused if the note is
    /// missing.
    fn list_unmarked_forwardlinks(&self, note: NoteId) -> (result: Result<Vec<&FLink>, ReadError>)
        ensures
            consistent(self@),
            decided(result, read_note_error(self@, note@)),
            result matches Ok(edges) ==> flink_refs_view(edges@) == matching(
                edges_of(self@, note@),
                edge_unmarked(self@),
            ),
            forall|edge: FLinkView| #[trigger]
                matching(edges_of(self@, note@), edge_unmarked(self@)).contains(edge) <==> edges_of(
                    self@,
                    note@,
                ).contains(edge) && edge_unmarked(self@)(edge),
    ;

    /// The plain links of `note`, in their order; branches are left out.
    /// Refused if the note is missing.
    fn list_pure_links(&self, note: NoteId) -> (result: Result<Vec<&Link>, ReadError>)
        ensures
            consistent(self@),
            decided(result, read_note_error(self@, note@)),
            result matches Ok(links) ==> link_refs_view(links@) == pure_links(
                edges_of(self@, note@),
            ),
            forall|link: LinkView| #[trigger]
                pure_links(edges_of(self@, note@)).contains(link) <==> edges_of(
                    self@,
                    note@,
                ).contains(FLinkView::Link(link)),
    ;

    /// The identifiers of the notes that point to `note`, in the order in
    /// which they came to do so. Refused if the note is missing.
    fn list_backlinks(&self, note: NoteId) -> (result: Result<Vec<&NoteId>, ReadError>)
        ensures
            consistent(self@),
            decided(result, read_note_error(self@, note@)),
            result matches Ok(sources) ==> id_refs_view(sources@) == backlinks_of(self@, note@),
    ;
}

/// Reading branches.
pub trait ReadBranch: View<V = Seq<NoteView>> {
    /// The identifiers of the branches of `note`, in their order. Refused
    /// if the note is missing.
    fn list_branches(&self, note: NoteId) -> (result: Result<Vec<&BranchId>, ReadError>)
        ensures
            consistent(self@),
            decided(result, read_note_error(self@, note@)),
            result matches Ok(ids) ==> branch_refs_view(ids@) == branch_ids(edges_of(self@, note@)),
            forall|id: Seq<char>| #[trigger]
                branch_ids(edges_of(self@, note@)).contains(id) <==> has_branch(
                    edges_of(self@, note@),
                    id,
                ),
    ;

    /// The arms of the branch `branch` of `note`, in their order. Refused
    /// if the note or the branch is missing.
    fn list_branch_links(&self, note: NoteId, branch: BranchId) -> (result: Result<
        Vec<&Link>,
        ReadError,
    >)
        ensures
            consistent(self@),
            decided(result, read_branch_error(self@, note@, branch@)),
            result matches Ok(arms) ==> link_refs_view(arms@) == arms_under(
                edges_of(self@, note@),
                branch@,
            ),
    ;
}

} // verus!
