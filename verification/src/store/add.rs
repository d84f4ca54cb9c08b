//! Adding notes, links, branches and arms.
use vstd::prelude::*;
use crate::consistency::{lemma_arm_added, lemma_branch_added, lemma_link_added, lemma_note_added};
use crate::errors::AddError;
use crate::graph::{
    add_branch_error, add_branching_error, add_link_error, add_note_error, arm_added, arms_of,
    branch_added, branch_at, consistent, decided, detached, edges_of, link_added, with_arms,
    with_edges,
};
use crate::lookup::{find_arm, find_branch, find_link};
use crate::store::Store;
use crate::types::{Branch, BranchId, BranchView, FLink, FLinkView, Link, LinkView, Note, NoteId};

verus! {

impl Store {
    /// Puts the note into the store, without edges, under the identifier
    /// it carries, and returns that identifier. Refused if the store has
    /// a note under it.
    pub(crate) fn add_note(&mut self, note: Note) -> (result: Result<NoteId, AddError>)
        requires
            consistent(old(self)@),
        ensures
            consistent(final(self)@),
            decided(result, add_note_error(old(self)@, note@.id)),
            result matches Ok(id) ==> id@ == note@.id,
            final(self)@ == if result is Ok {
                old(self)@.push(detached(note@))
            } else {
                old(self)@
            },
    {
        let id = note.get_id();
        if self.find(&id) < self.notes.len() {
            return Err(AddError::NoteAlreadyExists);
        }
        let entering = Note { backlinks: Vec::new(), forwardlinks: Vec::new(), ..note };
        proof {
            assert(entering@.backlinks =~= Seq::empty());
            assert(entering@.forwardlinks =~= Seq::empty());
            assert(entering@ == detached(note@));
            lemma_note_added(self@, note@);
        }
        self.notes.push(entering);
        assert(self@ =~= old(self)@.push(detached(note@)));
        Ok(id)
    }

    /// Draws a plain link from `from_note` to `to_note`, and lists
    /// `from_note` among the back-links of `to_note`. Refused if either
    /// note is missing or the link is there already.
    pub(crate) fn add_link(
        &mut self,
        from_note: NoteId,
        to_note: NoteId,
        reason: String,
    ) -> (result: Result<(), AddError>)
        requires
            consistent(old(self)@),
        ensures
            consistent(final(self)@),
            decided(result, add_link_error(old(self)@, from_note@, to_note@)),
            final(self)@ == if result is Ok {
                link_added(old(self)@, from_note@, to_note@, reason@)
            } else {
                old(self)@
            },
    {
        if self.find(&to_note) >= self.notes.len() {
            return Err(AddError::NoteDoesNotExist);
        }
        let i = self.find(&from_note);
        if i >= self.notes.len() {
            return Err(AddError::NoteDoesNotExist);
        }
        if find_link(&self.notes[i].forwardlinks, &to_note) < self.notes[i].forwardlinks.len() {
            return Err(AddError::LinkAlreadyExists);
        }
        let link = Link { id: to_note.clone(), reason };
        self.notes[i].forwardlinks.push(FLink::Link(link));
        proof {
            let edges = old(self)@[i as int].forwardlinks.push(
                FLinkView::Link(LinkView { id: to_note@, reason: reason@ }),
            );
            assert(self@[i as int].forwardlinks =~= edges);
            assert(self@ =~= with_edges(old(self)@, i as int, edges));
            lemma_link_added(old(self)@, from_note@, to_note@, reason@);
        }
        self.gain_backlink(&to_note, &from_note);
        Ok(())
    }

    /// Gives the branch `on_branch` of `note` an arm to `link_note`, and
    /// lists `note` among the back-links of `link_note`. Refused if either
    /// note or the branch is missing, or if the branch has an arm to
    /// `link_note` already.
    pub(crate) fn add_branch(
        &mut self,
        note: NoteId,
        on_branch: BranchId,
        link_note: NoteId,
        reason: String,
    ) -> (result: Result<(), AddError>)
        requires
            consistent(old(self)@),
        ensures
            consistent(final(self)@),
            decided(result, add_branch_error(old(self)@, note@, on_branch@, link_note@)),
            final(self)@ == if result is Ok {
                arm_added(
                    old(self)@,
                    note@,
                    branch_at(edges_of(old(self)@, note@), on_branch@),
                    link_note@,
                    reason@,
                )
            } else {
                old(self)@
            },
    {
        if self.find(&link_note) >= self.notes.len() {
            return Err(AddError::NoteDoesNotExist);
        }
        let i = self.find(&note);
        if i >= self.notes.len() {
            return Err(AddError::NoteDoesNotExist);
        }
        let p = find_branch(&self.notes[i].forwardlinks, &on_branch);
        if p >= self.notes[i].forwardlinks.len() {
            return Err(AddError::BranchDoesNotExist);
        }
        let taken = match &self.notes[i].forwardlinks[p] {
            FLink::Branch(branch) => find_arm(&branch.branches, &link_note) < branch.branches.len(),
            FLink::Link(_) => false,
        };
        if taken {
            return Err(AddError::BranchAlreadyExists);
        }
        let arm = Link { id: link_note.clone(), reason };
        self.notes[i].forwardlinks[p].add_arm(arm);
        proof {
            let old_edges = old(self)@[i as int].forwardlinks;
            let arms = arms_of(old_edges[p as int]).push(
                LinkView { id: link_note@, reason: reason@ },
            );
            let edges = old_edges.update(p as int, with_arms(old_edges[p as int], arms));
            assert(self@[i as int].forwardlinks =~= edges);
            assert(self@ =~= with_edges(old(self)@, i as int, edges));
            lemma_arm_added(old(self)@, note@, p as int, link_note@, reason@);
        }
        self.gain_backlink(&link_note, &note);
        Ok(())
    }

    /// Opens an empty branch on `note` under the identifier `id` and
    /// returns the identifier. Refused if the note is missing or has a
    /// branch under that identifier.
    pub(crate) fn create_branching_with(
        &mut self,
        note: NoteId,
        condition: String,
        id: BranchId,
    ) -> (result: Result<BranchId, AddError>)
        requires
            consistent(old(self)@),
        ensures
            consistent(final(self)@),
            decided(result, add_branching_error(old(self)@, note@, id@)),
            result matches Ok(made) ==> made@ == id@,
            final(self)@ == if result is Ok {
                branch_added(old(self)@, note@, id@, condition@)
            } else {
                old(self)@
            },
    {
        let i = self.find(&note);
        if i >= self.notes.len() {
            return Err(AddError::NoteDoesNotExist);
        }
        if find_branch(&self.notes[i].forwardlinks, &id) < self.notes[i].forwardlinks.len() {
            return Err(AddError::BranchAlreadyExists);
        }
        let branch = Branch::with_id(id, condition);
        let made = branch.get_id();
        self.notes[i].forwardlinks.push(FLink::Branch(branch));
        proof {
            let edges = old(self)@[i as int].forwardlinks.push(
                FLinkView::Branch(
                    BranchView { id: id@, condition: condition@, branches: Seq::empty() },
                ),
            );
            assert(self@[i as int].forwardlinks =~= edges);
            assert(self@ =~= with_edges(old(self)@, i as int, edges));
            lemma_branch_added(old(self)@, note@, id@, condition@);
        }
        Ok(made)
    }
}

} // verus!
