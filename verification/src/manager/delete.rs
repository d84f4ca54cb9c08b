//! Deleting notes, links, branches and arms.
use vstd::prelude::*;
use crate::effects::{lemma_arm_cut_seen, lemma_branch_released_seen, lemma_link_deleted_seen};
use crate::errors::DeleteError;
use crate::graph::{delete_arm_error, delete_branch_error, delete_link_error, delete_note_error};
use crate::laws::lemma_deletion_is_thorough;
use crate::manager::NotesManager;
use crate::manager_impl::{DeleteBranch, DeleteLink, DeleteNote};
use crate::types::{BranchId, NoteId};

verus! {

impl DeleteNote for NotesManager {
    fn delete_note(&mut self, note: NoteId) -> (result: Result<(), DeleteError>) {
        proof {
            use_type_invariant(&*self);
            if delete_note_error(self@, note@) is None {
                lemma_deletion_is_thorough(self@, note@);
            }
        }
        let mut store = self.take();
        let result = store.delete_note(note);
        self.put(store);
        result
    }
}

impl DeleteLink for NotesManager {
    fn delete_link(
        &mut self,
        from_note: NoteId,
        to_note: NoteId,
    ) -> (result: Result<(), DeleteError>) {
        proof {
            use_type_invariant(&*self);
            if delete_link_error(self@, from_note@, to_note@) is None {
                lemma_link_deleted_seen(self@, from_note@, to_note@);
            }
        }
        let mut store = self.take();
        let result = store.delete_link(from_note, to_note);
        self.put(store);
        result
    }
}

impl DeleteBranch for NotesManager {
    fn delete_branch(&mut self, note: NoteId, branch: BranchId) -> (result: Result<
        (),
        DeleteError,
    >) {
        proof {
            use_type_invariant(&*self);
            if delete_branch_error(self@, note@, branch@) is None {
                lemma_branch_released_seen(self@, note@, branch@);
            }
        }
        let mut store = self.take();
        let result = store.delete_branch(note, branch);
        self.put(store);
        result
    }

    fn delete_branch_link(
        &mut self,
        note: NoteId,
        branch: BranchId,
        link_note: NoteId,
    ) -> (result: Result<(), DeleteError>) {
        proof {
            use_type_invariant(&*self);
            if delete_arm_error(self@, note@, branch@, link_note@) is None {
                lemma_arm_cut_seen(self@, note@, branch@, link_note@);
            }
        }
        let mut store = self.take();
        let result = store.delete_branch_link(note, branch, link_note);
        self.put(store);
        result
    }
}

} // verus!
