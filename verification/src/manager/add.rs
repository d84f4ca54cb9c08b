//! Adding notes, links, branches and arms.
use vstd::prelude::*;
use crate::consistency::lemma_no_branches;
use crate::effects::{
    branch_added_seen, lemma_arm_added_seen, lemma_branch_added_seen, lemma_link_added_seen,
    lemma_note_joined,
};
use crate::errors::AddError;
use crate::graph::{
    add_branch_error, add_branching_error, add_link_error, add_note_error, branch_added, branch_ids,
    consistent, decided, edges_of, has_note,
};
use crate::manager::NotesManager;
use crate::manager_impl::{AddBranch, AddLink, AddNote};
use crate::types::{BranchId, Note, NoteId};

verus! {

impl AddNote for NotesManager {
    fn add_note(&mut self, note: Note) -> (result: Result<NoteId, AddError>) {
        proof {
            use_type_invariant(&*self);
            if add_note_error(self@, note@.id) is None {
                lemma_note_joined(self@, note@);
            }
        }
        let mut store = self.take();
        let result = store.add_note(note);
        self.put(store);
        result
    }
}

impl AddLink for NotesManager {
    fn add_link(&mut self, from_note: NoteId, to_note: NoteId, reason: String) -> (result: Result<
        (),
        AddError,
    >) {
        proof {
            use_type_invariant(&*self);
            if add_link_error(self@, from_note@, to_note@) is None {
                lemma_link_added_seen(self@, from_note@, to_note@, reason@);
            }
        }
        let mut store = self.take();
        let result = store.add_link(from_note, to_note, reason);
        self.put(store);
        result
    }
}

impl AddBranch for NotesManager {
    fn create_branching(&mut self, note: NoteId, condition: String) -> (result: Result<
        BranchId,
        AddError,
    >) {
        proof {
            use_type_invariant(&*self);
        }
        let id = BranchId::new();
        proof {
            if has_note(self@, note@) && branch_ids(edges_of(self@, note@)).len() == 0 {
                lemma_no_branches(edges_of(self@, note@), id@);
            }
            if add_branching_error(self@, note@, id@) is None {
                lemma_branch_added_seen(self@, note@, id@, condition@);
            }
        }
        let mut store = self.take();
        let result = store.create_branching_with(note, condition, id);
        self.put(store);
        result
    }

    fn add_branch(
        &mut self,
        note: NoteId,
        on_branch: BranchId,
        link_note: NoteId,
        reason: String,
    ) -> (result: Result<(), AddError>) {
        proof {
            use_type_invariant(&*self);
            if add_branch_error(self@, note@, on_branch@, link_note@) is None {
                lemma_arm_added_seen(self@, note@, on_branch@, link_note@, reason@);
            }
        }
        let mut store = self.take();
        let result = store.add_branch(note, on_branch, link_note, reason);
        self.put(store);
        result
    }
}

impl NotesManager {
    /// Opens an empty branch on `note` under the identifier `id` and
    /// returns the identifier. Refused if the note is missing or has a
    /// branch under that identifier.
    pub fn create_branching_with(
        &mut self,
        note: NoteId,
        condition: String,
        id: BranchId,
    ) -> (result: Result<BranchId, AddError>)
        ensures
            consistent(final(self)@),
            decided(result, add_branching_error(old(self)@, note@, id@)),
            result matches Ok(made) ==> made@ == id@,
            final(self)@ == if result is Ok {
                branch_added(old(self)@, note@, id@, condition@)
            } else {
                old(self)@
            },
            result is Ok ==> branch_added_seen(old(self)@, final(self)@, note@, id@, condition@),
    {
        proof {
            use_type_invariant(&*self);
            if add_branching_error(self@, note@, id@) is None {
                lemma_branch_added_seen(self@, note@, id@, condition@);
            }
        }
        let mut store = self.take();
        let result = store.create_branching_with(note, condition, id);
        self.put(store);
        result
    }
}

} // verus!
