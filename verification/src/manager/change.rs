//! Changing what notes and edges say, and collapsing a branch onto one of
//! its arms.
use vstd::prelude::*;
use crate::effects::{lemma_collapsed_seen, lemma_edge_replaced_seen, lemma_note_replaced_seen};
use crate::errors::ChangeError;
use crate::graph::{
    arm_replaced, arm_to, arms_of, arms_under, branch_at, branch_with, change_arm_error,
    change_branch_error, change_link_error, change_note_error, edges_of, link_to, note_of,
    targets_of,
};
use crate::manager::NotesManager;
use crate::manager_impl::{ChangeBranch, ChangeLink, ChangeNote};
use crate::search::{lemma_position, position};
use crate::types::{BranchId, BranchView, FLinkView, LinkView, NoteId, NoteView};

verus! {

impl ChangeNote for NotesManager {
    fn change_note_title(
        &mut self,
        note: NoteId,
        title: String,
    ) -> (result: Result<(), ChangeError>) {
        proof {
            use_type_invariant(&*self);
            if change_note_error(self@, note@) is None {
                lemma_note_replaced_seen(
                    self@,
                    note@,
                    NoteView { title: title@, ..note_of(self@, note@) },
                );
            }
        }
        let mut store = self.take();
        let result = store.change_note_title(note, title);
        self.put(store);
        result
    }

    fn change_note_subtitle(
        &mut self,
        note: NoteId,
        subtitle: String,
    ) -> (result: Result<(), ChangeError>) {
        proof {
            use_type_invariant(&*self);
            if change_note_error(self@, note@) is None {
                lemma_note_replaced_seen(
                    self@,
                    note@,
                    NoteView { subtitle: Some(subtitle@), ..note_of(self@, note@) },
                );
            }
        }
        let mut store = self.take();
        let result = store.change_note_subtitle(note, subtitle);
        self.put(store);
        result
    }

    fn change_note_body(&mut self, note: NoteId, body: String) -> (result: Result<
        (),
        ChangeError,
    >) {
        proof {
            use_type_invariant(&*self);
            if change_note_error(self@, note@) is None {
                lemma_note_replaced_seen(
                    self@,
                    note@,
                    NoteView { body: body@, ..note_of(self@, note@) },
                );
            }
        }
        let mut store = self.take();
        let result = store.change_note_body(note, body);
        self.put(store);
        result
    }

    fn mark_note(&mut self, note: NoteId) -> (result: Result<(), ChangeError>) {
        proof {
            use_type_invariant(&*self);
            if change_note_error(self@, note@) is None {
                lemma_note_replaced_seen(
                    self@,
                    note@,
                    NoteView { marked: true, ..note_of(self@, note@) },
                );
            }
        }
        let mut store = self.take();
        let result = store.set_mark(note, true);
        self.put(store);
        result
    }

    fn unmark_note(&mut self, note: NoteId) -> (result: Result<(), ChangeError>) {
        proof {
            use_type_invariant(&*self);
            if change_note_error(self@, note@) is None {
                lemma_note_replaced_seen(
                    self@,
                    note@,
                    NoteView { marked: false, ..note_of(self@, note@) },
                );
            }
        }
        let mut store = self.take();
        let result = store.set_mark(note, false);
        self.put(store);
        result
    }

    fn reconsile_nodes(&mut self) -> (result: Result<(), ChangeError>) {
        proof {
            use_type_invariant(&*self);
        }
        Ok(())
    }
}

impl ChangeLink for NotesManager {
    fn change_link_reason(
        &mut self,
        from_note: NoteId,
        to_note: NoteId,
        reason: String,
    ) -> (result: Result<(), ChangeError>) {
        proof {
            use_type_invariant(&*self);
            if change_link_error(self@, from_note@, to_note@) is None {
                let edges = edges_of(self@, from_note@);
                lemma_position(edges, link_to(to_note@));
                lemma_edge_replaced_seen(
                    self@,
                    from_note@,
                    position(edges, link_to(to_note@)),
                    FLinkView::Link(LinkView { id: to_note@, reason: reason@ }),
                );
            }
        }
        let mut store = self.take();
        let result = store.change_link_reason(from_note, to_note, reason);
        self.put(store);
        result
    }
}

impl ChangeBranch for NotesManager {
    fn change_branch_condition(
        &mut self,
        note: NoteId,
        branch: BranchId,
        condition: String,
    ) -> (result: Result<(), ChangeError>) {
        proof {
            use_type_invariant(&*self);
            if change_branch_error(self@, note@, branch@) is None {
                let edges = edges_of(self@, note@);
                lemma_position(edges, branch_with(branch@));
                lemma_edge_replaced_seen(
                    self@,
                    note@,
                    branch_at(edges, branch@),
                    FLinkView::Branch(
                        BranchView {
                            id: branch@,
                            condition: condition@,
                            branches: arms_under(edges, branch@),
                        },
                    ),
                );
            }
        }
        let mut store = self.take();
        let result = store.change_branch_condition(note, branch, condition);
        self.put(store);
        result
    }

    fn change_branch_reason(
        &mut self,
        note: NoteId,
        branch: BranchId,
        link_note: NoteId,
        reason: String,
    ) -> (result: Result<(), ChangeError>) {
        proof {
            use_type_invariant(&*self);
            if change_arm_error(self@, note@, branch@, link_note@) is None {
                let edges = edges_of(self@, note@);
                let arms = arms_under(edges, branch@);
                lemma_position(edges, branch_with(branch@));
                lemma_position(arms, arm_to(link_note@));
                let edge = arm_replaced(edges, branch@, link_note@, reason@);
                assert(targets_of(arms_of(edge)) =~= targets_of(arms));
                lemma_edge_replaced_seen(self@, note@, branch_at(edges, branch@), edge);
            }
        }
        let mut store = self.take();
        let result = store.change_branch_reason(note, branch, link_note, reason);
        self.put(store);
        result
    }

    fn collapse_branch(
        &mut self,
        note: NoteId,
        branch: BranchId,
        link_note: NoteId,
    ) -> (result: Result<(), ChangeError>) {
        proof {
            use_type_invariant(&*self);
            if change_branch_error(self@, note@, branch@) is None {
                lemma_collapsed_seen(self@, note@, branch@, link_note@);
            }
        }
        let mut store = self.take();
        let result = store.collapse_branch(note, branch, link_note);
        self.put(store);
        result
    }
}

} // verus!
