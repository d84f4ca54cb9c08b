//! Reading notes, edges and back-links. Nothing here changes the store.
use vstd::prelude::*;
use crate::consistency::{lemma_branch_ids, lemma_pure_links, lemma_root_ids};
use crate::errors::ReadError;
use crate::graph::{edge_unmarked, edges_of};
use crate::manager::NotesManager;
use crate::manager_impl::{ReadBranch, ReadLink, ReadNote};
use crate::search::{lemma_matching, matching};
use crate::types::{BranchId, FLink, FLinkView, Link, Note, NoteId};

verus! {

impl ReadNote for NotesManager {
    fn read_note(&self, note: NoteId) -> (result: Result<&Note, ReadError>) {
        proof {
            use_type_invariant(self);
        }
        self.store.read_note(note)
    }

    fn list_root_notes(&self) -> (result: Result<Vec<&NoteId>, ReadError>) {
        proof {
            use_type_invariant(self);
            lemma_root_ids(self@);
        }
        self.store.list_root_notes()
    }
}

impl ReadLink for NotesManager {
    fn list_forwardlinks(&self, note: NoteId) -> (result: Result<Vec<&FLink>, ReadError>) {
        proof {
            use_type_invariant(self);
        }
        self.store.list_forwardlinks(note)
    }

    fn list_unmarked_forwardlinks(&self, note: NoteId) -> (result: Result<
        Vec<&FLink>,
        ReadError,
    >) {
        proof {
            use_type_invariant(self);
            let edges = edges_of(self@, note@);
            assert forall|edge: FLinkView| #[trigger]
                matching(edges, edge_unmarked(self@)).contains(edge) <==> edges.contains(edge)
                    && edge_unmarked(self@)(edge) by {
                lemma_matching(edges, edge_unmarked(self@), edge);
            }
        }
        self.store.list_unmarked_forwardlinks(note)
    }

    fn list_pure_links(&self, note: NoteId) -> (result: Result<Vec<&Link>, ReadError>) {
        proof {
            use_type_invariant(self);
            lemma_pure_links(edges_of(self@, note@));
        }
        self.store.list_pure_links(note)
    }

    fn list_backlinks(&self, note: NoteId) -> (result: Result<Vec<&NoteId>, ReadError>) {
        proof {
            use_type_invariant(self);
        }
        self.store.list_backlinks(note)
    }
}

impl ReadBranch for NotesManager {
    fn list_branches(&self, note: NoteId) -> (result: Result<Vec<&BranchId>, ReadError>) {
        proof {
            use_type_invariant(self);
            lemma_branch_ids(edges_of(self@, note@));
        }
        self.store.list_branches(note)
    }

    fn list_branch_links(&self, note: NoteId, branch: BranchId) -> (result: Result<
        Vec<&Link>,
        ReadError,
    >) {
        proof {
            use_type_invariant(self);
        }
        self.store.list_branch_links(note, branch)
    }
}

} // verus!
