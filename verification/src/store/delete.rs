//! Deleting notes, links, branches and arms.
use vstd::prelude::*;
use crate::consistency::{
    lemma_arm_cut, lemma_branch_released, lemma_link_cut, lemma_note_of, lemma_note_removed,
    lemma_same_notes,
};
use crate::deletion::{lemma_link_deleted, lemma_note_deleted, lemma_unlinked};
use crate::errors::DeleteError;
use crate::graph::{
    arm_cut, branch_at, branch_reaching, branch_released, cascade, consistent, decided,
    delete_arm_error, delete_branch_error, delete_link_error, delete_note_error, edges_of, has_note,
    index_of, link_cut, link_deleted, link_to, listed, note_deleted, note_of, note_with, orphaned,
    pending_free, unlinked, weight,
};
use crate::lookup::{find_arm, find_branch, find_branch_reaching, find_link};
use crate::search::{lemma_position, lemma_position_found};
use crate::store::Store;
use crate::termination::{
    lemma_arm_cut_weight, lemma_branch_released_weight, lemma_link_cut_weight,
    lemma_released_orphan, lemma_weight_remove,
};
use crate::types::{ids_view, BranchId, FLink, NoteId};

verus! {

impl Store {
    /// Deletes the note: cuts every edge that leads to it, then releases
    /// it. Its edges are cut in their order and it leaves the store, and
    /// so does every note that a plain link cut on the way leaves without
    /// a back-link. The targets of its arms stay. Refused if the note is
    /// missing.
    pub(crate) fn delete_note(&mut self, note: NoteId) -> (result: Result<(), DeleteError>)
        requires
            consistent(old(self)@),
        ensures
            consistent(final(self)@),
            decided(result, delete_note_error(old(self)@, note@)),
            final(self)@ == if result is Ok {
                note_deleted(old(self)@, note@)
            } else {
                old(self)@
            },
    {
        let j = self.find(&note);
        if j >= self.notes.len() {
            return Err(DeleteError::NoteDoesNotExist);
        }
        proof {
            lemma_note_deleted(self@, note@);
        }
        self.unlink(&note);
        let mut pending: Vec<NoteId> = Vec::new();
        pending.push(note);
        assert(ids_view(pending@) =~= seq![note@]);
        proof {
            lemma_unlinked(old(self)@, note@);
        }
        self.release(pending);
        Ok(())
    }

    /// Deletes the plain link from `from_note` to `to_note`. If nothing
    /// points to `to_note` any more, that note is released: its edges are
    /// cut in their order and it leaves the store, and so does every note
    /// that a plain link cut on the way leaves without a back-link.
    /// Refused if either note or the link is missing.
    pub(crate) fn delete_link(&mut self, from_note: NoteId, to_note: NoteId) -> (result: Result<
        (),
        DeleteError,
    >)
        requires
            consistent(old(self)@),
        ensures
            consistent(final(self)@),
            decided(result, delete_link_error(old(self)@, from_note@, to_note@)),
            final(self)@ == if result is Ok {
                link_deleted(old(self)@, from_note@, to_note@)
            } else {
                old(self)@
            },
    {
        let i = self.find(&from_note);
        if i >= self.notes.len() {
            return Err(DeleteError::NoteDoesNotExist);
        }
        if self.find(&to_note) >= self.notes.len() {
            return Err(DeleteError::NoteDoesNotExist);
        }
        if find_link(&self.notes[i].forwardlinks, &to_note) >= self.notes[i].forwardlinks.len() {
            return Err(DeleteError::LinkDoesNotExist);
        }
        proof {
            lemma_link_cut(self@, from_note@, to_note@);
            lemma_link_deleted(self@, from_note@, to_note@);
        }
        self.cut_link(&from_note, &to_note);
        let j = self.find(&to_note);
        if j < self.notes.len() && self.notes[j].backlinks.len() == 0 {
            let mut pending: Vec<NoteId> = Vec::new();
            pending.push(to_note);
            assert(ids_view(pending@) =~= seq![to_note@]);
            self.release(pending);
        }
        Ok(())
    }

    /// Deletes the branch `branch` of `note`: cuts its arms, settles their
    /// back-links and removes the branch from the note's edges. The
    /// targets of the arms stay in the store. Refused if the note or the
    /// branch is missing.
    pub(crate) fn delete_branch(&mut self, note: NoteId, branch: BranchId) -> (result: Result<
        (),
        DeleteError,
    >)
        requires
            consistent(old(self)@),
        ensures
            consistent(final(self)@),
            decided(result, delete_branch_error(old(self)@, note@, branch@)),
            final(self)@ == if result is Ok {
                branch_released(
                    old(self)@,
                    note@,
                    branch_at(edges_of(old(self)@, note@), branch@),
                )
            } else {
                old(self)@
            },
    {
        let i = self.find(&note);
        if i >= self.notes.len() {
            return Err(DeleteError::NoteDoesNotExist);
        }
        let p = find_branch(&self.notes[i].forwardlinks, &branch);
        if p >= self.notes[i].forwardlinks.len() {
            return Err(DeleteError::BranchDoesNotExist);
        }
        self.release_branch(&note, p);
        Ok(())
    }

    /// Deletes the arm to `link_note` of the branch `branch` of `note` and
    /// settles the back-link. The branch stays, even without arms, and so
    /// does `link_note`. Refused if either note, the branch or the arm is
    /// missing.
    pub(crate) fn delete_branch_link(
        &mut self,
        note: NoteId,
        branch: BranchId,
        link_note: NoteId,
    ) -> (result: Result<(), DeleteError>)
        requires
            consistent(old(self)@),
        ensures
            consistent(final(self)@),
            decided(result, delete_arm_error(old(self)@, note@, branch@, link_note@)),
            final(self)@ == if result is Ok {
                arm_cut(
                    old(self)@,
                    note@,
                    branch_at(edges_of(old(self)@, note@), branch@),
                    link_note@,
                )
            } else {
                old(self)@
            },
    {
        let i = self.find(&note);
        if i >= self.notes.len() {
            return Err(DeleteError::NoteDoesNotExist);
        }
        let p = find_branch(&self.notes[i].forwardlinks, &branch);
        if p >= self.notes[i].forwardlinks.len() {
            return Err(DeleteError::BranchDoesNotExist);
        }
        if self.find(&link_note) >= self.notes.len() {
            return Err(DeleteError::NoteDoesNotExist);
        }
        let found = match &self.notes[i].forwardlinks[p] {
            FLink::Branch(edge) => find_arm(&edge.branches, &link_note) < edge.branches.len(),
            FLink::Link(_) => false,
        };
        if !found {
            return Err(DeleteError::LinkDoesNotExist);
        }
        proof {
            lemma_arm_cut(self@, note@, p as int, link_note@);
        }
        self.cut_arm(&note, p, &link_note);
        Ok(())
    }

    /// Releases the notes in `pending`, which nothing points to, the last
    /// one first, with every note that a plain link of theirs leaves
    /// without a back-link. `pending` holds the releases in progress; the
    /// loop ends because every round makes the store smaller or the list
    /// shorter.
    pub(crate) fn release(&mut self, pending: Vec<NoteId>)
        requires
            consistent(old(self)@),
            pending_free(old(self)@, ids_view(pending@)),
        ensures
            consistent(final(self)@),
            final(self)@ == cascade(old(self)@, ids_view(pending@)),
    {
        let ghost first = ids_view(pending@);
        let mut pending = pending;
        while pending.len() > 0
            invariant
                consistent(self@),
                pending_free(self@, ids_view(pending@)),
                cascade(self@, ids_view(pending@)) == cascade(old(self)@, first),
            decreases weight(self@), pending@.len(),
        {
            let ghost before = self@;
            let ghost listed = ids_view(pending@);
            let id = pending[pending.len() - 1].clone();
            assert(listed.last() == id@);
            let i = self.find(&id);
            proof {
                lemma_position(before, note_with(id@));
            }
            if i >= self.notes.len() {
                pending.pop();
                proof {
                    let rest = ids_view(pending@);
                    assert(rest =~= listed.drop_last());
                    assert forall|k: int|
                        0 <= k < rest.len() && has_note(self@, #[trigger] rest[k]) implies orphaned(
                        self@,
                        rest[k],
                    ) by {
                        assert(rest[k] == listed[k]);
                    }
                }
            } else if self.notes[i].forwardlinks.len() == 0 {
                proof {
                    assert(orphaned(before, listed[listed.len() - 1]));
                    lemma_note_removed(before, i as int);
                    lemma_weight_remove(before, i as int);
                }
                self.notes.remove(i);
                pending.pop();
                proof {
                    assert(self@ =~= before.remove(i as int));
                    let rest = ids_view(pending@);
                    assert(rest =~= listed.drop_last());
                    assert forall|k: int|
                        0 <= k < rest.len() && has_note(self@, #[trigger] rest[k]) implies orphaned(
                        self@,
                        rest[k],
                    ) by {
                        assert(rest[k] == listed[k]);
                        assert(rest[k] != before[i as int].id);
                        assert(note_of(self@, rest[k]) == note_of(before, rest[k]));
                    }
                }
            } else {
                let target: Option<NoteId> = match &self.notes[i].forwardlinks[0] {
                    FLink::Link(link) => Some(link.id.clone()),
                    FLink::Branch(_) => None,
                };
                match target {
                    Some(to) => {
                        proof {
                            lemma_position_found(before[i as int].forwardlinks, link_to(to@), 0);
                            lemma_link_cut(before, id@, to@);
                            lemma_link_cut_weight(before, id@, to@);
                        }
                        self.cut_link(&id, &to);
                        let j = self.find(&to);
                        let free = j < self.notes.len() && self.notes[j].backlinks.len() == 0;
                        if free {
                            pending.push(to);
                        }
                        proof {
                            let next = ids_view(pending@);
                            assert(free == orphaned(self@, to@));
                            if free {
                                assert(next =~= listed.push(to@));
                            } else {
                                assert(next =~= listed);
                            }
                            assert forall|k: int|
                                0 <= k < next.len() && has_note(
                                    self@,
                                    #[trigger] next[k],
                                ) implies orphaned(self@, next[k]) by {
                                if k < listed.len() {
                                    assert(next[k] == listed[k]);
                                    lemma_released_orphan(before, self@, listed[k]);
                                }
                            }
                        }
                    },
                    None => {
                        proof {
                            lemma_branch_released(before, id@, 0);
                            lemma_branch_released_weight(before, id@, 0);
                        }
                        self.release_branch(&id, 0);
                        proof {
                            assert forall|k: int|
                                0 <= k < listed.len() && has_note(
                                    self@,
                                    #[trigger] listed[k],
                                ) implies orphaned(self@, listed[k]) by {
                                lemma_released_orphan(before, self@, listed[k]);
                            }
                        }
                    },
                }
            }
        }
    }

    /// Cuts every edge that leads to `note`, source by source in the order
    /// of its back-links, a plain link before the arms.
    pub(crate) fn unlink(&mut self, note: &NoteId)
        requires
            consistent(old(self)@),
            has_note(old(self)@, note@),
        ensures
            final(self)@ == unlinked(old(self)@, note@),
    {
        let j = self.find(note);
        while self.notes[j].backlinks.len() > 0
            invariant
                consistent(self@),
                has_note(self@, note@),
                j == index_of(self@, note@),
                unlinked(self@, note@) == unlinked(old(self)@, note@),
            decreases weight(self@),
        {
            let ghost before = self@;
            let source = self.notes[j].backlinks[0].clone();
            let i = self.find(&source);
            proof {
                lemma_position(before, note_with(source@));
            }
            if i < self.notes.len() && find_link(&self.notes[i].forwardlinks, note)
                < self.notes[i].forwardlinks.len() {
                proof {
                    lemma_link_cut(before, source@, note@);
                    lemma_link_cut_weight(before, source@, note@);
                    lemma_same_notes(before, link_cut(before, source@, note@), note@);
                }
                self.cut_link(&source, note);
            } else if i < self.notes.len() && find_branch_reaching(
                &self.notes[i].forwardlinks,
                note,
            ) < self.notes[i].forwardlinks.len() {
                let p = find_branch_reaching(&self.notes[i].forwardlinks, note);
                proof {
                    lemma_position(before[i as int].forwardlinks, branch_reaching(note@));
                    lemma_arm_cut(before, source@, p as int, note@);
                    lemma_arm_cut_weight(before, source@, p as int, note@);
                    lemma_same_notes(before, arm_cut(before, source@, p as int, note@), note@);
                }
                self.cut_arm(&source, p, note);
            } else {
                // A consistent store lists no source that does not lead
                // here, so this is never reached.
                proof {
                    lemma_note_of(before, note@);
                    assert(has_note(before, before[j as int].backlinks[0]));
                    assert(before[j as int].backlinks.contains(before[i as int].id));
                    assert(false);
                }
                self.notes[j].backlinks.remove(0);
            }
        }
    }
}

} // verus!
