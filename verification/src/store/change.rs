//! Changing what notes and edges say, and collapsing a branch onto one of
//! its arms.
use vstd::prelude::*;
use crate::consistency::{
    lemma_arms_cut, lemma_collapsed, lemma_edge_replaced, lemma_note_of, lemma_note_replaced,
    lemma_same_notes,
};
use crate::errors::ChangeError;
use crate::graph::{
    arm_reason_changed, arm_to, arms_cut, arms_of, branch_condition_changed, branch_with,
    change_arm_error, change_branch_error, change_link_error, change_note_error, collapsed,
    consistent, decided, link_reason_changed, link_to, note_of, note_replaced, targets_of,
    with_arms, with_edges,
};
use crate::lookup::{find_arm, find_branch, find_link};
use crate::search::{lemma_position, position};
use crate::store::Store;
use crate::types::{
    ids_view, BranchId, BranchView, FLink, FLinkView, Link, LinkView, NoteId, NoteView,
};

verus! {

impl Store {
    /// Gives the note another title.
    pub(crate) fn change_note_title(&mut self, note: NoteId, title: String) -> (result: Result<
        (),
        ChangeError,
    >)
        requires
            consistent(old(self)@),
        ensures
            consistent(final(self)@),
            decided(result, change_note_error(old(self)@, note@)),
            final(self)@ == if result is Ok {
                note_replaced(
                    old(self)@,
                    note@,
                    NoteView { title: title@, ..note_of(old(self)@, note@) },
                )
            } else {
                old(self)@
            },
    {
        let i = self.find(&note);
        if i >= self.notes.len() {
            return Err(ChangeError::NoteDoesNotExist);
        }
        self.notes[i].title = title;
        proof {
            let changed = NoteView { title: title@, ..old(self)@[i as int] };
            assert(self@ =~= old(self)@.update(i as int, changed));
            lemma_note_replaced(old(self)@, i as int, changed);
        }
        Ok(())
    }

    /// Gives the note another subtitle.
    pub(crate) fn change_note_subtitle(
        &mut self,
        note: NoteId,
        subtitle: String,
    ) -> (result: Result<(), ChangeError>)
        requires
            consistent(old(self)@),
        ensures
            consistent(final(self)@),
            decided(result, change_note_error(old(self)@, note@)),
            final(self)@ == if result is Ok {
                note_replaced(
                    old(self)@,
                    note@,
                    NoteView { subtitle: Some(subtitle@), ..note_of(old(self)@, note@) },
                )
            } else {
                old(self)@
            },
    {
        let i = self.find(&note);
        if i >= self.notes.len() {
            return Err(ChangeError::NoteDoesNotExist);
        }
        self.notes[i].subtitle = Some(subtitle);
        proof {
            let changed = NoteView { subtitle: Some(subtitle@), ..old(self)@[i as int] };
            assert(self@ =~= old(self)@.update(i as int, changed));
            lemma_note_replaced(old(self)@, i as int, changed);
        }
        Ok(())
    }

    /// Gives the note another body.
    pub(crate) fn change_note_body(&mut self, note: NoteId, body: String) -> (result: Result<
        (),
        ChangeError,
    >)
        requires
            consistent(old(self)@),
        ensures
            consistent(final(self)@),
            decided(result, change_note_error(old(self)@, note@)),
            final(self)@ == if result is Ok {
                note_replaced(
                    old(self)@,
                    note@,
                    NoteView { body: body@, ..note_of(old(self)@, note@) },
                )
            } else {
                old(self)@
            },
    {
        let i = self.find(&note);
        if i >= self.notes.len() {
            return Err(ChangeError::NoteDoesNotExist);
        }
        self.notes[i].body = body;
        proof {
            let changed = NoteView { body: body@, ..old(self)@[i as int] };
            assert(self@ =~= old(self)@.update(i as int, changed));
            lemma_note_replaced(old(self)@, i as int, changed);
        }
        Ok(())
    }

    /// Gives the plain link from `from_note` to `to_note` another reason.
    /// Refused if `from_note` is missing or has no such link.
    pub(crate) fn change_link_reason(
        &mut self,
        from_note: NoteId,
        to_note: NoteId,
        reason: String,
    ) -> (result: Result<(), ChangeError>)
        requires
            consistent(old(self)@),
        ensures
            consistent(final(self)@),
            decided(result, change_link_error(old(self)@, from_note@, to_note@)),
            final(self)@ == if result is Ok {
                link_reason_changed(old(self)@, from_note@, to_note@, reason@)
            } else {
                old(self)@
            },
    {
        let i = self.find(&from_note);
        if i >= self.notes.len() {
            return Err(ChangeError::NoteDoesNotExist);
        }
        let p = find_link(&self.notes[i].forwardlinks, &to_note);
        if p >= self.notes[i].forwardlinks.len() {
            return Err(ChangeError::LinkDoesNotExist);
        }
        proof {
            lemma_position(old(self)@[i as int].forwardlinks, link_to(to_note@));
        }
        self.notes[i].forwardlinks[p] = FLink::Link(Link { id: to_note, reason });
        proof {
            let edge = FLinkView::Link(LinkView { id: to_note@, reason: reason@ });
            let edges = old(self)@[i as int].forwardlinks.update(p as int, edge);
            assert(self@[i as int].forwardlinks =~= edges);
            assert(self@ =~= with_edges(old(self)@, i as int, edges));
            lemma_edge_replaced(old(self)@, from_note@, p as int, edge);
        }
        Ok(())
    }

    /// Gives the branch `branch` of `note` another condition. Refused if
    /// the note or the branch is missing.
    pub(crate) fn change_branch_condition(
        &mut self,
        note: NoteId,
        branch: BranchId,
        condition: String,
    ) -> (result: Result<(), ChangeError>)
        requires
            consistent(old(self)@),
        ensures
            consistent(final(self)@),
            decided(result, change_branch_error(old(self)@, note@, branch@)),
            final(self)@ == if result is Ok {
                branch_condition_changed(old(self)@, note@, branch@, condition@)
            } else {
                old(self)@
            },
    {
        let i = self.find(&note);
        if i >= self.notes.len() {
            return Err(ChangeError::NoteDoesNotExist);
        }
        let p = find_branch(&self.notes[i].forwardlinks, &branch);
        if p >= self.notes[i].forwardlinks.len() {
            return Err(ChangeError::BranchDoesNotExist);
        }
        proof {
            lemma_position(old(self)@[i as int].forwardlinks, branch_with(branch@));
        }
        match &mut self.notes[i].forwardlinks[p] {
            FLink::Branch(found) => {
                found.condition = condition;
            },
            FLink::Link(_) => {},
        }
        proof {
            let old_edges = old(self)@[i as int].forwardlinks;
            let edge = FLinkView::Branch(
                BranchView {
                    id: branch@,
                    condition: condition@,
                    branches: arms_of(old_edges[p as int]),
                },
            );
            let edges = old_edges.update(p as int, edge);
            assert(self@[i as int].forwardlinks =~= edges);
            assert(self@ =~= with_edges(old(self)@, i as int, edges));
            lemma_edge_replaced(old(self)@, note@, p as int, edge);
        }
        Ok(())
    }

    /// Gives the arm to `link_note` of the branch `branch` of `note`
    /// another reason. Refused if the note, the branch or the arm is
    /// missing.
    pub(crate) fn change_branch_reason(
        &mut self,
        note: NoteId,
        branch: BranchId,
        link_note: NoteId,
        reason: String,
    ) -> (result: Result<(), ChangeError>)
        requires
            consistent(old(self)@),
        ensures
            consistent(final(self)@),
            decided(result, change_arm_error(old(self)@, note@, branch@, link_note@)),
            final(self)@ == if result is Ok {
                arm_reason_changed(old(self)@, note@, branch@, link_note@, reason@)
            } else {
                old(self)@
            },
    {
        let i = self.find(&note);
        if i >= self.notes.len() {
            return Err(ChangeError::NoteDoesNotExist);
        }
        let p = find_branch(&self.notes[i].forwardlinks, &branch);
        if p >= self.notes[i].forwardlinks.len() {
            return Err(ChangeError::BranchDoesNotExist);
        }
        let k = match &self.notes[i].forwardlinks[p] {
            FLink::Branch(found) => {
                let k = find_arm(&found.branches, &link_note);
                if k >= found.branches.len() {
                    return Err(ChangeError::LinkDoesNotExist);
                }
                k
            },
            FLink::Link(_) => {
                return Err(ChangeError::LinkDoesNotExist);
            },
        };
        proof {
            lemma_position(
                arms_of(old(self)@[i as int].forwardlinks[p as int]),
                arm_to(link_note@),
            );
        }
        match &mut self.notes[i].forwardlinks[p] {
            FLink::Branch(found) => {
                found.branches[k] = Link { id: link_note, reason };
            },
            FLink::Link(_) => {},
        }
        proof {
            let old_edges = old(self)@[i as int].forwardlinks;
            let old_arms = arms_of(old_edges[p as int]);
            let arms = old_arms.update(k as int, LinkView { id: link_note@, reason: reason@ });
            let edge = with_arms(old_edges[p as int], arms);
            let edges = old_edges.update(p as int, edge);
            assert(arms_of(self@[i as int].forwardlinks[p as int]) =~= arms);
            assert(self@[i as int].forwardlinks =~= edges);
            assert(self@ =~= with_edges(old(self)@, i as int, edges));
            assert(targets_of(arms) =~= targets_of(old_arms));
            lemma_edge_replaced(old(self)@, note@, p as int, edge);
        }
        Ok(())
    }

    /// Collapses the branch `branch` of `note` onto `link_note`. If the
    /// branch has an arm to `link_note` and the note has no plain link to
    /// it, that arm becomes a plain link at the end of the note's edges,
    /// with its reason; otherwise no link is added. Every other arm is
    /// cut and its back-link settled, and the branch is gone. Refused if
    /// the note or the branch is missing.
    pub(crate) fn collapse_branch(
        &mut self,
        note: NoteId,
        branch: BranchId,
        link_note: NoteId,
    ) -> (result: Result<(), ChangeError>)
        requires
            consistent(old(self)@),
        ensures
            consistent(final(self)@),
            decided(result, change_branch_error(old(self)@, note@, branch@)),
            final(self)@ == if result is Ok {
                collapsed(old(self)@, note@, branch@, link_note@)
            } else {
                old(self)@
            },
    {
        let i = self.find(&note);
        if i >= self.notes.len() {
            return Err(ChangeError::NoteDoesNotExist);
        }
        let p = find_branch(&self.notes[i].forwardlinks, &branch);
        if p >= self.notes[i].forwardlinks.len() {
            return Err(ChangeError::BranchDoesNotExist);
        }
        let linked = find_link(&self.notes[i].forwardlinks, &link_note)
            < self.notes[i].forwardlinks.len();
        let chosen: Option<(usize, Link)> = match &self.notes[i].forwardlinks[p] {
            FLink::Branch(found) => {
                let k = find_arm(&found.branches, &link_note);
                if k < found.branches.len() && !linked {
                    Some((k, found.branches[k].clone()))
                } else {
                    None
                }
            },
            FLink::Link(_) => None,
        };
        let ghost arms = arms_of(self@[i as int].forwardlinks[p as int]);
        proof {
            lemma_note_of(self@, note@);
            lemma_collapsed(self@, note@, branch@, link_note@);
            assert(match chosen {
                Some((k, arm)) => k == position(arms, arm_to(link_note@)) && k < arms.len()
                    && !linked && arm@ == arms[k as int],
                None => !(position(arms, arm_to(link_note@)) < arms.len() && !linked),
            });
        }
        match chosen {
            Some((k, arm)) => {
                let mut others = self.edge_targets(i, p);
                assert(others@.len() == ids_view(others@).len());
                let ghost all = ids_view(others@);
                others.remove(k);
                proof {
                    assert(ids_view(others@) =~= all.remove(k as int));
                    assert(all.remove(k as int) =~= targets_of(arms.remove(k as int)));
                    lemma_arms_cut(self@, note@, p as int, ids_view(others@));
                    lemma_same_notes(
                        self@,
                        arms_cut(self@, note@, p as int, ids_view(others@)),
                        note@,
                    );
                }
                self.cut_arms(&note, p, &others);
                let ghost cut = self@;
                self.notes[i].forwardlinks.remove(p);
                self.notes[i].forwardlinks.push(FLink::Link(arm));
                proof {
                    let edges = cut[i as int].forwardlinks.remove(p as int).push(
                        FLinkView::Link(arm@),
                    );
                    assert(self@[i as int].forwardlinks =~= edges);
                    assert(self@ =~= with_edges(cut, i as int, edges));
                }
            },
            None => {
                self.release_branch(&note, p);
            },
        }
        Ok(())
    }

    /// Sets or clears the mark of the note.
    pub(crate) fn set_mark(
        &mut self,
        note: NoteId,
        marked: bool,
    ) -> (result: Result<(), ChangeError>)
        requires
            consistent(old(self)@),
        ensures
            consistent(final(self)@),
            decided(result, change_note_error(old(self)@, note@)),
            final(self)@ == if result is Ok {
                note_replaced(
                    old(self)@,
                    note@,
                    NoteView { marked, ..note_of(old(self)@, note@) },
                )
            } else {
                old(self)@
            },
    {
        let i = self.find(&note);
        if i >= self.notes.len() {
            return Err(ChangeError::NoteDoesNotExist);
        }
        self.notes[i].marked = marked;
        proof {
            let changed = NoteView { marked, ..old(self)@[i as int] };
            assert(self@ =~= old(self)@.update(i as int, changed));
            lemma_note_replaced(old(self)@, i as int, changed);
        }
        Ok(())
    }
}

} // verus!
