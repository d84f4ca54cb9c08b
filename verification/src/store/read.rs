//! Reading notes, edges and back-links.
use vstd::prelude::*;
use crate::errors::ReadError;
use crate::graph::{
    arm_unmarked, arms_under, backlinks_of, branch_ids, decided, edge_unmarked, edges_of, is_branch,
    is_link, is_root, note_of, pure_links, read_branch_error, read_note_error, root_ids, unmarked,
};
use crate::lookup::find_branch;
use crate::search::{lemma_matching_next, lemma_position_is, matching};
use crate::store::Store;
use crate::types::{
    branch_refs_view, flink_refs_view, flinks_view, id_refs_view, ids_view, link_refs_view,
    links_view, BranchId, FLink, Link, Note, NoteId,
};

verus! {

impl Store {
    /// Whether the store holds the note `id` unmarked.
    pub(crate) fn is_unmarked(&self, id: &NoteId) -> (yes: bool)
        ensures
            yes == unmarked(self@, id@),
    {
        let i = self.find(id);
        i < self.notes.len() && !self.notes[i].marked
    }

    /// Whether the edge leads to a note that is not marked: a plain link
    /// by its target, a branch by one of its arms.
    pub(crate) fn leads_to_unmarked(&self, edge: &FLink) -> (yes: bool)
        ensures
            yes == edge_unmarked(self@)(edge@),
    {
        match edge {
            FLink::Link(link) => self.is_unmarked(&link.id),
            FLink::Branch(branch) => {
                let mut k: usize = 0;
                while k < branch.branches.len() && !self.is_unmarked(&branch.branches[k].id)
                    invariant
                        k <= branch.branches@.len(),
                        forall|n: int|
                            0 <= n < k ==> !arm_unmarked(self@)(
                                #[trigger] links_view(branch.branches@)[n],
                            ),
                    decreases branch.branches@.len() - k,
                {
                    k += 1;
                }
                proof {
                    lemma_position_is(links_view(branch.branches@), arm_unmarked(self@), k as int);
                }
                k < branch.branches.len()
            },
        }
    }

    /// The note `note`. Refused if it is missing.
    pub(crate) fn read_note(&self, note: NoteId) -> (result: Result<&Note, ReadError>)
        ensures
            decided(result, read_note_error(self@, note@)),
            result matches Ok(found) ==> found@ == note_of(self@, note@),
    {
        let i = self.find(&note);
        if i >= self.notes.len() {
            return Err(ReadError::NoteDoesNotExist);
        }
        Ok(&self.notes[i])
    }

    /// The identifiers of the notes that nothing points to, in the order
    /// of the store. Never refused.
    pub(crate) fn list_root_notes(&self) -> (result: Result<Vec<&NoteId>, ReadError>)
        ensures
            result matches Ok(roots) && id_refs_view(roots@) == root_ids(self@),
    {
        let mut roots: Vec<&NoteId> = Vec::new();
        let mut i: usize = 0;
        assert(self@.take(0) =~= Seq::empty());
        assert(id_refs_view(roots@) =~= root_ids(self@.take(0)));
        while i < self.notes.len()
            invariant
                i <= self@.len(),
                self@.len() == self.notes@.len(),
                id_refs_view(roots@) == root_ids(self@.take(i as int)),
            decreases self@.len() - i,
        {
            proof {
                lemma_matching_next(self@, is_root(), i as int);
            }
            let ghost before = id_refs_view(roots@);
            if self.notes[i].backlinks.len() == 0 {
                roots.push(&self.notes[i].id);
                assert(id_refs_view(roots@) =~= before.push(self@[i as int].id));
                assert(id_refs_view(roots@) =~= root_ids(self@.take(i as int + 1)));
            }
            i += 1;
        }
        assert(self@.take(i as int) =~= self@);
        Ok(roots)
    }

    /// The edges of `note`, in their order. Refused if the note is
    /// missing.
    pub(crate) fn list_forwardlinks(&self, note: NoteId) -> (result: Result<Vec<&FLink>, ReadError>)
        ensures
            decided(result, read_note_error(self@, note@)),
            result matches Ok(edges) ==> flink_refs_view(edges@) == edges_of(self@, note@),
    {
        let i = self.find(&note);
        if i >= self.notes.len() {
            return Err(ReadError::NoteDoesNotExist);
        }
        let source = &self.notes[i].forwardlinks;
        let mut edges: Vec<&FLink> = Vec::new();
        let mut k: usize = 0;
        while k < source.len()
            invariant
                k <= source@.len(),
                edges@.len() == k,
                forall|n: int| 0 <= n < k ==> edges@[n]@ == source@[n]@,
            decreases source@.len() - k,
        {
            edges.push(&source[k]);
            k += 1;
        }
        assert(flink_refs_view(edges@) =~= flinks_view(source@));
        Ok(edges)
    }

    /// The edges of `note` that lead to a note that is not marked, in
    /// their order: a plain link whose target is not marked, a branch
    /// with an arm whose target is not marked. Refused if the note is
    /// missing.
    pub(crate) fn list_unmarked_forwardlinks(
        &self,
        note: NoteId,
    ) -> (result: Result<Vec<&FLink>, ReadError>)
        ensures
            decided(result, read_note_error(self@, note@)),
            result matches Ok(edges) ==> flink_refs_view(edges@) == matching(
                edges_of(self@, note@),
                edge_unmarked(self@),
            ),
    {
        let i = self.find(&note);
        if i >= self.notes.len() {
            return Err(ReadError::NoteDoesNotExist);
        }
        let source = &self.notes[i].forwardlinks;
        let ghost all = flinks_view(source@);
        let mut edges: Vec<&FLink> = Vec::new();
        let mut k: usize = 0;
        assert(all.take(0) =~= Seq::empty());
        assert(flink_refs_view(edges@) =~= matching(all.take(0), edge_unmarked(self@)));
        while k < source.len()
            invariant
                k <= source@.len(),
                all == flinks_view(source@),
                flink_refs_view(edges@) == matching(all.take(k as int), edge_unmarked(self@)),
            decreases source@.len() - k,
        {
            proof {
                lemma_matching_next(all, edge_unmarked(self@), k as int);
            }
            let ghost before = flink_refs_view(edges@);
            if self.leads_to_unmarked(&source[k]) {
                edges.push(&source[k]);
                assert(flink_refs_view(edges@) =~= before.push(all[k as int]));
            }
            k += 1;
        }
        assert(all.take(k as int) =~= all);
        Ok(edges)
    }

    /// The plain links of `note`, in their order; branches are left out.
    /// Refused if the note is missing.
    pub(crate) fn list_pure_links(&self, note: NoteId) -> (result: Result<Vec<&Link>, ReadError>)
        ensures
            decided(result, read_note_error(self@, note@)),
            result matches Ok(links) ==> link_refs_view(links@) == pure_links(
                edges_of(self@, note@),
            ),
    {
        let i = self.find(&note);
        if i >= self.notes.len() {
            return Err(ReadError::NoteDoesNotExist);
        }
        let source = &self.notes[i].forwardlinks;
        let ghost all = flinks_view(source@);
        let mut links: Vec<&Link> = Vec::new();
        let mut k: usize = 0;
        assert(all.take(0) =~= Seq::empty());
        assert(link_refs_view(links@) =~= pure_links(all.take(0)));
        while k < source.len()
            invariant
                k <= source@.len(),
                all == flinks_view(source@),
                link_refs_view(links@) == pure_links(all.take(k as int)),
            decreases source@.len() - k,
        {
            proof {
                lemma_matching_next(all, is_link(), k as int);
            }
            let ghost before = link_refs_view(links@);
            match &source[k] {
                FLink::Link(link) => {
                    links.push(link);
                    assert(link_refs_view(links@) =~= before.push(link@));
                    assert(link_refs_view(links@) =~= pure_links(all.take(k as int + 1)));
                },
                FLink::Branch(_) => {},
            }
            k += 1;
        }
        assert(all.take(k as int) =~= all);
        Ok(links)
    }

    /// The identifiers of the notes that point to `note`, in the order in
    /// which they came to do so. Refused if the note is missing.
    pub(crate) fn list_backlinks(&self, note: NoteId) -> (result: Result<Vec<&NoteId>, ReadError>)
        ensures
            decided(result, read_note_error(self@, note@)),
            result matches Ok(sources) ==> id_refs_view(sources@) == backlinks_of(self@, note@),
    {
        let i = self.find(&note);
        if i >= self.notes.len() {
            return Err(ReadError::NoteDoesNotExist);
        }
        let source = &self.notes[i].backlinks;
        let mut sources: Vec<&NoteId> = Vec::new();
        let mut k: usize = 0;
        while k < source.len()
            invariant
                k <= source@.len(),
                sources@.len() == k,
                forall|n: int| 0 <= n < k ==> sources@[n]@ == source@[n]@,
            decreases source@.len() - k,
        {
            sources.push(&source[k]);
            k += 1;
        }
        assert(id_refs_view(sources@) =~= ids_view(source@));
        Ok(sources)
    }

    /// The identifiers of the branches of `note`, in their order. Refused
    /// if the note is missing.
    pub(crate) fn list_branches(&self, note: NoteId) -> (result: Result<Vec<&BranchId>, ReadError>)
        ensures
            decided(result, read_note_error(self@, note@)),
            result matches Ok(ids) ==> branch_refs_view(ids@) == branch_ids(edges_of(self@, note@)),
    {
        let i = self.find(&note);
        if i >= self.notes.len() {
            return Err(ReadError::NoteDoesNotExist);
        }
        let source = &self.notes[i].forwardlinks;
        let ghost all = flinks_view(source@);
        let mut ids: Vec<&BranchId> = Vec::new();
        let mut k: usize = 0;
        assert(all.take(0) =~= Seq::empty());
        assert(branch_refs_view(ids@) =~= branch_ids(all.take(0)));
        while k < source.len()
            invariant
                k <= source@.len(),
                all == flinks_view(source@),
                branch_refs_view(ids@) == branch_ids(all.take(k as int)),
            decreases source@.len() - k,
        {
            proof {
                lemma_matching_next(all, is_branch(), k as int);
            }
            let ghost before = branch_refs_view(ids@);
            match &source[k] {
                FLink::Branch(branch) => {
                    ids.push(&branch.id);
                    assert(branch_refs_view(ids@) =~= before.push(branch.id@));
                    assert(branch_refs_view(ids@) =~= branch_ids(all.take(k as int + 1)));
                },
                FLink::Link(_) => {},
            }
            k += 1;
        }
        assert(all.take(k as int) =~= all);
        Ok(ids)
    }

    /// The arms of the branch `branch` of `note`, in their order. Refused
    /// if the note or the branch is missing.
    pub(crate) fn list_branch_links(&self, note: NoteId, branch: BranchId) -> (result: Result<
        Vec<&Link>,
        ReadError,
    >)
        ensures
            decided(result, read_branch_error(self@, note@, branch@)),
            result matches Ok(arms) ==> link_refs_view(arms@) == arms_under(
                edges_of(self@, note@),
                branch@,
            ),
    {
        let i = self.find(&note);
        if i >= self.notes.len() {
            return Err(ReadError::NoteDoesNotExist);
        }
        let p = find_branch(&self.notes[i].forwardlinks, &branch);
        if p >= self.notes[i].forwardlinks.len() {
            return Err(ReadError::BranchDoesNotExist);
        }
        let mut arms: Vec<&Link> = Vec::new();
        match &self.notes[i].forwardlinks[p] {
            FLink::Branch(found) => {
                let mut k: usize = 0;
                while k < found.branches.len()
                    invariant
                        k <= found.branches@.len(),
                        arms@.len() == k,
                        forall|n: int| 0 <= n < k ==> arms@[n]@ == found.branches@[n]@,
                    decreases found.branches@.len() - k,
                {
                    arms.push(&found.branches[k]);
                    k += 1;
                }
                assert(link_refs_view(arms@) =~= links_view(found.branches@));
            },
            FLink::Link(_) => {},
        }
        Ok(arms)
    }
}

} // verus!
