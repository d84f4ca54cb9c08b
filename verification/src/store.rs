//! The notes as they are held, and the steps every operation is made of.
use vstd::prelude::*;
use crate::consistency::{
    lemma_arm_cut, lemma_arm_cut_edges, lemma_arms_cut, lemma_branch_released, lemma_note_of,
    lemma_same_notes,
};
use crate::graph::{
    arm_cut, arm_to, arms_cut, arms_of, branch_released, consistent, edge_dropped, gain_backlink,
    has_note, index_of, link_cut, link_to, note_of, settle_backlink, targets_of, with_arms,
    with_edges,
};
use crate::lookup::{find_link, find_note, leads_to};
use crate::search::without_first;
use crate::types::{ids_view, links_view, notes_view, FLink, Note, NoteId, NoteView};

pub mod add;
pub mod change;
pub mod delete;
pub mod read;

verus! {

/// The notes of a store, in the order in which they were added. Its view
/// is the sequence of their values.
pub(crate) struct Store {
    pub(crate) notes: Vec<Note>,
}

impl View for Store {
    type V = Seq<NoteView>;

    closed spec fn view(&self) -> Seq<NoteView> {
        notes_view(self.notes@)
    }
}

impl Store {
    /// A store without notes.
    pub(crate) fn new() -> (store: Self)
        ensures
            store@ == Seq::<NoteView>::empty(),
            consistent(store@),
    {
        let store = Store { notes: Vec::new() };
        assert(store@ =~= Seq::<NoteView>::empty());
        store
    }

    /// The number of notes.
    pub(crate) fn len(&self) -> (count: usize)
        ensures
            count == self@.len(),
    {
        self.notes.len()
    }

    /// Where the note `id` stands, or the number of notes if there is none.
    pub(crate) fn find(&self, id: &NoteId) -> (at: usize)
        ensures
            at == index_of(self@, id@),
            at <= self@.len(),
    {
        find_note(&self.notes, id)
    }

    /// Lists `source` among the back-links of `target`, unless it is there.
    pub(crate) fn gain_backlink(&mut self, target: &NoteId, source: &NoteId)
        ensures
            final(self)@ == gain_backlink(old(self)@, target@, source@),
    {
        let j = self.find(target);
        if j < self.notes.len() {
            self.notes[j].add_backlink(source.clone());
            assert(final(self)@ =~= gain_backlink(old(self)@, target@, source@));
        }
    }

    /// Strikes `source` from the back-links of `target` if `source` no
    /// longer leads to it.
    pub(crate) fn settle_backlink(&mut self, source: &NoteId, target: &NoteId)
        ensures
            final(self)@ == settle_backlink(old(self)@, source@, target@),
    {
        let i = self.find(source);
        let j = self.find(target);
        if i < self.notes.len() && j < self.notes.len() {
            if !leads_to(&self.notes[i].forwardlinks, target) {
                self.notes[j].delete_backlink(source);
                assert(final(self)@ =~= settle_backlink(old(self)@, source@, target@));
            }
        }
    }

    /// Removes the plain link from `from` to `to` and settles the
    /// back-link.
    pub(crate) fn cut_link(&mut self, from: &NoteId, to: &NoteId)
        requires
            has_note(old(self)@, from@),
        ensures
            final(self)@ == link_cut(old(self)@, from@, to@),
    {
        let i = self.find(from);
        let at = find_link(&self.notes[i].forwardlinks, to);
        if at < self.notes[i].forwardlinks.len() {
            self.notes[i].forwardlinks.remove(at);
        }
        assert(self@ =~= with_edges(
            old(self)@,
            i as int,
            without_first(old(self)@[i as int].forwardlinks, link_to(to@)),
        )) by {
            assert(self@[i as int].forwardlinks =~= without_first(
                old(self)@[i as int].forwardlinks,
                link_to(to@),
            ));
        }
        self.settle_backlink(from, to);
    }

    /// Removes the arm to `target` from the branch at edge `p` of `note`
    /// and settles the back-link.
    pub(crate) fn cut_arm(&mut self, note: &NoteId, p: usize, target: &NoteId)
        requires
            has_note(old(self)@, note@),
            p < note_of(old(self)@, note@).forwardlinks.len(),
        ensures
            final(self)@ == arm_cut(old(self)@, note@, p as int, target@),
    {
        let i = self.find(note);
        self.notes[i].forwardlinks[p].remove_arm(target);
        proof {
            let edges = old(self)@[i as int].forwardlinks;
            let arms = without_first(arms_of(edges[p as int]), arm_to(target@));
            assert(self@[i as int].forwardlinks =~= edges.update(
                p as int,
                with_arms(edges[p as int], arms),
            ));
            assert(self@ =~= with_edges(
                old(self)@,
                i as int,
                edges.update(p as int, with_arms(edges[p as int], arms)),
            ));
        }
        self.settle_backlink(note, target);
    }

    /// The targets of the arms of the edge at `p` of the note at `i`, in
    /// their order.
    pub(crate) fn edge_targets(&self, i: usize, p: usize) -> (targets: Vec<NoteId>)
        requires
            i < self@.len(),
            p < self@[i as int].forwardlinks.len(),
        ensures
            ids_view(targets@) == targets_of(arms_of(self@[i as int].forwardlinks[p as int])),
    {
        let mut targets: Vec<NoteId> = Vec::new();
        match &self.notes[i].forwardlinks[p] {
            FLink::Branch(branch) => {
                let mut k: usize = 0;
                while k < branch.branches.len()
                    invariant
                        k <= branch.branches@.len(),
                        targets@.len() == k,
                        forall|n: int| 0 <= n < k ==> targets@[n]@ == branch.branches@[n].id@,
                    decreases branch.branches@.len() - k,
                {
                    targets.push(branch.branches[k].id.clone());
                    k += 1;
                }
                assert(ids_view(targets@) =~= targets_of(links_view(branch.branches@)));
            },
            FLink::Link(_) => {
                assert(ids_view(targets@) =~= targets_of(Seq::empty()));
            },
        }
        targets
    }

    /// Removes the arms to `targets` from the branch at edge `p` of
    /// `note`, one after the other, and settles each back-link.
    pub(crate) fn cut_arms(&mut self, note: &NoteId, p: usize, targets: &Vec<NoteId>)
        requires
            consistent(old(self)@),
            has_note(old(self)@, note@),
            p < note_of(old(self)@, note@).forwardlinks.len(),
            note_of(old(self)@, note@).forwardlinks[p as int] is Branch,
        ensures
            consistent(final(self)@),
            final(self)@ == arms_cut(old(self)@, note@, p as int, ids_view(targets@)),
    {
        let ghost all = ids_view(targets@);
        let mut k: usize = 0;
        assert(all.skip(0) =~= all);
        while k < targets.len()
            invariant
                k <= targets@.len(),
                all == ids_view(targets@),
                consistent(self@),
                has_note(self@, note@),
                p < note_of(self@, note@).forwardlinks.len(),
                note_of(self@, note@).forwardlinks[p as int] is Branch,
                arms_cut(self@, note@, p as int, all.skip(k as int)) == arms_cut(
                    old(self)@,
                    note@,
                    p as int,
                    all,
                ),
            decreases targets@.len() - k,
        {
            proof {
                lemma_arm_cut(self@, note@, p as int, targets@[k as int]@);
                lemma_arm_cut_edges(self@, note@, p as int, targets@[k as int]@);
                assert(all.skip(k as int)[0] == targets@[k as int]@);
                assert(all.skip(k as int).drop_first() =~= all.skip(k as int + 1));
            }
            self.cut_arm(note, p, &targets[k]);
            k += 1;
        }
    }

    /// Removes the edge at `p` of `note`, back-links untouched.
    pub(crate) fn drop_edge(&mut self, note: &NoteId, p: usize)
        requires
            has_note(old(self)@, note@),
            p < note_of(old(self)@, note@).forwardlinks.len(),
        ensures
            final(self)@ == edge_dropped(old(self)@, note@, p as int),
    {
        let i = self.find(note);
        self.notes[i].forwardlinks.remove(p);
        assert(self@[i as int].forwardlinks =~= old(self)@[i as int].forwardlinks.remove(p as int));
        assert(self@ =~= edge_dropped(old(self)@, note@, p as int));
    }

    /// Releases the branch at edge `p` of `note`: cuts its arms, then
    /// drops the branch.
    pub(crate) fn release_branch(&mut self, note: &NoteId, p: usize)
        requires
            consistent(old(self)@),
            has_note(old(self)@, note@),
            p < note_of(old(self)@, note@).forwardlinks.len(),
            note_of(old(self)@, note@).forwardlinks[p as int] is Branch,
        ensures
            consistent(final(self)@),
            final(self)@ == branch_released(old(self)@, note@, p as int),
    {
        let i = self.find(note);
        let targets = self.edge_targets(i, p);
        proof {
            lemma_note_of(self@, note@);
            lemma_arms_cut(self@, note@, p as int, ids_view(targets@));
            lemma_same_notes(
                self@,
                arms_cut(self@, note@, p as int, ids_view(targets@)),
                note@,
            );
            lemma_branch_released(self@, note@, p as int);
        }
        self.cut_arms(note, p, &targets);
        self.drop_edge(note, p);
    }
}

} // verus!
