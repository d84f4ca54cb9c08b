//! Linear searches over the vectors a note is made of. Each returns the
//! position that the model gives for the same search.
use vstd::prelude::*;
use crate::graph::{arm_to, branch_reaching, branch_with, link_to, note_with, points_to, token_is};
use crate::search::{lemma_position_is, position};
use crate::types::{
    flinks_view, ids_view, links_view, notes_view, BranchId, FLink, Link, Note, NoteId,
};

verus! {

/// The first index of `id` among `ids`, or their number.
pub(crate) fn find_id(ids: &Vec<NoteId>, id: &NoteId) -> (at: usize)
    ensures
        at == position(ids_view(ids@), token_is(id@)),
        at <= ids@.len(),
{
    let mut i: usize = 0;
    while i < ids.len() && !(ids[i] == *id)
        invariant
            i <= ids@.len(),
            forall|k: int| 0 <= k < i ==> !token_is(id@)(#[trigger] ids_view(ids@)[k]),
        decreases ids@.len() - i,
    {
        i += 1;
    }
    proof {
        lemma_position_is(ids_view(ids@), token_is(id@), i as int);
    }
    i
}

/// The first index of a note `id` among `notes`, or their number.
pub(crate) fn find_note(notes: &Vec<Note>, id: &NoteId) -> (at: usize)
    ensures
        at == position(notes_view(notes@), note_with(id@)),
        at <= notes@.len(),
{
    let mut i: usize = 0;
    while i < notes.len() && !(notes[i].id == *id)
        invariant
            i <= notes@.len(),
            forall|k: int| 0 <= k < i ==> !note_with(id@)(#[trigger] notes_view(notes@)[k]),
        decreases notes@.len() - i,
    {
        i += 1;
    }
    proof {
        lemma_position_is(notes_view(notes@), note_with(id@), i as int);
    }
    i
}

/// The first index of an arm to `target` among `arms`, or their number.
pub(crate) fn find_arm(arms: &Vec<Link>, target: &NoteId) -> (at: usize)
    ensures
        at == position(links_view(arms@), arm_to(target@)),
        at <= arms@.len(),
{
    let mut i: usize = 0;
    while i < arms.len() && !(arms[i].id == *target)
        invariant
            i <= arms@.len(),
            forall|k: int| 0 <= k < i ==> !arm_to(target@)(#[trigger] links_view(arms@)[k]),
        decreases arms@.len() - i,
    {
        i += 1;
    }
    proof {
        lemma_position_is(links_view(arms@), arm_to(target@), i as int);
    }
    i
}

/// Whether the edge is a plain link to `target`.
pub(crate) fn is_link_to(edge: &FLink, target: &NoteId) -> (yes: bool)
    ensures
        yes == link_to(target@)(edge@),
{
    match edge {
        FLink::Link(link) => link.id == *target,
        FLink::Branch(_) => false,
    }
}

/// Whether the edge is the branch `id`.
pub(crate) fn is_branch_with(edge: &FLink, id: &BranchId) -> (yes: bool)
    ensures
        yes == branch_with(id@)(edge@),
{
    match edge {
        FLink::Link(_) => false,
        FLink::Branch(branch) => branch.id == *id,
    }
}

/// Whether the edge is a branch with an arm to `target`.
pub(crate) fn is_branch_reaching(edge: &FLink, target: &NoteId) -> (yes: bool)
    ensures
        yes == branch_reaching(target@)(edge@),
{
    match edge {
        FLink::Link(_) => false,
        FLink::Branch(branch) => find_arm(&branch.branches, target) < branch.branches.len(),
    }
}

/// The first index of a plain link to `target` among `edges`, or their
/// number.
pub(crate) fn find_link(edges: &Vec<FLink>, target: &NoteId) -> (at: usize)
    ensures
        at == position(flinks_view(edges@), link_to(target@)),
        at <= edges@.len(),
{
    let mut i: usize = 0;
    while i < edges.len() && !is_link_to(&edges[i], target)
        invariant
            i <= edges@.len(),
            forall|k: int| 0 <= k < i ==> !link_to(target@)(#[trigger] flinks_view(edges@)[k]),
        decreases edges@.len() - i,
    {
        i += 1;
    }
    proof {
        lemma_position_is(flinks_view(edges@), link_to(target@), i as int);
    }
    i
}

/// The first index of the branch `id` among `edges`, or their number.
pub(crate) fn find_branch(edges: &Vec<FLink>, id: &BranchId) -> (at: usize)
    ensures
        at == position(flinks_view(edges@), branch_with(id@)),
        at <= edges@.len(),
        at < edges@.len() ==> edges@[at as int] is Branch,
{
    let mut i: usize = 0;
    while i < edges.len() && !is_branch_with(&edges[i], id)
        invariant
            i <= edges@.len(),
            forall|k: int| 0 <= k < i ==> !branch_with(id@)(#[trigger] flinks_view(edges@)[k]),
        decreases edges@.len() - i,
    {
        i += 1;
    }
    proof {
        lemma_position_is(flinks_view(edges@), branch_with(id@), i as int);
    }
    i
}

/// The first index of a branch with an arm to `target` among `edges`, or
/// their number.
pub(crate) fn find_branch_reaching(edges: &Vec<FLink>, target: &NoteId) -> (at: usize)
    ensures
        at == position(flinks_view(edges@), branch_reaching(target@)),
        at <= edges@.len(),
        at < edges@.len() ==> edges@[at as int] is Branch,
{
    let mut i: usize = 0;
    while i < edges.len() && !is_branch_reaching(&edges[i], target)
        invariant
            i <= edges@.len(),
            forall|k: int|
                0 <= k < i ==> !branch_reaching(target@)(#[trigger] flinks_view(edges@)[k]),
        decreases edges@.len() - i,
    {
        i += 1;
    }
    proof {
        lemma_position_is(flinks_view(edges@), branch_reaching(target@), i as int);
    }
    i
}

/// Whether the edges lead to `target`, by a plain link or by an arm.
pub(crate) fn leads_to(edges: &Vec<FLink>, target: &NoteId) -> (yes: bool)
    ensures
        yes == points_to(flinks_view(edges@), target@),
{
    find_link(edges, target) < edges.len() || find_branch_reaching(edges, target) < edges.len()
}

} // verus!
