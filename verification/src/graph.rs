//! The mathematical model of a note store: a sequence of note values with
//! distinct identifiers. It says what it means for the store to be
//! consistent and what each operation of the manager makes of a store.
use vstd::prelude::*;
use crate::errors::{AddError, ChangeError, DeleteError, ReadError};
use crate::search::{lemma_position, lemma_position_found, matching, position, without_first};
use crate::termination::{
    lemma_arm_cut_weight, lemma_branch_released_weight, lemma_link_cut_weight, lemma_weight_remove,
    lemma_weight_update,
};
use crate::types::{BranchView, FLinkView, LinkView, NoteView};

verus! {

/// Holds of the note with the identifier `id`.
pub open spec fn note_with(id: Seq<char>) -> spec_fn(NoteView) -> bool {
    |note: NoteView| note.id == id
}

/// Holds of the identifier `id`.
pub open spec fn token_is(id: Seq<char>) -> spec_fn(Seq<char>) -> bool {
    |token: Seq<char>| token == id
}

/// Holds of a plain link to `target`.
pub open spec fn link_to(target: Seq<char>) -> spec_fn(FLinkView) -> bool {
    |edge: FLinkView| edge matches FLinkView::Link(link) && link.id == target
}

/// Holds of the branch with the identifier `id`.
pub open spec fn branch_with(id: Seq<char>) -> spec_fn(FLinkView) -> bool {
    |edge: FLinkView| edge matches FLinkView::Branch(branch) && branch.id == id
}

/// Holds of an arm to `target`.
pub open spec fn arm_to(target: Seq<char>) -> spec_fn(LinkView) -> bool {
    |arm: LinkView| arm.id == target
}

/// Holds of a branch that has an arm to `target`.
pub open spec fn branch_reaching(target: Seq<char>) -> spec_fn(FLinkView) -> bool {
    |edge: FLinkView| edge matches FLinkView::Branch(branch) && has_arm(branch.branches, target)
}

/// Where the note `id` stands in the store; the store's length if it has
/// no such note.
pub open spec fn index_of(s: Seq<NoteView>, id: Seq<char>) -> int {
    position(s, note_with(id))
}

/// The store holds a note `id`.
pub open spec fn has_note(s: Seq<NoteView>, id: Seq<char>) -> bool {
    index_of(s, id) < s.len()
}

/// The note `id` of the store.
pub open spec fn note_of(s: Seq<NoteView>, id: Seq<char>) -> NoteView
    recommends
        has_note(s, id),
{
    s[index_of(s, id)]
}

/// The arms hold one to `target`.
pub open spec fn has_arm(arms: Seq<LinkView>, target: Seq<char>) -> bool {
    position(arms, arm_to(target)) < arms.len()
}

/// The edges hold a plain link to `target`.
pub open spec fn has_link(edges: Seq<FLinkView>, target: Seq<char>) -> bool {
    position(edges, link_to(target)) < edges.len()
}

/// The edges hold a branch `id`.
pub open spec fn has_branch(edges: Seq<FLinkView>, id: Seq<char>) -> bool {
    position(edges, branch_with(id)) < edges.len()
}

/// The edges hold a branch with an arm to `target`.
pub open spec fn has_arm_to(edges: Seq<FLinkView>, target: Seq<char>) -> bool {
    position(edges, branch_reaching(target)) < edges.len()
}

/// The edges lead to `target`, by a plain link or by an arm of a branch.
pub open spec fn points_to(edges: Seq<FLinkView>, target: Seq<char>) -> bool {
    has_link(edges, target) || has_arm_to(edges, target)
}

/// The edges of the note `id`.
#[verifier::inline]
pub open spec fn edges_of(s: Seq<NoteView>, id: Seq<char>) -> Seq<FLinkView>
    recommends
        has_note(s, id),
{
    note_of(s, id).forwardlinks
}

/// Where the branch `id` stands among the edges; their number if there is
/// no such branch.
pub open spec fn branch_at(edges: Seq<FLinkView>, id: Seq<char>) -> int {
    position(edges, branch_with(id))
}

/// The arms of the branch `id` among the edges.
pub open spec fn arms_under(edges: Seq<FLinkView>, id: Seq<char>) -> Seq<LinkView>
    recommends
        has_branch(edges, id),
{
    arms_of(edges[branch_at(edges, id)])
}

/// The back-links of the note `id`.
#[verifier::inline]
pub open spec fn backlinks_of(s: Seq<NoteView>, id: Seq<char>) -> Seq<Seq<char>>
    recommends
        has_note(s, id),
{
    note_of(s, id).backlinks
}

/// The arms of the edge, if it is a branch.
pub open spec fn arms_of(edge: FLinkView) -> Seq<LinkView> {
    match edge {
        FLinkView::Link(_) => Seq::empty(),
        FLinkView::Branch(branch) => branch.branches,
    }
}

/// The branch edge with other arms.
pub open spec fn with_arms(edge: FLinkView, arms: Seq<LinkView>) -> FLinkView {
    match edge {
        FLinkView::Link(link) => FLinkView::Link(link),
        FLinkView::Branch(branch) => FLinkView::Branch(BranchView { branches: arms, ..branch }),
    }
}

/// The targets of the arms, in their order.
pub open spec fn targets_of(arms: Seq<LinkView>) -> Seq<Seq<char>> {
    Seq::new(arms.len(), |k: int| arms[k].id)
}

// ---------------------------------------------------------------------
// Refusals
// ---------------------------------------------------------------------

/// The result agrees with `error`: it fails with that error if there is
/// one, and succeeds if there is none.
pub open spec fn decided<T, E>(result: Result<T, E>, error: Option<E>) -> bool {
    match result {
        Ok(_) => error is None,
        Err(e) => error == Some(e),
    }
}

/// Why a note cannot join the store under `id`: a note is there already.
pub open spec fn add_note_error(s: Seq<NoteView>, id: Seq<char>) -> Option<AddError> {
    if has_note(s, id) {
        Some(AddError::NoteAlreadyExists)
    } else {
        None
    }
}

/// Why `from` cannot get a plain link to `to`: one of the two is missing,
/// or the link is there already.
pub open spec fn add_link_error(s: Seq<NoteView>, from: Seq<char>, to: Seq<char>) -> Option<
    AddError,
> {
    if !has_note(s, from) || !has_note(s, to) {
        Some(AddError::NoteDoesNotExist)
    } else if has_link(edges_of(s, from), to) {
        Some(AddError::LinkAlreadyExists)
    } else {
        None
    }
}

/// Why `note` cannot get a branch under `branch`: the note is missing, or
/// it has a branch under that identifier.
pub open spec fn add_branching_error(
    s: Seq<NoteView>,
    note: Seq<char>,
    branch: Seq<char>,
) -> Option<AddError> {
    if !has_note(s, note) {
        Some(AddError::NoteDoesNotExist)
    } else if has_branch(edges_of(s, note), branch) {
        Some(AddError::BranchAlreadyExists)
    } else {
        None
    }
}

/// Why the branch `branch` of `note` cannot get an arm to `target`: one
/// of the two notes is missing, the branch is missing, or it has an arm
/// to `target` already.
pub open spec fn add_branch_error(
    s: Seq<NoteView>,
    note: Seq<char>,
    branch: Seq<char>,
    target: Seq<char>,
) -> Option<AddError> {
    if !has_note(s, note) || !has_note(s, target) {
        Some(AddError::NoteDoesNotExist)
    } else if !has_branch(edges_of(s, note), branch) {
        Some(AddError::BranchDoesNotExist)
    } else if has_arm(arms_under(edges_of(s, note), branch), target) {
        Some(AddError::BranchAlreadyExists)
    } else {
        None
    }
}

/// Why the note `note` cannot be changed: it is missing.
pub open spec fn change_note_error(s: Seq<NoteView>, note: Seq<char>) -> Option<ChangeError> {
    if !has_note(s, note) {
        Some(ChangeError::NoteDoesNotExist)
    } else {
        None
    }
}

/// Why the plain link from `from` to `to` cannot be changed: `from` is
/// missing, or it has no such link.
pub open spec fn change_link_error(s: Seq<NoteView>, from: Seq<char>, to: Seq<char>) -> Option<
    ChangeError,
> {
    if !has_note(s, from) {
        Some(ChangeError::NoteDoesNotExist)
    } else if !has_link(edges_of(s, from), to) {
        Some(ChangeError::LinkDoesNotExist)
    } else {
        None
    }
}

/// Why the branch `branch` of `note` cannot be changed or collapsed: the
/// note is missing, or it has no such branch.
pub open spec fn change_branch_error(
    s: Seq<NoteView>,
    note: Seq<char>,
    branch: Seq<char>,
) -> Option<ChangeError> {
    if !has_note(s, note) {
        Some(ChangeError::NoteDoesNotExist)
    } else if !has_branch(edges_of(s, note), branch) {
        Some(ChangeError::BranchDoesNotExist)
    } else {
        None
    }
}

/// Why the arm to `target` of the branch `branch` of `note` cannot be
/// changed: the note is missing, it has no such branch, or the branch has
/// no such arm.
pub open spec fn change_arm_error(
    s: Seq<NoteView>,
    note: Seq<char>,
    branch: Seq<char>,
    target: Seq<char>,
) -> Option<ChangeError> {
    if !has_note(s, note) {
        Some(ChangeError::NoteDoesNotExist)
    } else if !has_branch(edges_of(s, note), branch) {
        Some(ChangeError::BranchDoesNotExist)
    } else if !has_arm(arms_under(edges_of(s, note), branch), target) {
        Some(ChangeError::LinkDoesNotExist)
    } else {
        None
    }
}

/// Why the note `note` cannot be deleted: it is missing.
pub open spec fn delete_note_error(s: Seq<NoteView>, note: Seq<char>) -> Option<DeleteError> {
    if !has_note(s, note) {
        Some(DeleteError::NoteDoesNotExist)
    } else {
        None
    }
}

/// Why the plain link from `from` to `to` cannot be deleted: one of the
/// two notes is missing, or `from` has no such link.
pub open spec fn delete_link_error(s: Seq<NoteView>, from: Seq<char>, to: Seq<char>) -> Option<
    DeleteError,
> {
    if !has_note(s, from) || !has_note(s, to) {
        Some(DeleteError::NoteDoesNotExist)
    } else if !has_link(edges_of(s, from), to) {
        Some(DeleteError::LinkDoesNotExist)
    } else {
        None
    }
}

/// Why the branch `branch` of `note` cannot be deleted: the note is
/// missing, or it has no such branch.
pub open spec fn delete_branch_error(
    s: Seq<NoteView>,
    note: Seq<char>,
    branch: Seq<char>,
) -> Option<DeleteError> {
    if !has_note(s, note) {
        Some(DeleteError::NoteDoesNotExist)
    } else if !has_branch(edges_of(s, note), branch) {
        Some(DeleteError::BranchDoesNotExist)
    } else {
        None
    }
}

/// Why the arm to `target` of the branch `branch` of `note` cannot be
/// deleted: the note is missing, it has no such branch, `target` is
/// missing, or the branch has no such arm.
pub open spec fn delete_arm_error(
    s: Seq<NoteView>,
    note: Seq<char>,
    branch: Seq<char>,
    target: Seq<char>,
) -> Option<DeleteError> {
    if !has_note(s, note) {
        Some(DeleteError::NoteDoesNotExist)
    } else if !has_branch(edges_of(s, note), branch) {
        Some(DeleteError::BranchDoesNotExist)
    } else if !has_note(s, target) {
        Some(DeleteError::NoteDoesNotExist)
    } else if !has_arm(arms_under(edges_of(s, note), branch), target) {
        Some(DeleteError::LinkDoesNotExist)
    } else {
        None
    }
}

/// Why the note `note` cannot be read: it is missing.
pub open spec fn read_note_error(s: Seq<NoteView>, note: Seq<char>) -> Option<ReadError> {
    if !has_note(s, note) {
        Some(ReadError::NoteDoesNotExist)
    } else {
        None
    }
}

/// Why the branch `branch` of `note` cannot be read: the note is missing,
/// or it has no such branch.
pub open spec fn read_branch_error(s: Seq<NoteView>, note: Seq<char>, branch: Seq<char>) -> Option<
    ReadError,
> {
    if !has_note(s, note) {
        Some(ReadError::NoteDoesNotExist)
    } else if !has_branch(edges_of(s, note), branch) {
        Some(ReadError::BranchDoesNotExist)
    } else {
        None
    }
}

// ---------------------------------------------------------------------
// Consistency
// ---------------------------------------------------------------------

/// No two notes of the store share an identifier.
pub open spec fn distinct_ids(s: Seq<NoteView>) -> bool {
    forall|i: int, j: int|
        0 <= i < s.len() && 0 <= j < s.len() && i != j ==> (#[trigger] s[i]).id != (
        #[trigger] s[j]).id
}

/// Back-links mirror forward edges: a note lists another among its
/// back-links exactly if that one leads to it, by a link or by an arm.
pub open spec fn mirrored(s: Seq<NoteView>) -> bool {
    forall|i: int, j: int|
        0 <= i < s.len() && 0 <= j < s.len() ==> ((#[trigger] s[j]).backlinks.contains(
            (#[trigger] s[i]).id,
        ) <==> points_to(s[i].forwardlinks, s[j].id))
}

/// Every back-link names a note of the store, and none is listed twice.
pub open spec fn sources_sound(s: Seq<NoteView>) -> bool {
    forall|j: int|
        0 <= j < s.len() ==> {
            &&& (#[trigger] s[j]).backlinks.no_duplicates()
            &&& forall|k: int|
                0 <= k < s[j].backlinks.len() ==> has_note(s, #[trigger] s[j].backlinks[k])
        }
}

/// No edge dangles: what a note leads to is in the store.
pub open spec fn targets_exist(s: Seq<NoteView>) -> bool {
    forall|i: int, target: Seq<char>|
        0 <= i < s.len() && #[trigger] points_to(s[i].forwardlinks, target) ==> has_note(
            s,
            target,
        )
}

/// No two arms lead to the same note.
pub open spec fn arms_distinct(arms: Seq<LinkView>) -> bool {
    forall|a: int, b: int|
        0 <= a < arms.len() && 0 <= b < arms.len() && a != b ==> (#[trigger] arms[a]).id != (
        #[trigger] arms[b]).id
}

/// No two plain links lead to the same note, no two branches share an
/// identifier, and no branch has two arms to the same note.
pub open spec fn edges_distinct(edges: Seq<FLinkView>) -> bool {
    &&& forall|a: int, b: int|
        0 <= a < edges.len() && 0 <= b < edges.len() && a != b ==> !same_link_or_branch(
            #[trigger] edges[a],
            #[trigger] edges[b],
        )
    &&& forall|a: int| 0 <= a < edges.len() ==> arms_distinct(arms_of(#[trigger] edges[a]))
}

/// Two plain links to one note, or two branches under one identifier.
pub open spec fn same_link_or_branch(x: FLinkView, y: FLinkView) -> bool {
    match (x, y) {
        (FLinkView::Link(l), FLinkView::Link(m)) => l.id == m.id,
        (FLinkView::Branch(b), FLinkView::Branch(c)) => b.id == c.id,
        _ => false,
    }
}

/// The edges of every note are distinct.
pub open spec fn all_edges_distinct(s: Seq<NoteView>) -> bool {
    forall|i: int| 0 <= i < s.len() ==> edges_distinct((#[trigger] s[i]).forwardlinks)
}

/// The store is consistent: identifiers are unique, back-links mirror the
/// forward edges, no edge dangles and no edge is doubled.
pub open spec fn consistent(s: Seq<NoteView>) -> bool {
    &&& distinct_ids(s)
    &&& mirrored(s)
    &&& sources_sound(s)
    &&& targets_exist(s)
    &&& all_edges_distinct(s)
}

/// The two stores hold the same notes in the same places, each with the
/// content it had: only edges and back-links may differ.
pub open spec fn same_notes(s: Seq<NoteView>, t: Seq<NoteView>) -> bool {
    &&& t.len() == s.len()
    &&& forall|k: int| 0 <= k < s.len() ==> same_content(s[k], #[trigger] t[k])
}

/// The two notes agree in all but their edges and back-links.
pub open spec fn same_content(a: NoteView, b: NoteView) -> bool {
    &&& a.id == b.id
    &&& a.marked == b.marked
    &&& a.title == b.title
    &&& a.subtitle == b.subtitle
    &&& a.body == b.body
    &&& a.timestamp == b.timestamp
}

// ---------------------------------------------------------------------
// What a caller sees of a step
// ---------------------------------------------------------------------

/// `sources` with `id` listed: appended, unless it is there.
pub open spec fn listed(sources: Seq<Seq<char>>, id: Seq<char>) -> Seq<Seq<char>> {
    if sources.contains(id) {
        sources
    } else {
        sources.push(id)
    }
}

/// `sources` with `id` struck.
pub open spec fn struck(sources: Seq<Seq<char>>, id: Seq<char>) -> Seq<Seq<char>> {
    without_first(sources, token_is(id))
}

/// `t` holds the notes that `s` holds, each with the content it had:
/// edges and back-links may differ.
pub open spec fn kept(s: Seq<NoteView>, t: Seq<NoteView>) -> bool {
    &&& forall|x: Seq<char>| #[trigger] has_note(t, x) == has_note(s, x)
    &&& forall|x: Seq<char>|
        has_note(s, x) ==> same_content(note_of(s, x), #[trigger] note_of(t, x))
}

/// Every note of `s` but `a` and `b` is in `t` as it was in `s`.
pub open spec fn untouched(s: Seq<NoteView>, t: Seq<NoteView>, a: Seq<char>, b: Seq<char>) -> bool {
    forall|x: Seq<char>|
        has_note(s, x) && x != a && x != b ==> #[trigger] note_of(t, x) == note_of(s, x)
}

/// `t` is `s` with `changed` in place of the note `id`: the same notes
/// are held, and every other note is as it was.
pub open spec fn replaced(
    s: Seq<NoteView>,
    t: Seq<NoteView>,
    id: Seq<char>,
    changed: NoteView,
) -> bool {
    &&& forall|x: Seq<char>| #[trigger] has_note(t, x) == has_note(s, x)
    &&& note_of(t, id) == changed
    &&& untouched(s, t, id, id)
}

/// `t` is `s` with one more note, `note`: every other note is as it was.
pub open spec fn joined(s: Seq<NoteView>, t: Seq<NoteView>, note: NoteView) -> bool {
    &&& has_note(t, note.id)
    &&& note_of(t, note.id) == note
    &&& forall|x: Seq<char>| x != note.id ==> #[trigger] has_note(t, x) == has_note(s, x)
    &&& forall|x: Seq<char>| has_note(s, x) ==> #[trigger] note_of(t, x) == note_of(s, x)
}

/// What is seen of a store `t` that came from `s` by cutting edges of
/// `note`. The same notes are held, with their content; the edges of
/// every other note are as they were; a note that `note` still leads to
/// has the back-links it had, and one that it no longer leads to has them
/// without `note`.
pub open spec fn cut_seen(s: Seq<NoteView>, t: Seq<NoteView>, note: Seq<char>) -> bool {
    &&& kept(s, t)
    &&& forall|x: Seq<char>|
        has_note(s, x) && x != note ==> #[trigger] edges_of(t, x) == edges_of(s, x)
    &&& forall|x: Seq<char>|
        has_note(s, x) ==> #[trigger] backlinks_of(t, x) == if points_to(edges_of(t, note), x) {
            backlinks_of(s, x)
        } else {
            struck(backlinks_of(s, x), note)
        }
    &&& forall|x: Seq<char>|
        has_note(s, x) ==> (#[trigger] backlinks_of(t, x).contains(note) <==> points_to(
            edges_of(t, note),
            x,
        ))
}

/// `t` came from `s` by cutting edges of `note`, place by place: the
/// same notes in the same places, the edges of every other note as they
/// were, and each note's back-links as they were or without `note`.
pub open spec fn cut_of(s: Seq<NoteView>, t: Seq<NoteView>, note: Seq<char>) -> bool {
    &&& same_notes(s, t)
    &&& forall|k: int|
        0 <= k < s.len() && s[k].id != note ==> (#[trigger] t[k]).forwardlinks
            == s[k].forwardlinks
    &&& forall|k: int|
        0 <= k < s.len() ==> (#[trigger] t[k]).backlinks == s[k].backlinks || t[k].backlinks
            == struck(s[k].backlinks, note)
}

// ---------------------------------------------------------------------
// Steps
// ---------------------------------------------------------------------

/// The store with other edges for the note at `i`.
pub open spec fn with_edges(s: Seq<NoteView>, i: int, edges: Seq<FLinkView>) -> Seq<NoteView> {
    s.update(i, NoteView { forwardlinks: edges, ..s[i] })
}

/// The store with other back-links for the note at `j`.
pub open spec fn with_backlinks(s: Seq<NoteView>, j: int, sources: Seq<Seq<char>>) -> Seq<
    NoteView,
> {
    s.update(j, NoteView { backlinks: sources, ..s[j] })
}

/// `target` lists `source` among its back-links: appended, unless it is
/// there already.
pub open spec fn gain_backlink(s: Seq<NoteView>, target: Seq<char>, source: Seq<char>) -> Seq<
    NoteView,
> {
    let j = index_of(s, target);
    if j < s.len() && !s[j].backlinks.contains(source) {
        with_backlinks(s, j, s[j].backlinks.push(source))
    } else {
        s
    }
}

/// `target` drops `source` from its back-links if `source` no longer leads
/// to it.
pub open spec fn settle_backlink(s: Seq<NoteView>, source: Seq<char>, target: Seq<char>) -> Seq<
    NoteView,
> {
    let i = index_of(s, source);
    let j = index_of(s, target);
    if i < s.len() && j < s.len() && !points_to(s[i].forwardlinks, target) {
        with_backlinks(s, j, without_first(s[j].backlinks, token_is(source)))
    } else {
        s
    }
}

/// The note as it enters a store: without edges in either direction.
pub open spec fn detached(note: NoteView) -> NoteView {
    NoteView { backlinks: Seq::empty(), forwardlinks: Seq::empty(), ..note }
}

/// The store after `from` got a plain link to `to`.
pub open spec fn link_added(
    s: Seq<NoteView>,
    from: Seq<char>,
    to: Seq<char>,
    reason: Seq<char>,
) -> Seq<NoteView> {
    let i = index_of(s, from);
    let link = FLinkView::Link(LinkView { id: to, reason });
    gain_backlink(with_edges(s, i, s[i].forwardlinks.push(link)), to, from)
}

/// The store after `note` got an empty branch `branch`.
pub open spec fn branch_added(
    s: Seq<NoteView>,
    note: Seq<char>,
    branch: Seq<char>,
    condition: Seq<char>,
) -> Seq<NoteView> {
    let i = index_of(s, note);
    let edge = FLinkView::Branch(BranchView { id: branch, condition, branches: Seq::empty() });
    with_edges(s, i, s[i].forwardlinks.push(edge))
}

/// The store after the branch at edge `p` of `note` got an arm to `target`.
pub open spec fn arm_added(
    s: Seq<NoteView>,
    note: Seq<char>,
    p: int,
    target: Seq<char>,
    reason: Seq<char>,
) -> Seq<NoteView> {
    let i = index_of(s, note);
    let edges = s[i].forwardlinks;
    let arms = arms_of(edges[p]).push(LinkView { id: target, reason });
    gain_backlink(with_edges(s, i, edges.update(p, with_arms(edges[p], arms))), target, note)
}

/// The store after `from` lost its plain link to `to`.
pub open spec fn link_cut(s: Seq<NoteView>, from: Seq<char>, to: Seq<char>) -> Seq<NoteView> {
    let i = index_of(s, from);
    settle_backlink(with_edges(s, i, without_first(s[i].forwardlinks, link_to(to))), from, to)
}

/// The store after the branch at edge `p` of `note` lost its arm to
/// `target`.
pub open spec fn arm_cut(s: Seq<NoteView>, note: Seq<char>, p: int, target: Seq<char>) -> Seq<
    NoteView,
> {
    let i = index_of(s, note);
    let edges = s[i].forwardlinks;
    let arms = without_first(arms_of(edges[p]), arm_to(target));
    settle_backlink(with_edges(s, i, edges.update(p, with_arms(edges[p], arms))), note, target)
}

/// The store after the branch at edge `p` of `note` lost its arms to
/// `targets`, one after the other.
pub open spec fn arms_cut(
    s: Seq<NoteView>,
    note: Seq<char>,
    p: int,
    targets: Seq<Seq<char>>,
) -> Seq<NoteView>
    decreases targets.len(),
{
    if targets.len() == 0 {
        s
    } else {
        arms_cut(arm_cut(s, note, p, targets[0]), note, p, targets.drop_first())
    }
}

/// The arms that are left once the first arm to each of `targets` is
/// removed, one after the other.
pub open spec fn arms_left(arms: Seq<LinkView>, targets: Seq<Seq<char>>) -> Seq<LinkView>
    decreases targets.len(),
{
    if targets.len() == 0 {
        arms
    } else {
        arms_left(without_first(arms, arm_to(targets[0])), targets.drop_first())
    }
}

/// The store after `note` lost its edge at `p`, back-links untouched.
pub open spec fn edge_dropped(s: Seq<NoteView>, note: Seq<char>, p: int) -> Seq<NoteView> {
    let i = index_of(s, note);
    with_edges(s, i, s[i].forwardlinks.remove(p))
}

/// The store after the branch at edge `p` of `note` was released: its
/// arms cut, then the branch itself dropped.
pub open spec fn branch_released(s: Seq<NoteView>, note: Seq<char>, p: int) -> Seq<NoteView> {
    let i = index_of(s, note);
    let targets = targets_of(arms_of(s[i].forwardlinks[p]));
    edge_dropped(arms_cut(s, note, p, targets), note, p)
}

/// Two edges of the same kind that lead to the same notes in the same
/// order, a branch under the same identifier: they may differ in reasons
/// and condition.
pub open spec fn alike(x: FLinkView, y: FLinkView) -> bool {
    match (x, y) {
        (FLinkView::Link(l), FLinkView::Link(m)) => l.id == m.id,
        (FLinkView::Branch(b), FLinkView::Branch(c)) => b.id == c.id && targets_of(b.branches)
            == targets_of(c.branches),
        _ => false,
    }
}

/// The store with `edge` in place of the edge at `p` of `note`.
pub open spec fn edge_replaced(s: Seq<NoteView>, note: Seq<char>, p: int, edge: FLinkView) -> Seq<
    NoteView,
> {
    let i = index_of(s, note);
    with_edges(s, i, s[i].forwardlinks.update(p, edge))
}

/// The store with `changed` in place of the note `id`.
pub open spec fn note_replaced(s: Seq<NoteView>, id: Seq<char>, changed: NoteView) -> Seq<
    NoteView,
> {
    s.update(index_of(s, id), changed)
}

/// The store after the plain link from `from` to `to` got another reason.
pub open spec fn link_reason_changed(
    s: Seq<NoteView>,
    from: Seq<char>,
    to: Seq<char>,
    reason: Seq<char>,
) -> Seq<NoteView> {
    let p = position(note_of(s, from).forwardlinks, link_to(to));
    edge_replaced(s, from, p, FLinkView::Link(LinkView { id: to, reason }))
}

/// The store after the branch `branch` of `note` got another condition.
pub open spec fn branch_condition_changed(
    s: Seq<NoteView>,
    note: Seq<char>,
    branch: Seq<char>,
    condition: Seq<char>,
) -> Seq<NoteView> {
    let edges = note_of(s, note).forwardlinks;
    let p = position(edges, branch_with(branch));
    edge_replaced(
        s,
        note,
        p,
        FLinkView::Branch(BranchView { id: branch, condition, branches: arms_of(edges[p]) }),
    )
}

/// The branch `branch` among the edges with another reason for its arm to
/// `target`.
pub open spec fn arm_replaced(
    edges: Seq<FLinkView>,
    branch: Seq<char>,
    target: Seq<char>,
    reason: Seq<char>,
) -> FLinkView {
    let arms = arms_under(edges, branch);
    with_arms(
        edges[branch_at(edges, branch)],
        arms.update(position(arms, arm_to(target)), LinkView { id: target, reason }),
    )
}

/// The store after the arm to `target` of the branch `branch` of `note`
/// got another reason.
pub open spec fn arm_reason_changed(
    s: Seq<NoteView>,
    note: Seq<char>,
    branch: Seq<char>,
    target: Seq<char>,
    reason: Seq<char>,
) -> Seq<NoteView> {
    let edges = note_of(s, note).forwardlinks;
    let p = position(edges, branch_with(branch));
    let arms = arms_of(edges[p]);
    let k = position(arms, arm_to(target));
    edge_replaced(s, note, p, with_arms(edges[p], arms.update(k, LinkView { id: target, reason })))
}

/// The store after the branch `branch` of `note` was collapsed onto
/// `chosen`. If the branch has an arm to `chosen` and the note has no
/// plain link to it, the other arms are cut and the branch gives way to a
/// plain link, with the arm's reason, at the end of the note's edges.
/// Otherwise the whole branch is released.
pub open spec fn collapsed(
    s: Seq<NoteView>,
    note: Seq<char>,
    branch: Seq<char>,
    chosen: Seq<char>,
) -> Seq<NoteView> {
    let i = index_of(s, note);
    let edges = s[i].forwardlinks;
    let p = position(edges, branch_with(branch));
    let arms = arms_of(edges[p]);
    let k = position(arms, arm_to(chosen));
    if k < arms.len() && !has_link(edges, chosen) {
        let cut = arms_cut(s, note, p, targets_of(arms.remove(k)));
        with_edges(cut, i, cut[i].forwardlinks.remove(p).push(FLinkView::Link(arms[k])))
    } else {
        branch_released(s, note, p)
    }
}

// ---------------------------------------------------------------------
// Reading
// ---------------------------------------------------------------------

/// Holds of a note that nothing points to.
pub open spec fn is_root() -> spec_fn(NoteView) -> bool {
    |note: NoteView| note.backlinks.len() == 0
}

/// The identifiers of the notes that nothing points to, in the order of
/// the store.
pub open spec fn root_ids(s: Seq<NoteView>) -> Seq<Seq<char>> {
    matching(s, is_root()).map_values(|note: NoteView| note.id)
}

/// The store holds the note `id`, and it is not marked.
pub open spec fn unmarked(s: Seq<NoteView>, id: Seq<char>) -> bool {
    has_note(s, id) && !note_of(s, id).marked
}

/// Holds of an arm to a note that is not marked.
pub open spec fn arm_unmarked(s: Seq<NoteView>) -> spec_fn(LinkView) -> bool {
    |arm: LinkView| unmarked(s, arm.id)
}

/// Holds of a plain link to a note that is not marked, and of a branch
/// with an arm to such a note.
pub open spec fn edge_unmarked(s: Seq<NoteView>) -> spec_fn(FLinkView) -> bool {
    |edge: FLinkView|
        match edge {
            FLinkView::Link(link) => unmarked(s, link.id),
            FLinkView::Branch(branch) => position(branch.branches, arm_unmarked(s))
                < branch.branches.len(),
        }
}

/// Holds of a plain link.
pub open spec fn is_link() -> spec_fn(FLinkView) -> bool {
    |edge: FLinkView| edge is Link
}

/// Holds of a branch.
pub open spec fn is_branch() -> spec_fn(FLinkView) -> bool {
    |edge: FLinkView| edge is Branch
}

/// The plain links among the edges, in their order.
pub open spec fn pure_links(edges: Seq<FLinkView>) -> Seq<LinkView> {
    matching(edges, is_link()).map_values(|edge: FLinkView| edge->Link_0)
}

/// The identifiers of the branches among the edges, in their order.
pub open spec fn branch_ids(edges: Seq<FLinkView>) -> Seq<Seq<char>> {
    matching(edges, is_branch()).map_values(|edge: FLinkView| edge->Branch_0.id)
}

// ---------------------------------------------------------------------
// Size
// ---------------------------------------------------------------------

/// The size of an edge: one, and one for each arm.
pub open spec fn edge_weight(edge: FLinkView) -> nat {
    1 + arms_of(edge).len()
}

/// The size of edges: the sum of their sizes.
pub open spec fn edges_weight(edges: Seq<FLinkView>) -> nat
    decreases edges.len(),
{
    if edges.len() == 0 {
        0
    } else {
        edges_weight(edges.drop_last()) + edge_weight(edges.last())
    }
}

/// The size of a note: one, and one for each back-link, each edge and
/// each arm.
pub open spec fn note_weight(note: NoteView) -> nat {
    1 + note.backlinks.len() + edges_weight(note.forwardlinks)
}

/// The size of a store: the sum of the sizes of its notes. Every step of
/// a deletion makes it smaller.
pub open spec fn weight(s: Seq<NoteView>) -> nat
    decreases s.len(),
{
    if s.len() == 0 {
        0
    } else {
        weight(s.drop_last()) + note_weight(s.last())
    }
}

/// `t` came from `s` by cutting: the same notes in the same places, each
/// with the content it had and with no more back-links than it had.
pub open spec fn released(s: Seq<NoteView>, t: Seq<NoteView>) -> bool {
    &&& same_notes(s, t)
    &&& forall|k: int|
        0 <= k < s.len() ==> (#[trigger] t[k]).backlinks.len() <= s[k].backlinks.len()
}

/// `t` came from `s` by cutting, and no note reaches by an arm what it
/// did not reach by an arm before.
pub open spec fn pruned(s: Seq<NoteView>, t: Seq<NoteView>) -> bool {
    &&& released(s, t)
    &&& forall|k: int, x: Seq<char>|
        0 <= k < s.len() && #[trigger] has_arm_to(t[k].forwardlinks, x) ==> has_arm_to(
            s[k].forwardlinks,
            x,
        )
    &&& forall|k: int, x: Seq<char>|
        0 <= k < s.len() && #[trigger] t[k].backlinks.contains(x) ==> s[k].backlinks.contains(x)
}

/// Every note of `t` is a note of `s` with the content it had there, and
/// with no back-link that it did not have there.
pub open spec fn survivors(s: Seq<NoteView>, t: Seq<NoteView>) -> bool {
    &&& forall|id: Seq<char>| #[trigger]
        has_note(t, id) ==> has_note(s, id) && same_content(note_of(s, id), note_of(t, id))
    &&& forall|id: Seq<char>, source: Seq<char>|
        has_note(t, id) && #[trigger] backlinks_of(t, id).contains(source) ==> backlinks_of(
            s,
            id,
        ).contains(source)
}

/// Every note of `s` whose back-links all name notes that `t` no longer
/// holds, none of which led to it by an arm, is gone from `t` too.
pub open spec fn orphans_released(s: Seq<NoteView>, t: Seq<NoteView>) -> bool {
    forall|id: Seq<char>|
        has_note(s, id) && backlinks_of(s, id).len() > 0 && (forall|source: Seq<char>| #[trigger]
            backlinks_of(s, id).contains(source) ==> !has_note(t, source) && !has_arm_to(
                edges_of(s, source),
                id,
            )) ==> !#[trigger] has_note(t, id)
}

/// Every note of `t` has the edges it had in `s`.
pub open spec fn edges_kept(s: Seq<NoteView>, t: Seq<NoteView>) -> bool {
    forall|id: Seq<char>| #[trigger] has_note(t, id) ==> edges_of(t, id) == edges_of(s, id)
}

/// Every note of `t` leads where it led in `s`, the note `gone` left
/// aside.
pub open spec fn leads_kept(s: Seq<NoteView>, t: Seq<NoteView>, gone: Seq<char>) -> bool {
    forall|id: Seq<char>, target: Seq<char>|
        has_note(t, id) && target != gone ==> (#[trigger] points_to(edges_of(t, id), target))
            == points_to(edges_of(s, id), target)
}

/// Every note that nothing pointed to in `s`, those in `pending` left
/// aside, is a note of `t`.
pub open spec fn roots_kept(s: Seq<NoteView>, t: Seq<NoteView>, pending: Seq<Seq<char>>) -> bool {
    forall|id: Seq<char>| orphaned(s, id) && !pending.contains(id) ==> #[trigger] has_note(t, id)
}

/// A note that `s` held and `t` no longer holds reached `id` by an arm.
pub open spec fn lost_by_arm(s: Seq<NoteView>, t: Seq<NoteView>, id: Seq<char>) -> bool {
    exists|x: Seq<char>|
        has_note(s, x) && !has_note(t, x) && #[trigger] has_arm_to(note_of(s, x).forwardlinks, id)
}

/// No note of `t` lost its last back-link on the way from `s` without
/// leaving the store, unless an arm of a note that left had led to it.
pub open spec fn no_new_orphan(s: Seq<NoteView>, t: Seq<NoteView>) -> bool {
    forall|id: Seq<char>| #[trigger]
        orphaned(t, id) ==> orphaned(s, id) || lost_by_arm(s, t, id)
}

/// Nothing points to a note of the store that is listed in `pending`.
pub open spec fn pending_free(s: Seq<NoteView>, pending: Seq<Seq<char>>) -> bool {
    forall|k: int|
        0 <= k < pending.len() && has_note(s, #[trigger] pending[k]) ==> orphaned(s, pending[k])
}

/// The store holds the note `id`, and nothing points to it.
pub open spec fn orphaned(s: Seq<NoteView>, id: Seq<char>) -> bool {
    has_note(s, id) && note_of(s, id).backlinks.len() == 0
}

// ---------------------------------------------------------------------
// Deleting
// ---------------------------------------------------------------------

/// The store after the notes in `pending`, which nothing points to, were
/// released, the last one first. A note is released edge by edge, in the
/// order of its edges, and then leaves the store. A plain link is cut; if
/// nothing points to its target any more, the target is released next,
/// before the rest of the note's edges. A branch is released with its
/// arms, whose targets stay in the store.
///
/// `pending` holds the releases in progress. A release is never entered
/// twice, whatever cycles the links form: a note is listed when its last
/// back-link goes, and nothing can point to it again. Every step makes
/// the store smaller, so the release ends.
pub open spec fn cascade(s: Seq<NoteView>, pending: Seq<Seq<char>>) -> Seq<NoteView>
    decreases weight(s), pending.len(),
    via cascade_ends
{
    if pending.len() == 0 {
        s
    } else {
        let id = pending.last();
        let i = index_of(s, id);
        if i >= s.len() {
            cascade(s, pending.drop_last())
        } else if s[i].forwardlinks.len() == 0 {
            cascade(s.remove(i), pending.drop_last())
        } else {
            match s[i].forwardlinks[0] {
                FLinkView::Link(link) => {
                    let next = link_cut(s, id, link.id);
                    if orphaned(next, link.id) {
                        cascade(next, pending.push(link.id))
                    } else {
                        cascade(next, pending)
                    }
                },
                FLinkView::Branch(_) => cascade(branch_released(s, id, 0), pending),
            }
        }
    }
}

#[via_fn]
proof fn cascade_ends(s: Seq<NoteView>, pending: Seq<Seq<char>>) {
    if pending.len() > 0 {
        let id = pending.last();
        let i = index_of(s, id);
        lemma_position(s, note_with(id));
        if i < s.len() {
            if s[i].forwardlinks.len() == 0 {
                lemma_weight_remove(s, i);
            } else {
                match s[i].forwardlinks[0] {
                    FLinkView::Link(link) => {
                        lemma_position_found(
                            s[i].forwardlinks,
                            link_to(link.id),
                            0,
                        );
                        lemma_link_cut_weight(s, id, link.id);
                    },
                    FLinkView::Branch(_) => {
                        lemma_branch_released_weight(s, id, 0);
                    },
                }
            }
        }
    }
}

/// The store after the plain link from `from` to `to` was deleted: the
/// link is cut, and if nothing points to `to` any more, `to` is released.
pub open spec fn link_deleted(s: Seq<NoteView>, from: Seq<char>, to: Seq<char>) -> Seq<NoteView> {
    let next = link_cut(s, from, to);
    if orphaned(next, to) {
        cascade(next, seq![to])
    } else {
        next
    }
}

/// The store after every edge that leads to `id` was cut, source by
/// source in the order of the back-links of `id`, a plain link before
/// the arms.
pub open spec fn unlinked(s: Seq<NoteView>, id: Seq<char>) -> Seq<NoteView>
    decreases weight(s),
    via unlinked_ends
{
    let j = index_of(s, id);
    if j >= s.len() || s[j].backlinks.len() == 0 {
        s
    } else {
        let source = s[j].backlinks[0];
        let i = index_of(s, source);
        if i < s.len() && has_link(s[i].forwardlinks, id) {
            unlinked(link_cut(s, source, id), id)
        } else if i < s.len() && has_arm_to(s[i].forwardlinks, id) {
            unlinked(arm_cut(s, source, position(s[i].forwardlinks, branch_reaching(id)), id), id)
        } else {
            unlinked(with_backlinks(s, j, s[j].backlinks.drop_first()), id)
        }
    }
}

#[via_fn]
proof fn unlinked_ends(s: Seq<NoteView>, id: Seq<char>) {
    let j = index_of(s, id);
    lemma_position(s, note_with(id));
    if j < s.len() && s[j].backlinks.len() > 0 {
        let source = s[j].backlinks[0];
        let i = index_of(s, source);
        lemma_position(s, note_with(source));
        if i < s.len() && has_link(s[i].forwardlinks, id) {
            lemma_link_cut_weight(s, source, id);
        } else if i < s.len() && has_arm_to(s[i].forwardlinks, id) {
            let p = position(s[i].forwardlinks, branch_reaching(id));
            lemma_position(s[i].forwardlinks, branch_reaching(id));
            lemma_arm_cut_weight(s, source, p, id);
        } else {
            lemma_weight_update(s, j, NoteView { backlinks: s[j].backlinks.drop_first(), ..s[j] });
        }
    }
}

/// The store after the note `id` was deleted: every edge that leads to it
/// is cut, then the note is released.
pub open spec fn note_deleted(s: Seq<NoteView>, id: Seq<char>) -> Seq<NoteView> {
    cascade(unlinked(s, id), seq![id])
}

} // verus!
