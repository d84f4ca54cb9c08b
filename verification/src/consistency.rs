//! Why the steps of the manager keep a store consistent.
use vstd::prelude::*;
use crate::graph::{
    alike, all_edges_distinct, arm_added, arm_cut, arm_to, arms_cut, arms_distinct, arms_left,
    arms_of, branch_added, branch_ids, branch_reaching, branch_released, branch_with, collapsed,
    consistent, detached, distinct_ids, edge_dropped, edge_replaced, edges_distinct, gain_backlink,
    has_arm, has_arm_to, has_branch, has_link, has_note, index_of, is_branch, is_link, is_root,
    link_added, link_cut, link_to, mirrored, note_of, note_with, orphaned, points_to, pure_links,
    root_ids, same_content, same_link_or_branch, same_notes, settle_backlink, sources_sound,
    targets_exist, targets_of, token_is, with_arms, with_edges,
};
use crate::search::{
    lemma_found_iff, lemma_found_push, lemma_found_remove, lemma_found_same, lemma_found_update,
    lemma_listed, lemma_matching, lemma_position, lemma_position_found, lemma_position_is,
    lemma_struck, matching, position, without_first,
};
use crate::types::{BranchView, FLinkView, LinkView, NoteView};

verus! {

/// In a store with distinct identifiers a note is found where it stands.
pub proof fn lemma_index_of(s: Seq<NoteView>, i: int)
    requires
        distinct_ids(s),
        0 <= i < s.len(),
    ensures
        index_of(s, s[i].id) == i,
        has_note(s, s[i].id),
{
    assert forall|k: int| 0 <= k < i implies !note_with(s[i].id)(#[trigger] s[k]) by {}
    lemma_position_is(s, note_with(s[i].id), i);
}

/// A note that the store holds is found under its identifier.
pub proof fn lemma_note_of(s: Seq<NoteView>, id: Seq<char>)
    requires
        has_note(s, id),
    ensures
        0 <= index_of(s, id) < s.len(),
        note_of(s, id).id == id,
{
    lemma_position(s, note_with(id));
}

/// A store without the note `id` holds no note under that identifier.
pub proof fn lemma_no_note(s: Seq<NoteView>, id: Seq<char>, k: int)
    requires
        !has_note(s, id),
        0 <= k < s.len(),
    ensures
        s[k].id != id,
{
    if s[k].id == id {
        lemma_position_found(s, note_with(id), k);
    }
}

/// Two stores with the same identifiers in the same places find every
/// note in the same place.
pub proof fn lemma_same_ids(s: Seq<NoteView>, t: Seq<NoteView>, id: Seq<char>)
    requires
        s.len() == t.len(),
        forall|k: int| 0 <= k < s.len() ==> (#[trigger] t[k]).id == s[k].id,
    ensures
        index_of(t, id) == index_of(s, id),
        has_note(t, id) == has_note(s, id),
{
    assert forall|k: int| 0 <= k < s.len() implies note_with(id)(#[trigger] s[k]) == note_with(id)(
        t[k],
    ) by {
        assert(t[k].id == s[k].id);
    }
    lemma_found_same(s, t, note_with(id));
}

/// The heart of every step that changes edges. The store `t` differs from
/// the consistent store `s` in the edges of the note at `i` and in the
/// back-links of `target`; the note at `i` leads to the same notes as
/// before, `target` left aside; and `target` lists that note among its
/// back-links exactly if the note now leads to it. Then `t` is consistent.
pub proof fn lemma_rewired(s: Seq<NoteView>, t: Seq<NoteView>, i: int, target: Seq<char>)
    requires
        consistent(s),
        0 <= i < s.len(),
        t.len() == s.len(),
        forall|k: int| 0 <= k < s.len() ==> (#[trigger] t[k]).id == s[k].id,
        forall|k: int|
            0 <= k < s.len() && k != i ==> (#[trigger] t[k]).forwardlinks == s[k].forwardlinks,
        forall|k: int|
            0 <= k < s.len() && s[k].id != target ==> (#[trigger] t[k]).backlinks
                == s[k].backlinks,
        edges_distinct(t[i].forwardlinks),
        forall|x: Seq<char>|
            x != target ==> (#[trigger] points_to(t[i].forwardlinks, x)) == points_to(
                s[i].forwardlinks,
                x,
            ),
        points_to(t[i].forwardlinks, target) ==> has_note(s, target),
        has_note(s, target) ==> {
            let j = index_of(s, target);
            &&& t[j].backlinks.no_duplicates()
            &&& forall|x: Seq<char>|
                x != s[i].id ==> (#[trigger] t[j].backlinks.contains(x)) == s[j].backlinks.contains(
                    x,
                )
            &&& t[j].backlinks.contains(s[i].id) == points_to(t[i].forwardlinks, target)
        },
    ensures
        consistent(t),
{
    assert(distinct_ids(t)) by {
        assert forall|a: int, b: int|
            0 <= a < t.len() && 0 <= b < t.len() && a != b implies (#[trigger] t[a]).id != (
        #[trigger] t[b]).id by {
            assert(s[a].id != s[b].id);
        }
    }
    assert(all_edges_distinct(t)) by {
        assert forall|k: int| 0 <= k < t.len() implies edges_distinct(
            (#[trigger] t[k]).forwardlinks,
        ) by {
            if k != i {
                assert(edges_distinct(s[k].forwardlinks));
            }
        }
    }
    assert(targets_exist(t)) by {
        assert forall|k: int, x: Seq<char>|
            0 <= k < t.len() && #[trigger] points_to(t[k].forwardlinks, x) implies has_note(
            t,
            x,
        ) by {
            lemma_same_ids(s, t, x);
            if k != i {
                assert(t[k].forwardlinks == s[k].forwardlinks);
                assert(points_to(s[k].forwardlinks, x));
            } else if x != target {
                assert(points_to(s[i].forwardlinks, x));
            }
        }
    }
    assert(mirrored(t)) by {
        assert forall|a: int, b: int| 0 <= a < t.len() && 0 <= b < t.len() implies ((
        #[trigger] t[b]).backlinks.contains((#[trigger] t[a]).id) <==> points_to(
            t[a].forwardlinks,
            t[b].id,
        )) by {
            assert(s[b].backlinks.contains(s[a].id) <==> points_to(s[a].forwardlinks, s[b].id));
            assert(t[a].id == s[a].id);
            assert(t[b].id == s[b].id);
            if s[b].id != target {
                assert(t[b].backlinks == s[b].backlinks);
                if a != i {
                    assert(t[a].forwardlinks == s[a].forwardlinks);
                }
            } else {
                lemma_index_of(s, b);
                if a != i {
                    assert(t[a].forwardlinks == s[a].forwardlinks);
                    assert(s[a].id != s[i].id);
                }
            }
        }
    }
    assert(sources_sound(t)) by {
        assert forall|b: int| 0 <= b < t.len() implies {
            &&& (#[trigger] t[b]).backlinks.no_duplicates()
            &&& forall|k: int|
                0 <= k < t[b].backlinks.len() ==> has_note(t, #[trigger] t[b].backlinks[k])
        } by {
            assert(s[b].backlinks.no_duplicates());
            if s[b].id != target {
                assert(t[b].backlinks == s[b].backlinks);
                assert forall|k: int| 0 <= k < t[b].backlinks.len() implies has_note(
                    t,
                    #[trigger] t[b].backlinks[k],
                ) by {
                    assert(has_note(s, s[b].backlinks[k]));
                    lemma_same_ids(s, t, s[b].backlinks[k]);
                }
            } else {
                lemma_index_of(s, b);
                assert forall|k: int| 0 <= k < t[b].backlinks.len() implies has_note(
                    t,
                    #[trigger] t[b].backlinks[k],
                ) by {
                    let x = t[b].backlinks[k];
                    assert(t[b].backlinks.contains(x));
                    lemma_same_ids(s, t, x);
                    if x != s[i].id {
                        assert(s[b].backlinks.contains(x));
                        let k2 = choose|k2: int|
                            0 <= k2 < s[b].backlinks.len() && s[b].backlinks[k2] == x;
                        assert(has_note(s, s[b].backlinks[k2]));
                    } else {
                        lemma_index_of(s, i);
                    }
                }
            }
        }
    }
}

/// The root identifiers are those of the notes that nothing points to.
pub proof fn lemma_root_ids(s: Seq<NoteView>)
    requires
        distinct_ids(s),
    ensures
        forall|id: Seq<char>| #[trigger] root_ids(s).contains(id) <==> orphaned(s, id),
{
    let roots = matching(s, is_root());
    assert forall|id: Seq<char>| #[trigger] root_ids(s).contains(id) <==> orphaned(s, id) by {
        if root_ids(s).contains(id) {
            let k = choose|k: int| 0 <= k < root_ids(s).len() && root_ids(s)[k] == id;
            assert(roots.contains(roots[k]));
            lemma_matching(s, is_root(), roots[k]);
            let i = choose|i: int| 0 <= i < s.len() && s[i] == roots[k];
            lemma_index_of(s, i);
        }
        if orphaned(s, id) {
            lemma_note_of(s, id);
            let note = note_of(s, id);
            assert(s.contains(note));
            lemma_matching(s, is_root(), note);
            let k = choose|k: int| 0 <= k < roots.len() && roots[k] == note;
            assert(root_ids(s)[k] == id);
        }
    }
}

/// The branch identifiers are those of the branches among the edges.
pub proof fn lemma_branch_ids(edges: Seq<FLinkView>)
    ensures
        forall|id: Seq<char>| #[trigger] branch_ids(edges).contains(id) <==> has_branch(edges, id),
{
    let found = matching(edges, is_branch());
    assert forall|id: Seq<char>| #[trigger] branch_ids(edges).contains(id) <==> has_branch(
        edges,
        id,
    ) by {
        lemma_found_iff(edges, branch_with(id));
        if branch_ids(edges).contains(id) {
            let k = choose|k: int| 0 <= k < branch_ids(edges).len() && branch_ids(edges)[k] == id;
            assert(found.contains(found[k]));
            lemma_matching(edges, is_branch(), found[k]);
            let i = choose|i: int| 0 <= i < edges.len() && edges[i] == found[k];
            assert(branch_with(id)(edges[i]));
        }
        if has_branch(edges, id) {
            let i = choose|i: int| 0 <= i < edges.len() && branch_with(id)(#[trigger] edges[i]);
            assert(edges.contains(edges[i]));
            lemma_matching(edges, is_branch(), edges[i]);
            let k = choose|k: int| 0 <= k < found.len() && found[k] == edges[i];
            assert(branch_ids(edges)[k] == id);
        }
    }
}

/// The plain links are those among the edges.
pub proof fn lemma_pure_links(edges: Seq<FLinkView>)
    ensures
        forall|link: LinkView| #[trigger]
            pure_links(edges).contains(link) <==> edges.contains(FLinkView::Link(link)),
{
    let found = matching(edges, is_link());
    assert forall|link: LinkView| #[trigger]
        pure_links(edges).contains(link) <==> edges.contains(FLinkView::Link(link)) by {
        if pure_links(edges).contains(link) {
            let k = choose|k: int| 0 <= k < pure_links(edges).len() && pure_links(edges)[k] == link;
            assert(found.contains(found[k]));
            lemma_matching(edges, is_link(), found[k]);
        }
        if edges.contains(FLinkView::Link(link)) {
            lemma_matching(edges, is_link(), FLinkView::Link(link));
            let k = choose|k: int| 0 <= k < found.len() && found[k] == FLinkView::Link(link);
            assert(pure_links(edges)[k] == link);
        }
    }
}

/// Edges that list no branch identifier hold no branch.
pub proof fn lemma_no_branches(edges: Seq<FLinkView>, id: Seq<char>)
    requires
        branch_ids(edges).len() == 0,
    ensures
        !has_branch(edges, id),
{
    if has_branch(edges, id) {
        lemma_position(edges, branch_with(id));
        let edge = edges[position(edges, branch_with(id))];
        assert(edges.contains(edge));
        lemma_matching(edges, is_branch(), edge);
        let found = matching(edges, is_branch());
        let k = choose|k: int| 0 <= k < found.len() && found[k] == edge;
        assert(branch_ids(edges).len() == found.len());
    }
}

/// What appending an edge adds to the notes the edges lead to.
pub proof fn lemma_points_to_push(edges: Seq<FLinkView>, edge: FLinkView, x: Seq<char>)
    ensures
        has_link(edges.push(edge), x) <==> has_link(edges, x) || link_to(x)(edge),
        has_arm_to(edges.push(edge), x) <==> has_arm_to(edges, x) || branch_reaching(x)(edge),
        points_to(edges.push(edge), x) <==> points_to(edges, x) || link_to(x)(edge)
            || branch_reaching(x)(edge),
{
    lemma_found_push(edges, edge, link_to(x));
    lemma_found_push(edges, edge, branch_reaching(x));
}

/// What removing an edge takes from the notes the edges lead to.
pub proof fn lemma_points_to_remove(edges: Seq<FLinkView>, p: int, x: Seq<char>)
    requires
        0 <= p < edges.len(),
    ensures
        has_link(edges, x) <==> has_link(edges.remove(p), x) || link_to(x)(edges[p]),
        has_arm_to(edges, x) <==> has_arm_to(edges.remove(p), x) || branch_reaching(x)(edges[p]),
        points_to(edges, x) <==> points_to(edges.remove(p), x) || link_to(x)(edges[p])
            || branch_reaching(x)(edges[p]),
{
    lemma_found_remove(edges, p, link_to(x));
    lemma_found_remove(edges, p, branch_reaching(x));
}

/// Where the edges lead once the edge at `p` is replaced.
pub proof fn lemma_points_to_update(edges: Seq<FLinkView>, p: int, edge: FLinkView, x: Seq<char>)
    requires
        0 <= p < edges.len(),
    ensures
        has_link(edges.update(p, edge), x) <==> has_link(edges.remove(p), x) || link_to(x)(edge),
        has_arm_to(edges.update(p, edge), x) <==> has_arm_to(edges.remove(p), x)
            || branch_reaching(x)(edge),
        points_to(edges.update(p, edge), x) <==> points_to(edges.remove(p), x) || link_to(x)(edge)
            || branch_reaching(x)(edge),
{
    lemma_found_update(edges, p, edge, link_to(x));
    lemma_found_update(edges, p, edge, branch_reaching(x));
}

/// Replacing an edge by one that is a link to the same notes and reaches
/// the same notes by its arms changes nothing in where the edges lead.
pub proof fn lemma_points_to_alike(edges: Seq<FLinkView>, p: int, edge: FLinkView, x: Seq<char>)
    requires
        0 <= p < edges.len(),
        link_to(x)(edge) == link_to(x)(edges[p]),
        branch_reaching(x)(edge) == branch_reaching(x)(edges[p]),
    ensures
        has_link(edges.update(p, edge), x) == has_link(edges, x),
        has_arm_to(edges.update(p, edge), x) == has_arm_to(edges, x),
        points_to(edges.update(p, edge), x) == points_to(edges, x),
{
    lemma_points_to_update(edges, p, edge, x);
    lemma_points_to_remove(edges, p, x);
}

/// Arms without the first one to `target` reach what they reached,
/// `target` left aside, and stay distinct.
pub proof fn lemma_arm_struck(arms: Seq<LinkView>, target: Seq<char>, x: Seq<char>)
    ensures
        x != target ==> has_arm(without_first(arms, arm_to(target)), x) == has_arm(arms, x),
        has_arm(without_first(arms, arm_to(target)), x) ==> has_arm(arms, x),
        arms_distinct(arms) ==> arms_distinct(without_first(arms, arm_to(target))),
        arms_distinct(arms) ==> !has_arm(without_first(arms, arm_to(target)), target),
{
    lemma_position(arms, arm_to(target));
    let at = position(arms, arm_to(target));
    let rest = without_first(arms, arm_to(target));
    if at < arms.len() {
        lemma_found_remove(arms, at, arm_to(x));
        lemma_found_remove(arms, at, arm_to(target));
        if arms_distinct(arms) {
            assert forall|a: int, b: int|
                0 <= a < rest.len() && 0 <= b < rest.len() && a != b implies (
            #[trigger] rest[a]).id != (#[trigger] rest[b]).id by {
                let a2 = if a < at { a } else { a + 1 };
                let b2 = if b < at { b } else { b + 1 };
                assert(rest[a] == arms[a2] && rest[b] == arms[b2]);
            }
            lemma_found_iff(rest, arm_to(target));
            if has_arm(rest, target) {
                let k = choose|k: int| 0 <= k < rest.len() && arm_to(target)(#[trigger] rest[k]);
                let k2 = if k < at { k } else { k + 1 };
                assert(rest[k] == arms[k2]);
                assert(arms[k2].id == arms[at].id);
            }
        }
    }
}

/// Arms with one more, to a note they did not reach, stay distinct.
pub proof fn lemma_arm_pushed(arms: Seq<LinkView>, arm: LinkView, x: Seq<char>)
    ensures
        has_arm(arms.push(arm), x) <==> has_arm(arms, x) || arm.id == x,
        arms_distinct(arms) && !has_arm(arms, arm.id) ==> arms_distinct(arms.push(arm)),
{
    lemma_found_push(arms, arm, arm_to(x));
    let more = arms.push(arm);
    if arms_distinct(arms) && !has_arm(arms, arm.id) {
        lemma_found_iff(arms, arm_to(arm.id));
        assert forall|a: int, b: int|
            0 <= a < more.len() && 0 <= b < more.len() && a != b implies (#[trigger] more[a]).id
            != (#[trigger] more[b]).id by {
            if a < arms.len() {
                assert(more[a] == arms[a]);
                assert(!arm_to(arm.id)(arms[a]));
            }
            if b < arms.len() {
                assert(more[b] == arms[b]);
                assert(!arm_to(arm.id)(arms[b]));
            }
        }
    }
}

/// Distinct edges stay distinct when one is removed.
pub proof fn lemma_distinct_remove(edges: Seq<FLinkView>, p: int)
    requires
        edges_distinct(edges),
        0 <= p < edges.len(),
    ensures
        edges_distinct(edges.remove(p)),
{
    let rest = edges.remove(p);
    assert forall|a: int, b: int|
        0 <= a < rest.len() && 0 <= b < rest.len() && a != b implies !same_link_or_branch(
        #[trigger] rest[a],
        #[trigger] rest[b],
    ) by {
        let a2 = if a < p { a } else { a + 1 };
        let b2 = if b < p { b } else { b + 1 };
        assert(rest[a] == edges[a2] && rest[b] == edges[b2]);
    }
    assert forall|a: int| 0 <= a < rest.len() implies arms_distinct(
        arms_of(#[trigger] rest[a]),
    ) by {
        let a2 = if a < p { a } else { a + 1 };
        assert(rest[a] == edges[a2]);
    }
}

/// Distinct edges stay distinct when they gain a plain link to a note
/// they had no plain link to, or a branch with distinct arms under an
/// identifier that no branch of theirs has.
pub proof fn lemma_distinct_push(edges: Seq<FLinkView>, edge: FLinkView)
    requires
        edges_distinct(edges),
        arms_distinct(arms_of(edge)),
        edge matches FLinkView::Link(link) ==> !has_link(edges, link.id),
        edge matches FLinkView::Branch(branch) ==> !has_branch(edges, branch.id),
    ensures
        edges_distinct(edges.push(edge)),
{
    let more = edges.push(edge);
    match edge {
        FLinkView::Link(link) => {
            lemma_found_iff(edges, link_to(link.id));
        },
        FLinkView::Branch(branch) => {
            lemma_found_iff(edges, branch_with(branch.id));
        },
    }
    assert forall|a: int, b: int|
        0 <= a < more.len() && 0 <= b < more.len() && a != b implies !same_link_or_branch(
        #[trigger] more[a],
        #[trigger] more[b],
    ) by {
        if a < edges.len() {
            assert(more[a] == edges[a]);
        }
        if b < edges.len() {
            assert(more[b] == edges[b]);
        }
        match edge {
            FLinkView::Link(link) => {
                if a < edges.len() {
                    assert(!link_to(link.id)(edges[a]));
                }
                if b < edges.len() {
                    assert(!link_to(link.id)(edges[b]));
                }
            },
            FLinkView::Branch(branch) => {
                if a < edges.len() {
                    assert(!branch_with(branch.id)(edges[a]));
                }
                if b < edges.len() {
                    assert(!branch_with(branch.id)(edges[b]));
                }
            },
        }
    }
    assert forall|a: int| 0 <= a < more.len() implies arms_distinct(
        arms_of(#[trigger] more[a]),
    ) by {
        if a < edges.len() {
            assert(more[a] == edges[a]);
        }
    }
}

/// Distinct edges stay distinct when a branch among them gets other
/// distinct arms.
pub proof fn lemma_distinct_arms(edges: Seq<FLinkView>, p: int, arms: Seq<LinkView>)
    requires
        edges_distinct(edges),
        0 <= p < edges.len(),
        arms_distinct(arms),
    ensures
        edges_distinct(edges.update(p, with_arms(edges[p], arms))),
{
    let next = edges.update(p, with_arms(edges[p], arms));
    assert forall|a: int, b: int|
        0 <= a < next.len() && 0 <= b < next.len() && a != b implies !same_link_or_branch(
        #[trigger] next[a],
        #[trigger] next[b],
    ) by {
        assert(!same_link_or_branch(edges[a], edges[b]));
    }
    assert forall|a: int| 0 <= a < next.len() implies arms_distinct(
        arms_of(#[trigger] next[a]),
    ) by {
        if a != p {
            assert(next[a] == edges[a]);
        } else {
            assert(arms_distinct(arms_of(edges[p])));
            assert(arms_distinct(Seq::<LinkView>::empty()));
        }
    }
}

/// A store that differs from a consistent one in the edges of one note,
/// which lead where they led, and in what notes say besides their edges
/// and back-links, is consistent.
pub proof fn lemma_reshaped(s: Seq<NoteView>, t: Seq<NoteView>, i: int)
    requires
        consistent(s),
        0 <= i < s.len(),
        t.len() == s.len(),
        forall|k: int| 0 <= k < s.len() ==> (#[trigger] t[k]).id == s[k].id,
        forall|k: int| 0 <= k < s.len() ==> (#[trigger] t[k]).backlinks == s[k].backlinks,
        forall|k: int|
            0 <= k < s.len() && k != i ==> (#[trigger] t[k]).forwardlinks == s[k].forwardlinks,
        edges_distinct(t[i].forwardlinks),
        forall|x: Seq<char>|
            (#[trigger] points_to(t[i].forwardlinks, x)) == points_to(s[i].forwardlinks, x),
    ensures
        consistent(t),
{
    lemma_index_of(s, i);
    assert(s[i].backlinks.contains(s[i].id) <==> points_to(s[i].forwardlinks, s[i].id));
    assert(s[i].backlinks.no_duplicates());
    lemma_rewired(s, t, i, s[i].id);
}

/// A consistent store stays consistent when the note at `i` gets edges
/// that lead where the old ones led, `target` perhaps no longer, and
/// `target` then settles its back-link.
pub proof fn lemma_cut(s: Seq<NoteView>, i: int, edges: Seq<FLinkView>, target: Seq<char>)
    requires
        consistent(s),
        0 <= i < s.len(),
        edges_distinct(edges),
        forall|x: Seq<char>|
            x != target ==> (#[trigger] points_to(edges, x)) == points_to(s[i].forwardlinks, x),
        points_to(edges, target) ==> points_to(s[i].forwardlinks, target),
    ensures
        consistent(settle_backlink(with_edges(s, i, edges), s[i].id, target)),
{
    let mid = with_edges(s, i, edges);
    let t = settle_backlink(mid, s[i].id, target);
    lemma_index_of(s, i);
    lemma_same_ids(s, mid, s[i].id);
    lemma_same_ids(s, mid, target);
    let j = index_of(s, target);
    if has_note(s, target) {
        lemma_note_of(s, target);
        assert(s[j].backlinks.no_duplicates());
        assert(s[j].backlinks.contains(s[i].id) <==> points_to(s[i].forwardlinks, s[j].id));
        assert(mid[j].backlinks == s[j].backlinks);
        if !points_to(edges, target) {
            lemma_struck(s[j].backlinks, s[i].id, token_is(s[i].id));
        }
    } else {
        assert(t == mid);
        if points_to(edges, target) {
            assert(has_note(s, target));
        }
    }
    assert(t[i].forwardlinks == edges);
    lemma_rewired(s, t, i, target);
}

/// A consistent store stays consistent when the note at `i` gets edges
/// that lead where the old ones led and to `target`, a note of the store,
/// and `target` lists the note among its back-links.
pub proof fn lemma_grown(s: Seq<NoteView>, i: int, edges: Seq<FLinkView>, target: Seq<char>)
    requires
        consistent(s),
        0 <= i < s.len(),
        has_note(s, target),
        edges_distinct(edges),
        forall|x: Seq<char>|
            x != target ==> (#[trigger] points_to(edges, x)) == points_to(s[i].forwardlinks, x),
        points_to(edges, target),
    ensures
        consistent(gain_backlink(with_edges(s, i, edges), target, s[i].id)),
{
    let mid = with_edges(s, i, edges);
    let t = gain_backlink(mid, target, s[i].id);
    lemma_index_of(s, i);
    lemma_same_ids(s, mid, target);
    lemma_note_of(s, target);
    let j = index_of(s, target);
    assert(s[j].backlinks.no_duplicates());
    assert(mid[j].backlinks == s[j].backlinks);
    if !s[j].backlinks.contains(s[i].id) {
        lemma_listed(s[j].backlinks, s[i].id);
    }
    assert(t[i].forwardlinks == edges);
    lemma_rewired(s, t, i, target);
}

/// Stores with the same notes find every note in the same place.
pub proof fn lemma_same_notes(s: Seq<NoteView>, t: Seq<NoteView>, id: Seq<char>)
    requires
        same_notes(s, t),
    ensures
        index_of(t, id) == index_of(s, id),
        has_note(t, id) == has_note(s, id),
{
    assert forall|k: int| 0 <= k < s.len() implies (#[trigger] t[k]).id == s[k].id by {
        assert(same_content(s[k], t[k]));
    }
    lemma_same_ids(s, t, id);
}

/// Settling a back-link leaves notes, contents and edges as they are.
pub proof fn lemma_settle_frame(s: Seq<NoteView>, source: Seq<char>, target: Seq<char>)
    ensures
        same_notes(s, settle_backlink(s, source, target)),
        forall|k: int|
            0 <= k < s.len() ==> (#[trigger] settle_backlink(s, source, target)[k]).forwardlinks
                == s[k].forwardlinks,
        forall|k: int|
            0 <= k < s.len() && s[k].id != target ==> (#[trigger] settle_backlink(
                s,
                source,
                target,
            )[k]).backlinks == s[k].backlinks,
{
    lemma_position(s, note_with(target));
}

/// Gaining a back-link leaves notes, contents and edges as they are.
pub proof fn lemma_gain_frame(s: Seq<NoteView>, target: Seq<char>, source: Seq<char>)
    ensures
        same_notes(s, gain_backlink(s, target, source)),
        forall|k: int|
            0 <= k < s.len() ==> (#[trigger] gain_backlink(s, target, source)[k]).forwardlinks
                == s[k].forwardlinks,
        forall|k: int|
            0 <= k < s.len() && s[k].id != target ==> (#[trigger] gain_backlink(
                s,
                target,
                source,
            )[k]).backlinks == s[k].backlinks,
{
    lemma_position(s, note_with(target));
}

/// A plain link added between two notes of a consistent store, where
/// there was none, leaves the store consistent.
pub proof fn lemma_link_added(s: Seq<NoteView>, from: Seq<char>, to: Seq<char>, reason: Seq<char>)
    requires
        consistent(s),
        has_note(s, from),
        has_note(s, to),
        !has_link(note_of(s, from).forwardlinks, to),
    ensures
        consistent(link_added(s, from, to, reason)),
        same_notes(s, link_added(s, from, to, reason)),
{
    lemma_note_of(s, from);
    let i = index_of(s, from);
    let old_edges = s[i].forwardlinks;
    let link = FLinkView::Link(LinkView { id: to, reason });
    let edges = old_edges.push(link);
    assert(arms_distinct(arms_of(link)));
    assert(edges_distinct(old_edges));
    lemma_distinct_push(old_edges, link);
    assert forall|x: Seq<char>| x != to implies (#[trigger] points_to(edges, x)) == points_to(
        old_edges,
        x,
    ) by {
        lemma_points_to_push(old_edges, link, x);
    }
    lemma_points_to_push(old_edges, link, to);
    lemma_grown(s, i, edges, to);
    lemma_gain_frame(with_edges(s, i, edges), to, from);
}

/// An empty branch added to a note of a consistent store, under an
/// identifier that no branch of the note has, leaves the store consistent.
pub proof fn lemma_branch_added(
    s: Seq<NoteView>,
    note: Seq<char>,
    branch: Seq<char>,
    condition: Seq<char>,
)
    requires
        consistent(s),
        has_note(s, note),
        !has_branch(note_of(s, note).forwardlinks, branch),
    ensures
        consistent(branch_added(s, note, branch, condition)),
        same_notes(s, branch_added(s, note, branch, condition)),
{
    lemma_note_of(s, note);
    let i = index_of(s, note);
    let old_edges = s[i].forwardlinks;
    let edge = FLinkView::Branch(BranchView { id: branch, condition, branches: Seq::empty() });
    let edges = old_edges.push(edge);
    assert(edges_distinct(old_edges));
    lemma_distinct_push(old_edges, edge);
    assert forall|x: Seq<char>| (#[trigger] points_to(edges, x)) == points_to(old_edges, x) by {
        lemma_points_to_push(old_edges, edge, x);
        lemma_position(Seq::<LinkView>::empty(), arm_to(x));
    }
    let t = with_edges(s, i, edges);
    lemma_reshaped(s, t, i);
}

/// An arm added to a branch of a note of a consistent store, to a note of
/// the store that the branch did not reach, leaves the store consistent.
pub proof fn lemma_arm_added(
    s: Seq<NoteView>,
    note: Seq<char>,
    p: int,
    target: Seq<char>,
    reason: Seq<char>,
)
    requires
        consistent(s),
        has_note(s, note),
        has_note(s, target),
        0 <= p < note_of(s, note).forwardlinks.len(),
        note_of(s, note).forwardlinks[p] is Branch,
        !has_arm(arms_of(note_of(s, note).forwardlinks[p]), target),
    ensures
        consistent(arm_added(s, note, p, target, reason)),
        same_notes(s, arm_added(s, note, p, target, reason)),
{
    lemma_note_of(s, note);
    let i = index_of(s, note);
    let old_edges = s[i].forwardlinks;
    let arm = LinkView { id: target, reason };
    let old_arms = arms_of(old_edges[p]);
    let arms = old_arms.push(arm);
    let edge = with_arms(old_edges[p], arms);
    let edges = old_edges.update(p, edge);
    assert(edges_distinct(old_edges));
    assert(arms_distinct(arms_of(old_edges[p])));
    lemma_arm_pushed(old_arms, arm, target);
    lemma_distinct_arms(old_edges, p, arms);
    assert forall|x: Seq<char>| x != target implies (#[trigger] points_to(edges, x)) == points_to(
        old_edges,
        x,
    ) by {
        lemma_arm_pushed(old_arms, arm, x);
        lemma_points_to_alike(old_edges, p, edge, x);
    }
    lemma_points_to_update(old_edges, p, edge, target);
    lemma_grown(s, i, edges, target);
    lemma_gain_frame(with_edges(s, i, edges), target, note);
}

/// Cutting a plain link leaves a consistent store consistent.
pub proof fn lemma_link_cut(s: Seq<NoteView>, from: Seq<char>, to: Seq<char>)
    requires
        consistent(s),
        has_note(s, from),
    ensures
        consistent(link_cut(s, from, to)),
        same_notes(s, link_cut(s, from, to)),
{
    lemma_note_of(s, from);
    let i = index_of(s, from);
    let old_edges = s[i].forwardlinks;
    let edges = without_first(old_edges, link_to(to));
    let at = position(old_edges, link_to(to));
    lemma_position(old_edges, link_to(to));
    assert(edges_distinct(old_edges));
    if at < old_edges.len() {
        lemma_distinct_remove(old_edges, at);
        assert forall|x: Seq<char>| x != to implies (#[trigger] points_to(edges, x)) == points_to(
            old_edges,
            x,
        ) by {
            lemma_points_to_remove(old_edges, at, x);
        }
        lemma_points_to_remove(old_edges, at, to);
    }
    lemma_cut(s, i, edges, to);
    lemma_settle_frame(with_edges(s, i, edges), from, to);
}

/// Cutting an arm leaves a consistent store consistent.
pub proof fn lemma_arm_cut(s: Seq<NoteView>, note: Seq<char>, p: int, target: Seq<char>)
    requires
        consistent(s),
        has_note(s, note),
        0 <= p < note_of(s, note).forwardlinks.len(),
    ensures
        consistent(arm_cut(s, note, p, target)),
        same_notes(s, arm_cut(s, note, p, target)),
{
    lemma_note_of(s, note);
    let i = index_of(s, note);
    let old_edges = s[i].forwardlinks;
    let old_arms = arms_of(old_edges[p]);
    let arms = without_first(old_arms, arm_to(target));
    let edge = with_arms(old_edges[p], arms);
    let edges = old_edges.update(p, edge);
    assert(edges_distinct(old_edges));
    assert(arms_distinct(arms_of(old_edges[p])));
    lemma_arm_struck(old_arms, target, target);
    lemma_distinct_arms(old_edges, p, arms);
    assert forall|x: Seq<char>| x != target implies (#[trigger] points_to(edges, x)) == points_to(
        old_edges,
        x,
    ) by {
        lemma_arm_struck(old_arms, target, x);
        lemma_points_to_alike(old_edges, p, edge, x);
    }
    lemma_points_to_update(old_edges, p, edge, target);
    lemma_points_to_remove(old_edges, p, target);
    lemma_cut(s, i, edges, target);
    lemma_settle_frame(with_edges(s, i, edges), note, target);
}

/// Dropping a branch without arms leaves a consistent store consistent.
pub proof fn lemma_edge_dropped(s: Seq<NoteView>, note: Seq<char>, p: int)
    requires
        consistent(s),
        has_note(s, note),
        0 <= p < note_of(s, note).forwardlinks.len(),
        note_of(s, note).forwardlinks[p] is Branch,
        arms_of(note_of(s, note).forwardlinks[p]).len() == 0,
    ensures
        consistent(edge_dropped(s, note, p)),
        same_notes(s, edge_dropped(s, note, p)),
{
    lemma_note_of(s, note);
    let i = index_of(s, note);
    let old_edges = s[i].forwardlinks;
    let edges = old_edges.remove(p);
    assert(edges_distinct(old_edges));
    lemma_distinct_remove(old_edges, p);
    assert forall|x: Seq<char>| (#[trigger] points_to(edges, x)) == points_to(old_edges, x) by {
        lemma_points_to_remove(old_edges, p, x);
        lemma_position(arms_of(old_edges[p]), arm_to(x));
    }
    lemma_reshaped(s, with_edges(s, i, edges), i);
}

/// A note without edges, under an identifier that the store does not
/// have, joins a consistent store and leaves it consistent.
pub proof fn lemma_note_added(s: Seq<NoteView>, note: NoteView)
    requires
        consistent(s),
        !has_note(s, note.id),
    ensures
        consistent(s.push(detached(note))),
        index_of(s.push(detached(note)), note.id) == s.len(),
        forall|id: Seq<char>| has_note(s, id) ==> #[trigger] has_note(s.push(detached(note)), id),
{
    let n = detached(note);
    let t = s.push(n);
    assert forall|id: Seq<char>| has_note(s, id) implies #[trigger] has_note(t, id) by {
        lemma_found_push(s, n, note_with(id));
    }
    lemma_found_push(s, n, note_with(note.id));
    lemma_position(t, note_with(note.id));
    assert forall|k: int| 0 <= k < s.len() implies s[k].id != note.id by {
        lemma_no_note(s, note.id, k);
    }
    assert(distinct_ids(t)) by {
        assert forall|a: int, b: int|
            0 <= a < t.len() && 0 <= b < t.len() && a != b implies (#[trigger] t[a]).id != (
        #[trigger] t[b]).id by {
            if a < s.len() && b < s.len() {
                assert(s[a].id != s[b].id);
            }
        }
    }
    assert(all_edges_distinct(t)) by {
        assert forall|k: int| 0 <= k < t.len() implies edges_distinct(
            (#[trigger] t[k]).forwardlinks,
        ) by {
            if k < s.len() {
                assert(edges_distinct(s[k].forwardlinks));
            }
        }
    }
    assert forall|x: Seq<char>| !points_to(n.forwardlinks, x) by {
        lemma_position(n.forwardlinks, link_to(x));
        lemma_position(n.forwardlinks, branch_reaching(x));
    }
    assert(targets_exist(t)) by {
        assert forall|k: int, x: Seq<char>|
            0 <= k < t.len() && #[trigger] points_to(t[k].forwardlinks, x) implies has_note(
            t,
            x,
        ) by {
            if k < s.len() {
                assert(points_to(s[k].forwardlinks, x));
                assert(has_note(s, x));
            }
        }
    }
    assert(sources_sound(t)) by {
        assert forall|b: int| 0 <= b < t.len() implies {
            &&& (#[trigger] t[b]).backlinks.no_duplicates()
            &&& forall|k: int|
                0 <= k < t[b].backlinks.len() ==> has_note(t, #[trigger] t[b].backlinks[k])
        } by {
            if b < s.len() {
                assert(s[b].backlinks.no_duplicates());
                assert forall|k: int| 0 <= k < t[b].backlinks.len() implies has_note(
                    t,
                    #[trigger] t[b].backlinks[k],
                ) by {
                    assert(has_note(s, s[b].backlinks[k]));
                }
            }
        }
    }
    assert(mirrored(t)) by {
        assert forall|a: int, b: int| 0 <= a < t.len() && 0 <= b < t.len() implies ((
        #[trigger] t[b]).backlinks.contains((#[trigger] t[a]).id) <==> points_to(
            t[a].forwardlinks,
            t[b].id,
        )) by {
            if a < s.len() && b < s.len() {
                assert(s[b].backlinks.contains(s[a].id) <==> points_to(
                    s[a].forwardlinks,
                    s[b].id,
                ));
            } else if a < s.len() {
                if points_to(s[a].forwardlinks, note.id) {
                    assert(has_note(s, note.id));
                }
            } else if b < s.len() {
                if s[b].backlinks.contains(note.id) {
                    let k = choose|k: int|
                        0 <= k < s[b].backlinks.len() && s[b].backlinks[k] == note.id;
                    assert(has_note(s, s[b].backlinks[k]));
                }
            }
        }
    }
}

/// A note without edges in either direction leaves a consistent store and
/// leaves it consistent: every other note stays, as it is.
pub proof fn lemma_note_removed(s: Seq<NoteView>, i: int)
    requires
        consistent(s),
        0 <= i < s.len(),
        s[i].backlinks.len() == 0,
        s[i].forwardlinks.len() == 0,
    ensures
        consistent(s.remove(i)),
        !has_note(s.remove(i), s[i].id),
        forall|id: Seq<char>|
            id != s[i].id ==> (#[trigger] has_note(s.remove(i), id)) == has_note(s, id),
        forall|id: Seq<char>|
            id != s[i].id && has_note(s, id) ==> (#[trigger] note_of(s.remove(i), id)) == note_of(
                s,
                id,
            ),
{
    let t = s.remove(i);
    let gone = s[i].id;
    assert forall|k: int| 0 <= k < t.len() implies (#[trigger] t[k]) == s[if k < i {
        k
    } else {
        k + 1
    }] by {}
    assert(distinct_ids(t)) by {
        assert forall|a: int, b: int|
            0 <= a < t.len() && 0 <= b < t.len() && a != b implies (#[trigger] t[a]).id != (
        #[trigger] t[b]).id by {
            let a2 = if a < i { a } else { a + 1 };
            let b2 = if b < i { b } else { b + 1 };
            assert(s[a2].id != s[b2].id);
        }
    }
    lemma_found_iff(t, note_with(gone));
    if has_note(t, gone) {
        let k = choose|k: int| 0 <= k < t.len() && note_with(gone)(#[trigger] t[k]);
        let k2 = if k < i { k } else { k + 1 };
        assert(s[k2].id == s[i].id);
    }
    assert forall|id: Seq<char>| id != gone implies (#[trigger] has_note(t, id)) == has_note(
        s,
        id,
    ) by {
        lemma_found_remove(s, i, note_with(id));
    }
    assert forall|id: Seq<char>| id != gone && has_note(s, id) implies (#[trigger] note_of(t, id))
        == note_of(s, id) by {
        lemma_found_remove(s, i, note_with(id));
        lemma_note_of(s, id);
        lemma_note_of(t, id);
        let k = index_of(t, id);
        let k2 = if k < i { k } else { k + 1 };
        assert(t[k] == s[k2]);
        lemma_index_of(s, k2);
    }
    assert forall|x: Seq<char>| !points_to(s[i].forwardlinks, x) by {
        lemma_position(s[i].forwardlinks, link_to(x));
        lemma_position(s[i].forwardlinks, branch_reaching(x));
    }
    assert(all_edges_distinct(t)) by {
        assert forall|k: int| 0 <= k < t.len() implies edges_distinct(
            (#[trigger] t[k]).forwardlinks,
        ) by {
            let k2 = if k < i { k } else { k + 1 };
            assert(edges_distinct(s[k2].forwardlinks));
        }
    }
    assert(targets_exist(t)) by {
        assert forall|k: int, x: Seq<char>|
            0 <= k < t.len() && #[trigger] points_to(t[k].forwardlinks, x) implies has_note(
            t,
            x,
        ) by {
            let k2 = if k < i { k } else { k + 1 };
            assert(points_to(s[k2].forwardlinks, x));
            assert(has_note(s, x));
            if x == gone {
                assert(s[i].backlinks.contains(s[k2].id) <==> points_to(
                    s[k2].forwardlinks,
                    s[i].id,
                ));
            }
        }
    }
    assert(sources_sound(t)) by {
        assert forall|b: int| 0 <= b < t.len() implies {
            &&& (#[trigger] t[b]).backlinks.no_duplicates()
            &&& forall|k: int|
                0 <= k < t[b].backlinks.len() ==> has_note(t, #[trigger] t[b].backlinks[k])
        } by {
            let b2 = if b < i { b } else { b + 1 };
            assert(s[b2].backlinks.no_duplicates());
            assert forall|k: int| 0 <= k < t[b].backlinks.len() implies has_note(
                t,
                #[trigger] t[b].backlinks[k],
            ) by {
                let x = s[b2].backlinks[k];
                assert(has_note(s, x));
                if x == gone {
                    assert(s[b2].backlinks.contains(s[i].id));
                    assert(s[b2].backlinks.contains(s[i].id) <==> points_to(
                        s[i].forwardlinks,
                        s[b2].id,
                    ));
                }
            }
        }
    }
    assert(mirrored(t)) by {
        assert forall|a: int, b: int| 0 <= a < t.len() && 0 <= b < t.len() implies ((
        #[trigger] t[b]).backlinks.contains((#[trigger] t[a]).id) <==> points_to(
            t[a].forwardlinks,
            t[b].id,
        )) by {
            let a2 = if a < i { a } else { a + 1 };
            let b2 = if b < i { b } else { b + 1 };
            assert(s[b2].backlinks.contains(s[a2].id) <==> points_to(
                s[a2].forwardlinks,
                s[b2].id,
            ));
        }
    }
}

/// Settling or gaining a back-link after the note at `i` got other edges
/// leaves those edges in place.
pub proof fn lemma_edges_stay(
    s: Seq<NoteView>,
    i: int,
    edges: Seq<FLinkView>,
    a: Seq<char>,
    b: Seq<char>,
)
    requires
        0 <= i < s.len(),
    ensures
        settle_backlink(with_edges(s, i, edges), a, b)[i].forwardlinks == edges,
        gain_backlink(with_edges(s, i, edges), a, b)[i].forwardlinks == edges,
        forall|k: int|
            0 <= k < s.len() && k != i ==> (#[trigger] settle_backlink(
                with_edges(s, i, edges),
                a,
                b,
            )[k]).forwardlinks == s[k].forwardlinks,
        forall|k: int|
            0 <= k < s.len() && k != i ==> (#[trigger] gain_backlink(
                with_edges(s, i, edges),
                a,
                b,
            )[k]).forwardlinks == s[k].forwardlinks,
{
    let mid = with_edges(s, i, edges);
    lemma_settle_frame(mid, a, b);
    lemma_gain_frame(mid, a, b);
    assert(mid[i].forwardlinks == edges);
}

/// Whether arms reach a note depends on their targets alone.
pub proof fn lemma_same_targets(a: Seq<LinkView>, b: Seq<LinkView>, x: Seq<char>)
    requires
        targets_of(a) == targets_of(b),
    ensures
        has_arm(a, x) == has_arm(b, x),
        arms_distinct(a) == arms_distinct(b),
{
    assert(a.len() == targets_of(a).len());
    assert(b.len() == targets_of(b).len());
    assert forall|k: int| 0 <= k < a.len() implies (#[trigger] a[k]).id == b[k].id by {
        assert(targets_of(a)[k] == a[k].id);
        assert(targets_of(b)[k] == b[k].id);
    }
    assert forall|k: int| 0 <= k < a.len() implies arm_to(x)(#[trigger] a[k]) == arm_to(x)(
        b[k],
    ) by {
        assert(a[k].id == b[k].id);
    }
    lemma_found_same(a, b, arm_to(x));
    if arms_distinct(a) {
        assert forall|m: int, n: int|
            0 <= m < b.len() && 0 <= n < b.len() && m != n implies (#[trigger] b[m]).id != (
        #[trigger] b[n]).id by {
            assert(a[m].id != a[n].id);
        }
    }
    if arms_distinct(b) {
        assert forall|m: int, n: int|
            0 <= m < a.len() && 0 <= n < a.len() && m != n implies (#[trigger] a[m]).id != (
        #[trigger] a[n]).id by {
            assert(b[m].id != b[n].id);
        }
    }
}

/// An edge of a note of a consistent store gives way to one that is like
/// it: the store stays consistent.
pub proof fn lemma_edge_replaced(s: Seq<NoteView>, note: Seq<char>, p: int, edge: FLinkView)
    requires
        consistent(s),
        has_note(s, note),
        0 <= p < note_of(s, note).forwardlinks.len(),
        alike(note_of(s, note).forwardlinks[p], edge),
    ensures
        consistent(edge_replaced(s, note, p, edge)),
        same_notes(s, edge_replaced(s, note, p, edge)),
{
    lemma_note_of(s, note);
    let i = index_of(s, note);
    let old_edges = s[i].forwardlinks;
    let edges = old_edges.update(p, edge);
    assert(edges_distinct(old_edges));
    assert(edges_distinct(edges)) by {
        assert forall|a: int, b: int|
            0 <= a < edges.len() && 0 <= b < edges.len() && a != b implies !same_link_or_branch(
            #[trigger] edges[a],
            #[trigger] edges[b],
        ) by {
            assert(!same_link_or_branch(old_edges[a], old_edges[b]));
        }
        assert forall|a: int| 0 <= a < edges.len() implies arms_distinct(
            arms_of(#[trigger] edges[a]),
        ) by {
            assert(arms_distinct(arms_of(old_edges[a])));
            if a == p {
                lemma_same_targets(arms_of(old_edges[p]), arms_of(edge), Seq::empty());
            }
        }
    }
    assert forall|x: Seq<char>| (#[trigger] points_to(edges, x)) == points_to(old_edges, x) by {
        lemma_same_targets(arms_of(old_edges[p]), arms_of(edge), x);
        lemma_points_to_alike(old_edges, p, edge, x);
    }
    lemma_reshaped(s, with_edges(s, i, edges), i);
}

/// A note of a consistent store gives way to one with the same
/// identifier, edges and back-links: the store stays consistent.
pub proof fn lemma_note_replaced(s: Seq<NoteView>, i: int, changed: NoteView)
    requires
        consistent(s),
        0 <= i < s.len(),
        changed.id == s[i].id,
        changed.backlinks == s[i].backlinks,
        changed.forwardlinks == s[i].forwardlinks,
    ensures
        consistent(s.update(i, changed)),
{
    assert(edges_distinct(s[i].forwardlinks));
    lemma_reshaped(s, s.update(i, changed), i);
}

/// Cutting an arm changes the arms of its branch and no other edge.
pub proof fn lemma_arm_cut_edges(s: Seq<NoteView>, note: Seq<char>, p: int, target: Seq<char>)
    requires
        has_note(s, note),
        0 <= p < note_of(s, note).forwardlinks.len(),
    ensures
        has_note(arm_cut(s, note, p, target), note),
        note_of(arm_cut(s, note, p, target), note).forwardlinks == note_of(
            s,
            note,
        ).forwardlinks.update(
            p,
            with_arms(
                note_of(s, note).forwardlinks[p],
                without_first(arms_of(note_of(s, note).forwardlinks[p]), arm_to(target)),
            ),
        ),
{
    lemma_note_of(s, note);
    let i = index_of(s, note);
    let edges = s[i].forwardlinks;
    let next_edges = edges.update(
        p,
        with_arms(edges[p], without_first(arms_of(edges[p]), arm_to(target))),
    );
    lemma_edges_stay(s, i, next_edges, note, target);
    lemma_settle_frame(with_edges(s, i, next_edges), note, target);
    let next = arm_cut(s, note, p, target);
    assert forall|k: int| 0 <= k < s.len() implies (#[trigger] next[k]).id == s[k].id by {
        assert(same_content(with_edges(s, i, next_edges)[k], next[k]));
    }
    lemma_same_ids(s, next, note);
}

/// Cutting the first arm to each target of the arms, in their order,
/// leaves no arm.
pub proof fn lemma_arms_left_none(arms: Seq<LinkView>)
    ensures
        arms_left(arms, targets_of(arms)).len() == 0,
    decreases arms.len(),
{
    let targets = targets_of(arms);
    if arms.len() > 0 {
        assert(targets[0] == arms[0].id);
        lemma_position_found(arms, arm_to(targets[0]), 0);
        lemma_position(arms, arm_to(targets[0]));
        let rest = without_first(arms, arm_to(targets[0]));
        assert(rest == arms.remove(0));
        assert(targets.drop_first() =~= targets_of(rest));
        lemma_arms_left_none(rest);
    }
}

/// Cutting the first arm to each target of distinct arms but the one at
/// `k` leaves that arm alone.
pub proof fn lemma_arms_left_one(arms: Seq<LinkView>, k: int)
    requires
        arms_distinct(arms),
        0 <= k < arms.len(),
    ensures
        arms_left(arms, targets_of(arms.remove(k))) == seq![arms[k]],
    decreases arms.len(),
{
    let others = targets_of(arms.remove(k));
    if arms.len() == 1 {
        assert(arms =~= seq![arms[k]]);
    } else {
        let m: int = if k == 0 { 1 } else { 0 };
        assert(arms.remove(k)[0] == arms[m]);
        assert(others[0] == arms[m].id);
        assert forall|j: int| 0 <= j < m implies !arm_to(others[0])(#[trigger] arms[j]) by {
            assert(arms[j].id != arms[m].id);
        }
        lemma_position_is(arms, arm_to(others[0]), m);
        let rest = arms.remove(m);
        let k2: int = if k == 0 { 0 } else { k - 1 };
        assert(rest[k2] == arms[k]);
        assert(others.drop_first() =~= targets_of(rest.remove(k2))) by {
            assert(arms.remove(k).drop_first() =~= rest.remove(k2));
        }
        assert(arms_distinct(rest)) by {
            assert forall|a: int, b: int|
                0 <= a < rest.len() && 0 <= b < rest.len() && a != b implies (
            #[trigger] rest[a]).id != (#[trigger] rest[b]).id by {
                let a2 = if a < m { a } else { a + 1 };
                let b2 = if b < m { b } else { b + 1 };
                assert(rest[a] == arms[a2] && rest[b] == arms[b2]);
            }
        }
        lemma_arms_left_one(rest, k2);
    }
}

/// Cutting arms of a branch of a note of a consistent store, one after
/// the other, leaves the store consistent; it changes the arms of that
/// branch and no other edge.
pub proof fn lemma_arms_cut(s: Seq<NoteView>, note: Seq<char>, p: int, targets: Seq<Seq<char>>)
    requires
        consistent(s),
        has_note(s, note),
        0 <= p < note_of(s, note).forwardlinks.len(),
        note_of(s, note).forwardlinks[p] is Branch,
    ensures
        consistent(arms_cut(s, note, p, targets)),
        same_notes(s, arms_cut(s, note, p, targets)),
        forall|k: int|
            0 <= k < s.len() && k != index_of(s, note) ==> (#[trigger] arms_cut(
                s,
                note,
                p,
                targets,
            )[k]).forwardlinks == s[k].forwardlinks,
        note_of(arms_cut(s, note, p, targets), note).forwardlinks == note_of(
            s,
            note,
        ).forwardlinks.update(
            p,
            with_arms(
                note_of(s, note).forwardlinks[p],
                arms_left(arms_of(note_of(s, note).forwardlinks[p]), targets),
            ),
        ),
    decreases targets.len(),
{
    lemma_note_of(s, note);
    let i = index_of(s, note);
    let edges = s[i].forwardlinks;
    if targets.len() == 0 {
        assert(edges =~= edges.update(p, with_arms(edges[p], arms_of(edges[p]))));
    } else {
        let next = arm_cut(s, note, p, targets[0]);
        let arms = without_first(arms_of(edges[p]), arm_to(targets[0]));
        let next_edges = edges.update(p, with_arms(edges[p], arms));
        lemma_arm_cut(s, note, p, targets[0]);
        lemma_edges_stay(s, i, next_edges, note, targets[0]);
        lemma_same_notes(s, next, note);
        assert(next[i].forwardlinks == next_edges);
        lemma_arms_cut(next, note, p, targets.drop_first());
        let last = arms_cut(next, note, p, targets.drop_first());
        assert(same_notes(s, last)) by {
            assert forall|k: int| 0 <= k < s.len() implies same_content(
                s[k],
                #[trigger] last[k],
            ) by {
                assert(same_content(s[k], next[k]));
                assert(same_content(next[k], last[k]));
            }
        }
        lemma_same_notes(s, last, note);
        let left = arms_left(arms, targets.drop_first());
        assert(next_edges.update(p, with_arms(next_edges[p], left)) =~= edges.update(
            p,
            with_arms(edges[p], left),
        ));
    }
}

/// Releasing a branch of a note of a consistent store leaves the store
/// consistent.
pub proof fn lemma_branch_released(s: Seq<NoteView>, note: Seq<char>, p: int)
    requires
        consistent(s),
        has_note(s, note),
        0 <= p < note_of(s, note).forwardlinks.len(),
        note_of(s, note).forwardlinks[p] is Branch,
    ensures
        consistent(branch_released(s, note, p)),
        same_notes(s, branch_released(s, note, p)),
        forall|k: int|
            0 <= k < s.len() && k != index_of(s, note) ==> (#[trigger] branch_released(
                s,
                note,
                p,
            )[k]).forwardlinks == s[k].forwardlinks,
        note_of(branch_released(s, note, p), note).forwardlinks == note_of(
            s,
            note,
        ).forwardlinks.remove(p),
{
    lemma_note_of(s, note);
    let i = index_of(s, note);
    let edges = s[i].forwardlinks;
    let targets = targets_of(arms_of(edges[p]));
    let cut = arms_cut(s, note, p, targets);
    lemma_arms_cut(s, note, p, targets);
    lemma_arms_left_none(arms_of(edges[p]));
    lemma_same_notes(s, cut, note);
    lemma_edge_dropped(cut, note, p);
    let last = edge_dropped(cut, note, p);
    assert(same_notes(s, last)) by {
        assert forall|k: int| 0 <= k < s.len() implies same_content(s[k], #[trigger] last[k]) by {
            assert(same_content(s[k], cut[k]));
            assert(same_content(cut[k], last[k]));
        }
    }
    lemma_same_notes(s, last, note);
    assert(last[i].forwardlinks =~= edges.remove(p));
}

/// Collapsing a branch of a note of a consistent store leaves the store
/// consistent.
pub proof fn lemma_collapsed(
    s: Seq<NoteView>,
    note: Seq<char>,
    branch: Seq<char>,
    chosen: Seq<char>,
)
    requires
        consistent(s),
        has_note(s, note),
        has_branch(note_of(s, note).forwardlinks, branch),
    ensures
        consistent(collapsed(s, note, branch, chosen)),
        same_notes(s, collapsed(s, note, branch, chosen)),
{
    lemma_note_of(s, note);
    let i = index_of(s, note);
    let edges = s[i].forwardlinks;
    let p = position(edges, branch_with(branch));
    lemma_position(edges, branch_with(branch));
    let arms = arms_of(edges[p]);
    let k = position(arms, arm_to(chosen));
    lemma_position(arms, arm_to(chosen));
    if k < arms.len() && !has_link(edges, chosen) {
        let others = targets_of(arms.remove(k));
        let cut = arms_cut(s, note, p, others);
        lemma_arms_cut(s, note, p, others);
        assert(edges_distinct(edges));
        assert(arms_distinct(arms_of(edges[p])));
        lemma_arms_left_one(arms, k);
        lemma_same_notes(s, cut, note);
        let cut_edges = cut[i].forwardlinks;
        let link = FLinkView::Link(arms[k]);
        let new_edges = cut_edges.remove(p).push(link);
        assert(cut_edges.remove(p) =~= edges.remove(p));
        assert(edges_distinct(cut_edges));
        lemma_distinct_remove(cut_edges, p);
        lemma_points_to_remove(edges, p, chosen);
        assert(arms_distinct(arms_of(link)));
        lemma_distinct_push(cut_edges.remove(p), link);
        assert forall|x: Seq<char>| (#[trigger] points_to(new_edges, x)) == points_to(
            cut_edges,
            x,
        ) by {
            lemma_points_to_push(cut_edges.remove(p), link, x);
            lemma_points_to_remove(cut_edges, p, x);
            let one = seq![arms[k]];
            lemma_found_iff(one, arm_to(x));
            if arms[k].id == x {
                assert(arm_to(x)(one[0]));
            }
        }
        let last = with_edges(cut, i, new_edges);
        lemma_reshaped(cut, last, i);
        assert(same_notes(s, last)) by {
            assert forall|n: int| 0 <= n < s.len() implies same_content(
                s[n],
                #[trigger] last[n],
            ) by {
                assert(same_content(s[n], cut[n]));
            }
        }
    } else {
        lemma_branch_released(s, note, p);
    }
}

} // verus!
