//! Identifiers and the values a note is made of, each with the mathematical
//! value (its view) that the contracts speak of.
use vstd::prelude::*;
use crate::graph::{arm_to, arms_of, token_is, with_arms};
use crate::lookup::{find_arm, find_id};
use crate::outside::{current_timestamp, fresh_token};
use crate::search::{lemma_position, lemma_position_found, position, without_first};

verus! {

/// The identifier of a note: an opaque token, compared by value.
#[derive(Debug, Hash)]
pub struct NoteId(String);

/// The identifier of a branch: an opaque token, compared by value.
#[derive(Debug, Hash)]
pub struct BranchId(String);

/// A directed edge to the note `id`, with the reason it was drawn for.
pub struct Link {
    pub id: NoteId,
    pub reason: String,
}

/// A decision point: alternative links (arms) under one condition.
pub struct Branch {
    pub id: BranchId,
    pub condition: String,
    pub branches: Vec<Link>,
}

/// An outgoing edge of a note: a plain link or a branch.
pub enum FLink {
    Link(Link),
    Branch(Branch),
}

/// A note with its content, the notes that point to it and its outgoing
/// edges in the order in which they were added.
pub struct Note {
    pub id: NoteId,
    pub marked: bool,
    pub title: String,
    pub subtitle: Option<String>,
    pub body: String,
    pub backlinks: Vec<NoteId>,
    pub forwardlinks: Vec<FLink>,
    pub timestamp: time::PrimitiveDateTime,
}

/// What a [`Link`] stands for: the target's token and the reason.
pub struct LinkView {
    pub id: Seq<char>,
    pub reason: Seq<char>,
}

/// What a [`Branch`] stands for.
pub struct BranchView {
    pub id: Seq<char>,
    pub condition: Seq<char>,
    pub branches: Seq<LinkView>,
}

/// What an [`FLink`] stands for.
pub enum FLinkView {
    Link(LinkView),
    Branch(BranchView),
}

/// What a [`Note`] stands for.
pub struct NoteView {
    pub id: Seq<char>,
    pub marked: bool,
    pub title: Seq<char>,
    pub subtitle: Option<Seq<char>>,
    pub body: Seq<char>,
    pub backlinks: Seq<Seq<char>>,
    pub forwardlinks: Seq<FLinkView>,
    pub timestamp: time::PrimitiveDateTime,
}

impl View for NoteId {
    type V = Seq<char>;

    closed spec fn view(&self) -> Seq<char> {
        self.0@
    }
}

impl View for BranchId {
    type V = Seq<char>;

    closed spec fn view(&self) -> Seq<char> {
        self.0@
    }
}

impl View for Link {
    type V = LinkView;

    open spec fn view(&self) -> LinkView {
        LinkView { id: self.id@, reason: self.reason@ }
    }
}

impl View for Branch {
    type V = BranchView;

    open spec fn view(&self) -> BranchView {
        BranchView {
            id: self.id@,
            condition: self.condition@,
            branches: links_view(self.branches@),
        }
    }
}

impl View for FLink {
    type V = FLinkView;

    open spec fn view(&self) -> FLinkView {
        match self {
            FLink::Link(link) => FLinkView::Link(link@),
            FLink::Branch(branch) => FLinkView::Branch(branch@),
        }
    }
}

impl View for Note {
    type V = NoteView;

    open spec fn view(&self) -> NoteView {
        NoteView {
            id: self.id@,
            marked: self.marked,
            title: self.title@,
            subtitle: match self.subtitle {
                Some(text) => Some(text@),
                None => None,
            },
            body: self.body@,
            backlinks: ids_view(self.backlinks@),
            forwardlinks: flinks_view(self.forwardlinks@),
            timestamp: self.timestamp,
        }
    }
}

/// The tokens of a sequence of note identifiers.
pub open spec fn ids_view(ids: Seq<NoteId>) -> Seq<Seq<char>> {
    Seq::new(ids.len(), |i: int| ids[i]@)
}

/// The views of a sequence of links.
pub open spec fn links_view(links: Seq<Link>) -> Seq<LinkView> {
    Seq::new(links.len(), |i: int| links[i]@)
}

/// The views of a sequence of outgoing edges.
pub open spec fn flinks_view(edges: Seq<FLink>) -> Seq<FLinkView> {
    Seq::new(edges.len(), |i: int| edges[i]@)
}

impl PartialEq for NoteId {
    fn eq(&self, other: &Self) -> (equal: bool) {
        self.0 == other.0
    }
}

impl Eq for NoteId {}

impl vstd::std_specs::cmp::PartialEqSpecImpl for NoteId {
    open spec fn obeys_eq_spec() -> bool {
        true
    }

    open spec fn eq_spec(&self, other: &Self) -> bool {
        self@ == other@
    }
}

impl Clone for NoteId {
    fn clone(&self) -> (copy: Self)
        ensures
            copy@ == self@,
    {
        NoteId(self.0.clone())
    }
}

impl PartialEq for BranchId {
    fn eq(&self, other: &Self) -> (equal: bool) {
        self.0 == other.0
    }
}

impl Eq for BranchId {}

impl vstd::std_specs::cmp::PartialEqSpecImpl for BranchId {
    open spec fn obeys_eq_spec() -> bool {
        true
    }

    open spec fn eq_spec(&self, other: &Self) -> bool {
        self@ == other@
    }
}

impl Clone for BranchId {
    fn clone(&self) -> (copy: Self)
        ensures
            copy@ == self@,
    {
        BranchId(self.0.clone())
    }
}

impl Clone for Link {
    fn clone(&self) -> (copy: Self)
        ensures
            copy@ == self@,
    {
        Link { id: self.id.clone(), reason: self.reason.clone() }
    }
}

impl Clone for Branch {
    fn clone(&self) -> (copy: Self)
        ensures
            copy@ == self@,
    {
        let mut arms: Vec<Link> = Vec::new();
        let mut i: usize = 0;
        while i < self.branches.len()
            invariant
                i <= self.branches@.len(),
                arms@.len() == i,
                forall|k: int| 0 <= k < i ==> arms@[k]@ == self.branches@[k]@,
            decreases self.branches@.len() - i,
        {
            arms.push(self.branches[i].clone());
            i += 1;
        }
        let copy = Branch {
            id: self.id.clone(),
            condition: self.condition.clone(),
            branches: arms,
        };
        assert(copy@.branches =~= self@.branches);
        copy
    }
}

impl Clone for FLink {
    fn clone(&self) -> (copy: Self)
        ensures
            copy@ == self@,
    {
        match self {
            FLink::Link(link) => FLink::Link(link.clone()),
            FLink::Branch(branch) => FLink::Branch(branch.clone()),
        }
    }
}

impl Clone for Note {
    fn clone(&self) -> (copy: Self)
        ensures
            copy@ == self@,
    {
        let mut sources: Vec<NoteId> = Vec::new();
        let mut i: usize = 0;
        while i < self.backlinks.len()
            invariant
                i <= self.backlinks@.len(),
                sources@.len() == i,
                forall|k: int| 0 <= k < i ==> sources@[k]@ == self.backlinks@[k]@,
            decreases self.backlinks@.len() - i,
        {
            sources.push(self.backlinks[i].clone());
            i += 1;
        }
        let mut edges: Vec<FLink> = Vec::new();
        let mut j: usize = 0;
        while j < self.forwardlinks.len()
            invariant
                j <= self.forwardlinks@.len(),
                edges@.len() == j,
                forall|k: int| 0 <= k < j ==> edges@[k]@ == self.forwardlinks@[k]@,
            decreases self.forwardlinks@.len() - j,
        {
            edges.push(self.forwardlinks[j].clone());
            j += 1;
        }
        let subtitle = match &self.subtitle {
            Some(text) => Some(text.clone()),
            None => None,
        };
        let copy = Note {
            id: self.id.clone(),
            marked: self.marked,
            title: self.title.clone(),
            subtitle,
            body: self.body.clone(),
            backlinks: sources,
            forwardlinks: edges,
            timestamp: self.timestamp,
        };
        assert(copy@.backlinks =~= self@.backlinks);
        assert(copy@.forwardlinks =~= self@.forwardlinks);
        copy
    }
}

impl NoteId {
    /// A fresh identifier from the generator: a token of 21 characters.
    pub fn new() -> (id: Self)
        ensures
            id@.len() == 21,
    {
        NoteId(fresh_token())
    }

    /// The identifier that holds the given token.
    pub fn new_test(id: String) -> (made: Self)
        ensures
            made@ == id@,
    {
        NoteId(id)
    }
}

impl BranchId {
    /// A fresh identifier from the generator: a token of 21 characters.
    pub fn new() -> (id: Self)
        ensures
            id@.len() == 21,
    {
        BranchId(fresh_token())
    }

    /// The identifier that holds the given token.
    pub fn new_test(id: String) -> (made: Self)
        ensures
            made@ == id@,
    {
        BranchId(id)
    }
}

impl Branch {
    /// A branch without arms under a fresh identifier.
    pub fn new(condition: String) -> (branch: Self)
        ensures
            branch@.id.len() == 21,
            branch@.condition == condition@,
            branch@.branches.len() == 0,
    {
        Branch::with_id(BranchId::new(), condition)
    }

    /// A branch without arms under the given identifier.
    pub fn with_id(id: BranchId, condition: String) -> (branch: Self)
        ensures
            branch@ == (BranchView { id: id@, condition: condition@, branches: Seq::empty() }),
    {
        let branch = Branch { id, condition, branches: Vec::new() };
        assert(branch@.branches =~= Seq::empty());
        branch
    }

    /// The identifier of this branch.
    pub fn get_id(&self) -> (id: BranchId)
        ensures
            id@ == self@.id,
    {
        self.id.clone()
    }
}

impl FLink {
    /// Appends the arm if this edge is a branch; a plain link stays as it
    /// is.
    pub(crate) fn add_arm(&mut self, arm: Link)
        ensures
            final(self)@ == with_arms(old(self)@, arms_of(old(self)@).push(arm@)),
    {
        match self {
            FLink::Branch(branch) => {
                branch.branches.push(arm);
                assert(links_view(branch.branches@) =~= arms_of(old(self)@).push(arm@));
            },
            FLink::Link(_) => {},
        }
    }

    /// Removes the first arm to `target` if this edge is a branch that has
    /// one.
    pub(crate) fn remove_arm(&mut self, target: &NoteId)
        ensures
            final(self)@ == with_arms(
                old(self)@,
                without_first(arms_of(old(self)@), arm_to(target@)),
            ),
    {
        match self {
            FLink::Branch(branch) => {
                let at = find_arm(&branch.branches, target);
                if at < branch.branches.len() {
                    branch.branches.remove(at);
                    assert(links_view(branch.branches@) =~= arms_of(old(self)@).remove(at as int));
                }
            },
            FLink::Link(_) => {},
        }
    }
}

impl Note {
    /// A note with the given content, a fresh identifier and the current
    /// time: unmarked, without edges.
    pub fn new(title: String, subtitle: Option<String>, body: String) -> (note: Self)
        ensures
            note@.id.len() == 21,
            note@.title == title@,
            note@.subtitle == text_view(subtitle),
            note@.body == body@,
            !note@.marked,
            note@.backlinks.len() == 0,
            note@.forwardlinks.len() == 0,
    {
        Note {
            id: NoteId::new(),
            title,
            subtitle,
            body,
            backlinks: Vec::new(),
            forwardlinks: Vec::new(),
            timestamp: current_timestamp(),
            marked: false,
        }
    }

    /// The identifier of this note.
    pub fn get_id(&self) -> (id: NoteId)
        ensures
            id@ == self@.id,
    {
        self.id.clone()
    }

    /// Lists `source` among the notes that point to this one, unless it
    /// is listed already.
    pub(crate) fn add_backlink(&mut self, source: NoteId)
        ensures
            final(self)@ == (NoteView {
                backlinks: if old(self)@.backlinks.contains(source@) {
                    old(self)@.backlinks
                } else {
                    old(self)@.backlinks.push(source@)
                },
                ..old(self)@
            }),
    {
        let at = find_source(&self.backlinks, &source);
        if at == self.backlinks.len() {
            self.backlinks.push(source);
            assert(final(self)@.backlinks =~= old(self)@.backlinks.push(source@));
        }
    }

    /// Strikes `source` from the notes that point to this one and says how
    /// many are left.
    pub(crate) fn delete_backlink(&mut self, source: &NoteId) -> (left: usize)
        ensures
            final(self)@ == (NoteView {
                backlinks: without_first(old(self)@.backlinks, token_is(source@)),
                ..old(self)@
            }),
            left == final(self)@.backlinks.len(),
    {
        let at = find_source(&self.backlinks, source);
        if at < self.backlinks.len() {
            self.backlinks.remove(at);
            assert(final(self)@.backlinks =~= old(self)@.backlinks.remove(at as int));
        }
        self.backlinks.len()
    }

    /// This note under the identifier that holds the given token.
    pub fn set_id(self, id: String) -> (note: Self)
        ensures
            note@ == (NoteView { id: id@, ..self@ }),
    {
        Note { id: NoteId::new_test(id), ..self }
    }
}

/// The tokens of a sequence of borrowed note identifiers.
pub open spec fn id_refs_view(ids: Seq<&NoteId>) -> Seq<Seq<char>> {
    Seq::new(ids.len(), |i: int| ids[i]@)
}

/// The tokens of a sequence of borrowed branch identifiers.
pub open spec fn branch_refs_view(ids: Seq<&BranchId>) -> Seq<Seq<char>> {
    Seq::new(ids.len(), |i: int| ids[i]@)
}

/// The views of a sequence of borrowed links.
pub open spec fn link_refs_view(links: Seq<&Link>) -> Seq<LinkView> {
    Seq::new(links.len(), |i: int| links[i]@)
}

/// The views of a sequence of borrowed edges.
pub open spec fn flink_refs_view(edges: Seq<&FLink>) -> Seq<FLinkView> {
    Seq::new(edges.len(), |i: int| edges[i]@)
}

/// The views of a sequence of notes.
pub open spec fn notes_view(notes: Seq<Note>) -> Seq<NoteView> {
    Seq::new(notes.len(), |i: int| notes[i]@)
}

/// The first index of `source` among `sources`, or their number; inside
/// them exactly if they hold `source`.
pub(crate) fn find_source(sources: &Vec<NoteId>, source: &NoteId) -> (at: usize)
    ensures
        at == position(ids_view(sources@), token_is(source@)),
        at <= sources@.len(),
        at < sources@.len() <==> ids_view(sources@).contains(source@),
{
    let at = find_id(sources, source);
    proof {
        let tokens = ids_view(sources@);
        lemma_position(tokens, token_is(source@));
        if tokens.contains(source@) {
            let k = choose|k: int| 0 <= k < tokens.len() && tokens[k] == source@;
            lemma_position_found(tokens, token_is(source@), k);
        }
    }
    at
}

/// The text of an optional string.
pub open spec fn text_view(text: Option<String>) -> Option<Seq<char>> {
    match text {
        Some(text) => Some(text@),
        None => None,
    }
}

} // verus!
