//! The note store.
use vstd::prelude::*;
use crate::graph::consistent;
use crate::store::Store;
use crate::types::NoteView;

pub mod add;
pub mod change;
pub mod delete;
pub mod read;

verus! {

/// The owner of the notes. Its view is the sequence of the notes' values,
/// in the order in which they were added. A manager is consistent at all
/// times: its notes are reached through its operations alone, and each of
/// them takes the notes out, works on them, and puts them back
/// consistent.
pub struct NotesManager {
    store: Store,
}

impl View for NotesManager {
    type V = Seq<NoteView>;

    closed spec fn view(&self) -> Seq<NoteView> {
        self.store@
    }
}

impl Default for NotesManager {
    fn default() -> (manager: Self)
        ensures
            manager@ == Seq::<NoteView>::empty(),
            consistent(manager@),
    {
        NotesManager::new()
    }
}

impl NotesManager {
    #[verifier::type_invariant]
    spec fn sound(self) -> bool {
        consistent(self.store@)
    }

    /// A store without notes.
    pub fn new() -> (manager: Self)
        ensures
            manager@ == Seq::<NoteView>::empty(),
            consistent(manager@),
    {
        NotesManager { store: Store::new() }
    }

    /// Takes the notes out, for an operation to work on them, and leaves
    /// the manager without notes until they are put back.
    pub(crate) fn take(&mut self) -> (store: Store)
        ensures
            store@ == old(self)@,
            consistent(store@),
            final(self)@ == Seq::<NoteView>::empty(),
    {
        proof {
            use_type_invariant(&*self);
        }
        let mut store = Store::new();
        core::mem::swap(&mut self.store, &mut store);
        store
    }

    /// Puts the notes back.
    pub(crate) fn put(&mut self, store: Store)
        requires
            consistent(store@),
        ensures
            final(self)@ == store@,
    {
        self.store = store;
    }

    /// The number of notes in the store.
    pub fn len(&self) -> (count: usize)
        ensures
            count == self@.len(),
            consistent(self@),
    {
        proof {
            use_type_invariant(self);
        }
        self.store.len()
    }
}

} // verus!
