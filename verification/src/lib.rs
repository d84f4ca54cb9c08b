//! In-memory graph engine for branching notes.
//!
//! Notes are connected by directed links that carry a reason. A branch
//! groups several alternative links (its arms) under one condition. The
//! [`manager::NotesManager`] owns the notes and keeps every back-link list
//! in step with the forward edges: adding, changing, collapsing and
//! deleting all leave the store consistent, and every refused call leaves
//! it as it was.
//!
//! * [`types`] holds the values a note is made of, [`errors`] the refusals.
//! * [`manager_impl`] states, capability by capability, what each operation
//!   does; [`manager`] is the store that has them all.
//! * [`graph`] is the model the contracts speak of: what a consistent store
//!   is, when an operation is refused, and what it makes of the store.
//!   [`effects`] says the same note by note, as a caller sees it, and
//!   [`laws`] what holds of every consistent store.
//! * [`consistency`], [`termination`] and [`deletion`] prove that the steps
//!   keep a store consistent, that a deletion ends, and what it leaves.
//! * [`search`] finds the first element of a sequence that meets a
//!   condition; [`outside`] is the identifier generator and the clock. The
//!   notes as they are held and searched stay inside the crate.
pub mod consistency;
pub mod deletion;
pub mod effects;
pub mod errors;
pub mod graph;
pub mod laws;
mod lookup;
pub mod manager;
pub mod manager_impl;
pub mod outside;
pub mod search;
mod store;
pub mod termination;
pub mod types;
