use branch_core::errors::ReadError;
use branch_core::manager::NotesManager;
use branch_core::manager_impl::{
    AddBranch, AddLink, AddNote, ChangeNote, ReadBranch, ReadLink, ReadNote,
};
use branch_core::types::{BranchId, FLink, Note, NoteId};

fn note(id: &str) -> Note {
    Note::new(format!("title {id}"), None, format!("body {id}")).set_id(id.to_string())
}

fn id(token: &str) -> NoteId {
    NoteId::new_test(token.to_string())
}

fn store(ids: &[&str]) -> NotesManager {
    let mut manager = NotesManager::default();
    for token in ids {
        manager.add_note(note(token)).unwrap();
    }
    manager
}

#[test]
fn read_note_finds_the_note() {
    let manager = store(&["a", "b"]);
    let found = manager.read_note(id("b")).unwrap();
    assert_eq!(found.get_id(), id("b"));
    assert_eq!(found.title, "title b");
}

#[test]
fn read_note_missing() {
    let manager = store(&["a"]);
    assert_eq!(
        manager.read_note(id("z")).err(),
        Some(ReadError::NoteDoesNotExist)
    );
}

#[test]
fn list_root_notes_lists_notes_without_backlinks() {
    let mut manager = store(&["a", "b", "c", "d"]);
    manager.add_link(id("a"), id("b"), "r".to_string()).unwrap();
    let branch = manager.create_branching(id("c"), "cond".to_string()).unwrap();
    manager
        .add_branch(id("c"), branch, id("d"), "arm".to_string())
        .unwrap();
    assert_eq!(manager.list_root_notes().unwrap(), vec![&id("a"), &id("c")]);
}

#[test]
fn list_root_notes_of_an_empty_store() {
    let manager = NotesManager::default();
    assert!(manager.list_root_notes().unwrap().is_empty());
}

#[test]
fn list_forwardlinks_keeps_the_order_of_insertion() {
    let mut manager = store(&["a", "b", "c"]);
    manager.add_link(id("a"), id("b"), "r1".to_string()).unwrap();
    let branch = manager.create_branching(id("a"), "cond".to_string()).unwrap();
    manager.add_link(id("a"), id("c"), "r2".to_string()).unwrap();
    let edges = manager.list_forwardlinks(id("a")).unwrap();
    assert_eq!(edges.len(), 3);
    assert!(matches!(edges[0], FLink::Link(link) if link.id == id("b")));
    assert!(matches!(edges[1], FLink::Branch(found) if found.get_id() == branch));
    assert!(matches!(edges[2], FLink::Link(link) if link.id == id("c")));
}

#[test]
fn list_unmarked_forwardlinks_leaves_out_marked_targets() {
    let mut manager = store(&["a", "b", "c", "d", "e"]);
    manager.add_link(id("a"), id("b"), "r1".to_string()).unwrap();
    manager.add_link(id("a"), id("c"), "r2".to_string()).unwrap();
    let first = manager.create_branching(id("a"), "c1".to_string()).unwrap();
    manager
        .add_branch(id("a"), first.clone(), id("b"), "x".to_string())
        .unwrap();
    manager
        .add_branch(id("a"), first.clone(), id("d"), "y".to_string())
        .unwrap();
    let second = manager.create_branching(id("a"), "c2".to_string()).unwrap();
    manager
        .add_branch(id("a"), second, id("b"), "z".to_string())
        .unwrap();
    manager.create_branching(id("a"), "c3".to_string()).unwrap();
    manager.mark_note(id("b")).unwrap();
    let edges = manager.list_unmarked_forwardlinks(id("a")).unwrap();
    assert_eq!(edges.len(), 2);
    assert!(matches!(edges[0], FLink::Link(link) if link.id == id("c")));
    assert!(matches!(edges[1], FLink::Branch(found) if found.get_id() == first));
    manager.mark_note(id("d")).unwrap();
    manager.mark_note(id("c")).unwrap();
    assert!(manager
        .list_unmarked_forwardlinks(id("a"))
        .unwrap()
        .is_empty());
    manager.unmark_note(id("b")).unwrap();
    assert_eq!(manager.list_unmarked_forwardlinks(id("a")).unwrap().len(), 3);
}

#[test]
fn list_pure_links_leaves_out_branches() {
    let mut manager = store(&["a", "b", "c"]);
    let branch = manager.create_branching(id("a"), "cond".to_string()).unwrap();
    manager
        .add_branch(id("a"), branch, id("c"), "arm".to_string())
        .unwrap();
    manager.add_link(id("a"), id("b"), "r".to_string()).unwrap();
    let links = manager.list_pure_links(id("a")).unwrap();
    assert_eq!(links.len(), 1);
    assert_eq!(links[0].id, id("b"));
    assert_eq!(links[0].reason, "r");
}

#[test]
fn list_backlinks_keeps_the_order_of_arrival() {
    let mut manager = store(&["a", "b", "c", "t"]);
    manager.add_link(id("c"), id("t"), "r".to_string()).unwrap();
    manager.add_link(id("a"), id("t"), "r".to_string()).unwrap();
    manager.add_link(id("b"), id("t"), "r".to_string()).unwrap();
    assert_eq!(
        manager.list_backlinks(id("t")).unwrap(),
        vec![&id("c"), &id("a"), &id("b")]
    );
}

#[test]
fn list_branches_lists_branch_identifiers() {
    let mut manager = store(&["a", "b"]);
    let first = manager.create_branching(id("a"), "c1".to_string()).unwrap();
    manager.add_link(id("a"), id("b"), "r".to_string()).unwrap();
    let second = manager.create_branching(id("a"), "c2".to_string()).unwrap();
    assert_eq!(manager.list_branches(id("a")).unwrap(), vec![&first, &second]);
    assert!(manager.list_branches(id("b")).unwrap().is_empty());
}

#[test]
fn list_branch_links_lists_the_arms() {
    let mut manager = store(&["a", "b", "c"]);
    let branch = manager.create_branching(id("a"), "cond".to_string()).unwrap();
    manager
        .add_branch(id("a"), branch.clone(), id("c"), "first".to_string())
        .unwrap();
    manager
        .add_branch(id("a"), branch.clone(), id("b"), "second".to_string())
        .unwrap();
    let arms = manager.list_branch_links(id("a"), branch).unwrap();
    assert_eq!(arms.len(), 2);
    assert_eq!(arms[0].id, id("c"));
    assert_eq!(arms[0].reason, "first");
    assert_eq!(arms[1].id, id("b"));
    assert_eq!(arms[1].reason, "second");
}

#[test]
fn list_functions_refuse_a_missing_note() {
    let manager = store(&["a"]);
    let missing = Some(ReadError::NoteDoesNotExist);
    assert_eq!(manager.list_forwardlinks(id("z")).err(), missing);
    assert_eq!(manager.list_unmarked_forwardlinks(id("z")).err(), missing);
    assert_eq!(manager.list_pure_links(id("z")).err(), missing);
    assert_eq!(manager.list_backlinks(id("z")).err(), missing);
    assert_eq!(manager.list_branches(id("z")).err(), missing);
    assert_eq!(
        manager
            .list_branch_links(id("z"), BranchId::new_test("b".to_string()))
            .err(),
        missing
    );
}

#[test]
fn list_branch_links_refuses_a_missing_branch() {
    let mut manager = store(&["a"]);
    manager.create_branching(id("a"), "cond".to_string()).unwrap();
    assert_eq!(
        manager
            .list_branch_links(id("a"), BranchId::new_test("none".to_string()))
            .err(),
        Some(ReadError::BranchDoesNotExist)
    );
}

#[test]
fn read_error_messages() {
    assert_eq!(ReadError::NoteDoesNotExist.message(), "Note does not exist");
    assert_eq!(ReadError::BranchDoesNotExist.message(), "Branch does not exist");
}
