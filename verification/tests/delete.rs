use branch_core::errors::{DeleteError, ReadError};
use branch_core::manager::NotesManager;
use branch_core::manager_impl::{
    AddBranch, AddLink, AddNote, DeleteBranch, DeleteLink, DeleteNote, ReadBranch, ReadLink,
    ReadNote,
};
use branch_core::types::{BranchId, Note, NoteId};

fn note(id: &str) -> Note {
    Note::new(format!("title {id}"), None, format!("body {id}")).set_id(id.to_string())
}

fn id(token: &str) -> NoteId {
    NoteId::new_test(token.to_string())
}

fn store(ids: &[&str]) -> NotesManager {
    let mut manager = NotesManager::default();
    for token in ids {
        manager.add_note(note(token)).unwrap();
    }
    manager
}

fn link(manager: &mut NotesManager, from: &str, to: &str) {
    manager.add_link(id(from), id(to), format!("{from}->{to}")).unwrap();
}

fn has(manager: &NotesManager, token: &str) -> bool {
    manager.read_note(id(token)).is_ok()
}

#[test]
fn delete_link_removes_an_unreferenced_target() {
    let mut manager = store(&["a", "b"]);
    link(&mut manager, "a", "b");
    assert_eq!(manager.delete_link(id("a"), id("b")), Ok(()));
    assert!(has(&manager, "a"));
    assert!(!has(&manager, "b"));
    assert!(manager.list_forwardlinks(id("a")).unwrap().is_empty());
    assert_eq!(manager.len(), 1);
}

#[test]
fn delete_link_keeps_a_target_that_is_still_referenced() {
    let mut manager = store(&["a", "b", "c"]);
    link(&mut manager, "a", "b");
    link(&mut manager, "c", "b");
    assert_eq!(manager.delete_link(id("a"), id("b")), Ok(()));
    assert!(has(&manager, "b"));
    assert_eq!(manager.list_backlinks(id("b")).unwrap(), vec![&id("c")]);
    assert_eq!(manager.len(), 3);
}

#[test]
fn delete_link_keeps_backlink_while_an_arm_remains() {
    let mut manager = store(&["a", "b"]);
    link(&mut manager, "a", "b");
    let branch = manager.create_branching(id("a"), "c".to_string()).unwrap();
    manager
        .add_branch(id("a"), branch.clone(), id("b"), "arm".to_string())
        .unwrap();
    assert_eq!(manager.delete_link(id("a"), id("b")), Ok(()));
    assert!(has(&manager, "b"));
    assert_eq!(manager.list_backlinks(id("b")).unwrap(), vec![&id("a")]);
    assert!(manager.list_pure_links(id("a")).unwrap().is_empty());
    assert_eq!(manager.list_branch_links(id("a"), branch).unwrap().len(), 1);
}

#[test]
fn delete_link_cascades_along_plain_links() {
    let mut manager = store(&["a", "b", "c", "d", "e"]);
    link(&mut manager, "a", "b");
    link(&mut manager, "b", "c");
    link(&mut manager, "c", "d");
    link(&mut manager, "e", "d");
    assert_eq!(manager.delete_link(id("a"), id("b")), Ok(()));
    assert!(has(&manager, "a"));
    assert!(!has(&manager, "b"));
    assert!(!has(&manager, "c"));
    assert!(has(&manager, "d"));
    assert!(has(&manager, "e"));
    assert_eq!(manager.list_backlinks(id("d")).unwrap(), vec![&id("e")]);
    assert_eq!(manager.len(), 3);
}

#[test]
fn delete_link_leaves_other_links_in_order() {
    let mut manager = store(&["a", "b", "c", "d", "x"]);
    link(&mut manager, "a", "b");
    link(&mut manager, "a", "c");
    link(&mut manager, "a", "d");
    link(&mut manager, "x", "c");
    assert_eq!(manager.delete_link(id("a"), id("c")), Ok(()));
    let links = manager.list_pure_links(id("a")).unwrap();
    assert_eq!(links.len(), 2);
    assert_eq!(links[0].id, id("b"));
    assert_eq!(links[1].id, id("d"));
}

#[test]
fn delete_link_errors() {
    let mut manager = store(&["a", "b", "c"]);
    link(&mut manager, "a", "b");
    let branch = manager.create_branching(id("a"), "cond".to_string()).unwrap();
    manager
        .add_branch(id("a"), branch, id("c"), "arm".to_string())
        .unwrap();
    assert_eq!(
        manager.delete_link(id("z"), id("b")),
        Err(DeleteError::NoteDoesNotExist)
    );
    assert_eq!(
        manager.delete_link(id("a"), id("z")),
        Err(DeleteError::NoteDoesNotExist)
    );
    assert_eq!(
        manager.delete_link(id("b"), id("a")),
        Err(DeleteError::LinkDoesNotExist)
    );
    assert_eq!(
        manager.delete_link(id("a"), id("c")),
        Err(DeleteError::LinkDoesNotExist)
    );
    assert_eq!(manager.len(), 3);
    assert_eq!(manager.list_forwardlinks(id("a")).unwrap().len(), 2);
    assert_eq!(manager.list_backlinks(id("b")).unwrap(), vec![&id("a")]);
    assert_eq!(manager.list_backlinks(id("c")).unwrap(), vec![&id("a")]);
}

#[test]
fn delete_note_without_edges() {
    let mut manager = store(&["a", "b"]);
    assert_eq!(manager.delete_note(id("a")), Ok(()));
    assert!(!has(&manager, "a"));
    assert!(has(&manager, "b"));
    assert_eq!(manager.len(), 1);
}

#[test]
fn delete_note_missing() {
    let mut manager = store(&["a"]);
    assert_eq!(
        manager.delete_note(id("z")),
        Err(DeleteError::NoteDoesNotExist)
    );
    assert_eq!(manager.len(), 1);
    assert_eq!(
        manager.read_note(id("z")).err(),
        Some(ReadError::NoteDoesNotExist)
    );
}

#[test]
fn delete_note_twice_fails_the_second_time() {
    let mut manager = store(&["a"]);
    assert_eq!(manager.delete_note(id("a")), Ok(()));
    assert_eq!(
        manager.delete_note(id("a")),
        Err(DeleteError::NoteDoesNotExist)
    );
    assert_eq!(manager.len(), 0);
}

#[test]
fn delete_root_note_removes_what_it_alone_referenced() {
    let mut manager = store(&["a", "b", "c", "d", "e"]);
    link(&mut manager, "a", "b");
    link(&mut manager, "a", "c");
    link(&mut manager, "b", "d");
    link(&mut manager, "e", "c");
    assert_eq!(manager.delete_note(id("a")), Ok(()));
    assert!(!has(&manager, "a"));
    assert!(!has(&manager, "b"));
    assert!(!has(&manager, "d"));
    assert!(has(&manager, "c"));
    assert!(has(&manager, "e"));
    assert_eq!(manager.list_backlinks(id("c")).unwrap(), vec![&id("e")]);
    assert_eq!(manager.len(), 2);
}

#[test]
fn delete_referenced_note_severs_incoming_links() {
    let mut manager = store(&["a", "b", "c"]);
    link(&mut manager, "a", "c");
    link(&mut manager, "b", "c");
    link(&mut manager, "a", "b");
    assert_eq!(manager.delete_note(id("c")), Ok(()));
    assert!(!has(&manager, "c"));
    assert!(has(&manager, "a"));
    assert!(has(&manager, "b"));
    let links = manager.list_pure_links(id("a")).unwrap();
    assert_eq!(links.len(), 1);
    assert_eq!(links[0].id, id("b"));
    assert!(manager.list_forwardlinks(id("b")).unwrap().is_empty());
    assert_eq!(manager.len(), 2);
}

#[test]
fn delete_referenced_note_severs_incoming_arms() {
    let mut manager = store(&["a", "b", "c"]);
    let branch = manager.create_branching(id("a"), "cond".to_string()).unwrap();
    manager
        .add_branch(id("a"), branch.clone(), id("b"), "then".to_string())
        .unwrap();
    manager
        .add_branch(id("a"), branch.clone(), id("c"), "else".to_string())
        .unwrap();
    link(&mut manager, "a", "b");
    assert_eq!(manager.delete_note(id("b")), Ok(()));
    assert!(!has(&manager, "b"));
    assert!(manager.list_pure_links(id("a")).unwrap().is_empty());
    let arms = manager.list_branch_links(id("a"), branch).unwrap();
    assert_eq!(arms.len(), 1);
    assert_eq!(arms[0].id, id("c"));
    assert_eq!(manager.list_backlinks(id("c")).unwrap(), vec![&id("a")]);
    assert_eq!(manager.len(), 2);
}

#[test]
fn delete_note_keeps_the_targets_of_its_arms() {
    let mut manager = store(&["a", "b", "c"]);
    let branch = manager.create_branching(id("a"), "cond".to_string()).unwrap();
    manager
        .add_branch(id("a"), branch, id("b"), "then".to_string())
        .unwrap();
    link(&mut manager, "a", "c");
    assert_eq!(manager.delete_note(id("a")), Ok(()));
    assert!(!has(&manager, "a"));
    assert!(!has(&manager, "c"));
    assert!(has(&manager, "b"));
    assert!(manager.list_backlinks(id("b")).unwrap().is_empty());
    assert_eq!(manager.len(), 1);
}

#[test]
fn delete_note_in_a_cycle_ends() {
    let mut manager = store(&["a", "b"]);
    link(&mut manager, "a", "b");
    link(&mut manager, "b", "a");
    assert_eq!(manager.delete_note(id("a")), Ok(()));
    assert!(!has(&manager, "a"));
    assert!(!has(&manager, "b"));
    assert_eq!(manager.len(), 0);
}

#[test]
fn delete_note_linked_to_itself() {
    let mut manager = store(&["a", "b"]);
    link(&mut manager, "a", "a");
    link(&mut manager, "a", "b");
    assert_eq!(manager.delete_note(id("a")), Ok(()));
    assert_eq!(manager.len(), 0);
}

#[test]
fn delete_note_leaves_a_cycle_it_only_pointed_to() {
    let mut manager = store(&["r", "a", "b"]);
    link(&mut manager, "r", "a");
    link(&mut manager, "a", "b");
    link(&mut manager, "b", "a");
    assert_eq!(manager.delete_note(id("r")), Ok(()));
    assert!(!has(&manager, "r"));
    assert!(has(&manager, "a"));
    assert!(has(&manager, "b"));
    assert_eq!(manager.list_backlinks(id("a")).unwrap(), vec![&id("b")]);
    assert_eq!(manager.list_backlinks(id("b")).unwrap(), vec![&id("a")]);
}

#[test]
fn delete_note_in_a_longer_cycle_ends() {
    let mut manager = store(&["a", "b", "c", "d"]);
    link(&mut manager, "a", "b");
    link(&mut manager, "b", "c");
    link(&mut manager, "c", "a");
    link(&mut manager, "d", "b");
    assert_eq!(manager.delete_note(id("b")), Ok(()));
    assert!(!has(&manager, "b"));
    assert!(!has(&manager, "c"));
    assert!(!has(&manager, "a"));
    assert!(has(&manager, "d"));
    assert!(manager.list_forwardlinks(id("d")).unwrap().is_empty());
    assert_eq!(manager.len(), 1);
}

#[test]
fn delete_branch_removes_branch_and_backlinks() {
    let mut manager = store(&["a", "b", "c"]);
    link(&mut manager, "a", "c");
    let branch = manager.create_branching(id("a"), "cond".to_string()).unwrap();
    manager
        .add_branch(id("a"), branch.clone(), id("b"), "then".to_string())
        .unwrap();
    manager
        .add_branch(id("a"), branch.clone(), id("c"), "else".to_string())
        .unwrap();
    assert_eq!(manager.delete_branch(id("a"), branch.clone()), Ok(()));
    assert!(manager.list_branches(id("a")).unwrap().is_empty());
    assert_eq!(manager.list_forwardlinks(id("a")).unwrap().len(), 1);
    assert!(has(&manager, "b"));
    assert!(manager.list_backlinks(id("b")).unwrap().is_empty());
    assert_eq!(manager.list_backlinks(id("c")).unwrap(), vec![&id("a")]);
    assert_eq!(
        manager.list_branch_links(id("a"), branch).err(),
        Some(ReadError::BranchDoesNotExist)
    );
    assert_eq!(manager.len(), 3);
}

#[test]
fn delete_branch_without_arms() {
    let mut manager = store(&["a"]);
    let first = manager.create_branching(id("a"), "c1".to_string()).unwrap();
    let second = manager.create_branching(id("a"), "c2".to_string()).unwrap();
    assert_eq!(manager.delete_branch(id("a"), first), Ok(()));
    assert_eq!(manager.list_branches(id("a")).unwrap(), vec![&second]);
}

#[test]
fn delete_branch_errors() {
    let mut manager = store(&["a", "b"]);
    let branch = manager.create_branching(id("a"), "cond".to_string()).unwrap();
    manager
        .add_branch(id("a"), branch.clone(), id("b"), "then".to_string())
        .unwrap();
    assert_eq!(
        manager.delete_branch(id("z"), branch.clone()),
        Err(DeleteError::NoteDoesNotExist)
    );
    assert_eq!(
        manager.delete_branch(id("a"), BranchId::new_test("none".to_string())),
        Err(DeleteError::BranchDoesNotExist)
    );
    assert_eq!(
        manager.delete_branch(id("b"), branch.clone()),
        Err(DeleteError::BranchDoesNotExist)
    );
    assert_eq!(manager.list_branch_links(id("a"), branch).unwrap().len(), 1);
    assert_eq!(manager.list_backlinks(id("b")).unwrap(), vec![&id("a")]);
}

#[test]
fn delete_branch_link_removes_arm_and_backlink() {
    let mut manager = store(&["a", "b", "c"]);
    let branch = manager.create_branching(id("a"), "cond".to_string()).unwrap();
    manager
        .add_branch(id("a"), branch.clone(), id("b"), "then".to_string())
        .unwrap();
    manager
        .add_branch(id("a"), branch.clone(), id("c"), "else".to_string())
        .unwrap();
    assert_eq!(
        manager.delete_branch_link(id("a"), branch.clone(), id("b")),
        Ok(())
    );
    let arms = manager.list_branch_links(id("a"), branch.clone()).unwrap();
    assert_eq!(arms.len(), 1);
    assert_eq!(arms[0].id, id("c"));
    assert!(has(&manager, "b"));
    assert!(manager.list_backlinks(id("b")).unwrap().is_empty());
    assert_eq!(manager.list_backlinks(id("c")).unwrap(), vec![&id("a")]);
}

#[test]
fn delete_branch_link_leaves_an_empty_branch() {
    let mut manager = store(&["a", "b"]);
    let branch = manager.create_branching(id("a"), "cond".to_string()).unwrap();
    manager
        .add_branch(id("a"), branch.clone(), id("b"), "then".to_string())
        .unwrap();
    assert_eq!(
        manager.delete_branch_link(id("a"), branch.clone(), id("b")),
        Ok(())
    );
    assert_eq!(manager.list_branches(id("a")).unwrap(), vec![&branch]);
    assert!(manager.list_branch_links(id("a"), branch).unwrap().is_empty());
    assert_eq!(manager.len(), 2);
}

#[test]
fn delete_branch_link_keeps_backlink_while_a_link_remains() {
    let mut manager = store(&["a", "b"]);
    link(&mut manager, "a", "b");
    let branch = manager.create_branching(id("a"), "cond".to_string()).unwrap();
    manager
        .add_branch(id("a"), branch.clone(), id("b"), "then".to_string())
        .unwrap();
    assert_eq!(manager.delete_branch_link(id("a"), branch, id("b")), Ok(()));
    assert_eq!(manager.list_backlinks(id("b")).unwrap(), vec![&id("a")]);
}

#[test]
fn delete_branch_link_errors() {
    let mut manager = store(&["a", "b", "c"]);
    let branch = manager.create_branching(id("a"), "cond".to_string()).unwrap();
    manager
        .add_branch(id("a"), branch.clone(), id("b"), "then".to_string())
        .unwrap();
    link(&mut manager, "a", "c");
    assert_eq!(
        manager.delete_branch_link(id("z"), branch.clone(), id("b")),
        Err(DeleteError::NoteDoesNotExist)
    );
    assert_eq!(
        manager.delete_branch_link(id("a"), BranchId::new_test("none".to_string()), id("b")),
        Err(DeleteError::BranchDoesNotExist)
    );
    assert_eq!(
        manager.delete_branch_link(id("a"), branch.clone(), id("z")),
        Err(DeleteError::NoteDoesNotExist)
    );
    assert_eq!(
        manager.delete_branch_link(id("a"), branch.clone(), id("c")),
        Err(DeleteError::LinkDoesNotExist)
    );
    assert_eq!(manager.list_branch_links(id("a"), branch).unwrap().len(), 1);
    assert_eq!(manager.list_backlinks(id("b")).unwrap(), vec![&id("a")]);
    assert_eq!(manager.list_backlinks(id("c")).unwrap(), vec![&id("a")]);
}

#[test]
fn delete_error_messages() {
    assert_eq!(DeleteError::NoteDoesNotExist.message(), "Note does not exist");
    assert_eq!(DeleteError::LinkDoesNotExist.message(), "Link does not exist");
    assert_eq!(DeleteError::BranchDoesNotExist.message(), "Branch does not exist");
    assert_eq!(DeleteError::BranchNotEmpty.message(), "Branch is not empty");
}
