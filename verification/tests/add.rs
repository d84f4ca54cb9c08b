use branch_core::errors::AddError;
use branch_core::manager::NotesManager;
use branch_core::manager_impl::{AddBranch, AddLink, AddNote, ReadBranch, ReadLink, ReadNote};
use branch_core::types::{BranchId, FLink, Link, Note, NoteId};

fn note(id: &str) -> Note {
    Note::new(format!("title {id}"), None, format!("body {id}")).set_id(id.to_string())
}

fn id(token: &str) -> NoteId {
    NoteId::new_test(token.to_string())
}

fn store(ids: &[&str]) -> NotesManager {
    let mut manager = NotesManager::default();
    for token in ids {
        manager.add_note(note(token)).unwrap();
    }
    manager
}

#[test]
fn test_add_verify() {
    let mut manager = NotesManager::default();
    let note = Note::new(
        "title".to_string(),
        Some("subtitle".to_string()),
        "body".to_string(),
    );

    let note = note.set_id("00000".to_string());

    let note_id = manager.add_note(note).unwrap();

    assert_eq!(manager.len(), 1);
    assert_eq!(note_id, NoteId::new_test("00000".to_string()));
}

#[test]
fn test_duplicate_note() {
    let mut manager = NotesManager::default();
    let note = Note::new(
        "title".to_string(),
        Some("subtitle".to_string()),
        "body".to_string(),
    );

    let note = note.set_id("00000".to_string());

    let note_id = manager.add_note(note.clone());

    assert!(note_id.is_ok());

    let note_id = manager.add_note(note);

    assert!(note_id.is_err());
    assert_eq!(manager.len(), 1);
    assert_eq!(&note_id.unwrap_err(), &AddError::NoteAlreadyExists);
}

#[test]
fn new_store_is_empty() {
    assert_eq!(NotesManager::new().len(), 0);
    assert_eq!(NotesManager::default().len(), 0);
}

#[test]
fn fresh_identifiers_differ() {
    assert_ne!(NoteId::new(), NoteId::new());
    assert_ne!(BranchId::new(), BranchId::new());
}

#[test]
fn fresh_identifier_has_twenty_one_characters() {
    let shown = format!("{:?}", NoteId::new());
    assert_eq!(shown.chars().count(), "NoteId(\"\")".len() + 21);
    let shown = format!("{:?}", BranchId::new());
    assert_eq!(shown.chars().count(), "BranchId(\"\")".len() + 21);
}

#[test]
fn identifiers_compare_by_token() {
    assert_eq!(id("a"), id("a"));
    assert_ne!(id("a"), id("b"));
    assert_eq!(id("a").clone(), id("a"));
    assert_eq!(
        BranchId::new_test("x".to_string()),
        BranchId::new_test("x".to_string())
    );
    assert_ne!(
        BranchId::new_test("x".to_string()),
        BranchId::new_test("y".to_string())
    );
}

#[test]
fn new_note_holds_what_it_was_given() {
    let made = Note::new("T".to_string(), Some("S".to_string()), "B".to_string());
    assert_eq!(made.title, "T");
    assert_eq!(made.subtitle, Some("S".to_string()));
    assert_eq!(made.body, "B");
    assert!(!made.marked);
    assert!(made.backlinks.is_empty());
    assert!(made.forwardlinks.is_empty());
    assert_eq!(made.get_id(), made.id);
}

#[test]
fn set_id_changes_the_identifier_only() {
    let made = Note::new("T".to_string(), None, "B".to_string());
    let stamp = made.timestamp;
    let renamed = made.set_id("n".to_string());
    assert_eq!(renamed.get_id(), id("n"));
    assert_eq!(renamed.title, "T");
    assert_eq!(renamed.subtitle, None);
    assert_eq!(renamed.body, "B");
    assert_eq!(renamed.timestamp, stamp);
}

#[test]
fn add_note_keeps_content_and_timestamp() {
    let mut manager = NotesManager::default();
    let made = Note::new("T".to_string(), Some("S".to_string()), "B".to_string())
        .set_id("n".to_string());
    let stamp = made.timestamp;
    manager.add_note(made).unwrap();
    let stored = manager.read_note(id("n")).unwrap();
    assert_eq!(stored.title, "T");
    assert_eq!(stored.subtitle, Some("S".to_string()));
    assert_eq!(stored.body, "B");
    assert_eq!(stored.timestamp, stamp);
    assert!(!stored.marked);
}

#[test]
fn add_note_takes_the_note_without_edges() {
    let mut manager = store(&["a"]);
    let mut made = note("b");
    made.forwardlinks.push(FLink::Link(Link {
        id: id("missing"),
        reason: "r".to_string(),
    }));
    made.backlinks.push(id("a"));
    assert_eq!(manager.add_note(made), Ok(id("b")));
    let stored = manager.read_note(id("b")).unwrap();
    assert!(stored.forwardlinks.is_empty());
    assert!(stored.backlinks.is_empty());
}

#[test]
fn add_link_appends_link_and_backlink() {
    let mut manager = store(&["a", "b", "c"]);
    assert_eq!(manager.add_link(id("a"), id("b"), "r1".to_string()), Ok(()));
    assert_eq!(manager.add_link(id("a"), id("c"), "r2".to_string()), Ok(()));
    assert_eq!(manager.add_link(id("c"), id("b"), "r3".to_string()), Ok(()));
    let links = manager.list_pure_links(id("a")).unwrap();
    assert_eq!(links.len(), 2);
    assert_eq!(links[0].id, id("b"));
    assert_eq!(links[0].reason, "r1");
    assert_eq!(links[1].id, id("c"));
    assert_eq!(links[1].reason, "r2");
    assert_eq!(
        manager.list_backlinks(id("b")).unwrap(),
        vec![&id("a"), &id("c")]
    );
    assert_eq!(manager.list_backlinks(id("c")).unwrap(), vec![&id("a")]);
    assert!(manager.list_backlinks(id("a")).unwrap().is_empty());
}

#[test]
fn add_link_to_itself() {
    let mut manager = store(&["a"]);
    assert_eq!(manager.add_link(id("a"), id("a"), "r".to_string()), Ok(()));
    assert_eq!(manager.list_backlinks(id("a")).unwrap(), vec![&id("a")]);
    assert_eq!(manager.list_pure_links(id("a")).unwrap().len(), 1);
}

#[test]
fn add_link_missing_source() {
    let mut manager = store(&["b"]);
    assert_eq!(
        manager.add_link(id("a"), id("b"), "r".to_string()),
        Err(AddError::NoteDoesNotExist)
    );
    assert!(manager.list_backlinks(id("b")).unwrap().is_empty());
    assert_eq!(manager.len(), 1);
}

#[test]
fn add_link_missing_target() {
    let mut manager = store(&["a"]);
    assert_eq!(
        manager.add_link(id("a"), id("b"), "r".to_string()),
        Err(AddError::NoteDoesNotExist)
    );
    assert!(manager.list_forwardlinks(id("a")).unwrap().is_empty());
    assert_eq!(manager.len(), 1);
}

#[test]
fn add_link_twice_is_refused() {
    let mut manager = store(&["a", "b"]);
    manager.add_link(id("a"), id("b"), "r".to_string()).unwrap();
    assert_eq!(
        manager.add_link(id("a"), id("b"), "r2".to_string()),
        Err(AddError::LinkAlreadyExists)
    );
    let links = manager.list_pure_links(id("a")).unwrap();
    assert_eq!(links.len(), 1);
    assert_eq!(links[0].reason, "r");
    assert_eq!(manager.list_backlinks(id("b")).unwrap(), vec![&id("a")]);
}

#[test]
fn add_link_beside_an_arm_to_the_same_note() {
    let mut manager = store(&["a", "b"]);
    let branch = manager.create_branching(id("a"), "c".to_string()).unwrap();
    manager
        .add_branch(id("a"), branch, id("b"), "arm".to_string())
        .unwrap();
    assert_eq!(manager.add_link(id("a"), id("b"), "r".to_string()), Ok(()));
    assert_eq!(manager.list_backlinks(id("b")).unwrap(), vec![&id("a")]);
    assert_eq!(manager.list_forwardlinks(id("a")).unwrap().len(), 2);
}

#[test]
fn create_branching_opens_an_empty_branch() {
    let mut manager = store(&["a"]);
    let first = manager.create_branching(id("a"), "x>0".to_string()).unwrap();
    let second = manager.create_branching(id("a"), "y>0".to_string()).unwrap();
    assert_ne!(first, second);
    assert_eq!(manager.list_branches(id("a")).unwrap(), vec![&first, &second]);
    assert!(manager
        .list_branch_links(id("a"), first.clone())
        .unwrap()
        .is_empty());
    let edges = manager.list_forwardlinks(id("a")).unwrap();
    match edges[0] {
        FLink::Branch(branch) => {
            assert_eq!(branch.get_id(), first);
            assert_eq!(branch.condition, "x>0");
            assert!(branch.branches.is_empty());
        }
        FLink::Link(_) => panic!("a branch was added"),
    }
}

#[test]
fn create_branching_missing_note() {
    let mut manager = store(&["a"]);
    assert_eq!(
        manager.create_branching(id("b"), "c".to_string()),
        Err(AddError::NoteDoesNotExist)
    );
    assert!(manager.list_forwardlinks(id("a")).unwrap().is_empty());
}

#[test]
fn create_branching_with_a_given_identifier() {
    let mut manager = store(&["a", "b"]);
    let branch = BranchId::new_test("B1".to_string());
    assert_eq!(
        manager.create_branching_with(id("a"), "c".to_string(), branch.clone()),
        Ok(branch.clone())
    );
    assert_eq!(
        manager.create_branching_with(id("a"), "d".to_string(), branch.clone()),
        Err(AddError::BranchAlreadyExists)
    );
    assert_eq!(manager.list_branches(id("a")).unwrap(), vec![&branch]);
    assert_eq!(
        manager.create_branching_with(id("b"), "e".to_string(), branch.clone()),
        Ok(branch.clone())
    );
    assert_eq!(
        manager.create_branching_with(id("z"), "e".to_string(), branch),
        Err(AddError::NoteDoesNotExist)
    );
}

#[test]
fn branch_new_has_no_arms() {
    let branch = branch_core::types::Branch::new("c".to_string());
    assert_eq!(branch.condition, "c");
    assert!(branch.branches.is_empty());
    assert_eq!(branch.get_id(), branch.id);
}

#[test]
fn add_branch_appends_arm_and_backlink() {
    let mut manager = store(&["a", "b", "c"]);
    let branch = manager.create_branching(id("a"), "cond".to_string()).unwrap();
    assert_eq!(
        manager.add_branch(id("a"), branch.clone(), id("b"), "then".to_string()),
        Ok(())
    );
    assert_eq!(
        manager.add_branch(id("a"), branch.clone(), id("c"), "else".to_string()),
        Ok(())
    );
    let arms = manager.list_branch_links(id("a"), branch).unwrap();
    assert_eq!(arms.len(), 2);
    assert_eq!(arms[0].id, id("b"));
    assert_eq!(arms[0].reason, "then");
    assert_eq!(arms[1].id, id("c"));
    assert_eq!(arms[1].reason, "else");
    assert_eq!(manager.list_backlinks(id("b")).unwrap(), vec![&id("a")]);
    assert_eq!(manager.list_backlinks(id("c")).unwrap(), vec![&id("a")]);
}

#[test]
fn add_branch_same_target_in_two_branches_lists_source_once() {
    let mut manager = store(&["a", "b"]);
    let first = manager.create_branching(id("a"), "c1".to_string()).unwrap();
    let second = manager.create_branching(id("a"), "c2".to_string()).unwrap();
    manager
        .add_branch(id("a"), first, id("b"), "r1".to_string())
        .unwrap();
    manager
        .add_branch(id("a"), second, id("b"), "r2".to_string())
        .unwrap();
    assert_eq!(manager.list_backlinks(id("b")).unwrap(), vec![&id("a")]);
}

#[test]
fn add_branch_missing_note() {
    let mut manager = store(&["a", "b"]);
    let branch = manager.create_branching(id("a"), "c".to_string()).unwrap();
    assert_eq!(
        manager.add_branch(id("z"), branch.clone(), id("b"), "r".to_string()),
        Err(AddError::NoteDoesNotExist)
    );
    assert_eq!(
        manager.add_branch(id("a"), branch.clone(), id("z"), "r".to_string()),
        Err(AddError::NoteDoesNotExist)
    );
    assert!(manager.list_branch_links(id("a"), branch).unwrap().is_empty());
    assert!(manager.list_backlinks(id("b")).unwrap().is_empty());
}

#[test]
fn add_branch_missing_branch() {
    let mut manager = store(&["a", "b"]);
    manager.create_branching(id("a"), "c".to_string()).unwrap();
    assert_eq!(
        manager.add_branch(
            id("a"),
            BranchId::new_test("none".to_string()),
            id("b"),
            "r".to_string()
        ),
        Err(AddError::BranchDoesNotExist)
    );
    assert!(manager.list_backlinks(id("b")).unwrap().is_empty());
}

#[test]
fn add_branch_twice_is_refused() {
    let mut manager = store(&["a", "b"]);
    let branch = manager.create_branching(id("a"), "c".to_string()).unwrap();
    manager
        .add_branch(id("a"), branch.clone(), id("b"), "r".to_string())
        .unwrap();
    assert_eq!(
        manager.add_branch(id("a"), branch.clone(), id("b"), "r2".to_string()),
        Err(AddError::BranchAlreadyExists)
    );
    let arms = manager.list_branch_links(id("a"), branch).unwrap();
    assert_eq!(arms.len(), 1);
    assert_eq!(arms[0].reason, "r");
}

#[test]
fn add_error_messages() {
    assert_eq!(AddError::NoteAlreadyExists.message(), "Note already exists");
    assert_eq!(AddError::NoteDoesNotExist.message(), "Note does not exist");
    assert_eq!(AddError::LinkAlreadyExists.message(), "Link already exists");
    assert_eq!(AddError::BranchAlreadyExists.message(), "Branch already exists");
    assert_eq!(AddError::BranchDoesNotExist.message(), "Branch does not exist");
}
