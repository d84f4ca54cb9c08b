use branch_core::errors::ChangeError;
use branch_core::manager::NotesManager;
use branch_core::manager_impl::{
    AddBranch, AddLink, AddNote, ChangeBranch, ChangeLink, ChangeNote, ReadBranch, ReadLink,
    ReadNote,
};
use branch_core::types::{BranchId, FLink, Note, NoteId};

fn note(id: &str) -> Note {
    Note::new(format!("title {id}"), None, format!("body {id}")).set_id(id.to_string())
}

fn id(token: &str) -> NoteId {
    NoteId::new_test(token.to_string())
}

fn store(ids: &[&str]) -> NotesManager {
    let mut manager = NotesManager::default();
    for token in ids {
        manager.add_note(note(token)).unwrap();
    }
    manager
}

#[test]
fn change_note_title_sets_the_title_only() {
    let mut manager = store(&["a", "b"]);
    manager.add_link(id("a"), id("b"), "r".to_string()).unwrap();
    assert_eq!(manager.change_note_title(id("b"), "new".to_string()), Ok(()));
    let changed = manager.read_note(id("b")).unwrap();
    assert_eq!(changed.title, "new");
    assert_eq!(changed.body, "body b");
    assert_eq!(changed.subtitle, None);
    assert_eq!(changed.backlinks, vec![id("a")]);
    assert_eq!(manager.read_note(id("a")).unwrap().title, "title a");
}

#[test]
fn change_note_subtitle_sets_the_subtitle() {
    let mut manager = store(&["a"]);
    assert_eq!(
        manager.change_note_subtitle(id("a"), "sub".to_string()),
        Ok(())
    );
    let changed = manager.read_note(id("a")).unwrap();
    assert_eq!(changed.subtitle, Some("sub".to_string()));
    assert_eq!(changed.title, "title a");
}

#[test]
fn change_note_body_sets_the_body() {
    let mut manager = store(&["a"]);
    assert_eq!(manager.change_note_body(id("a"), "text".to_string()), Ok(()));
    let changed = manager.read_note(id("a")).unwrap();
    assert_eq!(changed.body, "text");
    assert_eq!(changed.title, "title a");
}

#[test]
fn mark_and_unmark() {
    let mut manager = store(&["a", "b"]);
    assert_eq!(manager.mark_note(id("a")), Ok(()));
    assert!(manager.read_note(id("a")).unwrap().marked);
    assert!(!manager.read_note(id("b")).unwrap().marked);
    assert_eq!(manager.mark_note(id("a")), Ok(()));
    assert!(manager.read_note(id("a")).unwrap().marked);
    assert_eq!(manager.unmark_note(id("a")), Ok(()));
    assert!(!manager.read_note(id("a")).unwrap().marked);
}

#[test]
fn change_note_missing() {
    let mut manager = store(&["a"]);
    let missing = Err(ChangeError::NoteDoesNotExist);
    assert_eq!(manager.change_note_title(id("z"), "t".to_string()), missing);
    assert_eq!(manager.change_note_subtitle(id("z"), "t".to_string()), missing);
    assert_eq!(manager.change_note_body(id("z"), "t".to_string()), missing);
    assert_eq!(manager.mark_note(id("z")), missing);
    assert_eq!(manager.unmark_note(id("z")), missing);
    let kept = manager.read_note(id("a")).unwrap();
    assert_eq!(kept.title, "title a");
    assert_eq!(kept.body, "body a");
    assert!(!kept.marked);
    assert_eq!(manager.len(), 1);
}

#[test]
fn reconsile_nodes_changes_nothing() {
    let mut manager = store(&["a", "b"]);
    manager.add_link(id("a"), id("b"), "r".to_string()).unwrap();
    assert_eq!(manager.reconsile_nodes(), Ok(()));
    assert_eq!(manager.len(), 2);
    assert_eq!(manager.list_backlinks(id("b")).unwrap(), vec![&id("a")]);
    assert_eq!(manager.list_pure_links(id("a")).unwrap().len(), 1);
}

#[test]
fn change_link_reason_sets_the_reason() {
    let mut manager = store(&["a", "b", "c"]);
    manager.add_link(id("a"), id("b"), "r1".to_string()).unwrap();
    manager.add_link(id("a"), id("c"), "r2".to_string()).unwrap();
    assert_eq!(
        manager.change_link_reason(id("a"), id("c"), "new".to_string()),
        Ok(())
    );
    let links = manager.list_pure_links(id("a")).unwrap();
    assert_eq!(links[0].id, id("b"));
    assert_eq!(links[0].reason, "r1");
    assert_eq!(links[1].id, id("c"));
    assert_eq!(links[1].reason, "new");
    assert_eq!(manager.list_backlinks(id("c")).unwrap(), vec![&id("a")]);
}

#[test]
fn change_link_reason_errors() {
    let mut manager = store(&["a", "b"]);
    let branch = manager.create_branching(id("a"), "c".to_string()).unwrap();
    manager
        .add_branch(id("a"), branch.clone(), id("b"), "arm".to_string())
        .unwrap();
    assert_eq!(
        manager.change_link_reason(id("z"), id("b"), "n".to_string()),
        Err(ChangeError::NoteDoesNotExist)
    );
    assert_eq!(
        manager.change_link_reason(id("a"), id("b"), "n".to_string()),
        Err(ChangeError::LinkDoesNotExist)
    );
    assert_eq!(
        manager.change_link_reason(id("a"), id("z"), "n".to_string()),
        Err(ChangeError::LinkDoesNotExist)
    );
    assert_eq!(
        manager.list_branch_links(id("a"), branch).unwrap()[0].reason,
        "arm"
    );
}

#[test]
fn change_branch_condition_sets_the_condition() {
    let mut manager = store(&["a", "b"]);
    let branch = manager.create_branching(id("a"), "old".to_string()).unwrap();
    manager
        .add_branch(id("a"), branch.clone(), id("b"), "arm".to_string())
        .unwrap();
    assert_eq!(
        manager.change_branch_condition(id("a"), branch.clone(), "new".to_string()),
        Ok(())
    );
    let edges = manager.list_forwardlinks(id("a")).unwrap();
    match edges[0] {
        FLink::Branch(found) => {
            assert_eq!(found.condition, "new");
            assert_eq!(found.get_id(), branch);
            assert_eq!(found.branches.len(), 1);
            assert_eq!(found.branches[0].reason, "arm");
        }
        FLink::Link(_) => panic!("the branch stays a branch"),
    }
}

#[test]
fn change_branch_condition_errors() {
    let mut manager = store(&["a"]);
    let branch = manager.create_branching(id("a"), "old".to_string()).unwrap();
    assert_eq!(
        manager.change_branch_condition(id("z"), branch, "n".to_string()),
        Err(ChangeError::NoteDoesNotExist)
    );
    assert_eq!(
        manager.change_branch_condition(
            id("a"),
            BranchId::new_test("none".to_string()),
            "n".to_string()
        ),
        Err(ChangeError::BranchDoesNotExist)
    );
    match manager.list_forwardlinks(id("a")).unwrap()[0] {
        FLink::Branch(found) => assert_eq!(found.condition, "old"),
        FLink::Link(_) => panic!("the branch stays a branch"),
    }
}

#[test]
fn change_branch_reason_sets_the_reason() {
    let mut manager = store(&["a", "b", "c"]);
    let branch = manager.create_branching(id("a"), "c".to_string()).unwrap();
    manager
        .add_branch(id("a"), branch.clone(), id("b"), "then".to_string())
        .unwrap();
    manager
        .add_branch(id("a"), branch.clone(), id("c"), "else".to_string())
        .unwrap();
    assert_eq!(
        manager.change_branch_reason(id("a"), branch.clone(), id("c"), "otherwise".to_string()),
        Ok(())
    );
    let arms = manager.list_branch_links(id("a"), branch).unwrap();
    assert_eq!(arms[0].id, id("b"));
    assert_eq!(arms[0].reason, "then");
    assert_eq!(arms[1].id, id("c"));
    assert_eq!(arms[1].reason, "otherwise");
    assert_eq!(manager.list_backlinks(id("c")).unwrap(), vec![&id("a")]);
}

#[test]
fn change_branch_reason_errors() {
    let mut manager = store(&["a", "b", "c"]);
    let branch = manager.create_branching(id("a"), "c".to_string()).unwrap();
    manager
        .add_branch(id("a"), branch.clone(), id("b"), "then".to_string())
        .unwrap();
    manager.add_link(id("a"), id("c"), "plain".to_string()).unwrap();
    assert_eq!(
        manager.change_branch_reason(id("z"), branch.clone(), id("b"), "n".to_string()),
        Err(ChangeError::NoteDoesNotExist)
    );
    assert_eq!(
        manager.change_branch_reason(
            id("a"),
            BranchId::new_test("none".to_string()),
            id("b"),
            "n".to_string()
        ),
        Err(ChangeError::BranchDoesNotExist)
    );
    assert_eq!(
        manager.change_branch_reason(id("a"), branch.clone(), id("c"), "n".to_string()),
        Err(ChangeError::LinkDoesNotExist)
    );
    assert_eq!(
        manager.list_branch_links(id("a"), branch).unwrap()[0].reason,
        "then"
    );
    assert_eq!(manager.list_pure_links(id("a")).unwrap()[0].reason, "plain");
}

#[test]
fn collapse_branch_promotes_the_chosen_arm() {
    let mut manager = store(&["a", "b", "c", "d"]);
    manager.add_link(id("a"), id("d"), "plain".to_string()).unwrap();
    let branch = manager.create_branching(id("a"), "c".to_string()).unwrap();
    manager
        .add_branch(id("a"), branch.clone(), id("b"), "then".to_string())
        .unwrap();
    manager
        .add_branch(id("a"), branch.clone(), id("c"), "else".to_string())
        .unwrap();
    assert_eq!(manager.collapse_branch(id("a"), branch, id("c")), Ok(()));
    let edges = manager.list_forwardlinks(id("a")).unwrap();
    assert_eq!(edges.len(), 2);
    let links = manager.list_pure_links(id("a")).unwrap();
    assert_eq!(links.len(), 2);
    assert_eq!(links[0].id, id("d"));
    assert_eq!(links[0].reason, "plain");
    assert_eq!(links[1].id, id("c"));
    assert_eq!(links[1].reason, "else");
    assert!(manager.list_branches(id("a")).unwrap().is_empty());
    assert!(manager.list_backlinks(id("b")).unwrap().is_empty());
    assert_eq!(manager.list_backlinks(id("c")).unwrap(), vec![&id("a")]);
    assert_eq!(manager.list_backlinks(id("d")).unwrap(), vec![&id("a")]);
    assert_eq!(manager.len(), 4);
}

#[test]
fn collapse_branch_without_the_chosen_arm_releases_the_branch() {
    let mut manager = store(&["a", "b", "c"]);
    let branch = manager.create_branching(id("a"), "c".to_string()).unwrap();
    manager
        .add_branch(id("a"), branch.clone(), id("b"), "then".to_string())
        .unwrap();
    assert_eq!(manager.collapse_branch(id("a"), branch, id("c")), Ok(()));
    assert!(manager.list_forwardlinks(id("a")).unwrap().is_empty());
    assert!(manager.list_backlinks(id("b")).unwrap().is_empty());
    assert!(manager.list_backlinks(id("c")).unwrap().is_empty());
    assert_eq!(manager.len(), 3);
}

#[test]
fn collapse_branch_keeps_an_existing_plain_link() {
    let mut manager = store(&["a", "b", "c"]);
    manager.add_link(id("a"), id("b"), "plain".to_string()).unwrap();
    let branch = manager.create_branching(id("a"), "c".to_string()).unwrap();
    manager
        .add_branch(id("a"), branch.clone(), id("b"), "arm".to_string())
        .unwrap();
    manager
        .add_branch(id("a"), branch.clone(), id("c"), "other".to_string())
        .unwrap();
    assert_eq!(manager.collapse_branch(id("a"), branch, id("b")), Ok(()));
    let edges = manager.list_forwardlinks(id("a")).unwrap();
    assert_eq!(edges.len(), 1);
    let links = manager.list_pure_links(id("a")).unwrap();
    assert_eq!(links[0].id, id("b"));
    assert_eq!(links[0].reason, "plain");
    assert_eq!(manager.list_backlinks(id("b")).unwrap(), vec![&id("a")]);
    assert!(manager.list_backlinks(id("c")).unwrap().is_empty());
}

#[test]
fn collapse_branch_keeps_backlink_of_arm_reached_otherwise() {
    let mut manager = store(&["a", "b", "c"]);
    let first = manager.create_branching(id("a"), "c1".to_string()).unwrap();
    let second = manager.create_branching(id("a"), "c2".to_string()).unwrap();
    manager
        .add_branch(id("a"), first.clone(), id("b"), "r1".to_string())
        .unwrap();
    manager
        .add_branch(id("a"), first.clone(), id("c"), "r2".to_string())
        .unwrap();
    manager
        .add_branch(id("a"), second.clone(), id("b"), "r3".to_string())
        .unwrap();
    assert_eq!(manager.collapse_branch(id("a"), first, id("c")), Ok(()));
    assert_eq!(manager.list_backlinks(id("b")).unwrap(), vec![&id("a")]);
    assert_eq!(manager.list_backlinks(id("c")).unwrap(), vec![&id("a")]);
    assert_eq!(manager.list_branches(id("a")).unwrap(), vec![&second]);
    let edges = manager.list_forwardlinks(id("a")).unwrap();
    assert_eq!(edges.len(), 2);
    match edges[1] {
        FLink::Link(link) => {
            assert_eq!(link.id, id("c"));
            assert_eq!(link.reason, "r2");
        }
        FLink::Branch(_) => panic!("the promoted link comes last"),
    }
}

#[test]
fn collapse_branch_errors() {
    let mut manager = store(&["a", "b"]);
    let branch = manager.create_branching(id("a"), "c".to_string()).unwrap();
    manager
        .add_branch(id("a"), branch.clone(), id("b"), "then".to_string())
        .unwrap();
    assert_eq!(
        manager.collapse_branch(id("z"), branch.clone(), id("b")),
        Err(ChangeError::NoteDoesNotExist)
    );
    assert_eq!(
        manager.collapse_branch(id("a"), BranchId::new_test("none".to_string()), id("b")),
        Err(ChangeError::BranchDoesNotExist)
    );
    assert_eq!(manager.list_branches(id("a")).unwrap(), vec![&branch]);
    assert_eq!(manager.list_branch_links(id("a"), branch).unwrap().len(), 1);
    assert_eq!(manager.list_backlinks(id("b")).unwrap(), vec![&id("a")]);
}

#[test]
fn change_error_messages() {
    assert_eq!(ChangeError::NoteDoesNotExist.message(), "Note does not exist");
    assert_eq!(ChangeError::LinkDoesNotExist.message(), "Link does not exist");
    assert_eq!(ChangeError::BranchDoesNotExist.message(), "Branch does not exist");
}
