use branch_core::errors::{AddError, ReadError};
use branch_core::manager::NotesManager;
use branch_core::manager_impl::{
    Add, AddBranch, AddLink, AddNote, Change, ChangeBranch, Delete, DeleteLink, DeleteNote, Read,
    ReadBranch, ReadLink, ReadNote,
};
use branch_core::types::{FLink, Note, NoteId};

fn fresh(manager: &mut NotesManager, title: &str, body: &str) -> NoteId {
    manager
        .add_note(Note::new(title.to_string(), None, body.to_string()))
        .unwrap()
}

#[test]
fn link_then_delete_link_removes_the_target() {
    let mut manager = NotesManager::default();
    let n1 = fresh(&mut manager, "T1", "B1");
    let n2 = fresh(&mut manager, "T2", "B2");
    assert_eq!(
        manager.add_link(n1.clone(), n2.clone(), "because".to_string()),
        Ok(())
    );
    assert_eq!(manager.list_backlinks(n2.clone()).unwrap(), vec![&n1]);
    assert_eq!(manager.delete_link(n1.clone(), n2.clone()), Ok(()));
    assert_eq!(
        manager.read_note(n2).err(),
        Some(ReadError::NoteDoesNotExist)
    );
    assert!(manager.read_note(n1).is_ok());
    assert_eq!(manager.len(), 1);
}

#[test]
fn collapse_branch_onto_one_arm() {
    let mut manager = NotesManager::default();
    let n1 = fresh(&mut manager, "T1", "B1");
    let b1 = manager.create_branching(n1.clone(), "x>0".to_string()).unwrap();
    let n2 = fresh(&mut manager, "T2", "B2");
    let n3 = fresh(&mut manager, "T3", "B3");
    manager
        .add_branch(n1.clone(), b1.clone(), n2.clone(), "then".to_string())
        .unwrap();
    manager
        .add_branch(n1.clone(), b1.clone(), n3.clone(), "else".to_string())
        .unwrap();
    assert_eq!(
        manager.collapse_branch(n1.clone(), b1.clone(), n2.clone()),
        Ok(())
    );
    let edges = manager.list_forwardlinks(n1.clone()).unwrap();
    assert_eq!(edges.len(), 1);
    match edges[0] {
        FLink::Link(link) => {
            assert_eq!(link.id, n2);
            assert_eq!(link.reason, "then");
        }
        FLink::Branch(_) => panic!("the branch gave way to a plain link"),
    }
    assert!(!manager.list_backlinks(n3.clone()).unwrap().contains(&&n1));
    assert_eq!(manager.list_backlinks(n2).unwrap(), vec![&n1]);
    assert!(manager.list_branches(n1.clone()).unwrap().is_empty());
    assert_eq!(
        manager.list_branch_links(n1, b1).err(),
        Some(ReadError::BranchDoesNotExist)
    );
    assert!(manager.read_note(n3).is_ok());
}

#[test]
fn second_link_between_the_same_notes_is_refused() {
    let mut manager = NotesManager::default();
    let n1 = fresh(&mut manager, "T1", "B1");
    let n2 = fresh(&mut manager, "T2", "B2");
    assert_eq!(
        manager.add_link(n1.clone(), n2.clone(), "r".to_string()),
        Ok(())
    );
    assert_eq!(
        manager.add_link(n1.clone(), n2.clone(), "r2".to_string()),
        Err(AddError::LinkAlreadyExists)
    );
    assert_eq!(manager.len(), 2);
    let links = manager.list_pure_links(n1.clone()).unwrap();
    assert_eq!(links.len(), 1);
    assert_eq!(links[0].id, n2);
    assert_eq!(links[0].reason, "r");
    assert_eq!(manager.list_backlinks(n2.clone()).unwrap(), vec![&n1]);
    assert!(manager.list_backlinks(n1.clone()).unwrap().is_empty());
    assert!(manager.list_forwardlinks(n2).unwrap().is_empty());
    assert_eq!(manager.read_note(n1).unwrap().title, "T1");
}

fn build<S: Add + Change + Delete + Read>(store: &mut S) -> (NoteId, NoteId, NoteId) {
    let a = store
        .add_note(Note::new("a".to_string(), None, "".to_string()))
        .unwrap();
    let b = store
        .add_note(Note::new("b".to_string(), None, "".to_string()))
        .unwrap();
    let c = store
        .add_note(Note::new("c".to_string(), None, "".to_string()))
        .unwrap();
    store.add_link(a.clone(), b.clone(), "ab".to_string()).unwrap();
    let branch = store.create_branching(b.clone(), "cond".to_string()).unwrap();
    store
        .add_branch(b.clone(), branch, c.clone(), "bc".to_string())
        .unwrap();
    (a, b, c)
}

#[test]
fn every_edge_is_mirrored_and_none_dangles() {
    let mut manager = NotesManager::default();
    let (a, b, c) = build(&mut manager);
    assert_eq!(manager.list_backlinks(b.clone()).unwrap(), vec![&a]);
    assert_eq!(manager.list_backlinks(c.clone()).unwrap(), vec![&b]);
    assert!(manager.list_backlinks(a.clone()).unwrap().is_empty());
    assert_eq!(manager.list_root_notes().unwrap(), vec![&a]);
    assert_eq!(manager.delete_note(b.clone()), Ok(()));
    assert!(manager.list_forwardlinks(a.clone()).unwrap().is_empty());
    assert!(manager.read_note(b).is_err());
    assert!(manager.list_backlinks(c.clone()).unwrap().is_empty());
    assert_eq!(manager.list_root_notes().unwrap(), vec![&a, &c]);
}

#[test]
fn failed_calls_leave_the_store_as_it_was() {
    let mut manager = NotesManager::default();
    let (a, b, c) = build(&mut manager);
    let ghost = NoteId::new_test("nowhere".to_string());
    assert!(manager.add_link(ghost.clone(), a.clone(), "r".to_string()).is_err());
    assert!(manager.add_link(a.clone(), ghost.clone(), "r".to_string()).is_err());
    assert!(manager.add_link(a.clone(), b.clone(), "again".to_string()).is_err());
    assert!(manager.create_branching(ghost.clone(), "c".to_string()).is_err());
    assert!(manager.delete_note(ghost.clone()).is_err());
    assert!(manager.delete_link(a.clone(), c.clone()).is_err());
    assert!(manager.delete_link(ghost.clone(), c.clone()).is_err());
    assert_eq!(manager.len(), 3);
    let links = manager.list_pure_links(a.clone()).unwrap();
    assert_eq!(links.len(), 1);
    assert_eq!(links[0].id, b);
    assert_eq!(links[0].reason, "ab");
    assert_eq!(manager.list_backlinks(b.clone()).unwrap(), vec![&a]);
    assert_eq!(manager.list_backlinks(c).unwrap(), vec![&b]);
    assert_eq!(manager.list_forwardlinks(b).unwrap().len(), 1);
    assert!(manager.list_backlinks(a).unwrap().is_empty());
}
