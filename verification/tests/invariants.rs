use branch_core::manager::NotesManager;
use branch_core::manager_impl::{
    AddBranch, AddLink, AddNote, ChangeBranch, DeleteBranch, DeleteLink, DeleteNote, ReadBranch,
    ReadLink, ReadNote,
};
use branch_core::types::{BranchId, FLink, Note, NoteId};

struct Dice(u64);

impl Dice {
    fn roll(&mut self, sides: usize) -> usize {
        self.0 = self
            .0
            .wrapping_mul(6364136223846793005)
            .wrapping_add(1442695040888963407);
        ((self.0 >> 33) as usize) % sides
    }
}

fn id(n: usize) -> NoteId {
    NoteId::new_test(format!("n{n}"))
}

fn leads_to(manager: &NotesManager, from: &NoteId, to: &NoteId) -> bool {
    manager
        .list_forwardlinks(from.clone())
        .unwrap()
        .iter()
        .any(|edge| match edge {
            FLink::Link(link) => link.id == *to,
            FLink::Branch(branch) => branch.branches.iter().any(|arm| arm.id == *to),
        })
}

fn check(manager: &NotesManager, universe: usize) {
    let present: Vec<NoteId> = (0..universe)
        .map(id)
        .filter(|n| manager.read_note(n.clone()).is_ok())
        .collect();
    assert_eq!(present.len(), manager.len());
    for b in &present {
        let sources = manager.list_backlinks(b.clone()).unwrap();
        for (k, source) in sources.iter().enumerate() {
            assert!(present.contains(source), "a back-link names a note of the store");
            assert!(
                !sources[..k].contains(source),
                "a source is listed once"
            );
        }
        for a in &present {
            assert_eq!(
                sources.contains(&a),
                leads_to(manager, a, b),
                "back-links mirror edges"
            );
        }
    }
    for a in &present {
        let edges = manager.list_forwardlinks(a.clone()).unwrap();
        let mut plain: Vec<&NoteId> = Vec::new();
        let mut branches: Vec<BranchId> = Vec::new();
        for edge in edges {
            match edge {
                FLink::Link(link) => {
                    assert!(present.contains(&link.id), "a link leads to a note of the store");
                    assert!(!plain.contains(&&link.id), "one plain link per target");
                    plain.push(&link.id);
                }
                FLink::Branch(branch) => {
                    assert!(!branches.contains(&branch.get_id()), "one branch per identifier");
                    branches.push(branch.get_id());
                    for (k, arm) in branch.branches.iter().enumerate() {
                        assert!(present.contains(&arm.id), "an arm leads to a note of the store");
                        assert!(
                            !branch.branches[..k].iter().any(|other| other.id == arm.id),
                            "one arm per target"
                        );
                    }
                }
            }
        }
    }
    let roots = manager.list_root_notes().unwrap();
    for n in &present {
        assert_eq!(
            roots.contains(&n),
            manager.list_backlinks(n.clone()).unwrap().is_empty()
        );
    }
}

fn some_branch(manager: &NotesManager, dice: &mut Dice, note: &NoteId) -> BranchId {
    match manager.list_branches(note.clone()) {
        Ok(branches) if !branches.is_empty() => branches[dice.roll(branches.len())].clone(),
        _ => BranchId::new_test("none".to_string()),
    }
}

fn walk(seed: u64, steps: usize) {
    let universe = 7;
    let mut dice = Dice(seed);
    let mut manager = NotesManager::default();
    for _ in 0..steps {
        let a = id(dice.roll(universe));
        let b = id(dice.roll(universe));
        match dice.roll(9) {
            0 | 1 => {
                let made = Note::new("t".to_string(), None, "b".to_string());
                let token = dice.roll(universe);
                let _ = manager.add_note(made.set_id(format!("n{token}")));
            }
            2 | 3 => {
                let _ = manager.add_link(a, b, "r".to_string());
            }
            4 => {
                let _ = manager.create_branching(a, "c".to_string());
            }
            5 => {
                let branch = some_branch(&manager, &mut dice, &a);
                let _ = manager.add_branch(a, branch, b, "arm".to_string());
            }
            6 => {
                let _ = manager.delete_link(a, b);
            }
            7 => match dice.roll(3) {
                0 => {
                    let branch = some_branch(&manager, &mut dice, &a);
                    let _ = manager.delete_branch(a, branch);
                }
                1 => {
                    let branch = some_branch(&manager, &mut dice, &a);
                    let _ = manager.delete_branch_link(a, branch, b);
                }
                _ => {
                    let branch = some_branch(&manager, &mut dice, &a);
                    let _ = manager.collapse_branch(a, branch, b);
                }
            },
            _ => {
                let _ = manager.delete_note(a);
            }
        }
        check(&manager, universe);
    }
}

#[test]
fn a_long_walk_keeps_the_store_consistent() {
    walk(1, 600);
}

#[test]
fn other_walks_keep_the_store_consistent() {
    for seed in 2..40 {
        walk(seed, 120);
    }
}

#[test]
fn a_refused_call_leaves_every_note_as_it_was() {
    let mut dice = Dice(77);
    let mut manager = NotesManager::default();
    for n in 0..5 {
        manager
            .add_note(Note::new("t".to_string(), None, "b".to_string()).set_id(format!("n{n}")))
            .unwrap();
    }
    for _ in 0..40 {
        let _ = manager.add_link(id(dice.roll(5)), id(dice.roll(5)), "r".to_string());
    }
    let snapshot = |manager: &NotesManager| -> Vec<(Vec<NoteId>, Vec<(NoteId, String)>)> {
        (0..5)
            .map(|n| {
                let sources = manager
                    .list_backlinks(id(n))
                    .unwrap()
                    .into_iter()
                    .cloned()
                    .collect();
                let links = manager
                    .list_pure_links(id(n))
                    .unwrap()
                    .into_iter()
                    .map(|link| (link.id.clone(), link.reason.clone()))
                    .collect();
                (sources, links)
            })
            .collect()
    };
    let before = snapshot(&manager);
    let missing = NoteId::new_test("missing".to_string());
    let nowhere = BranchId::new_test("nowhere".to_string());
    assert!(manager.add_link(missing.clone(), id(0), "r".to_string()).is_err());
    assert!(manager.add_link(id(0), missing.clone(), "r".to_string()).is_err());
    assert!(manager.create_branching(missing.clone(), "c".to_string()).is_err());
    assert!(manager
        .add_branch(id(0), nowhere.clone(), id(1), "r".to_string())
        .is_err());
    assert!(manager.delete_note(missing.clone()).is_err());
    assert!(manager.delete_link(missing.clone(), id(0)).is_err());
    assert!(manager.delete_link(id(0), missing.clone()).is_err());
    assert!(manager.delete_branch(id(0), nowhere.clone()).is_err());
    assert!(manager
        .delete_branch_link(id(0), nowhere.clone(), id(1))
        .is_err());
    assert!(manager.collapse_branch(id(0), nowhere, id(1)).is_err());
    assert_eq!(manager.len(), 5);
    assert!(before == snapshot(&manager));
}
