use data_shuffler::consolidate::{plan_consolidation, ConsolidationError};
use data_shuffler::naming::Entry;

fn file(name: &str) -> Entry {
    Entry { name: name.to_string(), is_dir: false }
}

fn dir(name: &str) -> Entry {
    Entry { name: name.to_string(), is_dir: true }
}

fn names(ns: &[&str]) -> Vec<String> {
    ns.iter().map(|n| n.to_string()).collect()
}

#[test]
fn batches_are_emptied_and_removed() {
    let top = vec![dir("Batch1"), dir("Batch2")];
    let batches = vec![names(&["f1.txt"]), names(&["f2.txt"])];
    let plan = plan_consolidation(&top, &batches).unwrap();
    let moves: Vec<(String, String)> = plan.moves.iter().map(|m| (m.batch.clone(), m.name.clone())).collect();
    assert_eq!(
        moves,
        vec![
            ("Batch1".to_string(), "f1.txt".to_string()),
            ("Batch2".to_string(), "f2.txt".to_string()),
        ]
    );
    assert_eq!(plan.removed, names(&["Batch1", "Batch2"]));
}

#[test]
fn files_of_the_subject_stay() {
    let top = vec![file("keep.csv"), dir("B"), file("other.png")];
    let batches = vec![names(&["x.txt", "y.txt", "z.txt"])];
    let plan = plan_consolidation(&top, &batches).unwrap();
    assert_eq!(plan.moves.len(), 3);
    assert_eq!(plan.removed, names(&["B"]));
}

#[test]
fn flat_directory_is_left_alone() {
    let top = vec![file("a.txt"), file("b.txt")];
    let plan = plan_consolidation(&top, &vec![]).unwrap();
    assert!(plan.moves.is_empty());
    assert!(plan.removed.is_empty());
    let again = plan_consolidation(&top, &vec![]).unwrap();
    assert!(again.moves.is_empty());
    assert!(again.removed.is_empty());
}

#[test]
fn empty_batch_is_removed() {
    let top = vec![dir("Empty")];
    let plan = plan_consolidation(&top, &vec![vec![]]).unwrap();
    assert!(plan.moves.is_empty());
    assert_eq!(plan.removed, names(&["Empty"]));
}

#[test]
fn name_taken_in_subject_is_refused() {
    let top = vec![file("f1.txt"), dir("Batch1")];
    match plan_consolidation(&top, &vec![names(&["f1.txt"])]) {
        Err(ConsolidationError::NameCollision(n)) => assert_eq!(n, "f1.txt"),
        other => panic!("unexpected {:?}", other),
    }
}

#[test]
fn same_name_in_two_batches_is_refused() {
    let top = vec![dir("Batch1"), dir("Batch2")];
    match plan_consolidation(&top, &vec![names(&["data.txt"]), names(&["data.txt"])]) {
        Err(ConsolidationError::NameCollision(n)) => assert_eq!(n, "data.txt"),
        other => panic!("unexpected {:?}", other),
    }
}

#[test]
fn file_named_like_a_batch_is_refused() {
    let top = vec![dir("Batch1"), dir("Batch2")];
    assert!(matches!(
        plan_consolidation(&top, &vec![names(&["Batch2"]), names(&[])]),
        Err(ConsolidationError::NameCollision(_))
    ));
}
