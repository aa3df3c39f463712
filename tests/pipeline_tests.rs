use data_shuffler::consolidate::plan_consolidation;
use data_shuffler::naming::{plan_renames, shuffled_identifiers, Entry};

fn file(name: &str) -> Entry {
    Entry { name: name.to_string(), is_dir: false }
}

fn dir(name: &str) -> Entry {
    Entry { name: name.to_string(), is_dir: true }
}

/// The listing of a subject directory once its consolidation plan is carried out.
fn after_consolidation(top: &[Entry], batches: &[Vec<String>]) -> Vec<Entry> {
    let plan = plan_consolidation(&top.to_vec(), &batches.to_vec()).unwrap();
    let mut listing: Vec<Entry> = top.iter().filter(|e| !e.is_dir).cloned().collect();
    for m in &plan.moves {
        listing.push(file(&m.name));
    }
    listing
}

/// The names present once the rename plan is carried out.
fn after_renames(listing: &[Entry], numbers: &[u64]) -> Vec<String> {
    let moves = plan_renames(&listing.to_vec(), &numbers.to_vec()).unwrap();
    let mut names: Vec<String> = listing.iter().map(|e| e.name.clone()).collect();
    for m in &moves {
        let at = names.iter().position(|n| *n == m.from).unwrap();
        assert!(!names.contains(&m.to));
        names[at] = m.to.clone();
    }
    names.sort();
    names
}

#[test]
fn subject_with_two_batches_ends_with_two_csv_files() {
    let top = vec![dir("Batch1"), dir("Batch2")];
    let batches = vec![vec!["f1.txt".to_string()], vec!["f2.txt".to_string()]];
    let listing = after_consolidation(&top, &batches);
    assert_eq!(listing.len(), 2);
    let ids = shuffled_identifiers(listing.len());
    let names = after_renames(&listing, &ids);
    assert_eq!(names, vec!["1.csv".to_string(), "2.csv".to_string()]);
}

#[test]
fn full_pass_keeps_file_count() {
    let top = vec![file("keep.png"), dir("A"), file("7.csv"), dir("B")];
    let batches = vec![
        vec!["x.txt".to_string(), "y.dat".to_string()],
        vec!["z.txt".to_string()],
    ];
    let listing = after_consolidation(&top, &batches);
    assert_eq!(listing.len(), 5);
    for _ in 0..20 {
        let ids = shuffled_identifiers(listing.len());
        let names = after_renames(&listing, &ids);
        assert_eq!(names.len(), 5);
        let mut bases: Vec<u64> = names.iter().map(|n| n.split('.').next().unwrap().parse().unwrap()).collect();
        bases.sort();
        assert_eq!(bases, vec![1, 2, 3, 4, 5]);
    }
}

#[test]
fn interrupted_run_can_be_resumed() {
    let listing = vec![file("f1.txt"), file("f2.txt")];
    let moves = plan_renames(&listing, &vec![2, 1]).unwrap();
    // Only the first move was made before the interruption.
    let mut names: Vec<String> = listing.iter().map(|e| e.name.clone()).collect();
    let at = names.iter().position(|n| *n == moves[0].from).unwrap();
    names[at] = moves[0].to.clone();
    let resumed: Vec<Entry> = names.iter().map(|n| file(n)).collect();
    for first in [1u64, 2] {
        let ids = vec![first, 3 - first];
        let final_names = after_renames(&resumed, &ids);
        assert_eq!(final_names, vec!["1.csv".to_string(), "2.csv".to_string()]);
    }
}
