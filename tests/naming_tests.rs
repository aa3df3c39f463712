use data_shuffler::naming::{anonymized_name, extension_of, plan_renames, shuffled_identifiers, AnonymizeError, Entry, Move};

fn file(name: &str) -> Entry {
    Entry { name: name.to_string(), is_dir: false }
}

fn dir(name: &str) -> Entry {
    Entry { name: name.to_string(), is_dir: true }
}

fn pairs(moves: &[Move]) -> Vec<(String, String)> {
    moves.iter().map(|m| (m.from.clone(), m.to.clone())).collect()
}

fn pair(a: &str, b: &str) -> (String, String) {
    (a.to_string(), b.to_string())
}

#[test]
fn extensions_follow_the_last_dot() {
    assert_eq!(extension_of("report.txt"), Some("txt".to_string()));
    assert_eq!(extension_of("archive.tar.gz"), Some("gz".to_string()));
    assert_eq!(extension_of("README"), None);
    assert_eq!(extension_of(".bashrc"), None);
    assert_eq!(extension_of(".."), None);
    assert_eq!(extension_of("name."), Some("".to_string()));
}

#[test]
fn txt_becomes_csv_and_others_stay() {
    assert_eq!(anonymized_name(7, &"txt".to_string()), "7.csv");
    assert_eq!(anonymized_name(12, &"png".to_string()), "12.png");
    assert_eq!(anonymized_name(305, &"csv".to_string()), "305.csv");
}

#[test]
fn identifiers_are_a_permutation() {
    for n in [0usize, 1, 2, 10, 57] {
        let mut ids = shuffled_identifiers(n);
        assert_eq!(ids.len(), n);
        ids.sort();
        let expected: Vec<u64> = (1..=n as u64).collect();
        assert_eq!(ids, expected);
    }
}

#[test]
fn plan_renames_every_file_once() {
    let entries = vec![file("f1.txt"), dir("nested"), file("photo.png")];
    let moves = plan_renames(&entries, &vec![2, 1]).unwrap();
    assert_eq!(pairs(&moves), vec![pair("f1.txt", "2.csv"), pair("photo.png", "1.png")]);
}

#[test]
fn two_batch_files_become_one_and_two_csv() {
    let entries = vec![file("f1.txt"), file("f2.txt")];
    let ids = shuffled_identifiers(2);
    let moves = plan_renames(&entries, &ids).unwrap();
    let mut targets: Vec<String> = moves.iter().map(|m| m.to.clone()).collect();
    targets.sort();
    assert_eq!(targets, vec!["1.csv".to_string(), "2.csv".to_string()]);
}

#[test]
fn empty_directory_needs_no_move() {
    let moves = plan_renames(&vec![], &vec![]).unwrap();
    assert!(moves.is_empty());
    let moves = plan_renames(&vec![dir("only")], &vec![]).unwrap();
    assert!(moves.is_empty());
}

#[test]
fn missing_extension_is_refused() {
    let entries = vec![file("a.txt"), file("README")];
    match plan_renames(&entries, &vec![1, 2]) {
        Err(AnonymizeError::MissingExtension(name)) => assert_eq!(name, "README"),
        other => panic!("unexpected {:?}", other),
    }
}

#[test]
fn name_of_a_directory_is_refused() {
    let entries = vec![file("a.txt"), dir("1.csv")];
    match plan_renames(&entries, &vec![1]) {
        Err(AnonymizeError::NameCollision(name)) => assert_eq!(name, "1.csv"),
        other => panic!("unexpected {:?}", other),
    }
}

#[test]
fn repeated_identifier_is_refused() {
    let entries = vec![file("a.txt"), file("b.csv")];
    assert!(matches!(plan_renames(&entries, &vec![1, 1]), Err(AnonymizeError::NameCollision(_))));
}

#[test]
fn taken_waiting_name_gets_another_tilde() {
    let entries = vec![file("1.csv"), file("2.csv"), file("~1.csv")];
    let moves = plan_renames(&entries, &vec![2, 1, 3]).unwrap();
    assert_eq!(
        pairs(&moves),
        vec![
            pair("1.csv", "~~1.csv"),
            pair("2.csv", "~2.csv"),
            pair("~~1.csv", "2.csv"),
            pair("~2.csv", "1.csv"),
            pair("~1.csv", "3.csv"),
        ]
    );
}

#[test]
fn every_taken_waiting_name_is_skipped() {
    let entries = vec![file("1.csv"), file("f.txt"), file("~1.csv"), file("~~1.csv")];
    let moves = plan_renames(&entries, &vec![4, 1, 2, 3]).unwrap();
    assert_eq!(moves[0].from, "1.csv");
    assert_eq!(moves[0].to, "~~~1.csv");
    assert_eq!(moves.len(), 5);
}

#[test]
fn rerun_after_interruption_moves_promoted_file_aside() {
    // The first file was already promoted to 2.csv; the second is untouched.
    let entries = vec![file("2.csv"), file("f2.txt")];
    let moves = plan_renames(&entries, &vec![1, 2]).unwrap();
    assert_eq!(
        pairs(&moves),
        vec![pair("2.csv", "~2.csv"), pair("~2.csv", "1.csv"), pair("f2.txt", "2.csv")]
    );
}

#[test]
fn rerun_keeps_a_file_that_already_has_its_name() {
    let entries = vec![file("1.csv"), file("f2.txt")];
    let moves = plan_renames(&entries, &vec![1, 2]).unwrap();
    assert_eq!(pairs(&moves), vec![pair("f2.txt", "2.csv")]);
}

#[test]
fn swapped_names_go_through_waiting_names() {
    let entries = vec![file("1.csv"), file("2.csv")];
    let moves = plan_renames(&entries, &vec![2, 1]).unwrap();
    assert_eq!(
        pairs(&moves),
        vec![
            pair("1.csv", "~1.csv"),
            pair("2.csv", "~2.csv"),
            pair("~1.csv", "2.csv"),
            pair("~2.csv", "1.csv"),
        ]
    );
}
