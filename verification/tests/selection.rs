use codegraide::analysis::AnalysisError;
use codegraide::report::RepositoryInventory;
use codegraide::selection::select_files;

fn inventory() -> RepositoryInventory {
    let mut inv = RepositoryInventory::empty();
    inv.files_by_category[0] = vec!["src/b.rs".to_owned(), "src/a.rs".to_owned(), "src-x/c.rs".to_owned()];
    inv.files_by_category[1] = vec!["README.md".to_owned()];
    inv
}

fn message(e: AnalysisError) -> String {
    match e {
        AnalysisError::InvalidInput { message } => message,
        other => panic!("unexpected error {other:?}"),
    }
}

#[test]
fn no_patterns_select_every_file_in_component_order() {
    let selected = select_files(&inventory(), &Vec::new()).expect("selection");
    assert_eq!(selected, vec!["README.md", "src/a.rs", "src/b.rs", "src-x/c.rs"]);
}

#[test]
fn patterns_match_the_whole_path() {
    let selected = select_files(&inventory(), &vec![r"src/.*\.rs".to_owned()]).expect("selection");
    assert_eq!(selected, vec!["src/a.rs", "src/b.rs"]);
    let selected = select_files(&inventory(), &vec!["a.rs".to_owned(), "README.md".to_owned()]).expect("selection");
    assert_eq!(selected, vec!["README.md"]);
}

#[test]
fn refused_and_empty_selections_are_errors() {
    assert_eq!(
        message(select_files(&inventory(), &vec![String::new()]).expect_err("empty pattern")),
        "--match patterns cannot be empty"
    );
    assert!(message(select_files(&inventory(), &vec!["(".to_owned()]).expect_err("bad regex"))
        .starts_with("invalid --match regex \"(\": "));
    assert_eq!(
        message(select_files(&inventory(), &vec!["docs/.*".to_owned()]).expect_err("nothing selected")),
        "--match did not select any inventoried files"
    );
}
