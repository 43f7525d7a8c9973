use codegraide::inventory::{
    count_language, detect_language, extension_id, record_file, should_ignore_directory,
};
use codegraide::report::{FileCategory, LanguageId, RepositoryInventory};

#[test]
fn detects_supported_languages_case_insensitively() {
    let cases = [
        ("script.py", "python"),
        ("library.RS", "rust"),
        ("native.c", "c"),
        ("header.HPP", "cpp"),
    ];

    for (path, expected) in cases {
        let language = detect_language(path).expect("language should be recognized");

        assert_eq!(language.as_str(), expected);
    }
}

#[test]
fn leaves_unknown_extensions_without_a_language() {
    assert!(detect_language("README.md").is_none());
}

#[test]
fn extracts_normalized_extensions() {
    assert_eq!(extension_id("README.MD").as_str(), "md");
    assert_eq!(extension_id("LICENSE").as_str(), "[none]");
}

#[test]
fn identifies_builtin_ignored_directories() {
    for name in [".git", "target", "__pycache__"] {
        assert!(should_ignore_directory(name));
    }

    assert!(!should_ignore_directory("src"));
}

#[test]
fn hidden_files_and_directories_have_no_extension() {
    assert_eq!(extension_id(".bashrc").as_str(), "[none]");
    assert_eq!(extension_id("src/.config/tool").as_str(), "[none]");
    assert_eq!(extension_id("archive.tar.GZ").as_str(), "gz");
    assert!(detect_language("dir.py/readme").is_none());
    assert_eq!(detect_language("a/b/mod.cxx").unwrap().as_str(), "cpp");
}

#[test]
fn recording_files_tallies_languages_in_order() {
    let mut inventory = RepositoryInventory::empty();
    record_file("src/b.rs", FileCategory::Source, &mut inventory);
    record_file("src/a.py", FileCategory::Source, &mut inventory);
    record_file("src/c.rs", FileCategory::Source, &mut inventory);
    record_file("notes.TXT", FileCategory::Uncategorized, &mut inventory);
    record_file("LICENSE", FileCategory::Uncategorized, &mut inventory);
    record_file("more.txt", FileCategory::Uncategorized, &mut inventory);

    assert_eq!(inventory.inventoried_files, 6);
    assert_eq!(inventory.source_files(), 3);
    assert_eq!(inventory.uncategorized_files(), 3);
    let languages: Vec<(String, usize)> = inventory
        .files_by_language
        .iter()
        .map(|(l, n)| (l.as_str().to_owned(), *n))
        .collect();
    assert_eq!(
        languages,
        vec![("python".to_owned(), 1), ("rust".to_owned(), 2)]
    );
    let extensions: Vec<(String, usize)> = inventory
        .uncategorized_files_by_extension
        .iter()
        .map(|(e, n)| (e.as_str().to_owned(), *n))
        .collect();
    assert_eq!(
        extensions,
        vec![("[none]".to_owned(), 1), ("txt".to_owned(), 2)]
    );
}

#[test]
fn counting_a_language_twice_increments_it() {
    let mut tally: Vec<(LanguageId, usize)> = Vec::new();
    count_language(&mut tally, LanguageId::new("rust"));
    count_language(&mut tally, LanguageId::new("c"));
    count_language(&mut tally, LanguageId::new("rust"));
    assert_eq!(tally.len(), 2);
    assert_eq!(tally[0].0.as_str(), "c");
    assert_eq!(tally[0].1, 1);
    assert_eq!(tally[1].0.as_str(), "rust");
    assert_eq!(tally[1].1, 2);
}
