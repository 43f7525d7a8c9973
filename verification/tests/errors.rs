use codegraide::analysis::AnalysisError;
use codegraide::analyzer::AnalyzerRegistryError;
use codegraide::error::InventoryError;
use codegraide::report::LanguageId;
use codegraide::review::ReviewPolicyError;

#[test]
fn inventory_errors_name_their_cause() {
    assert_eq!(InventoryError::io("reading src", "permission denied").message(), "reading src: permission denied");
    assert_eq!(
        InventoryError::configuration(Some("cfg.toml".to_owned()), "bad key").message(),
        "invalid configuration cfg.toml: bad key"
    );
    assert_eq!(
        InventoryError::configuration(None, "bad key").message(),
        "invalid embedded configuration: bad key"
    );
    assert_eq!(InventoryError::invalid_input("no such path").message(), "invalid input: no such path");
    let conflict = InventoryError::CategoryConflict {
        path: "a.md".to_owned(),
        selector: "*.md".to_owned(),
        categories: vec!["documentation".to_owned(), "data".to_owned()],
    };
    assert_eq!(conflict.message(), "category conflict for a.md: *.md matches documentation, data");
}

#[test]
fn analysis_errors_wrap_their_sources() {
    assert_eq!(AnalysisError::io("reading a.py", "gone").message(), "reading a.py: gone");
    assert_eq!(AnalysisError::invalid_input("bad").message(), "invalid input: bad");
    assert_eq!(
        AnalysisError::Inventory(InventoryError::invalid_input("x")).message(),
        "inventory failed: invalid input: x"
    );
    assert_eq!(
        AnalysisError::Registry(AnalyzerRegistryError::DuplicateLanguage(LanguageId::new("python"))).message(),
        "analyzer registry failed: analyzer already registered for python"
    );
    let policy = ReviewPolicyError::Invalid { path: None, message: "m".to_owned() };
    assert_eq!(AnalysisError::ReviewPolicy(policy).message(), "review policy failed: invalid review policy: m");
    let io = ReviewPolicyError::Io { path: "p.json".to_owned(), message: "missing".to_owned() };
    assert_eq!(io.message(), "cannot read policy p.json: missing");
    let invalid = ReviewPolicyError::Invalid { path: Some("p.json".to_owned()), message: "m".to_owned() };
    assert_eq!(invalid.message(), "invalid policy p.json: m");
}
