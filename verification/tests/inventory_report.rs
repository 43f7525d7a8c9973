use codegraide::inventory::record_file;
use codegraide::inventory_report::InventoryJsonReport;
use codegraide::path_sets::{check_include_pattern, join_included, unseen_paths};
use codegraide::report::{FileCategory, RepositoryInventory};

fn strings(items: &[&str]) -> Vec<String> {
    items.iter().map(|s| s.to_string()).collect()
}

#[test]
fn inventory_report_lists_categories_counts_and_encoded_paths() {
    let mut inventory = RepositoryInventory::empty();
    record_file("src/main.py", FileCategory::Source, &mut inventory);
    record_file("docs/100%.md", FileCategory::Documentation, &mut inventory);
    record_file("LICENSE", FileCategory::Uncategorized, &mut inventory);
    inventory.ignored.files.push("build\\out.o".to_owned());
    inventory.num_included_ignored_files = 2;
    let report = InventoryJsonReport::from_inventory(&inventory, "1.2.3");
    assert_eq!(report.report_schema_version, "0.1.0");
    assert_eq!(report.tool.name, "codegraide");
    assert_eq!(report.tool.version, "1.2.3");
    assert_eq!(report.analysis.kind, "inventory");
    assert_eq!(report.analysis.definition_version, "inventory-report-v1");
    assert_eq!(report.inventory.path_encoding, "utf8-with-percent-encoded-bytes");
    assert_eq!(report.inventory.inventoried_files, 3);
    let names: Vec<&str> = report.inventory.categories.iter().map(|(n, _)| n.as_str()).collect();
    assert_eq!(
        names,
        ["source", "documentation", "configuration", "data", "assets", "uncategorized"]
    );
    assert_eq!(report.inventory.categories[0].1.count, 1);
    assert_eq!(report.inventory.categories[0].1.files, ["src/main.py"]);
    assert_eq!(report.inventory.categories[1].1.files, ["docs/100%25.md"]);
    assert_eq!(report.inventory.categories[5].1.count, 1);
    assert_eq!(report.inventory.languages, [("python".to_owned(), 1)]);
    assert_eq!(report.inventory.uncategorized_extensions, [("[none]".to_owned(), 1)]);
    assert_eq!(report.inventory.ignored.files, ["build%5Cout.o"]);
    assert_eq!(report.inventory.included_ignored_files, 2);
    assert_eq!(report.inventory.line_counts.definition_version, "physical-lines-v1");
    assert!(report.diagnostics.is_empty());
}

#[test]
fn included_ignored_paths_join_in_component_order_and_are_counted() {
    let standard = strings(&["src/a.rs", "src/b.rs"]);
    let included = strings(&["target/x.o", "src/a.rs", "a.b/c"]);
    let (joined, new) = join_included(&standard, &included);
    assert_eq!(joined, ["a.b/c", "src/a.rs", "src/b.rs", "target/x.o"]);
    assert_eq!(new, 2);
}

#[test]
fn unseen_paths_are_those_never_walked() {
    let all = strings(&["b", "a", "c"]);
    let seen = strings(&["c"]);
    assert_eq!(unseen_paths(&all, &seen), ["a", "b"]);
}

#[test]
fn include_patterns_must_be_positive_and_non_empty() {
    assert!(check_include_pattern("vendor/**").is_ok());
    assert!(check_include_pattern("").is_err());
    assert!(check_include_pattern("!secret").is_err());
}
