use codegraide::config::{
    compile_regexes, validate_extension, validate_raw_rules, CategoryClassifier, RawCategoryRule, RuleMode,
};
use codegraide::config_file::{
    check_config_version, combine_rules, parse_categories, ConfigFile, RawInventoryConfig,
};
use codegraide::report::FileCategory;

fn rule(extensions: &[&str]) -> RawCategoryRule {
    let mut r = RawCategoryRule::empty();
    r.include_extensions = extensions.iter().map(|e| e.to_string()).collect();
    r
}

fn config(version: &str, ignore_defaults: bool, categories: Vec<(&str, RawCategoryRule)>) -> ConfigFile {
    ConfigFile {
        config_version: version.to_owned(),
        inventory: RawInventoryConfig {
            ignore_defaults,
            categories: categories.into_iter().map(|(n, r)| (n.to_owned(), r)).collect(),
        },
    }
}

#[test]
fn filename_regexes_match_at_any_depth_and_path_regexes_are_scoped() {
    let filename_pattern = compile_regexes(
        FileCategory::Data,
        "include_filename_regexes",
        &vec![r"[0-9]{8}\.json".to_owned()],
        &None,
    )
    .expect("filename pattern should compile");
    let path_pattern = compile_regexes(
        FileCategory::Data,
        "exclude_filename_regexes",
        &vec![r"private/(?:.*/)?[0-9]{8}\.json".to_owned()],
        &None,
    )
    .expect("path pattern should compile");

    assert!(filename_pattern[0].is_match(Some("20260728.json"), "logs/20260728.json"));
    assert!(path_pattern[0].is_match(Some("20260728.json"), "private/team/logs/20260728.json"));
    assert!(!path_pattern[0].is_match(Some("20260728.json"), "public/20260728.json"));
}

#[test]
fn rejects_non_semver_config_versions() {
    let error = check_config_version("0.1", &Some("rules.json".to_owned()))
        .expect_err("short version should be rejected");

    assert!(error.message().contains("Semantic Versioning"));
}

#[test]
fn rejects_same_selector_in_two_categories() {
    let rules = parse_categories(
        vec![("data".to_owned(), rule(&["MD"])), ("documentation".to_owned(), rule(&["md"]))],
        &Some("rules.json".to_owned()),
    )
    .expect("category names should parse");

    let error = validate_raw_rules(&rules, &Some("rules.json".to_owned()))
        .expect_err("duplicate extension should be rejected");

    assert!(error.message().contains("documentation"));
    assert!(error.message().contains("data"));
}

#[test]
fn supported_version_is_accepted_and_others_are_named() {
    assert!(check_config_version("0.1.0", &None).is_ok());
    let error = check_config_version("0.2.0-beta+7", &Some("rules.json".to_owned())).expect_err("other version");
    assert_eq!(
        error.message(),
        "invalid configuration rules.json: unsupported config_version 0.2.0-beta+7; this codegraide version supports 0.1.0"
    );
}

#[test]
fn unknown_category_names_are_rejected() {
    let error = parse_categories(
        vec![("data".to_owned(), rule(&[])), ("docs".to_owned(), rule(&[])), ("zzz".to_owned(), rule(&[]))],
        &None,
    )
    .expect_err("unknown name");
    assert_eq!(
        error.message(),
        "invalid embedded configuration: unknown category \"docs\"; expected one of source, documentation, configuration, data, assets, uncategorized"
    );
}

#[test]
fn later_rule_for_a_category_wins_its_slot() {
    let slots = parse_categories(
        vec![("data".to_owned(), rule(&["csv"])), ("data".to_owned(), rule(&["tsv"]))],
        &None,
    )
    .expect("known names");
    assert_eq!(slots.len(), 6);
    assert_eq!(slots[3].as_ref().expect("data rule").include_extensions, vec!["tsv".to_owned()]);
    assert!(slots[0].is_none());
}

#[test]
fn extend_merges_replace_swaps_and_ignored_defaults_warn() {
    let defaults = vec![Some(rule(&["rs"])), Some(rule(&["md"])), None, None, None, None];
    let mut extend = rule(&["py"]);
    extend.mode = Some(RuleMode::Extend);
    let mut replace = rule(&["txt"]);
    replace.mode = Some(RuleMode::Replace);
    let custom = vec![Some(extend), Some(replace), None, None, None, None];
    let (rules, warnings) = combine_rules(defaults, custom, false, true);
    assert_eq!(rules[0].include_extensions, vec!["rs".to_owned(), "py".to_owned()]);
    assert_eq!(rules[1].include_extensions, vec!["txt".to_owned()]);
    assert!(rules[1].mode.is_none());
    assert!(warnings.is_empty());

    let defaults = vec![Some(rule(&["rs"])), Some(rule(&["md"])), None, None, None, None];
    let mut extend = rule(&["py"]);
    extend.mode = Some(RuleMode::Extend);
    let custom = vec![Some(extend), None, None, None, None, None];
    let (rules, warnings) = combine_rules(defaults, custom, true, true);
    assert_eq!(rules[0].include_extensions, vec!["py".to_owned()]);
    assert!(rules[1].include_extensions.is_empty());
    assert_eq!(warnings.len(), 1);
    assert_eq!(warnings[0].code, "config-child-extend-ignored");
    assert_eq!(
        warnings[0].message,
        "category source requests mode \"extend\", but inventory.ignore_defaults is true; the child mode is ignored"
    );
}

#[test]
fn load_builds_a_classifier_from_defaults_and_a_configuration() {
    let defaults = config("0.1.0", false, vec![("documentation", rule(&["md"])), ("source", rule(&["rs"]))]);
    let custom = config("0.1.0", false, vec![("data", rule(&["csv"]))]);
    let (classifier, warnings) =
        CategoryClassifier::load(defaults, Some(custom), &Some("rules.json".to_owned()), true).expect("valid rules");
    assert!(warnings.is_empty());
    let mut diagnostics = Vec::new();
    assert_eq!(classifier.classify("src/main.rs", &mut diagnostics, true).ok(), Some(FileCategory::Source));
    assert_eq!(classifier.classify("README.md", &mut diagnostics, true).ok(), Some(FileCategory::Documentation));
    assert_eq!(classifier.classify("x/y.csv", &mut diagnostics, true).ok(), Some(FileCategory::Data));
    assert_eq!(classifier.classify("logo.png", &mut diagnostics, true).ok(), Some(FileCategory::Uncategorized));

    let defaults = config("0.1.0", false, vec![]);
    let custom = config("1.0.0", false, vec![]);
    let error = CategoryClassifier::load(defaults, Some(custom), &Some("rules.json".to_owned()), true)
        .expect_err("unsupported version");
    assert!(error.message().contains("unsupported config_version 1.0.0"));

    let defaults = config("0.1.0", false, vec![]);
    let mut bad = RawCategoryRule::empty();
    bad.include_filename_regexes = vec!["(".to_owned()];
    let custom = config("0.1.0", false, vec![("data", bad)]);
    let error = CategoryClassifier::load(defaults, Some(custom), &None, true).expect_err("bad regex");
    assert!(error.message().contains("category data has invalid include_filename_regexes pattern \"(\""));
}

#[test]
fn extension_shape_is_checked() {
    assert!(validate_extension("md").is_ok());
    assert!(validate_extension(".md").is_err());
}
