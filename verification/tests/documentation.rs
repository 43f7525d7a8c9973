use codegraide::analysis::{AnalyzerRun, LanguageAnalysisCounts};
use codegraide::analyzer::{
    AnalysisFacts, AnalysisLevel, AnalyzerCapability, AnalyzerDescriptor, Decorator,
    DocumentationStatus, FileAnalysis, FileAnalysisStatus, SourcePosition, SourceSpan, Symbol,
    SymbolCompleteness, SymbolDocumentation, SymbolId, SymbolKind,
};
use codegraide::documentation::{
    evaluate_documentation_coverage, is_conventional_python_test, DocumentationCounts,
    DocumentationCoverageStatus,
};
use codegraide::report::LanguageId;

fn span(line: usize) -> SourceSpan {
    SourceSpan {
        start_byte: line,
        end_byte: line + 1,
        start: SourcePosition { line, column: 1 },
        end: SourcePosition { line, column: 2 },
    }
}

fn symbol(
    id: &str,
    parent: Option<&str>,
    kind: SymbolKind,
    status: Option<DocumentationStatus>,
    line: usize,
) -> Symbol {
    Symbol {
        id: SymbolId::new(id),
        parent_id: parent.map(SymbolId::new),
        kind,
        direct_declaration: true,
        name: id.to_owned(),
        qualified_name: id.to_owned(),
        span: span(line),
        body_span: Some(span(line)),
        name_span: None,
        completeness: SymbolCompleteness::Complete,
        modifiers: Vec::new(),
        parameters: Vec::new(),
        decorators: Vec::new(),
        documentation: status.map(|status| SymbolDocumentation {
            status,
            span: if status != DocumentationStatus::Unavailable {
                Some(span(line))
            } else {
                None
            },
            reason: if status == DocumentationStatus::Unavailable {
                Some("parser recovery".to_owned())
            } else {
                None
            },
        }),
        nesting_events: Vec::new(),
        decision_events: Vec::new(),
        measurements: Vec::new(),
    }
}

fn analyzer_run(file_status: FileAnalysisStatus) -> AnalyzerRun {
    AnalyzerRun {
        descriptor: AnalyzerDescriptor {
            id: "python-test".to_owned(),
            language: LanguageId::new("python"),
            version: "0.2.0".to_owned(),
            level: AnalysisLevel::Syntax,
            capabilities: vec![AnalyzerCapability::Documentation],
            grammar: None,
            queries: Vec::new(),
            limitations: Vec::new(),
        },
        counts: LanguageAnalysisCounts {
            analyzed: 1,
            successful: usize::from(file_status == FileAnalysisStatus::Successful),
            partial: usize::from(file_status == FileAnalysisStatus::Partial),
            failed: usize::from(file_status == FileAnalysisStatus::Failed),
        },
        files: vec![FileAnalysis {
            path: "src/example.py".to_owned(),
            status: file_status,
            diagnostics: Vec::new(),
            facts: AnalysisFacts {
                symbols: vec![
                    symbol(
                        "module",
                        None,
                        SymbolKind::Module,
                        Some(DocumentationStatus::Documented),
                        1,
                    ),
                    symbol(
                        "Service",
                        Some("module"),
                        SymbolKind::Class,
                        Some(DocumentationStatus::Missing),
                        2,
                    ),
                    symbol(
                        "Service.run",
                        Some("Service"),
                        SymbolKind::Method,
                        Some(DocumentationStatus::Documented),
                        3,
                    ),
                    symbol(
                        "top",
                        Some("module"),
                        SymbolKind::Function,
                        Some(DocumentationStatus::Missing),
                        4,
                    ),
                    symbol(
                        "top.nested",
                        Some("top"),
                        SymbolKind::Function,
                        Some(DocumentationStatus::Missing),
                        5,
                    ),
                    symbol(
                        "Service.Nested",
                        Some("Service"),
                        SymbolKind::Class,
                        Some(DocumentationStatus::Missing),
                        6,
                    ),
                    symbol("lambda", Some("top"), SymbolKind::Lambda, None, 7),
                ],
                dependencies: Vec::new(),
                calls: Vec::new(),
            },
        }],
    }
}

#[test]
fn coverage_includes_only_top_level_symbols_and_direct_methods() {
    let coverage = evaluate_documentation_coverage(
        true,
        false,
        &["src/example.py".to_owned(), "src/main.rs".to_owned()],
        &[analyzer_run(FileAnalysisStatus::Successful)],
    );

    assert_eq!(coverage.status, DocumentationCoverageStatus::Complete);
    assert_eq!(coverage.applicable_files, 1);
    assert_eq!(coverage.unsupported_selected_files, 1);
    assert_eq!(coverage.counts.eligible, 4);
    assert_eq!(coverage.counts.documented, 2);
    assert_eq!(coverage.counts.missing, 2);
    assert_eq!(coverage.counts.coverage_basis_points(), Some(5_000));
    assert_eq!(coverage.missing_symbols.len(), 2);
    assert!(coverage.threshold_is_met(50).unwrap());
    assert!(!coverage.threshold_is_met(51).unwrap());
}

#[test]
fn exact_basis_points_and_partial_thresholds_do_not_optimistically_pass() {
    let counts = DocumentationCounts {
        eligible: 3,
        documented: 2,
        missing: 1,
        unavailable: 0,
    };
    assert_eq!(counts.coverage_basis_points(), Some(6_666));

    let mut coverage = evaluate_documentation_coverage(
        true,
        false,
        &["src/example.py".to_owned()],
        &[analyzer_run(FileAnalysisStatus::Partial)],
    );
    assert_eq!(coverage.status, DocumentationCoverageStatus::Partial);
    assert_eq!(coverage.threshold_is_met(1), None);
    coverage.status = DocumentationCoverageStatus::Complete;
    assert_eq!(coverage.threshold_is_met(50), Some(true));
}

#[test]
fn overload_declarations_count_as_one_logical_symbol() {
    let mut run = analyzer_run(FileAnalysisStatus::Successful);
    for (ordinal, status) in [
        DocumentationStatus::Missing,
        DocumentationStatus::Missing,
        DocumentationStatus::Missing,
    ]
    .into_iter()
    .enumerate()
    {
        let mut overload = symbol(
            &format!("parse-overload-{ordinal}"),
            Some("module"),
            SymbolKind::Function,
            Some(status),
            10 + ordinal,
        );
        overload.qualified_name = "parse".to_owned();
        overload.decorators.push(Decorator {
            expression: "typing.overload".to_owned(),
            span: span(10 + ordinal),
        });
        run.files[0].facts.symbols.push(overload);
    }
    let mut implementation = symbol(
        "parse-implementation",
        Some("module"),
        SymbolKind::Function,
        Some(DocumentationStatus::Documented),
        20,
    );
    implementation.qualified_name = "parse".to_owned();
    run.files[0].facts.symbols.push(implementation);

    let coverage = evaluate_documentation_coverage(
        true,
        false,
        &["src/example.py".to_owned()],
        &[run],
    );

    assert_eq!(coverage.counts.eligible, 5);
    assert_eq!(coverage.counts.documented, 3);
    assert_eq!(coverage.counts.missing, 2);
    assert!(coverage
        .missing_symbols
        .iter()
        .all(|symbol| symbol.qualified_name != "parse"));
}

#[test]
fn conventional_test_files_are_skipped_unless_included() {
    let mut run = analyzer_run(FileAnalysisStatus::Successful);
    run.files[0].path = "tests/test_example.py".to_owned();

    let skipped = evaluate_documentation_coverage(
        true,
        false,
        &["tests/test_example.py".to_owned()],
        &[run],
    );
    assert_eq!(skipped.status, DocumentationCoverageStatus::NotApplicable);
    assert_eq!(skipped.applicable_files, 0);
    assert_eq!(skipped.skipped_test_files, 1);
    assert_eq!(
        skipped.counts,
        DocumentationCounts {
            eligible: 0,
            documented: 0,
            missing: 0,
            unavailable: 0
        }
    );

    let mut run = analyzer_run(FileAnalysisStatus::Successful);
    run.files[0].path = "tests/test_example.py".to_owned();
    let included = evaluate_documentation_coverage(
        true,
        true,
        &["tests/test_example.py".to_owned()],
        &[run],
    );
    assert_eq!(included.status, DocumentationCoverageStatus::Complete);
    assert_eq!(included.applicable_files, 1);
    assert_eq!(included.skipped_test_files, 0);
    assert_eq!(included.counts.eligible, 4);
}

#[test]
fn recognizes_conventional_python_test_paths() {
    for path in [
        "tests/service.py",
        "test/service.py",
        "src/test_service.py",
        "src/service_test.py",
        "src/conftest.py",
    ] {
        assert!(is_conventional_python_test(path));
    }
    assert!(!is_conventional_python_test("src/service.py"));
}

#[test]
fn disabled_coverage_counts_nothing() {
    let coverage = evaluate_documentation_coverage(
        false,
        false,
        &["src/example.py".to_owned()],
        &[analyzer_run(FileAnalysisStatus::Successful)],
    );
    assert_eq!(coverage.status, DocumentationCoverageStatus::Disabled);
    assert_eq!(coverage.status.as_str(), "disabled");
    assert_eq!(coverage.counts.eligible, 0);
    assert_eq!(coverage.threshold_is_met(10), None);
    assert_eq!(coverage.definition_version, "python-documentation-coverage-v1");
}

#[test]
fn per_kind_counts_and_sorted_evidence() {
    let coverage = evaluate_documentation_coverage(
        true,
        false,
        &["src/example.py".to_owned()],
        &[analyzer_run(FileAnalysisStatus::Successful)],
    );
    let kinds: Vec<(SymbolKind, usize, usize)> = coverage
        .by_kind
        .iter()
        .map(|(k, c)| (*k, c.eligible, c.documented))
        .collect();
    assert_eq!(
        kinds,
        vec![
            (SymbolKind::Module, 1, 1),
            (SymbolKind::Class, 1, 0),
            (SymbolKind::Function, 1, 0),
            (SymbolKind::Method, 1, 1),
        ]
    );
    let missing: Vec<&str> = coverage
        .missing_symbols
        .iter()
        .map(|s| s.symbol_id.as_str())
        .collect();
    assert_eq!(missing, vec!["Service", "top"]);
    assert_eq!(coverage.files.len(), 1);
    assert_eq!(coverage.files[0].counts.eligible, 4);
}

#[test]
fn symbols_without_documentation_facts_are_unavailable_evidence() {
    let mut run = analyzer_run(FileAnalysisStatus::Successful);
    run.files[0].facts.symbols[3].documentation = None;
    let coverage = evaluate_documentation_coverage(true, false, &[], &[run]);
    assert_eq!(coverage.status, DocumentationCoverageStatus::Partial);
    assert_eq!(coverage.counts.unavailable, 1);
    assert_eq!(coverage.unavailable_symbols.len(), 1);
    assert_eq!(
        coverage.unavailable_symbols[0].reason.as_deref(),
        Some("documentation fact is unavailable")
    );
    assert_eq!(coverage.threshold_is_met(10), None);
}

#[test]
fn measured_counts_and_zero_basis_points() {
    let none = DocumentationCounts {
        eligible: 2,
        documented: 0,
        missing: 0,
        unavailable: 2,
    };
    assert_eq!(none.measured(), 0);
    assert_eq!(none.coverage_basis_points(), None);
    let mut counts = none;
    counts.record(DocumentationStatus::Documented);
    counts.record(DocumentationStatus::Missing);
    counts.record(DocumentationStatus::Missing);
    assert_eq!(counts.eligible, 5);
    assert_eq!(counts.measured(), 3);
    assert_eq!(counts.coverage_basis_points(), Some(3_333));
}

#[test]
fn white_space_agrees_with_the_standard_library() {
    for u in 0u32..=0x10FFFF {
        if let Some(c) = char::from_u32(u) {
            assert_eq!(codegraide::documentation::is_white_space(c), c.is_whitespace(), "U+{u:04X}");
        }
    }
}
