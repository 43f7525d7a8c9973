use codegraide::analysis::{
    AnalysisSelection, AnalysisTargetKind, AnalyzerRun, LanguageAnalysisCounts, RepositoryAnalysis,
};
use codegraide::analysis_report::AnalysisJsonReport;
use codegraide::analyzer::{
    AnalysisFacts, AnalysisLevel, AnalyzerCapability, AnalyzerDescriptor, FileAnalysis,
    FileAnalysisStatus, Measurement, MeasurementStatus, SourcePosition, SourceSpan, Symbol,
    SymbolCompleteness, SymbolId, SymbolKind,
};
use codegraide::documentation::DocumentationCoverage;
use codegraide::report::LanguageId;
use codegraide::review::{
    evaluate_review, review_status_code, RawComplexityPolicy, RawDocumentationPolicy,
    RawException, RawPolicy, RawRiskBands, RequiredAction, ReviewOptions, ReviewPolicy,
    ReviewPolicyError, ReviewStatus, RiskBands, RiskLevel,
};

fn span(line: usize) -> SourceSpan {
    SourceSpan {
        start_byte: line * 10,
        end_byte: line * 10 + 5,
        start: SourcePosition { line, column: 0 },
        end: SourcePosition { line, column: 5 },
    }
}

fn callable(id: &str, kind: SymbolKind, score: Option<u64>, line: usize) -> Symbol {
    Symbol {
        id: SymbolId::new(id),
        parent_id: None,
        kind,
        direct_declaration: true,
        name: id.to_owned(),
        qualified_name: id.to_owned(),
        span: span(line),
        body_span: Some(span(line)),
        name_span: None,
        completeness: SymbolCompleteness::Complete,
        modifiers: Vec::new(),
        parameters: Vec::new(),
        decorators: Vec::new(),
        documentation: None,
        nesting_events: Vec::new(),
        decision_events: Vec::new(),
        measurements: match score {
            Some(value) => vec![Measurement {
                id: "python-cyclomatic-complexity".to_owned(),
                definition_version: "python-cyclomatic-complexity-v1".to_owned(),
                unit: "score".to_owned(),
                status: MeasurementStatus::Measured,
                value: Some(value),
                reason: None,
            }],
            None => Vec::new(),
        },
    }
}

fn run(status: FileAnalysisStatus) -> AnalyzerRun {
    AnalyzerRun {
        descriptor: AnalyzerDescriptor {
            id: "python-test".to_owned(),
            language: LanguageId::new("python"),
            version: "0.2.0".to_owned(),
            level: AnalysisLevel::Syntax,
            capabilities: vec![AnalyzerCapability::Measurements],
            grammar: None,
            queries: Vec::new(),
            limitations: Vec::new(),
        },
        counts: LanguageAnalysisCounts {
            analyzed: 1,
            successful: usize::from(status == FileAnalysisStatus::Successful),
            partial: usize::from(status == FileAnalysisStatus::Partial),
            failed: usize::from(status == FileAnalysisStatus::Failed),
        },
        files: vec![FileAnalysis {
            path: "src/a.py".to_owned(),
            status,
            diagnostics: Vec::new(),
            facts: AnalysisFacts {
                symbols: vec![
                    callable("C", SymbolKind::Class, None, 1),
                    callable("f", SymbolKind::Function, Some(12), 2),
                    callable("g", SymbolKind::Function, Some(3), 3),
                    callable("C.h", SymbolKind::Method, None, 4),
                ],
                dependencies: Vec::new(),
                calls: Vec::new(),
            },
        }],
    }
}

fn selected() -> Vec<String> {
    vec!["src/a.py".to_owned()]
}

fn default_policy() -> ReviewPolicy {
    ReviewPolicy::resolve(&ReviewOptions::default(), None).expect("default policy")
}

fn raw_policy(version: &str, exceptions: Vec<RawException>) -> RawPolicy {
    RawPolicy {
        policy_version: version.to_owned(),
        cyclomatic_complexity: RawComplexityPolicy {
            human_review_at: None,
            block_at: None,
            risk_bands: None,
            exceptions,
        },
        documentation_coverage: RawDocumentationPolicy { human_review_below: None },
    }
}

fn invalid_message(error: ReviewPolicyError) -> (Option<String>, String) {
    match error {
        ReviewPolicyError::Invalid { path, message } => (path, message),
        other => panic!("unexpected error {other:?}"),
    }
}

#[test]
fn default_policy_has_the_built_in_thresholds() {
    let policy = default_policy();
    assert_eq!(policy.sources, vec!["built-in"]);
    assert_eq!(policy.complexity_review_at, 11);
    assert_eq!(policy.complexity_block_at, None);
    assert_eq!(policy.risk_bands.moderate_at, 6);
    assert_eq!(policy.risk_bands.high_at, 11);
    assert_eq!(policy.risk_bands.critical_at, 21);
    assert!(policy.exceptions.is_empty());
}

#[test]
fn risk_bands_classify_scores_at_their_lower_bounds() {
    let bands = RiskBands { moderate_at: 6, high_at: 11, critical_at: 21 };
    assert_eq!(bands.for_score(5), RiskLevel::Low);
    assert_eq!(bands.for_score(6), RiskLevel::Moderate);
    assert_eq!(bands.for_score(10), RiskLevel::Moderate);
    assert_eq!(bands.for_score(11), RiskLevel::High);
    assert_eq!(bands.for_score(21), RiskLevel::Critical);
}

#[test]
fn review_status_codes_are_stable() {
    assert_eq!(review_status_code(ReviewStatus::Pass), 0);
    assert_eq!(review_status_code(ReviewStatus::HumanReviewRequired), 2);
    assert_eq!(review_status_code(ReviewStatus::Blocked), 3);
}

#[test]
fn a_complex_callable_and_a_missing_measurement_need_human_review() {
    let documentation = DocumentationCoverage::disabled(&selected());
    let review = evaluate_review(
        &selected(),
        &[run(FileAnalysisStatus::Successful)],
        &documentation,
        default_policy(),
    );
    assert_eq!(review.status, ReviewStatus::HumanReviewRequired);
    assert_eq!(review.coverage.selected_language_files, 1);
    assert_eq!(review.coverage.unsupported_selected_files, 0);
    assert_eq!(review.coverage.analyzed_files, 1);
    assert_eq!(review.coverage.successful_files, 1);
    assert_eq!(review.coverage.eligible_callables, 3);
    assert_eq!(review.coverage.measured_callables, 2);
    assert_eq!(review.coverage.unavailable_callables, 1);

    let ranked: Vec<(usize, &str, u64, RiskLevel)> = review
        .rankings
        .iter()
        .map(|r| (r.rank, r.symbol_id.as_str(), r.score, r.risk))
        .collect();
    assert_eq!(ranked, vec![(1, "f", 12, RiskLevel::High), (2, "g", 3, RiskLevel::Low)]);

    assert_eq!(review.findings.len(), 2);
    assert_eq!(review.findings[0].rule_id, "complexity-unavailable");
    assert_eq!(review.findings[0].symbol_id.as_deref(), Some("C.h"));
    assert_eq!(review.findings[0].risk, RiskLevel::Unknown);
    assert_eq!(review.findings[1].rule_id, "cyclomatic-complexity-threshold");
    assert_eq!(review.findings[1].required_action, RequiredAction::HumanReview);
    assert_eq!(review.findings[1].observed_value, Some(12));
    assert_eq!(review.findings[1].threshold, Some(11));
    assert_eq!(
        review.findings[1].message,
        "cyclomatic complexity 12 meets or exceeds the review threshold 11"
    );
}

#[test]
fn a_block_threshold_blocks_the_review() {
    let options = ReviewOptions {
        complexity_block_at: Some(12),
        ..ReviewOptions::default()
    };
    let policy = ReviewPolicy::resolve(&options, None).expect("policy");
    assert_eq!(policy.sources, vec!["built-in", "cli"]);
    let documentation = DocumentationCoverage::disabled(&selected());
    let review = evaluate_review(
        &selected(),
        &[run(FileAnalysisStatus::Successful)],
        &documentation,
        policy,
    );
    assert_eq!(review.status, ReviewStatus::Blocked);
    assert_eq!(review_status_code(review.status), 3);
    assert_eq!(review.findings[0].required_action, RequiredAction::Block);
    assert_eq!(review.findings[0].threshold, Some(12));
}

#[test]
fn an_approved_exception_acknowledges_the_score() {
    let raw = raw_policy(
        "0.2.0",
        vec![RawException {
            symbol_id: "f".to_owned(),
            reason: "legacy parser".to_owned(),
            approved_max: Some(15),
            unbounded: None,
        }],
    );
    let options = ReviewOptions {
        policy_path: Some("policy.json".to_owned()),
        ..ReviewOptions::default()
    };
    let policy = ReviewPolicy::resolve(&options, Some(raw)).expect("policy");
    assert_eq!(policy.sources, vec!["built-in", "policy-file"]);
    let documentation = DocumentationCoverage::disabled(&selected());
    let review = evaluate_review(
        &selected(),
        &[run(FileAnalysisStatus::Successful)],
        &documentation,
        policy,
    );
    let finding = review
        .findings
        .iter()
        .find(|f| f.rule_id == "cyclomatic-complexity-threshold")
        .expect("threshold finding");
    assert!(finding.acknowledged);
    assert_eq!(finding.required_action, RequiredAction::NoAction);
    assert_eq!(
        finding.message,
        "cyclomatic complexity 12 is acknowledged by policy: legacy parser"
    );
    assert_eq!(review.status, ReviewStatus::HumanReviewRequired);
}

#[test]
fn incomplete_analysis_and_empty_selection_are_findings() {
    let documentation = DocumentationCoverage::disabled(&[]);
    let review = evaluate_review(
        &[],
        &[run(FileAnalysisStatus::Partial)],
        &documentation,
        default_policy(),
    );
    let messages: Vec<&str> = review
        .findings
        .iter()
        .filter(|f| f.rule_id == "analysis-incomplete")
        .map(|f| f.message.as_str())
        .collect();
    assert!(messages.contains(&"analysis is partial for src/a.py; complexity evidence is incomplete"));
    assert!(messages.contains(&"no recognized source files were selected for review"));
    assert_eq!(review.coverage.partial_files, 1);
}

#[test]
fn unsupported_policy_versions_are_rejected_with_the_policy_path() {
    let options = ReviewOptions {
        policy_path: Some("policy.json".to_owned()),
        ..ReviewOptions::default()
    };
    let error = ReviewPolicy::resolve(&options, Some(raw_policy("9.9.9", Vec::new())))
        .expect_err("unsupported version");
    assert_eq!(
        invalid_message(error),
        (
            Some("policy.json".to_owned()),
            "unsupported policy_version 9.9.9; expected 0.1.0 or 0.2.0".to_owned()
        )
    );
}

#[test]
fn contradictory_options_and_bad_exceptions_are_rejected() {
    let options = ReviewOptions {
        complexity_block_at: Some(20),
        no_complexity_block: true,
        ..ReviewOptions::default()
    };
    let (_, message) = invalid_message(ReviewPolicy::resolve(&options, None).expect_err("conflict"));
    assert_eq!(message, "--no-complexity-block cannot be combined with --complexity-block-at");

    let options = ReviewOptions {
        complexity_review_at: Some(30),
        complexity_block_at: Some(20),
        ..ReviewOptions::default()
    };
    let (_, message) = invalid_message(ReviewPolicy::resolve(&options, None).expect_err("order"));
    assert_eq!(message, "complexity block threshold cannot be below the review threshold");

    let both = raw_policy(
        "0.2.0",
        vec![RawException {
            symbol_id: "f".to_owned(),
            reason: "why".to_owned(),
            approved_max: Some(3),
            unbounded: Some(true),
        }],
    );
    let (_, message) = invalid_message(
        ReviewPolicy::resolve(&ReviewOptions::default(), Some(both)).expect_err("both limits"),
    );
    assert_eq!(
        message,
        "exception for f must specify exactly one of approved_max or unbounded=true"
    );

    let blank = raw_policy(
        "0.2.0",
        vec![RawException {
            symbol_id: "f".to_owned(),
            reason: "   ".to_owned(),
            approved_max: Some(3),
            unbounded: None,
        }],
    );
    let (_, message) = invalid_message(
        ReviewPolicy::resolve(&ReviewOptions::default(), Some(blank)).expect_err("blank reason"),
    );
    assert_eq!(message, "review exceptions require a symbol_id and nonblank reason");

    let mut bands = raw_policy("0.2.0", Vec::new());
    bands.cyclomatic_complexity.risk_bands = Some(RawRiskBands {
        moderate_at: Some(1),
        high_at: None,
        critical_at: None,
    });
    let (_, message) = invalid_message(
        ReviewPolicy::resolve(&ReviewOptions::default(), Some(bands)).expect_err("bands"),
    );
    assert_eq!(message, "risk bands must be strictly increasing and start at 2 or above");
}

#[test]
fn analysis_report_records_each_run_file_and_symbol() {
    let documentation = DocumentationCoverage::disabled(&selected());
    let runs = vec![run(FileAnalysisStatus::Successful)];
    let review = evaluate_review(&selected(), &runs, &documentation, default_policy());
    let analysis = RepositoryAnalysis {
        selection: AnalysisSelection {
            root: "/repo".to_owned(),
            target_kind: AnalysisTargetKind::Directory,
            match_patterns: vec!["src/**".to_owned()],
            selected_files: vec!["src/50%.py".to_owned()],
        },
        inventoried_files: 4,
        inventory_languages: vec![(LanguageId::new("python"), 1)],
        inventory_only_languages: vec![(LanguageId::new("rust"), 3)],
        analyzers: runs,
        diagnostics: Vec::new(),
        review,
    };
    let report = AnalysisJsonReport::from_analysis(&analysis, "9.9.9");
    assert_eq!(report.report_schema_version, "0.1.0");
    assert_eq!(report.tool.version, "9.9.9");
    assert_eq!(report.analysis.kind, "syntax-analysis");
    assert_eq!(report.analysis.definition_version, "syntax-analysis-v1");
    assert_eq!(report.analysis.selection.target_kind, "directory");
    assert_eq!(report.analysis.selection.match_patterns, ["src/**"]);
    assert_eq!(report.analysis.selection.files, ["src/50%25.py"]);
    assert_eq!(report.inventory.inventoried_files, 4);
    assert_eq!(report.inventory.languages, [("python".to_owned(), 1)]);
    assert_eq!(report.inventory.inventory_only_languages, [("rust".to_owned(), 3)]);
    assert_eq!(report.analyzers.len(), 1);
    let run = &report.analyzers[0];
    assert_eq!(run.id, "python-test");
    assert_eq!(run.language, "python");
    assert_eq!(run.level.as_str(), "syntax");
    assert_eq!(run.counts.successful, 1);
    assert_eq!(run.files[0].path, "src/a.py");
    let names: Vec<&str> = run.files[0].symbols.iter().map(|s| s.id.as_str()).collect();
    assert_eq!(names, ["C", "f", "g", "C.h"]);
    assert_eq!(run.files[0].symbols[1].measurements[0].value, Some(12));
    assert!(report.diagnostics.is_empty());
}
