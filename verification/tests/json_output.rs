use codegraide::dependencies::{DependencyTarget, LocalModule, ModuleId, UnresolvedDependencyReason};
use codegraide::graph::DependencyNode;
use codegraide::json_output::{json_candidate, json_node, json_path};
use codegraide::output::DependencyGraphViewNode;
use codegraide::report::LanguageId;

fn view_node(node: DependencyNode) -> DependencyGraphViewNode {
    DependencyGraphViewNode { id: "n1".to_owned(), node, fan_in: 2, fan_out: 3, cyclic_component: Some(1) }
}

#[test]
fn local_modules_carry_identity_path_and_kind() {
    let module = LocalModule::new(ModuleId::new(LanguageId::new("python"), "pkg.a"), "src/pkg/a%.py");
    let record = json_node(&view_node(DependencyNode::LocalModule(module)));
    assert_eq!(record.id, "n1");
    assert_eq!(record.kind, "local-module");
    assert_eq!(record.identity, "python:pkg.a@src/pkg/a%25.py");
    assert_eq!(record.name, "pkg.a");
    assert_eq!(record.path.as_deref(), Some("src/pkg/a%25.py"));
    assert_eq!(record.outgoing_dependencies_analyzed, Some(true));
    assert_eq!((record.fan_in, record.fan_out, record.cyclic_component), (2, 3, Some(1)));

    let header = LocalModule::new(ModuleId::new(LanguageId::new("cpp"), "util.h"), "include/util.h");
    assert_eq!(json_node(&view_node(DependencyNode::LocalModule(header))).kind, "local-file");
}

#[test]
fn unresolved_nodes_name_their_reason() {
    let node = DependencyNode::Unresolved {
        source_module: ModuleId::new(LanguageId::new("python"), "pkg.a"),
        requested: "missing".to_owned(),
        reason: UnresolvedDependencyReason::ModuleNotFound,
    };
    let record = json_node(&view_node(node));
    assert_eq!(record.kind, "unresolved");
    assert_eq!(record.identity, "python:unresolved:pkg.a:missing:module-not-found");
    assert_eq!(record.unresolved_reason, Some("module-not-found"));
    assert!(record.path.is_none());
    assert!(record.outgoing_dependencies_analyzed.is_none());
}

#[test]
fn ambiguous_nodes_list_their_candidates() {
    let target = DependencyTarget::LocalModule(LocalModule::new(
        ModuleId::new(LanguageId::new("python"), "pkg.b"),
        "src/pkg/b.py",
    ));
    let candidate = json_candidate(&target);
    assert_eq!(candidate.kind, "local-module");
    assert_eq!(candidate.name, "pkg.b");
    assert_eq!(candidate.path.as_deref(), Some("src/pkg/b.py"));
    let node = DependencyNode::Ambiguous {
        source_module: ModuleId::new(LanguageId::new("python"), "pkg.a"),
        requested: "b".to_owned(),
        candidates: vec![target],
    };
    let record = json_node(&view_node(node));
    assert_eq!(record.identity, "python:ambiguous:pkg.a:b");
    assert_eq!(record.candidates.len(), 1);
    assert_eq!(json_path("a\\b"), "a%5Cb");
}

fn reference(module: &str) -> codegraide::analyzer::DependencyReference {
    codegraide::analyzer::DependencyReference {
        kind: codegraide::analyzer::DependencyKind::Import,
        module: Some(module.to_owned()),
        imported_name: None,
        alias: None,
        relative_level: 0,
        wildcard: false,
        resolution: codegraide::analyzer::ResolutionLevel::Syntactic,
        enclosing_symbol: None,
        context: codegraide::analyzer::ImportContext::default(),
        span: codegraide::analyzer::SourceSpan {
            start_byte: 0,
            end_byte: 1,
            start: codegraide::analyzer::SourcePosition { line: 4, column: 2 },
            end: codegraide::analyzer::SourcePosition { line: 4, column: 3 },
        },
    }
}

#[test]
fn relations_name_their_ends_by_view_id() {
    let a = LocalModule::new(ModuleId::new(LanguageId::new("python"), "a"), "a.py");
    let b = LocalModule::new(ModuleId::new(LanguageId::new("python"), "b"), "b.py");
    let resolution = codegraide::dependencies::ProjectDependencyResolution::new(
        &a.path,
        a.id.copy(),
        reference("b"),
        codegraide::dependencies::DependencyResolutionOutcome::exact(DependencyTarget::LocalModule(b.copy())),
    );
    let analysis = codegraide::graph::analyze_dependency_graph(&vec![a, b], &vec![resolution]).expect("graph");
    let view = codegraide::output::filter_dependency_graph(&analysis, &codegraide::output::DependencyGraphFilter::default())
        .expect("view");
    let relation = codegraide::json_output::json_relation(&view.relations[0], &view.nodes);
    let source_id = view.nodes.iter().find(|n| json_node(n).name == "a").expect("a").id.clone();
    let target_id = view.nodes.iter().find(|n| json_node(n).name == "b").expect("b").id.clone();
    assert_eq!(relation.source, source_id);
    assert_eq!(relation.target, target_id);
    assert_eq!(relation.kind, "exact");
    assert!(relation.inference_basis.is_none());
    assert_eq!(relation.evidence.len(), 1);
    assert_eq!(relation.evidence[0].source_path, "a.py");
    assert_eq!((relation.evidence[0].line, relation.evidence[0].column), (4, 2));
    assert_eq!(relation.evidence[0].scope, "module");
    assert_eq!(relation.evidence[0].usage, "runtime");
    assert_eq!(relation.evidence[0].requirement, "required");
}

#[test]
fn reports_keep_explanations_of_cycles_inside_the_view() {
    let a = LocalModule::new(ModuleId::new(LanguageId::new("python"), "a"), "a.py");
    let b = LocalModule::new(ModuleId::new(LanguageId::new("python"), "b"), "b.py");
    let ab = codegraide::dependencies::ProjectDependencyResolution::new(
        &a.path,
        a.id.copy(),
        reference("b"),
        codegraide::dependencies::DependencyResolutionOutcome::exact(DependencyTarget::LocalModule(b.copy())),
    );
    let ba = codegraide::dependencies::ProjectDependencyResolution::new(
        &b.path,
        b.id.copy(),
        reference("a"),
        codegraide::dependencies::DependencyResolutionOutcome::exact(DependencyTarget::LocalModule(a.copy())),
    );
    let analysis = codegraide::graph::analyze_dependency_graph(&vec![a, b], &vec![ab, ba]).expect("graph");
    let view = codegraide::output::filter_dependency_graph(&analysis, &codegraide::output::DependencyGraphFilter::default())
        .expect("view");
    let report = codegraide::json_report::DependencyJsonReport::from_analysis_with_query_and_exclusions(
        &analysis,
        &view,
        None,
        None,
        codegraide::dependencies::DependencyGraphInputExclusions::default(),
        "0.1.0",
    );
    assert_eq!(report.report_schema_version, "0.5.0");
    assert_eq!(report.tool.name, "codegraide");
    assert_eq!(report.nodes.len(), 2);
    assert_eq!(report.relations.len(), 2);
    assert_eq!(report.view.direction, "both");
    assert_eq!(report.view.node_count, 2);
    assert_eq!(report.coverage.total_references, 2);
    assert_eq!(report.cycle_explanations.len(), 1);
    assert_eq!(report.cycle_explanations[0].component, 1);
    assert_eq!(report.cycle_explanations[0].members.len(), 2);
    assert_eq!(report.cycle_explanations[0].witness_nodes.len(), 3);
    assert_eq!(report.cycle_explanations[0].recommended_cuts.len(), 1);
    assert!(report.query.is_none());
}
