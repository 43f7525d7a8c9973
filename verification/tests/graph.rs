use codegraide::analyzer::{
    DependencyKind, DependencyReference, ImportContext, ResolutionLevel, SourcePosition,
    SourceSpan,
};
use codegraide::dependencies::{
    DependencyResolutionOutcome, DependencyTarget, LocalModule, ModuleId,
    ProjectDependencyResolution, UnresolvedDependencyReason,
};
use codegraide::graph::{
    analyze_dependency_graph, DependencyGraphAnalysis, DependencyNode, DependencyNodeMetrics,
};
use codegraide::report::LanguageId;

fn module(name: &str) -> ModuleId {
    ModuleId::new(LanguageId::new("python"), name)
}

fn local(name: &str) -> LocalModule {
    LocalModule::new(module(name), &format!("{name}.py"))
}

fn reference(name: &str, start_byte: usize) -> DependencyReference {
    DependencyReference {
        kind: DependencyKind::Import,
        module: Some(name.to_owned()),
        imported_name: None,
        alias: None,
        relative_level: 0,
        wildcard: false,
        resolution: ResolutionLevel::Syntactic,
        enclosing_symbol: None,
        context: ImportContext::default(),
        span: SourceSpan {
            start_byte,
            end_byte: start_byte + name.len(),
            start: SourcePosition {
                line: start_byte + 1,
                column: 0,
            },
            end: SourcePosition {
                line: start_byte + 1,
                column: name.len(),
            },
        },
    }
}

fn exact(source: &LocalModule, target: &LocalModule, start_byte: usize) -> ProjectDependencyResolution {
    ProjectDependencyResolution::new(
        &source.path,
        source.id.copy(),
        reference(target.id.qualified_name(), start_byte),
        DependencyResolutionOutcome::exact(DependencyTarget::LocalModule(target.copy())),
    )
}

fn metric<'a>(analysis: &'a DependencyGraphAnalysis, name: &str) -> &'a DependencyNodeMetrics {
    analysis
        .metrics
        .iter()
        .find(|metric| match &metric.node {
            DependencyNode::LocalModule(module) => module.id.qualified_name() == name,
            _ => false,
        })
        .expect("local module metric")
}

#[test]
fn includes_isolated_modules_and_non_cyclic_singletons() {
    let analysis = analyze_dependency_graph(&vec![local("a"), local("b")], &vec![])
        .expect("empty graph should succeed");

    assert_eq!(analysis.nodes.len(), 2);
    assert_eq!(analysis.metrics.len(), 2);
    assert_eq!(metric(&analysis, "a").fan_in, 0);
    assert_eq!(metric(&analysis, "a").fan_out, 0);
    assert_eq!(analysis.strongly_connected_components.len(), 2);
    assert!(analysis.cycles.is_empty());
}

#[test]
fn calculates_chain_fan_in_and_fan_out() {
    let a = local("a");
    let b = local("b");
    let c = local("c");
    let analysis = analyze_dependency_graph(
        &vec![a.copy(), b.copy(), c.copy()],
        &vec![exact(&a, &b, 0), exact(&b, &c, 1)],
    )
    .expect("chain should succeed");

    assert_eq!(metric(&analysis, "a").fan_in, 0);
    assert_eq!(metric(&analysis, "a").fan_out, 1);
    assert_eq!(metric(&analysis, "b").fan_in, 1);
    assert_eq!(metric(&analysis, "b").fan_out, 1);
    assert_eq!(metric(&analysis, "c").fan_in, 1);
    assert_eq!(metric(&analysis, "c").fan_out, 0);
    assert_eq!(analysis.relations.len(), 2);
    assert!(analysis.cycles.is_empty());
}

#[test]
fn deduplicates_edges_but_preserves_evidence() {
    let a = local("a");
    let b = local("b");
    let analysis = analyze_dependency_graph(
        &vec![a.copy(), b.copy()],
        &vec![exact(&a, &b, 0), exact(&a, &b, 10)],
    )
    .expect("duplicate edges should succeed");

    assert_eq!(analysis.relations.len(), 1);
    assert_eq!(analysis.relations[0].evidence.len(), 2);
    assert_eq!(metric(&analysis, "a").fan_out, 1);
    assert_eq!(metric(&analysis, "b").fan_in, 1);
}

#[test]
fn finds_mutual_and_self_cycles() {
    let a = local("a");
    let b = local("b");
    let c = local("c");
    let analysis = analyze_dependency_graph(
        &vec![a.copy(), b.copy(), c.copy()],
        &vec![exact(&a, &b, 0), exact(&b, &a, 1), exact(&c, &c, 2)],
    )
    .expect("cycles should succeed");

    assert_eq!(analysis.cycles.len(), 2);
    assert!(analysis.cycles.iter().any(|cycle| cycle.members.len() == 2));
    assert!(analysis.cycles.iter().any(|cycle| cycle.members.len() == 1));
}

#[test]
fn counts_boundary_targets_but_excludes_them_from_local_sccs() {
    let a = local("a");
    let standard = DependencyTarget::StandardLibrary(module("json"));
    let installed = DependencyTarget::InstalledDistribution {
        import_module: module("requests"),
        distribution_name: "requests".to_owned(),
        distribution_display_name: "requests".to_owned(),
        version: Some("2.32.0".to_owned()),
    };
    let resolutions = vec![
        ProjectDependencyResolution::new(
            &a.path,
            a.id.copy(),
            reference("json", 0),
            DependencyResolutionOutcome::exact(standard),
        ),
        ProjectDependencyResolution::new(
            &a.path,
            a.id.copy(),
            reference("requests", 1),
            DependencyResolutionOutcome::exact(installed),
        ),
    ];
    let analysis = analyze_dependency_graph(&vec![a.copy()], &resolutions)
        .expect("boundary targets should succeed");

    assert_eq!(metric(&analysis, "a").fan_out, 2);
    assert_eq!(analysis.strongly_connected_components.len(), 1);
    assert!(analysis.cycles.is_empty());
    assert_eq!(analysis.coverage.exact_references, 2);
}

#[test]
fn uncertain_relations_are_reported_but_do_not_affect_metrics() {
    let a = local("a");
    let ambiguous = ProjectDependencyResolution::new(
        &a.path,
        a.id.copy(),
        reference("shared", 0),
        DependencyResolutionOutcome::ambiguous(
            "shared",
            vec![
                DependencyTarget::LocalModule(local("shared.one")),
                DependencyTarget::LocalModule(local("shared.two")),
            ],
        ),
    );
    let unresolved = ProjectDependencyResolution::new(
        &a.path,
        a.id.copy(),
        reference("missing", 1),
        DependencyResolutionOutcome::unresolved("missing", UnresolvedDependencyReason::ModuleNotFound),
    );
    let analysis = analyze_dependency_graph(&vec![a], &vec![ambiguous, unresolved])
        .expect("uncertain relations should succeed");

    assert_eq!(analysis.relations.len(), 2);
    assert_eq!(analysis.coverage.total_references, 2);
    assert_eq!(analysis.coverage.ambiguous_references, 1);
    assert_eq!(analysis.coverage.unresolved_references, 1);
    assert_eq!(metric(&analysis, "a").fan_out, 0);
}

#[test]
fn equivalent_input_order_has_identical_output() {
    let a = local("a");
    let b = local("b");
    let left = analyze_dependency_graph(
        &vec![b.copy(), a.copy()],
        &vec![exact(&a, &b, 10), exact(&a, &b, 0)],
    )
    .expect("left graph");
    let right = analyze_dependency_graph(&vec![a.copy(), b.copy()], &vec![exact(&a, &b, 0), exact(&a, &b, 10)])
        .expect("right graph");

    assert_eq!(format!("{left:?}"), format!("{right:?}"));
}

#[test]
fn accepts_duplicate_import_names_as_distinct_local_candidates() {
    let analysis = analyze_dependency_graph(
        &vec![
            LocalModule::new(module("a"), "a.py"),
            LocalModule::new(module("a"), "other.py"),
        ],
        &vec![],
    )
    .expect("duplicate import names remain distinct by path");
    assert_eq!(analysis.nodes.len(), 2);
}

#[test]
fn rejects_unknown_exact_local_targets() {
    let a = local("a");
    let missing = local("missing");
    let error = analyze_dependency_graph(&vec![a.copy()], &vec![exact(&a, &missing, 0)])
        .expect_err("unknown exact target should fail");
    assert!(error.message().contains("not in the local module catalog"));
}

#[test]
fn rejects_absolute_paths_and_empty_ambiguity() {
    let absolute = LocalModule::new(module("a"), "/tmp/a.py");
    let error = analyze_dependency_graph(&vec![absolute], &vec![]).expect_err("absolute path should fail");
    assert!(error.message().contains("repository-relative"));

    let a = local("a");
    let empty = ProjectDependencyResolution::new(
        &a.path,
        a.id.copy(),
        reference("missing", 0),
        DependencyResolutionOutcome::Ambiguous {
            requested: "missing".to_owned(),
            candidates: Vec::new(),
        },
    );
    let error = analyze_dependency_graph(&vec![a], &vec![empty]).expect_err("empty ambiguity should fail");
    assert!(error.message().contains("has no candidates"));
}

#[test]
fn graph_error_messages_name_the_offending_path() {
    let absolute = LocalModule::new(module("a"), "/abs/a.py");
    let error = analyze_dependency_graph(&vec![absolute], &vec![]).expect_err("absolute path should fail");
    assert!(error.message().contains("/abs/a.py"));
}

#[test]
fn nodes_and_sccs_follow_the_module_order() {
    let a = local("a");
    let b = local("b");
    let c = local("c");
    let analysis = analyze_dependency_graph(
        &vec![c.copy(), a.copy(), b.copy()],
        &vec![exact(&b, &c, 0), exact(&c, &b, 1)],
    )
    .expect("graph");
    let names: Vec<String> = analysis
        .nodes
        .iter()
        .map(|n| match n {
            DependencyNode::LocalModule(m) => m.id.qualified_name().to_owned(),
            _ => String::new(),
        })
        .collect();
    assert_eq!(names, vec!["a", "b", "c"]);
    assert_eq!(analysis.strongly_connected_components.len(), 2);
    assert_eq!(analysis.cycles.len(), 1);
    assert_eq!(analysis.cycles[0].members.len(), 2);
    assert!(analysis.cycles[0].cyclic);
}
