use codegraide::analyzer::{
    DependencyKind, DependencyReference, ImportContext, ResolutionLevel, SourcePosition,
    SourceSpan,
};
use codegraide::dependencies::{
    DependencyResolutionOutcome, DependencyTarget, LocalModule, ModuleId,
    ProjectDependencyResolution,
};
use codegraide::graph::{analyze_dependency_graph, DependencyGraphAnalysis, DependencyNode};
use codegraide::query::{
    edit_distance, query_dependency_graph, DependencyGraphQuery, DependencyQueryDirection,
};
use codegraide::report::LanguageId;

fn module(name: &str) -> LocalModule {
    LocalModule::new(
        ModuleId::new(LanguageId::new("python"), name),
        &format!("src/{}.py", name.replace('.', "/")),
    )
}

fn edge(source: &LocalModule, target: &LocalModule) -> ProjectDependencyResolution {
    ProjectDependencyResolution {
        source_path: source.path.clone(),
        source_module: source.id.copy(),
        reference: DependencyReference {
            kind: DependencyKind::Import,
            module: Some(target.id.qualified_name().to_owned()),
            imported_name: None,
            alias: None,
            relative_level: 0,
            wildcard: false,
            resolution: ResolutionLevel::Syntactic,
            enclosing_symbol: None,
            context: ImportContext::default(),
            span: SourceSpan {
                start: SourcePosition { line: 1, column: 1 },
                end: SourcePosition { line: 1, column: 2 },
                start_byte: 0,
                end_byte: 1,
            },
        },
        outcome: DependencyResolutionOutcome::exact(DependencyTarget::LocalModule(target.copy())),
    }
}

fn graph() -> DependencyGraphAnalysis {
    let a = module("pkg.a");
    let b = module("pkg.b");
    let c = module("pkg.c");
    let d = module("pkg.d");
    analyze_dependency_graph(
        &vec![a.copy(), b.copy(), c.copy(), d.copy()],
        &vec![edge(&a, &b), edge(&a, &c), edge(&b, &d), edge(&c, &d)],
    )
    .expect("graph")
}

fn node_name(node: &DependencyNode) -> &str {
    match node {
        DependencyNode::LocalModule(module) => module.id.qualified_name(),
        _ => panic!("expected local module"),
    }
}

#[test]
fn shortest_path_uses_sorted_neighbors_for_equal_lengths() {
    let result = query_dependency_graph(
        &graph(),
        &DependencyGraphQuery::ShortestPath {
            from: "pkg.a".to_owned(),
            to: "pkg.d".to_owned(),
        },
    )
    .expect("query");
    assert!(result.found);
    assert_eq!(
        result.nodes.iter().map(node_name).collect::<Vec<_>>(),
        ["pkg.a", "pkg.b", "pkg.d"]
    );
}

#[test]
fn closure_supports_both_directed_views() {
    let dependencies = query_dependency_graph(
        &graph(),
        &DependencyGraphQuery::Closure {
            module: "pkg.b".to_owned(),
            direction: DependencyQueryDirection::Dependencies,
        },
    )
    .expect("query");
    assert_eq!(
        dependencies.nodes.iter().map(node_name).collect::<Vec<_>>(),
        ["pkg.b", "pkg.d"]
    );

    let dependents = query_dependency_graph(
        &graph(),
        &DependencyGraphQuery::Closure {
            module: "pkg.d".to_owned(),
            direction: DependencyQueryDirection::Dependents,
        },
    )
    .expect("query");
    assert_eq!(
        dependents.nodes.iter().map(node_name).collect::<Vec<_>>(),
        ["pkg.a", "pkg.b", "pkg.c", "pkg.d"]
    );
}

#[test]
fn same_node_and_unreachable_paths_are_successful_results() {
    let graph = graph();
    let same = query_dependency_graph(
        &graph,
        &DependencyGraphQuery::ShortestPath {
            from: "pkg.a".to_owned(),
            to: "pkg.a".to_owned(),
        },
    )
    .expect("query");
    assert!(same.found);
    assert_eq!(same.nodes.len(), 1);

    let unreachable = query_dependency_graph(
        &graph,
        &DependencyGraphQuery::ShortestPath {
            from: "pkg.d".to_owned(),
            to: "pkg.a".to_owned(),
        },
    )
    .expect("query");
    assert!(!unreachable.found);
    assert_eq!(unreachable.nodes.len(), 2);
    assert!(unreachable.relations.is_empty());
}

#[test]
fn unknown_modules_are_errors_with_close_suggestions() {
    let error = query_dependency_graph(
        &graph(),
        &DependencyGraphQuery::Closure {
            module: "pkg.x".to_owned(),
            direction: DependencyQueryDirection::Dependencies,
        },
    )
    .expect_err("unknown module");
    assert_eq!(error.module, "pkg.x");
    assert_eq!(error.suggestions, ["pkg.a", "pkg.b", "pkg.c"]);
}

#[test]
fn edit_distance_counts_single_character_edits() {
    assert_eq!(edit_distance("kitten", "sitting"), 3);
    assert_eq!(edit_distance("", "abc"), 3);
    assert_eq!(edit_distance("same", "same"), 0);
    assert_eq!(DependencyQueryDirection::Dependents.as_str(), "dependents");
}

#[test]
fn query_views_keep_result_nodes_with_graph_identifiers() {
    let analysis = graph();
    let closure = query_dependency_graph(
        &analysis,
        &DependencyGraphQuery::Closure {
            module: "pkg.b".to_owned(),
            direction: DependencyQueryDirection::Dependencies,
        },
    )
    .expect("closure");
    let view = codegraide::output::dependency_query_view(&analysis, &closure);
    let ids: Vec<&str> = view.nodes.iter().map(|n| n.id.as_str()).collect();
    assert_eq!(ids, vec!["n0001", "n0003"]);
    assert_eq!(view.relations.len(), closure.relations.len());
    assert_eq!(view.strongly_connected_components.len(), 2);
    assert!(view.filter.focus_modules.is_empty());

    let path = query_dependency_graph(
        &analysis,
        &DependencyGraphQuery::ShortestPath {
            from: "pkg.a".to_owned(),
            to: "pkg.d".to_owned(),
        },
    )
    .expect("path");
    let view = codegraide::output::dependency_query_view(&analysis, &path);
    assert_eq!(view.nodes.len(), 3);
    assert!(view.strongly_connected_components.is_empty());
    let fan: Vec<(usize, usize)> = view.nodes.iter().map(|n| (n.fan_in, n.fan_out)).collect();
    assert_eq!(fan[0], (0, 2));
}
