use codegraide::analyzer::{
    DependencyKind, DependencyReference, ImportContext, ResolutionLevel, SourcePosition,
    SourceSpan,
};
use codegraide::dependencies::{
    DependencyResolutionOutcome, DependencyTarget, LocalModule, ModuleId,
    ProjectDependencyResolution, UnresolvedDependencyReason,
};
use codegraide::graph::analyze_dependency_graph;
use codegraide::output::{
    filter_dependency_graph, DependencyDirection, DependencyGraphFilter,
};
use codegraide::render::{render_dependency_dot, render_dependency_mermaid};
use codegraide::report::LanguageId;

fn local(name: &str) -> LocalModule {
    LocalModule::new(
        ModuleId::new(LanguageId::new("python"), name),
        &format!("{name}.py"),
    )
}

fn reference(module: &str) -> DependencyReference {
    DependencyReference {
        kind: DependencyKind::Import,
        module: Some(module.to_owned()),
        imported_name: None,
        alias: None,
        relative_level: 0,
        wildcard: false,
        resolution: ResolutionLevel::Syntactic,
        enclosing_symbol: None,
        context: ImportContext::default(),
        span: SourceSpan {
            start_byte: 0,
            end_byte: 1,
            start: SourcePosition { line: 1, column: 0 },
            end: SourcePosition { line: 1, column: 1 },
        },
    }
}

fn edge(source: &LocalModule, target: &LocalModule) -> ProjectDependencyResolution {
    ProjectDependencyResolution::new(
        &source.path,
        source.id.copy(),
        reference(target.id.qualified_name()),
        DependencyResolutionOutcome::exact(DependencyTarget::LocalModule(target.copy())),
    )
}

fn focus(names: &[&str], depth: usize) -> DependencyGraphFilter {
    let mut filter = DependencyGraphFilter::default();
    filter.focus_modules = names.iter().map(|n| n.to_string()).collect();
    filter.depth = depth;
    filter
}

fn local_names(view: &codegraide::output::DependencyGraphView) -> Vec<String> {
    view.nodes
        .iter()
        .map(|node| match &node.node {
            codegraide::graph::DependencyNode::LocalModule(m) => m.id.qualified_name().to_owned(),
            other => format!("{other:?}"),
        })
        .collect()
}

#[test]
fn focused_views_are_cycle_complete_and_keep_global_metrics() {
    let a = local("a");
    let b = local("b");
    let c = local("c");
    let analysis = analyze_dependency_graph(
        &vec![a.copy(), b.copy(), c],
        &vec![edge(&a, &b), edge(&b, &a)],
    )
    .expect("graph");
    let view = filter_dependency_graph(&analysis, &focus(&["a"], 0)).expect("view");
    assert_eq!(view.nodes.len(), 2);
    assert!(
        view.nodes
            .iter()
            .all(|node| node.cyclic_component == Some(1))
    );
    assert!(
        view.nodes
            .iter()
            .all(|node| node.fan_in == 1 && node.fan_out == 1)
    );
}

#[test]
fn exact_only_removes_uncertain_placeholder_nodes() {
    let a = local("a");
    let unresolved = ProjectDependencyResolution::new(
        &a.path,
        a.id.copy(),
        reference("missing"),
        DependencyResolutionOutcome::unresolved("missing", UnresolvedDependencyReason::ModuleNotFound),
    );
    let analysis = analyze_dependency_graph(&vec![a], &vec![unresolved]).expect("graph");
    let mut filter = DependencyGraphFilter::default();
    filter.exact_only = true;
    let view = filter_dependency_graph(&analysis, &filter).expect("view");

    assert_eq!(view.nodes.len(), 1);
    assert!(view.relations.is_empty());
}

#[test]
fn the_default_filter_keeps_every_node_and_relation() {
    let a = local("a");
    let b = local("b");
    let c = local("c");
    let analysis = analyze_dependency_graph(
        &vec![a.copy(), b.copy(), c.copy()],
        &vec![edge(&a, &b), edge(&b, &c)],
    )
    .expect("graph");
    let view = filter_dependency_graph(&analysis, &DependencyGraphFilter::default()).expect("view");
    assert_eq!(local_names(&view), vec!["a", "b", "c"]);
    assert_eq!(view.relations.len(), 2);
    assert_eq!(view.strongly_connected_components.len(), 3);
    let ids: Vec<&str> = view.nodes.iter().map(|n| n.id.as_str()).collect();
    assert_eq!(ids, vec!["n0000", "n0001", "n0002"]);
    assert!(view.nodes.iter().all(|n| n.cyclic_component.is_none()));
}

#[test]
fn depth_and_direction_bound_a_focused_view() {
    let a = local("a");
    let b = local("b");
    let c = local("c");
    let analysis = analyze_dependency_graph(
        &vec![a.copy(), b.copy(), c.copy()],
        &vec![edge(&a, &b), edge(&b, &c)],
    )
    .expect("graph");
    let view = filter_dependency_graph(&analysis, &focus(&["a"], 1)).expect("view");
    assert_eq!(local_names(&view), vec!["a", "b"]);
    assert_eq!(view.relations.len(), 1);

    let view = filter_dependency_graph(&analysis, &focus(&["a"], 2)).expect("view");
    assert_eq!(local_names(&view), vec!["a", "b", "c"]);

    let mut dependents = focus(&["b"], 1);
    dependents.direction = DependencyDirection::Dependents;
    let view = filter_dependency_graph(&analysis, &dependents).expect("view");
    assert_eq!(local_names(&view), vec!["a", "b"]);

    let mut dependencies = focus(&["b"], 1);
    dependencies.direction = DependencyDirection::Dependencies;
    let view = filter_dependency_graph(&analysis, &dependencies).expect("view");
    assert_eq!(local_names(&view), vec!["b", "c"]);
}

#[test]
fn cycles_only_keeps_the_members_of_cycles() {
    let a = local("a");
    let b = local("b");
    let c = local("c");
    let analysis = analyze_dependency_graph(
        &vec![a.copy(), b.copy(), c.copy()],
        &vec![edge(&a, &b), edge(&b, &a), edge(&b, &c)],
    )
    .expect("graph");
    let mut filter = DependencyGraphFilter::default();
    filter.cycles_only = true;
    let view = filter_dependency_graph(&analysis, &filter).expect("view");
    assert_eq!(local_names(&view), vec!["a", "b"]);
    assert_eq!(view.relations.len(), 2);
    assert!(view.nodes.iter().all(|n| n.cyclic_component == Some(1)));
}

#[test]
fn an_unknown_focus_module_suggests_the_nearest_names() {
    let analysis = analyze_dependency_graph(
        &vec![local("alpha"), local("alps"), local("beta"), local("gamma")],
        &vec![],
    )
    .expect("graph");
    let error = filter_dependency_graph(&analysis, &focus(&["alph"], 1)).expect_err("unknown focus");
    assert_eq!(error.module, "alph");
    assert_eq!(error.suggestions, vec!["alpha", "alps", "beta"]);
    assert_eq!(
        error.message(),
        "focus unit \"alph\" is not a local dependency unit; did you mean alpha, alps, beta?"
    );
}

#[test]
fn direction_names_are_stable() {
    assert_eq!(DependencyDirection::Dependencies.as_str(), "dependencies");
    assert_eq!(DependencyDirection::Dependents.as_str(), "dependents");
    assert_eq!(DependencyDirection::Both.as_str(), "both");
}

#[test]
fn renderers_emit_valid_directed_graph_envelopes() {
    let a = local("end");
    let analysis = analyze_dependency_graph(&vec![a], &vec![]).expect("graph");
    let view = filter_dependency_graph(&analysis, &DependencyGraphFilter::default()).expect("view");
    let mermaid = render_dependency_mermaid(&view);
    let dot = render_dependency_dot(&view);
    assert!(mermaid.starts_with("flowchart LR\n"));
    assert!(mermaid.contains("[\"end<br/>end.py\"]"));
    assert!(!mermaid.contains("in 0 · out 0"));
    assert!(dot.starts_with("digraph dependencies"));
    assert!(dot.ends_with("}\n"));
}

fn cycle_view() -> codegraide::output::DependencyGraphView {
    let a = local("a");
    let b = local("b");
    let c = local("c");
    let analysis = analyze_dependency_graph(
        &vec![a.copy(), b.copy(), c.copy()],
        &vec![edge(&a, &b), edge(&b, &a)],
    )
    .expect("graph");
    filter_dependency_graph(&analysis, &DependencyGraphFilter::default()).expect("view")
}

#[test]
fn mermaid_groups_cycles_and_classes_nodes() {
    let expected = [
        "flowchart LR",
        "  n0002[\"c<br/>c.py\"]",
        "  subgraph cycle_1[\"Cycle 1\"]",
        "    n0000[\"a<br/>a.py\"]",
        "    n0001[\"b<br/>b.py\"]",
        "  end",
        "  n0000 --> n0001",
        "  n0001 --> n0000",
        "  classDef local fill:#dbeafe,stroke:#2563eb,color:#172554",
        "  classDef standard fill:#f3f4f6,stroke:#6b7280,color:#111827",
        "  classDef installed fill:#dcfce7,stroke:#16a34a,color:#14532d",
        "  classDef ambiguous fill:#ffedd5,stroke:#ea580c,color:#7c2d12",
        "  classDef unresolved fill:#fee2e2,stroke:#dc2626,color:#7f1d1d",
        "  classDef cyclic stroke:#dc2626,stroke-width:3px",
        "  class n0000 local",
        "  class n0000 cyclic",
        "  class n0001 local",
        "  class n0001 cyclic",
        "  class n0002 local",
        "",
    ]
    .join("\n");
    assert_eq!(render_dependency_mermaid(&cycle_view()), expected);
}

#[test]
fn dot_draws_cycles_as_clusters() {
    let expected = [
        "digraph dependencies {",
        "  rankdir=LR;",
        "  graph [fontname=\"Helvetica\"];",
        "  node [fontname=\"Helvetica\", style=filled];",
        "  edge [fontname=\"Helvetica\"];",
        "  n0002 [label=\"c\\nc.py\",shape=box,fillcolor=\"#dbeafe\",color=\"#374151\"];",
        "  subgraph cluster_cycle_1 {",
        "    label=\"Cycle 1\";",
        "    color=\"#dc2626\";",
        "    n0000 [label=\"a\\na.py\",shape=box,fillcolor=\"#dbeafe\",color=\"#dc2626\"];",
        "    n0001 [label=\"b\\nb.py\",shape=box,fillcolor=\"#dbeafe\",color=\"#dc2626\"];",
        "  }",
        "  n0000 -> n0001;",
        "  n0001 -> n0000;",
        "}",
        "",
    ]
    .join("\n");
    assert_eq!(render_dependency_dot(&cycle_view()), expected);
}

#[test]
fn labels_are_escaped_for_each_format() {
    let weird = LocalModule::new(
        ModuleId::new(LanguageId::new("python"), "q\"<&>"),
        "dir\\x.py",
    );
    let analysis = analyze_dependency_graph(&vec![weird], &vec![]).expect("graph");
    let view = filter_dependency_graph(&analysis, &DependencyGraphFilter::default()).expect("view");
    assert!(render_dependency_mermaid(&view)
        .contains("  n0000[\"q&quot;&lt;&amp;&gt;<br/>dir\\x.py\"]\n"));
    assert!(render_dependency_dot(&view)
        .contains("  n0000 [label=\"q\\\"<&>\\ndir\\\\x.py\",shape=box"));
}
