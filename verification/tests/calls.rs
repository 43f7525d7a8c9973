use codegraide::analyzer::{SourcePosition, SourceSpan, SymbolKind};
use codegraide::calls::{
    call_closure, call_node_name, escape_dot, escape_mermaid, resolve_call_selector,
    render_call_dot, render_call_mermaid, shortest_call_path, CallDirection, CallGraphAnalysis,
    CallGraphCoverage, CallGraphView, CallGraphViewNode, CallNode,
    CallRelation, CallRelationKind, ProjectSymbol, ProjectSymbolId, SymbolLinkStatus,
};
use codegraide::dependencies::ModuleId;
use codegraide::report::LanguageId;

fn span(byte: usize) -> SourceSpan {
    SourceSpan {
        start_byte: byte,
        end_byte: byte + 1,
        start: SourcePosition { line: byte + 1, column: 1 },
        end: SourcePosition { line: byte + 1, column: 2 },
    }
}

fn id(language: &str, name: &str, ordinal: usize) -> ProjectSymbolId {
    ProjectSymbolId {
        language: LanguageId::new(language),
        module: ModuleId::new(LanguageId::new(language), "pkg.mod"),
        qualified_name: name.to_owned(),
        kind: SymbolKind::Function,
        duplicate_ordinal: ordinal,
    }
}

fn symbol(name: &str, ordinal: usize) -> CallNode {
    CallNode::LocalSymbol(Box::new(ProjectSymbol {
        call_flow: None,
        id: id("python", name, ordinal),
        path: "src/pkg/mod.py".to_owned(),
        span: span(0),
        declarations: Vec::new(),
        definition: None,
        link_status: SymbolLinkStatus::DefinitionOnly,
        language_module: None,
        architecture_groups: Vec::new(),
        primary_architecture_group: None,
    }))
}

fn relation(source: usize, target: usize, kind: CallRelationKind) -> CallRelation {
    CallRelation {
        source,
        target,
        kind,
        evidence: Vec::new(),
        alternatives: Vec::new(),
        reason: None,
    }
}

fn graph() -> CallGraphAnalysis {
    CallGraphAnalysis {
        nodes: vec![
            symbol("a", 1),
            symbol("b", 1),
            symbol("c", 1),
            CallNode::Unresolved { source: id("python", "a", 1), spelling: "dynamic".to_owned() },
        ],
        relations: vec![
            relation(0, 1, CallRelationKind::Exact),
            relation(1, 0, CallRelationKind::Exact),
            relation(1, 2, CallRelationKind::Exact),
            relation(0, 2, CallRelationKind::Inferred),
            relation(0, 3, CallRelationKind::Unresolved),
        ],
        metrics: Vec::new(),
        strongly_connected_components: Vec::new(),
        cycles: Vec::new(),
        coverage: CallGraphCoverage {
            total_calls: 5,
            exact_calls: 3,
            inferred_calls: 1,
            external_calls: 0,
            ambiguous_calls: 0,
            unresolved_calls: 1,
            unavailable_calls: 0,
        },
    }
}

#[test]
fn selectors_name_one_symbol_by_module_or_ordinal() {
    let g = graph();
    assert_eq!(id("python", "a", 2).base_selector(), "pkg.mod::a");
    assert_eq!(id("python", "a", 2).ordinal_selector(), "pkg.mod::a#2");
    assert_eq!(id("cpp", "ns::f", 1).base_selector(), "ns::f");
    assert_eq!(resolve_call_selector(&g.nodes, "pkg.mod::b").ok(), Some(1));
    assert_eq!(resolve_call_selector(&g.nodes, "pkg.mod::b#1").ok(), Some(1));
    let missing = resolve_call_selector(&g.nodes, "pkg.mod::z").err().expect("missing");
    assert_eq!(missing.message(), "symbol \"pkg.mod::z\" was not found");
    let mut twice = graph();
    twice.nodes.push(symbol("b", 2));
    let duplicate = resolve_call_selector(&twice.nodes, "pkg.mod::b").err().expect("duplicate");
    assert_eq!(
        duplicate.message(),
        "symbol \"pkg.mod::b\" has duplicate definitions; select one with #N"
    );
    assert_eq!(resolve_call_selector(&twice.nodes, "pkg.mod::b#2").ok(), Some(4));
}

#[test]
fn shortest_call_paths_follow_exact_calls_only() {
    let g = graph();
    let path = shortest_call_path(&g, "pkg.mod::a", "pkg.mod::b").expect("path").expect("connected");
    assert_eq!(path, [0, 1]);
    let longer = shortest_call_path(&g, "pkg.mod::a", "pkg.mod::c").expect("path").expect("connected");
    assert_eq!(longer, [0, 1, 2]);
    let itself = shortest_call_path(&g, "pkg.mod::a", "pkg.mod::a").expect("path").expect("connected");
    assert_eq!(itself, [0]);
    assert_eq!(shortest_call_path(&g, "pkg.mod::c", "pkg.mod::a").expect("path"), None);
}

#[test]
fn closures_hold_the_root_and_are_ascending() {
    let g = graph();
    assert_eq!(call_closure(&g, "pkg.mod::a", CallDirection::Callees).expect("closure"), [0, 1, 2]);
    assert_eq!(call_closure(&g, "pkg.mod::c", CallDirection::Callers).expect("closure"), [0, 1, 2]);
    assert_eq!(call_closure(&g, "pkg.mod::c", CallDirection::Callees).expect("closure"), [2]);
    let both = call_closure(&g, "pkg.mod::a", CallDirection::Both).err().expect("refused");
    assert_eq!(
        both.message(),
        "call closure direction must be callers or callees, not both"
    );
}

#[test]
fn node_names_kinds_and_label_escapes() {
    let g = graph();
    assert_eq!(call_node_name(&g.nodes[0]), "pkg.mod::a");
    assert_eq!(call_node_name(&g.nodes[3]), "dynamic");
    assert_eq!(g.nodes[3].kind(), "unresolved");
    assert_eq!(g.nodes[0].kind(), "local-symbol");
    assert_eq!(CallRelationKind::Inferred.as_str(), "inferred");
    assert_eq!(SymbolLinkStatus::DeclarationOnly.as_str(), "declaration-only");
    assert_eq!(escape_mermaid("a<\"b\">&c"), "a&lt;&quot;b&quot;&gt;&amp;c");
    assert_eq!(escape_dot("a\\b\"c\nd"), "a\\\\b\\\"c\\nd");
}

fn view_node(id: &str, node: usize) -> CallGraphViewNode {
    CallGraphViewNode { id: id.to_owned(), node, fan_in: 0, fan_out: 0, cyclic_component: None }
}

#[test]
fn mermaid_and_dot_list_nodes_then_relations() {
    let g = graph();
    let view = CallGraphView {
        nodes: vec![view_node("c0000", 0), view_node("c0003", 3)],
        relations: vec![relation(0, 3, CallRelationKind::Unresolved), relation(0, 0, CallRelationKind::Exact)],
    };
    assert_eq!(
        render_call_mermaid(&g, &view),
        "flowchart LR\n  c0000[\"pkg.mod::a\"]\n  c0003[\"dynamic\"]\n  c0000 -. unresolved .-> c0003\n  c0000 -->|exact| c0000\n"
    );
    assert_eq!(
        render_call_dot(&g, &view),
        "digraph call_graph {\n  rankdir=LR;\n  c0000 [label=\"pkg.mod::a\"];\n  c0003 [label=\"dynamic\"];\n  c0000 -> c0003 [label=\"unresolved\",style=dashed,color=\"#b93443\"];\n  c0000 -> c0000 [label=\"exact\",color=\"#16805c\"];\n}\n"
    );
}
